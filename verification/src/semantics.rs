//! The meaning of template expansion.
//!
//! Expansion is defined here as a small-step machine over the template's
//! characters: literal characters accumulate in a raw segment, and each
//! control character (`|`, `{`, `}`) or the end of input transforms the
//! frame stack. Random selection is modelled by a sequence of abstract
//! draws, consumed one per resolved group; the deterministic modes ignore
//! the draws, and [`lemma_deterministic_modes`] proves that their outcome is
//! a function of the template alone. [`lemma_errors_draw_independent`]
//! proves that whether expansion fails, and with which error, never depends
//! on the draws.

use vstd::prelude::*;
use crate::frames::SChoice;
use crate::frames::SFrame;
use crate::frames::empty_choice;
use crate::frames::empty_frame;
use crate::select::SelectionMode;
use crate::select::select_idx;
use crate::weights::WeightErrorCause;
use crate::weights::WeightParse;
use crate::weights::weight_parse;

verus! {

/// A structured parse error, at the specification level. Offsets are
/// character offsets into the template.
pub ghost enum SError {
    /// A `}` with no matching `{`, at the brace's offset.
    UnexpectedClosingBrace { offset: int },
    /// A `{` never closed, at the brace's offset.
    UnclosedBrace { offset: int },
    /// A malformed weight specifier: the offset of the first character
    /// after the colon, the offending text, and the reason.
    InvalidWeightSpecifier { offset: int, specifier: Seq<char>, cause: WeightErrorCause },
}

/// Whether `c` is one of the three control characters.
pub open spec fn is_control(c: char) -> bool {
    c == '|' || c == '{' || c == '}'
}

/// The machine's state: the open frames, outermost first and never empty,
/// and the raw literal segment accumulated since the last control character.
#[verifier::ext_equal]
pub ghost struct MState {
    pub frames: Seq<SFrame>,
    pub seg: Seq<char>,
}

/// The state at the start of a parse: only the implicit top-level frame.
pub open spec fn init_state() -> MState {
    MState { frames: seq![empty_frame(0)], seg: Seq::empty() }
}

/// The outcome of one machine step.
pub ghost enum StepResult {
    Cont { st: MState, draws: Seq<int> },
    Fail { err: SError },
}

/// The outcome of a whole run.
pub ghost enum RunResult {
    Done { text: Seq<char> },
    Failed { err: SError },
}

pub open spec fn head_draw(draws: Seq<int>) -> int {
    if draws.len() > 0 {
        draws[0]
    } else {
        0
    }
}

pub open spec fn tail_draws(draws: Seq<int>) -> Seq<int> {
    if draws.len() > 0 {
        draws.drop_first()
    } else {
        draws
    }
}

/// Finalizing a segment: the segment's weight-parsed text is appended to the
/// innermost frame's open choice and the parsed weight becomes that choice's
/// weight.
pub open spec fn finalize_frames(frames: Seq<SFrame>, text: Seq<char>, weight: int) -> Seq<
    SFrame,
> {
    let f = frames.last();
    frames.drop_last().push(
        SFrame { start: f.start, done: f.done, cur: SChoice { text: f.cur.text + text, weight } },
    )
}

/// One step of the machine on the character `c` at offset `i`.
///
/// A literal character extends the segment. `|` finalizes the segment into
/// the open choice and starts a new one. `{` appends the segment verbatim
/// (the text belongs to the parent choice, which keeps its weight) and opens
/// a new frame. `}` finalizes the segment, closes the innermost frame — an
/// error if only the top-level frame is open — and splices the selected
/// alternative's text into the parent's open choice, consuming one draw in
/// the random mode.
pub open spec fn mstep(
    st: MState,
    c: char,
    i: int,
    mode: SelectionMode,
    tolerant: bool,
    draws: Seq<int>,
) -> StepResult {
    if !is_control(c) {
        StepResult::Cont { st: MState { frames: st.frames, seg: st.seg.push(c) }, draws }
    } else if c == '{' {
        let f = st.frames.last();
        let f2 = SFrame {
            start: f.start,
            done: f.done,
            cur: SChoice { text: f.cur.text + st.seg, weight: f.cur.weight },
        };
        StepResult::Cont {
            st: MState {
                frames: st.frames.drop_last().push(f2).push(empty_frame(i)),
                seg: Seq::empty(),
            },
            draws,
        }
    } else {
        match weight_parse(st.seg, tolerant) {
            WeightParse::Invalid { index, specifier, cause } => StepResult::Fail {
                err: SError::InvalidWeightSpecifier {
                    offset: i - st.seg.len() + index,
                    specifier,
                    cause,
                },
            },
            WeightParse::Parsed { text, weight } => {
                let ff = finalize_frames(st.frames, text, weight);
                if c == '|' {
                    let f = ff.last();
                    let f2 = SFrame {
                        start: f.start,
                        done: f.done.push(f.cur),
                        cur: empty_choice(),
                    };
                    StepResult::Cont {
                        st: MState { frames: ff.drop_last().push(f2), seg: Seq::empty() },
                        draws,
                    }
                } else {
                    // c == '}'
                    if ff.len() <= 1 {
                        StepResult::Fail { err: SError::UnexpectedClosingBrace { offset: i } }
                    } else {
                        let f = ff.last();
                        let cs = f.done.push(f.cur);
                        let d = if mode == SelectionMode::RandomWeighted {
                            head_draw(draws)
                        } else {
                            0
                        };
                        let rest = if mode == SelectionMode::RandomWeighted {
                            tail_draws(draws)
                        } else {
                            draws
                        };
                        let winner = cs[select_idx(cs, mode, d)].text;
                        let p = ff[ff.len() - 2];
                        let p2 = SFrame {
                            start: p.start,
                            done: p.done,
                            cur: SChoice { text: p.cur.text + winner, weight: p.cur.weight },
                        };
                        StepResult::Cont {
                            st: MState {
                                frames: ff.drop_last().drop_last().push(p2),
                                seg: Seq::empty(),
                            },
                            draws: rest,
                        }
                    }
                }
            },
        }
    }
}

/// The end of input: the last segment is finalized; any frame above the
/// top-level one is an unclosed brace, reported at its opening offset;
/// otherwise the top-level frame itself is resolved and its selected
/// alternative is the result.
pub open spec fn mfinish(
    st: MState,
    n: int,
    mode: SelectionMode,
    tolerant: bool,
    draws: Seq<int>,
) -> RunResult {
    match weight_parse(st.seg, tolerant) {
        WeightParse::Invalid { index, specifier, cause } => RunResult::Failed {
            err: SError::InvalidWeightSpecifier {
                offset: n - st.seg.len() + index,
                specifier,
                cause,
            },
        },
        WeightParse::Parsed { text, weight } => {
            if st.frames.len() > 1 {
                RunResult::Failed {
                    err: SError::UnclosedBrace { offset: st.frames.last().start },
                }
            } else {
                let ff = finalize_frames(st.frames, text, weight);
                let f = ff.last();
                let cs = f.done.push(f.cur);
                let d = if mode == SelectionMode::RandomWeighted {
                    head_draw(draws)
                } else {
                    0
                };
                RunResult::Done { text: cs[select_idx(cs, mode, d)].text }
            }
        },
    }
}

/// Runs the machine from offset `i` in state `st` to the end of the
/// template.
pub open spec fn run_from(
    t: Seq<char>,
    i: int,
    st: MState,
    mode: SelectionMode,
    tolerant: bool,
    draws: Seq<int>,
) -> RunResult
    decreases t.len() - i,
{
    if i < 0 || i >= t.len() {
        mfinish(st, t.len() as int, mode, tolerant, draws)
    } else {
        match mstep(st, t[i], i, mode, tolerant, draws) {
            StepResult::Fail { err } => RunResult::Failed { err },
            StepResult::Cont { st: st2, draws: d2 } => run_from(t, i + 1, st2, mode, tolerant, d2),
        }
    }
}

/// A whole run of the machine over the template `t` with the draws `draws`.
pub open spec fn run(
    t: Seq<char>,
    mode: SelectionMode,
    tolerant: bool,
    draws: Seq<int>,
) -> RunResult {
    run_from(t, 0, init_state(), mode, tolerant, draws)
}

/// `out` is a possible expansion of `t`: some sequence of draws produces it.
pub open spec fn expansion_of(
    t: Seq<char>,
    mode: SelectionMode,
    tolerant: bool,
    out: Seq<char>,
) -> bool {
    exists|draws: Seq<int>| run(t, mode, tolerant, draws) == RunResult::Done { text: out }
}

/// Expanding `t` fails with exactly the error `e`, whatever is drawn.
pub open spec fn fails_with(
    t: Seq<char>,
    mode: SelectionMode,
    tolerant: bool,
    e: SError,
) -> bool {
    forall|draws: Seq<int>| run(t, mode, tolerant, draws) == RunResult::Failed { err: e }
}

/// Two states agree on everything that error detection can see: the raw
/// segment, the number of open frames, and their opening offsets.
pub open spec fn same_shape(a: MState, b: MState) -> bool {
    &&& a.seg == b.seg
    &&& a.frames.len() == b.frames.len()
    &&& forall|k: int| 0 <= k < a.frames.len() ==> a.frames[k].start == (#[trigger] b.frames[k]).start
}

/// From states of the same shape, two runs either both succeed or fail with
/// the same error, whatever their draws: selection changes only the texts
/// spliced into choices, which error detection never reads.
proof fn lemma_run_from_same_shape(
    t: Seq<char>,
    i: int,
    a: MState,
    b: MState,
    mode: SelectionMode,
    tolerant: bool,
    da: Seq<int>,
    db: Seq<int>,
)
    requires
        same_shape(a, b),
        a.frames.len() >= 1,
    ensures
        match (run_from(t, i, a, mode, tolerant, da), run_from(t, i, b, mode, tolerant, db)) {
            (RunResult::Failed { err: e1 }, RunResult::Failed { err: e2 }) => e1 == e2,
            (RunResult::Done { .. }, RunResult::Done { .. }) => true,
            _ => false,
        },
    decreases t.len() - i,
{
    if i < 0 || i >= t.len() {
        assert(a.frames.last().start == b.frames.last().start);
    } else {
        let c = t[i];
        let ra = mstep(a, c, i, mode, tolerant, da);
        let rb = mstep(b, c, i, mode, tolerant, db);
        if !is_control(c) {
            let a2 = MState { frames: a.frames, seg: a.seg.push(c) };
            let b2 = MState { frames: b.frames, seg: b.seg.push(c) };
            lemma_run_from_same_shape(t, i + 1, a2, b2, mode, tolerant, da, db);
        } else if c == '{' {
            let a2 = (ra->Cont_st);
            let b2 = (rb->Cont_st);
            assert(same_shape(a2, b2)) by {
                assert(forall|k: int|
                    0 <= k < a2.frames.len() ==> a2.frames[k].start == (
                    #[trigger] b2.frames[k]).start);
            }
            lemma_run_from_same_shape(t, i + 1, a2, b2, mode, tolerant, da, db);
        } else {
            match weight_parse(a.seg, tolerant) {
                WeightParse::Invalid { .. } => {},
                WeightParse::Parsed { text, weight } => {
                    if c == '|' {
                        let a2 = (ra->Cont_st);
                        let b2 = (rb->Cont_st);
                        assert(same_shape(a2, b2)) by {
                            assert(forall|k: int|
                                0 <= k < a2.frames.len() ==> a2.frames[k].start == (
                                #[trigger] b2.frames[k]).start);
                        }
                        lemma_run_from_same_shape(t, i + 1, a2, b2, mode, tolerant, da, db);
                    } else {
                        if a.frames.len() > 1 {
                            let a2 = (ra->Cont_st);
                            let b2 = (rb->Cont_st);
                            let da2 = (ra->Cont_draws);
                            let db2 = (rb->Cont_draws);
                            assert(same_shape(a2, b2)) by {
                                assert(forall|k: int|
                                    0 <= k < a2.frames.len() ==> a2.frames[k].start == (
                                    #[trigger] b2.frames[k]).start);
                            }
                            lemma_run_from_same_shape(t, i + 1, a2, b2, mode, tolerant, da2, db2);
                        }
                    }
                },
            }
        }
    }
}

/// Whether expansion fails, and with which error, is independent of the
/// draws: parse errors come from the template alone.
pub proof fn lemma_errors_draw_independent(
    t: Seq<char>,
    mode: SelectionMode,
    tolerant: bool,
    d1: Seq<int>,
    d2: Seq<int>,
)
    ensures
        match (run(t, mode, tolerant, d1), run(t, mode, tolerant, d2)) {
            (RunResult::Failed { err: e1 }, RunResult::Failed { err: e2 }) => e1 == e2,
            (RunResult::Done { .. }, RunResult::Done { .. }) => true,
            _ => false,
        },
{
    lemma_run_from_same_shape(t, 0, init_state(), init_state(), mode, tolerant, d1, d2);
}

/// One failing run makes every run fail the same way.
pub proof fn lemma_fails_with(
    t: Seq<char>,
    mode: SelectionMode,
    tolerant: bool,
    d: Seq<int>,
    e: SError,
)
    requires
        run(t, mode, tolerant, d) == (RunResult::Failed { err: e }),
    ensures
        fails_with(t, mode, tolerant, e),
{
    assert forall|draws: Seq<int>|
        run(t, mode, tolerant, draws) == RunResult::Failed { err: e } by {
        lemma_errors_draw_independent(t, mode, tolerant, d, draws);
    }
}

/// In a deterministic mode the machine never reads a draw, so the whole run
/// is a pure function of the template: expanding twice with the same
/// deterministic mode yields the identical result.
pub proof fn lemma_deterministic_modes(
    t: Seq<char>,
    mode: SelectionMode,
    tolerant: bool,
    d1: Seq<int>,
    d2: Seq<int>,
)
    requires
        mode != SelectionMode::RandomWeighted,
    ensures
        run(t, mode, tolerant, d1) == run(t, mode, tolerant, d2),
{
    lemma_run_from_det(t, 0, init_state(), mode, tolerant, d1, d2);
}

proof fn lemma_run_from_det(
    t: Seq<char>,
    i: int,
    st: MState,
    mode: SelectionMode,
    tolerant: bool,
    d1: Seq<int>,
    d2: Seq<int>,
)
    requires
        mode != SelectionMode::RandomWeighted,
    ensures
        run_from(t, i, st, mode, tolerant, d1) == run_from(t, i, st, mode, tolerant, d2),
    decreases t.len() - i,
{
    if 0 <= i < t.len() {
        let r1 = mstep(st, t[i], i, mode, tolerant, d1);
        let r2 = mstep(st, t[i], i, mode, tolerant, d2);
        match r1 {
            StepResult::Fail { .. } => {},
            StepResult::Cont { st: st2, .. } => {
                assert(r2 matches StepResult::Cont { st: st2b, .. } && st2b == st2);
                lemma_run_from_det(t, i + 1, st2, mode, tolerant, d1, d2);
            },
        }
    }
}

} // verus!
