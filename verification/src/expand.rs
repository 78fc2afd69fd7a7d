//! The expander: one pass over the template, proved to implement the
//! machine of [`crate::semantics`].

use vstd::prelude::*;
use vstd::string::*;
use crate::frames::Choice;
use crate::frames::SFrame;
use crate::frames::Stack;
use crate::frames::empty_choice;
use crate::frames::empty_frame;
use crate::select::SelectionMode;
use crate::semantics::MState;
use crate::semantics::RunResult;
use crate::semantics::SError;
use crate::semantics::StepResult;
use crate::semantics::expansion_of;
use crate::semantics::fails_with;
use crate::semantics::finalize_frames;
use crate::semantics::head_draw;
use crate::semantics::init_state;
use crate::semantics::lemma_deterministic_modes;
use crate::semantics::lemma_fails_with;
use crate::semantics::mfinish;
use crate::semantics::mstep;
use crate::semantics::run;
use crate::semantics::run_from;
use crate::semantics::tail_draws;
use crate::weights::WeightErrorCause;
use crate::weights::WeightParse;
use crate::weights::chars_to_string;
use crate::weights::lemma_last_colon_bounds;
use crate::weights::parse_weight;
use crate::weights::weight_parse;

verus! {

/// A structured parse error. Offsets are character offsets into the
/// template, never byte offsets, so they stay correct for non-ASCII input.
#[derive(Clone, Debug, PartialEq)]
pub enum ParseError {
    /// A `}` with no matching `{`, at the brace's offset.
    UnexpectedClosingBrace(usize),
    /// A `{` never closed, at the brace's offset.
    UnclosedBrace(usize),
    /// A malformed weight specifier: the offset of the first character
    /// after the colon, the offending text, and the reason.
    InvalidWeightSpecifier { offset: usize, specifier: String, cause: WeightErrorCause },
}

impl View for ParseError {
    type V = SError;

    open spec fn view(&self) -> SError {
        match self {
            ParseError::UnexpectedClosingBrace(o) => SError::UnexpectedClosingBrace {
                offset: *o as int,
            },
            ParseError::UnclosedBrace(o) => SError::UnclosedBrace { offset: *o as int },
            ParseError::InvalidWeightSpecifier { offset, specifier, cause } => SError::InvalidWeightSpecifier {
                offset: *offset as int,
                specifier: specifier@,
                cause: *cause,
            },
        }
    }
}

/// The behaviour switches for one expansion run.
#[derive(Clone, Copy, Debug)]
pub struct GenerationOptions {
    /// How each choice group is resolved.
    pub selection_mode: SelectionMode,
    /// Treat a segment whose weight specifier does not parse as plain
    /// literal text with the default weight, instead of failing. Never
    /// tolerates a negative weight.
    pub tolerate_malformed_weights: bool,
}

/// Finalizes the segment `seg`, which ends at character offset `seg_end`,
/// into the innermost frame's open choice, or reports the segment's
/// malformed weight specifier.
fn apply_weight(stack: &mut Stack, seg: Vec<char>, seg_end: usize, tolerant: bool) -> (r: Result<
    (),
    ParseError,
>)
    requires
        seg@.len() <= seg_end,
        old(stack)@.len() >= 1,
    ensures
        match r {
            Ok(_) => (weight_parse(seg@, tolerant) matches WeightParse::Parsed { text, weight }
                && final(stack)@ == finalize_frames(old(stack)@, text, weight)),
            Err(e) => (weight_parse(seg@, tolerant) matches WeightParse::Invalid {
                index,
                specifier,
                cause,
            } && e@ == (SError::InvalidWeightSpecifier {
                offset: seg_end - seg@.len() + index,
                specifier,
                cause,
            })),
        },
{
    let seg_len = seg.len();
    proof {
        lemma_last_colon_bounds(seg@);
    }
    match parse_weight(seg, tolerant) {
        Ok((text, w)) => {
            let mut text = text;
            stack.top.top.text.append(&mut text);
            stack.top.top.weight = w;
            proof {
                let wp = weight_parse(seg@, tolerant);
                assert(stack@ =~~= finalize_frames(
                    old(stack)@,
                    wp->Parsed_text,
                    wp->Parsed_weight,
                ));
            }
            Ok(())
        },
        Err(e) => {
            let offset = seg_end - seg_len + e.index;
            Err(
                ParseError::InvalidWeightSpecifier {
                    offset,
                    specifier: e.specifier,
                    cause: e.cause,
                },
            )
        },
    }
}

/// Expands the template, given as its sequence of characters: parses the
/// brace-and-pipe choice groups and resolves each group to one alternative
/// under `options`.
///
/// On success the result is one possible run of the machine over the
/// template — for the deterministic modes, *the* run, a pure function of
/// the template. On failure the error is exactly the one the machine
/// reaches, whatever would have been drawn.
pub fn expand_chars(template: &Vec<char>, options: &GenerationOptions) -> (r: Result<
    Vec<char>,
    ParseError,
>)
    ensures
        (match r {
            Ok(out) => expansion_of(
                template@,
                options.selection_mode,
                options.tolerate_malformed_weights,
                out@,
            ),
            Err(e) => fails_with(
                template@,
                options.selection_mode,
                options.tolerate_malformed_weights,
                e@,
            ),
        }),
        options.selection_mode != SelectionMode::RandomWeighted ==> (match r {
            Ok(out) => run(
                template@,
                options.selection_mode,
                options.tolerate_malformed_weights,
                Seq::empty(),
            ) == (RunResult::Done { text: out@ }),
            Err(e) => run(
                template@,
                options.selection_mode,
                options.tolerate_malformed_weights,
                Seq::empty(),
            ) == (RunResult::Failed { err: e@ }),
        }),
{
    let ghost t = template@;
    let ghost mode = options.selection_mode;
    let ghost tol = options.tolerate_malformed_weights;
    let tolerant = options.tolerate_malformed_weights;
    let random = matches!(options.selection_mode, SelectionMode::RandomWeighted);
    let mut stack = Stack::new();
    let mut seg: Vec<char> = Vec::new();
    let ghost mut dr: Seq<int> = Seq::empty();
    let mut i: usize = 0;
    proof {
        assert(MState { frames: stack@, seg: seg@ } =~~= init_state());
        assert forall|rest: Seq<int>|
            run(t, mode, tol, dr + rest) == #[trigger] run_from(
                t,
                0,
                MState { frames: stack@, seg: seg@ },
                mode,
                tol,
                rest,
            ) by {
            assert(dr + rest =~= rest);
        }
    }
    while i < template.len()
        invariant
            i <= t.len(),
            t == template@,
            mode == options.selection_mode,
            tol == options.tolerate_malformed_weights,
            tolerant == tol,
            random == (mode == SelectionMode::RandomWeighted),
            seg@.len() <= i,
            stack@.len() >= 1,
            forall|rest: Seq<int>|
                run(t, mode, tol, dr + rest) == #[trigger] run_from(
                    t,
                    i as int,
                    MState { frames: stack@, seg: seg@ },
                    mode,
                    tol,
                    rest,
                ),
        decreases t.len() - i,
    {
        let ghost st0 = MState { frames: stack@, seg: seg@ };
        let ghost dr0 = dr;
        let c = template[i];
        if c == '|' {
            let s = seg;
            seg = Vec::new();
            match apply_weight(&mut stack, s, i, tolerant) {
                Err(e) => {
                    proof {
                        let empty = Seq::<int>::empty();
                        assert(run(t, mode, tol, dr + empty) == run_from(
                            t,
                            i as int,
                            st0,
                            mode,
                            tol,
                            empty,
                        ));
                        assert(dr + empty =~= dr);
                        assert(mstep(st0, c, i as int, mode, tol, empty) == (StepResult::Fail {
                            err: e@,
                        }));
                        lemma_fails_with(t, mode, tol, dr, e@);
                    }
                    return Err(e);
                },
                Ok(_) => {
                    stack.top.push(Choice::new());
                    proof {
                        let st1 = MState { frames: stack@, seg: seg@ };
                        assert forall|rest: Seq<int>|
                            run(t, mode, tol, dr + rest) == #[trigger] run_from(
                                t,
                                i + 1,
                                st1,
                                mode,
                                tol,
                                rest,
                            ) by {
                            assert(run(t, mode, tol, dr + rest) == run_from(
                                t,
                                i as int,
                                st0,
                                mode,
                                tol,
                                rest,
                            ));
                            let wp = weight_parse(st0.seg, tol);
                            let ff = finalize_frames(st0.frames, wp->Parsed_text, wp->Parsed_weight);
                            let f = ff.last();
                            assert(st1.frames =~~= ff.drop_last().push(
                                SFrame {
                                    start: f.start,
                                    done: f.done.push(f.cur),
                                    cur: empty_choice(),
                                },
                            ));
                            assert(st1.seg =~= Seq::<char>::empty());
                            assert(mstep(st0, c, i as int, mode, tol, rest)
                                == (StepResult::Cont { st: st1, draws: rest }));
                        }
                    }
                },
            }
        } else if c == '{' {
            stack.top.top.text.append(&mut seg);
            stack.push(i);
            proof {
                let st1 = MState { frames: stack@, seg: seg@ };
                assert forall|rest: Seq<int>|
                    run(t, mode, tol, dr + rest) == #[trigger] run_from(
                        t,
                        i + 1,
                        st1,
                        mode,
                        tol,
                        rest,
                    ) by {
                    assert(run(t, mode, tol, dr + rest) == run_from(
                        t,
                        i as int,
                        st0,
                        mode,
                        tol,
                        rest,
                    ));
                    let f = st0.frames.last();
                    let f2 = SFrame {
                        start: f.start,
                        done: f.done,
                        cur: crate::frames::SChoice {
                            text: f.cur.text + st0.seg,
                            weight: f.cur.weight,
                        },
                    };
                    assert(st1.frames =~~= st0.frames.drop_last().push(f2).push(
                        empty_frame(i as int),
                    ));
                    assert(st1.seg =~= Seq::<char>::empty());
                    assert(mstep(st0, c, i as int, mode, tol, rest) == (StepResult::Cont {
                        st: st1,
                        draws: rest,
                    }));
                }
            }
        } else if c == '}' {
            let s = seg;
            seg = Vec::new();
            match apply_weight(&mut stack, s, i, tolerant) {
                Err(e) => {
                    proof {
                        let empty = Seq::<int>::empty();
                        assert(run(t, mode, tol, dr + empty) == run_from(
                            t,
                            i as int,
                            st0,
                            mode,
                            tol,
                            empty,
                        ));
                        assert(dr + empty =~= dr);
                        assert(mstep(st0, c, i as int, mode, tol, empty) == (StepResult::Fail {
                            err: e@,
                        }));
                        lemma_fails_with(t, mode, tol, dr, e@);
                    }
                    return Err(e);
                },
                Ok(_) => {
                    let ghost ffv = stack@;
                    match stack.pop() {
                        None => {
                            proof {
                                let empty = Seq::<int>::empty();
                                assert(run(t, mode, tol, dr + empty) == run_from(
                                    t,
                                    i as int,
                                    st0,
                                    mode,
                                    tol,
                                    empty,
                                ));
                                assert(dr + empty =~= dr);
                                assert(mstep(st0, c, i as int, mode, tol, empty)
                                    == (StepResult::Fail {
                                    err: SError::UnexpectedClosingBrace { offset: i as int },
                                }));
                                lemma_fails_with(
                                    t,
                                    mode,
                                    tol,
                                    dr,
                                    SError::UnexpectedClosingBrace { offset: i as int },
                                );
                            }
                            return Err(ParseError::UnexpectedClosingBrace(i));
                        },
                        Some(frame) => {
                            let ghost afterpop = stack@;
                            let (choice, d) = frame.resolve(options.selection_mode);
                            let Choice { text: mut ctext, .. } = choice;
                            stack.top.top.text.append(&mut ctext);
                            proof {
                                let dpre: Seq<int> = if random {
                                    seq![d@]
                                } else {
                                    Seq::empty()
                                };
                                dr = dr + dpre;
                                let st1 = MState { frames: stack@, seg: seg@ };
                                assert forall|rest: Seq<int>|
                                    run(t, mode, tol, dr + rest) == #[trigger] run_from(
                                        t,
                                        i + 1,
                                        st1,
                                        mode,
                                        tol,
                                        rest,
                                    ) by {
                                    let full = dpre + rest;
                                    assert(run(t, mode, tol, dr0 + full) == run_from(
                                        t,
                                        i as int,
                                        st0,
                                        mode,
                                        tol,
                                        full,
                                    ));
                                    assert(dr + rest =~= dr0 + full);
                                    if random {
                                        assert(full[0] == d@);
                                        assert(head_draw(full) == d@);
                                        assert(tail_draws(full) =~= rest);
                                    }
                                    let wp = weight_parse(st0.seg, tol);
                                    let ff = finalize_frames(
                                        st0.frames,
                                        wp->Parsed_text,
                                        wp->Parsed_weight,
                                    );
                                    assert(ffv == ff);
                                    let f = ff.last();
                                    let cs = f.done.push(f.cur);
                                    assert(frame@.done.push(frame@.cur) == cs);
                                    let dd: int = if random {
                                        head_draw(full)
                                    } else {
                                        0
                                    };
                                    assert(dd == d@);
                                    let k = crate::select::select_idx(cs, mode, dd);
                                    assert(choice@ == cs[k]);
                                    let p = ff[ff.len() - 2];
                                    let p2 = SFrame {
                                        start: p.start,
                                        done: p.done,
                                        cur: crate::frames::SChoice {
                                            text: p.cur.text + cs[k].text,
                                            weight: p.cur.weight,
                                        },
                                    };
                                    assert(afterpop =~~= ff.drop_last());
                                    assert(afterpop.last() == p);
                                    assert(st1.frames.drop_last() =~~= afterpop.drop_last());
                                    assert(st1.frames.last() == p2);
                                    assert(st1.frames =~~= ff.drop_last().drop_last().push(p2));
                                    assert(st1.seg =~= Seq::<char>::empty());
                                    assert(mstep(st0, c, i as int, mode, tol, full)
                                        == (StepResult::Cont { st: st1, draws: rest }));
                                }
                            }
                        },
                    }
                },
            }
        } else {
            seg.push(c);
            proof {
                let st1 = MState { frames: stack@, seg: seg@ };
                assert forall|rest: Seq<int>|
                    run(t, mode, tol, dr + rest) == #[trigger] run_from(
                        t,
                        i + 1,
                        st1,
                        mode,
                        tol,
                        rest,
                    ) by {
                    assert(run(t, mode, tol, dr + rest) == run_from(
                        t,
                        i as int,
                        st0,
                        mode,
                        tol,
                        rest,
                    ));
                    assert(!crate::semantics::is_control(c));
                    assert(mstep(st0, c, i as int, mode, tol, rest) == (StepResult::Cont {
                        st: st1,
                        draws: rest,
                    }));
                }
            }
        }
        i += 1;
    }
    // End of input: finalize the last segment and resolve the top-level
    // frame.
    let ghost st0 = MState { frames: stack@, seg: seg@ };
    let ghost dr0 = dr;
    let n = template.len();
    let s = seg;
    match apply_weight(&mut stack, s, n, tolerant) {
        Err(e) => {
            proof {
                let empty = Seq::<int>::empty();
                assert(run(t, mode, tol, dr + empty) == run_from(t, n as int, st0, mode, tol, empty));
                assert(dr + empty =~= dr);
                assert(mfinish(st0, t.len() as int, mode, tol, empty) == (RunResult::Failed {
                    err: e@,
                }));
                lemma_fails_with(t, mode, tol, dr, e@);
                if mode != SelectionMode::RandomWeighted {
                    assert(run(t, mode, tol, Seq::empty()) == (RunResult::Failed { err: e@ }));
                }
            }
            return Err(e);
        },
        Ok(_) => {},
    }
    if !stack.stack.is_empty() {
        let off = stack.top.start_index;
        proof {
            let empty = Seq::<int>::empty();
            assert(run(t, mode, tol, dr + empty) == run_from(t, n as int, st0, mode, tol, empty));
            assert(dr + empty =~= dr);
            assert(stack@.last() == finalize_frames(
                st0.frames,
                weight_parse(st0.seg, tol)->Parsed_text,
                weight_parse(st0.seg, tol)->Parsed_weight,
            ).last());
            assert(st0.frames.last().start == off as int);
            assert(mfinish(st0, t.len() as int, mode, tol, empty) == (RunResult::Failed {
                err: SError::UnclosedBrace { offset: off as int },
            }));
            lemma_fails_with(t, mode, tol, dr, SError::UnclosedBrace { offset: off as int });
            if mode != SelectionMode::RandomWeighted {
                assert(run(t, mode, tol, Seq::empty()) == (RunResult::Failed {
                    err: SError::UnclosedBrace { offset: off as int },
                }));
            }
        }
        return Err(ParseError::UnclosedBrace(off));
    }
    let ghost ffv = stack@;
    let Stack { top, .. } = stack;
    let (choice, d) = top.resolve(options.selection_mode);
    proof {
        let dpre: Seq<int> = if random {
            seq![d@]
        } else {
            Seq::empty()
        };
        assert(run(t, mode, tol, dr + dpre) == run_from(t, n as int, st0, mode, tol, dpre));
        let wp = weight_parse(st0.seg, tol);
        let ff = finalize_frames(st0.frames, wp->Parsed_text, wp->Parsed_weight);
        assert(ffv == ff);
        assert(top@ == ff.last());
        let f = ff.last();
        let cs = f.done.push(f.cur);
        let dd: int = if random {
            head_draw(dpre)
        } else {
            0
        };
        if random {
            assert(dpre[0] == d@);
        }
        assert(dd == d@);
        assert(st0.frames.len() == 1);
        assert(mfinish(st0, t.len() as int, mode, tol, dpre) == (RunResult::Done {
            text: cs[crate::select::select_idx(cs, mode, dd)].text,
        }));
        assert(run(t, mode, tol, dr + dpre) == (RunResult::Done { text: choice@.text }));
        if mode != SelectionMode::RandomWeighted {
            lemma_deterministic_modes(t, mode, tol, dr + dpre, Seq::empty());
        }
    }
    Ok(choice.text)
}

/// The characters of `s`, in order.
fn str_to_chars(s: &str) -> (r: Vec<char>)
    ensures
        r@ == s@,
{
    let n = s.unicode_len();
    let mut v: Vec<char> = Vec::new();
    let mut i: usize = 0;
    while i < n
        invariant
            i <= n == s@.len(),
            v@ == s@.take(i as int),
        decreases n - i,
    {
        v.push(s.get_char(i));
        proof {
            assert(s@.take(i as int).push(s@[i as int]) =~= s@.take(i + 1));
        }
        i += 1;
    }
    proof {
        assert(s@.take(n as int) =~= s@);
    }
    v
}

/// Expands the template `template` under `options`: parses its
/// brace-and-pipe choice groups, resolves each group to one alternative,
/// and returns the flattened string, or the first parse error with its
/// exact character offset.
pub fn expand(template: &str, options: &GenerationOptions) -> (r: Result<String, ParseError>)
    ensures
        (match r {
            Ok(out) => expansion_of(
                template@,
                options.selection_mode,
                options.tolerate_malformed_weights,
                out@,
            ),
            Err(e) => fails_with(
                template@,
                options.selection_mode,
                options.tolerate_malformed_weights,
                e@,
            ),
        }),
        options.selection_mode != SelectionMode::RandomWeighted ==> (match r {
            Ok(out) => run(
                template@,
                options.selection_mode,
                options.tolerate_malformed_weights,
                Seq::empty(),
            ) == (RunResult::Done { text: out@ }),
            Err(e) => run(
                template@,
                options.selection_mode,
                options.tolerate_malformed_weights,
                Seq::empty(),
            ) == (RunResult::Failed { err: e@ }),
        }),
{
    let chars = str_to_chars(template);
    match expand_chars(&chars, options) {
        Ok(v) => Ok(chars_to_string(&v)),
        Err(e) => Err(e),
    }
}

} // verus!
