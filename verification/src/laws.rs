//! General properties of expansion, proved once and for all templates.

use vstd::prelude::*;
use crate::frames::SChoice;
use crate::select::SelectionMode;
use crate::select::select_idx;
use crate::select::total_weight;
use crate::semantics::MState;
use crate::semantics::RunResult;
use crate::semantics::finalize_frames;
use crate::semantics::head_draw;
use crate::semantics::init_state;
use crate::semantics::is_control;
use crate::semantics::mfinish;
use crate::semantics::run;
use crate::semantics::run_from;
use crate::weights::WEIGHT_ONE;
use crate::weights::WeightParse;
use crate::weights::lemma_last_colon_none;
use crate::weights::weight_parse;

verus! {

/// Over a suffix with no control characters the machine only grows its raw
/// segment.
proof fn lemma_run_literal_suffix(
    t: Seq<char>,
    i: int,
    st: MState,
    mode: SelectionMode,
    tolerant: bool,
    draws: Seq<int>,
)
    requires
        0 <= i <= t.len(),
        forall|j: int| i <= j < t.len() ==> !is_control(#[trigger] t[j]),
    ensures
        run_from(t, i, st, mode, tolerant, draws) == mfinish(
            MState { frames: st.frames, seg: st.seg + t.skip(i) },
            t.len() as int,
            mode,
            tolerant,
            draws,
        ),
    decreases t.len() - i,
{
    if i == t.len() {
        assert(st.seg + t.skip(i) =~= st.seg);
        assert(MState { frames: st.frames, seg: st.seg + t.skip(i) } =~~= st);
    } else {
        let c = t[i];
        let st2 = MState { frames: st.frames, seg: st.seg.push(c) };
        lemma_run_literal_suffix(t, i + 1, st2, mode, tolerant, draws);
        assert(st2.seg + t.skip(i + 1) =~= st.seg + t.skip(i));
        assert(MState { frames: st2.frames, seg: st2.seg + t.skip(i + 1) } =~~= MState {
            frames: st.frames,
            seg: st.seg + t.skip(i),
        });
    }
}

/// A group with a single alternative resolves to that alternative, in every
/// mode and for every draw.
proof fn lemma_select_singleton(cs: Seq<SChoice>, mode: SelectionMode, d: int)
    requires
        cs.len() == 1,
    ensures
        select_idx(cs, mode, d) == 0,
{
    assert(cs.drop_first() =~= Seq::<SChoice>::empty());
    assert(total_weight(cs.drop_first()) == 0);
}

/// A template with none of `|`, `{`, `}` and no colon expands to itself,
/// in every mode and whatever is drawn: there is nothing to select, and no
/// trailing weight specifier to strip.
pub proof fn lemma_plain_text_expands_to_itself(
    t: Seq<char>,
    mode: SelectionMode,
    tolerant: bool,
    draws: Seq<int>,
)
    requires
        forall|j: int| 0 <= j < t.len() ==> !is_control(#[trigger] t[j]),
        forall|j: int| 0 <= j < t.len() ==> (#[trigger] t[j]) != ':',
    ensures
        run(t, mode, tolerant, draws) == (RunResult::Done { text: t }),
{
    lemma_run_literal_suffix(t, 0, init_state(), mode, tolerant, draws);
    let stf = MState { frames: init_state().frames, seg: init_state().seg + t.skip(0) };
    assert(stf.seg =~= t);
    lemma_last_colon_none(t);
    assert(weight_parse(t, tolerant) == (WeightParse::Parsed {
        text: t,
        weight: WEIGHT_ONE as int,
    }));
    let ff = finalize_frames(stf.frames, t, WEIGHT_ONE as int);
    let f = ff.last();
    assert(f.cur.text =~= t);
    let cs = f.done.push(f.cur);
    assert(cs.len() == 1);
    let d = if mode == SelectionMode::RandomWeighted {
        head_draw(draws)
    } else {
        0
    };
    lemma_select_singleton(cs, mode, d);
    assert(cs[0].text == t);
}

} // verus!
