//! Selection: picking one alternative out of a closed choice group.
//!
//! The weighted-random mode draws uniformly from the total weight and walks
//! the alternatives; when every weight is zero it falls back to a uniform
//! draw over the alternatives. The four deterministic modes pick an extreme
//! of text length or of weight, breaking ties towards the first alternative
//! for the minima and towards the last for the maxima.

use vstd::prelude::*;
use crate::frames::Choice;
use crate::frames::Frame;
use crate::frames::SChoice;
use crate::trusted::rand_below;

verus! {

/// How one alternative is selected from a closed choice group.
#[derive(Clone, Copy, Debug, PartialEq, Eq, Structural)]
pub enum SelectionMode {
    /// Draw at random, each alternative weighted by its weight.
    RandomWeighted,
    /// The alternative with the shortest text; first such on ties.
    Shortest,
    /// The alternative with the longest text; last such on ties.
    Longest,
    /// The alternative with the greatest weight; last such on ties.
    MostLikely,
    /// The alternative with the least weight; first such on ties.
    LeastLikely,
}

/// The sum of the weights of `cs`.
pub open spec fn total_weight(cs: Seq<SChoice>) -> int
    decreases cs.len(),
{
    if cs.len() == 0 {
        0
    } else {
        cs[0].weight + total_weight(cs.drop_first())
    }
}

/// The index selected by a weighted draw `d` taken from `[0, total)`: the
/// first index whose cumulative weight exceeds `d`, or the last index when
/// none does.
pub open spec fn idx_weighted(cs: Seq<SChoice>, d: int) -> int
    decreases cs.len(),
{
    if cs.len() <= 1 {
        0
    } else if d < cs[0].weight {
        0
    } else {
        1 + idx_weighted(cs.drop_first(), d - cs[0].weight)
    }
}

/// The first index whose text is no longer than any other's.
pub open spec fn idx_first_min_len(cs: Seq<SChoice>) -> int
    decreases cs.len(),
{
    if cs.len() <= 1 {
        0
    } else {
        let r = idx_first_min_len(cs.drop_last());
        if cs.last().text.len() < cs[r].text.len() {
            cs.len() - 1
        } else {
            r
        }
    }
}

/// The last index whose text is no shorter than any other's.
pub open spec fn idx_last_max_len(cs: Seq<SChoice>) -> int
    decreases cs.len(),
{
    if cs.len() <= 1 {
        0
    } else {
        let r = idx_last_max_len(cs.drop_last());
        if cs.last().text.len() >= cs[r].text.len() {
            cs.len() - 1
        } else {
            r
        }
    }
}

/// The first index whose weight is no greater than any other's.
pub open spec fn idx_first_min_weight(cs: Seq<SChoice>) -> int
    decreases cs.len(),
{
    if cs.len() <= 1 {
        0
    } else {
        let r = idx_first_min_weight(cs.drop_last());
        if cs.last().weight < cs[r].weight {
            cs.len() - 1
        } else {
            r
        }
    }
}

/// The last index whose weight is no less than any other's.
pub open spec fn idx_last_max_weight(cs: Seq<SChoice>) -> int
    decreases cs.len(),
{
    if cs.len() <= 1 {
        0
    } else {
        let r = idx_last_max_weight(cs.drop_last());
        if cs.last().weight >= cs[r].weight {
            cs.len() - 1
        } else {
            r
        }
    }
}

/// The index that `mode` selects from the non-empty group `cs`, given the
/// draw `d` (ignored by the deterministic modes). A weighted group with a
/// positive total is walked by the draw; an all-zero-weight group falls back
/// to treating `d` as a uniform index.
pub open spec fn select_idx(cs: Seq<SChoice>, mode: SelectionMode, d: int) -> int {
    match mode {
        SelectionMode::RandomWeighted => if total_weight(cs) > 0 {
            idx_weighted(cs, d)
        } else if 0 <= d < cs.len() {
            d
        } else {
            0
        },
        SelectionMode::Shortest => idx_first_min_len(cs),
        SelectionMode::Longest => idx_last_max_len(cs),
        SelectionMode::MostLikely => idx_last_max_weight(cs),
        SelectionMode::LeastLikely => idx_first_min_weight(cs),
    }
}

pub proof fn lemma_idx_weighted_in_bounds(cs: Seq<SChoice>, d: int)
    requires
        cs.len() > 0,
    ensures
        0 <= idx_weighted(cs, d) < cs.len(),
    decreases cs.len(),
{
    if cs.len() > 1 && d >= cs[0].weight {
        lemma_idx_weighted_in_bounds(cs.drop_first(), d - cs[0].weight);
    }
}

/// The first-minimum-length index is in bounds, its text is no longer than
/// any other's, and every earlier text is strictly longer.
pub proof fn lemma_idx_first_min_len(cs: Seq<SChoice>)
    requires
        cs.len() > 0,
    ensures
        0 <= idx_first_min_len(cs) < cs.len(),
        forall|j: int|
            0 <= j < cs.len() ==> cs[idx_first_min_len(cs)].text.len() <= (
            #[trigger] cs[j]).text.len(),
        forall|j: int|
            0 <= j < idx_first_min_len(cs) ==> cs[idx_first_min_len(cs)].text.len() < (
            #[trigger] cs[j]).text.len(),
    decreases cs.len(),
{
    if cs.len() > 1 {
        lemma_idx_first_min_len(cs.drop_last());
        assert(forall|j: int| 0 <= j < cs.len() - 1 ==> cs.drop_last()[j] == cs[j]);
    }
}

/// The last-maximum-length index is in bounds, its text is no shorter than
/// any other's, and every later text is strictly shorter.
pub proof fn lemma_idx_last_max_len(cs: Seq<SChoice>)
    requires
        cs.len() > 0,
    ensures
        0 <= idx_last_max_len(cs) < cs.len(),
        forall|j: int|
            0 <= j < cs.len() ==> cs[idx_last_max_len(cs)].text.len() >= (
            #[trigger] cs[j]).text.len(),
        forall|j: int|
            idx_last_max_len(cs) < j < cs.len() ==> cs[idx_last_max_len(cs)].text.len() > (
            #[trigger] cs[j]).text.len(),
    decreases cs.len(),
{
    if cs.len() > 1 {
        lemma_idx_last_max_len(cs.drop_last());
        assert(forall|j: int| 0 <= j < cs.len() - 1 ==> cs.drop_last()[j] == cs[j]);
    }
}

/// The first-minimum-weight index is in bounds, its weight is no greater
/// than any other's, and every earlier weight is strictly greater.
pub proof fn lemma_idx_first_min_weight(cs: Seq<SChoice>)
    requires
        cs.len() > 0,
    ensures
        0 <= idx_first_min_weight(cs) < cs.len(),
        forall|j: int|
            0 <= j < cs.len() ==> cs[idx_first_min_weight(cs)].weight <= (#[trigger] cs[j]).weight,
        forall|j: int|
            0 <= j < idx_first_min_weight(cs) ==> cs[idx_first_min_weight(cs)].weight < (
            #[trigger] cs[j]).weight,
    decreases cs.len(),
{
    if cs.len() > 1 {
        lemma_idx_first_min_weight(cs.drop_last());
        assert(forall|j: int| 0 <= j < cs.len() - 1 ==> cs.drop_last()[j] == cs[j]);
    }
}

/// The last-maximum-weight index is in bounds, its weight is no less than
/// any other's, and every later weight is strictly less.
pub proof fn lemma_idx_last_max_weight(cs: Seq<SChoice>)
    requires
        cs.len() > 0,
    ensures
        0 <= idx_last_max_weight(cs) < cs.len(),
        forall|j: int|
            0 <= j < cs.len() ==> cs[idx_last_max_weight(cs)].weight >= (#[trigger] cs[j]).weight,
        forall|j: int|
            idx_last_max_weight(cs) < j < cs.len() ==> cs[idx_last_max_weight(cs)].weight > (
            #[trigger] cs[j]).weight,
    decreases cs.len(),
{
    if cs.len() > 1 {
        lemma_idx_last_max_weight(cs.drop_last());
        assert(forall|j: int| 0 <= j < cs.len() - 1 ==> cs.drop_last()[j] == cs[j]);
    }
}

/// The selected index is always in bounds for a non-empty group.
pub proof fn lemma_select_idx_in_bounds(cs: Seq<SChoice>, mode: SelectionMode, d: int)
    requires
        cs.len() > 0,
    ensures
        0 <= select_idx(cs, mode, d) < cs.len(),
{
    match mode {
        SelectionMode::RandomWeighted => {
            if total_weight(cs) > 0 {
                lemma_idx_weighted_in_bounds(cs, d);
            }
        },
        SelectionMode::Shortest => lemma_idx_first_min_len(cs),
        SelectionMode::Longest => lemma_idx_last_max_len(cs),
        SelectionMode::MostLikely => lemma_idx_last_max_weight(cs),
        SelectionMode::LeastLikely => lemma_idx_first_min_weight(cs),
    }
}

/// The view of a vector of choices.
pub open spec fn choices_view(options: Seq<Choice>) -> Seq<SChoice> {
    options.map_values(|c: Choice| c@)
}

/// Sums the weights of `options` without overflow.
fn sum_weights(options: &Vec<Choice>) -> (total: u128)
    ensures
        total == total_weight(choices_view(options@)),
{
    let ghost cs = choices_view(options@);
    let mut total: u128 = 0;
    let mut i: usize = 0;
    proof {
        assert(cs.skip(0) =~= cs);
    }
    while i < options.len()
        invariant
            i <= options@.len(),
            cs == choices_view(options@),
            cs.len() == options@.len(),
            total + total_weight(cs.skip(i as int)) == total_weight(cs),
            total <= i * 0xffff_ffff_ffff_ffffu64,
        decreases options@.len() - i,
    {
        let w = options[i].weight;
        proof {
            assert(cs.skip(i as int)[0] == cs[i as int]);
            assert(cs.skip(i as int).drop_first() =~= cs.skip(i + 1));
            assert(cs[i as int] == options@[i as int]@);
            assert((i + 1) * 0xffff_ffff_ffff_ffffu64 == i * 0xffff_ffff_ffff_ffffu64
                + 0xffff_ffff_ffff_ffffu64) by (nonlinear_arith);
        }
        total = total + (w as u128);
        i += 1;
    }
    proof {
        assert(cs.skip(options@.len() as int) =~= Seq::<SChoice>::empty());
    }
    total
}

/// Walks `options` with the draw `rem`, returning the index that the draw
/// selects.
fn walk_weighted(options: &Vec<Choice>, draw: u128) -> (k: usize)
    requires
        options@.len() > 0,
        draw < total_weight(choices_view(options@)),
    ensures
        k as int == idx_weighted(choices_view(options@), draw as int),
{
    let ghost cs = choices_view(options@);
    let ghost d = draw as int;
    let mut rem: u128 = draw;
    let mut i: usize = 0;
    proof {
        assert(cs.skip(0) =~= cs);
        assert(cs.take(0) =~= Seq::<SChoice>::empty());
    }
    while i < options.len() - 1
        invariant
            0 <= i < cs.len() == options@.len(),
            cs == choices_view(options@),
            d == draw as int,
            rem == d - total_weight(cs.take(i as int)),
            rem < total_weight(cs.skip(i as int)),
            idx_weighted(cs, d) == i + idx_weighted(cs.skip(i as int), rem as int),
        decreases options@.len() - i,
    {
        let w = options[i].weight;
        proof {
            assert(cs[i as int] == options@[i as int]@);
            assert(cs.skip(i as int)[0] == cs[i as int]);
            assert(cs.skip(i as int).drop_first() =~= cs.skip(i + 1));
            assert(cs.take(i as int).push(cs[i as int]) =~= cs.take(i + 1));
            lemma_total_weight_push(cs.take(i as int), cs[i as int]);
        }
        if rem < w as u128 {
            assert(idx_weighted(cs.skip(i as int), rem as int) == 0);
            return i;
        }
        rem = rem - (w as u128);
        i += 1;
    }
    proof {
        assert(cs.skip(cs.len() - 1).len() == 1);
        assert(idx_weighted(cs.skip(cs.len() - 1), rem as int) == 0);
    }
    options.len() - 1
}

/// Appending one choice adds its weight to the total.
proof fn lemma_total_weight_push(cs: Seq<SChoice>, c: SChoice)
    ensures
        total_weight(cs.push(c)) == total_weight(cs) + c.weight,
    decreases cs.len(),
{
    if cs.len() == 0 {
        assert(cs.push(c).drop_first() =~= Seq::<SChoice>::empty());
        assert(cs.push(c)[0] == c);
        assert(total_weight(Seq::<SChoice>::empty()) == 0);
    } else {
        assert(cs.push(c).drop_first() =~= cs.drop_first().push(c));
        assert(cs.push(c)[0] == cs[0]);
        lemma_total_weight_push(cs.drop_first(), c);
    }
}

/// Picks the first index with minimal text length.
fn pick_first_min_len(options: &Vec<Choice>) -> (k: usize)
    requires
        options@.len() > 0,
    ensures
        k as int == idx_first_min_len(choices_view(options@)),
{
    let ghost cs = choices_view(options@);
    let mut best: usize = 0;
    let mut i: usize = 1;
    while i < options.len()
        invariant
            1 <= i <= cs.len() == options@.len(),
            cs == choices_view(options@),
            best < i,
            best as int == idx_first_min_len(cs.take(i as int)),
        decreases options@.len() - i,
    {
        proof {
            assert(cs.take(i + 1).drop_last() =~= cs.take(i as int));
            assert(forall|j: int| 0 <= j <= i ==> #[trigger] cs.take(i + 1)[j] == cs[j]);
            assert(cs[i as int] == options@[i as int]@);
            assert(cs[best as int] == options@[best as int]@);
        }
        if options[i].text.len() < options[best].text.len() {
            best = i;
        }
        i += 1;
    }
    proof {
        assert(cs.take(cs.len() as int) =~= cs);
    }
    best
}

/// Picks the last index with maximal text length.
fn pick_last_max_len(options: &Vec<Choice>) -> (k: usize)
    requires
        options@.len() > 0,
    ensures
        k as int == idx_last_max_len(choices_view(options@)),
{
    let ghost cs = choices_view(options@);
    let mut best: usize = 0;
    let mut i: usize = 1;
    while i < options.len()
        invariant
            1 <= i <= cs.len() == options@.len(),
            cs == choices_view(options@),
            best < i,
            best as int == idx_last_max_len(cs.take(i as int)),
        decreases options@.len() - i,
    {
        proof {
            assert(cs.take(i + 1).drop_last() =~= cs.take(i as int));
            assert(forall|j: int| 0 <= j <= i ==> #[trigger] cs.take(i + 1)[j] == cs[j]);
            assert(cs[i as int] == options@[i as int]@);
            assert(cs[best as int] == options@[best as int]@);
        }
        if options[i].text.len() >= options[best].text.len() {
            best = i;
        }
        i += 1;
    }
    proof {
        assert(cs.take(cs.len() as int) =~= cs);
    }
    best
}

/// Picks the first index with minimal weight.
fn pick_first_min_weight(options: &Vec<Choice>) -> (k: usize)
    requires
        options@.len() > 0,
    ensures
        k as int == idx_first_min_weight(choices_view(options@)),
{
    let ghost cs = choices_view(options@);
    let mut best: usize = 0;
    let mut i: usize = 1;
    while i < options.len()
        invariant
            1 <= i <= cs.len() == options@.len(),
            cs == choices_view(options@),
            best < i,
            best as int == idx_first_min_weight(cs.take(i as int)),
        decreases options@.len() - i,
    {
        proof {
            assert(cs.take(i + 1).drop_last() =~= cs.take(i as int));
            assert(forall|j: int| 0 <= j <= i ==> #[trigger] cs.take(i + 1)[j] == cs[j]);
            assert(cs[i as int] == options@[i as int]@);
            assert(cs[best as int] == options@[best as int]@);
        }
        if options[i].weight < options[best].weight {
            best = i;
        }
        i += 1;
    }
    proof {
        assert(cs.take(cs.len() as int) =~= cs);
    }
    best
}

/// Picks the last index with maximal weight.
fn pick_last_max_weight(options: &Vec<Choice>) -> (k: usize)
    requires
        options@.len() > 0,
    ensures
        k as int == idx_last_max_weight(choices_view(options@)),
{
    let ghost cs = choices_view(options@);
    let mut best: usize = 0;
    let mut i: usize = 1;
    while i < options.len()
        invariant
            1 <= i <= cs.len() == options@.len(),
            cs == choices_view(options@),
            best < i,
            best as int == idx_last_max_weight(cs.take(i as int)),
        decreases options@.len() - i,
    {
        proof {
            assert(cs.take(i + 1).drop_last() =~= cs.take(i as int));
            assert(forall|j: int| 0 <= j <= i ==> #[trigger] cs.take(i + 1)[j] == cs[j]);
            assert(cs[i as int] == options@[i as int]@);
            assert(cs[best as int] == options@[best as int]@);
        }
        if options[i].weight >= options[best].weight {
            best = i;
        }
        i += 1;
    }
    proof {
        assert(cs.take(cs.len() as int) =~= cs);
    }
    best
}

impl Frame {
    /// Resolves this closed frame to a single alternative: the completed
    /// choices plus the open one form the group, and `mode` selects one of
    /// them. Returns the winning choice together with the (ghost) draw that
    /// selected it; for the deterministic modes the draw is 0 and the result
    /// is a function of the frame alone.
    pub fn resolve(self, mode: SelectionMode) -> (r: (Choice, Ghost<int>))
        ensures
            ({
                let cs = self@.done.push(self@.cur);
                let k = select_idx(cs, mode, r.1@);
                &&& 0 <= k < cs.len()
                &&& r.0@ == cs[k]
                &&& (mode != SelectionMode::RandomWeighted ==> r.1@ == 0)
                &&& (mode == SelectionMode::Shortest ==> forall|j: int|
                    0 <= j < cs.len() ==> r.0@.text.len() <= (#[trigger] cs[j]).text.len())
                &&& (mode == SelectionMode::Longest ==> forall|j: int|
                    0 <= j < cs.len() ==> r.0@.text.len() >= (#[trigger] cs[j]).text.len())
                &&& (mode == SelectionMode::MostLikely ==> forall|j: int|
                    0 <= j < cs.len() ==> r.0@.weight >= (#[trigger] cs[j]).weight)
                &&& (mode == SelectionMode::LeastLikely ==> forall|j: int|
                    0 <= j < cs.len() ==> r.0@.weight <= (#[trigger] cs[j]).weight)
            }),
    {
        let ghost cs = self@.done.push(self@.cur);
        let Frame { start_index: _, choices: mut options, top } = self;
        options.push(top);
        proof {
            assert(choices_view(options@) =~= cs);
        }
        let (k, draw): (usize, Ghost<int>) = match mode {
            SelectionMode::RandomWeighted => {
                let total = sum_weights(&options);
                if total > 0 {
                    let d = rand_below(total);
                    let k = walk_weighted(&options, d);
                    (k, Ghost(d as int))
                } else {
                    let n = options.len();
                    let d = rand_below(n as u128);
                    proof {
                        lemma_total_weight_nonneg_zero(choices_view(options@));
                    }
                    ((d as usize), Ghost(d as int))
                }
            },
            SelectionMode::Shortest => {
                proof {
                    lemma_idx_first_min_len(cs);
                }
                (pick_first_min_len(&options), Ghost(0int))
            },
            SelectionMode::Longest => {
                proof {
                    lemma_idx_last_max_len(cs);
                }
                (pick_last_max_len(&options), Ghost(0int))
            },
            SelectionMode::MostLikely => {
                proof {
                    lemma_idx_last_max_weight(cs);
                }
                (pick_last_max_weight(&options), Ghost(0int))
            },
            SelectionMode::LeastLikely => {
                proof {
                    lemma_idx_first_min_weight(cs);
                }
                (pick_first_min_weight(&options), Ghost(0int))
            },
        };
        proof {
            lemma_select_idx_in_bounds(cs, mode, draw@);
        }
        let c = vec_take_at(options, k);
        (c, draw)
    }
}

/// If the total weight of a group is not positive it is zero, since every
/// weight in a group built from choices is non-negative.
proof fn lemma_total_weight_nonneg_zero(cs: Seq<SChoice>)
    requires
        forall|j: int| 0 <= j < cs.len() ==> (#[trigger] cs[j]).weight >= 0,
    ensures
        total_weight(cs) >= 0,
    decreases cs.len(),
{
    if cs.len() > 0 {
        assert(forall|j: int|
            0 <= j < cs.drop_first().len() ==> #[trigger] cs.drop_first()[j] == cs[j + 1]);
        lemma_total_weight_nonneg_zero(cs.drop_first());
    }
}

/// Moves the element at index `k` out of `v`.
fn vec_take_at(v: Vec<Choice>, k: usize) -> (r: Choice)
    requires
        k < v@.len(),
    ensures
        r@ == choices_view(v@)[k as int],
{
    let mut v = v;
    let r = v.remove(k);
    r
}

} // verus!
