//! The frame stack: the evaluator's working state.
//!
//! A [`Frame`] is one open choice group: the alternatives completed so far
//! and the one still accumulating text. The [`Stack`] holds the open frames,
//! innermost on top; the implicit top-level frame is always present, so the
//! stack as a whole is never empty.

use vstd::prelude::*;
use crate::weights::WEIGHT_ONE;

verus! {

/// One alternative of a choice group.
pub struct Choice {
    /// The accumulated literal and resolved text of the alternative.
    pub text: Vec<char>,
    /// The alternative's selection weight, in fixed point scaled by one
    /// million; meaningful once the alternative's final segment has been
    /// weight-parsed.
    pub weight: u64,
}

/// The mathematical value of a [`Choice`].
pub ghost struct SChoice {
    pub text: Seq<char>,
    pub weight: int,
}

impl View for Choice {
    type V = SChoice;

    open spec fn view(&self) -> SChoice {
        SChoice { text: self.text@, weight: self.weight as int }
    }
}

/// A fresh, empty alternative with the default weight.
pub open spec fn empty_choice() -> SChoice {
    SChoice { text: Seq::empty(), weight: WEIGHT_ONE as int }
}

impl Choice {
    pub fn new() -> (r: Self)
        ensures
            r@ == empty_choice(),
    {
        let r = Choice { text: Vec::new(), weight: WEIGHT_ONE };
        proof {
            assert(r@.text =~= empty_choice().text);
        }
        r
    }
}

/// One open choice group.
pub struct Frame {
    /// Character offset of the brace that opened this group; 0 for the
    /// implicit top-level frame. Used for error reporting only.
    pub start_index: usize,
    /// The completed alternatives, in template order.
    pub choices: Vec<Choice>,
    /// The alternative still accumulating text.
    pub top: Choice,
}

/// The mathematical value of a [`Frame`].
pub ghost struct SFrame {
    pub start: int,
    pub done: Seq<SChoice>,
    pub cur: SChoice,
}

impl View for Frame {
    type V = SFrame;

    open spec fn view(&self) -> SFrame {
        SFrame {
            start: self.start_index as int,
            done: self.choices@.map_values(|c: Choice| c@),
            cur: self.top@,
        }
    }
}

/// A fresh frame opened at character offset `start`.
pub open spec fn empty_frame(start: int) -> SFrame {
    SFrame { start, done: Seq::empty(), cur: empty_choice() }
}

impl Frame {
    pub fn new(start_index: usize) -> (r: Self)
        ensures
            r@ == empty_frame(start_index as int),
    {
        let r = Frame { start_index, choices: Vec::new(), top: Choice::new() };
        proof {
            assert(r@.done =~= empty_frame(start_index as int).done);
        }
        r
    }

    /// Completes the open alternative and starts `choice` in its place.
    pub fn push(&mut self, choice: Choice)
        ensures
            final(self)@.start == old(self)@.start,
            final(self)@.done == old(self)@.done.push(old(self)@.cur),
            final(self)@.cur == choice@,
    {
        let mut c = choice;
        core::mem::swap(&mut self.top, &mut c);
        self.choices.push(c);
        proof {
            assert(self.choices@.map_values(|c: Choice| c@) =~= old(self).choices@.map_values(
                |c: Choice| c@,
            ).push(old(self).top@));
        }
    }
}

/// The stack of open frames, innermost on top. The field `top` holds the
/// innermost frame, so the stack as a whole always has at least one frame.
pub struct Stack {
    pub stack: Vec<Frame>,
    pub top: Frame,
}

impl View for Stack {
    type V = Seq<SFrame>;

    /// The open frames, outermost first, innermost last; never empty.
    open spec fn view(&self) -> Seq<SFrame> {
        self.stack@.map_values(|f: Frame| f@).push(self.top@)
    }
}

impl Stack {
    pub fn new() -> (r: Self)
        ensures
            r@ == seq![empty_frame(0)],
    {
        let r = Stack { stack: Vec::new(), top: Frame::new(0) };
        proof {
            assert(r@ =~= seq![empty_frame(0)]);
        }
        r
    }

    /// Opens a new frame at character offset `start_index`.
    pub fn push(&mut self, start_index: usize)
        ensures
            final(self)@ == old(self)@.push(empty_frame(start_index as int)),
    {
        let mut f = Frame::new(start_index);
        core::mem::swap(&mut self.top, &mut f);
        self.stack.push(f);
        proof {
            assert(self@ =~= old(self)@.push(empty_frame(start_index as int)));
        }
    }

    /// Closes the innermost frame and returns it, or returns `None` when
    /// only the implicit top-level frame is open.
    pub fn pop(&mut self) -> (r: Option<Frame>)
        ensures
            old(self)@.len() > 1 ==> ({
                &&& r matches Some(f) && f@ == old(self)@.last()
                &&& final(self)@ == old(self)@.drop_last()
            }),
            old(self)@.len() == 1 ==> r is None && final(self)@ == old(self)@,
{
        match self.stack.pop() {
            None => None,
            Some(f) => {
                let mut f = f;
                core::mem::swap(&mut self.top, &mut f);
                proof {
                    assert(self@ =~= old(self)@.drop_last());
                }
                Some(f)
            },
        }
    }
}

} // verus!
