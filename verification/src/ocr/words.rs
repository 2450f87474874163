//! Words found in a picture.

use vstd::prelude::*;
use crate::exact::{lemma_grid_sum, on_grid};
use crate::float::F64;

verus! {

/// A word and where it stands in the picture.
#[derive(Debug, Default)]
pub struct DetectedWord {
    pub x: F64,
    pub y: F64,
    pub w: F64,
    pub h: F64,
    pub text: String,
    pub line_num: usize,
    pub par_num: usize,
    pub block_num: usize,
}

/// A rectangle: left, top, width and height.
#[derive(Clone, Copy, Debug, Default, PartialEq, Eq, Structural)]
pub struct Frame {
    pub x: F64,
    pub y: F64,
    pub w: F64,
    pub h: F64,
}

/// A word as its frame, its characters and its numbers.
pub struct Word {
    pub frame: Frame,
    pub text: Seq<char>,
    pub line_num: usize,
    pub par_num: usize,
    pub block_num: usize,
}

impl View for DetectedWord {
    type V = Word;

    open spec fn view(&self) -> Word {
        Word {
            frame: Frame { x: self.x, y: self.y, w: self.w, h: self.h },
            text: self.text@,
            line_num: self.line_num,
            par_num: self.par_num,
            block_num: self.block_num,
        }
    }
}

impl Clone for DetectedWord {
    fn clone(&self) -> (r: DetectedWord)
        ensures
            r == *self,
    {
        DetectedWord {
            x: self.x,
            y: self.y,
            w: self.w,
            h: self.h,
            text: self.text.clone(),
            line_num: self.line_num,
            par_num: self.par_num,
            block_num: self.block_num,
        }
    }
}

impl DetectedWord {
    /// The rectangle that the word fills.
    pub fn frame(&self) -> (f: Frame)
        ensures
            f == self@.frame,
    {
        Frame { x: self.x, y: self.y, w: self.w, h: self.h }
    }
}

impl Frame {
    /// The right side: `x + w`.
    pub open spec fn spec_right(self) -> F64 {
        self.x.spec_plus(self.w)
    }

    /// The bottom: `y + h`.
    pub open spec fn spec_bottom(self) -> F64 {
        self.y.spec_plus(self.h)
    }

    /// The right side.
    pub fn right(self) -> (r: F64)
        ensures
            r == self.spec_right(),
    {
        self.x.plus(self.w)
    }

    /// The bottom.
    pub fn bottom(self) -> (r: F64)
        ensures
            r == self.spec_bottom(),
    {
        self.y.plus(self.h)
    }
}

/// Words as their views.
pub open spec fn views(words: Seq<DetectedWord>) -> Seq<Word> {
    Seq::new(words.len(), |i: int| words[i]@)
}

/// The frames of words.
pub open spec fn frames_of(words: Seq<Word>) -> Seq<Frame> {
    Seq::new(words.len(), |i: int| words[i].frame)
}

/// The frame lies on the grid.
pub open spec fn frame_on_grid(f: Frame) -> bool {
    on_grid(f.x) && on_grid(f.y) && on_grid(f.w) && on_grid(f.h)
}

/// The right side of a frame on the grid lies its width from the left one, and the bottom its
/// height from the top.
pub proof fn lemma_frame_sides(f: Frame)
    requires
        on_grid(f.x),
        on_grid(f.y),
        on_grid(f.w),
        on_grid(f.h),
    ensures
        f.spec_right().finite(),
        f.spec_right().value() == f.x.value() + f.w.value(),
        f.spec_bottom().finite(),
        f.spec_bottom().value() == f.y.value() + f.h.value(),
{
    lemma_grid_sum(f.x, f.w);
    lemma_grid_sum(f.y, f.h);
}

} // verus!
