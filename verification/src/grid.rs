use vstd::prelude::*;

use crate::source_image::lemma_rowmajor_in_range;
use crate::source_image::lemma_rowmajor_injective;

verus! {

/// Per-pixel bookkeeping of one scan: whether the pixel was already claimed
/// by some detected object.
#[derive(Clone, Copy, PartialEq, Eq, Structural, Debug)]
pub struct PixelInfo {
    pub was_checked: bool,
}

/// One flag per pixel position, row-major, fixed width and height. Flags are
/// only ever set, never cleared: a pixel belongs to at most one object over
/// the lifetime of one scan.
pub struct ImageInfo {
    pub pixels: Vec<PixelInfo>,
    pub width: usize,
    pub height: usize,
}

/// How many flags of `s` are still unvisited. Strictly shrinks whenever a
/// flag is set, which bounds the work a flood fill can still do.
pub closed spec fn count_unvisited(s: Seq<PixelInfo>) -> nat
    decreases s.len(),
{
    if s.len() == 0 {
        0
    } else {
        count_unvisited(s.drop_last()) + (if s.last().was_checked {
            0nat
        } else {
            1nat
        })
    }
}

/// Setting one unvisited flag lowers the unvisited count by exactly one.
pub proof fn lemma_count_unvisited_update(s: Seq<PixelInfo>, i: int)
    requires
        0 <= i < s.len(),
        !s[i].was_checked,
    ensures
        count_unvisited(s.update(i, (PixelInfo { was_checked: true }))) == count_unvisited(s) - 1,
    decreases s.len(),
{
    let t = s.update(i, PixelInfo { was_checked: true });
    if i == s.len() - 1 {
        assert(t.drop_last() =~= s.drop_last());
    } else {
        assert(t.drop_last() =~= s.drop_last().update(i, PixelInfo { was_checked: true }));
        lemma_count_unvisited_update(s.drop_last(), i);
        assert(t.last() == s.last());
    }
}

impl ImageInfo {
    /// One flag is stored for each of the width x height pixel positions.
    pub open spec fn wf(self) -> bool {
        self.pixels@.len() == self.width * self.height
    }

    pub open spec fn in_bounds(self, x: int, y: int) -> bool {
        0 <= x < self.width && 0 <= y < self.height
    }

    /// Whether the pixel at (x, y) was already claimed.
    pub open spec fn visited(self, x: int, y: int) -> bool {
        self.pixels@[y * self.width + x].was_checked
    }

    /// Allocates a grid with every pixel unvisited.
    pub fn new(width: usize, height: usize) -> (r: ImageInfo)
        requires
            width * height <= usize::MAX,
        ensures
            r.wf(),
            r.width == width,
            r.height == height,
            forall|x: int, y: int| r.in_bounds(x, y) ==> !r.visited(x, y),
    {
        let count: usize = width * height;
        let mut pixels: Vec<PixelInfo> = Vec::new();
        let mut i: usize = 0;
        while i < count
            invariant
                i <= count,
                pixels@.len() == i,
                forall|j: int| 0 <= j < i ==> !(#[trigger] pixels@[j]).was_checked,
            decreases count - i,
        {
            pixels.push(PixelInfo { was_checked: false });
            i = i + 1;
        }
        let r = ImageInfo { pixels, width, height };
        proof {
            assert forall|x: int, y: int| r.in_bounds(x, y) implies !r.visited(x, y) by {
                lemma_rowmajor_in_range(width as int, height as int, x, y);
            }
        }
        r
    }

    /// Reads the flag of the pixel at (x, y).
    pub fn pixel(&self, x: usize, y: usize) -> (p: PixelInfo)
        requires
            self.wf(),
            self.in_bounds(x as int, y as int),
        ensures
            p.was_checked == self.visited(x as int, y as int),
    {
        let n: usize = self.pixels.len();
        proof {
            lemma_rowmajor_in_range(self.width as int, self.height as int, x as int, y as int);
        }
        let idx: usize = y * self.width + x;
        self.pixels[idx]
    }

    /// Marks the pixel at (x, y) visited, leaving every other flag unchanged.
    pub fn set_visited(&mut self, x: usize, y: usize)
        requires
            old(self).wf(),
            old(self).in_bounds(x as int, y as int),
        ensures
            final(self).wf(),
            final(self).width == old(self).width,
            final(self).height == old(self).height,
            final(self).pixels@ == old(self).pixels@.update(
                y as int * old(self).width + x as int,
                (PixelInfo { was_checked: true }),
            ),
            final(self).visited(x as int, y as int),
            forall|a: int, b: int|
                old(self).in_bounds(a, b) && (a != x || b != y)
                    ==> final(self).visited(a, b) == old(self).visited(a, b),
    {
        let n: usize = self.pixels.len();
        proof {
            lemma_rowmajor_in_range(self.width as int, self.height as int, x as int, y as int);
        }
        let idx: usize = y * self.width + x;
        self.pixels.set(idx, PixelInfo { was_checked: true });
        proof {
            assert forall|a: int, b: int|
                old(self).in_bounds(a, b) && (a != x || b != y)
                    implies self.visited(a, b) == old(self).visited(a, b) by {
                lemma_rowmajor_in_range(self.width as int, self.height as int, a, b);
                lemma_rowmajor_injective(self.width as int, a, b, x as int, y as int);
            }
        }
    }
}

} // verus!
