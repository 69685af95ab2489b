//! A rectangular block of cells with one mark per cell, used to collect the
//! cells a scan finds and to list them back in row-major order.

use vstd::prelude::*;

use crate::geometry::IVec2;

verus! {

pub(crate) struct CellWindow {
    pub(crate) min_x: i32,
    pub(crate) min_y: i32,
    pub(crate) width: usize,
    pub(crate) height: usize,
    pub(crate) marks: Vec<bool>,
}

impl CellWindow {
    /// The window covers `c`.
    pub(crate) open spec fn covers(self, c: IVec2) -> bool {
        &&& self.min_x <= c.x < self.min_x + self.width
        &&& self.min_y <= c.y < self.min_y + self.height
    }

    pub(crate) open spec fn slot(self, c: IVec2) -> int {
        (c.y - self.min_y) * self.width + (c.x - self.min_x)
    }

    pub(crate) open spec fn wf(self) -> bool {
        self.marks@.len() == self.width * self.height
    }

    /// The marked cells.
    pub(crate) open spec fn view(self) -> Set<IVec2> {
        Set::new(|c: IVec2| self.covers(c) && self.marks@[self.slot(c)])
    }

    proof fn lemma_slot(self, c: IVec2)
        requires
            self.covers(c),
        ensures
            0 <= self.slot(c) < self.width * self.height,
            self.slot(c) % (self.width as int) == c.x - self.min_x,
            self.slot(c) / (self.width as int) == c.y - self.min_y,
    {
        let w = self.width as int;
        let h = self.height as int;
        let a = c.x - self.min_x;
        let b = c.y - self.min_y;
        assert(0 <= b * w + a < w * h) by (nonlinear_arith)
            requires
                0 <= a < w,
                0 <= b < h,
        ;
        vstd::arithmetic::div_mod::lemma_fundamental_div_mod_converse(b * w + a, w, b, a);
    }

    /// An empty window of `width` by `height` cells whose first cell is
    /// `(min_x, min_y)`.
    pub(crate) fn new(min_x: i32, min_y: i32, width: usize, height: usize) -> (r: Self)
        requires
            width * height <= usize::MAX,
        ensures
            r.wf(),
            r.min_x == min_x,
            r.min_y == min_y,
            r.width == width,
            r.height == height,
            r.view() == Set::<IVec2>::empty(),
    {
        let n = width * height;
        let mut marks: Vec<bool> = Vec::new();
        let mut i: usize = 0;
        while i < n
            invariant
                i <= n,
                marks@ == Seq::new(i as nat, |j: int| false),
            decreases n - i,
        {
            marks.push(false);
            i += 1;
        }
        let r = CellWindow { min_x, min_y, width, height, marks };
        assert(r.view() =~= Set::<IVec2>::empty()) by {
            assert forall|c: IVec2| r.covers(c) implies !r.marks@[r.slot(c)] by {
                r.lemma_slot(c);
            }
        }
        r
    }

    fn slot_of(&self, c: IVec2) -> (r: usize)
        requires
            self.wf(),
            self.covers(c),
        ensures
            r == self.slot(c),
            r < self.marks@.len(),
    {
        proof {
            self.lemma_slot(c);
        }
        let n = self.marks.len();
        let b = (c.y as i64 - self.min_y as i64) as usize;
        let a = (c.x as i64 - self.min_x as i64) as usize;
        assert(b * self.width <= b * self.width + a) by (nonlinear_arith)
            requires
                a >= 0,
        ;
        b * self.width + a
    }

    /// Marks `c`.
    pub(crate) fn insert(&mut self, c: IVec2)
        requires
            old(self).wf(),
            old(self).covers(c),
        ensures
            final(self).wf(),
            final(self).min_x == old(self).min_x,
            final(self).min_y == old(self).min_y,
            final(self).width == old(self).width,
            final(self).height == old(self).height,
            final(self).view() == old(self).view().insert(c),
    {
        proof {
            self.lemma_slot(c);
        }
        let slot = self.slot_of(c);
        self.marks.set(slot, true);
        proof {
            assert forall|d: IVec2| #[trigger]
                self.view().contains(d) <==> old(self).view().insert(c).contains(d) by {
                if self.covers(d) && d != c {
                    self.lemma_slot(d);
                    assert(self.slot(d) != self.slot(c));
                }
            }
            assert(self.view() =~= old(self).view().insert(c));
        }
    }

    /// Whether `c` is marked.
    pub(crate) fn is_marked(&self, c: IVec2) -> (r: bool)
        requires
            self.wf(),
            self.covers(c),
        ensures
            r == self.view().contains(c),
    {
        proof {
            self.lemma_slot(c);
        }
        let slot = self.slot_of(c);
        self.marks[slot]
    }
}

} // verus!
