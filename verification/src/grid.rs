//! A rectangular grid stored row-major in one vector.
//!
//! The abstract value of a grid is the sequence of its cells in row
//! order: the cell at column `x` and row `y` is element `y * w + x`.

use vstd::prelude::*;

verus! {

/// A `w` by `h` grid of cells.
pub struct Grid<T> {
    /// The width: the number of columns.
    pub w: usize,
    /// The height: the number of rows.
    pub h: usize,
    data: Vec<T>,
}

impl<T> View for Grid<T> {
    type V = Seq<T>;

    closed spec fn view(&self) -> Seq<T> {
        self.data@
    }
}

/// The in-bounds four-neighbourhood of `(x, y)`: left, up, right and
/// down, in that order, with the off-grid ones left out.
pub open spec fn spec_neighbors4(w: nat, h: nat, x: nat, y: nat) -> Seq<(usize, usize)> {
    let left = if x > 0 {
        seq![((x - 1) as usize, y as usize)]
    } else {
        Seq::empty()
    };
    let up = if y > 0 {
        seq![(x as usize, (y - 1) as usize)]
    } else {
        Seq::empty()
    };
    let right = if x + 1 < w {
        seq![((x + 1) as usize, y as usize)]
    } else {
        Seq::empty()
    };
    let down = if y + 1 < h {
        seq![(x as usize, (y + 1) as usize)]
    } else {
        Seq::empty()
    };
    left + up + right + down
}

impl<T> Grid<T> {
    /// The cell storage matches the dimensions.
    pub closed spec fn wf(&self) -> bool {
        self.data@.len() == self.w * self.h
    }

    /// The width, as contracts see it.
    pub closed spec fn spec_w(&self) -> usize {
        self.w
    }

    /// The height, as contracts see it.
    pub closed spec fn spec_h(&self) -> usize {
        self.h
    }

    /// Creates a grid from its dimensions and its row-major cell
    /// vector, whose length must be exactly `w * h`.
    pub fn from_vec(w: usize, h: usize, data: Vec<T>) -> (g: Self)
        requires
            data@.len() == w * h,
        ensures
            g.wf(),
            g.spec_w() == w,
            g.spec_h() == h,
            g@ == data@,
    {
        Grid { w, h, data }
    }

    /// The row-major index of the cell at column `x`, row `y`.
    pub fn idx(&self, x: usize, y: usize) -> (i: usize)
        requires
            self.wf(),
            x < self.spec_w(),
            y < self.spec_h(),
        ensures
            i == y * self.spec_w() + x,
            i < self@.len(),
    {
        let n = self.data.len();
        proof {
            lemma_row_major_in_bounds(self.w as nat, self.h as nat, x as nat, y as nat);
            assert(y * self.w + x < n);
        }
        y * self.w + x
    }

    /// Borrows the cell at column `x`, row `y`, or returns `None` when
    /// the coordinates lie outside the grid.
    pub fn get(&self, x: usize, y: usize) -> (r: Option<&T>)
        requires
            self.wf(),
        ensures
            x < self.spec_w() && y < self.spec_h() ==> r == Some(&self@[y * self.spec_w() + x]),
            !(x < self.spec_w() && y < self.spec_h()) ==> r is None,
    {
        if x < self.w && y < self.h {
            let i = self.idx(x, y);
            Some(&self.data[i])
        } else {
            None
        }
    }

    /// Mutably borrows the cell at column `x`, row `y`, or returns
    /// `None` when the coordinates lie outside the grid. The grid
    /// afterwards holds whatever the caller wrote through the returned
    /// reference.
    pub fn get_mut(&mut self, x: usize, y: usize) -> (r: Option<&mut T>)
        requires
            old(self).wf(),
        ensures
            final(self).wf(),
            final(self).spec_w() == old(self).spec_w() && final(self).spec_h() == old(self).spec_h(),
            x < old(self).spec_w() && y < old(self).spec_h() ==> r is Some && *r.unwrap() == old(
                self,
            )@[y * old(self).spec_w() + x] && final(self)@ == old(self)@.update(
                y * old(self).spec_w() + x,
                *final(r.unwrap()),
            ),
            !(x < old(self).spec_w() && y < old(self).spec_h()) ==> r is None && final(self)@
                == old(self)@,
    {
        if x < self.w && y < self.h {
            let i = self.idx(x, y);
            Some(&mut self.data[i])
        } else {
            None
        }
    }

    /// The coordinates of the in-bounds neighbours of `(x, y)` to the
    /// left, above, to the right and below, in that order.
    pub fn neighbors4(&self, x: usize, y: usize) -> (r: Vec<(usize, usize)>)
        requires
            x < self.spec_w(),
            y < self.spec_h(),
        ensures
            r@ == spec_neighbors4(self.spec_w() as nat, self.spec_h() as nat, x as nat, y as nat),
    {
        let mut v: Vec<(usize, usize)> = Vec::new();
        if x > 0 {
            v.push((x - 1, y));
        }
        if y > 0 {
            v.push((x, y - 1));
        }
        if x + 1 < self.w {
            v.push((x + 1, y));
        }
        if y + 1 < self.h {
            v.push((x, y + 1));
        }
        proof {
            assert(v@ =~= spec_neighbors4(self.w as nat, self.h as nat, x as nat, y as nat));
        }
        v
    }
}

impl<T: Copy> Grid<T> {
    /// Creates a `w` by `h` grid with every cell set to `fill`.
    pub fn new(w: usize, h: usize, fill: T) -> (g: Self)
        requires
            w * h <= usize::MAX,
        ensures
            g.wf(),
            g.spec_w() == w,
            g.spec_h() == h,
            g@.len() == w * h,
            forall|i: int| 0 <= i < g@.len() ==> g@[i] == fill,
    {
        let n = mul_checked_dims(w, h);
        let mut data: Vec<T> = Vec::new();
        let mut i: usize = 0;
        while i < n
            invariant
                i <= n,
                data@.len() == i,
                forall|j: int| 0 <= j < i ==> data@[j] == fill,
            decreases n - i,
        {
            data.push(fill);
            i += 1;
        }
        Grid { w, h, data }
    }
}

/// The product of two in-range dimensions, exact because the caller
/// guarantees it fits.
fn mul_checked_dims(w: usize, h: usize) -> (n: usize)
    requires
        w * h <= usize::MAX,
    ensures
        n == w * h,
{
    w * h
}

/// A row-major index computed from in-bounds coordinates lies within
/// the cell storage.
proof fn lemma_row_major_in_bounds(w: nat, h: nat, x: nat, y: nat)
    requires
        x < w,
        y < h,
    ensures
        y * w + x < w * h,
{
    assert(y * w + x < w * h) by (nonlinear_arith)
        requires
            x < w,
            y < h,
    ;
}

} // verus!
