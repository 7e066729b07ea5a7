//! A dense two-dimensional container with fixed size, addressed by integer
//! coordinates. Out-of-bounds access is signalled through `Option`, never a
//! panic; `set` on an out-of-bounds coordinate is a no-op.

use vstd::prelude::*;

use crate::coords::Aabb2i;
use crate::coords::Vec2i;
use crate::coords::lemma_row_major_index;

verus! {

/// The mathematical value of a [`Grid`]: its cells in row-major order,
/// together with its dimensions.
#[verifier::ext_equal]
pub struct GridModel<T> {
    pub cells: Seq<T>,
    pub width: int,
    pub height: int,
}

impl<T> GridModel<T> {
    /// Dimensions are non-negative, the cell count fits a `usize`, and the
    /// storage holds exactly one value per coordinate.
    pub open spec fn wf(self) -> bool {
        &&& 0 <= self.width <= i32::MAX
        &&& 0 <= self.height <= i32::MAX
        &&& self.width * self.height <= usize::MAX
        &&& self.cells.len() == self.width * self.height
    }

    pub open spec fn in_bounds(self, x: int, y: int) -> bool {
        0 <= x < self.width && 0 <= y < self.height
    }

    /// Row-major index of a coordinate.
    pub open spec fn idx(self, x: int, y: int) -> int {
        y * self.width + x
    }

    pub open spec fn cell(self, x: int, y: int) -> T {
        self.cells[self.idx(x, y)]
    }
}

/// An in-bounds coordinate has its row-major index inside the storage.
pub proof fn lemma_idx_in_range<T>(m: GridModel<T>, x: int, y: int)
    requires
        m.wf(),
        m.in_bounds(x, y),
    ensures
        0 <= m.idx(x, y) < m.cells.len(),
{
    assert(0 <= y * m.width + x < m.width * m.height) by (nonlinear_arith)
        requires
            0 <= x < m.width,
            0 <= y < m.height,
    ;
}

/// Dense row-major storage of one value per coordinate of
/// `[0,width) x [0,height)`; the size is fixed at construction.
#[derive(Debug)]
pub struct Grid<T> {
    data: Vec<T>,
    size: Vec2i,
}

impl<T> View for Grid<T> {
    type V = GridModel<T>;

    closed spec fn view(&self) -> GridModel<T> {
        GridModel { cells: self.data@, width: self.size.x as int, height: self.size.y as int }
    }
}

impl<T> Grid<T> {
    pub fn size(&self) -> (r: Vec2i)
        ensures
            r.x == self@.width,
            r.y == self@.height,
    {
        self.size
    }

    pub fn in_bounds(&self, pos: Vec2i) -> (r: bool)
        ensures
            r == self@.in_bounds(pos.x as int, pos.y as int),
    {
        Aabb2i::with_size(self.size).contains_point(pos)
    }

    /// `None` exactly on out-of-bounds coordinates.
    pub fn get(&self, pos: Vec2i) -> (r: Option<&T>)
        requires
            self@.wf(),
        ensures
            match r {
                Some(v) => self@.in_bounds(pos.x as int, pos.y as int) && *v == self@.cell(
                    pos.x as int,
                    pos.y as int,
                ),
                None => !self@.in_bounds(pos.x as int, pos.y as int),
            },
    {
        if !self.in_bounds(pos) {
            return None;
        }
        proof {
            lemma_idx_in_range(self@, pos.x as int, pos.y as int);
            assert((pos.y as int) * (self.size.x as int) <= self@.idx(pos.x as int, pos.y as int));
        }
        let index: usize = (pos.y as usize) * (self.size.x as usize) + (pos.x as usize);
        Some(&self.data[index])
    }

    /// Replaces the value at `pos`; does nothing when `pos` is out of bounds.
    pub fn set(&mut self, pos: Vec2i, value: T)
        requires
            old(self)@.wf(),
        ensures
            final(self)@.width == old(self)@.width,
            final(self)@.height == old(self)@.height,
            final(self)@.wf(),
            old(self)@.in_bounds(pos.x as int, pos.y as int) ==> final(self)@.cells == old(
                self,
            )@.cells.update(old(self)@.idx(pos.x as int, pos.y as int), value),
            !old(self)@.in_bounds(pos.x as int, pos.y as int) ==> final(self)@.cells == old(
                self,
            )@.cells,
    {
        if self.in_bounds(pos) {
            proof {
                lemma_idx_in_range(self@, pos.x as int, pos.y as int);
                assert((pos.y as int) * (self.size.x as int) <= self@.idx(
                    pos.x as int,
                    pos.y as int,
                ));
            }
            let index: usize = (pos.y as usize) * (self.size.x as usize) + (pos.x as usize);
            self.data[index] = value;
        }
    }

    /// A grid whose every cell is produced by `value_fn`, invoked once per
    /// coordinate in row-major order; the values may not depend on any
    /// shared mutable state.
    pub fn new_with<F: Fn(Vec2i) -> T>(size: Vec2i, value_fn: F) -> (r: Grid<T>)
        requires
            0 <= size.x,
            0 <= size.y,
            size.x * size.y <= usize::MAX,
            forall|p: Vec2i|
                0 <= p.x < size.x && 0 <= p.y < size.y ==> call_requires(value_fn, (p,)),
        ensures
            r@.wf(),
            r@.width == size.x,
            r@.height == size.y,
            forall|x: i32, y: i32|
                0 <= x < size.x && 0 <= y < size.y ==> call_ensures(
                    value_fn,
                    (Vec2i { x, y },),
                    #[trigger] r@.cell(x as int, y as int),
                ),
    {
        let ghost w = size.x as int;
        let mut data: Vec<T> = Vec::new();
        let mut j: i32 = 0;
        while j < size.y
            invariant
                0 <= j <= size.y,
                0 <= size.x,
                size.x * size.y <= usize::MAX,
                w == size.x as int,
                data@.len() == j * w,
                forall|p: Vec2i|
                    0 <= p.x < size.x && 0 <= p.y < size.y ==> call_requires(value_fn, (p,)),
                forall|k: int|
                    0 <= k < data@.len() ==> call_ensures(
                        value_fn,
                        (Vec2i { x: (k % w) as i32, y: (k / w) as i32 },),
                        #[trigger] data@[k],
                    ),
            decreases size.y - j,
        {
            let mut i: i32 = 0;
            proof {
                assert(0 <= j * w && (j + 1) * w <= w * (size.y as int)) by (nonlinear_arith)
                    requires
                        0 <= j < size.y,
                        0 <= w,
                ;
            }
            while i < size.x
                invariant
                    0 <= i <= size.x,
                    0 <= j < size.y,
                    size.x * size.y <= usize::MAX,
                    w == size.x as int,
                    (j + 1) * w <= w * (size.y as int),
                    data@.len() == j * w + i,
                    forall|p: Vec2i|
                        0 <= p.x < size.x && 0 <= p.y < size.y ==> call_requires(value_fn, (p,)),
                    forall|k: int|
                        0 <= k < data@.len() ==> call_ensures(
                            value_fn,
                            (Vec2i { x: (k % w) as i32, y: (k / w) as i32 },),
                            #[trigger] data@[k],
                        ),
                decreases size.x - i,
            {
                proof {
                    assert(j * w + i < (j + 1) * w) by (nonlinear_arith)
                        requires
                            0 <= i < w,
                    ;
                }
                let pos = Vec2i { x: i, y: j };
                let value = value_fn(pos);
                data.push(value);
                proof {
                    lemma_row_major_index(w, i as int, j as int);
                }
                i = i + 1;
            }
            j = j + 1;
            proof {
                assert((j - 1) * w + w == j * w) by (nonlinear_arith);
            }
        }
        proof {
            assert((size.y as int) * w == w * (size.y as int)) by (nonlinear_arith);
        }
        let r = Grid { data, size };
        proof {
            assert forall|x: i32, y: i32| 0 <= x < size.x && 0 <= y < size.y implies call_ensures(
                value_fn,
                (Vec2i { x, y },),
                r@.cell(x as int, y as int),
            ) by {
                lemma_row_major_index(w, x as int, y as int);
                lemma_idx_in_range(r@, x as int, y as int);
            }
        }
        r
    }

    /// The stored values in row-major order, one per cell.
    pub fn iter(&self) -> (r: &Vec<T>)
        ensures
            r@ == self@.cells,
    {
        &self.data
    }
}

/// The cell at `(x, y)` as a one-element sequence, or the empty sequence
/// when the coordinate is out of bounds.
pub open spec fn maybe_cell<T>(g: GridModel<T>, x: int, y: int) -> Seq<T> {
    if g.in_bounds(x, y) {
        seq![g.cell(x, y)]
    } else {
        Seq::empty()
    }
}

/// The values of the in-bounds 8-neighbours of `(x, y)`, in the fixed order
/// up-left, up, up-right, left, right, down-left, down, down-right.
pub open spec fn neighbour_cells<T>(g: GridModel<T>, x: int, y: int) -> Seq<T> {
    maybe_cell(g, x - 1, y - 1) + maybe_cell(g, x, y - 1) + maybe_cell(g, x + 1, y - 1)
        + maybe_cell(g, x - 1, y) + maybe_cell(g, x + 1, y) + maybe_cell(g, x - 1, y + 1)
        + maybe_cell(g, x, y + 1) + maybe_cell(g, x + 1, y + 1)
}

/// The values of the in-bounds 4-neighbours (orthogonal only) of `(x, y)`,
/// in the fixed order up, down, left, right.
pub open spec fn ortho_neighbour_cells<T>(g: GridModel<T>, x: int, y: int) -> Seq<T> {
    maybe_cell(g, x, y - 1) + maybe_cell(g, x, y + 1) + maybe_cell(g, x - 1, y) + maybe_cell(
        g,
        x + 1,
        y,
    )
}

impl<T: Copy> Grid<T> {
    /// The values of the up to four orthogonal neighbours of the in-bounds
    /// cell `pos`, in a fixed order; edge and corner cells yield fewer.
    pub fn iter_ortho_neighbours(&self, pos: Vec2i) -> (r: Vec<T>)
        requires
            self@.wf(),
            self@.in_bounds(pos.x as int, pos.y as int),
        ensures
            r@ == ortho_neighbour_cells(self@, pos.x as int, pos.y as int),
    {
        let ghost g = self@;
        let ghost x = pos.x as int;
        let ghost y = pos.y as int;
        let mut r: Vec<T> = Vec::new();
        match self.get(Vec2i { x: pos.x, y: pos.y - 1 }) {
            Some(v) => r.push(*v),
            None => (),
        }
        proof {
            assert(r@ =~= maybe_cell(g, x, y - 1));
        }
        match self.get(Vec2i { x: pos.x, y: pos.y + 1 }) {
            Some(v) => r.push(*v),
            None => (),
        }
        proof {
            assert(r@ =~= maybe_cell(g, x, y - 1) + maybe_cell(g, x, y + 1));
        }
        match self.get(Vec2i { x: pos.x - 1, y: pos.y }) {
            Some(v) => r.push(*v),
            None => (),
        }
        match self.get(Vec2i { x: pos.x + 1, y: pos.y }) {
            Some(v) => r.push(*v),
            None => (),
        }
        proof {
            assert(r@ =~= ortho_neighbour_cells(g, x, y));
        }
        r
    }

    /// Each value paired with its coordinate, in row-major order.
    pub fn iter_with_positions(&self) -> (r: Vec<(Vec2i, T)>)
        requires
            self@.wf(),
        ensures
            r@.len() == self@.cells.len(),
            forall|k: int|
                0 <= k < r@.len() ==> ((#[trigger] r@[k]).0.x == k % self@.width && r@[k].0.y == k
                    / self@.width && r@[k].1 == self@.cells[k]),
    {
        let ghost g = self@;
        let size = self.size();
        let mut r: Vec<(Vec2i, T)> = Vec::new();
        let mut j: i32 = 0;
        while j < size.y
            invariant
                g == self@,
                g.wf(),
                size.x == g.width,
                size.y == g.height,
                0 <= j <= size.y,
                r@.len() == j * g.width,
                forall|k: int|
                    0 <= k < r@.len() ==> ((#[trigger] r@[k]).0.x == k % g.width && r@[k].0.y == k
                        / g.width && r@[k].1 == g.cells[k]),
            decreases size.y - j,
        {
            let mut i: i32 = 0;
            proof {
                assert(0 <= j * g.width && (j + 1) * g.width <= g.width * g.height)
                    by (nonlinear_arith)
                    requires
                        0 <= j < g.height,
                        0 <= g.width,
                ;
            }
            while i < size.x
                invariant
                    g == self@,
                    g.wf(),
                    size.x == g.width,
                    size.y == g.height,
                    0 <= i <= size.x,
                    0 <= j < size.y,
                    (j + 1) * g.width <= g.width * g.height,
                    r@.len() == j * g.width + i,
                    forall|k: int|
                        0 <= k < r@.len() ==> ((#[trigger] r@[k]).0.x == k % g.width && r@[k].0.y
                            == k / g.width && r@[k].1 == g.cells[k]),
                decreases size.x - i,
            {
                proof {
                    assert(j * g.width + i < (j + 1) * g.width) by (nonlinear_arith)
                        requires
                            0 <= i < g.width,
                    ;
                }
                let pos = Vec2i { x: i, y: j };
                let value = *self.get(pos).unwrap();
                r.push((pos, value));
                proof {
                    lemma_row_major_index(g.width, i as int, j as int);
                }
                i = i + 1;
            }
            j = j + 1;
            proof {
                assert((j - 1) * g.width + g.width == j * g.width) by (nonlinear_arith);
            }
        }
        proof {
            assert(g.height * g.width == g.width * g.height) by (nonlinear_arith);
        }
        r
    }

    /// The values of the up to eight neighbours of the in-bounds cell `pos`,
    /// in a fixed order; edge and corner cells yield fewer.
    pub fn iter_neighbours(&self, pos: Vec2i) -> (r: Vec<T>)
        requires
            self@.wf(),
            self@.in_bounds(pos.x as int, pos.y as int),
        ensures
            r@ == neighbour_cells(self@, pos.x as int, pos.y as int),
    {
        let ghost g = self@;
        let ghost x = pos.x as int;
        let ghost y = pos.y as int;
        let mut r: Vec<T> = Vec::new();
        match self.get(Vec2i { x: pos.x - 1, y: pos.y - 1 }) {
            Some(v) => r.push(*v),
            None => (),
        }
        proof {
            assert(r@ =~= maybe_cell(g, x - 1, y - 1));
        }
        match self.get(Vec2i { x: pos.x, y: pos.y - 1 }) {
            Some(v) => r.push(*v),
            None => (),
        }
        proof {
            assert(r@ =~= maybe_cell(g, x - 1, y - 1) + maybe_cell(g, x, y - 1));
        }
        match self.get(Vec2i { x: pos.x + 1, y: pos.y - 1 }) {
            Some(v) => r.push(*v),
            None => (),
        }
        match self.get(Vec2i { x: pos.x - 1, y: pos.y }) {
            Some(v) => r.push(*v),
            None => (),
        }
        proof {
            assert(r@ =~= maybe_cell(g, x - 1, y - 1) + maybe_cell(g, x, y - 1) + maybe_cell(
                g,
                x + 1,
                y - 1,
            ) + maybe_cell(g, x - 1, y));
        }
        match self.get(Vec2i { x: pos.x + 1, y: pos.y }) {
            Some(v) => r.push(*v),
            None => (),
        }
        match self.get(Vec2i { x: pos.x - 1, y: pos.y + 1 }) {
            Some(v) => r.push(*v),
            None => (),
        }
        proof {
            assert(r@ =~= maybe_cell(g, x - 1, y - 1) + maybe_cell(g, x, y - 1) + maybe_cell(
                g,
                x + 1,
                y - 1,
            ) + maybe_cell(g, x - 1, y) + maybe_cell(g, x + 1, y) + maybe_cell(g, x - 1, y + 1));
        }
        match self.get(Vec2i { x: pos.x, y: pos.y + 1 }) {
            Some(v) => r.push(*v),
            None => (),
        }
        match self.get(Vec2i { x: pos.x + 1, y: pos.y + 1 }) {
            Some(v) => r.push(*v),
            None => (),
        }
        proof {
            assert(r@ =~= neighbour_cells(g, x, y));
        }
        r
    }
}

impl<T: Copy> Grid<T> {
    /// A grid of the given size holding `value` everywhere.
    pub fn new(size: Vec2i, value: T) -> (r: Grid<T>)
        requires
            0 <= size.x,
            0 <= size.y,
            size.x * size.y <= usize::MAX,
        ensures
            r@.wf(),
            r@.width == size.x,
            r@.height == size.y,
            forall|i: int| 0 <= i < r@.cells.len() ==> r@.cells[i] == value,
    {
        proof {
            assert(0 <= (size.x as int) * (size.y as int)) by (nonlinear_arith)
                requires
                    0 <= size.x,
                    0 <= size.y,
            ;
        }
        let n: usize = (size.x as usize) * (size.y as usize);
        let mut data: Vec<T> = Vec::new();
        let mut k: usize = 0;
        while k < n
            invariant
                data@.len() == k,
                k <= n,
                forall|i: int| 0 <= i < k ==> data@[i] == value,
            decreases n - k,
        {
            data.push(value);
            k = k + 1;
        }
        Grid { data, size }
    }
}

} // verus!
