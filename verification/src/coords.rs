//! Integer coordinates and axis-aligned integer boxes.

use vstd::prelude::*;

verus! {

/// A two-dimensional integer vector, used as a cell coordinate.
#[derive(Clone, Copy, Debug, PartialEq, Eq, Structural)]
pub struct Vec2i {
    pub x: i32,
    pub y: i32,
}

impl Vec2i {
    pub fn new(x: i32, y: i32) -> (r: Vec2i)
        ensures
            r.x == x,
            r.y == y,
    {
        Vec2i { x, y }
    }

    pub fn zero() -> (r: Vec2i)
        ensures
            r.x == 0,
            r.y == 0,
    {
        Vec2i { x: 0, y: 0 }
    }
}

/// An axis-aligned integer box: `min` inclusive, `max` exclusive.
#[derive(Clone, Copy, Debug, PartialEq, Eq, Structural)]
pub struct Aabb2i {
    pub min: Vec2i,
    pub max: Vec2i,
}

impl Aabb2i {
    /// The box from the origin (inclusive) to `size` (exclusive).
    pub fn with_size(size: Vec2i) -> (r: Aabb2i)
        ensures
            r.min == (Vec2i { x: 0, y: 0 }),
            r.max == size,
    {
        Aabb2i { min: Vec2i::zero(), max: size }
    }

    pub open spec fn spec_contains_point(self, point: Vec2i) -> bool {
        &&& self.min.x <= point.x < self.max.x
        &&& self.min.y <= point.y < self.max.y
    }

    pub fn contains_point(&self, point: Vec2i) -> (r: bool)
        ensures
            r == self.spec_contains_point(point),
    {
        point.x >= self.min.x && point.y >= self.min.y && point.x < self.max.x
            && point.y < self.max.y
    }
}

/// The coordinate a row-major index stands for, on a grid `width` cells wide.
pub open spec fn row_major_pos(width: int, k: int) -> (int, int) {
    (k % width, k / width)
}

/// Row-major order: `(x, y)` comes at index `y * width + x`.
pub proof fn lemma_row_major_index(width: int, x: int, y: int)
    requires
        0 <= x < width,
        0 <= y,
    ensures
        row_major_pos(width, y * width + x) == (x, y),
        0 <= y * width + x,
{
    vstd::arithmetic::div_mod::lemma_fundamental_div_mod_converse(y * width + x, width, y, x);
    assert(0 <= y * width) by (nonlinear_arith)
        requires
            0 <= y,
            0 < width,
    ;
}

/// Every coordinate of `[0,size.x) x [0,size.y)`, in row-major order.
pub fn vec2i_range(size: Vec2i) -> (r: Vec<Vec2i>)
    requires
        0 <= size.x,
        0 <= size.y,
        size.x * size.y <= usize::MAX,
    ensures
        r@.len() == size.x * size.y,
        forall|k: int|
            0 <= k < r@.len() ==> (#[trigger] r@[k]).x == k % (size.x as int) && r@[k].y == k
                / (size.x as int),
{
    let mut r: Vec<Vec2i> = Vec::new();
    let mut j: i32 = 0;
    while j < size.y
        invariant
            0 <= j <= size.y,
            0 <= size.x,
            size.x * size.y <= usize::MAX,
            r@.len() == j * size.x,
            forall|k: int|
                0 <= k < r@.len() ==> (#[trigger] r@[k]).x == k % (size.x as int) && r@[k].y == k
                    / (size.x as int),
        decreases size.y - j,
    {
        let mut i: i32 = 0;
        proof {
            assert(j * size.x >= 0 && (j + 1) * size.x <= size.x * size.y) by (nonlinear_arith)
                requires
                    0 <= j < size.y,
                    0 <= size.x,
            ;
        }
        while i < size.x
            invariant
                0 <= i <= size.x,
                0 <= j < size.y,
                size.x * size.y <= usize::MAX,
                (j + 1) * size.x <= size.x * size.y,
                r@.len() == j * size.x + i,
                forall|k: int|
                    0 <= k < r@.len() ==> (#[trigger] r@[k]).x == k % (size.x as int)
                        && r@[k].y == k / (size.x as int),
            decreases size.x - i,
        {
            proof {
                assert(j * size.x + i < (j + 1) * size.x) by (nonlinear_arith)
                    requires
                        0 <= i < size.x,
                ;
            }
            r.push(Vec2i { x: i, y: j });
            proof {
                let k: int = (j as int) * (size.x as int) + (i as int);
                assert((k % (size.x as int)) == i as int && (k / (size.x as int)) == j as int) by {
                    lemma_row_major_index(size.x as int, i as int, j as int);
                }
            }
            i = i + 1;
        }
        j = j + 1;
        proof {
            assert(((j - 1) * size.x + size.x) == j * size.x) by (nonlinear_arith);
        }
    }
    proof {
        assert(size.y * size.x == size.x * size.y) by (nonlinear_arith);
    }
    r
}

} // verus!
