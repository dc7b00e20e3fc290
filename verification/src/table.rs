use vstd::prelude::*;

use crate::direction::{index_of, step_of, Direction};
use crate::raster::lemma_pos_index_bound;

verus! {

/// A dense `width` by `height` array of `T`, stored row-major.
///
/// A position is a pair `(x, y)` with `x` the row index in `[0, height())`
/// and `y` the column index in `[0, width)`; the linear index of `(x, y)` is
/// `x * width + y`.
pub struct Table<T> {
    pub collection: Vec<T>,
    pub width: usize,
}

/// Whether the cell one step in direction `d` from `(x, y)` lies inside a
/// `width` by `height` grid.
pub open spec fn nbr_in_bounds(width: int, height: int, x: int, y: int, d: Direction) -> bool {
    let p = step_of(d, x, y);
    0 <= p.0 < height && 0 <= p.1 < width
}

impl<T> Table<T> {
    /// The storage is a whole number of rows, of stride `width`.
    pub open spec fn wf(self) -> bool {
        &&& self.width >= 1
        &&& self.collection@.len() % (self.width as nat) == 0
    }

    /// The number of rows.
    pub open spec fn spec_height(self) -> int {
        self.collection@.len() as int / self.width as int
    }

    /// Wraps a row-major element vector as a table of the given width.
    pub fn new(collection: Vec<T>, width: usize) -> (t: Table<T>)
        requires
            width >= 1,
            collection@.len() % (width as nat) == 0,
        ensures
            t.collection == collection,
            t.width == width,
            t.wf(),
    {
        Table { collection, width }
    }

    pub fn width(&self) -> (r: usize)
        ensures
            r == self.width,
    {
        self.width
    }

    pub fn height(&self) -> (r: usize)
        requires
            self.wf(),
        ensures
            r == self.spec_height(),
    {
        self.collection.len() / self.width
    }

    pub fn len(&self) -> (r: usize)
        ensures
            r == self.collection@.len(),
    {
        self.collection.len()
    }

    /// The position `(x, y)` whose linear index is `idx`.
    pub fn idx_to_pos(&self, idx: usize) -> (r: (usize, usize))
        requires
            self.wf(),
            idx < self.collection@.len(),
        ensures
            r.0 == idx as int / self.width as int,
            r.1 == idx as int % self.width as int,
            r.0 < self.spec_height(),
            r.1 < self.width,
            r.0 * self.width + r.1 == idx,
    {
        let r = (idx / self.width, idx % self.width);
        proof {
            lemma_table_pos_bounds(idx as int, self.width as int, self.collection@.len() as int);
        }
        r
    }

    /// The element at linear index `idx`.
    pub fn at(&self, idx: usize) -> (r: &T)
        requires
            idx < self.collection@.len(),
        ensures
            *r == self.collection@[idx as int],
    {
        &self.collection[idx]
    }

    /// Replaces the element at linear index `idx`.
    pub fn set(&mut self, idx: usize, v: T)
        requires
            idx < old(self).collection@.len(),
        ensures
            final(self).width == old(self).width,
            final(self).collection@ == old(self).collection@.update(idx as int, v),
    {
        self.collection.set(idx, v);
    }

    /// The element at position `(x, y)`.
    pub fn at_pos(&self, x: usize, y: usize) -> (r: &T)
        requires
            self.wf(),
            x < self.spec_height(),
            y < self.width,
        ensures
            *r == self.collection@[x as int * self.width as int + y as int],
    {
        let n = self.collection.len();
        proof {
            lemma_pos_index_bound(x as int, y as int, self.width as int, self.spec_height());
            vstd::arithmetic::div_mod::lemma_fundamental_div_mod(n as int, self.width as int);
            assert(x as int * (self.width as int) + (y as int) < (n as int));
        }
        &self.collection[x * self.width + y]
    }

    /// The positions orthogonally adjacent to `(x, y)` that lie inside the
    /// grid, each with the direction that leads to it, in the fixed
    /// direction order.
    pub fn neighbor_positions(&self, x: usize, y: usize) -> (r: Vec<((usize, usize), Direction)>)
        requires
            self.wf(),
            x < self.spec_height(),
            y < self.width,
        ensures
            forall|j: int|
                0 <= j < r@.len() ==> {
                    let ((nx, ny), d) = #[trigger] r@[j];
                    &&& (nx as int, ny as int) == step_of(d, x as int, y as int)
                    &&& nbr_in_bounds(self.width as int, self.spec_height(), x as int, y as int, d)
                },
            forall|d: Direction|
                #[trigger] nbr_in_bounds(self.width as int, self.spec_height(), x as int, y as int, d)
                    ==> exists|j: int| 0 <= j < r@.len() && r@[j].1 == d,
            forall|j1: int, j2: int|
                0 <= j1 < j2 < r@.len() ==> index_of(r@[j1].1) < index_of(r@[j2].1),
    {
        let height = self.height();
        let mut r: Vec<((usize, usize), Direction)> = Vec::new();
        if x >= 1 {
            r.push(((x - 1, y), Direction::Up));
        }
        if y + 1 < self.width {
            r.push(((x, y + 1), Direction::Right));
        }
        if x + 1 < height {
            r.push(((x + 1, y), Direction::Down));
        }
        if y >= 1 {
            r.push(((x, y - 1), Direction::Left));
        }
        proof {
            assert forall|d: Direction|
                #[trigger] nbr_in_bounds(
                    self.width as int,
                    self.spec_height(),
                    x as int,
                    y as int,
                    d,
                ) implies exists|j: int| 0 <= j < r@.len() && r@[j].1 == d by {
                match d {
                    Direction::Up => {
                        assert(r@[0].1 == d);
                    },
                    Direction::Right => {
                        let j = if x >= 1 { 1int } else { 0int };
                        assert(r@[j].1 == d);
                    },
                    Direction::Down => {
                        let j = (if x >= 1 { 1int } else { 0int }) + (if y + 1 < self.width {
                            1int
                        } else {
                            0int
                        });
                        assert(r@[j].1 == d);
                    },
                    Direction::Left => {
                        assert(r@[r@.len() - 1].1 == d);
                    },
                }
            }
        }
        r
    }
}

impl<T: Copy> Table<T> {
    /// The elements orthogonally adjacent to `(x, y)`, each with the
    /// direction that leads to it from `(x, y)`, in the fixed direction
    /// order; positions outside the grid are skipped.
    pub fn get_neighbors(&self, pos: (usize, usize)) -> (r: Vec<(T, Direction)>)
        requires
            self.wf(),
            pos.0 < self.spec_height(),
            pos.1 < self.width,
        ensures
            forall|j: int|
                0 <= j < r@.len() ==> {
                    let (v, d) = #[trigger] r@[j];
                    let p = step_of(d, pos.0 as int, pos.1 as int);
                    &&& nbr_in_bounds(
                        self.width as int,
                        self.spec_height(),
                        pos.0 as int,
                        pos.1 as int,
                        d,
                    )
                    &&& v == self.collection@[p.0 * self.width + p.1]
                },
            forall|d: Direction|
                #[trigger] nbr_in_bounds(
                    self.width as int,
                    self.spec_height(),
                    pos.0 as int,
                    pos.1 as int,
                    d,
                ) ==> exists|j: int| 0 <= j < r@.len() && r@[j].1 == d,
            forall|j1: int, j2: int|
                0 <= j1 < j2 < r@.len() ==> index_of(r@[j1].1) < index_of(r@[j2].1),
    {
        let (x, y) = pos;
        let positions = self.neighbor_positions(x, y);
        let mut r: Vec<(T, Direction)> = Vec::new();
        let n = positions.len();
        let mut i: usize = 0;
        while i < n
            invariant
                self.wf(),
                x < self.spec_height(),
                y < self.width,
                n == positions@.len(),
                i <= n,
                r@.len() == i,
                forall|j: int|
                    0 <= j < positions@.len() ==> {
                        let ((nx, ny), d) = #[trigger] positions@[j];
                        &&& (nx as int, ny as int) == step_of(d, x as int, y as int)
                        &&& nbr_in_bounds(
                            self.width as int,
                            self.spec_height(),
                            x as int,
                            y as int,
                            d,
                        )
                    },
                forall|j: int| 0 <= j < i ==> (#[trigger] r@[j]).1 == positions@[j].1,
                forall|j: int|
                    0 <= j < i ==> {
                        let (v, d) = #[trigger] r@[j];
                        let p = step_of(d, x as int, y as int);
                        v == self.collection@[p.0 * self.width + p.1]
                    },
            decreases n - i,
        {
            let ((nx, ny), d) = positions[i];
            let v = *self.at_pos(nx, ny);
            r.push((v, d));
            i = i + 1;
        }
        proof {
            assert forall|d: Direction|
                #[trigger] nbr_in_bounds(
                    self.width as int,
                    self.spec_height(),
                    pos.0 as int,
                    pos.1 as int,
                    d,
                ) implies exists|j: int| 0 <= j < r@.len() && r@[j].1 == d by {
                let j = choose|j: int| 0 <= j < positions@.len() && positions@[j].1 == d;
                assert(r@[j].1 == d);
            }
        }
        r
    }
}

/// Row and column of a linear index inside the grid.
pub proof fn lemma_table_pos_bounds(idx: int, width: int, len: int)
    requires
        width >= 1,
        len % width == 0,
        0 <= idx < len,
    ensures
        0 <= idx / width < len / width,
        0 <= idx % width < width,
        (idx / width) * width + idx % width == idx,
{
    vstd::arithmetic::div_mod::lemma_fundamental_div_mod(idx, width);
    vstd::arithmetic::div_mod::lemma_mod_bound(idx, width);
    vstd::arithmetic::div_mod::lemma_fundamental_div_mod(len, width);
    assert(0 <= idx / width) by (nonlinear_arith)
        requires
            width >= 1,
            idx >= 0,
            idx == width * (idx / width) + idx % width,
            0 <= idx % width < width,
    ;
    assert(idx / width < len / width) by (nonlinear_arith)
        requires
            width >= 1,
            idx == width * (idx / width) + idx % width,
            len == width * (len / width) + len % width,
            len % width == 0,
            0 <= idx % width < width,
            idx < len,
            0 <= idx / width,
    ;
}

} // verus!
