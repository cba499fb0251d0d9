//! Dense two-dimensional grids addressed by integer coordinates.

use vstd::prelude::*;
use crate::position::Position;

verus! {

/// A `width` x `height` array of cells, stored row by row: the cell at
/// `(x, y)` is element `x + y * width` of `data`.
#[derive(Debug)]
pub struct Grid<T> {
    pub data: Vec<T>,
    pub width: i32,
    pub height: i32,
}

/// The nearest value to `v` inside `lo..=hi`.
pub open spec fn clamp_int(v: int, lo: int, hi: int) -> int {
    if v < lo {
        lo
    } else if v > hi {
        hi
    } else {
        v
    }
}

/// How far apart two coordinates are.
pub open spec fn distance(a: int, b: int) -> int {
    if a <= b {
        b - a
    } else {
        a - b
    }
}

/// A cell inside a `width` x `height` rectangle has its row-major index inside
/// `0..width * height`, and the index determines the cell.
pub proof fn lemma_cell_index(width: int, height: int, x: int, y: int)
    requires
        0 <= x < width,
        0 <= y < height,
    ensures
        0 <= x + y * width < width * height,
        (x + y * width) % width == x,
        (x + y * width) / width == y,
{
    assert(0 <= y * width) by (nonlinear_arith)
        requires
            0 <= y,
            0 < width,
    ;
    assert(y * width + width <= height * width) by (nonlinear_arith)
        requires
            y + 1 <= height,
            0 < width,
    ;
    assert(height * width == width * height) by (nonlinear_arith);
    vstd::arithmetic::div_mod::lemma_fundamental_div_mod_converse(x + y * width, width, y, x);
}

/// Every index inside `0..width * height` is the row-major index of exactly
/// one cell of the rectangle.
pub proof fn lemma_index_cell(width: int, height: int, i: int)
    requires
        0 <= i < width * height,
        0 <= width,
        0 <= height,
    ensures
        0 <= i % width < width,
        0 <= i / width < height,
        i == i % width + (i / width) * width,
{
    assert(width > 0) by (nonlinear_arith)
        requires
            0 <= i < width * height,
            0 <= width,
    ;
    vstd::arithmetic::div_mod::lemma_fundamental_div_mod(i, width);
    vstd::arithmetic::div_mod::lemma_mod_bound(i, width);
    assert(i == width * (i / width) + i % width);
    assert(width * (i / width) == (i / width) * width) by (nonlinear_arith);
    assert(0 <= i / width) by (nonlinear_arith)
        requires
            0 <= i,
            0 < width,
    ;
    assert(i / width < height) by (nonlinear_arith)
        requires
            i == (i / width) * width + i % width,
            0 <= i % width,
            i < width * height,
            0 < width,
    ;
}

/// Writing one cell leaves every other cell as it was.
pub proof fn lemma_write_cell<T>(before: Grid<T>, after: Grid<T>, x: int, y: int, v: T)
    requires
        before.wf(),
        before.in_bounds(x, y),
        after.width == before.width,
        after.height == before.height,
        after.data@ == before.data@.update(x + y * before.width, v),
    ensures
        after.wf(),
        after.at(x, y) == v,
        forall|cx: int, cy: int|
            before.in_bounds(cx, cy) && (cx != x || cy != y) ==> #[trigger] after.at(cx, cy)
                == before.at(cx, cy),
{
    lemma_cell_index(before.width as int, before.height as int, x, y);
    assert forall|cx: int, cy: int|
        before.in_bounds(cx, cy) && (cx != x || cy != y) implies #[trigger] after.at(cx, cy)
        == before.at(cx, cy) by {
        lemma_cell_index(before.width as int, before.height as int, cx, cy);
    }
}

/// Clamping a coordinate pair gives the cell of the grid that is nearest to
/// it along each axis, and gives the pair itself when it is inside the grid.
pub proof fn lemma_clamped_cell<T>(g: Grid<T>, x: int, y: int)
    requires
        g.wf(),
        g.width > 0,
        g.height > 0,
    ensures
        g.in_bounds(g.clamp_x(x), g.clamp_y(y)),
        g.in_bounds(x, y) ==> g.clamp_x(x) == x && g.clamp_y(y) == y,
        g.in_bounds(x, y) ==> g.at(g.clamp_x(x), g.clamp_y(y)) == g.at(x, y),
        forall|cx: int|
            0 <= cx < g.width ==> distance(g.clamp_x(x), x) <= #[trigger] distance(cx, x),
        forall|cy: int|
            0 <= cy < g.height ==> distance(g.clamp_y(y), y) <= #[trigger] distance(cy, y),
{
}

impl<T> Grid<T> {
    /// The dimensions are not negative and `data` holds one element per cell.
    pub open spec fn wf(&self) -> bool {
        &&& 0 <= self.width
        &&& 0 <= self.height
        &&& self.data@.len() == self.width * self.height
    }

    pub open spec fn in_bounds(&self, x: int, y: int) -> bool {
        0 <= x < self.width && 0 <= y < self.height
    }

    pub open spec fn contains(&self, p: Position) -> bool {
        p.within(self.width as int, self.height as int)
    }

    /// The value of the cell at `(x, y)`.
    pub open spec fn at(&self, x: int, y: int) -> T {
        self.data@[x + y * self.width]
    }

    pub open spec fn cell(&self, p: Position) -> T {
        self.at(p.x as int, p.y as int)
    }

    /// The column nearest to `x` that lies inside the grid.
    pub open spec fn clamp_x(&self, x: int) -> int {
        clamp_int(x, 0, self.width - 1)
    }

    /// The row nearest to `y` that lies inside the grid.
    pub open spec fn clamp_y(&self, y: int) -> int {
        clamp_int(y, 0, self.height - 1)
    }

    /// The two grids have the same dimensions.
    pub open spec fn same_shape<U>(&self, other: &Grid<U>) -> bool {
        self.width == other.width && self.height == other.height
    }

    fn offset(&self, x: i32, y: i32) -> (i: usize)
        requires
            self.wf(),
            self.in_bounds(x as int, y as int),
        ensures
            i == x + y * self.width,
            i < self.data@.len(),
    {
        let col: usize = x as usize;
        let row: usize = y as usize;
        let w: usize = self.width as usize;
        proof {
            lemma_cell_index(self.width as int, self.height as int, x as int, y as int);
            assert(0 <= row * w) by (nonlinear_arith);
            assert(row * w == y * self.width);
            assert(self.data.len() == self.data@.len());
        }
        col + row * w
    }

    /// A `width` x `height` grid whose every cell is a clone of `fill`.
    pub fn new(width: i32, height: i32, fill: T) -> (g: Grid<T>) where T: Clone
        requires
            0 <= width,
            0 <= height,
            width * height <= usize::MAX,
        ensures
            g.wf(),
            g.width == width,
            g.height == height,
            forall|x: int, y: int| g.in_bounds(x, y) ==> cloned(fill, #[trigger] g.at(x, y)),
    {
        let w: usize = width as usize;
        let h: usize = height as usize;
        proof {
            assert(w * h == width * height);
        }
        let data = vec![fill; w * h];
        let g = Grid { data, width, height };
        proof {
            assert forall|x: int, y: int| g.in_bounds(x, y) implies cloned(
                fill,
                #[trigger] g.at(x, y),
            ) by {
                lemma_cell_index(width as int, height as int, x, y);
            }
        }
        g
    }

    /// A `width` x `height` grid whose cell at `(x, y)` is what `f` gives for
    /// `(x, y)`. The cells are computed row by row, each row from left to right.
    pub fn filled_with<F: Fn(i32, i32) -> T>(width: i32, height: i32, f: F) -> (g: Grid<T>)
        requires
            0 <= width,
            0 <= height,
            width * height <= usize::MAX,
            forall|x: i32, y: i32| 0 <= x < width && 0 <= y < height ==> f.requires((x, y)),
        ensures
            g.wf(),
            g.width == width,
            g.height == height,
            forall|x: i32, y: i32|
                g.in_bounds(x as int, y as int) ==> f.ensures(
                    (x, y),
                    #[trigger] g.at(x as int, y as int),
                ),
    {
        let mut data: Vec<T> = Vec::new();
        let mut y: i32 = 0;
        while y < height
            invariant
                0 <= y <= height,
                0 <= width,
                data@.len() == y * width,
                forall|x: i32, y: i32| 0 <= x < width && 0 <= y < height ==> f.requires((x, y)),
                forall|cx: i32, cy: i32|
                    0 <= cx < width && 0 <= cy < y ==> f.ensures(
                        (cx, cy),
                        #[trigger] data@[cx + cy * width],
                    ),
            decreases height - y,
        {
            let mut x: i32 = 0;
            while x < width
                invariant
                    0 <= y < height,
                    0 <= x <= width,
                    data@.len() == y * width + x,
                    forall|x: i32, y: i32|
                        0 <= x < width && 0 <= y < height ==> f.requires((x, y)),
                    forall|cx: i32, cy: i32|
                        0 <= cx < width && 0 <= cy < y ==> f.ensures(
                            (cx, cy),
                            #[trigger] data@[cx + cy * width],
                        ),
                    forall|cx: i32| 0 <= cx < x ==> f.ensures((cx, y), #[trigger] data@[cx + y * width]),
                decreases width - x,
            {
                let ghost before = data@;
                let v = f(x, y);
                data.push(v);
                proof {
                    assert forall|cx: i32, cy: i32| 0 <= cx < width && 0 <= cy < y implies f.ensures(
                        (cx, cy),
                        #[trigger] data@[cx + cy * width],
                    ) by {
                        lemma_cell_index(width as int, y as int, cx as int, cy as int);
                        assert(width * y == y * width) by (nonlinear_arith);
                        assert(data@[cx + cy * width] == before[cx + cy * width]);
                    }
                    assert forall|cx: i32| 0 <= cx < x + 1 implies f.ensures(
                        (cx, y),
                        #[trigger] data@[cx + y * width],
                    ) by {
                        if cx < x {
                            assert(data@[cx + y * width] == before[cx + y * width]);
                        }
                    }
                }
                x = x + 1;
            }
            proof {
                assert((y + 1) * width == y * width + width) by (nonlinear_arith);
            }
            y = y + 1;
        }
        proof {
            assert(height * width == width * height) by (nonlinear_arith);
        }
        Grid { data, width, height }
    }

    /// The cell at `(x, y)`, which must lie inside the grid.
    pub fn get(&self, x: i32, y: i32) -> (r: &T)
        requires
            self.wf(),
            self.in_bounds(x as int, y as int),
        ensures
            *r == self.at(x as int, y as int),
    {
        let i = self.offset(x, y);
        &self.data[i]
    }

    /// The cell at `(x, y)`, which must lie inside the grid, for writing.
    pub fn get_mut(&mut self, x: i32, y: i32) -> (r: &mut T)
        requires
            old(self).wf(),
            old(self).in_bounds(x as int, y as int),
        ensures
            *r == old(self).at(x as int, y as int),
            final(self).width == old(self).width,
            final(self).height == old(self).height,
            final(self).data@ == old(self).data@.update(x + y * old(self).width, *final(r)),
    {
        let i = self.offset(x, y);
        &mut self.data[i]
    }

    /// The cell nearest to `(x, y)`: each coordinate is first moved into the
    /// grid, independently of the other.
    pub fn get_clamped(&self, x: i32, y: i32) -> (r: &T)
        requires
            self.wf(),
            self.width > 0,
            self.height > 0,
        ensures
            *r == self.at(self.clamp_x(x as int), self.clamp_y(y as int)),
    {
        let cx: i32 = if x < 0 {
            0
        } else if x > self.width - 1 {
            self.width - 1
        } else {
            x
        };
        let cy: i32 = if y < 0 {
            0
        } else if y > self.height - 1 {
            self.height - 1
        } else {
            y
        };
        self.get(cx, cy)
    }

    /// `get_clamped` on the coordinates of `pos`.
    pub fn get_clamped_v(&self, pos: Position) -> (r: &T)
        requires
            self.wf(),
            self.width > 0,
            self.height > 0,
        ensures
            *r == self.at(self.clamp_x(pos.x as int), self.clamp_y(pos.y as int)),
    {
        self.get_clamped(pos.x, pos.y)
    }

    /// The cell nearest to `(x, y)`, for writing.
    pub fn get_clamped_mut(&mut self, x: i32, y: i32) -> (r: &mut T)
        requires
            old(self).wf(),
            old(self).width > 0,
            old(self).height > 0,
        ensures
            *r == old(self).at(old(self).clamp_x(x as int), old(self).clamp_y(y as int)),
            final(self).width == old(self).width,
            final(self).height == old(self).height,
            final(self).data@ == old(self).data@.update(
                old(self).clamp_x(x as int) + old(self).clamp_y(y as int) * old(self).width,
                *final(r),
            ),
    {
        let cx: i32 = if x < 0 {
            0
        } else if x > self.width - 1 {
            self.width - 1
        } else {
            x
        };
        let cy: i32 = if y < 0 {
            0
        } else if y > self.height - 1 {
            self.height - 1
        } else {
            y
        };
        self.get_mut(cx, cy)
    }

    /// Overwrites every cell with a clone of `value`.
    pub fn fill(&mut self, value: T) where T: Clone
        requires
            old(self).wf(),
        ensures
            final(self).wf(),
            final(self).same_shape(old(self)),
            forall|x: int, y: int|
                final(self).in_bounds(x, y) ==> cloned(value, #[trigger] final(self).at(x, y)),
    {
        let n = self.data.len();
        let mut i: usize = 0;
        while i < n
            invariant
                0 <= i <= n,
                n == self.data@.len(),
                self.width == old(self).width,
                self.height == old(self).height,
                forall|j: int| 0 <= j < i ==> cloned(value, #[trigger] self.data@[j]),
            decreases n - i,
        {
            self.data.set(i, value.clone());
            i = i + 1;
        }
        proof {
            assert forall|x: int, y: int| self.in_bounds(x, y) implies cloned(
                value,
                #[trigger] self.at(x, y),
            ) by {
                lemma_cell_index(self.width as int, self.height as int, x, y);
            }
        }
    }

    /// All cells with their coordinates, row by row, each row from left to
    /// right: entry `i` is `(x, y, value)` with `i == x + y * width`.
    pub fn iter(&self) -> (r: Vec<(i32, i32, &T)>)
        requires
            self.wf(),
        ensures
            r@.len() == self.data@.len(),
            forall|i: int|
                0 <= i < r@.len() ==> {
                    &&& (#[trigger] r@[i]).0 == i % (self.width as int)
                    &&& r@[i].1 == i / (self.width as int)
                    &&& *r@[i].2 == self.data@[i]
                },
    {
        let mut r: Vec<(i32, i32, &T)> = Vec::new();
        let mut y: i32 = 0;
        while y < self.height
            invariant
                self.wf(),
                0 <= y <= self.height,
                r@.len() == y * self.width,
                forall|i: int|
                    0 <= i < r@.len() ==> {
                        &&& (#[trigger] r@[i]).0 == i % (self.width as int)
                        &&& r@[i].1 == i / (self.width as int)
                        &&& *r@[i].2 == self.data@[i]
                    },
            decreases self.height - y,
        {
            let mut x: i32 = 0;
            while x < self.width
                invariant
                    self.wf(),
                    0 <= y < self.height,
                    0 <= x <= self.width,
                    r@.len() == y * self.width + x,
                    forall|i: int|
                        0 <= i < r@.len() ==> {
                            &&& (#[trigger] r@[i]).0 == i % (self.width as int)
                            &&& r@[i].1 == i / (self.width as int)
                            &&& *r@[i].2 == self.data@[i]
                        },
                decreases self.width - x,
            {
                proof {
                    lemma_cell_index(self.width as int, self.height as int, x as int, y as int);
                }
                r.push((x, y, self.get(x, y)));
                x = x + 1;
            }
            proof {
                assert((y + 1) * self.width == y * self.width + self.width) by (nonlinear_arith);
            }
            y = y + 1;
        }
        proof {
            assert(self.height * self.width == self.width * self.height) by (nonlinear_arith);
        }
        r
    }

    /// All cells with their positions, in the order of `iter`.
    pub fn iter_coords(&self) -> (r: Vec<(Position, &T)>)
        requires
            self.wf(),
        ensures
            r@.len() == self.data@.len(),
            forall|i: int|
                0 <= i < r@.len() ==> {
                    &&& (#[trigger] r@[i]).0.x == i % (self.width as int)
                    &&& r@[i].0.y == i / (self.width as int)
                    &&& *r@[i].1 == self.data@[i]
                },
    {
        let cells = self.iter();
        let mut r: Vec<(Position, &T)> = Vec::new();
        let mut i: usize = 0;
        while i < cells.len()
            invariant
                0 <= i <= cells@.len(),
                cells@.len() == self.data@.len(),
                r@.len() == i,
                forall|j: int|
                    0 <= j < cells@.len() ==> {
                        &&& (#[trigger] cells@[j]).0 == j % (self.width as int)
                        &&& cells@[j].1 == j / (self.width as int)
                        &&& *cells@[j].2 == self.data@[j]
                    },
                forall|j: int|
                    0 <= j < r@.len() ==> {
                        &&& (#[trigger] r@[j]).0.x == j % (self.width as int)
                        &&& r@[j].0.y == j / (self.width as int)
                        &&& *r@[j].1 == self.data@[j]
                    },
            decreases cells@.len() - i,
        {
            let (x, y, v) = cells[i];
            r.push((Position { x, y }, v));
            i = i + 1;
        }
        r
    }
}

impl Grid<i32> {
    /// Moves every cell's value into `lo..=hi`.
    pub fn clamp_values(&mut self, lo: i32, hi: i32)
        requires
            old(self).wf(),
            lo <= hi,
        ensures
            final(self).wf(),
            final(self).same_shape(old(self)),
            forall|x: int, y: int|
                old(self).in_bounds(x, y) ==> #[trigger] final(self).at(x, y) == clamp_int(
                    old(self).at(x, y) as int,
                    lo as int,
                    hi as int,
                ),
    {
        let n = self.data.len();
        let mut i: usize = 0;
        while i < n
            invariant
                0 <= i <= n,
                n == self.data@.len(),
                n == old(self).data@.len(),
                self.width == old(self).width,
                self.height == old(self).height,
                forall|j: int|
                    0 <= j < i ==> #[trigger] self.data@[j] == clamp_int(
                        old(self).data@[j] as int,
                        lo as int,
                        hi as int,
                    ),
                forall|j: int| i <= j < n ==> #[trigger] self.data@[j] == old(self).data@[j],
            decreases n - i,
        {
            let v: i32 = self.data[i];
            if v < lo {
                self.data.set(i, lo);
            } else if v > hi {
                self.data.set(i, hi);
            }
            i = i + 1;
        }
        proof {
            assert forall|x: int, y: int| old(self).in_bounds(x, y) implies #[trigger] self.at(x, y)
                == clamp_int(old(self).at(x, y) as int, lo as int, hi as int) by {
                lemma_cell_index(self.width as int, self.height as int, x, y);
            }
        }
    }

    /// Multiplies every cell by the cell of `other` at the same place.
    pub fn mul_inplace(&mut self, other: &Grid<i32>)
        requires
            old(self).wf(),
            other.wf(),
            old(self).same_shape(other),
            forall|x: int, y: int|
                old(self).in_bounds(x, y) ==> i32::MIN <= #[trigger] old(self).at(x, y) * other.at(
                    x,
                    y,
                ) <= i32::MAX,
        ensures
            final(self).wf(),
            final(self).same_shape(old(self)),
            forall|x: int, y: int|
                old(self).in_bounds(x, y) ==> #[trigger] final(self).at(x, y) == old(self).at(x, y)
                    * other.at(x, y),
    {
        let n = self.data.len();
        let mut i: usize = 0;
        while i < n
            invariant
                0 <= i <= n,
                n == self.data@.len(),
                n == old(self).data@.len(),
                n == other.data@.len(),
                old(self).wf(),
                other.wf(),
                old(self).same_shape(other),
                self.width == old(self).width,
                self.height == old(self).height,
                forall|x: int, y: int|
                    old(self).in_bounds(x, y) ==> i32::MIN <= #[trigger] old(self).at(x, y)
                        * other.at(x, y) <= i32::MAX,
                forall|j: int|
                    0 <= j < i ==> #[trigger] self.data@[j] == old(self).data@[j] * other.data@[j],
                forall|j: int| i <= j < n ==> #[trigger] self.data@[j] == old(self).data@[j],
            decreases n - i,
        {
            proof {
                lemma_index_cell(self.width as int, self.height as int, i as int);
                let x = i as int % self.width as int;
                let y = i as int / self.width as int;
                assert(old(self).in_bounds(x, y));
                assert(old(self).at(x, y) == old(self).data@[i as int]);
                assert(other.at(x, y) == other.data@[i as int]);
                assert(i32::MIN <= old(self).at(x, y) * other.at(x, y) <= i32::MAX);
            }
            let a: i32 = self.data[i];
            let b: i32 = other.data[i];
            self.data.set(i, a * b);
            i = i + 1;
        }
        proof {
            assert forall|x: int, y: int| old(self).in_bounds(x, y) implies #[trigger] self.at(x, y)
                == old(self).at(x, y) * other.at(x, y) by {
                lemma_cell_index(self.width as int, self.height as int, x, y);
            }
        }
    }
}


impl<T> core::ops::Index<Position> for Grid<T> {
    type Output = T;

    /// `grid[pos]` is the cell that `get` gives for the coordinates of `pos`.
    fn index(&self, pos: Position) -> (r: &T)
        ensures
            *r == self.cell(pos),
    {
        self.get(pos.x, pos.y)
    }
}

impl<T> vstd::std_specs::core::IndexSpecImpl<Position> for Grid<T> {
    /// `grid[pos]` needs a position inside the grid.
    open spec fn index_req(&self, index: &Position) -> bool {
        self.wf() && self.contains(*index)
    }
}

} // verus!
