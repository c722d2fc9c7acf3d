use vstd::prelude::*;
use crate::state::Direction;

verus! {

/// The layers already walked on each side of the grid, and the last row or column index.
struct Border {
    max: i32,
    left: i32,
    top: i32,
    right: i32,
    bottom: i32,
}

/// The cell about to be numbered, the way the walk goes, and the number it gets.
struct Cursor {
    x: i32,
    y: i32,
    direction: Direction,
    value: i32,
}

/// Walks a square grid in a clockwise spiral from the top-left corner inwards, giving each
/// cell but the last its number, from 1 on.
pub struct SnailIterator {
    size: i32,
    max: i32,
    cursor: Cursor,
    border: Border,
}

/// Cells in the `layer` outermost rings of a grid of side `n`.
pub open spec fn outer_cells(n: int, layer: int) -> int {
    n * n - (n - 2 * layer) * (n - 2 * layer)
}

/// Number that the spiral of side `n` gives the cell at column `x`, row `y` of the ring
/// `layer`, counting from 1.
pub open spec fn spiral_number(n: int, layer: int, x: int, y: int) -> int {
    let m = n - 1;
    let k = n - 2 * layer;
    let offset = if y == layer {
        x - layer
    } else if x == m - layer {
        (k - 1) + (y - layer)
    } else if y == m - layer {
        2 * (k - 1) + (m - layer - x)
    } else {
        3 * (k - 1) + (m - layer - y)
    };
    outer_cells(n, layer) + 1 + offset
}

impl SnailIterator {
    /// Side of the grid.
    pub closed spec fn side(&self) -> int {
        self.size as int
    }

    /// Column of the cell about to be numbered.
    pub closed spec fn column(&self) -> int {
        self.cursor.x as int
    }

    /// Row of the cell about to be numbered.
    pub closed spec fn row(&self) -> int {
        self.cursor.y as int
    }

    /// Number of the cell about to be numbered.
    pub closed spec fn value(&self) -> int {
        self.cursor.value as int
    }

    /// Ring of the grid that the cursor walks.
    pub closed spec fn layer(&self) -> int {
        self.border.left as int
    }

    /// The cursor walks the ring `layer` clockwise, stands on it, and the number it
    /// carries counts the cells walked before.
    pub closed spec fn wf(&self) -> bool {
        let n = self.size as int;
        let m = n - 1;
        let l = self.border.left as int;
        let x = self.cursor.x as int;
        let y = self.cursor.y as int;
        &&& 1 <= n
        &&& n * n <= i32::MAX
        &&& self.max == n * n
        &&& self.border.max == m
        &&& 0 <= l
        &&& 1 <= self.cursor.value <= n * n
        &&& self.cursor.value == spiral_number(n, l, x, y)
        &&& match self.cursor.direction {
            Direction::Right => {
                &&& self.border.top == l
                &&& self.border.right == l
                &&& self.border.bottom == l
                &&& y == l
                &&& l <= x <= m - l
            },
            Direction::Down => {
                &&& self.border.top == l + 1
                &&& self.border.right == l
                &&& self.border.bottom == l
                &&& x == m - l
                &&& l + 1 <= y <= m - l
            },
            Direction::Left => {
                &&& self.border.top == l + 1
                &&& self.border.right == l + 1
                &&& self.border.bottom == l
                &&& y == m - l
                &&& l <= x <= m - l - 1
            },
            Direction::Up => {
                &&& self.border.top == l + 1
                &&& self.border.right == l + 1
                &&& self.border.bottom == l + 1
                &&& x == l
                &&& l + 1 <= y <= m - l - 1
            },
        }
    }

    /// A walk over a grid of side `size`, at its first cell.
    pub fn new(size: i32) -> (r: SnailIterator)
        requires
            1 <= size,
            size * size <= i32::MAX,
        ensures
            r.wf(),
            r.side() == size,
            r.column() == 0,
            r.row() == 0,
            r.value() == 1,
            r.layer() == 0,
    {
        let r = SnailIterator {
            size,
            max: (size * size),
            cursor: Cursor { x: 0, y: 0, direction: Direction::Right, value: 1 },
            border: Border { max: size - 1, left: 0, top: 0, right: 0, bottom: 0 },
        };
        proof {
            let n = size as int;
            assert(outer_cells(n, 0) == 0) by (nonlinear_arith);
            assert(1 <= n * n) by (nonlinear_arith)
                requires
                    1 <= n,
            ;
            assert(spiral_number(n, 0, 0, 0) == 1);
        }
        r
    }

    /// Flat index of the cell about to be numbered.
    pub fn position(&self) -> (r: usize)
        requires
            self.wf(),
        ensures
            r == self.column() + self.row() * self.side(),
            r < self.side() * self.side(),
    {
        proof {
            let n = self.size as int;
            let x = self.cursor.x as int;
            let y = self.cursor.y as int;
            assert(0 <= x < n && 0 <= y < n);
            assert(0 <= x + y * n < n * n) by (nonlinear_arith)
                requires
                    0 <= x < n,
                    0 <= y < n,
            ;
        }
        (self.cursor.x + (self.cursor.y * self.size)) as usize
    }

    /// Numbers the cell under the cursor and moves on along the spiral; once every cell
    /// but the last is numbered, gives `None` and stays on that last cell.
    pub fn next(&mut self) -> (r: Option<(usize, i32)>)
        requires
            old(self).wf(),
        ensures
            final(self).wf(),
            final(self).side() == old(self).side(),
            old(self).value() < old(self).side() * old(self).side() ==> r == Some(
                (
                    (old(self).column() + old(self).row() * old(self).side()) as usize,
                    old(self).value() as i32,
                ),
            ) && final(self).value() == old(self).value() + 1,
            old(self).value() >= old(self).side() * old(self).side() ==> r is None && *final(self)
                == *old(self),
            0 <= final(self).column() < final(self).side(),
            0 <= final(self).row() < final(self).side(),
            final(self).value() == cell_number(
                final(self).side(),
                final(self).column(),
                final(self).row(),
            ),
    {
        if self.cursor.value < self.max {
            let res = Some((self.position(), self.cursor.value));
            let ghost n = self.size as int;
            let ghost m = n - 1;
            let ghost l = self.border.left as int;
            let ghost k = n - 2 * l;
            let ghost v = self.cursor.value as int;
            proof {
                assert(outer_cells(n, l) == n * n - k * k);
            }
            self.cursor.value = self.cursor.value + 1;
            match self.cursor.direction {
                Direction::Right => {
                    if self.cursor.x == self.border.max - self.border.right {
                        proof {
                            assert(k >= 2) by (nonlinear_arith)
                                requires
                                    v == n * n - k * k + 1 + (k - 1),
                                    v < n * n,
                                    k >= 1,
                            ;
                        }
                        self.cursor.direction = Direction::Down;
                        self.border.top = self.border.top + 1;
                    }
                },
                Direction::Down => {
                    if self.cursor.y == self.border.max - self.border.bottom {
                        self.cursor.direction = Direction::Left;
                        self.border.right = self.border.right + 1;
                    }
                },
                Direction::Left => {
                    if self.cursor.x == self.border.left {
                        proof {
                            assert(k >= 3) by (nonlinear_arith)
                                requires
                                    v == n * n - k * k + 1 + 2 * (k - 1) + (k - 1),
                                    v < n * n,
                                    k >= 2,
                            ;
                        }
                        self.cursor.direction = Direction::Up;
                        self.border.bottom = self.border.bottom + 1;
                    }
                },
                Direction::Up => {
                    if self.cursor.y == self.border.top {
                        proof {
                            assert(outer_cells(n, l + 1) == n * n - k * k + 4 * k - 4)
                                by (nonlinear_arith)
                                requires
                                    k == n - 2 * l,
                            ;
                        }
                        self.cursor.direction = Direction::Right;
                        self.border.left = self.border.left + 1;
                    }
                },
            };
            self.cursor.x =
            match self.cursor.direction {
                Direction::Right => self.cursor.x + 1,
                Direction::Left => self.cursor.x - 1,
                _ => self.cursor.x,
            };
            self.cursor.y =
            match self.cursor.direction {
                Direction::Down => self.cursor.y + 1,
                Direction::Up => self.cursor.y - 1,
                _ => self.cursor.y,
            };
            proof {
                self.lemma_cursor();
            }
            res
        } else {
            proof {
                self.lemma_cursor();
            }
            None
        }
    }
}

/// The ring of the grid of side `n` that holds the cell at column `x`, row `y`: its
/// distance to the nearest edge.
pub open spec fn ring(n: int, x: int, y: int) -> int {
    let m = n - 1;
    let a = if x <= y {
        x
    } else {
        y
    };
    let b = if m - x <= m - y {
        m - x
    } else {
        m - y
    };
    if a <= b {
        a
    } else {
        b
    }
}

/// Number that the spiral of side `n` gives the cell at column `x`, row `y`.
pub open spec fn cell_number(n: int, x: int, y: int) -> int {
    spiral_number(n, ring(n, x, y), x, y)
}

/// Offset of a cell of ring `l` along that ring, from its top-left corner clockwise.
proof fn lemma_offset_range(n: int, x: int, y: int)
    requires
        1 <= n,
        0 <= x < n,
        0 <= y < n,
    ensures
        ({
            let l = ring(n, x, y);
            let k = n - 2 * l;
            let v = cell_number(n, x, y) - outer_cells(n, l) - 1;
            &&& 0 <= l
            &&& k >= 1
            &&& (k == 1 ==> v == 0)
            &&& (k >= 2 ==> 0 <= v <= 4 * k - 5)
        }),
{
}

/// Different cells of the grid get different numbers, each between 1 and `n * n`.
pub proof fn lemma_cell_number(n: int, x1: int, y1: int, x2: int, y2: int)
    requires
        1 <= n,
        0 <= x1 < n,
        0 <= y1 < n,
        0 <= x2 < n,
        0 <= y2 < n,
    ensures
        1 <= cell_number(n, x1, y1) <= n * n,
        cell_number(n, x1, y1) == cell_number(n, x2, y2) ==> x1 == x2 && y1 == y2,
{
    lemma_offset_range(n, x1, y1);
    lemma_offset_range(n, x2, y2);
    let l1 = ring(n, x1, y1);
    let l2 = ring(n, x2, y2);
    let k1 = n - 2 * l1;
    let k2 = n - 2 * l2;
    assert(outer_cells(n, l1) == n * n - k1 * k1);
    assert(outer_cells(n, l2) == n * n - k2 * k2);
    assert(cell_number(n, x1, y1) <= n * n) by (nonlinear_arith)
        requires
            k1 >= 1,
            k1 == 1 ==> cell_number(n, x1, y1) == n * n - k1 * k1 + 1,
            k1 >= 2 ==> cell_number(n, x1, y1) <= n * n - k1 * k1 + 1 + 4 * k1 - 5,
    ;
    assert(1 <= cell_number(n, x1, y1)) by (nonlinear_arith)
        requires
            k1 >= 1,
            k1 <= n,
            cell_number(n, x1, y1) >= n * n - k1 * k1 + 1,
    ;
    if cell_number(n, x1, y1) == cell_number(n, x2, y2) {
        if l1 < l2 {
            assert(false) by (nonlinear_arith)
                requires
                    k2 <= k1 - 2,
                    k2 >= 1,
                    cell_number(n, x1, y1) <= n * n - k1 * k1 + 1 + 4 * k1 - 5,
                    cell_number(n, x2, y2) >= n * n - k2 * k2 + 1,
                    cell_number(n, x1, y1) == cell_number(n, x2, y2),
            ;
        } else if l2 < l1 {
            assert(false) by (nonlinear_arith)
                requires
                    k1 <= k2 - 2,
                    k1 >= 1,
                    cell_number(n, x2, y2) <= n * n - k2 * k2 + 1 + 4 * k2 - 5,
                    cell_number(n, x1, y1) >= n * n - k1 * k1 + 1,
                    cell_number(n, x1, y1) == cell_number(n, x2, y2),
            ;
        }
    }
}

impl SnailIterator {
    /// The cursor stands inside the grid, and the number it carries is the number of its
    /// cell.
    pub proof fn lemma_cursor(&self)
        requires
            self.wf(),
        ensures
            0 <= self.column() < self.side(),
            0 <= self.row() < self.side(),
            self.value() == cell_number(self.side(), self.column(), self.row()),
    {
        assert(ring(self.size as int, self.cursor.x as int, self.cursor.y as int)
            == self.border.left);
    }
}

} // verus!
