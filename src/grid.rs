use vstd::prelude::*;

verus! {

/// A grid coordinate: column `x`, row `y`.
#[derive(PartialEq, Eq, Structural, Hash, Debug, Copy, Clone)]
pub struct Pixel {
    pub x: i32,
    pub y: i32,
}

/// The state of one cell.
#[derive(PartialEq, Eq, Structural, Hash, Debug, Copy, Clone)]
pub struct PixelInfo {
    /// Alive in the current generation.
    pub living: bool,
    /// On the outer ring of the grid; fixed when the grid is populated.
    pub boundry: bool,
    /// The staged state for the next generation.
    pub next_state: bool,
}

impl PixelInfo {
    /// A cell counts towards its neighbours' scores when it is alive and
    /// not on the border.
    pub open spec fn alive(self) -> bool {
        self.living && !self.boundry
    }

    pub fn report_living(&self) -> (r: bool)
        ensures
            r == self.alive(),
    {
        self.living && !self.boundry
    }
}

/// Position of cell `(x, y)` in the dense cell buffer of a grid whose rows
/// hold `ylen + 1` cells.
pub open spec fn cell_index(ylen: int, x: int, y: int) -> int {
    x * (ylen + 1) + y
}

/// Whether `(x, y)` lies on the outer ring of a `0..=xlen` by `0..=ylen` grid.
pub open spec fn on_border(xlen: int, ylen: int, x: int, y: int) -> bool {
    x == 0 || x == xlen || y == 0 || y == ylen
}

/// The grid: one cell for every coordinate in `0..=xlen` by `0..=ylen`, held
/// densely, column after column.
pub struct PixelMap {
    pub xlen: i32,
    pub ylen: i32,
    pub cells: Vec<PixelInfo>,
}

impl PixelMap {
    /// The number of cells of the grid.
    pub open spec fn area(self) -> int {
        (self.xlen + 1) * (self.ylen + 1)
    }

    pub open spec fn in_range(self, x: int, y: int) -> bool {
        0 <= x <= self.xlen && 0 <= y <= self.ylen
    }

    /// The interior: cells that are in range and not on the outer ring.
    pub open spec fn interior(self, x: int, y: int) -> bool {
        1 <= x < self.xlen && 1 <= y < self.ylen
    }

    /// The cell at `(x, y)`.
    pub open spec fn at(self, x: int, y: int) -> PixelInfo {
        self.cells@[cell_index(self.ylen as int, x, y)]
    }

    /// Well-formed: one cell per coordinate, each with its border flag
    /// telling whether it lies on the outer ring.
    pub open spec fn wf(self) -> bool {
        &&& 0 <= self.xlen
        &&& 0 <= self.ylen
        &&& self.cells@.len() == self.area()
        &&& forall|x: int, y: int|
            self.in_range(x, y) ==> #[trigger] self.at(x, y).boundry == on_border(
                self.xlen as int,
                self.ylen as int,
                x,
                y,
            )
    }

    /// Both grids have the same dimensions and the same cell at every
    /// coordinate.
    pub open spec fn same_grid(self, other: PixelMap) -> bool {
        &&& self.xlen == other.xlen
        &&& self.ylen == other.ylen
        &&& forall|x: int, y: int| self.in_range(x, y) ==> #[trigger] self.at(x, y) == other.at(x, y)
    }

    /// Every cell of the outer ring is dead.
    pub open spec fn borders_dead(self) -> bool {
        forall|x: int, y: int|
            self.in_range(x, y) && on_border(self.xlen as int, self.ylen as int, x, y)
                ==> !(#[trigger] self.at(x, y)).living
    }

    /// Position of the cell at `(x, y)` in the cell buffer.
    pub fn index_of(&self, x: i32, y: i32) -> (r: usize)
        requires
            self.wf(),
            self.in_range(x as int, y as int),
        ensures
            r == cell_index(self.ylen as int, x as int, y as int),
            r < self.cells@.len(),
    {
        proof {
            lemma_cell_index(self.xlen as int, self.ylen as int, x as int, y as int);
        }
        let n: usize = self.cells.len();
        let col: usize = x as usize;
        let height: usize = self.ylen as usize + 1;
        assert(col * height <= col * height + y);
        col * height + y as usize
    }

    /// A copy of the cell at `pix`.
    pub fn get(&self, pix: Pixel) -> (r: PixelInfo)
        requires
            self.wf(),
            self.in_range(pix.x as int, pix.y as int),
        ensures
            r == self.at(pix.x as int, pix.y as int),
    {
        let i = self.index_of(pix.x, pix.y);
        self.cells[i]
    }

    /// An empty grid, to be filled by [`populate_pixmap`].
    pub fn new() -> (r: PixelMap)
        ensures
            r.xlen == 0,
            r.ylen == 0,
            r.cells@.len() == 0,
    {
        PixelMap { xlen: 0, ylen: 0, cells: Vec::new() }
    }
}

/// A coordinate in range has a position inside the cell buffer.
pub proof fn lemma_cell_index(xlen: int, ylen: int, x: int, y: int)
    requires
        0 <= x <= xlen,
        0 <= y <= ylen,
    ensures
        0 <= cell_index(ylen, x, y) < (xlen + 1) * (ylen + 1),
{
    assert(0 <= x * (ylen + 1) + y < (xlen + 1) * (ylen + 1)) by (nonlinear_arith)
        requires
            0 <= x <= xlen,
            0 <= y <= ylen,
    ;
}

/// Distinct coordinates in range have distinct positions.
pub proof fn lemma_cell_index_injective(ylen: int, x1: int, y1: int, x2: int, y2: int)
    requires
        0 <= x1,
        0 <= x2,
        0 <= y1 <= ylen,
        0 <= y2 <= ylen,
        cell_index(ylen, x1, y1) == cell_index(ylen, x2, y2),
    ensures
        x1 == x2,
        y1 == y2,
{
    assert(x1 == x2) by (nonlinear_arith)
        requires
            0 <= x1,
            0 <= x2,
            0 <= y1 <= ylen,
            0 <= y2 <= ylen,
            x1 * (ylen + 1) + y1 == x2 * (ylen + 1) + y2,
    ;
}

/// `a * k + b` for a column `a` before column `x` lies before the start of
/// column `x`.
proof fn lemma_earlier_column(a: int, x: int, k: int, b: int)
    requires
        0 <= a < x,
        0 <= b < k,
    ensures
        a * k + b < x * k,
{
    assert(a * k + b < x * k) by (nonlinear_arith)
        requires
            0 <= a < x,
            0 <= b < k,
    ;
}

/// The cell that [`populate_pixmap`] places at `(x, y)`.
pub open spec fn fresh_cell(xlen: int, ylen: int, x: int, y: int) -> PixelInfo {
    PixelInfo { living: false, boundry: on_border(xlen, ylen, x, y), next_state: false }
}

/// Fills `pixmap` with one dead cell for every coordinate in `0..=xlen` by
/// `0..=ylen`, marking the outer ring as border. Whatever it held before is
/// discarded.
pub fn populate_pixmap(xlen: i32, ylen: i32, pixmap: &mut PixelMap)
    requires
        0 <= xlen,
        0 <= ylen,
        (xlen + 1) * (ylen + 1) <= usize::MAX,
    ensures
        final(pixmap).wf(),
        final(pixmap).xlen == xlen,
        final(pixmap).ylen == ylen,
        forall|x: int, y: int|
            final(pixmap).in_range(x, y) ==> #[trigger] final(pixmap).at(x, y) == fresh_cell(
                xlen as int,
                ylen as int,
                x,
                y,
            ),
        final(pixmap).borders_dead(),
{
    let mut cells: Vec<PixelInfo> = Vec::new();
    let mut x: i64 = 0;
    while x <= xlen as i64
        invariant
            0 <= xlen,
            0 <= ylen,
            (xlen + 1) * (ylen + 1) <= usize::MAX,
            0 <= x <= xlen + 1,
            cells@.len() == x * (ylen + 1),
            forall|a: int, b: int|
                0 <= a < x && 0 <= b <= ylen ==> #[trigger] cells@[cell_index(ylen as int, a, b)]
                    == fresh_cell(xlen as int, ylen as int, a, b),
        decreases xlen + 1 - x,
    {
        let mut y: i64 = 0;
        while y <= ylen as i64
            invariant
                0 <= xlen,
                0 <= ylen,
                (xlen + 1) * (ylen + 1) <= usize::MAX,
                0 <= x <= xlen,
                0 <= y <= ylen + 1,
                cells@.len() == x * (ylen + 1) + y,
                forall|a: int, b: int|
                    (0 <= a < x && 0 <= b <= ylen) || (a == x && 0 <= b < y)
                        ==> #[trigger] cells@[cell_index(ylen as int, a, b)] == fresh_cell(
                        xlen as int,
                        ylen as int,
                        a,
                        b,
                    ),
            decreases ylen + 1 - y,
        {
            proof {
                lemma_cell_index(xlen as int, ylen as int, x as int, y as int);
            }
            let border = x == 0 || x == xlen as i64 || y == 0 || y == ylen as i64;
            let ghost before = cells@;
            cells.push(PixelInfo { living: false, boundry: border, next_state: false });
            proof {
                assert forall|a: int, b: int|
                    (0 <= a < x && 0 <= b <= ylen) || (a == x && 0 <= b < y + 1) implies
                    #[trigger] cells@[cell_index(ylen as int, a, b)] == fresh_cell(
                        xlen as int,
                        ylen as int,
                        a,
                        b,
                    ) by {
                    if a < x {
                        lemma_earlier_column(a, x as int, ylen + 1, b);
                        assert(cells@[cell_index(ylen as int, a, b)] == before[cell_index(
                            ylen as int,
                            a,
                            b,
                        )]);
                    } else if b < y {
                        assert(cells@[cell_index(ylen as int, a, b)] == before[cell_index(
                            ylen as int,
                            a,
                            b,
                        )]);
                    }
                }
            }
            y = y + 1;
        }
        assert((x + 1) * (ylen + 1) == x * (ylen + 1) + (ylen + 1)) by (nonlinear_arith);
        x = x + 1;
    }
    pixmap.xlen = xlen;
    pixmap.ylen = ylen;
    pixmap.cells = cells;
}

/// Overwrites the `living` flag of the cell at `(x, y)`; every other field
/// and every other cell keep their values.
pub fn update_pixel(x: i32, y: i32, is_living: bool, pixmap: &mut PixelMap)
    requires
        old(pixmap).wf(),
        old(pixmap).in_range(x as int, y as int),
    ensures
        final(pixmap).wf(),
        final(pixmap).xlen == old(pixmap).xlen,
        final(pixmap).ylen == old(pixmap).ylen,
        final(pixmap).at(x as int, y as int) == (PixelInfo {
            living: is_living,
            ..old(pixmap).at(x as int, y as int)
        }),
        forall|a: int, b: int|
            old(pixmap).in_range(a, b) && (a != x || b != y) ==> #[trigger] final(pixmap).at(a, b)
                == old(pixmap).at(a, b),
{
    let i = pixmap.index_of(x, y);
    let old_info = pixmap.cells[i];
    pixmap.cells.set(i, PixelInfo { living: is_living, ..old_info });
    proof {
        assert forall|a: int, b: int|
            old(pixmap).in_range(a, b) && (a != x || b != y) implies #[trigger] pixmap.at(a, b)
                == old(pixmap).at(a, b) by {
            lemma_cell_index(pixmap.xlen as int, pixmap.ylen as int, a, b);
            if cell_index(pixmap.ylen as int, a, b) == i {
                lemma_cell_index_injective(pixmap.ylen as int, a, b, x as int, y as int);
            }
        }
        assert forall|a: int, b: int| pixmap.in_range(a, b) implies #[trigger] pixmap.at(a, b).boundry
            == on_border(pixmap.xlen as int, pixmap.ylen as int, a, b) by {
            if a != x || b != y {
                assert(pixmap.at(a, b) == old(pixmap).at(a, b));
            }
        }
    }
}

/// Lists every coordinate of the grid, column after column: the coordinate
/// `(x, y)` stands at the position of its cell.
pub fn get_key_clones(pixmap: &PixelMap) -> (r: Vec<Pixel>)
    requires
        pixmap.wf(),
    ensures
        r@.len() == pixmap.area(),
        forall|x: int, y: int|
            pixmap.in_range(x, y) ==> #[trigger] r@[cell_index(pixmap.ylen as int, x, y)] == (Pixel {
                x: x as i32,
                y: y as i32,
            }),
        forall|i: int| 0 <= i < r@.len() ==> pixmap.in_range(#[trigger] r@[i].x as int, r@[i].y as int),
{
    let xlen = pixmap.xlen;
    let ylen = pixmap.ylen;
    let mut keys: Vec<Pixel> = Vec::new();
    let mut x: i64 = 0;
    while x <= xlen as i64
        invariant
            xlen == pixmap.xlen,
            ylen == pixmap.ylen,
            0 <= xlen,
            0 <= ylen,
            0 <= x <= xlen + 1,
            keys@.len() == x * (ylen + 1),
            forall|a: int, b: int|
                0 <= a < x && 0 <= b <= ylen ==> #[trigger] keys@[cell_index(ylen as int, a, b)]
                    == (Pixel { x: a as i32, y: b as i32 }),
            forall|i: int|
                0 <= i < keys@.len() ==> pixmap.in_range(#[trigger] keys@[i].x as int, keys@[i].y as int),
        decreases xlen + 1 - x,
    {
        let mut y: i64 = 0;
        while y <= ylen as i64
            invariant
                xlen == pixmap.xlen,
                ylen == pixmap.ylen,
                0 <= xlen,
                0 <= ylen,
                0 <= x <= xlen,
                0 <= y <= ylen + 1,
                keys@.len() == x * (ylen + 1) + y,
                forall|a: int, b: int|
                    (0 <= a < x && 0 <= b <= ylen) || (a == x && 0 <= b < y)
                        ==> #[trigger] keys@[cell_index(ylen as int, a, b)] == (Pixel {
                        x: a as i32,
                        y: b as i32,
                    }),
                forall|i: int|
                    0 <= i < keys@.len() ==> pixmap.in_range(#[trigger] keys@[i].x as int, keys@[i].y as int),
            decreases ylen + 1 - y,
        {
            let ghost before = keys@;
            keys.push(Pixel { x: x as i32, y: y as i32 });
            proof {
                assert forall|a: int, b: int|
                    (0 <= a < x && 0 <= b <= ylen) || (a == x && 0 <= b < y + 1) implies
                    #[trigger] keys@[cell_index(ylen as int, a, b)] == (Pixel {
                        x: a as i32,
                        y: b as i32,
                    }) by {
                    if a < x {
                        lemma_earlier_column(a, x as int, ylen + 1, b);
                        assert(keys@[cell_index(ylen as int, a, b)] == before[cell_index(
                            ylen as int,
                            a,
                            b,
                        )]);
                    } else if b < y {
                        assert(keys@[cell_index(ylen as int, a, b)] == before[cell_index(
                            ylen as int,
                            a,
                            b,
                        )]);
                    }
                }
                assert forall|i: int| 0 <= i < keys@.len() implies pixmap.in_range(
                    #[trigger] keys@[i].x as int,
                    keys@[i].y as int,
                ) by {
                    if i < before.len() {
                        assert(keys@[i] == before[i]);
                    }
                }
            }
            y = y + 1;
        }
        assert((x + 1) * (ylen + 1) == x * (ylen + 1) + (ylen + 1)) by (nonlinear_arith);
        x = x + 1;
    }
    keys
}

} // verus!
