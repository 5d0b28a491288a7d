//! Row-major grids stored in one flat vector.

use vstd::arithmetic::div_mod::{
    lemma_fundamental_div_mod,
    lemma_fundamental_div_mod_converse,
    lemma_mod_bound,
};
use vstd::prelude::*;

verus! {

/// The `height` rows that a flat row-major sequence holds when it is cut
/// every `width` cells.
pub open spec fn grid_rows<T>(cells: Seq<T>, width: nat, height: nat) -> Seq<Seq<T>> {
    Seq::new(height, |y: int| Seq::new(width, |x: int| cells[linear_index(width as int, x, y)]))
}

/// The number of full rows of `width` cells among `len` cells; none when the
/// width is zero.
pub open spec fn row_count(len: nat, width: nat) -> nat {
    if width == 0 {
        0
    } else {
        len / width
    }
}

/// Position of the cell `(x, y)` in the row-major order of a grid that is
/// `width` cells wide.
pub open spec fn linear_index(width: int, x: int, y: int) -> int {
    y * width + x
}

/// Row-major order on coordinates: `(x1, y1)` is visited before `(x2, y2)`.
pub open spec fn row_major_before(x1: int, y1: int, x2: int, y2: int) -> bool {
    y1 < y2 || (y1 == y2 && x1 < x2)
}

/// Every stored cell is one the predicate may be called on.
pub open spec fn accepts_all<T, F: Fn(&T) -> bool>(predicate: F, rows: Seq<Seq<T>>) -> bool {
    forall|x: int, y: int|
        0 <= y < rows.len() && 0 <= x < rows[y].len() ==> call_requires(
            predicate,
            (&#[trigger] rows[y][x],),
        )
}

/// `found` lists, in row-major order and without omission, the coordinates
/// of the cells of `rows` that the predicate accepts: the predicate returned
/// `true` on each listed cell and `false` on every other cell.
pub open spec fn lists_matches<T, F: Fn(&T) -> bool>(
    predicate: F,
    rows: Seq<Seq<T>>,
    found: Seq<(usize, usize)>,
) -> bool {
    &&& forall|k: int|
        0 <= k < found.len() ==> {
            let (x, y) = #[trigger] found[k];
            &&& y < rows.len()
            &&& x < rows[y as int].len()
            &&& call_ensures(predicate, (&rows[y as int][x as int],), true)
        }
    &&& forall|j: int, k: int|
        0 <= j < k < found.len() ==> row_major_before(
            (#[trigger] found[j]).0 as int,
            found[j].1 as int,
            (#[trigger] found[k]).0 as int,
            found[k].1 as int,
        )
    &&& forall|x: int, y: int|
        0 <= y < rows.len() && 0 <= x < rows[y].len() ==> {
            ||| found.contains((x as usize, y as usize))
            ||| call_ensures(predicate, (&#[trigger] rows[y][x],), false)
        }
}

/// `r` is the first cell of `rows`, in row-major order, on which the
/// predicate returned `true`; it returned `false` on every cell before it,
/// and on all cells when `r` is `None`.
pub open spec fn is_first_match<T, F: Fn(&T) -> bool>(
    predicate: F,
    rows: Seq<Seq<T>>,
    r: Option<(usize, usize)>,
) -> bool {
    match r {
        Some((fx, fy)) => {
            &&& fy < rows.len()
            &&& fx < rows[fy as int].len()
            &&& call_ensures(predicate, (&rows[fy as int][fx as int],), true)
            &&& forall|x: int, y: int|
                0 <= y < rows.len() && 0 <= x < rows[y].len() && row_major_before(
                    x,
                    y,
                    fx as int,
                    fy as int,
                ) ==> call_ensures(predicate, (&#[trigger] rows[y][x],), false)
        },
        None => forall|x: int, y: int|
            0 <= y < rows.len() && 0 <= x < rows[y].len() ==> call_ensures(
                predicate,
                (&#[trigger] rows[y][x],),
                false,
            ),
    }
}

/// Row `y` of `width` cells ends inside a sequence of `len` cells that holds
/// more than `y` full rows.
proof fn lemma_row_fits(len: nat, width: nat, y: nat)
    requires
        width > 0,
        y < len / width,
    ensures
        y * width + width <= len,
{
    lemma_fundamental_div_mod(len as int, width as int);
    lemma_mod_bound(len as int, width as int);
    let h = len / width;
    assert((y + 1) * width <= h * width) by (nonlinear_arith)
        requires
            y + 1 <= h,
            width > 0,
    ;
    assert((y + 1) * width == y * width + width) by (nonlinear_arith);
    assert(width * h == h * width) by (nonlinear_arith);
}

/// A sequence of `h * width` cells holds exactly `h` rows.
proof fn lemma_exact_rows(len: nat, width: nat, h: nat)
    requires
        width > 0,
        len == h * width,
    ensures
        len / width == h,
        len % width == 0,
{
    lemma_fundamental_div_mod_converse(len as int, width as int, h as int, 0);
    assert(width * h == h * width) by (nonlinear_arith);
}

/// In a grid of `height` rows of `width` cells, the cell `(x, y)` lies at
/// `y * width + x` of the flat storage.
proof fn lemma_flat_cell<T>(cells: Seq<T>, width: nat, height: nat, x: int, y: int)
    requires
        cells.len() == height * width,
        0 <= x < width,
        0 <= y < height,
    ensures
        0 <= y * width,
        y * width + width <= cells.len(),
        grid_rows(cells, width, height)[y].len() == width,
        grid_rows(cells, width, height)[y][x] == cells[y * width + x],
{
    assert((y + 1) * width <= height * width) by (nonlinear_arith)
        requires
            y + 1 <= height,
            width > 0,
    ;
    assert((y + 1) * width == y * width + width) by (nonlinear_arith);
    assert(y * width >= 0) by (nonlinear_arith)
        requires
            y >= 0,
            width >= 0,
    ;
}

/// All rows of a grid of `height` rows of `width` cells are `width` long.
proof fn lemma_flat_rows<T>(cells: Seq<T>, width: nat, height: nat)
    requires
        cells.len() == height * width,
    ensures
        grid_rows(cells, width, height).len() == height,
        forall|y: int|
            0 <= y < height ==> (#[trigger] grid_rows(cells, width, height)[y]).len() == width,
{
    assert forall|y: int| 0 <= y < height implies (#[trigger] grid_rows(
        cells,
        width,
        height,
    )[y]).len() == width by {
        if width > 0 {
            lemma_flat_cell(cells, width, height, 0, y);
        }
    }
}

/// Different cells of a row-major grid lie at different positions.
proof fn lemma_distinct_cells(width: int, x1: int, y1: int, x2: int, y2: int)
    requires
        0 <= x1 < width,
        0 <= x2 < width,
        0 <= y1,
        0 <= y2,
    ensures
        linear_index(width, x1, y1) == linear_index(width, x2, y2) ==> x1 == x2 && y1 == y2,
{
    if y1 < y2 {
        assert((y1 + 1) * width <= y2 * width) by (nonlinear_arith)
            requires
                y1 + 1 <= y2,
                width > 0,
        ;
        assert((y1 + 1) * width == y1 * width + width) by (nonlinear_arith);
    } else if y2 < y1 {
        assert((y2 + 1) * width <= y1 * width) by (nonlinear_arith)
            requires
                y2 + 1 <= y1,
                width > 0,
        ;
        assert((y2 + 1) * width == y2 * width + width) by (nonlinear_arith);
    }
}

/// Writing at `y * width + x` of the flat storage changes the cell
/// `(x, y)` of the grid and no other.
proof fn lemma_updated_cell<T>(cells: Seq<T>, width: nat, height: nat, x: int, y: int)
    requires
        cells.len() == height * width,
        0 <= x < width,
        0 <= y < height,
    ensures
        forall|value: T|
            #[trigger] grid_rows(cells.update(linear_index(width as int, x, y), value), width, height)
                == grid_rows(cells, width, height).update(
                y,
                grid_rows(cells, width, height)[y].update(x, value),
            ),
{
    assert forall|value: T|
        #[trigger] grid_rows(cells.update(linear_index(width as int, x, y), value), width, height)
            == grid_rows(cells, width, height).update(
            y,
            grid_rows(cells, width, height)[y].update(x, value),
        ) by {
        let after = cells.update(linear_index(width as int, x, y), value);
        let expected = grid_rows(cells, width, height).update(
            y,
            grid_rows(cells, width, height)[y].update(x, value),
        );
        lemma_flat_cell(cells, width, height, x, y);
        assert forall|y2: int| 0 <= y2 < height implies #[trigger] grid_rows(after, width, height)[y2]
            =~= expected[y2] by {
            assert forall|x2: int| 0 <= x2 < width implies #[trigger] grid_rows(
                after,
                width,
                height,
            )[y2][x2] == expected[y2][x2] by {
                lemma_flat_cell(cells, width, height, x2, y2);
                lemma_distinct_cells(width as int, x2, y2, x, y);
            }
        }
        assert(grid_rows(after, width, height) =~= expected);
    }
}

/// Scans the cells in row-major order and returns the first on which the
/// predicate holds.
fn scan_first<T, F>(cells: &Vec<T>, width: usize, height: usize, predicate: F) -> (r: Option<
    (usize, usize),
>) where F: Fn(&T) -> bool
    requires
        cells@.len() == height * width,
        accepts_all(predicate, grid_rows(cells@, width as nat, height as nat)),
    ensures
        is_first_match(predicate, grid_rows(cells@, width as nat, height as nat), r),
{
    let ghost rows = grid_rows(cells@, width as nat, height as nat);
    proof {
        lemma_flat_rows(cells@, width as nat, height as nat);
    }
    let mut y: usize = 0;
    while y < height
        invariant
            cells@.len() == height * width,
            rows == grid_rows(cells@, width as nat, height as nat),
            rows.len() == height,
            forall|k: int| 0 <= k < height ==> (#[trigger] rows[k]).len() == width,
            accepts_all(predicate, rows),
            y <= height,
            forall|x2: int, y2: int|
                0 <= y2 < y && 0 <= x2 < width ==> call_ensures(
                    predicate,
                    (&#[trigger] rows[y2][x2],),
                    false,
                ),
        decreases height - y,
    {
        let mut x: usize = 0;
        while x < width
            invariant
                cells@.len() == height * width,
                rows == grid_rows(cells@, width as nat, height as nat),
                rows.len() == height,
                forall|k: int| 0 <= k < height ==> (#[trigger] rows[k]).len() == width,
                accepts_all(predicate, rows),
                y < height,
                x <= width,
                forall|x2: int, y2: int|
                    0 <= y2 < height && 0 <= x2 < width && row_major_before(
                        x2,
                        y2,
                        x as int,
                        y as int,
                    ) ==> call_ensures(predicate, (&#[trigger] rows[y2][x2],), false),
            decreases width - x,
        {
            proof {
                lemma_flat_cell(cells@, width as nat, height as nat, x as int, y as int);
                assert(cells@.len() == cells.len());
                assert(rows[y as int].len() == width);
            }
            let value = &cells[y * width + x];
            assert(*value == rows[y as int][x as int]);
            if predicate(value) {
                return Some((x, y));
            }
            proof {
                assert forall|x2: int, y2: int|
                    0 <= y2 < height && 0 <= x2 < width && row_major_before(
                        x2,
                        y2,
                        x + 1,
                        y as int,
                    ) implies call_ensures(predicate, (&#[trigger] rows[y2][x2],), false) by {
                    if !row_major_before(x2, y2, x as int, y as int) {
                        assert(x2 == x && y2 == y);
                    }
                }
            }
            x += 1;
        }
        proof {
            assert forall|x2: int, y2: int| 0 <= y2 < y + 1 && 0 <= x2 < width implies call_ensures(
                predicate,
                (&#[trigger] rows[y2][x2],),
                false,
            ) by {
                assert(row_major_before(x2, y2, x as int, y as int));
            }
        }
        y += 1;
    }
    None
}

/// Scans the cells in row-major order and collects every one on which the
/// predicate holds.
fn scan_all<T, F>(cells: &Vec<T>, width: usize, height: usize, predicate: F) -> (found: Vec<
    (usize, usize),
>) where F: Fn(&T) -> bool
    requires
        cells@.len() == height * width,
        accepts_all(predicate, grid_rows(cells@, width as nat, height as nat)),
    ensures
        lists_matches(predicate, grid_rows(cells@, width as nat, height as nat), found@),
{
    let ghost rows = grid_rows(cells@, width as nat, height as nat);
    proof {
        lemma_flat_rows(cells@, width as nat, height as nat);
    }
    let mut found: Vec<(usize, usize)> = Vec::new();
    let mut y: usize = 0;
    while y < height
        invariant
            cells@.len() == height * width,
            rows == grid_rows(cells@, width as nat, height as nat),
            rows.len() == height,
            forall|k: int| 0 <= k < height ==> (#[trigger] rows[k]).len() == width,
            accepts_all(predicate, rows),
            y <= height,
            scanned_until(predicate, rows, found@, 0, y as int),
        decreases height - y,
    {
        let mut x: usize = 0;
        while x < width
            invariant
                cells@.len() == height * width,
                rows == grid_rows(cells@, width as nat, height as nat),
                rows.len() == height,
                forall|k: int| 0 <= k < height ==> (#[trigger] rows[k]).len() == width,
                accepts_all(predicate, rows),
                y < height,
                x <= width,
                scanned_until(predicate, rows, found@, x as int, y as int),
            decreases width - x,
        {
            proof {
                lemma_flat_cell(cells@, width as nat, height as nat, x as int, y as int);
                assert(cells@.len() == cells.len());
                assert(rows[y as int].len() == width);
            }
            let value = &cells[y * width + x];
            assert(*value == rows[y as int][x as int]);
            let ghost before = found@;
            let hit = predicate(value);
            if hit {
                found.push((x, y));
            }
            proof {
                lemma_scan_step(predicate, rows, before, found@, x, y, hit);
            }
            x += 1;
        }
        proof {
            lemma_scan_next_row(predicate, rows, found@, x as int, y as int);
        }
        y += 1;
    }
    proof {
        lemma_scan_done(predicate, rows, found@);
    }
    found
}

/// What `scan_all` has established when it stands before the cell `(x, y)`:
/// `found` lists exactly the accepted cells before that position.
spec fn scanned_until<T, F: Fn(&T) -> bool>(
    predicate: F,
    rows: Seq<Seq<T>>,
    found: Seq<(usize, usize)>,
    x: int,
    y: int,
) -> bool {
    &&& forall|k: int|
        0 <= k < found.len() ==> {
            let (fx, fy) = #[trigger] found[k];
            &&& fy < rows.len()
            &&& fx < rows[fy as int].len()
            &&& row_major_before(fx as int, fy as int, x, y)
            &&& call_ensures(predicate, (&rows[fy as int][fx as int],), true)
        }
    &&& forall|j: int, k: int|
        0 <= j < k < found.len() ==> row_major_before(
            (#[trigger] found[j]).0 as int,
            found[j].1 as int,
            (#[trigger] found[k]).0 as int,
            found[k].1 as int,
        )
    &&& forall|x2: int, y2: int|
        0 <= y2 < rows.len() && 0 <= x2 < rows[y2].len() && row_major_before(x2, y2, x, y) ==> {
            ||| found.contains((x2 as usize, y2 as usize))
            ||| call_ensures(predicate, (&#[trigger] rows[y2][x2],), false)
        }
}

/// Visiting the cell `(x, y)` extends what has been scanned by one cell.
proof fn lemma_scan_step<T, F: Fn(&T) -> bool>(
    predicate: F,
    rows: Seq<Seq<T>>,
    before: Seq<(usize, usize)>,
    after: Seq<(usize, usize)>,
    x: usize,
    y: usize,
    hit: bool,
)
    requires
        scanned_until(predicate, rows, before, x as int, y as int),
        y < rows.len(),
        x < rows[y as int].len(),
        call_ensures(predicate, (&rows[y as int][x as int],), hit),
        after == if hit {
            before.push((x, y))
        } else {
            before
        },
    ensures
        scanned_until(predicate, rows, after, x + 1, y as int),
{
    assert forall|k: int| 0 <= k < after.len() implies {
        let (fx, fy) = #[trigger] after[k];
        &&& fy < rows.len()
        &&& fx < rows[fy as int].len()
        &&& row_major_before(fx as int, fy as int, x + 1, y as int)
        &&& call_ensures(predicate, (&rows[fy as int][fx as int],), true)
    } by {
        if k < before.len() {
            assert(after[k] == before[k]);
            assert(row_major_before(before[k].0 as int, before[k].1 as int, x as int, y as int));
        }
    }
    assert forall|j: int, k: int| 0 <= j < k < after.len() implies row_major_before(
        (#[trigger] after[j]).0 as int,
        after[j].1 as int,
        (#[trigger] after[k]).0 as int,
        after[k].1 as int,
    ) by {
        assert(after[j] == before[j]);
        if k < before.len() {
            assert(after[k] == before[k]);
        } else {
            assert(row_major_before(before[j].0 as int, before[j].1 as int, x as int, y as int));
        }
    }
    assert forall|x2: int, y2: int|
        0 <= y2 < rows.len() && 0 <= x2 < rows[y2].len() && row_major_before(
            x2,
            y2,
            x + 1,
            y as int,
        ) implies after.contains((x2 as usize, y2 as usize)) || call_ensures(
        predicate,
        (&#[trigger] rows[y2][x2],),
        false,
    ) by {
        if row_major_before(x2, y2, x as int, y as int) {
            if before.contains((x2 as usize, y2 as usize)) {
                let k = choose|k: int|
                    0 <= k < before.len() && before[k] == (x2 as usize, y2 as usize);
                assert(after[k] == (x2 as usize, y2 as usize));
            }
        } else {
            assert(x2 == x && y2 == y);
            if hit {
                assert(after[before.len() as int] == (x, y));
            }
        }
    }
}

/// A row scanned to its end is the next row not yet begun.
proof fn lemma_scan_next_row<T, F: Fn(&T) -> bool>(
    predicate: F,
    rows: Seq<Seq<T>>,
    found: Seq<(usize, usize)>,
    width: int,
    y: int,
)
    requires
        scanned_until(predicate, rows, found, width, y),
        forall|k: int| 0 <= k < rows.len() ==> (#[trigger] rows[k]).len() == width,
    ensures
        scanned_until(predicate, rows, found, 0, y + 1),
{
    assert forall|k: int| 0 <= k < found.len() implies {
        let (fx, fy) = #[trigger] found[k];
        &&& fy < rows.len()
        &&& fx < rows[fy as int].len()
        &&& row_major_before(fx as int, fy as int, 0, y + 1)
        &&& call_ensures(predicate, (&rows[fy as int][fx as int],), true)
    } by {
        assert(row_major_before(found[k].0 as int, found[k].1 as int, width, y));
    }
    assert forall|x2: int, y2: int|
        0 <= y2 < rows.len() && 0 <= x2 < rows[y2].len() && row_major_before(
            x2,
            y2,
            0,
            y + 1,
        ) implies found.contains((x2 as usize, y2 as usize)) || call_ensures(
        predicate,
        (&#[trigger] rows[y2][x2],),
        false,
    ) by {
        assert(row_major_before(x2, y2, width, y));
    }
}

/// Once every row is scanned, `found` lists the matches of the whole grid.
proof fn lemma_scan_done<T, F: Fn(&T) -> bool>(
    predicate: F,
    rows: Seq<Seq<T>>,
    found: Seq<(usize, usize)>,
)
    requires
        scanned_until(predicate, rows, found, 0, rows.len() as int),
    ensures
        lists_matches(predicate, rows, found),
{
    assert forall|x: int, y: int| 0 <= y < rows.len() && 0 <= x < rows[y].len() implies {
        ||| found.contains((x as usize, y as usize))
        ||| call_ensures(predicate, (&#[trigger] rows[y][x],), false)
    } by {
        assert(row_major_before(x, y, 0, rows.len() as int));
    }
}

/// All coordinates of a `width` by `height` grid in row-major order.
fn scan_coordinates(width: usize, height: usize) -> (all: Vec<(usize, usize)>)
    requires
        height * width <= usize::MAX,
    ensures
        all@.len() == height * width,
        forall|x: int, y: int|
            0 <= x < width && 0 <= y < height ==> 0 <= #[trigger] linear_index(width as int, x, y)
                < all@.len() && all@[linear_index(width as int, x, y)] == (x as usize, y as usize),
{
    let mut all: Vec<(usize, usize)> = Vec::new();
    let mut y: usize = 0;
    while y < height
        invariant
            height * width <= usize::MAX,
            y <= height,
            all@.len() == y * width,
            forall|x2: int, y2: int|
                0 <= x2 < width && 0 <= y2 < y ==> 0 <= #[trigger] linear_index(
                    width as int,
                    x2,
                    y2,
                ) < all@.len() && all@[linear_index(width as int, x2, y2)] == (
                    x2 as usize,
                    y2 as usize,
                ),
        decreases height - y,
    {
        let mut x: usize = 0;
        while x < width
            invariant
                height * width <= usize::MAX,
                y < height,
                x <= width,
                all@.len() == y * width + x,
                forall|x2: int, y2: int|
                    0 <= x2 < width && 0 <= y2 < height && row_major_before(
                        x2,
                        y2,
                        x as int,
                        y as int,
                    ) ==> 0 <= #[trigger] linear_index(width as int, x2, y2) < all@.len() && all@[linear_index(
                        width as int,
                        x2,
                        y2,
                    )] == (x2 as usize, y2 as usize),
            decreases width - x,
        {
            let ghost before = all@;
            all.push((x, y));
            proof {
                assert forall|x2: int, y2: int|
                    0 <= x2 < width && 0 <= y2 < height && row_major_before(
                        x2,
                        y2,
                        x + 1,
                        y as int,
                    ) implies 0 <= #[trigger] linear_index(width as int, x2, y2) < all@.len()
                    && all@[linear_index(width as int, x2, y2)] == (x2 as usize, y2 as usize) by {
                    if y2 == y && x2 == x {
                    } else {
                        assert(row_major_before(x2, y2, x as int, y as int));
                        assert(all@[linear_index(width as int, x2, y2)] == before[linear_index(
                            width as int,
                            x2,
                            y2,
                        )]);
                    }
                }
            }
            x += 1;
        }
        proof {
            assert((y + 1) * width == y * width + width) by (nonlinear_arith);
        }
        y += 1;
    }
    all
}

/// A grid that grows row by row. Every row has the width fixed at construction.
#[derive(Debug)]
pub struct RowGrid<T> {
    width: usize,
    cells: Vec<T>,
}

impl<T> View for RowGrid<T> {
    type V = Seq<Seq<T>>;

    /// The rows of the grid, top to bottom.
    closed spec fn view(&self) -> Seq<Seq<T>> {
        grid_rows(self.cells@, self.width as nat, row_count(self.cells@.len(), self.width as nat))
    }
}

impl<T> RowGrid<T> {
    /// The width every row of this grid has.
    pub closed spec fn spec_width(&self) -> nat {
        self.width as nat
    }

    /// The cell in column `x` of row `y`.
    pub open spec fn spec_cell(&self, x: int, y: int) -> T
        recommends
            0 <= y < self@.len(),
            0 <= x < self.spec_width(),
    {
        self@[y][x]
    }

    /// The stored cells make up whole rows.
    #[verifier::type_invariant]
    spec fn inv(&self) -> bool {
        if self.width == 0 {
            self.cells@.len() == 0
        } else {
            self.cells@.len() % (self.width as nat) == 0
        }
    }

    /// Every row of the view is `spec_width()` cells wide.
    pub proof fn lemma_rows_have_width(&self)
        ensures
            forall|y: int| 0 <= y < self@.len() ==> (#[trigger] self@[y]).len() == self.spec_width(),
    {
        assert forall|y: int| 0 <= y < self@.len() implies (#[trigger] self@[y]).len()
            == self.spec_width() by {
            lemma_row_fits(self.cells@.len(), self.width as nat, y as nat);
        }
    }

    /// The stored cells are exactly the rows of the view.
    proof fn lemma_whole_rows(&self)
        requires
            self.inv(),
        ensures
            self.cells@.len() == self@.len() * self.width,
    {
        let len = self.cells@.len() as int;
        let w = self.width as int;
        if w > 0 {
            lemma_fundamental_div_mod(len, w);
            assert(self@.len() == len / w);
            assert(w * (len / w) == (len / w) * w) by (nonlinear_arith);
        } else {
            assert(self@.len() == 0);
        }
    }
}

impl<T> RowGrid<T> where T: Clone {
    /// An empty grid whose rows will be `width` cells wide.
    pub fn with_width(width: usize) -> (grid: Self)
        ensures
            grid.spec_width() == width,
            grid@ == Seq::<Seq<T>>::empty(),
    {
        let cells: Vec<T> = Vec::new();
        proof {
            if width > 0 {
                lemma_exact_rows(0, width as nat, 0);
            }
        }
        let grid = Self { width, cells };
        assert(grid@ =~= Seq::<Seq<T>>::empty());
        grid
    }

    /// The width every row has.
    pub fn width(&self) -> (w: usize)
        ensures
            w == self.spec_width(),
    {
        self.width
    }

    /// The number of rows pushed so far. A grid of width zero has no rows.
    pub fn height(&self) -> (h: usize)
        ensures
            h == self@.len(),
    {
        if self.width == 0 {
            0
        } else {
            self.cells.len() / self.width
        }
    }

    /// The cell in column `x` of row `y`, or `None` outside the grid.
    pub fn cell(&self, x: usize, y: usize) -> (r: Option<&T>)
        ensures
            match r {
                Some(v) => x < self.spec_width() && y < self@.len() && *v == self.spec_cell(
                    x as int,
                    y as int,
                ),
                None => x >= self.spec_width() || y >= self@.len(),
            },
    {
        if x < self.width && y < self.height() {
            proof {
                use_type_invariant(self);
                self.lemma_whole_rows();
                lemma_flat_cell(
                    self.cells@,
                    self.width as nat,
                    self@.len(),
                    x as int,
                    y as int,
                );
                assert(self.cells@.len() == self.cells.len());
            }
            Some(&self.cells[y * self.width + x])
        } else {
            None
        }
    }

    /// The cell in column `x` of row `y`, for writing, or `None` outside the
    /// grid.
    pub fn cell_mut(&mut self, x: usize, y: usize) -> (r: Option<&mut T>)
        ensures
            final(self).spec_width() == old(self).spec_width(),
            match r {
                Some(v) => {
                    &&& x < old(self).spec_width()
                    &&& y < old(self)@.len()
                    &&& *v == old(self).spec_cell(x as int, y as int)
                    &&& final(self)@ == old(self)@.update(
                        y as int,
                        old(self)@[y as int].update(x as int, *final(v)),
                    )
                },
                None => (x >= old(self).spec_width() || y >= old(self)@.len()) && final(self)@
                    == old(self)@,
            },
    {
        if x < self.width && y < self.height() {
            proof {
                use_type_invariant(&*self);
                self.lemma_whole_rows();
                lemma_flat_cell(
                    self.cells@,
                    self.width as nat,
                    self@.len(),
                    x as int,
                    y as int,
                );
                assert(self.cells@.len() == self.cells.len());
                lemma_updated_cell(self.cells@, self.width as nat, self@.len(), x as int, y as int);
            }
            Some(&mut self.cells[y * self.width + x])
        } else {
            None
        }
    }

    /// Row `y` as a slice, or `None` when the grid has no such row.
    pub fn row(&self, y: usize) -> (r: Option<&[T]>)
        ensures
            match r {
                Some(s) => y < self@.len() && s@ == self@[y as int],
                None => y >= self@.len(),
            },
    {
        if y < self.height() {
            proof {
                lemma_row_fits(self.cells@.len(), self.width as nat, y as nat);
                assert(self.cells@.len() == self.cells.len());
            }
            let start = y * self.width;
            let end = start + self.width;
            assert(self.cells@.subrange(start as int, end as int) =~= self@[y as int]);
            Some(&self.cells[start..end])
        } else {
            None
        }
    }

    /// Column `x` from top to bottom, or `None` when `x` is not less than the width.
    pub fn column(&self, x: usize) -> (r: Option<Vec<&T>>)
        ensures
            match r {
                Some(col) => {
                    &&& x < self.spec_width()
                    &&& col@.len() == self@.len()
                    &&& forall|y: int|
                        0 <= y < self@.len() ==> *(#[trigger] col@[y]) == self.spec_cell(
                            x as int,
                            y,
                        )
                },
                None => x >= self.spec_width(),
            },
    {
        if x < self.width {
            let height = self.height();
            let mut col: Vec<&T> = Vec::new();
            let mut y: usize = 0;
            proof {
                use_type_invariant(self);
                self.lemma_whole_rows();
            }
            while y < height
                invariant
                    x < self.width,
                    height == self@.len(),
                    self.cells@.len() == self@.len() * self.width,
                    y <= height,
                    col@.len() == y,
                    forall|k: int| 0 <= k < y ==> *(#[trigger] col@[k]) == self.spec_cell(x as int, k),
                decreases height - y,
            {
                proof {
                    lemma_flat_cell(
                        self.cells@,
                        self.width as nat,
                        self@.len(),
                        x as int,
                        y as int,
                    );
                    assert(self.cells@.len() == self.cells.len());
                }
                col.push(&self.cells[y * self.width + x]);
                y += 1;
            }
            Some(col)
        } else {
            None
        }
    }

    /// The first cell, in row-major order, on which `predicate` holds.
    pub fn find<F>(&self, predicate: F) -> (r: Option<(usize, usize)>) where F: Fn(&T) -> bool
        requires
            accepts_all(predicate, self@),
        ensures
            is_first_match(predicate, self@, r),
    {
        let height = self.height();
        proof {
            use_type_invariant(self);
            self.lemma_whole_rows();
        }
        scan_first(&self.cells, self.width, height, predicate)
    }

    /// Every cell on which `predicate` holds, in row-major order.
    pub fn find_all<F>(&self, predicate: F) -> (found: Vec<(usize, usize)>) where
        F: Fn(&T) -> bool,

        requires
            accepts_all(predicate, self@),
        ensures
            lists_matches(predicate, self@, found@),
    {
        let height = self.height();
        proof {
            use_type_invariant(self);
            self.lemma_whole_rows();
        }
        scan_all(&self.cells, self.width, height, predicate)
    }

    /// The coordinates `(x, y)` of every cell, in row-major order.
    pub fn enumerate(&self) -> (all: Vec<(usize, usize)>)
        ensures
            all@.len() == self@.len() * self.spec_width(),
            forall|x: int, y: int|
                0 <= x < self.spec_width() && 0 <= y < self@.len() ==> 0 <= #[trigger] linear_index(
                    self.spec_width() as int,
                    x,
                    y,
                ) < all@.len() && all@[linear_index(self.spec_width() as int, x, y)] == (
                    x as usize,
                    y as usize,
                ),
    {
        let height = self.height();
        proof {
            use_type_invariant(self);
            self.lemma_whole_rows();
            assert(self.cells@.len() == self.cells.len());
        }
        scan_coordinates(self.width, height)
    }

    /// Appends `row` below the rows already there. A grid of width zero stays empty.
    pub fn push_row(&mut self, row: Vec<T>)
        requires
            row@.len() == old(self).spec_width(),
        ensures
            final(self).spec_width() == old(self).spec_width(),
            final(self)@ == if old(self).spec_width() > 0 {
                old(self)@.push(row@)
            } else {
                old(self)@
            },
    {
        proof {
            use_type_invariant(&*self);
        }
        let mut row = row;
        let ghost old_cells = self.cells@;
        let ghost added = row@;
        let ghost w = self.width as nat;
        proof {
            if w > 0 {
                lemma_fundamental_div_mod(old_cells.len() as int, w as int);
                let h = old_cells.len() / w;
                assert(w * h == h * w) by (nonlinear_arith);
                assert((h + 1) * w == h * w + w) by (nonlinear_arith);
                lemma_exact_rows(old_cells.len() + w, w, h + 1);
                let new_cells = old_cells + added;
                assert forall|y: int| 0 <= y < h + 1 implies #[trigger] grid_rows(
                    new_cells,
                    w,
                    h + 1,
                )[y] =~= grid_rows(old_cells, w, h).push(added)[y] by {
                    lemma_row_fits(new_cells.len(), w, y as nat);
                    if y < h {
                        lemma_row_fits(old_cells.len(), w, y as nat);
                    } else {
                        assert(y * w == old_cells.len()) by (nonlinear_arith)
                            requires
                                y == h,
                                old_cells.len() == h * w,
                        ;
                    }
                }
                assert(grid_rows(new_cells, w, h + 1) =~= grid_rows(old_cells, w, h).push(added));
            } else {
                assert(old_cells + added =~= old_cells);
            }
        }
        let mut cells: Vec<T> = Vec::new();
        proof {
            if w > 0 {
                lemma_exact_rows(0, w, 0);
            }
        }
        core::mem::swap(&mut cells, &mut self.cells);
        cells.append(&mut row);
        self.cells = cells;
    }
}

/// A grid of fixed width and height whose cells can be overwritten in place.
#[derive(Debug)]
pub struct UniformGrid<T> {
    width: usize,
    height: usize,
    cells: Vec<T>,
}

impl<T> View for UniformGrid<T> {
    type V = Seq<Seq<T>>;

    /// The rows of the grid, top to bottom.
    closed spec fn view(&self) -> Seq<Seq<T>> {
        grid_rows(self.cells@, self.width as nat, self.height as nat)
    }
}

impl<T> UniformGrid<T> {
    /// The width of the grid.
    pub closed spec fn spec_width(&self) -> nat {
        self.width as nat
    }

    /// The height of the grid.
    pub closed spec fn spec_height(&self) -> nat {
        self.height as nat
    }

    /// The cell in column `x` of row `y`.
    pub open spec fn spec_cell(&self, x: int, y: int) -> T
        recommends
            0 <= y < self.spec_height(),
            0 <= x < self.spec_width(),
    {
        self@[y][x]
    }

    /// One cell is stored for every position.
    #[verifier::type_invariant]
    spec fn inv(&self) -> bool {
        self.cells@.len() == self.height * self.width
    }

    /// The view has `spec_height()` rows of `spec_width()` cells.
    pub proof fn lemma_shape(&self)
        ensures
            self@.len() == self.spec_height(),
            forall|y: int| 0 <= y < self@.len() ==> (#[trigger] self@[y]).len() == self.spec_width(),
    {
    }
}

impl<T: Clone> Clone for UniformGrid<T> {
    /// A grid of the same shape whose cells are clones of the cells of this one.
    fn clone(&self) -> (copy: Self)
        ensures
            copy.spec_width() == self.spec_width(),
            copy.spec_height() == self.spec_height(),
            forall|x: int, y: int|
                0 <= x < self.spec_width() && 0 <= y < self.spec_height() ==> cloned(
                    self.spec_cell(x, y),
                    #[trigger] copy.spec_cell(x, y),
                ),
    {
        proof {
            use_type_invariant(self);
        }
        let cells = self.cells.clone();
        proof {
            assert forall|x: int, y: int|
                0 <= x < self.width && 0 <= y < self.height implies cloned(
                grid_rows(self.cells@, self.width as nat, self.height as nat)[y][x],
                #[trigger] grid_rows(cells@, self.width as nat, self.height as nat)[y][x],
            ) by {
                lemma_flat_cell(self.cells@, self.width as nat, self.height as nat, x, y);
            }
        }
        Self { width: self.width, height: self.height, cells }
    }
}

impl<T> UniformGrid<T> where T: Clone + Default {
    /// A grid of `width` by `height` cells, each holding a default value of `T`.
    pub fn new(width: usize, height: usize) -> (grid: Self)
        requires
            width * height <= usize::MAX,
        ensures
            grid.spec_width() == width,
            grid.spec_height() == height,
            forall|x: int, y: int|
                0 <= x < width && 0 <= y < height ==> call_ensures(
                    T::default,
                    (),
                    #[trigger] grid.spec_cell(x, y),
                ),
    {
        let count = width * height;
        let mut cells: Vec<T> = Vec::new();
        let mut filled: usize = 0;
        while filled < count
            invariant
                filled <= count,
                cells@.len() == filled,
                forall|k: int| 0 <= k < filled ==> call_ensures(T::default, (), #[trigger] cells@[k]),
            decreases count - filled,
        {
            cells.push(T::default());
            filled += 1;
        }
        proof {
            assert(height * width == width * height) by (nonlinear_arith);
            assert forall|x: int, y: int| 0 <= x < width && 0 <= y < height implies call_ensures(
                T::default,
                (),
                #[trigger] grid_rows(cells@, width as nat, height as nat)[y][x],
            ) by {
                lemma_flat_cell(cells@, width as nat, height as nat, x, y);
            }
        }
        Self { width, height, cells }
    }

    /// The width of the grid.
    pub fn width(&self) -> (w: usize)
        ensures
            w == self.spec_width(),
    {
        self.width
    }

    /// The height of the grid.
    pub fn height(&self) -> (h: usize)
        ensures
            h == self.spec_height(),
    {
        self.height
    }

    /// The cell in column `x` of row `y`, or `None` outside the grid.
    pub fn cell(&self, x: usize, y: usize) -> (r: Option<&T>)
        ensures
            match r {
                Some(v) => x < self.spec_width() && y < self.spec_height() && *v == self.spec_cell(
                    x as int,
                    y as int,
                ),
                None => x >= self.spec_width() || y >= self.spec_height(),
            },
    {
        if x < self.width && y < self.height {
            proof {
                use_type_invariant(self);
                lemma_flat_cell(
                    self.cells@,
                    self.width as nat,
                    self.height as nat,
                    x as int,
                    y as int,
                );
                assert(self.cells@.len() == self.cells.len());
            }
            Some(&self.cells[y * self.width + x])
        } else {
            None
        }
    }

    /// Overwrites the cell in column `x` of row `y`.
    pub fn set_cell(&mut self, x: usize, y: usize, value: T)
        requires
            x < old(self).spec_width(),
            y < old(self).spec_height(),
        ensures
            final(self).spec_width() == old(self).spec_width(),
            final(self).spec_height() == old(self).spec_height(),
            final(self)@ == old(self)@.update(y as int, old(self)@[y as int].update(x as int, value)),
    {
        proof {
            use_type_invariant(&*self);
            lemma_flat_cell(
                self.cells@,
                self.width as nat,
                self.height as nat,
                x as int,
                y as int,
            );
            assert(self.cells@.len() == self.cells.len());
        }
        proof {
            lemma_updated_cell(
                self.cells@,
                self.width as nat,
                self.height as nat,
                x as int,
                y as int,
            );
        }
        let index = y * self.width + x;
        self.cells[index] = value;
    }

    /// Every cell on which `predicate` holds, in row-major order.
    pub fn find_all<F>(&self, predicate: F) -> (found: Vec<(usize, usize)>) where
        F: Fn(&T) -> bool,

        requires
            accepts_all(predicate, self@),
        ensures
            lists_matches(predicate, self@, found@),
    {
        proof {
            use_type_invariant(self);
        }
        scan_all(&self.cells, self.width, self.height, predicate)
    }
}

} // verus!
