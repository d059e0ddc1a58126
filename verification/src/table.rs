pub mod cache;

use vstd::prelude::*;

use crate::grid::GridShape;

verus! {

/// A band of rows, inclusive at both ends.
///
/// Any pair of rows is a band, so the constructor orders them rather than refusing one order.
#[derive(Debug, Clone, Copy, PartialEq, Eq, Structural)]
pub struct RowBand {
    north: u32,
    south: u32,
}

impl RowBand {
    /// The type's invariant: the northern row is never south of the southern one.
    #[verifier::type_invariant]
    pub closed spec fn inv(self) -> bool {
        self.north <= self.south
    }

    /// Every exec band satisfies [`Self::inv`].
    pub fn check_inv(&self)
        ensures
            self.inv(),
    {
        proof {
            use_type_invariant(self);
        }
    }

    /// What [`Self::inv`] says of the two rows.
    pub proof fn lemma_ordered(self)
        requires
            self.inv(),
        ensures
            self.spec_north() <= self.spec_south(),
    {
    }

    pub closed spec fn spec_north(&self) -> u32 {
        self.north
    }

    pub closed spec fn spec_south(&self) -> u32 {
        self.south
    }

    pub fn new(a: u32, b: u32) -> (band: Self)
        ensures
            band.spec_north() == (if a <= b { a } else { b }),
            band.spec_south() == (if a <= b { b } else { a }),
            band.inv(),
    {
        if a <= b {
            RowBand { north: a, south: b }
        } else {
            RowBand { north: b, south: a }
        }
    }

    #[verifier::when_used_as_spec(spec_north)]
    pub fn north(&self) -> (north: u32)
        ensures
            north == self.spec_north(),
            north <= self.spec_south(),
    {
        proof {
            use_type_invariant(self);
        }
        self.north
    }

    #[verifier::when_used_as_spec(spec_south)]
    pub fn south(&self) -> (south: u32)
        ensures
            south == self.spec_south(),
            self.spec_north() <= south,
    {
        proof {
            use_type_invariant(self);
        }
        self.south
    }
}

/// The columns a query covers.
///
/// The full turn is a variant, not a `west == east` pair: on a grid whose columns close on themselves, a
/// span given as two indices cannot say whether it means one column or all of them.
#[derive(Debug, Clone, Copy, PartialEq, Eq, Structural)]
pub enum ColSpan {
    /// `west` through `east` inclusive, running east past the last column and on from the first when
    /// `west > east`.
    Through { west: u32, east: u32 },
    /// Every column of the grid, exactly once.
    FullTurn,
}

/// Whether column `j` of a `width`-column grid is one `cols` covers.
pub open spec fn in_span(cols: ColSpan, j: int, width: int) -> bool {
    &&& 0 <= j < width
    &&& match cols {
        ColSpan::FullTurn => true,
        ColSpan::Through { west, east } => if west <= east {
            west <= j <= east
        } else {
            j >= west || j <= east
        },
    }
}

/// A table payload was not the padded product of the grid it was handed with.
#[derive(Debug, Clone, Copy, PartialEq, Eq, Structural)]
pub enum TableError {
    /// A decimation factor that is zero or does not divide both of the grid's dimensions.
    Decimation { factor: u32, width: u32, height: u32 },
    PayloadLength { expected: usize, found: usize },
}

/// The shape of the table a grid of `shape` folds into at `factor`: every `factor` by `factor` block of
/// cells is one table cell.
///
/// # Errors
/// [`TableError::Decimation`] when the factor is zero or does not divide both dimensions. The factor is
/// the caller's, so this is an input it can correct.
pub fn decimated(shape: &GridShape, factor: u32) -> (folded: Result<GridShape, TableError>)
    ensures
        folded is Ok <==> (factor > 0 && shape.spec_width() % factor == 0 && shape.spec_height() % factor
            == 0),
        folded matches Ok(table) ==> table.spec_width() == shape.spec_width() / factor
            && table.spec_height() == shape.spec_height() / factor && table.inv(),
        folded matches Err(e) ==> e == (TableError::Decimation {
            factor,
            width: shape.spec_width(),
            height: shape.spec_height(),
        }),
{
    let width = shape.width();
    let height = shape.height();
    if factor == 0 || width % factor != 0 || height % factor != 0 {
        return Err(TableError::Decimation { factor, width, height });
    }
    proof {
        if width < factor {
            vstd::arithmetic::div_mod::lemma_small_mod(width as nat, factor as nat);
        }
        if height < factor {
            vstd::arithmetic::div_mod::lemma_small_mod(height as nat, factor as nat);
        }
        vstd::arithmetic::div_mod::lemma_div_non_zero(width as int, factor as int);
        vstd::arithmetic::div_mod::lemma_div_non_zero(height as int, factor as int);
    }
    match GridShape::new(width / factor, height / factor) {
        Ok(table) => Ok(table),
        Err(_) => Err(TableError::Decimation { factor, width, height }),
    }
}

/// The number of elements a padded table over `shape` holds, `(width + 1) × (height + 1)`, saturating at
/// what this host can address.
pub open spec fn spec_padded_len(shape: GridShape) -> int {
    let cells = (shape.spec_width() + 1) * (shape.spec_height() + 1);
    if cells <= usize::MAX {
        cells
    } else {
        usize::MAX as int
    }
}

/// Saturating rather than wrapping, so a grid too large for this host's addresses is reported as a
/// payload of the wrong length instead of as a smaller shape some payload happens to fit.
pub fn padded_len(shape: &GridShape) -> (n: usize)
    ensures
        n == spec_padded_len(*shape),
{
    let width = shape.width() as u64 + 1;
    let height = shape.height() as u64 + 1;
    assert(width * height <= 0x1_0000_0000 * 0x1_0000_0000) by (nonlinear_arith)
        requires
            width <= 0x1_0000_0000,
            height <= 0x1_0000_0000,
            width >= 1,
            height >= 1,
    ;
    let cells = width as u128 * height as u128;
    if cells <= usize::MAX as u128 {
        cells as usize
    } else {
        usize::MAX
    }
}

/// One rectangle of a query, as the four corners of a padded table it reads: rows `north..south` and
/// columns `first..last`, half-open, both already padded indices.
#[derive(Debug, Clone, Copy, PartialEq, Eq, Structural)]
pub struct Rectangle {
    pub north: u32,
    pub south: u32,
    pub first: u32,
    pub last: u32,
}

/// The rectangles a query over `rows` and `cols` reads on a `width`-column grid: one, or two for a span
/// that wraps the seam — never two for the full turn.
pub open spec fn spec_rectangles(rows: RowBand, cols: ColSpan, width: u32) -> Seq<Rectangle> {
    let north = rows.spec_north();
    let south = (rows.spec_south() + 1) as u32;
    match cols {
        ColSpan::FullTurn => seq![Rectangle { north, south, first: 0, last: width }],
        ColSpan::Through { west, east } => if west <= east {
            seq![Rectangle { north, south, first: west, last: (east + 1) as u32 }]
        } else {
            seq![
                Rectangle { north, south, first: west, last: width },
                Rectangle { north, south, first: 0, last: (east + 1) as u32 },
            ]
        },
    }
}

/// A summed-area table over a grid, borrowing its payload.
///
/// The payload is padded to `(height + 1) × (width + 1)` with a zero first row and column, so element
/// `(r, c)` holds the population of every cell strictly north of grid row `r` and strictly west of grid
/// column `c`. The element type is the caller's: this holds the indexing, and the arithmetic on what it
/// indexes is whoever reads the corners.
pub struct Table<'a, T> {
    shape: GridShape,
    cells: &'a [T],
}

impl<'a, T> Table<'a, T> {
    /// The type's invariant: the payload is exactly the padded product of the grid's dimensions.
    #[verifier::type_invariant]
    pub closed spec fn inv(self) -> bool {
        &&& self.shape.inv()
        &&& self.cells@.len() == (self.shape.spec_width() + 1) * (self.shape.spec_height() + 1)
    }

    pub closed spec fn spec_shape(&self) -> GridShape {
        self.shape
    }

    pub closed spec fn spec_cells(&self) -> Seq<T> {
        self.cells@
    }

    /// # Errors
    /// [`TableError::PayloadLength`] when `cells` is not the padded product of the grid's dimensions.
    /// That is the whole of what a slice can be wrong about here, and checking it once is what lets every
    /// corner below index without a bound of its own.
    pub fn new(shape: GridShape, cells: &'a [T]) -> (table: Result<Self, TableError>)
        ensures
            match table {
                Ok(table) => {
                    &&& cells@.len() == (shape.spec_width() + 1) * (shape.spec_height() + 1)
                    &&& table.spec_shape() == shape
                    &&& table.spec_cells() == cells@
                },
                Err(e) => {
                    &&& cells@.len() != (shape.spec_width() + 1) * (shape.spec_height() + 1)
                    &&& e == TableError::PayloadLength {
                        expected: spec_padded_len(shape) as usize,
                        found: cells@.len() as usize,
                    }
                },
            },
    {
        proof {
            use_type_invariant(&shape);
        }
        let expected = padded_len(&shape);
        let width = shape.width() as u128 + 1;
        let height = shape.height() as u128 + 1;
        assert(width * height <= 0x1_0000_0000 * 0x1_0000_0000) by (nonlinear_arith)
            requires
                1 <= width <= 0x1_0000_0000,
                1 <= height <= 0x1_0000_0000,
        ;
        let product = width * height;
        if cells.len() as u128 != product {
            return Err(TableError::PayloadLength { expected, found: cells.len() });
        }
        Ok(Table { shape, cells })
    }

    /// The grid the table is over.
    pub fn grid(&self) -> (shape: &GridShape)
        ensures
            *shape == self.spec_shape(),
    {
        &self.shape
    }

    /// Element `(row, col)` of the padded payload.
    pub fn corner(&self, row: u32, col: u32) -> (value: &T)
        requires
            row <= self.spec_shape().spec_height(),
            col <= self.spec_shape().spec_width(),
        ensures
            *value == self.spec_cells()[row * (self.spec_shape().spec_width() + 1) + col],
    {
        proof {
            use_type_invariant(self);
        }
        let n = self.cells.len();
        let ghost w = self.shape.spec_width() as int;
        let ghost h = self.shape.spec_height() as int;
        assert(w + 1 <= (w + 1) * (h + 1)) by (nonlinear_arith)
            requires
                w >= 0,
                h >= 0,
        ;
        assert(n == (w + 1) * (h + 1));
        let stride = self.shape.width() as usize + 1;
        assert(row * (w + 1) + col < (w + 1) * (h + 1)) by (nonlinear_arith)
            requires
                0 <= row <= h,
                0 <= col <= w,
        ;
        assert(row * (w + 1) <= row * (w + 1) + col);
        &self.cells[row as usize * stride + col as usize]
    }

    /// The rectangles the population of `rows` by `cols` is read from: one, or two for a span that
    /// wraps the seam, and one for the full turn.
    ///
    /// Each is four corners of the payload — south-east less north-east less south-west plus north-west —
    /// and what they add up to is exactly the cells `rows` and `cols` cover: see
    /// [`lemma_population_is_the_covered_cells`].
    pub fn rectangles(&self, rows: RowBand, cols: ColSpan) -> (rectangles: Vec<Rectangle>)
        requires
            rows.spec_south() < self.spec_shape().spec_height(),
            cols matches ColSpan::Through { west, east } ==> west < self.spec_shape().spec_width()
                && east < self.spec_shape().spec_width(),
        ensures
            rectangles@ == spec_rectangles(rows, cols, self.spec_shape().spec_width()),
    {
        let width = self.shape.width();
        let north = rows.north();
        let south = rows.south() + 1;
        let mut rectangles = Vec::new();
        match cols {
            ColSpan::FullTurn => {
                rectangles.push(Rectangle { north, south, first: 0, last: width });
            },
            ColSpan::Through { west, east } => {
                if west <= east {
                    rectangles.push(Rectangle { north, south, first: west, last: east + 1 });
                } else {
                    rectangles.push(Rectangle { north, south, first: west, last: width });
                    rectangles.push(Rectangle { north, south, first: 0, last: east + 1 });
                }
            },
        }
        assert(rectangles@ =~= spec_rectangles(rows, cols, width));
        rectangles
    }
}


/// `g(from) + g(from + 1) + … + g(to - 1)`; nothing when `to <= from`.
pub open spec fn sum_of(from: int, to: int, g: spec_fn(int) -> int) -> int
    decreases to - from,
{
    if to <= from {
        0
    } else {
        sum_of(from, to - 1, g) + g(to - 1)
    }
}

/// Row `i` of a grid of cell populations, as a function of the column.
pub open spec fn row_of(cells: spec_fn(int, int) -> int, i: int) -> spec_fn(int) -> int {
    |j: int| cells(i, j)
}

/// The population of the first `c` cells of row `i`.
pub open spec fn row_prefix(cells: spec_fn(int, int) -> int, i: int, c: int) -> int {
    sum_of(0, c, row_of(cells, i))
}

/// [`row_prefix`] at column `c`, as a function of the row.
pub open spec fn row_prefixes(cells: spec_fn(int, int) -> int, c: int) -> spec_fn(int) -> int {
    |i: int| row_prefix(cells, i, c)
}

/// What element `(r, c)` of a summed-area table over `cells` holds: the population of every cell
/// strictly north of row `r` and strictly west of column `c`.
pub open spec fn summed_area(cells: spec_fn(int, int) -> int, r: int, c: int) -> int {
    sum_of(0, r, row_prefixes(cells, c))
}

/// Whether `corners` is the padded summed-area table of `cells` on a `width` by `height` grid.
pub open spec fn is_summed_area(
    corners: spec_fn(int, int) -> int,
    cells: spec_fn(int, int) -> int,
    width: int,
    height: int,
) -> bool {
    forall|r: int, c: int|
        0 <= r <= height && 0 <= c <= width ==> #[trigger] corners(r, c) == summed_area(cells, r, c)
}

/// What a rectangle reads from the corners: south-east less north-east less south-west plus
/// north-west.
pub open spec fn rectangle_value(corners: spec_fn(int, int) -> int, rect: Rectangle) -> int {
    corners(rect.south as int, rect.last as int) - corners(rect.north as int, rect.last as int)
        - corners(rect.south as int, rect.first as int) + corners(
        rect.north as int,
        rect.first as int,
    )
}

/// The values of a list of rectangles, added up.
pub open spec fn rectangles_total(corners: spec_fn(int, int) -> int, rects: Seq<Rectangle>) -> int
    decreases rects.len(),
{
    if rects.len() == 0 {
        0
    } else {
        rectangles_total(corners, rects.drop_last()) + rectangle_value(corners, rects.last())
    }
}

/// Row `i` with every column `cols` does not cover read as empty.
pub open spec fn covered_of(
    cells: spec_fn(int, int) -> int,
    cols: ColSpan,
    width: int,
    i: int,
) -> spec_fn(int) -> int {
    |j: int|
        if in_span(cols, j, width) {
            cells(i, j)
        } else {
            0
        }
}

/// The population of the cells of row `i` that `cols` covers.
pub open spec fn covered_row(cells: spec_fn(int, int) -> int, cols: ColSpan, width: int, i: int) -> int {
    sum_of(0, width, covered_of(cells, cols, width, i))
}

/// [`covered_row`] as a function of the row.
pub open spec fn covered_rows(cells: spec_fn(int, int) -> int, cols: ColSpan, width: int) -> spec_fn(
    int,
) -> int {
    |i: int| covered_row(cells, cols, width, i)
}

/// The population of every cell in `rows` whose column `cols` covers, each counted once.
pub open spec fn covered_total(
    cells: spec_fn(int, int) -> int,
    rows: RowBand,
    cols: ColSpan,
    width: int,
) -> int {
    sum_of(rows.spec_north() as int, rows.spec_south() + 1, covered_rows(cells, cols, width))
}

proof fn lemma_sum_split(from: int, mid: int, to: int, g: spec_fn(int) -> int)
    requires
        from <= mid <= to,
    ensures
        sum_of(from, to, g) == sum_of(from, mid, g) + sum_of(mid, to, g),
    decreases to - mid,
{
    if to > mid {
        lemma_sum_split(from, mid, to - 1, g);
    }
}

proof fn lemma_sum_ext(from: int, to: int, g: spec_fn(int) -> int, h: spec_fn(int) -> int)
    requires
        forall|i: int| from <= i < to ==> #[trigger] g(i) == h(i),
    ensures
        sum_of(from, to, g) == sum_of(from, to, h),
    decreases to - from,
{
    if to > from {
        lemma_sum_ext(from, to - 1, g, h);
    }
}

proof fn lemma_sum_zero(from: int, to: int, g: spec_fn(int) -> int)
    requires
        forall|i: int| from <= i < to ==> #[trigger] g(i) == 0,
    ensures
        sum_of(from, to, g) == 0,
    decreases to - from,
{
    if to > from {
        lemma_sum_zero(from, to - 1, g);
    }
}

/// `sum(g) - sum(h) == sum(k)` wherever `g(i) - h(i) == k(i)`, and `sum(g) + sum(h) == sum(k)` wherever
/// `g(i) + h(i) == k(i)`: the sum is linear.
proof fn lemma_sum_linear(
    from: int,
    to: int,
    g: spec_fn(int) -> int,
    h: spec_fn(int) -> int,
    k: spec_fn(int) -> int,
    sign: int,
)
    requires
        sign == 1 || sign == -1,
        forall|i: int| from <= i < to ==> #[trigger] g(i) + sign * h(i) == k(i),
    ensures
        sum_of(from, to, g) + sign * sum_of(from, to, h) == sum_of(from, to, k),
    decreases to - from,
{
    if to > from {
        lemma_sum_linear(from, to - 1, g, h, k, sign);
        assert(g(to - 1) + sign * h(to - 1) == k(to - 1));
        assert(sign * sum_of(from, to, h) == sign * sum_of(from, to - 1, h) + sign * h(to - 1))
            by (nonlinear_arith)
            requires
                sum_of(from, to, h) == sum_of(from, to - 1, h) + h(to - 1),
        ;
    }
}

/// The cells of rows `north..south` and columns `first..last`, added up.
pub open spec fn block_sum(cells: spec_fn(int, int) -> int, north: int, south: int, first: int, last: int) -> int {
    sum_of(north, south, |i: int| sum_of(first, last, row_of(cells, i)))
}

/// Four corners of a summed-area table read a block exactly.
proof fn lemma_rectangle_is_its_block(
    corners: spec_fn(int, int) -> int,
    cells: spec_fn(int, int) -> int,
    width: int,
    height: int,
    rect: Rectangle,
)
    requires
        is_summed_area(corners, cells, width, height),
        rect.north <= rect.south <= height,
        rect.first <= rect.last <= width,
    ensures
        rectangle_value(corners, rect) == block_sum(
            cells,
            rect.north as int,
            rect.south as int,
            rect.first as int,
            rect.last as int,
        ),
{
    let (n, s, f, l) = (rect.north as int, rect.south as int, rect.first as int, rect.last as int);
    assert(corners(s, l) == summed_area(cells, s, l));
    assert(corners(n, l) == summed_area(cells, n, l));
    assert(corners(s, f) == summed_area(cells, s, f));
    assert(corners(n, f) == summed_area(cells, n, f));
    lemma_sum_split(0, n, s, row_prefixes(cells, l));
    lemma_sum_split(0, n, s, row_prefixes(cells, f));
    let inner = |i: int| sum_of(f, l, row_of(cells, i));
    assert forall|i: int| n <= i < s implies row_prefixes(cells, l)(i) + (-1) * row_prefixes(cells, f)(i)
        == #[trigger] inner(i) by {
        lemma_sum_split(0, f, l, row_of(cells, i));
    }
    lemma_sum_linear(n, s, row_prefixes(cells, l), row_prefixes(cells, f), inner, -1);
}

/// One row of the covered cells, as the blocks the rectangles of `cols` read.
proof fn lemma_covered_row_by_pieces(cells: spec_fn(int, int) -> int, cols: ColSpan, width: int, i: int)
    requires
        width > 0,
        cols matches ColSpan::Through { west, east } ==> west < width && east < width,
    ensures
        covered_row(cells, cols, width, i) == match cols {
            ColSpan::FullTurn => sum_of(0, width, row_of(cells, i)),
            ColSpan::Through { west, east } => if west <= east {
                sum_of(west as int, east + 1, row_of(cells, i))
            } else {
                sum_of(west as int, width, row_of(cells, i)) + sum_of(0, east + 1, row_of(cells, i))
            },
        },
{
    let g = covered_of(cells, cols, width, i);
    let row = row_of(cells, i);
    match cols {
        ColSpan::FullTurn => {
            lemma_sum_ext(0, width, g, row);
        },
        ColSpan::Through { west, east } => {
            let (w, e) = (west as int, east as int);
            if w <= e {
                lemma_sum_split(0, w, width, g);
                lemma_sum_split(w, e + 1, width, g);
                lemma_sum_zero(0, w, g);
                lemma_sum_zero(e + 1, width, g);
                lemma_sum_ext(w, e + 1, g, row);
            } else {
                lemma_sum_split(0, e + 1, width, g);
                lemma_sum_split(e + 1, w, width, g);
                lemma_sum_ext(0, e + 1, g, row);
                lemma_sum_zero(e + 1, w, g);
                lemma_sum_ext(w, width, g, row);
            }
        },
    }
}

/// What the rectangles of a query read from a summed-area table is exactly the population of the
/// cells the query covers: every row of the band, and of each row every column the span covers, once.
///
/// A span that wraps the seam is read as two rectangles and the full turn as one, so no column is
/// read twice and none is left out.
pub proof fn lemma_population_is_the_covered_cells(
    corners: spec_fn(int, int) -> int,
    cells: spec_fn(int, int) -> int,
    shape: GridShape,
    rows: RowBand,
    cols: ColSpan,
)
    requires
        shape.inv(),
        rows.inv(),
        is_summed_area(corners, cells, shape.spec_width() as int, shape.spec_height() as int),
        rows.spec_south() < shape.spec_height(),
        cols matches ColSpan::Through { west, east } ==> west < shape.spec_width() && east
            < shape.spec_width(),
    ensures
        rectangles_total(corners, spec_rectangles(rows, cols, shape.spec_width()))
            == covered_total(cells, rows, cols, shape.spec_width() as int),
{
    let width = shape.spec_width() as int;
    let height = shape.spec_height() as int;
    let n = rows.spec_north() as int;
    let s = rows.spec_south() + 1;
    let rects = spec_rectangles(rows, cols, shape.spec_width());
    shape.lemma_has_cells();
    let total = covered_rows(cells, cols, width);
    assert forall|i: int| n <= i < s implies #[trigger] total(i) == covered_row(cells, cols, width, i) by {}
    match cols {
        ColSpan::FullTurn => {
            let r = rects[0];
            assert(rects.drop_last().len() == 0);
            lemma_rectangle_is_its_block(corners, cells, width, height, r);
            assert forall|i: int| n <= i < s implies #[trigger] total(i) == sum_of(0, width, row_of(cells, i)) by {
                lemma_covered_row_by_pieces(cells, cols, width, i);
            }
            lemma_sum_ext(n, s, total, |i: int| sum_of(r.first as int, r.last as int, row_of(cells, i)));
            assert(rects.len() == 1 && rects.last() == r);
            assert(rectangles_total(corners, rects.drop_last()) == 0);
        },
        ColSpan::Through { west, east } => {
            let (w, e) = (west as int, east as int);
            if w <= e {
                let r = rects[0];
                assert(rects.drop_last().len() == 0);
                lemma_rectangle_is_its_block(corners, cells, width, height, r);
                assert forall|i: int| n <= i < s implies #[trigger] total(i) == sum_of(w, e + 1, row_of(cells, i))
                    by {
                    lemma_covered_row_by_pieces(cells, cols, width, i);
                }
                lemma_sum_ext(n, s, total, |i: int| sum_of(r.first as int, r.last as int, row_of(cells, i)));
                assert(rects.len() == 1 && rects.last() == r);
                assert(rectangles_total(corners, rects.drop_last()) == 0);
                assert(rectangle_value(corners, r) == sum_of(n, s, total));
            } else {
                let (r0, r1) = (rects[0], rects[1]);
                assert(rects.drop_last() =~= seq![r0]);
                assert(rects.drop_last().drop_last().len() == 0);
                lemma_rectangle_is_its_block(corners, cells, width, height, r0);
                lemma_rectangle_is_its_block(corners, cells, width, height, r1);
                let east_piece = |i: int| sum_of(r0.first as int, r0.last as int, row_of(cells, i));
                let west_piece = |i: int| sum_of(r1.first as int, r1.last as int, row_of(cells, i));
                assert forall|i: int| n <= i < s implies east_piece(i) + 1 * west_piece(i) == #[trigger] total(i) by {
                    lemma_covered_row_by_pieces(cells, cols, width, i);
                }
                lemma_sum_linear(n, s, east_piece, west_piece, total, 1);
                assert(rects.len() == 2 && rects.last() == r1 && rects.drop_last().last() == r0);
                assert(rectangles_total(corners, rects.drop_last().drop_last()) == 0);
                assert(rectangles_total(corners, rects.drop_last()) == rectangle_value(corners, r0));
            }
        },
    }
}

} // verus!
