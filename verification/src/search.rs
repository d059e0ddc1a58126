use vstd::multiset::Multiset;
use vstd::prelude::*;

use crate::grid::GridShape;
use crate::smallest::{lemma_halvings_monotone, spec_halvings};
use crate::table::RowBand;

verus! {

/// What a search did beside finding the answer, and the only window onto whether the bound is working.
#[derive(Debug, Clone, Copy, PartialEq, Eq, Default)]
pub struct SearchStats {
    pub levels: u32,
    pub blocks_examined: u64,
    pub blocks_pruned: u64,
    /// Blocks whose exact circle was evaluated — the ones the bound could not rule out.
    pub circles_evaluated: u64,
    /// How many kernels were constructed.
    pub kernels_built: u64,
}

/// A rectangle of candidate centres: the unit a bound speaks for, and the unit that halves.
///
/// The columns are `first` and `last` as indices, and a block never wraps the seam: blocks tile the index
/// space from column 0, so the last block of a row is short rather than wrapped.
#[derive(Debug, Clone, Copy, PartialEq, Eq, Structural)]
pub struct Block {
    rows: RowBand,
    first: u32,
    last: u32,
}

/// Whether `block` holds the cell at row `r`, column `c`.
pub open spec fn covers(block: Block, r: int, c: int) -> bool {
    &&& block.spec_rows().spec_north() <= r <= block.spec_rows().spec_south()
    &&& block.spec_first() <= c <= block.spec_last()
}

/// Whether some block of `blocks` holds the cell at row `r`, column `c`.
pub open spec fn covered(blocks: Seq<Block>, r: int, c: int) -> bool {
    exists|i: int| 0 <= i < blocks.len() && #[trigger] covers(blocks[i], r, c)
}

/// Whether `block` is an ordered rectangle of cells of `shape`.
pub open spec fn on_grid(block: Block, shape: GridShape) -> bool {
    &&& block.inv()
    &&& block.spec_rows().spec_south() < shape.spec_height()
    &&& block.spec_last() < shape.spec_width()
}

/// `a` comes before `b` in row-major order of disjoint blocks: wholly north of it, or beside it in the same
/// rows and wholly west.
pub open spec fn before(a: Block, b: Block) -> bool {
    ||| a.spec_rows().spec_south() < b.spec_rows().spec_north()
    ||| {
        &&& a.spec_rows() == b.spec_rows()
        &&& a.spec_last() < b.spec_first()
    }
}

/// Blocks in row-major order, which makes them pairwise disjoint.
pub open spec fn row_major(blocks: Seq<Block>) -> bool {
    forall|i: int, j: int| 0 <= i < j < blocks.len() ==> before(#[trigger] blocks[i], #[trigger] blocks[j])
}

/// The sum of a block's two extents less one each: zero exactly for a single cell, and what every split
/// shortens.
pub open spec fn extent(block: Block) -> int {
    (block.spec_rows().spec_south() - block.spec_rows().spec_north()) + (block.spec_last()
        - block.spec_first())
}

/// Whether `block` is the tile of the `spacing` lattice over `shape` that starts at its north-western
/// cell: that cell on a multiple of `spacing` in each extent, and each extent `spacing` cells long or cut
/// short by the edge of the grid.
pub open spec fn on_lattice(block: Block, spacing: u32, shape: GridShape) -> bool {
    let north = block.spec_rows().spec_north() as int;
    let first = block.spec_first() as int;
    &&& north % (spacing as int) == 0
    &&& first % (spacing as int) == 0
    &&& block.spec_rows().spec_south() == if north + spacing - 1 < shape.spec_height() {
        north + spacing - 1
    } else {
        shape.spec_height() - 1
    }
    &&& block.spec_last() == if first + spacing - 1 < shape.spec_width() {
        first + spacing - 1
    } else {
        shape.spec_width() - 1
    }
}

/// How many cells `block` holds.
pub open spec fn area(block: Block) -> int {
    (block.spec_rows().spec_south() - block.spec_rows().spec_north() + 1) * (block.spec_last()
        - block.spec_first() + 1)
}

/// How many cells the blocks of `blocks` hold between them, counted block by block.
pub open spec fn total_area(blocks: Seq<Block>) -> int
    decreases blocks.len(),
{
    if blocks.len() == 0 {
        0
    } else {
        total_area(blocks.drop_last()) + area(blocks.last())
    }
}

/// A block's northern and southern rows and its first and last columns.
pub open spec fn corners(block: Block) -> (int, int, int, int) {
    (
        block.spec_rows().spec_north() as int,
        block.spec_rows().spec_south() as int,
        block.spec_first() as int,
        block.spec_last() as int,
    )
}

/// The blocks of `blocks` by their [`corners`].
pub open spec fn corners_of(blocks: Seq<Block>) -> Seq<(int, int, int, int)> {
    blocks.map_values(|block: Block| corners(block))
}

/// The closed range `low..=high` halved: itself when it is one index, else split after its floor
/// midpoint.
pub open spec fn halves(low: int, high: int) -> Seq<(int, int)> {
    if low == high {
        seq![(low, high)]
    } else {
        let mid = low + (high - low) / 2;
        seq![(low, mid), (mid + 1, high)]
    }
}

/// What splitting `block` gives, by corners: nothing for a single cell, else each half of its rows paired
/// with each half of its columns, northern rows first and western columns first within them.
pub open spec fn halved(block: Block) -> Seq<(int, int, int, int)> {
    let (north, south, first, last) = corners(block);
    let rows = halves(north, south);
    let cols = halves(first, last);
    if extent(block) == 0 {
        Seq::empty()
    } else {
        Seq::new(
            rows.len() * cols.len(),
            |k: int|
                (
                    rows[k / cols.len() as int].0,
                    rows[k / cols.len() as int].1,
                    cols[k % cols.len() as int].0,
                    cols[k % cols.len() as int].1,
                ),
        )
    }
}

/// The larger of two counts.
pub open spec fn larger(a: nat, b: nat) -> nat {
    if a >= b {
        a
    } else {
        b
    }
}

/// How many rounds of splitting take the block with corners `north..=south` by `first..=last` down to
/// single cells: none for a cell, else one more than the most any of its children takes. A child is a
/// half of the rows (the rows themselves when there is one) with a half of the columns.
pub open spec fn split_rounds(north: int, south: int, first: int, last: int) -> nat
    decreases south - north + last - first,
    when north <= south && first <= last
{
    if north == south && first == last {
        0
    } else {
        let row_mid = north + (south - north) / 2;
        let col_mid = first + (last - first) / 2;
        let (n2, s1) = if north == south {
            (north, south)
        } else {
            (row_mid + 1, row_mid)
        };
        let (f2, l1) = if first == last {
            (first, last)
        } else {
            (col_mid + 1, col_mid)
        };
        1 + larger(
            larger(split_rounds(north, s1, first, l1), split_rounds(north, s1, f2, last)),
            larger(split_rounds(n2, south, first, l1), split_rounds(n2, south, f2, last)),
        )
    }
}

/// Splitting reaches single cells in as many rounds as halving the block's longer side takes: an extent
/// of 18 cells halves 18, 9, 5, 3, 2, 1 — five rounds.
pub proof fn lemma_split_rounds_are_the_halvings_of_the_longer_side(
    north: int,
    south: int,
    first: int,
    last: int,
)
    requires
        north <= south,
        first <= last,
    ensures
        split_rounds(north, south, first, last) == spec_halvings(
            larger((south - north + 1) as nat, (last - first + 1) as nat),
        ),
    decreases south - north + last - first,
{
    let rows = (south - north + 1) as nat;
    let cols = (last - first + 1) as nat;
    if north == south && first == last {
        assert(larger(rows, cols) == 1);
    } else {
        let row_mid = north + (south - north) / 2;
        let col_mid = first + (last - first) / 2;
        let (n2, s1) = if north == south {
            (north, south)
        } else {
            (row_mid + 1, row_mid)
        };
        let (f2, l1) = if first == last {
            (first, last)
        } else {
            (col_mid + 1, col_mid)
        };
        // The first half of each side is the longer one: half the side, rounded up.
        let up_r = ((rows + 1) / 2) as nat;
        let up_c = ((cols + 1) / 2) as nat;
        assert(s1 - north + 1 == up_r);
        assert(l1 - first + 1 == up_c);
        assert(south - n2 + 1 <= up_r);
        assert(last - f2 + 1 <= up_c);
        lemma_split_rounds_are_the_halvings_of_the_longer_side(north, s1, first, l1);
        lemma_split_rounds_are_the_halvings_of_the_longer_side(north, s1, f2, last);
        lemma_split_rounds_are_the_halvings_of_the_longer_side(n2, south, first, l1);
        lemma_split_rounds_are_the_halvings_of_the_longer_side(n2, south, f2, last);
        let top = larger(up_r, up_c);
        lemma_halvings_monotone(larger(up_r, (last - f2 + 1) as nat), top);
        lemma_halvings_monotone(larger((south - n2 + 1) as nat, up_c), top);
        lemma_halvings_monotone(larger((south - n2 + 1) as nat, (last - f2 + 1) as nat), top);
        let m = larger(rows, cols);
        assert(m > 1);
        assert(((m + 1) / 2) as nat == top);
    }
}

/// What splitting every block of `blocks` gives, by corners, in order.
pub open spec fn offspring(blocks: Seq<Block>) -> Seq<(int, int, int, int)>
    decreases blocks.len(),
{
    if blocks.len() == 0 {
        Seq::empty()
    } else {
        offspring(blocks.drop_last()) + halved(blocks.last())
    }
}

/// The probe cell of a block: the floor midpoint of each extent.
pub open spec fn probe_of(block: Block) -> (u32, u32) {
    let north = block.spec_rows().spec_north();
    let south = block.spec_rows().spec_south();
    (
        (north + (south - north) / 2) as u32,
        (block.spec_first() + (block.spec_last() - block.spec_first()) / 2) as u32,
    )
}

/// Two blocks in row-major order share no cell.
pub proof fn lemma_before_is_disjoint(a: Block, b: Block, r: int, c: int)
    requires
        before(a, b),
        covers(a, r, c),
    ensures
        !covers(b, r, c),
{
}

impl Block {
    /// The type's invariant: an ordered band and an ordered pair of columns.
    #[verifier::type_invariant]
    pub closed spec fn inv(self) -> bool {
        self.first <= self.last && self.rows.inv()
    }

    /// What [`Self::inv`] says of the block's extents: its columns and its rows are each in order.
    pub proof fn lemma_ordered(self)
        requires
            self.inv(),
        ensures
            self.spec_first() <= self.spec_last(),
            self.spec_rows().spec_north() <= self.spec_rows().spec_south(),
    {
        self.rows.lemma_ordered();
    }

    pub closed spec fn spec_rows(self) -> RowBand {
        self.rows
    }

    pub closed spec fn spec_first(self) -> u32 {
        self.first
    }

    pub closed spec fn spec_last(self) -> u32 {
        self.last
    }

    /// Any pair of columns is a block, so the constructor orders them rather than refusing one order.
    pub fn new(rows: RowBand, a: u32, b: u32) -> (block: Self)
        ensures
            block.spec_rows() == rows,
            block.spec_first() == (if a <= b { a } else { b }),
            block.spec_last() == (if a <= b { b } else { a }),
            block.inv(),
    {
        proof {
            use_type_invariant(&rows);
        }
        if a <= b {
            Block { rows, first: a, last: b }
        } else {
            Block { rows, first: b, last: a }
        }
    }

    /// Every exec block satisfies [`Self::inv`].
    pub fn check_inv(&self)
        ensures
            self.inv(),
    {
        proof {
            use_type_invariant(self);
        }
    }

    #[verifier::when_used_as_spec(spec_rows)]
    pub fn rows(self) -> (rows: RowBand)
        ensures
            rows == self.spec_rows(),
    {
        self.rows
    }

    #[verifier::when_used_as_spec(spec_first)]
    pub fn first(self) -> (first: u32)
        ensures
            first == self.spec_first(),
    {
        self.first
    }

    #[verifier::when_used_as_spec(spec_last)]
    pub fn last(self) -> (last: u32)
        ensures
            last == self.spec_last(),
    {
        self.last
    }

    /// Whether the block is a single cell.
    pub fn is_cell(self) -> (cell: bool)
        ensures
            cell == (self.spec_rows().spec_north() == self.spec_rows().spec_south()
                && self.spec_first() == self.spec_last()),
            cell == (extent(self) == 0),
    {
        proof {
            use_type_invariant(&self);
            use_type_invariant(&self.rows);
        }
        self.rows.north() == self.rows.south() && self.first == self.last
    }

    /// The grid tiled into blocks `spacing` cells on a side, row-major, the last of each extent short
    /// rather than overhanging.
    ///
    /// Every cell of the grid is in exactly one block: the blocks are in row-major order, which makes them
    /// disjoint, and together they cover the grid.
    pub fn tile(shape: &GridShape, spacing: u32) -> (blocks: Vec<Block>)
        requires
            spacing > 0,
        ensures
            forall|i: int| 0 <= i < blocks@.len() ==> on_grid(#[trigger] blocks@[i], *shape),
            forall|i: int| 0 <= i < blocks@.len() ==> on_lattice(#[trigger] blocks@[i], spacing, *shape),
            row_major(blocks@),
            forall|r: int, c: int|
                0 <= r < shape.spec_height() && 0 <= c < shape.spec_width() ==> covered(
                    blocks@,
                    r,
                    c,
                ),
            total_area(blocks@) == shape.spec_width() * shape.spec_height(),
            spacing >= shape.spec_width() && spacing >= shape.spec_height() ==> blocks@.len() == 1,
    {
        let width = shape.width();
        let height = shape.height();
        let step = spacing - 1;
        let mut blocks: Vec<Block> = Vec::new();
        let mut north: u32 = 0;
        while north < height
            invariant
                width == shape.spec_width(),
                height == shape.spec_height(),
                width > 0,
                height > 0,
                step == spacing - 1,
                north <= height,
                north < height ==> north as int % (spacing as int) == 0,
                forall|i: int| 0 <= i < blocks@.len() ==> on_grid(#[trigger] blocks@[i], *shape),
                forall|i: int|
                    0 <= i < blocks@.len() ==> on_lattice(#[trigger] blocks@[i], spacing, *shape),
                forall|i: int|
                    0 <= i < blocks@.len() ==> (#[trigger] blocks@[i]).spec_rows().spec_south()
                        < north,
                row_major(blocks@),
                forall|r: int, c: int| 0 <= r < north && 0 <= c < width ==> covered(blocks@, r, c),
                total_area(blocks@) == north * width,
                spacing >= width && spacing >= height ==> (north == 0 ==> blocks@.len() == 0) && (north
                    > 0 ==> north == height && blocks@.len() == 1),
            decreases height - north,
        {
            // Saturating, because a spacing larger than the grid is a legal way to ask for one block.
            let south = if step >= height - 1 - north { height - 1 } else { north + step };
            let band = RowBand::new(north, south);
            let start = blocks.len();
            let mut first: u32 = 0;
            while first < width
                invariant
                    width == shape.spec_width(),
                    height == shape.spec_height(),
                    width > 0,
                    north <= south < height,
                    band.spec_north() == north,
                    band.spec_south() == south,
                    band.inv(),
                    step == spacing - 1,
                    first <= width,
                    first < width ==> first as int % (spacing as int) == 0,
                    north as int % (spacing as int) == 0,
                    south == if north + spacing - 1 < height { north + spacing - 1 } else { height - 1 },
                    start <= blocks@.len(),
                    forall|i: int| 0 <= i < blocks@.len() ==> on_grid(#[trigger] blocks@[i], *shape),
                    forall|i: int|
                        0 <= i < blocks@.len() ==> on_lattice(#[trigger] blocks@[i], spacing, *shape),
                    forall|i: int|
                        0 <= i < start ==> (#[trigger] blocks@[i]).spec_rows().spec_south()
                            < north,
                    forall|i: int|
                        start <= i < blocks@.len() ==> (#[trigger] blocks@[i]).spec_rows() == band
                            && blocks@[i].spec_last() < first,
                    row_major(blocks@),
                    forall|r: int, c: int|
                        0 <= r < north && 0 <= c < width ==> covered(blocks@, r, c),
                    forall|r: int, c: int|
                        north <= r <= south && 0 <= c < first ==> covered(blocks@, r, c),
                    total_area(blocks@) == north * width + (south - north + 1) * first,
                    spacing >= width && spacing >= height ==> north == 0 && start == 0 && (first == 0
                        ==> blocks@.len() == 0) && (first > 0 ==> first == width && blocks@.len() == 1),
                decreases width - first,
            {
                let last = if step >= width - 1 - first { width - 1 } else { first + step };
                let block = Block::new(band, first, last);
                let ghost before_push = blocks@;
                blocks.push(block);
                proof {
                    assert(blocks@.drop_last() =~= before_push);
                    let rows = south - north + 1;
                    assert(area(block) == rows * (last - first + 1));
                    assert(north * width + rows * first + rows * (last - first + 1) == north * width + rows
                        * (last + 1)) by (nonlinear_arith);
                    assert(blocks@[blocks@.len() - 1] == block);
                    assert(on_lattice(block, spacing, *shape));
                    if last + 1 < width {
                        vstd::arithmetic::div_mod::lemma_mod_add_multiples_vanish(
                            first as int,
                            spacing as int,
                        );
                    }
                    assert forall|i: int, j: int| 0 <= i < j < blocks@.len() implies before(
                        #[trigger] blocks@[i],
                        #[trigger] blocks@[j],
                    ) by {
                        if j < before_push.len() {
                            assert(before(before_push[i], before_push[j]));
                        }
                    }
                    assert forall|r: int, c: int|
                        0 <= r < north && 0 <= c < width implies covered(blocks@, r, c) by {
                        assert(covered(before_push, r, c));
                        let i = choose|i: int| 0 <= i < before_push.len() && #[trigger] covers(before_push[i], r, c);
                        assert(covers(blocks@[i], r, c));
                    }
                    assert forall|r: int, c: int|
                        north <= r <= south && 0 <= c < last + 1 implies covered(blocks@, r, c) by {
                        if c < first {
                            assert(covered(before_push, r, c));
                            let i = choose|i: int| 0 <= i < before_push.len() && #[trigger] covers(before_push[i], r, c);
                            assert(covers(blocks@[i], r, c));
                        } else {
                            assert(covers(blocks@[blocks@.len() - 1], r, c));
                        }
                    }
                }
                first = last + 1;
            }
            proof {
                assert(north * width + (south - north + 1) * width == (south + 1) * width) by (nonlinear_arith);
                if south + 1 < height {
                    vstd::arithmetic::div_mod::lemma_mod_add_multiples_vanish(
                        north as int,
                        spacing as int,
                    );
                }
            }
            north = south + 1;
        }
        blocks
    }

    /// The cell whose circle stands for the block's: the floor midpoint of each extent, so an extent of
    /// even length takes the north-western of its two middles.
    pub fn probe(self, shape: &GridShape) -> (cell: (u32, u32))
        requires
            on_grid(self, *shape),
        ensures
            cell == probe_of(self),
            covers(self, cell.0 as int, cell.1 as int),
            cell.0 < shape.spec_height(),
            cell.1 < shape.spec_width(),
    {
        let north = self.rows.north();
        let south = self.rows.south();
        (north + (south - north) / 2, self.first + (self.last - self.first) / 2)
    }

    /// The block halved in each extent longer than one cell — four children, or two when one extent is
    /// already a single row or column, or none at all for a single cell.
    ///
    /// The children are in row-major order and together hold every cell of the block and nothing else, and
    /// each is strictly smaller than the block, which is what terminates the refinement.
    pub fn split(self, shape: &GridShape) -> (children: Vec<Block>)
        requires
            on_grid(self, *shape),
        ensures
            corners_of(children@) == halved(self),
            children@.len() <= 4,
            (children@.len() == 0) == (extent(self) == 0),
            row_major(children@),
            forall|i: int|
                0 <= i < children@.len() ==> {
                    &&& on_grid(#[trigger] children@[i], *shape)
                    &&& extent(children@[i]) < extent(self)
                    &&& forall|r: int, c: int| covers(children@[i], r, c) ==> covers(self, r, c)
                },
            forall|r: int, c: int| covers(self, r, c) && extent(self) > 0 ==> covered(children@, r, c),
    {
        proof {
            use_type_invariant(&self);
            use_type_invariant(&self.rows);
        }
        let north = self.rows.north();
        let south = self.rows.south();
        let first = self.first;
        let last = self.last;
        let mut children: Vec<Block> = Vec::new();
        let row_mid = north + (south - north) / 2;
        let col_mid = first + (last - first) / 2;
        if north != south && first != last {
            let top = RowBand::new(north, row_mid);
            let bottom = RowBand::new(row_mid + 1, south);
            children.push(Block::new(top, first, col_mid));
            children.push(Block::new(top, col_mid + 1, last));
            children.push(Block::new(bottom, first, col_mid));
            children.push(Block::new(bottom, col_mid + 1, last));
            proof {
                assert forall|r: int, c: int| covers(self, r, c) implies covered(children@, r, c) by {
                    if r <= row_mid && c <= col_mid {
                        assert(covers(children@[0], r, c));
                    } else if r <= row_mid {
                        assert(covers(children@[1], r, c));
                    } else if c <= col_mid {
                        assert(covers(children@[2], r, c));
                    } else {
                        assert(covers(children@[3], r, c));
                    }
                }
            }
        } else if north != south {
            children.push(Block::new(RowBand::new(north, row_mid), first, last));
            children.push(Block::new(RowBand::new(row_mid + 1, south), first, last));
            proof {
                assert forall|r: int, c: int| covers(self, r, c) implies covered(children@, r, c) by {
                    if r <= row_mid {
                        assert(covers(children@[0], r, c));
                    } else {
                        assert(covers(children@[1], r, c));
                    }
                }
            }
        } else if first != last {
            let band = RowBand::new(north, south);
            children.push(Block::new(band, first, col_mid));
            children.push(Block::new(band, col_mid + 1, last));
            proof {
                assert forall|r: int, c: int| covers(self, r, c) implies covered(children@, r, c) by {
                    if c <= col_mid {
                        assert(covers(children@[0], r, c));
                    } else {
                        assert(covers(children@[1], r, c));
                    }
                }
            }
        }
        proof {
            assert forall|i: int, j: int| 0 <= i < j < children@.len() implies before(
                #[trigger] children@[i],
                #[trigger] children@[j],
            ) by {
                if children@.len() == 4 {
                    assert(i == 0 || i == 1 || i == 2);
                }
            }
            let cols = halves(first as int, last as int);
            let rows = halves(north as int, south as int);
            if extent(self) > 0 {
                if north == south {
                    assert(rows.len() == 1);
                    assert(rows.len() * cols.len() == cols.len()) by (nonlinear_arith)
                        requires
                            rows.len() == 1,
                    ;
                } else if first == last {
                    assert(rows.len() == 2 && cols.len() == 1);
                    assert(rows.len() * cols.len() == 2) by (nonlinear_arith)
                        requires
                            rows.len() == 2 && cols.len() == 1,
                    ;
                } else {
                    assert(rows.len() == 2 && cols.len() == 2);
                    assert(rows.len() * cols.len() == 4) by (nonlinear_arith)
                        requires
                            rows.len() == 2 && cols.len() == 2,
                    ;
                }
                assert(halved(self).len() == children@.len());
                assert forall|k: int| 0 <= k < children@.len() implies #[trigger] corners_of(
                    children@,
                )[k] == halved(self)[k] by {
                    assert(k / cols.len() as int == (if cols.len() == 1 {
                        k
                    } else if k < 2 {
                        0int
                    } else {
                        1int
                    }));
                    assert(k % cols.len() as int == (if cols.len() == 1 {
                        0int
                    } else if k == 0 || k == 2 {
                        0int
                    } else {
                        1int
                    }));
                }
            }
            assert(corners_of(children@) =~= halved(self));
        }
        children
    }
}

/// The order a level is walked in: by probe row, then by probe column.
pub open spec fn probe_key(block: Block) -> int {
    probe_of(block).0 as int * 0x1_0000_0000 + probe_of(block).1 as int
}

/// Whether `blocks` ascend by [`probe_key`].
pub open spec fn by_probe(blocks: Seq<Block>) -> bool {
    forall|i: int, j: int|
        0 <= i <= j < blocks.len() ==> probe_key(#[trigger] blocks[i]) <= probe_key(#[trigger] blocks[j])
}

fn key_of(block: &Block) -> (key: u64)
    ensures
        key == probe_key(*block),
{
    proof {
        use_type_invariant(block);
        use_type_invariant(&block.rows);
    }
    let north = block.rows.north();
    let south = block.rows.south();
    let row = north + (south - north) / 2;
    let col = block.first + (block.last - block.first) / 2;
    row as u64 * 0x1_0000_0000 + col as u64
}

proof fn lemma_push_both(merged: Seq<Block>, taken: Seq<Block>, other: Seq<Block>, block: Block)
    requires
        merged.to_multiset() == taken.to_multiset().add(other.to_multiset())
            || merged.to_multiset() == other.to_multiset().add(taken.to_multiset()),
    ensures
        merged.push(block).to_multiset() =~= taken.push(block).to_multiset().add(
            other.to_multiset(),
        ),
{
    broadcast use vstd::multiset::group_multiset_axioms;

    vstd::seq_lib::to_multiset_build(merged, block);
    vstd::seq_lib::to_multiset_build(taken, block);
    assert(other.to_multiset().add(taken.to_multiset()) =~= taken.to_multiset().add(
        other.to_multiset(),
    ));
}

fn merge_by_probe(left: Vec<Block>, right: Vec<Block>) -> (merged: Vec<Block>)
    requires
        by_probe(left@),
        by_probe(right@),
    ensures
        by_probe(merged@),
        merged@.to_multiset() == left@.to_multiset().add(right@.to_multiset()),
{
    let mut merged: Vec<Block> = Vec::new();
    let mut i: usize = 0;
    let mut j: usize = 0;
    proof {
        broadcast use vstd::seq_lib::group_to_multiset_ensures, vstd::multiset::group_multiset_axioms;

        assert(left@.subrange(0, 0) =~= Seq::<Block>::empty());
        assert(right@.subrange(0, 0) =~= Seq::<Block>::empty());
        assert(merged@ =~= Seq::<Block>::empty());
        assert(Seq::<Block>::empty().to_multiset().len() == 0);
        assert(Seq::<Block>::empty().to_multiset() =~= Multiset::empty());
        assert(Multiset::<Block>::empty().add(Multiset::empty()) =~= Multiset::empty());
    }
    while i < left.len() || j < right.len()
        invariant
            by_probe(left@),
            by_probe(right@),
            i <= left@.len(),
            j <= right@.len(),
            by_probe(merged@),
            merged@.len() == i + j,
            merged@.to_multiset() == left@.subrange(0, i as int).to_multiset().add(
                right@.subrange(0, j as int).to_multiset(),
            ),
            merged@.len() > 0 && i < left@.len() ==> probe_key(merged@.last()) <= probe_key(
                left@[i as int],
            ),
            merged@.len() > 0 && j < right@.len() ==> probe_key(merged@.last()) <= probe_key(
                right@[j as int],
            ),
        decreases left@.len() + right@.len() - i - j,
    {
        let take_left = if j >= right.len() {
            true
        } else if i >= left.len() {
            false
        } else {
            key_of(&left[i]) <= key_of(&right[j])
        };
        let ghost before_push = merged@;
        let ghost taken_left = left@.subrange(0, i as int);
        let ghost taken_right = right@.subrange(0, j as int);
        if take_left {
            let block = left[i];
            merged.push(block);
            proof {
                assert(left@.subrange(0, i + 1) =~= taken_left.push(block));
                assert(merged@ == before_push.push(block));
                lemma_push_both(before_push, taken_left, taken_right, block);
            }
            i = i + 1;
        } else {
            let block = right[j];
            merged.push(block);
            proof {
                assert(right@.subrange(0, j + 1) =~= taken_right.push(block));
                assert(merged@ == before_push.push(block));
                lemma_push_both(before_push, taken_right, taken_left, block);
                assert(taken_left.to_multiset().add(taken_right.push(block).to_multiset())
                    =~= taken_right.push(block).to_multiset().add(taken_left.to_multiset()));
            }
            j = j + 1;
        }
    }
    assert(left@.subrange(0, i as int) =~= left@);
    assert(right@.subrange(0, j as int) =~= right@);
    merged
}

/// `blocks` ordered by [`probe_key`], the same blocks as a multiset.
///
/// The order every level is walked in: every kernel band then slides north to south and consecutive
/// blocks share a probe row, so the kernel one probe needs is the one the last probe built.
pub fn sort_by_probe(blocks: Vec<Block>) -> (sorted: Vec<Block>)
    ensures
        by_probe(sorted@),
        sorted@.to_multiset() == blocks@.to_multiset(),
    decreases blocks@.len(),
{
    if blocks.len() <= 1 {
        return blocks;
    }
    let mut left = blocks;
    let middle = left.len() / 2;
    let ghost whole = left@;
    let right = left.split_off(middle);
    proof {
        assert(whole =~= left@ + right@);
        vstd::seq_lib::lemma_multiset_commutative(left@, right@);
    }
    let left = sort_by_probe(left);
    let right = sort_by_probe(right);
    merge_by_probe(left, right)
}

proof fn lemma_corners_permuted(a: Seq<Block>, b: Seq<Block>)
    requires
        a.to_multiset() == b.to_multiset(),
    ensures
        corners_of(a).to_multiset() == corners_of(b).to_multiset(),
    decreases a.len(),
{
    broadcast use vstd::seq_lib::group_to_multiset_ensures, vstd::multiset::group_multiset_axioms;

    if a.len() == 0 {
        assert(b.to_multiset().len() == 0);
        assert(corners_of(a) =~= corners_of(b));
    } else {
        let x = a.last();
        let rest = a.drop_last();
        assert(rest.push(x) =~= a);
        vstd::seq_lib::to_multiset_build(rest, x);
        assert(b.to_multiset().count(x) > 0);
        assert(b.contains(x));
        let j = choose|j: int| 0 <= j < b.len() && b[j] == x;
        let others = b.remove(j);
        vstd::seq_lib::to_multiset_remove(b, j);
        assert(rest.to_multiset() =~= others.to_multiset());
        lemma_corners_permuted(rest, others);
        assert(corners_of(rest).push(corners(x)) =~= corners_of(a));
        vstd::seq_lib::to_multiset_build(corners_of(rest), corners(x));
        assert(corners_of(others) =~= corners_of(b).remove(j));
        vstd::seq_lib::to_multiset_remove(corners_of(b), j);
        assert(corners_of(b)[j] == corners(x));
        assert(corners_of(b).to_multiset().count(corners(x)) > 0);
        assert(corners_of(b).to_multiset() =~= corners_of(b).to_multiset().remove(corners(x)).insert(
            corners(x),
        ));
    }
}

proof fn lemma_covered_tail(s: Seq<Block>, k: int, r: int, c: int)
    requires
        0 <= k < s.len(),
        covered(s.subrange(k, s.len() as int), r, c),
    ensures
        covers(s[k], r, c) || covered(s.subrange(k + 1, s.len() as int), r, c),
{
    let tail = s.subrange(k, s.len() as int);
    let i = choose|i: int| 0 <= i < tail.len() && #[trigger] covers(tail[i], r, c);
    if i > 0 {
        let rest = s.subrange(k + 1, s.len() as int);
        assert(rest[i - 1] == tail[i]);
    }
}

proof fn lemma_covered_push(s: Seq<Block>, x: Block, r: int, c: int)
    requires
        covered(s, r, c) || covers(x, r, c),
    ensures
        covered(s.push(x), r, c),
{
    if covered(s, r, c) {
        let i = choose|i: int| 0 <= i < s.len() && #[trigger] covers(s[i], r, c);
        assert(covers(s.push(x)[i], r, c));
    } else {
        assert(covers(s.push(x)[s.len() as int], r, c));
    }
}

proof fn lemma_covered_concat(a: Seq<Block>, b: Seq<Block>, r: int, c: int)
    requires
        covered(a, r, c) || covered(b, r, c),
    ensures
        covered(a + b, r, c),
{
    if covered(a, r, c) {
        let i = choose|i: int| 0 <= i < a.len() && #[trigger] covers(a[i], r, c);
        assert(covers((a + b)[i], r, c));
    } else {
        let i = choose|i: int| 0 <= i < b.len() && #[trigger] covers(b[i], r, c);
        assert(covers((a + b)[a.len() + i], r, c));
    }
}

proof fn lemma_covered_permuted(a: Seq<Block>, b: Seq<Block>, r: int, c: int)
    requires
        a.to_multiset() == b.to_multiset(),
        covered(a, r, c),
    ensures
        covered(b, r, c),
{
    broadcast use vstd::seq_lib::group_to_multiset_ensures;

    let i = choose|i: int| 0 <= i < a.len() && #[trigger] covers(a[i], r, c);
    assert(a.contains(a[i]));
    assert(b.to_multiset().count(a[i]) > 0);
    assert(b.contains(a[i]));
    let j = choose|j: int| 0 <= j < b.len() && b[j] == a[i];
    assert(covers(b[j], r, c));
}

/// The branch and bound of [`most_populous`](self) as decisions: which block to examine next, and what
/// keeping or pruning it does to the levels still to come.
///
/// Whoever drives it measures each block — the widened circle at its probe against the incumbent — and
/// reports whether the block survives. A survivor's own circle is evaluated by the driver; at the end of a
/// level every survivor is split and the children, ordered by probe, are the next level. The walk is
/// over when a level is empty.
pub struct Walk {
    shape: GridShape,
    level: Vec<Block>,
    next: usize,
    survivors: Vec<Block>,
    stats: SearchStats,
    pruned: Ghost<Seq<Block>>,
    evaluated: Ghost<Seq<Block>>,
}

impl Walk {
    pub closed spec fn shape(&self) -> GridShape {
        self.shape
    }

    /// The blocks of the current level not yet examined, in the order they will be.
    pub closed spec fn pending(&self) -> Seq<Block> {
        self.level@.subrange(self.next as int, self.level@.len() as int)
    }

    /// The size of the current level.
    pub closed spec fn level_len(&self) -> nat {
        self.level@.len()
    }

    /// Every block reported as pruned, in the order it was.
    pub closed spec fn pruned(&self) -> Seq<Block> {
        self.pruned@
    }

    /// Every single-cell block reported as surviving: a cell whose own circle was evaluated.
    pub closed spec fn evaluated(&self) -> Seq<Block> {
        self.evaluated@
    }

    /// The blocks of the current level examined so far and kept; the end of the level splits them.
    pub closed spec fn survivors(&self) -> Seq<Block> {
        self.survivors@
    }

    /// The survivors once the block now pending first is settled: with it when it `survives`.
    pub open spec fn kept(&self, survives: bool) -> Seq<Block> {
        if survives {
            self.survivors().push(self.pending()[0])
        } else {
            self.survivors()
        }
    }

    pub closed spec fn spec_stats(&self) -> SearchStats {
        self.stats
    }

    /// What every walk keeps between calls: [`Self::wf_core`], and a level is never left fully
    /// examined — its end turns it over at once.
    pub closed spec fn wf(&self) -> bool {
        &&& self.wf_core()
        &&& self.level@.len() > 0 ==> self.next < self.level@.len()
    }

    /// What every walk keeps: each cell of the grid is pruned, evaluated, still pending, or inside a
    /// survivor that the end of the level will split.
    pub closed spec fn wf_core(&self) -> bool {
        let shape = self.shape;
        &&& shape.inv()
        &&& self.next <= self.level@.len()
        &&& forall|i: int| 0 <= i < self.level@.len() ==> on_grid(#[trigger] self.level@[i], shape)
        &&& forall|i: int|
            0 <= i < self.survivors@.len() ==> on_grid(#[trigger] self.survivors@[i], shape)
        &&& self.level@.len() == 0 ==> self.survivors@.len() == 0 && self.next == 0
        &&& forall|i: int|
            0 <= i < self.evaluated@.len() ==> extent(#[trigger] self.evaluated@[i]) == 0
        &&& forall|i: int|
            0 <= i < self.survivors@.len() && extent(#[trigger] self.survivors@[i]) == 0
                ==> self.evaluated@.contains(self.survivors@[i])
        &&& forall|r: int, c: int|
            0 <= r < shape.spec_height() && 0 <= c < shape.spec_width() ==> {
                ||| covered(self.pruned@, r, c)
                ||| covered(self.evaluated@, r, c)
                ||| covered(self.pending(), r, c)
                ||| covered(self.survivors@, r, c)
            }
        &&& self.stats.blocks_examined == self.stats.blocks_pruned + self.stats.circles_evaluated
        &&& self.pruned@.len() == self.stats.blocks_pruned
    }

    /// A walk over `shape` whose first level is its tiling into blocks `spacing` cells on a side.
    pub fn start(shape: GridShape, spacing: u32) -> (walk: Walk)
        requires
            spacing > 0,
        ensures
            walk.wf(),
            walk.shape() == shape,
            walk.pruned() == Seq::<Block>::empty(),
            walk.evaluated() == Seq::<Block>::empty(),
            walk.pending().len() > 0,
            walk.level_len() == walk.pending().len(),
            walk.survivors() == Seq::<Block>::empty(),
            by_probe(walk.pending()),
            walk.pending().no_duplicates(),
            forall|i: int|
                0 <= i < walk.pending().len() ==> on_lattice(
                    #[trigger] walk.pending()[i],
                    spacing,
                    shape,
                ),
            forall|r: int, c: int|
                0 <= r < shape.spec_height() && 0 <= c < shape.spec_width() ==> covered(
                    walk.pending(),
                    r,
                    c,
                ),
            walk.spec_stats() == (SearchStats {
                levels: 1,
                blocks_examined: 0,
                blocks_pruned: 0,
                circles_evaluated: 0,
                kernels_built: 0,
            }),
    {
        proof {
            use_type_invariant(&shape);
        }
        let tiles = Block::tile(&shape, spacing);
        let ghost tiled = tiles@;
        let level = sort_by_probe(tiles);
        proof {
            broadcast use vstd::seq_lib::group_to_multiset_ensures;

            shape.lemma_has_cells();
            assert(covered(tiled, 0, 0));
            assert(level@.to_multiset().len() == tiled.to_multiset().len());
            assert(level@.len() == tiled.len());
            assert forall|i: int| 0 <= i < level@.len() implies on_grid(
                #[trigger] level@[i],
                shape,
            ) && on_lattice(level@[i], spacing, shape) by {
                assert(level@.contains(level@[i]));
                assert(tiled.to_multiset().count(level@[i]) > 0);
                assert(tiled.contains(level@[i]));
            }
            assert forall|i: int, j: int|
                0 <= i < tiled.len() && 0 <= j < tiled.len() && i != j implies tiled[i]
                != tiled[j] by {
                let (a, b) = if i < j {
                    (i, j)
                } else {
                    (j, i)
                };
                assert(before(tiled[a], tiled[b]));
                tiled[a].spec_rows().lemma_ordered();
                assert(tiled[a].inv());
            }
            tiled.lemma_multiset_has_no_duplicates();
            level@.lemma_multiset_has_no_duplicates_conv();
            assert forall|r: int, c: int|
                0 <= r < shape.spec_height() && 0 <= c < shape.spec_width() implies covered(
                level@.subrange(0, level@.len() as int),
                r,
                c,
            ) by {
                lemma_covered_permuted(tiled, level@, r, c);
                assert(level@.subrange(0, level@.len() as int) =~= level@);
            }
        }
        Walk {
            shape,
            level,
            next: 0,
            survivors: Vec::new(),
            stats: SearchStats {
                levels: 1,
                blocks_examined: 0,
                blocks_pruned: 0,
                circles_evaluated: 0,
                kernels_built: 0,
            },
            pruned: Ghost(Seq::empty()),
            evaluated: Ghost(Seq::empty()),
        }
    }

    /// The block to examine next, or `None` once a level has come out empty and the walk is over.
    pub fn current(&self) -> (block: Option<Block>)
        requires
            self.wf(),
        ensures
            match block {
                Some(block) => self.pending().len() > 0 && block == self.pending()[0] && on_grid(
                    block,
                    self.shape(),
                ),
                None => self.pending().len() == 0,
            },
    {
        if self.next < self.level.len() {
            Some(self.level[self.next])
        } else {
            None
        }
    }

    /// What a search did so far.
    pub fn stats(&self) -> (stats: SearchStats)
        ensures
            stats == self.spec_stats(),
            self.wf() ==> stats.blocks_examined == stats.blocks_pruned + stats.circles_evaluated,
    {
        self.stats
    }

    /// The blocks a walk still has to examine are blocks of its level.
    pub proof fn lemma_pending_within_level(&self)
        requires
            self.wf(),
        ensures
            self.pending().len() <= self.level_len(),
    {
    }

    /// Every block a walk examines is either pruned or has its circle evaluated, never both and never
    /// neither, and the pruned ones are the ones it was told of.
    pub proof fn lemma_examined_is_pruned_or_evaluated(&self)
        requires
            self.wf(),
        ensures
            self.spec_stats().blocks_examined == self.spec_stats().blocks_pruned
                + self.spec_stats().circles_evaluated,
            self.pruned().len() == self.spec_stats().blocks_pruned,
    {
    }

    /// Records the finding on [`Self::current`]: `survives` when its bound does not rule it out, in which
    /// case its own circle was evaluated. Returns `(blocks done, blocks in the level)` for a progress meter.
    ///
    /// At the end of a level every survivor is split, and the children, ordered by probe, are the next.
    pub fn settle(&mut self, survives: bool) -> (progress: (u64, u64))
        requires
            old(self).wf(),
            old(self).pending().len() > 0,
            old(self).spec_stats().blocks_examined < u64::MAX,
            old(self).spec_stats().levels < u32::MAX,
        ensures
            final(self).wf(),
            final(self).shape() == old(self).shape(),
            progress.0 == old(self).level_len() - old(self).pending().len() + 1,
            progress.1 == old(self).level_len(),
            final(self).spec_stats().blocks_examined == old(self).spec_stats().blocks_examined + 1,
            survives ==> final(self).spec_stats().circles_evaluated
                == old(self).spec_stats().circles_evaluated + 1,
            !survives ==> final(self).spec_stats().blocks_pruned
                == old(self).spec_stats().blocks_pruned + 1,
            !survives ==> final(self).pruned() == old(self).pruned().push(old(self).pending()[0]),
            survives ==> final(self).pruned() == old(self).pruned(),
            (survives && extent(old(self).pending()[0]) == 0) ==> final(self).evaluated()
                == old(self).evaluated().push(old(self).pending()[0]),
            !(survives && extent(old(self).pending()[0]) == 0) ==> final(self).evaluated()
                == old(self).evaluated(),
            old(self).pending().len() > 1 ==> final(self).pending() == old(self).pending().drop_first(),
            old(self).pending().len() > 1 ==> final(self).level_len() == old(self).level_len(),
            old(self).pending().len() > 1 ==> final(self).survivors() == old(self).kept(survives),
            old(self).pending().len() > 1 ==> final(self).spec_stats().levels == old(
                self,
            ).spec_stats().levels,
            old(self).pending().len() == 1 ==> {
                &&& final(self).survivors() == Seq::<Block>::empty()
                &&& final(self).level_len() == final(self).pending().len()
                &&& by_probe(final(self).pending())
                &&& corners_of(final(self).pending()).to_multiset() == offspring(
                    old(self).kept(survives),
                ).to_multiset()
                &&& final(self).pending().len() > 0 ==> final(self).spec_stats().levels == old(
                    self,
                ).spec_stats().levels + 1
                &&& final(self).pending().len() == 0 ==> final(self).spec_stats().levels == old(
                    self,
                ).spec_stats().levels
            },
            final(self).spec_stats().kernels_built == old(self).spec_stats().kernels_built,
            settled_step(*old(self), *final(self), progress),
    {
        let ghost old_pending = self.pending();
        let ghost old_evaluated = self.evaluated@;
        let ghost old_survivors = self.survivors@;
        let next = self.next;
        let len = self.level.len();
        assert(next < len);
        let block = self.level[next];
        assert(block == old_pending[0]);
        self.stats.blocks_examined = self.stats.blocks_examined + 1;
        if survives {
            self.stats.circles_evaluated = self.stats.circles_evaluated + 1;
            self.survivors.push(block);
            if block.is_cell() {
                proof {
                    self.evaluated@ = self.evaluated@.push(block);
                }
            }
        } else {
            self.stats.blocks_pruned = self.stats.blocks_pruned + 1;
            proof {
                self.pruned@ = self.pruned@.push(block);
            }
        }
        self.next = next + 1;
        let progress = (self.next as u64, self.level.len() as u64);
        proof {
            let shape = self.shape;
            assert forall|i: int|
                0 <= i < self.survivors@.len() && extent(#[trigger] self.survivors@[i]) == 0
                    implies self.evaluated@.contains(self.survivors@[i]) by {
                if i == self.survivors@.len() - 1 && survives {
                    assert(self.evaluated@[self.evaluated@.len() - 1] == block);
                } else {
                    assert(self.survivors@[i] == old_survivors[i]);
                    assert(old_evaluated.contains(old_survivors[i]));
                    let j = choose|j: int|
                        0 <= j < old_evaluated.len() && old_evaluated[j] == old_survivors[i];
                    assert(self.evaluated@[j] == old_evaluated[j]);
                }
            }
            assert forall|r: int, c: int|
                0 <= r < shape.spec_height() && 0 <= c < shape.spec_width() implies {
                ||| covered(self.pruned@, r, c)
                ||| covered(self.evaluated@, r, c)
                ||| covered(self.pending(), r, c)
                ||| covered(self.survivors@, r, c)
            } by {
                if covered(old_pending, r, c) {
                    lemma_covered_tail(self.level@, self.next - 1, r, c);
                    if covers(block, r, c) {
                        if survives {
                            lemma_covered_push(self.survivors@.drop_last(), block, r, c);
                            assert(self.survivors@.drop_last().push(block) =~= self.survivors@);
                        } else {
                            lemma_covered_push(self.pruned@.drop_last(), block, r, c);
                            assert(self.pruned@.drop_last().push(block) =~= self.pruned@);
                        }
                    }
                } else {
                    lemma_keep_cover(old(self).pruned@, self.pruned@, r, c);
                    lemma_keep_cover(old(self).evaluated@, self.evaluated@, r, c);
                    lemma_keep_cover(old(self).survivors@, self.survivors@, r, c);
                }
            }
            if self.next < self.level@.len() {
                assert(self.pending() =~= old_pending.drop_first());
            }
        }
        if self.next == self.level.len() {
            self.turn_over();
        }
        progress
    }

    fn turn_over(&mut self)
        requires
            old(self).wf_core(),
            old(self).next == old(self).level@.len(),
            old(self).level@.len() > 0,
            old(self).spec_stats().levels < u32::MAX,
        ensures
            final(self).wf(),
            final(self).shape() == old(self).shape(),
            final(self).pruned() == old(self).pruned(),
            final(self).evaluated() == old(self).evaluated(),
            final(self).survivors() == Seq::<Block>::empty(),
            final(self).level_len() == final(self).pending().len(),
            by_probe(final(self).pending()),
            corners_of(final(self).pending()).to_multiset() == offspring(
                old(self).survivors(),
            ).to_multiset(),
            final(self).pending().len() > 0 ==> final(self).spec_stats().levels == old(
                self,
            ).spec_stats().levels + 1,
            final(self).pending().len() == 0 ==> final(self).spec_stats().levels == old(
                self,
            ).spec_stats().levels,
            final(self).spec_stats().blocks_examined == old(self).spec_stats().blocks_examined,
            final(self).spec_stats().blocks_pruned == old(self).spec_stats().blocks_pruned,
            final(self).spec_stats().circles_evaluated == old(self).spec_stats().circles_evaluated,
            final(self).spec_stats().kernels_built == old(self).spec_stats().kernels_built,
    {
        let shape = self.shape;
        let mut children: Vec<Block> = Vec::new();
        let mut k: usize = 0;
        while k < self.survivors.len()
            invariant
                self.wf_core(),
                self.next == self.level@.len(),
                shape == self.shape,
                shape.inv(),
                k <= self.survivors@.len(),
                corners_of(children@) == offspring(self.survivors@.subrange(0, k as int)),
                forall|i: int| 0 <= i < children@.len() ==> on_grid(#[trigger] children@[i], shape),
                forall|i: int, r: int, c: int|
                    0 <= i < k && #[trigger] covers(self.survivors@[i], r, c) && extent(
                        self.survivors@[i],
                    ) > 0 ==> covered(children@, r, c),
            decreases self.survivors@.len() - k,
        {
            let survivor = self.survivors[k];
            let mut kids = survivor.split(&shape);
            let ghost before = children@;
            let ghost born = kids@;
            children.append(&mut kids);
            proof {
                let kept = self.survivors@.subrange(0, k + 1);
                assert(kept.drop_last() =~= self.survivors@.subrange(0, k as int));
                assert(kept.last() == survivor);
                assert(corners_of(children@) =~= corners_of(before) + corners_of(born));
                assert forall|i: int, r: int, c: int|
                    0 <= i < k + 1 && #[trigger] covers(self.survivors@[i], r, c) && extent(
                        self.survivors@[i],
                    ) > 0 implies covered(children@, r, c) by {
                    if i < k {
                        lemma_covered_concat(before, born, r, c);
                    } else {
                        lemma_covered_concat(before, born, r, c);
                    }
                }
                assert forall|i: int| 0 <= i < children@.len() implies on_grid(
                    #[trigger] children@[i],
                    shape,
                ) by {
                    if i >= before.len() {
                        assert(children@[i] == born[i - before.len()]);
                    }
                }
            }
            k = k + 1;
        }
        let ghost born = children@;
        let level = sort_by_probe(children);
        proof {
            broadcast use vstd::seq_lib::group_to_multiset_ensures;

            assert(self.survivors@.subrange(0, self.survivors@.len() as int) =~= self.survivors@);
            lemma_corners_permuted(level@, born);

            assert forall|i: int| 0 <= i < level@.len() implies on_grid(#[trigger] level@[i], shape) by {
                assert(level@.contains(level@[i]));
                assert(born.to_multiset().count(level@[i]) > 0);
                assert(born.contains(level@[i]));
            }
            assert(level@.subrange(0, level@.len() as int) =~= level@);
            assert forall|r: int, c: int|
                0 <= r < shape.spec_height() && 0 <= c < shape.spec_width() && covered(
                    self.survivors@,
                    r,
                    c,
                ) implies covered(self.evaluated@, r, c) || covered(level@, r, c) by {
                let i = choose|i: int|
                    0 <= i < self.survivors@.len() && #[trigger] covers(self.survivors@[i], r, c);
                if extent(self.survivors@[i]) > 0 {
                    lemma_covered_permuted(born, level@, r, c);
                } else {
                    assert(self.evaluated@.contains(self.survivors@[i]));
                    let j = choose|j: int|
                        0 <= j < self.evaluated@.len() && self.evaluated@[j] == self.survivors@[i];
                    assert(covers(self.evaluated@[j], r, c));
                }
            }
            assert(self.pending() =~= Seq::<Block>::empty());
        }
        let found = level.len() > 0;
        self.level = level;
        self.next = 0;
        self.survivors = Vec::new();
        if found {
            self.stats.levels = self.stats.levels + 1;
        }
        proof {
            assert(self.pending() =~= self.level@);
        }
    }

    /// Whether the walk is over: the last level came out empty.
    pub fn is_done(&self) -> (done: bool)
        requires
            self.wf(),
        ensures
            done == (self.pending().len() == 0),
    {
        self.next >= self.level.len()
    }
}

/// What one [`Walk::settle`] does to where the walk stands, seen from a progress sink: `call` is
/// `(blocks done, blocks in the level)` counting the block just settled, and the walk either moves one
/// block along its level or, at the level's last block, starts the next level afresh, counting it when it
/// is not empty.
pub open spec fn settled_step(before: Walk, after: Walk, call: (u64, u64)) -> bool {
    &&& before.wf()
    &&& after.wf()
    &&& before.pending().len() > 0
    &&& call.0 == before.level_len() - before.pending().len() + 1
    &&& call.1 == before.level_len()
    &&& before.pending().len() > 1 ==> {
        &&& after.pending().len() == before.pending().len() - 1
        &&& after.level_len() == before.level_len()
        &&& after.spec_stats().levels == before.spec_stats().levels
    }
    &&& before.pending().len() == 1 ==> {
        &&& after.level_len() == after.pending().len()
        &&& after.pending().len() > 0 ==> after.spec_stats().levels == before.spec_stats().levels + 1
        &&& after.pending().len() == 0 ==> after.spec_stats().levels == before.spec_stats().levels
    }
}

/// How many calls of `calls` begin a level: report the first block of one.
pub open spec fn level_starts(calls: Seq<(u64, u64)>) -> nat
    decreases calls.len(),
{
    if calls.len() == 0 {
        0
    } else {
        level_starts(calls.drop_last()) + if calls.last().0 == 1 {
            1nat
        } else {
            0nat
        }
    }
}

/// What a progress sink hears over a walk driven from a fresh level to its end, one call per settled
/// block: the calls fall into one run per level the walk counted, each run reporting `1, 2, …, n` blocks
/// done of the `n` its level holds, so every run ends on a finished pair `(n, n)`.
pub proof fn lemma_each_level_is_one_run(walks: Seq<Walk>, calls: Seq<(u64, u64)>)
    requires
        walks.len() == calls.len() + 1,
        walks[0].pending().len() == walks[0].level_len(),
        forall|i: int| 0 <= i < calls.len() ==> settled_step(walks[i], walks[i + 1], #[trigger] calls[i]),
        walks.last().pending().len() == 0,
    ensures
        forall|i: int| 0 <= i < calls.len() ==> 1 <= (#[trigger] calls[i]).0 <= calls[i].1,
        calls.len() > 0 ==> calls[0].0 == 1,
        forall|i: int|
            0 <= i < calls.len() - 1 ==> ((#[trigger] calls[i + 1]).0 == 1 <==> calls[i].0 == calls[i].1),
        forall|i: int|
            0 <= i < calls.len() - 1 && calls[i].0 < calls[i].1 ==> #[trigger] calls[i + 1] == (
                (calls[i].0 + 1) as u64,
                calls[i].1,
            ),
        calls.len() > 0 ==> calls.last().0 == calls.last().1,
        calls.len() > 0 ==> walks.last().spec_stats().levels + 1 == walks[0].spec_stats().levels
            + level_starts(calls),
    decreases calls.len(),
{
    let n = calls.len();
    if n > 0 {
        lemma_runs_of_a_prefix(walks, calls, n as int);
        assert(calls.take(n as int) =~= calls);
        assert(walks[n as int] == walks.last());
    }
}

/// Over the first `k` calls of such a walk, the shape of the calls so far and where the walk stands
/// after them: how far into its level, and how many levels it has counted.
proof fn lemma_runs_of_a_prefix(walks: Seq<Walk>, calls: Seq<(u64, u64)>, k: int)
    requires
        walks.len() == calls.len() + 1,
        0 <= k <= calls.len(),
        calls.len() > 0,
        walks[0].pending().len() == walks[0].level_len(),
        forall|i: int| 0 <= i < calls.len() ==> settled_step(walks[i], walks[i + 1], #[trigger] calls[i]),
        walks.last().pending().len() == 0,
    ensures
        forall|i: int| 0 <= i < k ==> 1 <= (#[trigger] calls[i]).0 <= calls[i].1,
        k > 0 ==> calls[0].0 == 1,
        forall|i: int|
            0 <= i < k - 1 ==> ((#[trigger] calls[i + 1]).0 == 1 <==> calls[i].0 == calls[i].1),
        forall|i: int|
            0 <= i < k - 1 && calls[i].0 < calls[i].1 ==> #[trigger] calls[i + 1] == (
                (calls[i].0 + 1) as u64,
                calls[i].1,
            ),
        k > 0 ==> {
            &&& walks[k].pending().len() > 0 ==> calls[k - 1].0 < calls[k - 1].1 || walks[k].pending().len()
                == walks[k].level_len()
            &&& calls[k - 1].0 == calls[k - 1].1 ==> walks[k].pending().len() == walks[k].level_len()
            &&& calls[k - 1].0 < calls[k - 1].1 ==> walks[k].pending().len() == calls[k - 1].1
                - calls[k - 1].0 && walks[k].level_len() == calls[k - 1].1
        },
        walks[k].spec_stats().levels + 1 == walks[0].spec_stats().levels + level_starts(calls.take(k))
            + if walks[k].pending().len() == walks[k].level_len() && walks[k].pending().len() > 0 {
            1int
        } else {
            0int
        },
    decreases k,
{
    if k == 0 {
        assert(calls.take(0) =~= Seq::<(u64, u64)>::empty());
        assert(settled_step(walks[0], walks[1], calls[0]));
        return;
    }
    lemma_runs_of_a_prefix(walks, calls, k - 1);
    let before = walks[k - 1];
    let after = walks[k];
    assert(settled_step(before, after, calls[k - 1]));
    before.lemma_pending_within_level();
    after.lemma_pending_within_level();
    assert(calls.take(k).drop_last() =~= calls.take(k - 1));
    assert(calls.take(k).last() == calls[k - 1]);
    if k >= 2 {
        assert(settled_step(walks[k - 2], walks[k - 1], calls[k - 2]));
    }
}

proof fn lemma_keep_cover(before: Seq<Block>, after: Seq<Block>, r: int, c: int)
    requires
        after.len() >= before.len(),
        forall|i: int| 0 <= i < before.len() ==> after[i] == before[i],
    ensures
        covered(before, r, c) ==> covered(after, r, c),
{
    if covered(before, r, c) {
        let i = choose|i: int| 0 <= i < before.len() && #[trigger] covers(before[i], r, c);
        assert(covers(after[i], r, c));
    }
}

/// The branch and bound loses no centre: once a walk is over, every cell of the grid lies in a block that
/// was pruned or is a single cell whose own circle was evaluated.
pub proof fn lemma_walk_misses_no_cell(walk: Walk, r: int, c: int)
    requires
        walk.wf(),
        walk.pending().len() == 0,
        0 <= r < walk.shape().spec_height(),
        0 <= c < walk.shape().spec_width(),
    ensures
        covered(walk.pruned(), r, c) || covered(walk.evaluated(), r, c),
        forall|i: int|
            0 <= i < walk.evaluated().len() ==> extent(#[trigger] walk.evaluated()[i]) == 0,
{
}

/// How another candidate's population stands against the one held: above it, below it, or neither — the
/// last also for a population that is not a number, which compares false both ways.
#[derive(Debug, Clone, Copy, PartialEq, Eq, Structural)]
pub enum Standing {
    Above,
    Below,
    Level,
}

/// The same comparison seen from the other side.
pub open spec fn flipped(standing: Standing) -> Standing {
    match standing {
        Standing::Above => Standing::Below,
        Standing::Below => Standing::Above,
        Standing::Level => Standing::Level,
    }
}

/// A candidate centre and what its circle holds.
#[derive(Debug, Clone, Copy, PartialEq)]
pub struct Candidate<P> {
    pub row: u32,
    pub col: u32,
    pub population: P,
}

/// Whether `a`'s cell comes before `b`'s in row-major order.
pub open spec fn north_west_of<P>(a: Candidate<P>, b: Candidate<P>) -> bool {
    a.row < b.row || (a.row == b.row && a.col < b.col)
}

/// The better of `held` and `other`, given how `other`'s population stands against `held`'s.
pub open spec fn spec_better<P>(held: Candidate<P>, other: Candidate<P>, other_is: Standing) -> Candidate<P> {
    match other_is {
        Standing::Above => other,
        Standing::Below => held,
        Standing::Level => if north_west_of(other, held) {
            other
        } else {
            held
        },
    }
}

impl<P> Candidate<P> {
    /// The better of two candidates: more population wins, and equal population keeps the smaller
    /// `(row, col)`. `other_is` is how `other`'s population stands against this one's.
    ///
    /// A comparison rather than "keep the first one seen", so the answer does not depend on the order
    /// candidates arrive in: see [`lemma_better_is_symmetric`].
    pub fn better(self, other: Self, other_is: Standing) -> (best: Self)
        ensures
            best == spec_better(self, other, other_is),
    {
        match other_is {
            Standing::Above => other,
            Standing::Below => self,
            Standing::Level => {
                if other.row < self.row || (other.row == self.row && other.col < self.col) {
                    other
                } else {
                    self
                }
            },
        }
    }
}

/// `a.better(b)` and `b.better(a)` are the same candidate, for two candidates at different cells.
pub proof fn lemma_better_is_symmetric<P>(a: Candidate<P>, b: Candidate<P>, b_is: Standing)
    requires
        a.row != b.row || a.col != b.col,
    ensures
        spec_better(a, b, b_is) == spec_better(b, a, flipped(b_is)),
{
}

/// One kernel, rebuilt only when the row or the radius changes.
///
/// A single entry rather than a map: the walk examines a level's blocks sorted by probe row, so every
/// block of a row asks for the same kernel in succession and one entry catches all of it. The radius is
/// held as the bits of the float it was given as, compared by bits: two blocks of the same row and the
/// same extent produce the same bits exactly when the kernel is reusable.
pub struct HeldKernel<K> {
    row: u32,
    radius_bits: u64,
    kernel: K,
    built: u64,
}

impl<K> HeldKernel<K> {
    pub closed spec fn spec_row(&self) -> u32 {
        self.row
    }

    pub closed spec fn spec_radius_bits(&self) -> u64 {
        self.radius_bits
    }

    pub closed spec fn spec_kernel(&self) -> K {
        self.kernel
    }

    /// How many kernels have been built over the holder's life, the first one included.
    pub closed spec fn spec_built(&self) -> u64 {
        self.built
    }

    /// Holds `kernel`, the first one built, for `row` at the radius whose bits are `radius_bits`.
    pub fn new(row: u32, radius_bits: u64, kernel: K) -> (held: Self)
        ensures
            held.spec_row() == row,
            held.spec_radius_bits() == radius_bits,
            held.spec_kernel() == kernel,
            held.spec_built() == 1,
    {
        HeldKernel { row, radius_bits, kernel, built: 1 }
    }

    /// Whether the kernel held is the one for `row` at the radius whose bits are `radius_bits`.
    pub fn holds(&self, row: u32, radius_bits: u64) -> (held: bool)
        ensures
            held <==> (self.spec_row() == row && self.spec_radius_bits() == radius_bits),
    {
        self.row == row && self.radius_bits == radius_bits
    }

    /// Replaces the kernel held with one just built for `row` at `radius_bits`, and counts the build.
    pub fn replace(&mut self, row: u32, radius_bits: u64, kernel: K)
        requires
            old(self).spec_built() < u64::MAX,
        ensures
            final(self).spec_row() == row,
            final(self).spec_radius_bits() == radius_bits,
            final(self).spec_kernel() == kernel,
            final(self).spec_built() == old(self).spec_built() + 1,
    {
        self.row = row;
        self.radius_bits = radius_bits;
        self.kernel = kernel;
        self.built = self.built + 1;
    }

    pub fn kernel(&self) -> (kernel: &K)
        ensures
            *kernel == self.spec_kernel(),
    {
        &self.kernel
    }

    pub fn built(&self) -> (built: u64)
        ensures
            built == self.spec_built(),
    {
        self.built
    }
}

} // verus!
