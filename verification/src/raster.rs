use vstd::prelude::*;

use crate::grid::GridShape;

verus! {

/// The one storage layout this reader accepts. An enum rather than a constant so that a second layout
/// arrives as a variant every `match` has to answer for.
#[derive(Debug, Clone, Copy, PartialEq, Eq, Structural)]
pub enum PixelType {
    Float32,
}

impl PixelType {
    /// How the layout reads in a message.
    pub fn description(&self) -> (text: &'static str)
        ensures
            text@ == "Float32 (IEEE floating point, 32 bits)"@,
    {
        match self {
            PixelType::Float32 => "Float32 (IEEE floating point, 32 bits)",
        }
    }
}

/// Where every cell of a drained raster went. The four classes are disjoint and exhaustive, so they sum
/// to the grid's cell count, and that sum is the claim a caller can check its own traversal against.
#[derive(Debug, Clone, Copy, PartialEq, Eq, Structural)]
pub struct CellTallies {
    /// Cells matching the declared sentinel bit for bit.
    pub nodata: u64,
    /// Negative cells that did not match it. Zero population all the same, counted apart because
    /// nothing about the dataset says they should exist.
    pub unexpected_negative: u64,
    pub zero: u64,
    pub populated: u64,
}

impl Default for CellTallies {
    fn default() -> (tallies: Self)
        ensures
            tallies == (CellTallies { nodata: 0, unexpected_negative: 0, zero: 0, populated: 0 }),
    {
        CellTallies { nodata: 0, unexpected_negative: 0, zero: 0, populated: 0 }
    }
}

impl CellTallies {
    /// The four counts added up.
    pub open spec fn spec_total(self) -> int {
        self.nodata + self.unexpected_negative + self.zero + self.populated
    }

    pub fn total(self) -> (total: u64)
        requires
            self.spec_total() <= u64::MAX,
        ensures
            total == self.spec_total(),
    {
        self.nodata + self.unexpected_negative + self.zero + self.populated
    }

    /// The count of one class.
    pub open spec fn count_of(self, class: CellClass) -> int {
        match class {
            CellClass::Nodata => self.nodata as int,
            CellClass::UnexpectedNegative => self.unexpected_negative as int,
            CellClass::Zero => self.zero as int,
            CellClass::Populated => self.populated as int,
        }
    }
}

/// The class of one raw cell.
#[derive(Debug, Clone, Copy, PartialEq, Eq, Structural)]
pub enum CellClass {
    Nodata,
    UnexpectedNegative,
    Zero,
    Populated,
}

/// The sign bit of an IEEE single.
pub open spec fn sign_bit(bits: u32) -> bool {
    bits & 0x8000_0000 != 0
}

/// The bits of an IEEE single without its sign.
pub open spec fn magnitude(bits: u32) -> u32 {
    bits & 0x7fff_ffff
}

/// Whether an IEEE single is not a number: every exponent bit set and a mantissa that is not zero.
pub open spec fn is_nan_bits(bits: u32) -> bool {
    magnitude(bits) > 0x7f80_0000
}

/// The class of the IEEE single with bit pattern `bits`, given the declared sentinel's bits.
///
/// The sentinel is matched on bits, not by value: a sentinel that is not a number would match nothing
/// by value. A negative is below zero as a number, so negative zero is a zero; a value that is not a
/// number and not the sentinel compares false both ways and is a zero too.
pub open spec fn spec_classify(bits: u32, sentinel: u32) -> CellClass {
    if bits == sentinel {
        CellClass::Nodata
    } else if magnitude(bits) == 0 || is_nan_bits(bits) {
        CellClass::Zero
    } else if sign_bit(bits) {
        CellClass::UnexpectedNegative
    } else {
        CellClass::Populated
    }
}

/// What a cell of each class holds once it is sanitised: a count keeps its value, and everything else
/// is zero (all bits clear, which is positive zero).
pub open spec fn sanitised(bits: u32, sentinel: u32) -> u32 {
    if spec_classify(bits, sentinel) == CellClass::Populated {
        bits
    } else {
        0
    }
}

/// No cell leaves sanitising negative or not a number: what comes out is a count, with its sign bit
/// clear, or zero — so no later stage has to tell a sentinel from a count.
pub proof fn lemma_sanitised_is_a_count(bits: u32, sentinel: u32)
    ensures
        !sign_bit(sanitised(bits, sentinel)),
        !is_nan_bits(sanitised(bits, sentinel)),
        sanitised(bits, sentinel) == bits || sanitised(bits, sentinel) == 0,
{
    assert(0u32 & 0x8000_0000u32 == 0) by (bit_vector);
    assert(0u32 & 0x7fff_ffffu32 == 0) by (bit_vector);
}

/// Whether the IEEE single with bit pattern `bits` is above zero as a number. IEEE singles of either sign
/// order as their patterns do: the positive ones, smallest subnormal to infinity, are the patterns
/// `0x0000_0001` to `0x7f80_0000`; `0` is positive zero and the patterns above `0x7f80_0000` with the
/// sign clear are not numbers.
pub open spec fn above_zero(bits: u32) -> bool {
    0 < bits <= 0x7f80_0000
}

/// Whether the IEEE single with bit pattern `bits` is below zero as a number: the negative ones, from
/// the largest subnormal below zero to negative infinity, are the patterns `0x8000_0001` to
/// `0xff80_0000`; `0x8000_0000` is negative zero and the patterns past `0xff80_0000` are not numbers.
pub open spec fn below_zero(bits: u32) -> bool {
    0x8000_0000 < bits <= 0xff80_0000
}

/// A cell's class is what its value is: the sentinel, matched bit for bit, is nodata; any other value
/// above zero — a fraction of a person, a subnormal, a count, infinity — is populated and keeps its bits
/// through sanitising; any other value below zero is an unexplained negative; and what is left (either
/// zero, or not a number) is a zero. Every class but a count sanitises to positive zero.
pub proof fn lemma_a_cell_is_classed_by_its_value(bits: u32, sentinel: u32)
    ensures
        bits == sentinel ==> spec_classify(bits, sentinel) == CellClass::Nodata && sanitised(
            bits,
            sentinel,
        ) == 0,
        bits != sentinel && above_zero(bits) ==> spec_classify(bits, sentinel) == CellClass::Populated
            && sanitised(bits, sentinel) == bits,
        bits != sentinel && below_zero(bits) ==> spec_classify(bits, sentinel)
            == CellClass::UnexpectedNegative && sanitised(bits, sentinel) == 0,
        bits != sentinel && !above_zero(bits) && !below_zero(bits) ==> spec_classify(bits, sentinel)
            == CellClass::Zero && sanitised(bits, sentinel) == 0,
{
    assert(0 < bits <= 0x7f80_0000u32 ==> bits & 0x7fff_ffff != 0 && bits & 0x7fff_ffff <= 0x7f80_0000
        && bits & 0x8000_0000 == 0) by (bit_vector);
    assert(0x8000_0000u32 < bits <= 0xff80_0000u32 ==> bits & 0x7fff_ffff != 0 && bits & 0x7fff_ffff
        <= 0x7f80_0000 && bits & 0x8000_0000 != 0) by (bit_vector);
    assert(!(0 < bits <= 0x7f80_0000u32) && !(0x8000_0000u32 < bits <= 0xff80_0000u32) ==> (bits
        & 0x7fff_ffff == 0 || bits & 0x7fff_ffff > 0x7f80_0000)) by (bit_vector);
}

/// How many of `cells` `holds` is true of.
pub open spec fn count_where(cells: Seq<u32>, holds: spec_fn(u32) -> bool) -> int
    decreases cells.len(),
{
    if cells.len() == 0 {
        0
    } else {
        count_where(cells.drop_last(), holds) + (if holds(cells.last()) {
            1int
        } else {
            0int
        })
    }
}

proof fn lemma_class_counts_are_value_counts(cells: Seq<u32>, sentinel: u32)
    ensures
        class_count(cells, sentinel, CellClass::Nodata) == count_where(cells, |b: u32| b == sentinel),
        class_count(cells, sentinel, CellClass::Populated) == count_where(
            cells,
            |b: u32| b != sentinel && above_zero(b),
        ),
        class_count(cells, sentinel, CellClass::UnexpectedNegative) == count_where(
            cells,
            |b: u32| b != sentinel && below_zero(b),
        ),
    decreases cells.len(),
{
    if cells.len() > 0 {
        lemma_class_counts_are_value_counts(cells.drop_last(), sentinel);
        lemma_a_cell_is_classed_by_its_value(cells.last(), sentinel);
    }
}

#[verifier::when_used_as_spec(spec_classify)]
pub fn classify(bits: u32, sentinel: u32) -> (class: CellClass)
    ensures
        class == spec_classify(bits, sentinel),
        bits == sentinel ==> class == CellClass::Nodata,
        bits != sentinel && above_zero(bits) ==> class == CellClass::Populated,
        bits != sentinel && below_zero(bits) ==> class == CellClass::UnexpectedNegative,
        bits != sentinel && !above_zero(bits) && !below_zero(bits) ==> class == CellClass::Zero,
{
    proof {
        lemma_a_cell_is_classed_by_its_value(bits, sentinel);
    }
    if bits == sentinel {
        CellClass::Nodata
    } else if bits & 0x7fff_ffff == 0 || bits & 0x7fff_ffff > 0x7f80_0000 {
        CellClass::Zero
    } else if bits & 0x8000_0000 != 0 {
        CellClass::UnexpectedNegative
    } else {
        CellClass::Populated
    }
}

/// The tallies after counting one more cell of `class`.
pub open spec fn tallied(tallies: CellTallies, class: CellClass) -> CellTallies {
    match class {
        CellClass::Nodata => CellTallies { nodata: (tallies.nodata + 1) as u64, ..tallies },
        CellClass::UnexpectedNegative => CellTallies {
            unexpected_negative: (tallies.unexpected_negative + 1) as u64,
            ..tallies
        },
        CellClass::Zero => CellTallies { zero: (tallies.zero + 1) as u64, ..tallies },
        CellClass::Populated => CellTallies { populated: (tallies.populated + 1) as u64, ..tallies },
    }
}

/// How many of `cells` fall in `class`.
pub open spec fn class_count(cells: Seq<u32>, sentinel: u32, class: CellClass) -> int
    decreases cells.len(),
{
    if cells.len() == 0 {
        0
    } else {
        class_count(cells.drop_last(), sentinel, class) + (if spec_classify(cells.last(), sentinel)
            == class {
            1int
        } else {
            0int
        })
    }
}

proof fn lemma_classes_partition(cells: Seq<u32>, sentinel: u32)
    ensures
        class_count(cells, sentinel, CellClass::Nodata) + class_count(
            cells,
            sentinel,
            CellClass::UnexpectedNegative,
        ) + class_count(cells, sentinel, CellClass::Zero) + class_count(
            cells,
            sentinel,
            CellClass::Populated,
        ) == cells.len(),
    decreases cells.len(),
{
    if cells.len() > 0 {
        lemma_classes_partition(cells.drop_last(), sentinel);
    }
}

/// The one place a sentinel becomes a zero, on a row of IEEE singles held as their bit patterns.
///
/// Every cell that is not a count comes out as zero — the sentinel, a negative nothing explains, a zero
/// and a value that is not a number — and each is counted in exactly one class, so the tallies' total
/// grows by exactly the row's length.
pub fn sanitise_row(values: &mut Vec<u32>, nodata: u32, tallies: &mut CellTallies)
    requires
        old(tallies).spec_total() + old(values)@.len() <= u64::MAX,
    ensures
        final(values)@.len() == old(values)@.len(),
        forall|i: int|
            0 <= i < old(values)@.len() ==> #[trigger] final(values)@[i] == sanitised(
                old(values)@[i],
                nodata,
            ),
        forall|class: CellClass|
            #[trigger] final(tallies).count_of(class) == old(tallies).count_of(class) + class_count(
                old(values)@,
                nodata,
                class,
            ),
        final(tallies).spec_total() == old(tallies).spec_total() + old(values)@.len(),
        forall|i: int|
            0 <= i < old(values)@.len() ==> #[trigger] final(values)@[i] == if old(values)@[i] != nodata
                && above_zero(old(values)@[i]) {
                old(values)@[i]
            } else {
                0
            },
        final(tallies).populated == old(tallies).populated + count_where(
            old(values)@,
            |b: u32| b != nodata && above_zero(b),
        ),
        final(tallies).unexpected_negative == old(tallies).unexpected_negative + count_where(
            old(values)@,
            |b: u32| b != nodata && below_zero(b),
        ),
        final(tallies).nodata == old(tallies).nodata + count_where(old(values)@, |b: u32| b == nodata),
{
    let ghost start = *tallies;
    let ghost raw = values@;
    let mut i: usize = 0;
    while i < values.len()
        invariant
            0 <= i <= values@.len(),
            values@.len() == raw.len(),
            start.spec_total() + raw.len() <= u64::MAX,
            forall|k: int| 0 <= k < i ==> #[trigger] values@[k] == sanitised(raw[k], nodata),
            forall|k: int| i <= k < raw.len() ==> #[trigger] values@[k] == raw[k],
            forall|class: CellClass|
                #[trigger] tallies.count_of(class) == start.count_of(class) + class_count(
                    raw.take(i as int),
                    nodata,
                    class,
                ),
            tallies.spec_total() == start.spec_total() + i,
        decreases values@.len() - i,
    {
        let ghost before = *tallies;
        proof {
            assert(raw.take(i as int + 1).drop_last() =~= raw.take(i as int));
            assert(raw.take(i as int + 1).last() == raw[i as int]);
        }
        let bits = values[i];
        let class = classify(bits, nodata);
        match class {
            CellClass::Nodata => {
                tallies.nodata = tallies.nodata + 1;
                values.set(i, 0);
            },
            CellClass::UnexpectedNegative => {
                tallies.unexpected_negative = tallies.unexpected_negative + 1;
                values.set(i, 0);
            },
            CellClass::Zero => {
                tallies.zero = tallies.zero + 1;
                values.set(i, 0);
            },
            CellClass::Populated => {
                tallies.populated = tallies.populated + 1;
            },
        }
        proof {
            assert forall|class: CellClass|
                #[trigger] tallies.count_of(class) == start.count_of(class) + class_count(
                    raw.take(i + 1),
                    nodata,
                    class,
                ) by {
                assert(before.count_of(class) == start.count_of(class) + class_count(
                    raw.take(i as int),
                    nodata,
                    class,
                ));
            }
        }
        i = i + 1;
    }
    proof {
        assert(raw.take(raw.len() as int) =~= raw);
        lemma_classes_partition(raw, nodata);
        assert(tallies.count_of(CellClass::Nodata) == start.count_of(CellClass::Nodata) + class_count(raw, nodata, CellClass::Nodata));
        assert(tallies.count_of(CellClass::UnexpectedNegative) == start.count_of(CellClass::UnexpectedNegative) + class_count(raw, nodata, CellClass::UnexpectedNegative));
        assert(tallies.count_of(CellClass::Zero) == start.count_of(CellClass::Zero) + class_count(raw, nodata, CellClass::Zero));
        assert(tallies.count_of(CellClass::Populated) == start.count_of(CellClass::Populated) + class_count(raw, nodata, CellClass::Populated));
        lemma_class_counts_are_value_counts(raw, nodata);
        assert forall|i: int| 0 <= i < raw.len() implies #[trigger] values@[i] == if raw[i] != nodata
            && above_zero(raw[i]) {
            raw[i]
        } else {
            0
        } by {
            lemma_a_cell_is_classed_by_its_value(raw[i], nodata);
        }
    }
}

/// A set of rows was not the shape the grid declares.
#[derive(Debug, Clone, Copy, PartialEq, Eq)]
pub struct DimensionMismatch {
    pub declared: (u32, u32),
    pub found: (u32, u32),
}

/// A count of things, saturating at `u32::MAX` rather than wrapping, so an oversized input is reported
/// as too large instead of as some smaller shape that happens to fit.
pub open spec fn saturated(n: int) -> u32 {
    if n <= u32::MAX {
        n as u32
    } else {
        u32::MAX
    }
}

fn saturate(n: usize) -> (m: u32)
    ensures
        m == saturated(n as int),
{
    if n <= u32::MAX as usize {
        n as u32
    } else {
        u32::MAX
    }
}

/// The checks that make rows of raw values, one list per grid row, a raster of `shape`: every row as
/// wide as the first, and as many rows of that width as the grid declares. `widths` holds each row's
/// length.
pub fn check_rows(shape: &GridShape, widths: &Vec<usize>) -> (checked: Result<(), DimensionMismatch>)
    ensures
        checked is Ok <==> ((forall|k: int|
            0 <= k < widths@.len() ==> #[trigger] widths@[k] == widths@[0]) && saturated(
            if widths@.len() == 0 { 0 } else { widths@[0] as int },
        ) == shape.spec_width() && saturated(widths@.len() as int) == shape.spec_height()),
        checked matches Err(e) ==> e == (DimensionMismatch {
            declared: (shape.spec_width(), shape.spec_height()),
            found: (
                saturated(if widths@.len() == 0 { 0 } else { widths@[0] as int }),
                saturated(widths@.len() as int),
            ),
        }),
{
    let found_width: usize = if widths.len() == 0 { 0 } else { widths[0] };
    let mut ragged = false;
    let mut k: usize = 0;
    while k < widths.len()
        invariant
            0 <= k <= widths@.len(),
            found_width == (if widths@.len() == 0 { 0 } else { widths@[0] }),
            ragged <==> exists|j: int| 0 <= j < k && #[trigger] widths@[j] != found_width,
        decreases widths@.len() - k,
    {
        if widths[k] != found_width {
            ragged = true;
        }
        k = k + 1;
    }
    let declared = (shape.width(), shape.height());
    let found = (saturate(found_width), saturate(widths.len()));
    if ragged || found.0 != declared.0 || found.1 != declared.1 {
        return Err(DimensionMismatch { declared, found });
    }
    proof {
        assert forall|j: int| 0 <= j < widths@.len() implies #[trigger] widths@[j] == widths@[0] by {
            assert(widths@[j] == found_width);
        }
    }
    Ok(())
}

/// A raster held in memory as the bit patterns of its IEEE singles, one list per grid row, read one row
/// at a time in row order with nodata already turned into zero: a raster without a file, which every
/// consumer of a raster can be tested against.
pub struct Synthetic {
    shape: GridShape,
    nodata: u32,
    rows: Vec<Vec<u32>>,
    next: usize,
    tallies: CellTallies,
}

impl Synthetic {
    pub closed spec fn spec_shape(&self) -> GridShape {
        self.shape
    }

    /// The rows as they were handed over, sentinels included.
    pub closed spec fn spec_rows(&self) -> Seq<Seq<u32>> {
        self.rows@.map_values(|row: Vec<u32>| row@)
    }

    /// How many rows have been read.
    pub closed spec fn spec_next(&self) -> nat {
        self.next as nat
    }

    pub closed spec fn spec_nodata(&self) -> u32 {
        self.nodata
    }

    pub closed spec fn spec_tallies(&self) -> CellTallies {
        self.tallies
    }

    /// What every source keeps: as many rows as the grid has, each as wide as the grid, and tallies
    /// that have counted every cell of the rows read so far.
    pub closed spec fn wf(&self) -> bool {
        &&& self.shape.inv()
        &&& self.rows@.len() == self.shape.spec_height()
        &&& forall|i: int| 0 <= i < self.rows@.len() ==> (#[trigger] self.rows@[i])@.len() == self.shape.spec_width()
        &&& self.next <= self.rows@.len()
        &&& self.tallies.spec_total() == self.next * self.shape.spec_width()
    }

    /// `rows` are raw bit patterns, sentinels included, one list per grid row: a fixture states what the
    /// file would hold and gets the same conversion a decoded strip gets. No grid indexes past
    /// `u32::MAX` rows or columns, so neither the row count nor a row's length may pass it.
    ///
    /// # Errors
    /// [`DimensionMismatch`] when the rows are not the shape the grid declares, as [`check_rows`] decides.
    pub fn new(shape: GridShape, nodata: u32, rows: Vec<Vec<u32>>) -> (source: Result<Self, DimensionMismatch>)
        requires
            rows@.len() <= u32::MAX,
            forall|k: int| 0 <= k < rows@.len() ==> #[trigger] rows@[k]@.len() <= u32::MAX,
        ensures
            match source {
                Ok(source) => {
                    &&& source.wf()
                    &&& source.spec_shape() == shape
                    &&& source.spec_nodata() == nodata
                    &&& source.spec_rows() == rows@.map_values(|row: Vec<u32>| row@)
                    &&& source.spec_next() == 0
                    &&& source.spec_tallies() == (CellTallies { nodata: 0, unexpected_negative: 0, zero: 0, populated: 0 })
                },
                Err(e) => e == (DimensionMismatch {
                    declared: (shape.spec_width(), shape.spec_height()),
                    found: (
                        saturated(if rows@.len() == 0 { 0 } else { rows@[0]@.len() as int }),
                        saturated(rows@.len() as int),
                    ),
                }),
            },
            source is Ok <==> ((forall|k: int| 0 <= k < rows@.len() ==> #[trigger] rows@[k]@.len() == (if rows@.len() == 0 { 0 } else { rows@[0]@.len() }))
                && saturated(if rows@.len() == 0 { 0 } else { rows@[0]@.len() as int }) == shape.spec_width()
                && saturated(rows@.len() as int) == shape.spec_height()),
    {
        proof {
            use_type_invariant(&shape);
        }
        let mut widths: Vec<usize> = Vec::new();
        let mut i: usize = 0;
        while i < rows.len()
            invariant
                0 <= i <= rows@.len(),
                widths@.len() == i,
                forall|k: int| 0 <= k < i ==> #[trigger] widths@[k] == rows@[k]@.len(),
            decreases rows@.len() - i,
        {
            widths.push(rows[i].len());
            i = i + 1;
        }
        match check_rows(&shape, &widths) {
            Err(e) => {
                proof {
                    if (forall|k: int| 0 <= k < rows@.len() ==> #[trigger] rows@[k]@.len() == (if rows@.len() == 0 { 0 } else { rows@[0]@.len() })) {
                        assert forall|k: int| 0 <= k < widths@.len() implies #[trigger] widths@[k] == widths@[0] by {
                            assert(rows@[k]@.len() == rows@[0]@.len());
                        }
                    }
                }
                Err(e)
            },
            Ok(()) => {
                proof {
                    assert forall|k: int| 0 <= k < rows@.len() implies #[trigger] rows@[k]@.len() == (if rows@.len() == 0 { 0 } else { rows@[0]@.len() }) by {
                        assert(widths@[k] == widths@[0]);
                    }
                    if rows@.len() > 0 {
                        assert(rows@[0]@.len() <= u32::MAX);
                    }
                }
                let source = Synthetic {
                    shape,
                    nodata,
                    rows,
                    next: 0,
                    tallies: CellTallies { nodata: 0, unexpected_negative: 0, zero: 0, populated: 0 },
                };
                proof {
                    assert(saturated(widths@.len() as int) == shape.spec_height());
                    assert(source.rows@.len() == shape.spec_height());
                    assert forall|k: int| 0 <= k < source.rows@.len() implies (#[trigger] source.rows@[k])@.len() == source.shape.spec_width() by {
                        assert(widths@[k] == widths@[0]);
                        assert(saturated(widths@[0] as int) == shape.spec_width());
                    }
                    assert(source.wf());
                    assert(source.spec_rows() == rows@.map_values(|row: Vec<u32>| row@));
                }
                Ok(source)
            },
        }
    }

    pub fn shape(&self) -> (shape: GridShape)
        ensures
            shape == self.spec_shape(),
    {
        self.shape
    }

    /// The next row and its index, sanitised, or `None` when the raster is drained; a drained raster
    /// stays drained.
    pub fn next_row(&mut self) -> (row: Option<(u32, Vec<u32>)>)
        requires
            old(self).wf(),
        ensures
            final(self).wf(),
            final(self).spec_shape() == old(self).spec_shape(),
            final(self).spec_rows() == old(self).spec_rows(),
            final(self).spec_nodata() == old(self).spec_nodata(),
            old(self).spec_next() < old(self).spec_rows().len() ==> {
                let raw = old(self).spec_rows()[old(self).spec_next() as int];
                &&& row matches Some((index, values))
                &&& index == old(self).spec_next()
                &&& values@.len() == raw.len()
                &&& forall|i: int| 0 <= i < raw.len() ==> #[trigger] values@[i] == sanitised(raw[i], old(self).spec_nodata())
                &&& final(self).spec_next() == old(self).spec_next() + 1
                &&& forall|class: CellClass| #[trigger] final(self).spec_tallies().count_of(class)
                    == old(self).spec_tallies().count_of(class) + class_count(raw, old(self).spec_nodata(), class)
            },
            old(self).spec_next() >= old(self).spec_rows().len() ==> row is None && *final(self) == *old(self),
    {
        if self.next >= self.rows.len() {
            return None;
        }
        let index = self.next;
        let mut values = self.rows[index].clone();
        let ghost width = self.shape.spec_width();
        proof {
            assert(values@ == self.rows@[index as int]@);
            assert((index + 1) * width <= self.shape.spec_height() * width) by (nonlinear_arith)
                requires
                    index + 1 <= self.shape.spec_height(),
            ;
            assert(self.shape.spec_height() * width <= 0xffff_ffff * 0xffff_ffff) by (nonlinear_arith)
                requires
                    self.shape.spec_height() <= 0xffff_ffff,
                    width <= 0xffff_ffff,
            ;
            assert((index + 1) * width == index * width + width) by (nonlinear_arith);
        }
        sanitise_row(&mut values, self.nodata, &mut self.tallies);
        self.next = index + 1;
        Some((index as u32, values))
    }

    /// The tallies, once the stream is exhausted: the four classes are disjoint and exhaustive, so a
    /// drained raster's tallies sum to the grid's cell count.
    pub fn finish(self) -> (tallies: CellTallies)
        requires
            self.wf(),
        ensures
            tallies == self.spec_tallies(),
            tallies.spec_total() == self.spec_next() * self.spec_shape().spec_width(),
            self.spec_next() == self.spec_rows().len() ==> tallies.spec_total()
                == self.spec_shape().spec_width() * self.spec_shape().spec_height(),
    {
        proof {
            let w = self.shape.spec_width() as int;
            let h = self.shape.spec_height() as int;
            assert(self.rows@.map_values(|row: Vec<u32>| row@).len() == self.rows@.len());
            assert(h * w == w * h) by (nonlinear_arith);
        }
        self.tallies
    }
}

} // verus!
