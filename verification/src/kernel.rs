use vstd::prelude::*;

use crate::grid::GridShape;
use crate::table::{in_span, ColSpan};

verus! {

/// The columns one row of a kernel covers, as an offset from the centre column.
#[derive(Debug, Clone, Copy, PartialEq, Eq, Structural)]
pub enum Span {
    /// `half_width` columns either side of the centre column, and the centre column itself: `2h + 1`
    /// columns in all.
    Around { half_width: u32 },
    /// Every column of the row. A variant rather than the half width that would reach it, for
    /// [`ColSpan::FullTurn`]'s reason: a row wide enough to close on itself must not be assembled from
    /// two pieces that double-count where they meet.
    FullTurn,
}

/// The half width a span stands for on a row that closes at `closing`.
pub open spec fn half_width_of(span: Span, closing: u32) -> u32 {
    match span {
        Span::Around { half_width } => half_width,
        Span::FullTurn => closing,
    }
}

/// The smallest half width that closes a row of `width` columns: `2h + 1 >= width` holds here at both
/// parities, so reaching it is the full turn rather than a span a column short of one.
pub open spec fn spec_closing(width: u32) -> u32 {
    width / 2
}

#[verifier::when_used_as_spec(spec_closing)]
pub fn closing(width: u32) -> (closing: u32)
    ensures
        closing == spec_closing(width),
{
    width / 2
}

/// The span one row of a cap covers, settled from an estimate of its half width by the membership test
/// `contains`, which says whether the cell that many columns along the row is in the cap.
///
/// The estimate is a starting point and `contains` is the definition: the walk east from the estimate
/// and back west from where that stops is what makes the two agree, so no estimate can make the answer
/// wrong — only slow. What comes back is a boundary of `contains`: the half width is one the test
/// admitted (or the centre column), and the column past it is one the test refused (or the row closes).
pub fn settle_span<F: Fn(u32) -> bool>(estimate: u32, closing: u32, contains: &F) -> (span: Span)
    requires
        forall|k: u32| #[trigger] contains.requires((k,)),
    ensures
        half_width_of(span, closing) <= closing,
        span is FullTurn <==> half_width_of(span, closing) == closing,
        half_width_of(span, closing) < closing ==> contains.ensures(
            ((half_width_of(span, closing) + 1) as u32,),
            false,
        ),
        half_width_of(span, closing) > 0 ==> contains.ensures(
            (half_width_of(span, closing),),
            true,
        ),
{
    let mut half_width = if estimate < closing { estimate } else { closing };
    loop
        invariant_except_break
            half_width <= closing,
            forall|k: u32| #[trigger] contains.requires((k,)),
        ensures
            half_width <= closing,
            half_width < closing ==> contains.ensures(((half_width + 1) as u32,), false),
        decreases closing - half_width,
    {
        if half_width >= closing {
            break;
        }
        let inside = contains(half_width + 1);
        if !inside {
            break;
        }
        half_width = half_width + 1;
    }
    loop
        invariant_except_break
            half_width <= closing,
            forall|k: u32| #[trigger] contains.requires((k,)),
            half_width < closing ==> contains.ensures(((half_width + 1) as u32,), false),
        ensures
            half_width <= closing,
            half_width < closing ==> contains.ensures(((half_width + 1) as u32,), false),
            half_width > 0 ==> contains.ensures((half_width,), true),
        decreases half_width,
    {
        if half_width == 0 {
            break;
        }
        let inside = contains(half_width);
        if inside {
            break;
        }
        half_width = half_width - 1;
    }
    if half_width == closing {
        Span::FullTurn
    } else {
        Span::Around { half_width }
    }
}

/// For a membership test that answers by `member` and admits every column nearer the centre than one
/// it admits, the boundary [`settle_span`] returns is the reach of the cap: the half width is the
/// furthest column the test admits, up to the closing one.
pub proof fn lemma_settled_span_is_the_reach(member: spec_fn(u32) -> bool, closing: u32, span: Span)
    requires
        member(0),
        forall|j: u32, k: u32| j <= k && #[trigger] member(k) ==> #[trigger] member(j),
        half_width_of(span, closing) <= closing,
        half_width_of(span, closing) < closing ==> !member((half_width_of(span, closing) + 1) as u32),
        half_width_of(span, closing) > 0 ==> member(half_width_of(span, closing)),
    ensures
        forall|k: u32| k <= closing ==> (#[trigger] member(k) <==> k <= half_width_of(span, closing)),
{
    let h = half_width_of(span, closing);
    assert(member(h));
    assert forall|k: u32| k <= closing implies (#[trigger] member(k) <==> k <= h) by {
        if k <= h {
            assert(member(h));
        } else {
            assert(!member((h + 1) as u32));
        }
    }
}

/// The northern end of the rows a cap centred on row `centre` reaches: the walk north stops at the
/// first row `reaches` refuses, or at the grid's first row. The rows a cap reaches are contiguous, so a
/// first miss is the end of the band and not a gap in it.
pub fn reach_north<F: Fn(u32) -> bool>(centre: u32, reaches: &F) -> (north: u32)
    requires
        forall|k: u32| #[trigger] reaches.requires((k,)),
    ensures
        north <= centre,
        north > 0 ==> reaches.ensures(((north - 1) as u32,), false),
        forall|k: u32| north <= k < centre ==> reaches.ensures((k,), true),
{
    let mut north = centre;
    loop
        invariant_except_break
            north <= centre,
            forall|k: u32| #[trigger] reaches.requires((k,)),
            forall|k: u32| north <= k < centre ==> reaches.ensures((k,), true),
        ensures
            north <= centre,
            north > 0 ==> reaches.ensures(((north - 1) as u32,), false),
            forall|k: u32| north <= k < centre ==> reaches.ensures((k,), true),
        decreases north,
    {
        if north == 0 {
            break;
        }
        let inside = reaches(north - 1);
        if !inside {
            break;
        }
        north = north - 1;
    }
    north
}

/// The southern end of the rows a cap centred on row `centre` reaches on a grid of `height` rows: the
/// walk south stops at the first row `reaches` refuses, or at the grid's last row.
pub fn reach_south<F: Fn(u32) -> bool>(centre: u32, height: u32, reaches: &F) -> (south: u32)
    requires
        centre < height,
        forall|k: u32| #[trigger] reaches.requires((k,)),
    ensures
        centre <= south < height,
        south + 1 < height ==> reaches.ensures(((south + 1) as u32,), false),
        forall|k: u32| centre < k <= south ==> reaches.ensures((k,), true),
{
    let mut south = centre;
    loop
        invariant_except_break
            centre <= south < height,
            forall|k: u32| #[trigger] reaches.requires((k,)),
            forall|k: u32| centre < k <= south ==> reaches.ensures((k,), true),
        ensures
            centre <= south < height,
            south + 1 < height ==> reaches.ensures(((south + 1) as u32,), false),
            forall|k: u32| centre < k <= south ==> reaches.ensures((k,), true),
        decreases height - south,
    {
        if south + 1 >= height {
            break;
        }
        let inside = reaches(south + 1);
        if !inside {
            break;
        }
        south = south + 1;
    }
    south
}

/// How many columns east of `from` column `to` is, on a row of `width` columns that closes.
pub open spec fn east_of(from: int, to: int, width: int) -> int {
    (to - from) % width
}

/// Whether column `j` is within `half_width` columns of `centre`, either way round the row.
pub open spec fn within(centre: int, j: int, half_width: int, width: int) -> bool {
    east_of(centre, j, width) <= half_width || east_of(j, centre, width) <= half_width
}

/// The columns `span` covers when its kernel is centred on column `centre`.
pub open spec fn spec_place(span: Span, centre: u32, width: u32) -> ColSpan {
    match span {
        Span::FullTurn => ColSpan::FullTurn,
        Span::Around { half_width } => ColSpan::Through {
            west: ((centre - half_width) % (width as int)) as u32,
            east: ((centre + half_width) % (width as int)) as u32,
        },
    }
}

/// The columns a kernel row covers, centred on column `centre`: the half width either side of it,
/// wrapping the seam, or the whole row.
pub fn place(shape: &GridShape, span: Span, centre: u32) -> (cols: ColSpan)
    requires
        centre < shape.spec_width(),
    ensures
        cols == spec_place(span, centre, shape.spec_width()),
        cols matches ColSpan::Through { west, east } ==> west < shape.spec_width() && east
            < shape.spec_width(),
{
    match span {
        Span::FullTurn => ColSpan::FullTurn,
        Span::Around { half_width } => ColSpan::Through {
            west: shape.col_along(centre, -(half_width as i64)),
            east: shape.col_along(centre, half_width as i64),
        },
    }
}

/// A placed row covers exactly the columns within its half width of the centre, each once: the span a
/// kernel describes as an offset and the span a table reads as two indices are the same columns,
/// whichever side of the seam the centre stands.
pub proof fn lemma_placed_span_is_the_columns_within_reach(
    shape: GridShape,
    span: Span,
    centre: u32,
    j: int,
)
    requires
        shape.inv(),
        centre < shape.spec_width(),
        0 <= j < shape.spec_width(),
        span matches Span::Around { half_width } ==> 2 * half_width + 1 < shape.spec_width(),
    ensures
        in_span(spec_place(span, centre, shape.spec_width()), j, shape.spec_width() as int) <==> (
        span is FullTurn || within(centre as int, j, half_width_of(span, 0) as int, shape.spec_width() as int)),
{
    let w = shape.spec_width() as int;
    shape.lemma_has_cells();
    match span {
        Span::FullTurn => {},
        Span::Around { half_width } => {
            let h = half_width as int;
            let c = centre as int;
            let west = (c - h) % w;
            let east = (c + h) % w;
            vstd::arithmetic::div_mod::lemma_fundamental_div_mod(c - h, w);
            vstd::arithmetic::div_mod::lemma_fundamental_div_mod(c + h, w);
            vstd::arithmetic::div_mod::lemma_fundamental_div_mod(j - c, w);
            vstd::arithmetic::div_mod::lemma_fundamental_div_mod(c - j, w);
            vstd::arithmetic::div_mod::lemma_mod_bound(c - h, w);
            vstd::arithmetic::div_mod::lemma_mod_bound(c + h, w);
            vstd::arithmetic::div_mod::lemma_mod_bound(j - c, w);
            vstd::arithmetic::div_mod::lemma_mod_bound(c - j, w);
            // Each of the four remainders is its argument shifted by at most one turn, since every
            // argument lies within one turn of zero.
            assert(-w < c - h < w && 0 <= c + h < 2 * w && -w < j - c < w && -w < c - j < w);
            lemma_mod_within_a_turn(c - h, w);
            lemma_mod_within_a_turn(c + h, w);
            lemma_mod_within_a_turn(j - c, w);
            lemma_mod_within_a_turn(c - j, w);
        },
    }
}

/// A number within a turn of zero, reduced by a turn: itself, or itself shifted by exactly one turn.
proof fn lemma_mod_within_a_turn(x: int, w: int)
    requires
        w > 0,
        -w <= x < 2 * w,
    ensures
        0 <= x < w ==> x % w == x,
        w <= x ==> x % w == x - w,
        x < 0 ==> x % w == x + w,
{
    if 0 <= x < w {
        vstd::arithmetic::div_mod::lemma_small_mod(x as nat, w as nat);
    } else if w <= x {
        vstd::arithmetic::div_mod::lemma_small_mod((x - w) as nat, w as nat);
        vstd::arithmetic::div_mod::lemma_mod_sub_multiples_vanish(x, w);
    } else {
        vstd::arithmetic::div_mod::lemma_small_mod((x + w) as nat, w as nat);
        vstd::arithmetic::div_mod::lemma_mod_add_multiples_vanish(x, w);
    }
}

/// Whether a kernel's rows span the whole grid: every row of the grid is one the cap reaches, and each
/// of them closes. Coverage rather than a comparison of populations: two different circles can hold the
/// same people, and what this claims is that the circle is the grid.
pub fn spans_whole_grid(spans: &Vec<Span>, height: u32) -> (whole: bool)
    ensures
        whole <==> (spans@.len() == height && forall|i: int| 0 <= i < spans@.len() ==> #[trigger] spans@[i]
            == Span::FullTurn),
{
    let mut i: usize = 0;
    while i < spans.len()
        invariant
            0 <= i <= spans@.len(),
            forall|k: int| 0 <= k < i ==> #[trigger] spans@[k] == Span::FullTurn,
        decreases spans@.len() - i,
    {
        if spans[i] != Span::FullTurn {
            return false;
        }
        i = i + 1;
    }
    spans.len() == height as usize
}

} // verus!
