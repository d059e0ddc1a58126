use std::ops::RangeInclusive;

use popcircles::grid::GridShape;
use popcircles::table::{ColSpan, Rectangle, RowBand, Table, TableError};

const CELLS: [[f64; 4]; 3] = [
    [1.0, 2.0, 3.0, 4.0],
    [5.0, 6.0, 7.0, 8.0],
    [9.0, 10.0, 11.0, 12.0],
];

const PAYLOAD: [[f64; 5]; 4] = [
    [0.0, 0.0, 0.0, 0.0, 0.0],
    [0.0, 1.0, 3.0, 6.0, 10.0],
    [0.0, 6.0, 14.0, 24.0, 36.0],
    [0.0, 15.0, 33.0, 54.0, 78.0],
];

fn grid() -> GridShape {
    GridShape::new(4, 3).expect("a 4 x 3 grid is valid")
}

fn table() -> Table<'static, f64> {
    Table::new(grid(), PAYLOAD.as_flattened()).expect("the payload is the padded product")
}

fn band(north: u32, south: u32) -> RowBand {
    RowBand::new(north, south)
}

fn through(west: u32, east: u32) -> ColSpan {
    ColSpan::Through { west, east }
}

/// What the rectangles of a query read, added in the order the table gives them.
fn population(table: &Table<'_, f64>, rows: RowBand, cols: ColSpan) -> f64 {
    table
        .rectangles(rows, cols)
        .into_iter()
        .map(|Rectangle { north, south, first, last }| {
            table.corner(south, last) - table.corner(north, last) - table.corner(south, first)
                + table.corner(north, first)
        })
        .sum()
}

fn direct(rows: RangeInclusive<usize>, cols: &[usize]) -> f64 {
    rows.flat_map(|row| cols.iter().map(move |col| CELLS[row][*col]))
        .sum()
}

#[test]
fn an_interior_rectangle_is_the_sum_of_its_cells() {
    assert_eq!(
        population(&table(), band(1, 2), through(1, 2)),
        direct(1..=2, &[1, 2])
    );
}

#[test]
fn a_span_wrapped_across_the_antimeridian_covers_both_pieces() {
    assert_eq!(
        population(&table(), band(0, 1), through(3, 0)),
        direct(0..=1, &[3, 0])
    );
}

#[test]
fn the_full_turn_is_the_row_band_itself() {
    assert_eq!(
        population(&table(), band(1, 2), ColSpan::FullTurn),
        direct(1..=2, &[0, 1, 2, 3])
    );
}

#[test]
fn a_span_of_one_column_is_one_column() {
    assert_eq!(
        population(&table(), band(0, 2), through(2, 2)),
        direct(0..=2, &[2])
    );
}

#[test]
fn a_payload_that_is_not_the_padded_product_is_refused() {
    let full = PAYLOAD.as_flattened();
    let short = &full[..full.len() - 1];
    let long: Vec<f64> = full.iter().copied().chain([0.0]).collect();

    assert_eq!(
        Table::new(grid(), short).err(),
        Some(TableError::PayloadLength {
            expected: 20,
            found: 19
        })
    );
    assert_eq!(
        Table::new(grid(), &long).err(),
        Some(TableError::PayloadLength {
            expected: 20,
            found: 21
        })
    );
}

#[test]
fn a_wrapped_span_is_two_rectangles_and_the_full_turn_one() {
    let table = table();
    assert_eq!(
        table.rectangles(band(0, 1), through(3, 0)),
        vec![
            Rectangle { north: 0, south: 2, first: 3, last: 4 },
            Rectangle { north: 0, south: 2, first: 0, last: 1 },
        ]
    );
    assert_eq!(
        table.rectangles(band(1, 2), ColSpan::FullTurn),
        vec![Rectangle { north: 1, south: 3, first: 0, last: 4 }]
    );
}

#[test]
fn a_band_given_upside_down_is_the_same_band() {
    assert_eq!(RowBand::new(2, 0), RowBand::new(0, 2));
    assert_eq!(RowBand::new(2, 0).north(), 0);
    assert_eq!(RowBand::new(2, 0).south(), 2);
}

#[test]
fn a_grid_with_an_empty_dimension_has_no_shape() {
    let refused = GridShape::new(0, 3).expect_err("no columns");
    assert_eq!((refused.width, refused.height), (0, 3));
    assert!(GridShape::new(4, 0).is_err());
}

#[test]
fn a_column_along_the_row_wraps_the_seam_both_ways() {
    let grid = grid();
    assert_eq!(grid.col_along(3, 1), 0);
    assert_eq!(grid.col_along(0, -1), 3);
    assert_eq!(grid.col_along(1, 9), 2);
    assert_eq!(grid.col_along(1, -9), 0);
    assert_eq!(grid.col_along(2, i64::MIN), 2);
}

#[test]
fn a_factor_that_does_not_divide_the_grid_is_refused() {
    let grid = GridShape::new(36, 18).expect("a 36 x 18 grid");
    let folded = popcircles::table::decimated(&grid, 3).expect("three divides both");
    assert_eq!((folded.width(), folded.height()), (12, 6));
    assert_eq!(
        popcircles::table::decimated(&grid, 4).err(),
        Some(TableError::Decimation { factor: 4, width: 36, height: 18 })
    );
    assert!(popcircles::table::decimated(&grid, 0).is_err());
    assert!(popcircles::table::decimated(&grid, 72).is_err());
}
