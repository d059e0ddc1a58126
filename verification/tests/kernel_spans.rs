use popcircles::grid::GridShape;
use popcircles::kernel::{closing, place, reach_north, reach_south, settle_span, spans_whole_grid, Span};
use popcircles::table::ColSpan;

#[test]
fn an_estimate_below_the_reach_walks_east_to_it() {
    let inside = |cells: u32| cells <= 7;
    assert_eq!(settle_span(2, 180, &inside), Span::Around { half_width: 7 });
}

#[test]
fn an_estimate_past_the_reach_walks_back_west_to_it() {
    let inside = |cells: u32| cells <= 7;
    assert_eq!(settle_span(40, 180, &inside), Span::Around { half_width: 7 });
}

#[test]
fn a_cap_admitting_only_its_meridian_cell_is_one_column_wide() {
    let inside = |cells: u32| cells == 0;
    assert_eq!(settle_span(0, 180, &inside), Span::Around { half_width: 0 });
}

#[test]
fn a_row_reaching_the_closing_half_width_is_the_full_turn() {
    let inside = |_: u32| true;
    assert_eq!(settle_span(3, closing(360), &inside), Span::FullTurn);
    assert_eq!(settle_span(u32::MAX, closing(5), &inside), Span::FullTurn);
    assert_eq!(closing(4), 2);
    assert_eq!(closing(5), 2);
}

#[test]
fn the_band_a_cap_reaches_stops_at_the_first_row_it_misses_or_at_the_grid() {
    let reaches = |row: u32| (3..=9).contains(&row);
    assert_eq!(reach_north(6, &reaches), 3);
    assert_eq!(reach_south(6, 20, &reaches), 9);
    let everywhere = |_: u32| true;
    assert_eq!(reach_north(6, &everywhere), 0);
    assert_eq!(reach_south(6, 8, &everywhere), 7);
}

#[test]
fn a_placed_span_wraps_the_seam() {
    let grid = GridShape::new(36, 18).expect("a 36 x 18 grid");
    assert_eq!(
        place(&grid, Span::Around { half_width: 2 }, 0),
        ColSpan::Through { west: 34, east: 2 }
    );
    assert_eq!(
        place(&grid, Span::Around { half_width: 3 }, 10),
        ColSpan::Through { west: 7, east: 13 }
    );
    assert_eq!(place(&grid, Span::FullTurn, 5), ColSpan::FullTurn);
}

#[test]
fn a_kernel_spans_the_whole_grid_only_when_every_row_closes() {
    assert!(spans_whole_grid(&vec![Span::FullTurn; 18], 18));
    assert!(!spans_whole_grid(&vec![Span::FullTurn; 17], 18));
    let mut spans = vec![Span::FullTurn; 18];
    spans[4] = Span::Around { half_width: 17 };
    assert!(!spans_whole_grid(&spans, 18));
}
