use popcircles::grid::GridShape;
use popcircles::raster::{
    check_rows, classify, sanitise_row, CellClass, CellTallies, DimensionMismatch, PixelType, Synthetic,
};

const GPW_NODATA: f32 = -3.402_823e38;

#[test]
fn the_tallies_sum_to_the_cells_they_classify() {
    let tallies = CellTallies {
        nodata: 710_450_072,
        unexpected_negative: 0,
        zero: 40_311_312,
        populated: 182_358_616,
    };
    assert_eq!(tallies.total(), 933_120_000);
    assert_eq!(CellTallies::default().total(), 0);
}

#[test]
fn the_sentinel_is_held_to_its_bits() {
    assert_eq!(GPW_NODATA.to_bits(), 0xff7f_fffd);
}

fn bits(values: &[f32]) -> Vec<u32> {
    values.iter().map(|value| value.to_bits()).collect()
}

fn floats(bits: &[u32]) -> Vec<f32> {
    bits.iter().map(|bits| f32::from_bits(*bits)).collect()
}

#[test]
fn a_row_sanitised_in_place_counts_each_cell_once() {
    let mut row = bits(&[GPW_NODATA, -1.0, 0.0, 12.5]);
    let mut tallies = CellTallies::default();
    sanitise_row(&mut row, GPW_NODATA.to_bits(), &mut tallies);
    assert_eq!(floats(&row), [0.0, 0.0, 0.0, 12.5]);
    assert_eq!(
        tallies,
        CellTallies {
            nodata: 1,
            unexpected_negative: 1,
            zero: 1,
            populated: 1,
        }
    );
    assert_eq!(tallies.total(), 4);
}

#[test]
fn a_value_that_is_not_a_number_and_a_negative_zero_are_zeros() {
    let mut row = bits(&[f32::NAN, -0.0, f32::INFINITY, f32::NEG_INFINITY, f32::MIN_POSITIVE]);
    let mut tallies = CellTallies::default();
    sanitise_row(&mut row, GPW_NODATA.to_bits(), &mut tallies);
    assert_eq!(row, bits(&[0.0, 0.0, f32::INFINITY, 0.0, f32::MIN_POSITIVE]));
    assert_eq!(
        tallies,
        CellTallies {
            nodata: 0,
            unexpected_negative: 1,
            zero: 2,
            populated: 2,
        }
    );
}

#[test]
fn a_sentinel_that_is_not_a_number_is_matched_by_its_bits() {
    let sentinel = f32::NAN.to_bits();
    assert_eq!(classify(sentinel, sentinel), CellClass::Nodata);
    assert_eq!(classify(f32::NAN.to_bits() | 1, sentinel), CellClass::Zero);
    assert_eq!(classify(GPW_NODATA.to_bits(), sentinel), CellClass::UnexpectedNegative);
}

#[test]
fn tallies_accumulate_across_rows() {
    let mut tallies = CellTallies::default();
    for _ in 0..3 {
        let mut row = bits(&[1.0, GPW_NODATA]);
        sanitise_row(&mut row, GPW_NODATA.to_bits(), &mut tallies);
    }
    assert_eq!(tallies.populated, 3);
    assert_eq!(tallies.nodata, 3);
    assert_eq!(tallies.total(), 6);
}

fn one_of_each() -> Synthetic {
    let grid = GridShape::new(4, 1).expect("a four-cell band is a valid grid");
    Synthetic::new(grid, GPW_NODATA.to_bits(), vec![bits(&[GPW_NODATA, -1.0, 0.0, 12.5])])
        .expect("the fixture is the shape the grid declares")
}

#[test]
fn a_sentinel_and_an_unexplained_negative_both_come_out_as_zero() {
    let mut raster = one_of_each();
    let (row, values) = raster.next_row().expect("the first row");
    assert_eq!(floats(&values), [0.0, 0.0, 0.0, 12.5]);
    assert_eq!(row, 0);

    assert!(raster.next_row().is_none());
    let tallies = raster.finish();
    assert_eq!(
        tallies,
        CellTallies {
            nodata: 1,
            unexpected_negative: 1,
            zero: 1,
            populated: 1,
        }
    );
    assert_eq!(tallies.total(), 4);
}

#[test]
fn a_drained_raster_hands_out_its_grids_rows_in_order_and_then_nothing() {
    let grid = GridShape::new(360, 180).expect("a one-degree whole-globe grid is valid");
    let rows = vec![bits(&[1.0; 360]); 180];
    let mut raster = Synthetic::new(grid, GPW_NODATA.to_bits(), rows).expect("the fixture matches the grid");

    let mut seen = Vec::new();
    while let Some((row, _)) = raster.next_row() {
        seen.push(row);
    }
    assert_eq!(seen, (0..180).collect::<Vec<u32>>());
    assert!(raster.next_row().is_none());
    assert!(raster.next_row().is_none());
    assert_eq!(raster.finish().populated, 360 * 180);
}

#[test]
fn a_fixture_that_is_not_the_grids_shape_is_rejected() {
    let grid = one_of_each().shape();
    for rows in [
        vec![vec![1.0, 2.0, 3.0]],
        vec![vec![1.0; 4], vec![1.0; 4]],
        vec![vec![1.0, 2.0, 3.0, 4.0], vec![1.0, 2.0]],
        vec![],
    ] {
        let rows: Vec<Vec<u32>> = rows.iter().map(|row| bits(row)).collect();
        assert!(matches!(
            Synthetic::new(grid, GPW_NODATA.to_bits(), rows),
            Err(DimensionMismatch { .. })
        ));
    }
}

#[test]
fn a_row_shape_check_names_both_shapes() {
    let grid = GridShape::new(4, 1).expect("a four-cell band");
    for widths in [vec![3usize], vec![4, 4], vec![4, 2], vec![]] {
        assert!(matches!(check_rows(&grid, &widths), Err(DimensionMismatch { .. })), "{widths:?}");
    }
    assert_eq!(check_rows(&grid, &vec![4]), Ok(()));
    assert_eq!(
        check_rows(&grid, &vec![4, 4]),
        Err(DimensionMismatch {
            declared: (4, 1),
            found: (4, 2),
        })
    );
}

#[test]
fn the_pixel_layout_names_itself() {
    assert_eq!(PixelType::Float32.description(), "Float32 (IEEE floating point, 32 bits)");
}
