use popcircles::bracket::Bracket;
use popcircles::table::cache::{ByteOrder, HeaderRefusal, LengthError, Mismatch};
use popcircles::cli::{
    enabled, exit_code_for_header_refusal, exit_code_for_ledger_refusal, exit_code_for_length_error,
    exit_code_for_table_error, parse_log_level, sweep_failure, sweep_percents, Failure, Level, Meter,
    SweepRefusal, EXIT_BAD_INPUT, EXIT_FAILURE, EXIT_MISSING_DATA,
};
use popcircles::smallest::cache::LedgerRefusal;
use popcircles::table::TableError;
use popcircles::text::{decimal_text, hexadecimal, parse_digest};

#[test]
fn a_digest_is_read_back_in_the_spelling_a_build_prints() {
    assert_eq!(parse_digest("0x3a5d5e3b082f2fb7"), Ok(0x3a5d_5e3b_082f_2fb7));
    assert_eq!(parse_digest("3a5d5e3b082f2fb7"), Ok(0x3a5d_5e3b_082f_2fb7));
    assert!(parse_digest("0x not a digest").is_err());
    assert!(parse_digest("0x").is_err());
    assert!(parse_digest("0x1f17aa802a6890f0c").is_err());
}

#[test]
fn a_printed_digest_is_sixteen_digits_and_reads_back() {
    for digest in [0u64, 1, 0x3a5d_5e3b_082f_2fb7, u64::MAX] {
        let printed = hexadecimal(digest);
        assert_eq!(printed, format!("{digest:#018x}"));
        assert_eq!(parse_digest(&printed), Ok(digest));
    }
}

#[test]
fn a_digest_is_read_as_std_reads_base_sixteen() {
    for value in ["0x", "", "+", "-", "+ff", "-ff", "FF", "0xFfe", "g", "0x10000000000000000", "00000000000000000001", "ffffffffffffffff", "1g0000000000000000000"] {
        let digits = value.strip_prefix("0x").unwrap_or(value);
        let expected = u64::from_str_radix(digits, 16)
            .map_err(|error| format!("`{value}` is not a 64-bit hexadecimal digest: {error}"));
        assert_eq!(parse_digest(value), expected, "{value:?}");
    }
}

#[test]
fn a_number_prints_in_decimal() {
    assert_eq!(decimal_text(0), "0");
    assert_eq!(decimal_text(1234), "1234");
    assert_eq!(decimal_text(u64::MAX), u64::MAX.to_string());
}

#[test]
fn the_four_levels_parse_and_a_fifth_does_not() {
    assert_eq!(parse_log_level("error"), Ok(Level::Error));
    assert_eq!(parse_log_level("warn"), Ok(Level::Warn));
    assert_eq!(parse_log_level("info"), Ok(Level::Info));
    assert_eq!(parse_log_level("debug"), Ok(Level::Debug));

    assert!(parse_log_level("trace").is_err());
    assert!(parse_log_level("off").is_err());
    assert!(parse_log_level("nonsense").is_err());
    assert_eq!(
        parse_log_level("off"),
        Err("`off` is not a level; the levels are error, warn, info and debug".to_owned())
    );
}

#[test]
fn a_record_renders_to_the_line_a_duration_is_subtracted_from() {
    let rendered = popcircles::cli::line(1234, Level::Info, "popcircles::table", "built 18 rows");
    assert_eq!(rendered, "  1234ms INFO  popcircles::table: built 18 rows");
    assert_eq!(popcircles::cli::line(1_234_567, Level::Error, "t", "m"), "1234567ms ERROR t: m");
}

#[test]
fn a_level_filters_the_records_beneath_it() {
    assert!(!enabled(Level::Info, Level::Warn));
    assert!(enabled(Level::Error, Level::Warn));
    assert!(enabled(Level::Warn, Level::Warn));
    assert!(!enabled(Level::Trace, Level::Debug));
}

#[test]
fn a_meter_redraws_once_per_whole_percent() {
    let mut meter = Meter::new();
    assert_eq!(meter.advance(1, 0), None);
    assert_eq!(meter.advance(1, 1000), Some(0));
    assert_eq!(meter.advance(9, 1000), None);
    assert_eq!(meter.advance(10, 1000), Some(1));
    assert_eq!(meter.advance(1000, 1000), Some(100));
}

#[test]
fn a_failure_carries_the_whole_chain() {
    let chain = vec!["the cache header at x could not be read".to_owned(), "permission denied".to_owned()];
    let failure = Failure::new(EXIT_FAILURE, &chain);
    assert_eq!(failure.code, EXIT_FAILURE);
    assert_eq!(failure.message, "the cache header at x could not be read: permission denied");
    assert_eq!(Failure::new(3, &vec!["alone".to_owned()]).message, "alone");
    assert_eq!(Failure::new(3, &vec![]).message, "");
    let bad = Failure::bad_input("a coordinate off the grid".to_owned());
    assert_eq!((bad.code, bad.message.as_str()), (EXIT_BAD_INPUT, "a coordinate off the grid"));
}

#[test]
fn a_payload_that_is_not_the_grids_product_is_a_failure_saying_both_lengths() {
    let error = TableError::PayloadLength { expected: 20, found: 19 };
    assert_eq!(exit_code_for_table_error(&error), EXIT_FAILURE);
    let failure = Failure::table(&error);
    assert_eq!(failure.code, EXIT_FAILURE);
    assert_eq!(failure.message, "a padded table over this grid holds 20 cells; the payload holds 19");
}

#[test]
fn a_cache_of_another_table_is_missing_data_and_a_broken_one_is_a_failure() {
    assert_eq!(
        exit_code_for_header_refusal(&HeaderRefusal::NotThisTable(Mismatch::Digest { wanted: 1, found: 2 })),
        EXIT_MISSING_DATA
    );
    assert_eq!(
        exit_code_for_header_refusal(&HeaderRefusal::ByteOrderMismatch { expected: ByteOrder::Little, found: ByteOrder::Big }),
        EXIT_MISSING_DATA
    );
    assert_eq!(
        exit_code_for_length_error(&LengthError::Truncated { expected: 160, found: 40 }),
        EXIT_FAILURE
    );
}

#[test]
fn a_stale_ledger_is_missing_data_and_a_broken_one_is_a_failure() {
    assert_eq!(
        exit_code_for_ledger_refusal(&LedgerRefusal::<f64>::NotThisTable(Mismatch::Digest { wanted: 1, found: 2 })),
        EXIT_MISSING_DATA
    );
    assert_eq!(
        exit_code_for_ledger_refusal(&LedgerRefusal::<f64>::NotThisTable(Mismatch::DecimationFactor { wanted: 10, found: 1 })),
        EXIT_MISSING_DATA
    );
    assert_eq!(
        exit_code_for_ledger_refusal(&LedgerRefusal::DuplicateRadius { km: 500, first: 12.0, second: 13.0 }),
        EXIT_FAILURE
    );
}

#[test]
fn a_sweep_walks_whole_percent_and_ends_on_its_last_share() {
    let walk = sweep_percents(10, 90, 10).expect("a sweep from a tenth to nine tenths is a range");
    assert_eq!(walk.len(), 9);
    let values: Vec<f64> = walk.iter().map(|percent| f64::from(*percent) / 100.0).collect();
    assert_eq!(values, vec![0.1, 0.2, 0.3, 0.4, 0.5, 0.6, 0.7, 0.8, 0.9]);

    let short = sweep_percents(10, 95, 10).expect("a range whose step overshoots its end is still a range");
    assert_eq!(short.len(), 9);
    assert_eq!(short.last().map(|percent| f64::from(*percent) / 100.0), Some(0.9));

    let whole = sweep_percents(100, 100, 10).expect("a hundred percent is a share");
    assert_eq!(whole, vec![100]);
}

#[test]
fn a_sweep_with_no_step_is_refused() {
    let none = sweep_percents(10, 90, 0).expect_err("zero is not a step");
    assert_eq!(none, SweepRefusal::NoStep);
    let failure = sweep_failure(&none).expect("a relation between the flags");
    assert_eq!(failure.code, EXIT_BAD_INPUT);
    assert!(failure.message.contains("step"), "{}", failure.message);
}

#[test]
fn a_sweep_from_no_share_is_refused() {
    assert_eq!(sweep_percents(0, 90, 10), Err(SweepRefusal::NotAShare { percent: 0 }));
    assert_eq!(sweep_percents(90, 150, 10), Err(SweepRefusal::NotAShare { percent: 110 }));
    assert_eq!(sweep_failure(&SweepRefusal::NotAShare { percent: 0 }), None);
}

#[test]
fn a_sweep_that_runs_backwards_is_refused_rather_than_empty() {
    let backwards = sweep_percents(60, 40, 10).expect_err("a sweep does not run backwards");
    let failure = sweep_failure(&backwards).expect("a relation between the flags");
    assert_eq!(failure.code, EXIT_BAD_INPUT);
    assert!(failure.message.contains("60%"), "{}", failure.message);
    assert_eq!(failure.message, "a sweep runs from the smaller share to the larger; 60% is above 40%");
}

#[test]
fn a_step_near_the_top_of_the_range_ends_the_walk_rather_than_wrapping() {
    assert_eq!(sweep_percents(50, 100, u32::MAX), Ok(vec![50]));
}

#[test]
fn both_records_name_the_calling_module_and_the_end_one_carries_the_figure() {
    let mut bracket = Bracket::open("popcircles::bracket::tests", "a load");
    assert_eq!(bracket.begin_record(), "a load begins");
    bracket.figure("cells", 42);
    assert_eq!(bracket.target(), "popcircles::bracket::tests");
    assert_eq!(bracket.end_record(), "a load ends, cells 42");
    let plain = Bracket::open("t", "radius 500 km");
    assert_eq!(plain.end_record(), "radius 500 km ends");
}

#[test]
fn a_factor_that_does_not_divide_the_grid_is_bad_input_naming_both() {
    let error = TableError::Decimation { factor: 7, width: 36, height: 18 };
    assert_eq!(exit_code_for_table_error(&error), EXIT_BAD_INPUT);
    let failure = Failure::table(&error);
    assert_eq!(failure.code, EXIT_BAD_INPUT);
    assert_eq!(failure.message, "a decimation factor of 7 does not divide a 36 x 18 grid");
}
