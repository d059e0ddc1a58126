use popcircles::table::cache::{
    check_header, check_header_version, check_length, payload_bytes, suffixed, Attested, ByteOrder, Cache, HeaderRefusal,
    Identity, LengthError, Mismatch, Payload, FORMAT_VERSION,
};
use popcircles::smallest::cache::{check_version, Ledger, LedgerRefusal, Probe, FORMAT_VERSION as LEDGER_FORMAT_VERSION};
use popcircles::search::{Candidate, SearchStats};
use popcircles::smallest::{settle_radii, Outcome, Searched};

const DIGEST: u64 = 0x3a5d_5e3b_082f_2fb7;

fn identity(width: u32, height: u32) -> Identity {
    Identity { digest: DIGEST, factor: 1, width, height }
}

fn header_check(version: u32, attested: &Attested, wanted: &Identity) -> Result<(), HeaderRefusal> {
    let host = ByteOrder::host();
    check_header(version, host, host, attested, wanted)
}

#[test]
fn a_digest_from_other_cells_is_refused() {
    let wanted = identity(4, 3);
    let mut attested = Attested::new(&wanted);
    attested.digest ^= 1;
    assert!(matches!(
        header_check(FORMAT_VERSION, &attested, &wanted),
        Err(HeaderRefusal::NotThisTable(Mismatch::Digest { wanted, found }))
            if wanted == DIGEST && found == DIGEST ^ 1
    ));
}

#[test]
fn a_width_that_is_not_the_tables_is_refused() {
    let wanted = identity(4, 3);
    let mut attested = Attested::new(&wanted);
    attested.width += 1;
    assert!(matches!(
        header_check(FORMAT_VERSION, &attested, &wanted),
        Err(HeaderRefusal::NotThisTable(Mismatch::Width { wanted: 4, found: 5 }))
    ));
}

#[test]
fn a_height_that_is_not_the_tables_is_refused() {
    let wanted = identity(4, 3);
    let mut attested = Attested::new(&wanted);
    attested.height += 1;
    assert!(matches!(
        header_check(FORMAT_VERSION, &attested, &wanted),
        Err(HeaderRefusal::NotThisTable(Mismatch::Height { wanted: 3, found: 4 }))
    ));
}

#[test]
fn a_decimation_factor_that_is_not_the_tables_is_refused() {
    let wanted = identity(4, 3);
    let mut attested = Attested::new(&wanted);
    attested.decimation = 2;
    assert!(matches!(
        header_check(FORMAT_VERSION, &attested, &wanted),
        Err(HeaderRefusal::NotThisTable(Mismatch::DecimationFactor { wanted: 1, found: 2 }))
    ));
}

#[test]
fn a_format_version_from_another_release_is_refused() {
    let wanted = identity(4, 3);
    let mut attested = Attested::new(&wanted);
    attested.digest ^= 1;
    assert!(matches!(
        header_check(FORMAT_VERSION + 1, &attested, &wanted),
        Err(HeaderRefusal::FormatVersion { expected, found })
            if expected == FORMAT_VERSION && found == FORMAT_VERSION + 1
    ));
}

#[test]
fn a_payload_from_a_host_of_the_other_byte_order_is_refused() {
    let wanted = identity(4, 3);
    let attested = Attested::new(&wanted);
    let host = ByteOrder::host();
    let other = match host {
        ByteOrder::Little => ByteOrder::Big,
        ByteOrder::Big => ByteOrder::Little,
    };
    assert_eq!(
        check_header(FORMAT_VERSION, other, host, &attested, &wanted),
        Err(HeaderRefusal::ByteOrderMismatch { expected: host, found: other })
    );
}

#[test]
fn an_attestation_accepts_the_identity_it_was_built_from() {
    let wanted = identity(5, 4);
    assert_eq!(Attested::new(&wanted).check(&wanted), Ok(()));
    assert_eq!(header_check(FORMAT_VERSION, &Attested::new(&wanted), &wanted), Ok(()));
}

#[test]
fn each_ground_is_reported_as_the_field_that_differs() {
    let wanted = identity(4, 3);
    let exact = Attested::new(&wanted);
    let grounds = [
        (Attested { digest: 1, ..exact }, Mismatch::Digest { wanted: DIGEST, found: 1 }),
        (Attested { width: 8, ..exact }, Mismatch::Width { wanted: 4, found: 8 }),
        (Attested { height: 6, ..exact }, Mismatch::Height { wanted: 3, found: 6 }),
        (Attested { decimation: 2, ..exact }, Mismatch::DecimationFactor { wanted: 1, found: 2 }),
    ];
    for (found, ground) in grounds {
        assert_eq!(found.check(&wanted), Err(ground));
    }
}

#[test]
fn the_host_is_the_order_this_machine_stores_integers_in() {
    let expected = if u16::from_ne_bytes([1, 0]) == 1 { ByteOrder::Little } else { ByteOrder::Big };
    assert_eq!(ByteOrder::host(), expected);
    assert_eq!(ByteOrder::Little.name(), "little-endian");
    assert_eq!(ByteOrder::Big.name(), "big-endian");
}

#[test]
fn both_files_and_their_temporaries_are_the_base_with_a_suffix() {
    let cache = Cache::new("out/table");
    assert_eq!(cache.header_path(), "out/table.header.json");
    assert_eq!(cache.payload_path(), "out/table.payload.bin");
    assert_eq!(cache.header_temporary_path(), "out/table.header.json.tmp");
    assert_eq!(cache.payload_temporary_path(), "out/table.payload.bin.tmp");
    assert_eq!(suffixed("a", ".b"), "a.b");
}

#[test]
fn a_writer_refuses_to_publish_a_payload_of_another_shape() {
    let expected = payload_bytes(20);
    assert_eq!(expected, 160);
    assert_eq!(
        check_length(expected, payload_bytes(5)),
        Err(LengthError::Truncated { expected: 160, found: 40 })
    );
    assert_eq!(
        check_length(expected, payload_bytes(21)),
        Err(LengthError::Trailing { expected: 160, found: 168 })
    );
    assert_eq!(check_length(expected, payload_bytes(20)), Ok(()));
}

#[test]
fn a_cell_count_past_the_address_space_saturates() {
    assert_eq!(payload_bytes(usize::MAX), usize::MAX);
    assert_eq!(payload_bytes(usize::MAX / 8 + 1), usize::MAX);
}

#[test]
fn a_payload_truncated_mid_element_or_carrying_trailing_bytes_is_refused() {
    let short = Payload::new(vec![0u8; 20 * 8 - 3], 20);
    assert_eq!(short.check(), Err(LengthError::Truncated { expected: 160, found: 157 }));
    let long = Payload::new(vec![0u8; 20 * 8 + 1], 20);
    assert_eq!(long.check(), Err(LengthError::Trailing { expected: 160, found: 161 }));
    let exact = Payload::new(vec![0u8; 160], 20);
    assert_eq!(exact.check(), Ok(()));
    assert_eq!(exact.bytes().len(), 160);
    assert_eq!(exact.cells(), 20);
}

fn candidate(row: u32, col: u32, population: f64) -> Candidate<f64> {
    Candidate { row, col, population }
}

/// Three probes with distinct populations, so a row read back at the wrong offset shows up as a wrong
/// maximum rather than as a coincidence.
fn fill(ledger: &mut Ledger<f64>) {
    for (km, row, col, population) in [(0u32, 0u32, 0u32, 1.5f64), (1571, 2, 3, 300.25), (1572, 2, 3, 400.5)] {
        ledger.insert(km, candidate(row, col, population));
    }
}

fn reopen(written: &Ledger<f64>, wanted: Identity, attested: &Attested) -> Result<Ledger<f64>, LedgerRefusal<f64>> {
    Ledger::load(written.path(), wanted, attested, &written.records())
}

#[test]
fn a_ledger_where_nothing_exists_is_empty() {
    let ledger: Ledger<f64> = Ledger::empty("out/radii.json", identity(4, 3));
    assert!(ledger.is_empty());
    assert_eq!(ledger.len(), 0);
    assert_eq!(ledger.path(), "out/radii.json");
    assert_eq!(ledger.temporary(), "out/radii.json.tmp");
}

#[test]
fn every_probe_survives_the_round_trip() {
    let wanted = identity(8, 6);
    let mut written = Ledger::empty("out/radii.json", wanted);
    fill(&mut written);

    let reopened = reopen(&written, wanted, &Attested::new(&wanted)).expect("what was written reads back");
    assert_eq!(reopened.len(), 3);
    for km in [0u32, 1571, 1572] {
        let before = written.get(km).expect("a radius that was put");
        let after = reopened.get(km).expect("a radius that was written");
        assert_eq!(after.population.to_bits(), before.population.to_bits());
        assert_eq!(after.row, before.row);
        assert_eq!(after.col, before.col);
    }
    assert_eq!(reopened.get(1570), None);
}

#[test]
fn records_ascend_by_radius_whatever_order_they_were_put_in() {
    let mut ledger = Ledger::empty("r", identity(8, 6));
    for km in [900u32, 3, 50, 7000, 1] {
        ledger.insert(km, candidate(1, 1, f64::from(km)));
    }
    let radii: Vec<u32> = ledger.records().iter().map(|probe| probe.km).collect();
    assert_eq!(radii, vec![1, 3, 50, 900, 7000]);
}

#[test]
fn a_later_put_at_a_radius_replaces_the_earlier_one() {
    let mut ledger = Ledger::empty("r", identity(8, 6));
    assert_eq!(ledger.insert(500, candidate(1, 2, 42.0)), None);
    assert_eq!(ledger.insert(500, candidate(3, 4, 43.0)), Some(candidate(1, 2, 42.0)));
    assert_eq!(ledger.get(500), Some(candidate(3, 4, 43.0)));
    assert_eq!(ledger.len(), 1);
}

#[test]
fn cache_a_format_version_from_another_release_is_refused() {
    assert_eq!(
        check_version::<f64>(LEDGER_FORMAT_VERSION + 1),
        Err(LedgerRefusal::FormatVersion { expected: LEDGER_FORMAT_VERSION, found: LEDGER_FORMAT_VERSION + 1 })
    );
    assert_eq!(check_version::<f64>(LEDGER_FORMAT_VERSION), Ok(()));
    assert_eq!(check_version::<f64>(1), Err(LedgerRefusal::FormatVersion { expected: 2, found: 1 }));
}

#[test]
fn cache_a_digest_from_other_cells_is_refused() {
    let wanted = identity(4, 3);
    let ledger: Ledger<f64> = Ledger::empty("r", wanted);
    let attested = Attested { digest: DIGEST ^ 1, ..Attested::new(&wanted) };
    assert!(matches!(
        reopen(&ledger, wanted, &attested),
        Err(LedgerRefusal::NotThisTable(Mismatch::Digest { wanted, found }))
            if wanted == DIGEST && found == DIGEST ^ 1
    ));
}

#[test]
fn cache_a_width_that_is_not_the_tables_is_refused() {
    let wanted = identity(4, 3);
    let ledger: Ledger<f64> = Ledger::empty("r", wanted);
    let attested = Attested { width: 5, ..Attested::new(&wanted) };
    assert!(matches!(
        reopen(&ledger, wanted, &attested),
        Err(LedgerRefusal::NotThisTable(Mismatch::Width { wanted: 4, found: 5 }))
    ));
}

#[test]
fn cache_a_height_that_is_not_the_tables_is_refused() {
    let wanted = identity(4, 3);
    let ledger: Ledger<f64> = Ledger::empty("r", wanted);
    let attested = Attested { height: 4, ..Attested::new(&wanted) };
    assert!(matches!(
        reopen(&ledger, wanted, &attested),
        Err(LedgerRefusal::NotThisTable(Mismatch::Height { wanted: 3, found: 4 }))
    ));
}

#[test]
fn cache_a_decimation_factor_that_is_not_the_tables_is_refused() {
    let wanted = identity(4, 3);
    let ledger: Ledger<f64> = Ledger::empty("r", wanted);
    let attested = Attested { decimation: 2, ..Attested::new(&wanted) };
    assert!(matches!(
        reopen(&ledger, wanted, &attested),
        Err(LedgerRefusal::NotThisTable(Mismatch::DecimationFactor { wanted: 1, found: 2 }))
    ));
}

#[test]
fn a_centre_that_is_not_a_cell_of_the_grid_is_refused() {
    let wanted = identity(4, 3);
    let probes = vec![Probe { km: 500, population: 12.0, row: 1, col: 9 }];
    assert!(matches!(
        Ledger::load("r", wanted, &Attested::new(&wanted), &probes),
        Err(LedgerRefusal::CentreOffGrid { row: 1, col: 9, width: 4, height: 3 })
    ));
}

#[test]
fn the_same_radius_recorded_twice_is_refused() {
    let wanted = identity(4, 3);
    let probes = vec![
        Probe { km: 500, population: 12.0, row: 1, col: 2 },
        Probe { km: 500, population: 13.0, row: 1, col: 2 },
    ];
    assert!(matches!(
        Ledger::load("r", wanted, &Attested::new(&wanted), &probes),
        Err(LedgerRefusal::DuplicateRadius { km: 500, first, second }) if first == 12.0 && second == 13.0
    ));
}

#[test]
fn the_bytes_of_one_name_their_order_and_no_other_pair_names_one() {
    assert_eq!(ByteOrder::of_one([1, 0]), Some(ByteOrder::Little));
    assert_eq!(ByteOrder::of_one([0, 1]), Some(ByteOrder::Big));
    assert_eq!(ByteOrder::of_one([1, 1]), None);
    assert_eq!(ByteOrder::of_one([0, 0]), None);
    assert_eq!(ByteOrder::of_one(1u16.to_ne_bytes()), Some(ByteOrder::host()));
}

#[test]
fn a_loaded_ledger_publishes_through_the_temporary_beside_it() {
    let wanted = identity(8, 6);
    let mut written = Ledger::empty("out/radii.json", wanted);
    fill(&mut written);
    let reopened = reopen(&written, wanted, &Attested::new(&wanted)).expect("what was written reads back");
    assert_eq!(reopened.path(), "out/radii.json");
    assert_eq!(reopened.temporary(), "out/radii.json.tmp");
}

#[test]
fn a_header_version_is_refused_before_the_rest_of_the_header_is_read() {
    assert_eq!(check_header_version(FORMAT_VERSION), Ok(()));
    assert_eq!(
        check_header_version(FORMAT_VERSION + 1),
        Err(HeaderRefusal::FormatVersion { expected: FORMAT_VERSION, found: FORMAT_VERSION + 1 })
    );
}

#[test]
fn a_run_over_a_ledger_in_memory_keeps_every_radius_and_a_rerun_searches_nothing() {
    let mut ledger: Ledger<f64> = Ledger::empty("out/radii.json", identity(8, 6));
    let reaches = |found: Candidate<f64>| found.population >= 300.0;
    let search = |km: u32| -> Result<Searched<f64>, ()> {
        Ok(Searched {
            centre: Candidate { row: 1, col: 2, population: f64::from(km) },
            stats: SearchStats { levels: 2, blocks_examined: 3, blocks_pruned: 1, circles_evaluated: 2, kernels_built: 1 },
        })
    };
    let first = settle_radii(&mut ledger, &mut (), search, reaches).expect("nothing fails");
    assert_eq!(ledger.len() as u64, first.stats.radii_evaluated);
    assert_eq!(first.stats.radii_reused, 0);
    for (km, found) in &first.probes {
        assert_eq!(ledger.get(*km), Some(*found));
    }

    let again = settle_radii(&mut ledger, &mut (), search, reaches).expect("nothing fails");
    assert_eq!(again.stats.radii_evaluated, 0);
    assert_eq!(again.stats.radii_reused, first.stats.radii_settled());
    assert_eq!(again.stats.searched, SearchStats::default());
    match (first.outcome, again.outcome) {
        (Outcome::Reached { radius_km: a, .. }, Outcome::Reached { radius_km: b, .. }) => {
            assert_eq!(a, 300);
            assert_eq!(b, 300);
        }
        _ => panic!("300 km is under the ceiling"),
    }
}
