use std::collections::BTreeMap;

use popcircles::search::{Candidate, SearchStats};
use popcircles::smallest::{
    ambiguity, climb_probes_remaining, consult, halvings, settle_radii, Ambiguity, Outcome, ProbeStep,
    RadiusLedger, RadiusSearch, RunFailure, Searched, SmallestStats, CEILING_KM,
};
use popcircles::progress::Progress;

#[derive(Debug, Default)]
struct Recorded {
    entries: BTreeMap<u32, Candidate<f64>>,
}

impl RadiusLedger<f64> for Recorded {
    type Error = ();

    fn get(&self, km: u32) -> Option<Candidate<f64>> {
        self.entries.get(&km).copied()
    }

    fn put(&mut self, km: u32, found: Candidate<f64>) -> Result<(), ()> {
        self.entries.insert(km, found);
        Ok(())
    }
}

fn candidate(row: u32, col: u32, population: f64) -> Candidate<f64> {
    Candidate { row, col, population }
}

#[test]
fn a_ledger_gives_back_the_maximum_it_was_given_and_nothing_for_a_radius_it_has_not_seen() {
    let mut ledger = Recorded::default();
    let found = candidate(3, 7, 4200.0);

    assert_eq!(ledger.get(1500), None);
    ledger.put(1500, found).unwrap();
    assert_eq!(ledger.get(1500), Some(found));
    assert_eq!(ledger.get(1499), None);
    assert_eq!(ledger.get(1501), None);
}

#[test]
fn the_no_op_ledger_records_nothing() {
    let mut none = ();
    none.put(1500, candidate(0, 0, 1.0)).unwrap();
    assert_eq!(RadiusLedger::<f64>::get(&none, 1500), None);
}

#[test]
fn halvings_close_an_interval_of_candidates() {
    assert_eq!(halvings(0), 0);
    assert_eq!(halvings(1), 0);
    assert_eq!(halvings(2), 1);
    assert_eq!(halvings(3), 2);
    assert_eq!(halvings(4), 2);
    assert_eq!(halvings(5), 3);
    assert_eq!(halvings(u32::MAX), 32);
}

#[test]
fn the_climb_bound_counts_the_doublings_left_and_the_bisection_after() {
    assert_eq!(climb_probes_remaining(1), 1 + halvings(CEILING_KM - 1) + 0);
    assert_eq!(climb_probes_remaining(1024), 1 + halvings(19) + 10);
    assert_eq!(climb_probes_remaining(CEILING_KM - 1), 1 + halvings(1) + halvings(CEILING_KM - 1));
}

/// Drives a search whose probes reach the target from `threshold` kilometres on, and answers it.
fn settle(threshold: u32) -> (Outcome<u32>, Vec<u32>) {
    let mut search = RadiusSearch::new();
    let mut probed = Vec::new();
    let mut settled = 0u64;
    while let Some(km) = search.next_probe() {
        let (done, total) = search.meter(settled);
        assert_eq!(done, settled);
        assert!(total >= done);
        probed.push(km);
        search.record(km >= threshold, km);
        settled += 1;
    }
    (search.finish(), probed)
}

#[test]
fn a_search_over_radius_answers_its_threshold_and_finds_the_kilometre_below_short() {
    for threshold in [0u32, 1, 2, 3, 1500, 1571, 4097, 20_015] {
        let (outcome, probed) = settle(threshold);
        match outcome {
            Outcome::Reached { radius_km, best, short_below } => {
                assert_eq!(radius_km, threshold);
                assert_eq!(best, threshold);
                if threshold == 0 {
                    assert_eq!(short_below, None);
                } else {
                    assert_eq!(short_below, Some((threshold - 1, threshold - 1)));
                }
            }
            Outcome::Ceiling { .. } => panic!("{threshold} km is under the ceiling"),
        }
        let mut distinct = probed.clone();
        distinct.sort_unstable();
        distinct.dedup();
        assert_eq!(distinct.len(), probed.len(), "no radius is probed twice");
    }
}

#[test]
fn a_search_over_radius_that_nothing_reaches_is_answered_at_the_ceiling() {
    let (outcome, probed) = settle(u32::MAX);
    match outcome {
        Outcome::Ceiling { short_below } => {
            assert_eq!(short_below, Some((CEILING_KM - 1, CEILING_KM - 1)));
        }
        Outcome::Reached { radius_km, .. } => panic!("answered at {radius_km} km"),
    }
    assert_eq!(probed.last(), Some(&(CEILING_KM - 1)));
}

#[test]
fn the_stats_of_a_resumed_run_move_from_evaluated_to_reused() {
    let mut stats = SmallestStats::default();
    stats.count_reused();
    let searched = SearchStats { levels: 3, blocks_examined: 10, blocks_pruned: 4, circles_evaluated: 6, kernels_built: 2 };
    stats.count_searched(searched);
    stats.count_searched(searched);
    assert_eq!(stats.radii_reused, 1);
    assert_eq!(stats.radii_evaluated, 2);
    assert_eq!(stats.radii_settled(), 3);
    assert_eq!(stats.searched.blocks_examined, 20);
    assert_eq!(stats.searched.levels, 6);
}

#[test]
fn the_climb_doubles_from_one_kilometre_and_the_bisection_halves_the_bracket_it_closed() {
    let (_, probed) = settle(5);
    assert_eq!(probed, vec![1, 2, 4, 8, 6, 5]);
    let (_, probed) = settle(1);
    assert_eq!(probed, vec![1, 0]);
}

#[test]
fn a_recorded_radius_is_reused_and_counts_nothing_searched() {
    let mut stats = SmallestStats::default();
    let found = candidate(3, 7, 4200.0);
    assert_eq!(consult(Some(found), &mut stats), ProbeStep::Reuse(found));
    assert_eq!(stats.radii_reused, 1);
    assert_eq!(stats.radii_evaluated, 0);
    assert_eq!(stats.searched, SearchStats::default());

    let before = stats;
    assert_eq!(consult::<f64>(None, &mut stats), ProbeStep::Search);
    assert_eq!(stats, before);
}

#[test]
fn a_warm_ledger_answers_every_probe_and_nothing_is_searched() {
    let mut ledger = Recorded::default();
    for km in 0..=CEILING_KM {
        ledger.put(km, candidate(0, 0, f64::from(km))).unwrap();
    }
    let mut stats = SmallestStats::default();
    let mut search = RadiusSearch::new();
    while let Some(km) = search.next_probe() {
        match consult(ledger.get(km), &mut stats) {
            ProbeStep::Reuse(found) => search.record(found.population >= 1500.0, found),
            ProbeStep::Search => panic!("{km} km was searched with a warm ledger"),
        }
    }
    assert_eq!(stats.radii_evaluated, 0);
    assert!(stats.radii_reused > 0);
    match search.finish() {
        Outcome::Reached { radius_km, .. } => assert_eq!(radius_km, 1500),
        Outcome::Ceiling { .. } => panic!("1500 km is under the ceiling"),
    }
}

#[test]
fn the_unseparated_probes_are_spanned_and_counted() {
    assert_eq!(ambiguity(&vec![]), None);
    assert_eq!(ambiguity(&vec![(1, false), (2, false), (4, false)]), None);
    assert_eq!(
        ambiguity(&vec![(1, false), (2048, true), (1536, false), (1792, true), (1572, true)]),
        Some(Ambiguity { lowest_km: 1572, highest_km: 2048, radii: 3 })
    );
    assert_eq!(
        ambiguity(&vec![(8, true)]),
        Some(Ambiguity { lowest_km: 8, highest_km: 8, radii: 1 })
    );
}

#[derive(Debug, Default)]
struct Heard {
    calls: Vec<(u64, u64)>,
}

impl Progress for Heard {
    fn advance(&mut self, done: u64, total: u64) {
        self.calls.push((done, total));
    }
}

fn searched_at(km: u32) -> Result<Searched<f64>, ()> {
    Ok(Searched {
        centre: candidate(km, 0, f64::from(km)),
        stats: SearchStats { levels: 1, blocks_examined: 2, blocks_pruned: 1, circles_evaluated: 1, kernels_built: 1 },
    })
}

fn answered_at(outcome: &Outcome<Candidate<f64>>) -> u32 {
    match outcome {
        Outcome::Reached { radius_km, .. } => *radius_km,
        Outcome::Ceiling { .. } => CEILING_KM,
    }
}

#[test]
fn the_sink_hears_each_settled_radius_and_a_total_that_never_rises_after_falling() {
    let mut heard = Heard::default();
    let mut ledger = Recorded::default();
    let settled = settle_radii(&mut ledger, &mut heard, searched_at, |found: Candidate<f64>| {
        found.population >= 1571.0
    })
    .expect("nothing fails");
    assert_eq!(answered_at(&settled.outcome), 1571);
    let n = settled.stats.radii_settled();
    assert_eq!(heard.calls.len() as u64, n + 1);
    for (i, (done, total)) in heard.calls.iter().enumerate() {
        assert_eq!(*done, i as u64);
        assert!(total >= done);
    }
    assert_eq!(heard.calls.last(), Some(&(n, n)));
    let first_fall = heard.calls.windows(2).position(|pair| pair[1].1 < pair[0].1);
    if let Some(at) = first_fall {
        assert!(heard.calls[at..].windows(2).all(|pair| pair[1].1 <= pair[0].1));
    }
    assert_eq!(settled.stats.radii_evaluated, n);
    assert_eq!(settled.stats.searched.levels as u64, n);
    assert_eq!(ledger.entries.len() as u64, n);
}

#[test]
fn a_resumed_run_reuses_what_an_interrupted_one_recorded_and_answers_alike() {
    let reaches = |found: Candidate<f64>| found.population >= 4097.0;
    let mut whole = Recorded::default();
    let uninterrupted = settle_radii(&mut whole, &mut (), searched_at, reaches).expect("nothing fails");

    // A run that stops after its first four searches leaves those four in its ledger.
    let mut partial = Recorded::default();
    let searches = std::cell::Cell::new(0u32);
    let interrupted = settle_radii(
        &mut partial,
        &mut (),
        |km: u32| {
            searches.set(searches.get() + 1);
            if searches.get() > 4 { Err(()) } else { searched_at(km) }
        },
        reaches,
    );
    assert!(matches!(interrupted, Err(RunFailure::Search(()))));
    assert_eq!(partial.entries.len(), 4);

    let resumed = settle_radii(&mut partial, &mut (), searched_at, reaches).expect("nothing fails");
    assert_eq!(answered_at(&resumed.outcome), answered_at(&uninterrupted.outcome));
    assert_eq!(resumed.stats.radii_reused, 4);
    assert_eq!(
        resumed.stats.radii_reused + resumed.stats.radii_evaluated,
        uninterrupted.stats.radii_evaluated
    );

    let warm = settle_radii(&mut whole, &mut (), searched_at, reaches).expect("nothing fails");
    assert_eq!(warm.stats.radii_evaluated, 0);
    assert_eq!(answered_at(&warm.outcome), 4097);
}

/// A ledger that refuses every put once it holds `room` radii.
#[derive(Debug)]
struct FailsAfter {
    room: usize,
    entries: BTreeMap<u32, Candidate<f64>>,
}

impl RadiusLedger<f64> for FailsAfter {
    type Error = &'static str;

    fn get(&self, km: u32) -> Option<Candidate<f64>> {
        self.entries.get(&km).copied()
    }

    fn put(&mut self, km: u32, found: Candidate<f64>) -> Result<(), &'static str> {
        if self.entries.len() >= self.room {
            return Err("stopped");
        }
        self.entries.insert(km, found);
        Ok(())
    }
}

#[test]
fn a_ledger_that_stops_recording_ends_the_run_with_its_error_and_a_resumed_run_reuses_what_it_kept() {
    let reaches = |found: Candidate<f64>| found.population >= 1571.0;
    let mut stopping = FailsAfter { room: 3, entries: BTreeMap::new() };
    let stopped = settle_radii(&mut stopping, &mut (), searched_at, reaches);
    assert!(matches!(stopped, Err(RunFailure::Ledger("stopped"))));
    assert_eq!(stopping.entries.len(), 3);

    let uninterrupted = settle_radii(&mut (), &mut (), searched_at, reaches).expect("nothing fails");
    let mut seeded = Recorded { entries: stopping.entries.clone() };
    let resumed = settle_radii(&mut seeded, &mut (), searched_at, reaches).expect("nothing fails");
    assert_eq!(resumed.stats.radii_reused, 3);
    assert_eq!(resumed.stats.radii_evaluated, uninterrupted.stats.radii_settled() - 3);
    assert_eq!(answered_at(&resumed.outcome), answered_at(&uninterrupted.outcome));
    assert_eq!(answered_at(&resumed.outcome), 1571);
}

#[test]
fn a_sink_that_keeps_its_calls_hears_one_per_settled_radius_and_the_closing_pair() {
    let mut heard: Vec<(u64, u64)> = Vec::new();
    let settled = settle_radii(&mut (), &mut heard, searched_at, |found: Candidate<f64>| {
        found.population >= 4097.0
    })
    .expect("nothing fails");
    let n = settled.stats.radii_settled();
    assert_eq!(heard.len() as u64, n + 1);
    assert!(heard.iter().enumerate().all(|(i, (done, total))| *done == i as u64 && total >= done));
    assert_eq!(heard.last(), Some(&(n, n)));
}
