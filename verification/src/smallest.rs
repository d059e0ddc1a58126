pub mod cache;

use vstd::prelude::*;

use crate::progress::Progress;
use crate::search::{Candidate, SearchStats};

verus! {

/// The radius at which a circle is the whole grid, in kilometres, and the top of every bracket.
pub const CEILING_KM: u32 = 20_016;

/// `2^n`, for stating how many halvings close an interval.
pub open spec fn two_to(n: nat) -> nat
    decreases n,
{
    if n == 0 {
        1
    } else {
        2 * two_to((n - 1) as nat)
    }
}

/// `⌈log₂ width⌉`, and zero for an interval of at most one candidate.
pub open spec fn spec_halvings(width: nat) -> nat
    decreases width,
{
    if width <= 1 {
        0
    } else {
        1 + spec_halvings(((width + 1) / 2) as nat)
    }
}

proof fn lemma_halvings_bounded(width: nat, n: nat)
    requires
        width <= two_to(n),
    ensures
        spec_halvings(width) <= n,
    decreases width,
{
    if width > 1 {
        assert(n > 0);
        lemma_halvings_bounded(((width + 1) / 2) as nat, (n - 1) as nat);
    }
}

proof fn lemma_two_to_32()
    ensures
        two_to(32) == 0x1_0000_0000,
{
    reveal_with_fuel(two_to, 33);
}

/// How many halvings close an interval of `width` candidates.
pub fn halvings(width: u32) -> (k: u32)
    ensures
        k == spec_halvings(width as nat),
        k <= 32,
{
    proof {
        lemma_two_to_32();
        lemma_halvings_bounded(width as nat, 32);
    }
    let mut w = width;
    let mut k: u32 = 0;
    while w > 1
        invariant
            k + spec_halvings(w as nat) == spec_halvings(width as nat),
            spec_halvings(width as nat) <= 32,
        decreases w,
    {
        w = w / 2 + w % 2;
        k = k + 1;
    }
    k
}


/// Halving a wider interval takes at least as many rounds.
pub proof fn lemma_halvings_monotone(a: nat, b: nat)
    requires
        a <= b,
    ensures
        spec_halvings(a) <= spec_halvings(b),
    decreases b,
{
    if a > 1 {
        lemma_halvings_monotone(((a + 1) / 2) as nat, ((b + 1) / 2) as nat);
    }
}

/// The top of the climb: the ceiling itself is not a radius the climb searches.
pub open spec fn climb_cap() -> u32 {
    (CEILING_KM - 1) as u32
}

/// The bound [`climb_probes_remaining`] computes.
pub open spec fn spec_climb_remaining(km: u32) -> nat {
    let k: u32 = if km == 0 { 1 } else { km };
    1 + spec_halvings((climb_cap() / k) as nat) + spec_halvings(km as nat)
}

/// An upper bound on the probes still to come once `km` is the next one the climb will take.
pub fn climb_probes_remaining(km: u32) -> (n: u32)
    ensures
        n == spec_climb_remaining(km),
        n <= 65,
{
    let cap = CEILING_KM - 1;
    let divisor = if km == 0 { 1 } else { km };
    let doublings = 1 + halvings(cap / divisor);
    doublings + halvings(km)
}

/// `a + b`, or `max` when that is more.
pub open spec fn saturating(a: int, b: int, max: int) -> int {
    if a + b <= max {
        a + b
    } else {
        max
    }
}

fn add_u64(a: u64, b: u64) -> (sum: u64)
    ensures
        sum == saturating(a as int, b as int, u64::MAX as int),
{
    if a <= u64::MAX - b {
        a + b
    } else {
        u64::MAX
    }
}

fn add_u32(a: u32, b: u32) -> (sum: u32)
    ensures
        sum == saturating(a as int, b as int, u32::MAX as int),
{
    if a <= u32::MAX - b {
        a + b
    } else {
        u32::MAX
    }
}

/// The counters of `total` with those of `more` added to them, each stopping at its type's largest value.
pub open spec fn added(total: SearchStats, more: SearchStats) -> SearchStats {
    SearchStats {
        levels: saturating(total.levels as int, more.levels as int, u32::MAX as int) as u32,
        blocks_examined: saturating(
            total.blocks_examined as int,
            more.blocks_examined as int,
            u64::MAX as int,
        ) as u64,
        blocks_pruned: saturating(total.blocks_pruned as int, more.blocks_pruned as int, u64::MAX as int) as u64,
        circles_evaluated: saturating(
            total.circles_evaluated as int,
            more.circles_evaluated as int,
            u64::MAX as int,
        ) as u64,
        kernels_built: saturating(total.kernels_built as int, more.kernels_built as int, u64::MAX as int) as u64,
    }
}

/// Counters that count nothing: what no search did.
pub open spec fn nothing_searched() -> SearchStats {
    SearchStats { levels: 0, blocks_examined: 0, blocks_pruned: 0, circles_evaluated: 0, kernels_built: 0 }
}

/// The counters of every search in `searched` added up, in order.
pub open spec fn tallied(searched: Seq<SearchStats>) -> SearchStats
    decreases searched.len(),
{
    if searched.len() == 0 {
        nothing_searched()
    } else {
        added(tallied(searched.drop_last()), searched.last())
    }
}

/// What a search over radius did beside answering.
#[derive(Debug, Clone, Copy, PartialEq, Eq, Default)]
pub struct SmallestStats {
    pub radii_evaluated: u64,
    pub radii_reused: u64,
    pub searched: SearchStats,
}

impl SmallestStats {
    /// A radius answered from a previous run's record: it adds to none of the search counters, because
    /// no search ran.
    pub fn count_reused(&mut self)
        requires
            old(self).radii_reused < u64::MAX,
        ensures
            *final(self) == (SmallestStats { radii_reused: (old(self).radii_reused + 1) as u64, ..*old(self) }),
    {
        self.radii_reused = self.radii_reused + 1;
    }

    /// A radius searched, and what the search did, with every search counter stopping at its type's
    /// largest value rather than wrapping.
    pub fn count_searched(&mut self, searched: SearchStats)
        requires
            old(self).radii_evaluated < u64::MAX,
        ensures
            final(self).radii_evaluated == old(self).radii_evaluated + 1,
            final(self).radii_reused == old(self).radii_reused,
            final(self).searched == added(old(self).searched, searched),
    {
        self.radii_evaluated = self.radii_evaluated + 1;
        self.searched.levels = add_u32(self.searched.levels, searched.levels);
        self.searched.blocks_examined = add_u64(self.searched.blocks_examined, searched.blocks_examined);
        self.searched.blocks_pruned = add_u64(self.searched.blocks_pruned, searched.blocks_pruned);
        self.searched.circles_evaluated = add_u64(
            self.searched.circles_evaluated,
            searched.circles_evaluated,
        );
        self.searched.kernels_built = add_u64(self.searched.kernels_built, searched.kernels_built);
    }

    /// Radii the run settled, however it settled them.
    pub fn radii_settled(self) -> (n: u64)
        requires
            self.radii_evaluated + self.radii_reused <= u64::MAX,
        ensures
            n == self.radii_evaluated + self.radii_reused,
    {
        self.radii_evaluated + self.radii_reused
    }
}


proof fn lemma_halvings_double(m: nat)
    requires
        m >= 1,
    ensures
        spec_halvings(2 * m) == spec_halvings(m) + 1,
{
    assert((2 * m + 1) / 2 == m);
}

proof fn lemma_halvings_step(m: nat)
    requires
        m >= 1,
    ensures
        spec_halvings(m + 1) <= spec_halvings(m) + 1,
{
    lemma_halvings_monotone(m + 1, 2 * m);
    lemma_halvings_double(m);
}

/// A short probe that keeps the climb going leaves at most one fewer probe to come than before it, so a
/// meter's total does not fall while the climb lasts.
proof fn lemma_climbing_keeps_the_bound(km: u32)
    requires
        1 <= km < climb_cap(),
    ensures
        spec_climb_remaining(km) <= spec_climb_remaining(
            if 2 * km <= climb_cap() {
                (2 * km) as u32
            } else {
                climb_cap()
            },
        ) + 1,
{
    let cap = climb_cap();
    let x = (cap / km) as nat;
    if 2 * km <= cap {
        vstd::arithmetic::div_mod::lemma_div_denominator(cap as int, km as int, 2);
        assert(cap / ((2 * km) as u32) == x / 2);
        assert(x >= 2) by {
            vstd::arithmetic::div_mod::lemma_div_is_ordered_by_denominator(cap as int, km as int, 2 * km);
            assert(cap as int / (2 * km) >= 1) by {
                vstd::arithmetic::div_mod::lemma_div_is_ordered(2 * km, cap as int, 2 * km);
                vstd::arithmetic::div_mod::lemma_div_basics(2 * km);
            }
        }
        lemma_halvings_double(km as nat);
        lemma_halvings_step(x / 2);
        assert((x + 1) / 2 <= x / 2 + 1);
        lemma_halvings_monotone(((x + 1) / 2) as nat, (x / 2 + 1) as nat);
    } else {
        assert(cap / km == 1) by {
            vstd::arithmetic::div_mod::lemma_div_is_ordered(km as int, cap as int, km as int);
            vstd::arithmetic::div_mod::lemma_div_basics(km as int);
            assert(cap / km < 2) by {
                if cap / km >= 2 {
                    vstd::arithmetic::div_mod::lemma_fundamental_div_mod(cap as int, km as int);
                    vstd::arithmetic::mul::lemma_mul_inequality(2, cap as int / km as int, km as int);
                    vstd::arithmetic::mul::lemma_mul_is_commutative(km as int, cap as int / km as int);
                }
            }
        }
        lemma_halvings_monotone(km as nat, cap as nat);
        assert(cap / cap == 1);
    }
}

/// A climb that reaches at `km`, with every radius under `floor` short, leaves fewer probes to come: none
/// when nothing lies between, and a bisection of `floor..=km` otherwise.
proof fn lemma_closing_the_climb_lowers_the_bound(km: u32, floor: u32)
    requires
        1 <= km <= climb_cap(),
        floor <= km,
        floor == 0 ==> km == 1,
    ensures
        1 <= spec_climb_remaining(km),
        floor < km ==> spec_halvings((km - floor + 1) as nat) + 1 <= spec_climb_remaining(km),
{
    if floor > 0 {
        lemma_halvings_monotone((km - floor + 1) as nat, km as nat);
    } else {
        reveal_with_fuel(spec_halvings, 3);
        assert(spec_halvings(2) == 1);
        assert(spec_halvings((climb_cap() / 1) as nat) >= 1);
    }
}

/// What to do for a radius about to be probed: answer it from a previous run's record, or search it.
#[derive(Debug, Clone, Copy, PartialEq)]
pub enum ProbeStep<P> {
    /// The ledger holds the maximum at this radius; no search runs.
    Reuse(Candidate<P>),
    /// The ledger holds nothing at this radius; search it, record what the search found, and count it.
    Search,
}

/// The ledger is read before the search and never after: what it recorded at a radius answers that radius
/// and counts as reused, and only a radius it holds nothing for is searched. A reused radius adds nothing to
/// any of the search counters, because no search ran.
pub fn consult<P: Copy>(recorded: Option<Candidate<P>>, stats: &mut SmallestStats) -> (step: ProbeStep<P>)
    requires
        old(stats).radii_reused < u64::MAX,
    ensures
        recorded matches Some(c) ==> step == ProbeStep::Reuse(c) && *final(stats) == (SmallestStats {
            radii_reused: (old(stats).radii_reused + 1) as u64,
            ..*old(stats)
        }),
        recorded is None ==> step is Search && *final(stats) == *old(stats),
{
    match recorded {
        Some(found) => {
            stats.count_reused();
            ProbeStep::Reuse(found)
        },
        None => ProbeStep::Search,
    }
}

/// The probed radii whose comparison against the target fell inside the summation slack, so that the
/// arithmetic cannot separate them from it: the lowest and highest such radius and how many there were.
///
/// A floor on the ambiguity rather than the interval: the climb doubles, so the radii between two probes
/// were mostly never measured.
#[derive(Debug, Clone, Copy, PartialEq, Eq, Structural)]
pub struct Ambiguity {
    pub lowest_km: u32,
    pub highest_km: u32,
    pub radii: u32,
}

/// How many of `probes` are flagged as inside the slack.
pub open spec fn unseparated_count(probes: Seq<(u32, bool)>) -> nat
    decreases probes.len(),
{
    if probes.len() == 0 {
        0
    } else {
        unseparated_count(probes.drop_last()) + if probes.last().1 {
            1nat
        } else {
            0nat
        }
    }
}

proof fn lemma_unseparated_count_bounded(probes: Seq<(u32, bool)>)
    ensures
        unseparated_count(probes) <= probes.len(),
    decreases probes.len(),
{
    if probes.len() > 0 {
        lemma_unseparated_count_bounded(probes.drop_last());
    }
}

/// The span of the probes, each a radius and whether its margin fell inside the slack, that the
/// arithmetic could not separate from the target: `None` when every probe was separated, else the least
/// and greatest flagged radius and the number of flagged probes.
pub fn ambiguity(probes: &Vec<(u32, bool)>) -> (span: Option<Ambiguity>)
    requires
        probes@.len() <= u32::MAX,
    ensures
        span is None <==> forall|i: int| 0 <= i < probes@.len() ==> !(#[trigger] probes@[i]).1,
        span matches Some(a) ==> {
            &&& exists|i: int| 0 <= i < probes@.len() && (#[trigger] probes@[i]).1 && probes@[i].0 == a.lowest_km
            &&& exists|i: int| 0 <= i < probes@.len() && (#[trigger] probes@[i]).1 && probes@[i].0 == a.highest_km
            &&& forall|i: int|
                0 <= i < probes@.len() && (#[trigger] probes@[i]).1 ==> a.lowest_km <= probes@[i].0
                    <= a.highest_km
            &&& a.radii == unseparated_count(probes@)
        },
{
    let mut span: Option<Ambiguity> = None;
    let mut k: usize = 0;
    while k < probes.len()
        invariant
            k <= probes@.len(),
            probes@.len() <= u32::MAX,
            span is None <==> forall|i: int| 0 <= i < k ==> !(#[trigger] probes@[i]).1,
            span matches Some(a) ==> {
                &&& exists|i: int| 0 <= i < k && (#[trigger] probes@[i]).1 && probes@[i].0 == a.lowest_km
                &&& exists|i: int| 0 <= i < k && (#[trigger] probes@[i]).1 && probes@[i].0 == a.highest_km
                &&& forall|i: int|
                    0 <= i < k && (#[trigger] probes@[i]).1 ==> a.lowest_km <= probes@[i].0
                        <= a.highest_km
                &&& a.radii == unseparated_count(probes@.subrange(0, k as int))
            },
        decreases probes@.len() - k,
    {
        let (km, unseparated) = probes[k];
        proof {
            let before = probes@.subrange(0, k as int);
            let after = probes@.subrange(0, k + 1);
            assert(after.drop_last() =~= before);
            assert(after.last() == probes@[k as int]);
            lemma_unseparated_count_bounded(before);
        }
        if unseparated {
            span = match span {
                None => {
                    proof {
                        assert(unseparated_count(probes@.subrange(0, k as int)) == 0) by {
                            lemma_none_flagged_counts_zero(probes@.subrange(0, k as int));
                        }
                    }
                    Some(Ambiguity { lowest_km: km, highest_km: km, radii: 1 })
                },
                Some(a) => Some(
                    Ambiguity {
                        lowest_km: if km < a.lowest_km {
                            km
                        } else {
                            a.lowest_km
                        },
                        highest_km: if km > a.highest_km {
                            km
                        } else {
                            a.highest_km
                        },
                        radii: a.radii + 1,
                    },
                ),
            };
        }
        k = k + 1;
    }
    proof {
        assert(probes@.subrange(0, probes@.len() as int) =~= probes@);
    }
    span
}

proof fn lemma_none_flagged_counts_zero(probes: Seq<(u32, bool)>)
    requires
        forall|i: int| 0 <= i < probes.len() ==> !(#[trigger] probes[i]).1,
    ensures
        unseparated_count(probes) == 0,
    decreases probes.len(),
{
    if probes.len() > 0 {
        let rest = probes.drop_last();
        assert forall|i: int| 0 <= i < rest.len() implies !(#[trigger] rest[i]).1 by {
            assert(rest[i] == probes[i]);
        }
        lemma_none_flagged_counts_zero(rest);
        assert(!probes[probes.len() - 1].1);
    }
}

/// Where a search over radius stands: climbing from below, bisecting a closed bracket, or answered.
#[derive(Debug, Clone, Copy, PartialEq, Eq)]
pub enum Phase {
    /// Doubling from 1 km; `km` is the next radius to probe.
    Climb { km: u32 },
    /// Every radius under `low` is short and `high` reaches.
    Bisect { low: u32, high: u32 },
    /// `km` reaches and the kilometre below it, if any, is short.
    Reached { km: u32 },
    /// Nothing under the ceiling reaches; the answer is the circle that is the grid.
    Ceiling,
}

/// The phase a probe's answer moves a search to: a climb that reaches closes the bracket from `floor`
/// (or answers, when nothing lies between), a short climb doubles up to the cap (and at the cap gives the
/// ceiling), and a bisection keeps the half of its bracket the probe at the midpoint leaves open.
pub open spec fn stepped(phase: Phase, floor: u32, reaches: bool) -> Phase {
    let cap = climb_cap();
    match phase {
        Phase::Climb { km } => if reaches {
            if floor == km {
                Phase::Reached { km }
            } else {
                Phase::Bisect { low: floor, high: km }
            }
        } else if km == cap {
            Phase::Ceiling
        } else if 2 * km <= cap {
            Phase::Climb { km: (2 * km) as u32 }
        } else {
            Phase::Climb { km: cap }
        },
        Phase::Bisect { low, high } => {
            let mid = (low + (high - low) / 2) as u32;
            if reaches {
                if low == mid {
                    Phase::Reached { km: mid }
                } else {
                    Phase::Bisect { low, high: mid }
                }
            } else if mid + 1 == high {
                Phase::Reached { km: high }
            } else {
                Phase::Bisect { low: (mid + 1) as u32, high }
            }
        },
        answered => answered,
    }
}

/// The search over radius of [`smallest`](self), as decisions: which radius to probe next, and what a
/// probe's answer does to the bracket.
///
/// Whoever drives it evaluates the probe — the most populous circle at that radius — and reports whether it
/// reaches the target, handing over `found`, whatever it wants kept about that probe. The climb doubles
/// from 1 km until a probe reaches, then a bisection of the bracket that closed settles the answer.
pub struct RadiusSearch<P> {
    phase: Phase,
    low: u32,
    best: Option<P>,
    short_below: Option<(u32, P)>,
    probed: Ghost<Map<u32, (bool, P)>>,
}

/// The answer a search over radius settled on.
#[derive(Debug)]
pub enum Outcome<P> {
    /// The smallest radius reaching the target, the probe that said so, and the kilometre below it.
    Reached { radius_km: u32, best: P, short_below: Option<(u32, P)> },
    /// Nothing under [`CEILING_KM`] reaches; `short_below` is the last radius the climb probed.
    Ceiling { short_below: Option<(u32, P)> },
}

impl<P> RadiusSearch<P> {
    /// Every probe reported so far: whether it reached, and what was handed over with it.
    pub closed spec fn probed(&self) -> Map<u32, (bool, P)> {
        self.probed@
    }

    pub closed spec fn phase(&self) -> Phase {
        self.phase
    }

    /// While the climb lasts, the least radius not yet found short: zero before any probe, and one
    /// above the last short probe after.
    pub closed spec fn floor(&self) -> u32 {
        self.low
    }

    /// The radius the next probe is at, while the search is unanswered.
    pub open spec fn next_km(&self) -> Option<u32> {
        match self.phase() {
            Phase::Climb { km } => Some(km),
            Phase::Bisect { low, high } => Some((low + (high - low) / 2) as u32),
            _ => None,
        }
    }

    /// The answer, once settled: the smallest reaching radius, or [`CEILING_KM`].
    pub open spec fn answer(&self) -> Option<u32> {
        match self.phase() {
            Phase::Reached { km } => Some(km),
            Phase::Ceiling => Some(CEILING_KM),
            _ => None,
        }
    }

    /// What every probe strictly lowers, so a search is answered after finitely many: the climb's
    /// distance to the cap above the bisection's largest bracket, the bracket's width, and nothing once
    /// answered.
    pub open spec fn budget(&self) -> nat {
        match self.phase() {
            Phase::Climb { km } => (2 * climb_cap() + 2 - km) as nat,
            Phase::Bisect { low, high } => (high - low + 1) as nat,
            _ => 0,
        }
    }

    /// A bound on the probes still to come.
    pub open spec fn remaining(&self) -> nat {
        match self.phase() {
            Phase::Climb { km } => spec_climb_remaining(km),
            Phase::Bisect { low, high } => spec_halvings((high - low + 1) as nat),
            _ => 0,
        }
    }

    /// `short` is the record of the kilometre below `bound`: none at zero, the short probe otherwise.
    closed spec fn short_is_below(self, bound: u32) -> bool {
        if bound == 0 {
            self.short_below is None
        } else {
            &&& self.probed@.contains_key((bound - 1) as u32)
            &&& !self.probed@[(bound - 1) as u32].0
            &&& self.short_below == Some(((bound - 1) as u32, self.probed@[(bound - 1) as u32].1))
        }
    }

    closed spec fn best_is(self, km: u32) -> bool {
        &&& self.probed@.contains_key(km)
        &&& self.probed@[km].0
        &&& self.best == Some(self.probed@[km].1)
    }

    /// The bracket every phase keeps.
    pub closed spec fn wf(&self) -> bool {
        let cap = climb_cap();
        match self.phase {
            Phase::Climb { km } => {
                &&& 1 <= km <= cap
                &&& self.short_is_below(self.low)
                &&& self.low == 0 ==> km == 1
                &&& self.low > 0 ==> {
                    &&& self.low - 1 < cap
                    &&& km == if 2 * (self.low - 1) <= cap { 2 * (self.low - 1) } else { cap as int }
                }
                &&& forall|k: u32| #[trigger] self.probed@.contains_key(k) ==> k < self.low
            },
            Phase::Bisect { low, high } => {
                &&& low < high <= cap
                &&& self.short_is_below(low)
                &&& self.best_is(high)
                &&& forall|k: u32| #[trigger] self.probed@.contains_key(k) ==> k < low || high <= k
            },
            Phase::Reached { km } => {
                &&& km <= cap
                &&& self.short_is_below(km)
                &&& self.best_is(km)
            },
            Phase::Ceiling => {
                &&& self.probed@.contains_key(cap)
                &&& !self.probed@[cap].0
                &&& self.short_below == Some((cap, self.probed@[cap].1))
            },
        }
    }

    /// A search that has probed nothing, about to climb from 1 km.
    pub fn new() -> (search: Self)
        ensures
            search.wf(),
            search.probed() == Map::<u32, (bool, P)>::empty(),
            search.phase() == (Phase::Climb { km: 1 }),
            search.budget() == 2 * climb_cap() + 1,
            search.floor() == 0,
            search.next_km() == Some(1u32),
    {
        RadiusSearch {
            phase: Phase::Climb { km: 1 },
            low: 0,
            best: None,
            short_below: None,
            probed: Ghost(Map::empty()),
        }
    }

    /// The radius to probe next, or `None` once the search is answered.
    pub fn next_probe(&self) -> (km: Option<u32>)
        requires
            self.wf(),
        ensures
            km == self.next_km(),
            km is None <==> self.answer() is Some,
            km matches Some(k) ==> !self.probed().contains_key(k) && k <= climb_cap(),
    {
        match self.phase {
            Phase::Climb { km } => Some(km),
            Phase::Bisect { low, high } => Some(low + (high - low) / 2),
            _ => None,
        }
    }

    /// A bound on the probes still to come, which a progress meter adds to the radii already settled.
    pub fn probes_remaining(&self) -> (n: u32)
        requires
            self.wf(),
        ensures
            n == self.remaining(),
            n <= 65,
            self.next_km() is Some ==> n >= 1,
            self.answer() is Some ==> n == 0,
    {
        match self.phase {
            Phase::Climb { km } => climb_probes_remaining(km),
            Phase::Bisect { low, high } => {
                proof {
                    reveal_with_fuel(spec_halvings, 2);
                    lemma_halvings_monotone(2, (high - low + 1) as nat);
                }
                halvings(high - low + 1)
            },
            _ => 0,
        }
    }

    /// What a progress meter is told before a probe, or once the search is answered: `(settled, settled +
    /// a bound on the probes still to come)`.
    pub fn meter(&self, settled: u64) -> (pair: (u64, u64))
        requires
            self.wf(),
            settled <= u64::MAX - 65,
        ensures
            pair.0 == settled,
            pair.1 == settled + self.remaining(),
            pair.0 <= pair.1,
    {
        let remaining = self.probes_remaining();
        (settled, settled + remaining as u64)
    }

    /// Records the probe at [`Self::next_km`]: whether its circle reaches the target, and `found`, what
    /// the caller keeps of it.
    ///
    /// Once the bracket has closed — during the bisection, or at the probe that closes it — the bound on
    /// what remains falls by at least the probe just made, so a meter's total never rises again.
    pub fn record(&mut self, reaches: bool, found: P)
        requires
            old(self).wf(),
            old(self).next_km() is Some,
        ensures
            final(self).wf(),
            final(self).probed() == old(self).probed().insert(
                old(self).next_km().unwrap(),
                (reaches, found),
            ),
            final(self).phase() == stepped(old(self).phase(), old(self).floor(), reaches),
            final(self).floor() == match old(self).phase() {
                Phase::Climb { km } => if reaches {
                    old(self).floor()
                } else {
                    (km + 1) as u32
                },
                _ => old(self).floor(),
            },
            (old(self).phase() is Bisect || reaches) ==> final(self).remaining() + 1
                <= old(self).remaining(),
            final(self).budget() < old(self).budget(),
            (old(self).phase() is Climb && final(self).phase() is Climb) ==> old(self).remaining()
                <= final(self).remaining() + 1,
            !(final(self).phase() is Climb) ==> final(self).remaining() + 1 <= old(self).remaining(),
    {
        let ghost km_probed = self.next_km().unwrap();
        let ghost old_self_remaining = self.remaining();
        let cap = CEILING_KM - 1;
        proof {
            self.probed@ = self.probed@.insert(km_probed, (reaches, found));
        }
        match self.phase {
            Phase::Climb { km } => {
                if reaches {
                    proof {
                        lemma_closing_the_climb_lowers_the_bound(km, self.low);
                    }
                    self.best = Some(found);
                    if self.low == km {
                        self.phase = Phase::Reached { km };
                    } else {
                        self.phase = Phase::Bisect { low: self.low, high: km };
                    }
                } else {
                    self.short_below = Some((km, found));
                    self.low = km + 1;
                    proof {
                        if km < cap {
                            lemma_climbing_keeps_the_bound(km);
                        }
                    }
                    if km == cap {
                        self.phase = Phase::Ceiling;
                    } else if km <= cap / 2 {
                        self.phase = Phase::Climb { km: km * 2 };
                    } else {
                        self.phase = Phase::Climb { km: cap };
                    }
                }
            },
            Phase::Bisect { low, high } => {
                let mid = low + (high - low) / 2;
                proof {
                    reveal_with_fuel(spec_halvings, 2);
                    lemma_halvings_monotone(2, (high - low + 1) as nat);
                    lemma_halvings_monotone((high - mid) as nat, ((high - low + 2) / 2) as nat);
                }
                if reaches {
                    self.best = Some(found);
                    if low == mid {
                        self.phase = Phase::Reached { km: mid };
                    } else {
                        self.phase = Phase::Bisect { low, high: mid };
                    }
                } else {
                    self.short_below = Some((mid, found));
                    if mid + 1 == high {
                        self.phase = Phase::Reached { km: high };
                    } else {
                        self.phase = Phase::Bisect { low: mid + 1, high };
                    }
                }
            },
            _ => {},
        }
    }

    /// Whether `outcome` is this answered search's answer: a reached radius with the probe that reached
    /// and the short probe one kilometre below it, or the ceiling with the short probe at the cap.
    pub open spec fn answered_by(&self, outcome: Outcome<P>) -> bool {
        match outcome {
            Outcome::Reached { radius_km, best, short_below } => {
                &&& self.answer() == Some(radius_km)
                &&& radius_km < CEILING_KM
                &&& self.probed().contains_key(radius_km)
                &&& self.probed()[radius_km] == (true, best)
                &&& if radius_km == 0 {
                    short_below is None
                } else {
                    &&& self.probed().contains_key((radius_km - 1) as u32)
                    &&& !self.probed()[(radius_km - 1) as u32].0
                    &&& short_below == Some(
                        ((radius_km - 1) as u32, self.probed()[(radius_km - 1) as u32].1),
                    )
                }
            },
            Outcome::Ceiling { short_below } => {
                &&& self.answer() == Some(CEILING_KM)
                &&& self.probed().contains_key(climb_cap())
                &&& !self.probed()[climb_cap()].0
                &&& short_below == Some((climb_cap(), self.probed()[climb_cap()].1))
            },
        }
    }

    /// The answer, once [`Self::next_probe`] says there is nothing left to probe.
    ///
    /// A reached radius comes with the probe that reached and the probe one kilometre below it, both
    /// measured: the bracket the search proved. The ceiling comes with the last radius the climb found short.
    pub fn finish(self) -> (outcome: Outcome<P>)
        requires
            self.wf(),
            self.answer() is Some,
        ensures
            self.answered_by(outcome),
    {
        match self.phase {
            Phase::Reached { km } => {
                let RadiusSearch { best, short_below, .. } = self;
                // Only the radius directly below the answer witnesses its minimality.
                let short_below = match short_below {
                    Some((below, held)) => if km > 0 && below == km - 1 {
                        Some((below, held))
                    } else {
                        None
                    },
                    None => None,
                };
                match best {
                    Some(best) => Outcome::Reached { radius_km: km, best, short_below },
                    None => {
                        proof {
                            assert(false);
                        }
                        Outcome::Ceiling { short_below }
                    },
                }
            },
            _ => {
                let RadiusSearch { short_below, .. } = self;
                Outcome::Ceiling { short_below }
            },
        }
    }
}

/// What one radius's search found: the most populous centre and what the search did to find it.
#[derive(Debug, Clone, Copy, PartialEq)]
pub struct Searched<P> {
    pub centre: Candidate<P>,
    pub stats: SearchStats,
}

/// Why a run over radius stopped short of an answer: a radius could not be searched, or the ledger could
/// not record one.
#[derive(Debug)]
pub enum RunFailure<S, L> {
    Search(S),
    Ledger(L),
}


/// How many of `flags` are set.
pub open spec fn count_set(flags: Seq<bool>) -> nat
    decreases flags.len(),
{
    if flags.len() == 0 {
        0
    } else {
        count_set(flags.drop_last()) + if flags.last() {
            1nat
        } else {
            0nat
        }
    }
}

/// Whether the total of call `i` of `calls` is below the call before it.
pub open spec fn fell(calls: Seq<(u64, u64)>, i: int) -> bool {
    calls[i].1 < calls[i - 1].1
}

/// Whether the total of call `i` of `calls` is above the call before it.
pub open spec fn rose(calls: Seq<(u64, u64)>, i: int) -> bool {
    calls[i].1 > calls[i - 1].1
}

/// What a progress sink hears over a run that settled `n` radii: `n + 1` calls, call `i` reporting `i`
/// radii done of a total no smaller, the last one `(n, n)`, and a total that never rises again once it
/// has fallen.
pub open spec fn metered(calls: Seq<(u64, u64)>, n: nat) -> bool {
    &&& calls.len() == n + 1
    &&& forall|i: int| 0 <= i < calls.len() ==> (#[trigger] calls[i]).0 == i && calls[i].0 <= calls[i].1
    &&& calls[n as int] == (n as u64, n as u64)
    &&& forall|i: int, j: int|
        0 < i <= j < calls.len() && #[trigger] fell(calls, i) ==> !#[trigger] rose(calls, j)
}

/// A search over radius run to its answer.
///
/// The ledger is consulted before each radius is searched and never after, every radius it holds
/// nothing for is searched once and recorded, and the sink hears how many radii are settled of how
/// many the bracket still allows before each probe and once the answer is in.
pub struct Settled<P> {
    pub outcome: Outcome<Candidate<P>>,
    pub stats: SmallestStats,
    /// Each radius probed, in order, with what was found at it.
    pub probes: Vec<(u32, Candidate<P>)>,
    /// The radii probed, in order.
    pub probed: Ghost<Seq<u32>>,
    /// For each probe, whether the ledger answered it.
    pub reused: Ghost<Seq<bool>>,
    /// For each probe, what was found at it, from the ledger or a search.
    pub found: Ghost<Seq<Candidate<P>>>,
    /// For each probe, whether what was found reaches the target.
    pub reached: Ghost<Seq<bool>>,
    /// For each probe, what its search did, and nothing for a probe the ledger answered.
    pub searched: Ghost<Seq<SearchStats>>,
    /// Every call the progress sink heard, in order.
    pub calls: Ghost<Seq<(u64, u64)>>,
    /// The search as it stood once answered.
    pub search: Ghost<RadiusSearch<Candidate<P>>>,
}

/// What a run that [`settle_radii`] answered keeps: the search it answered is the one the outcome came
/// from, one probe was recorded per radius probed, the ledger answered exactly the reused ones and every
/// other was evaluated, and the sink heard a [`metered`] run.
pub open spec fn settles<P>(settled: Settled<P>) -> bool {
    let n = settled.probed@.len();
    let last = settled.search@;
    &&& last.wf()
    &&& last.answered_by(settled.outcome)
    &&& settled.reused@.len() == n && settled.found@.len() == n && settled.reached@.len() == n
    &&& settled.searched@.len() == n
    &&& settled.probes@.len() == n
    &&& forall|i: int, j: int|
        0 <= i < j < n ==> #[trigger] settled.probed@[i] != #[trigger] settled.probed@[j]
    &&& forall|i: int| 0 <= i < n ==> #[trigger] settled.probed@[i] <= climb_cap()
    &&& forall|i: int|
        0 <= i < n && #[trigger] settled.reused@[i] ==> settled.searched@[i] == nothing_searched()
    &&& settled.stats.searched == tallied(settled.searched@)
    &&& forall|i: int|
        0 <= i < n ==> #[trigger] settled.probes@[i] == (settled.probed@[i], settled.found@[i])
    &&& settled.stats.radii_reused == count_set(settled.reused@)
    &&& settled.stats.radii_evaluated + settled.stats.radii_reused == n
    &&& metered(settled.calls@, n)
    &&& forall|i: int| 0 <= i < n ==> #[trigger] last.probed().contains_key(settled.probed@[i])
    &&& forall|k: u32|
        #[trigger] last.probed().contains_key(k) ==> exists|i: int|
            0 <= i < n && settled.probed@[i] == k && last.probed()[k] == (
                settled.reached@[i],
                settled.found@[i],
            )
}

/// A run's answer is the least radius whose circle reaches the target, whenever what was found at each
/// probed radius reaches it exactly when `reach` says the radius does and `reach` is monotone: the answer
/// reaches and no radius under it does, and the ceiling is answered only when nothing under it reaches.
pub proof fn lemma_run_answers_least_reaching<P>(settled: Settled<P>, reach: spec_fn(u32) -> bool)
    requires
        settles(settled),
        monotone(reach),
        forall|i: int|
            0 <= i < settled.probed@.len() ==> #[trigger] settled.reached@[i] == reach(
                settled.probed@[i],
            ),
    ensures
        match settled.outcome {
            Outcome::Reached { radius_km, .. } => {
                &&& reach(radius_km)
                &&& forall|k: u32| k < radius_km ==> !#[trigger] reach(k)
            },
            Outcome::Ceiling { .. } => forall|k: u32| k < CEILING_KM ==> !#[trigger] reach(k),
        },
{
    let last = settled.search@;
    assert forall|k: u32| #[trigger] last.probed().contains_key(k) implies last.probed()[k].0 == reach(
        k,
    ) by {
        let i = choose|i: int|
            0 <= i < settled.probed@.len() && settled.probed@[i] == k && last.probed()[k] == (
                settled.reached@[i],
                settled.found@[i],
            );
        assert(settled.reached@[i] == reach(settled.probed@[i]));
    }
    lemma_answer_is_least_reaching(last, reach);
}

proof fn lemma_count_set_all(flags: Seq<bool>)
    requires
        forall|i: int| 0 <= i < flags.len() ==> #[trigger] flags[i],
    ensures
        count_set(flags) == flags.len(),
    decreases flags.len(),
{
    if flags.len() > 0 {
        let rest = flags.drop_last();
        assert forall|i: int| 0 <= i < rest.len() implies #[trigger] rest[i] by {
            assert(rest[i] == flags[i]);
        }
        lemma_count_set_all(rest);
        assert(flags.last() == flags[flags.len() - 1]);
    }
}

/// Two runs whose probes both report the same monotone `reach` answer alike — a run resumed from a ledger
/// an interrupted one left answers what an uninterrupted run does, so long as what the ledger gives back
/// reaches the target exactly when a search at that radius would ([`lemma_probes_report_reach`] gives the
/// premise from what each run states of its searches and its ledger).
pub proof fn lemma_runs_over_one_reach_agree<P>(
    first: Settled<P>,
    second: Settled<P>,
    reach: spec_fn(u32) -> bool,
)
    requires
        settles(first),
        settles(second),
        monotone(reach),
        forall|i: int|
            0 <= i < first.probed@.len() ==> #[trigger] first.reached@[i] == reach(first.probed@[i]),
        forall|i: int|
            0 <= i < second.probed@.len() ==> #[trigger] second.reached@[i] == reach(second.probed@[i]),
    ensures
        first.search@.answer() == second.search@.answer(),
{
    lemma_run_answers_least_reaching(first, reach);
    lemma_run_answers_least_reaching(second, reach);
    match (first.outcome, second.outcome) {
        (Outcome::Reached { radius_km: a, .. }, Outcome::Reached { radius_km: b, .. }) => {
            if a < b {
                assert(!reach(a));
            } else if b < a {
                assert(!reach(b));
            }
        },
        (Outcome::Reached { radius_km: a, .. }, Outcome::Ceiling { .. }) => {
            assert(reach(a));
        },
        (Outcome::Ceiling { .. }, Outcome::Reached { radius_km: b, .. }) => {
            assert(reach(b));
        },
        _ => {},
    }
}

/// What a run [`settle_radii`] answered states of its probes beside [`settles`]: what `reaches` said of
/// each, that a probe the ledger did not answer was a search at that radius by `search_at` whose finding
/// was kept, that a faithful ledger answered exactly the radii it held before the run, with what it held,
/// and came out holding the same everywhere else — and, when it keeps, holding every radius the run
/// settled. `before` and `after` are the ledger as the run found it and left it.
pub open spec fn ran<P, L, S, F, R>(
    settled: Settled<P>,
    before: L,
    after: L,
    search_at: F,
    reaches: R,
) -> bool
    where
        L: RadiusLedger<P>,
        F: Fn(u32) -> Result<Searched<P>, S>,
        R: Fn(Candidate<P>) -> bool,
{
    let n = settled.probed@.len();
    &&& settles(settled)
    &&& forall|i: int|
        0 <= i < n ==> call_ensures(reaches, (#[trigger] settled.found@[i],), settled.reached@[i])
    &&& forall|i: int|
        0 <= i < n && !#[trigger] settled.reused@[i] ==> call_ensures(
            search_at,
            (settled.probed@[i],),
            Ok(Searched { centre: settled.found@[i], stats: settled.searched@[i] }),
        )
    &&& before.faithful() ==> forall|i: int|
        0 <= i < n ==> {
            &&& (#[trigger] settled.reused@[i] <==> before.recorded(
                settled.probed@[i],
            ) is Some)
            &&& settled.reused@[i] ==> before.recorded(settled.probed@[i]) == Some(
                settled.found@[i],
            )
        }
    &&& before.faithful() ==> {
        &&& after.faithful()
        &&& after.keeps() == before.keeps()
        &&& forall|k: u32|
            !settled.probed@.contains(k) ==> #[trigger] after.recorded(k) == before.recorded(k)
    }
    &&& before.faithful() && before.keeps() ==> forall|i: int|
        0 <= i < n ==> after.recorded(#[trigger] settled.probed@[i]) == Some(
            settled.found@[i],
        )
}

proof fn lemma_tallied_nothing(searched: Seq<SearchStats>)
    requires
        forall|i: int| 0 <= i < searched.len() ==> #[trigger] searched[i] == nothing_searched(),
    ensures
        tallied(searched) == nothing_searched(),
    decreases searched.len(),
{
    if searched.len() > 0 {
        let rest = searched.drop_last();
        assert forall|i: int| 0 <= i < rest.len() implies #[trigger] rest[i] == nothing_searched() by {
            assert(rest[i] == searched[i]);
        }
        lemma_tallied_nothing(rest);
        assert(searched.last() == searched[searched.len() - 1]);
    }
}

/// A run over a faithful ledger that already held every radius under the ceiling searched nothing: every
/// radius it settled was read back from the ledger, and every search counter is zero.
pub proof fn lemma_a_warm_ledger_searches_nothing<P, L, S, F, R>(
    settled: Settled<P>,
    before: L,
    after: L,
    search_at: F,
    reaches: R,
)
    where
        L: RadiusLedger<P>,
        F: Fn(u32) -> Result<Searched<P>, S>,
        R: Fn(Candidate<P>) -> bool,
    requires
        ran(settled, before, after, search_at, reaches),
        before.faithful(),
        forall|k: u32| k <= climb_cap() ==> (#[trigger] before.recorded(k)) is Some,
    ensures
        settled.stats.radii_evaluated == 0,
        settled.stats.radii_reused == settled.probed@.len(),
        settled.stats.searched == nothing_searched(),
{
    let n = settled.probed@.len();
    assert forall|i: int| 0 <= i < n implies #[trigger] settled.reused@[i] by {
        assert(settled.probed@[i] <= climb_cap());
        assert(before.recorded(settled.probed@[i]) is Some);
    }
    lemma_count_set_all(settled.reused@);
    assert forall|i: int| 0 <= i < settled.searched@.len() implies #[trigger] settled.searched@[i]
        == nothing_searched() by {
        assert(settled.reused@[i]);
    }
    lemma_tallied_nothing(settled.searched@);
}

/// Every probe of a run reports what `reach` says of its radius, whenever a search at a radius finds
/// something `reaches` judges as `reach` does at that radius, and so does whatever a faithful ledger held
/// at a radius before the run.
pub proof fn lemma_probes_report_reach<P, L, S, F, R>(
    settled: Settled<P>,
    before: L,
    after: L,
    search_at: F,
    reaches: R,
    reach: spec_fn(u32) -> bool,
)
    where
        L: RadiusLedger<P>,
        F: Fn(u32) -> Result<Searched<P>, S>,
        R: Fn(Candidate<P>) -> bool,
    requires
        ran(settled, before, after, search_at, reaches),
        before.faithful(),
        forall|km: u32, found: Searched<P>, b: bool|
            #[trigger] call_ensures(search_at, (km,), Ok::<Searched<P>, S>(found)) && #[trigger] call_ensures(
                reaches,
                (found.centre,),
                b,
            ) ==> b == reach(km),
        forall|km: u32, c: Candidate<P>, b: bool|
            #[trigger] before.recorded(km) == Some(c) && #[trigger] call_ensures(reaches, (c,), b) ==> b
                == reach(km),
    ensures
        forall|i: int|
            0 <= i < settled.probed@.len() ==> #[trigger] settled.reached@[i] == reach(
                settled.probed@[i],
            ),
{
    let n = settled.probed@.len();
    assert forall|i: int| 0 <= i < n implies #[trigger] settled.reached@[i] == reach(
        settled.probed@[i],
    ) by {
        let km = settled.probed@[i];
        let c = settled.found@[i];
        assert(call_ensures(reaches, (c,), settled.reached@[i]));
        if settled.reused@[i] {
            assert(before.recorded(km) == Some(c));
        } else {
            let found = Searched { centre: c, stats: settled.searched@[i] };
            assert(call_ensures(search_at, (km,), Ok::<Searched<P>, S>(found)));
            assert(found.centre == c);
        }
    }
}

/// The answer of a run is the least radius whose circle reaches the target, whenever reaching is
/// monotone in the radius and both a search and a faithful ledger's records are judged by `reaches` as
/// `reach` judges their radius: the answer reaches, no radius under it does, and the ceiling is answered
/// only when nothing under it reaches.
pub proof fn lemma_smallest_is_least<P, L, S, F, R>(
    settled: Settled<P>,
    before: L,
    after: L,
    search_at: F,
    reaches: R,
    reach: spec_fn(u32) -> bool,
)
    where
        L: RadiusLedger<P>,
        F: Fn(u32) -> Result<Searched<P>, S>,
        R: Fn(Candidate<P>) -> bool,
    requires
        ran(settled, before, after, search_at, reaches),
        before.faithful(),
        monotone(reach),
        forall|km: u32, found: Searched<P>, b: bool|
            #[trigger] call_ensures(search_at, (km,), Ok::<Searched<P>, S>(found)) && #[trigger] call_ensures(
                reaches,
                (found.centre,),
                b,
            ) ==> b == reach(km),
        forall|km: u32, c: Candidate<P>, b: bool|
            #[trigger] before.recorded(km) == Some(c) && #[trigger] call_ensures(reaches, (c,), b) ==> b
                == reach(km),
    ensures
        match settled.outcome {
            Outcome::Reached { radius_km, .. } => {
                &&& reach(radius_km)
                &&& forall|k: u32| k < radius_km ==> !#[trigger] reach(k)
            },
            Outcome::Ceiling { .. } => forall|k: u32| k < CEILING_KM ==> !#[trigger] reach(k),
        },
{
    lemma_probes_report_reach(settled, before, after, search_at, reaches, reach);
    lemma_run_answers_least_reaching(settled, reach);
}

/// Runs the search over radius: before each probe the sink hears the radii settled and the bound on what
/// remains, then the ledger is asked for the radius and [`consult`]ed; a radius it holds nothing for is
/// searched with `search_at` at that radius and what the search found is handed to
/// [`RadiusLedger::put`] at that radius before the run goes on. `reaches` says whether what was found
/// reaches the target. Once the search is answered the sink hears the settled count as both figures.
///
/// What the ledger and the sink are told is stated over what they promise: a
/// [`RadiusLedger::faithful`] ledger is read before the search and never after, and one that
/// [`RadiusLedger::keeps`] ends holding every radius the run settled; a sink that
/// [`Progress::keeps`] what it hears has heard exactly a [`metered`] run.
///
/// # Errors
/// [`RunFailure::Search`] with what `search_at` failed with at a radius, and [`RunFailure::Ledger`] once
/// a search has succeeded and the ledger then refused to record what it found; either stops the run.
pub fn settle_radii<P: Copy, L: RadiusLedger<P>, G: Progress, S, F, R>(
    ledger: &mut L,
    progress: &mut G,
    search_at: F,
    reaches: R,
) -> (run: Result<Settled<P>, RunFailure<S, L::Error>>)
    where
        F: Fn(u32) -> Result<Searched<P>, S>,
        R: Fn(Candidate<P>) -> bool,
    requires
        forall|km: u32| call_requires(search_at, (km,)),
        forall|c: Candidate<P>| call_requires(reaches, (c,)),
    ensures
        run matches Ok(settled) ==> {
            &&& ran(settled, *old(ledger), *final(ledger), search_at, reaches)
            &&& old(progress).keeps() ==> final(progress).keeps() && final(progress).heard() == old(
                progress,
            ).heard() + settled.calls@
        },
        run matches Err(RunFailure::Search(e)) ==> exists|km: u32|
            call_ensures(search_at, (km,), Err::<Searched<P>, S>(e)),
        run is Err && run->Err_0 is Ledger ==> exists|km: u32, searched: Searched<P>|
            call_ensures(search_at, (km,), Ok::<Searched<P>, S>(searched)),
{
    let ghost ledger0 = *ledger;
    let ghost progress0 = *progress;
    let mut stats = SmallestStats {
        radii_evaluated: 0,
        radii_reused: 0,
        searched: SearchStats {
            levels: 0,
            blocks_examined: 0,
            blocks_pruned: 0,
            circles_evaluated: 0,
            kernels_built: 0,
        },
    };
    let mut search: RadiusSearch<Candidate<P>> = RadiusSearch::new();
    let ghost mut probed: Seq<u32> = Seq::empty();
    let ghost mut reused: Seq<bool> = Seq::empty();
    let ghost mut found_at: Seq<Candidate<P>> = Seq::empty();
    let ghost mut reached: Seq<bool> = Seq::empty();
    let ghost mut searched_at: Seq<SearchStats> = Seq::empty();
    let ghost mut calls: Seq<(u64, u64)> = Seq::empty();
    let ghost mut prev: nat = 0;
    let mut probes: Vec<(u32, Candidate<P>)> = Vec::new();
    proof {
        assert(progress0.heard() + calls =~= progress0.heard());
    }
    loop
        invariant
            probes@.len() == probed.len(),
            forall|i: int| 0 <= i < probed.len() ==> #[trigger] probes@[i] == (probed[i], found_at[i]),
            forall|km: u32| call_requires(search_at, (km,)),
            forall|c: Candidate<P>| call_requires(reaches, (c,)),
            search.wf(),
            probed.len() + search.budget() <= 2 * climb_cap() + 1,
            reused.len() == probed.len() && found_at.len() == probed.len() && reached.len()
                == probed.len() && searched_at.len() == probed.len(),
            stats.radii_reused == count_set(reused),
            stats.radii_evaluated + stats.radii_reused == probed.len(),
            stats.searched == tallied(searched_at),
            forall|i: int|
                0 <= i < probed.len() && #[trigger] reused[i] ==> searched_at[i] == nothing_searched(),
            forall|i: int|
                0 <= i < probed.len() && !#[trigger] reused[i] ==> call_ensures(
                    search_at,
                    (probed[i],),
                    Ok(Searched { centre: found_at[i], stats: searched_at[i] }),
                ),
            forall|i: int, j: int| 0 <= i < j < probed.len() ==> #[trigger] probed[i] != #[trigger] probed[j],
            forall|i: int| 0 <= i < probed.len() ==> #[trigger] probed[i] <= climb_cap(),
            ledger0 == *old(ledger),
            progress0 == *old(progress),
            ledger0.faithful() ==> ledger.faithful() && ledger.keeps() == ledger0.keeps(),
            ledger0.faithful() ==> forall|k: u32|
                !probed.contains(k) ==> #[trigger] ledger.recorded(k) == ledger0.recorded(k),
            ledger0.faithful() ==> forall|i: int|
                0 <= i < probed.len() ==> {
                    &&& (#[trigger] reused[i] <==> ledger0.recorded(probed[i]) is Some)
                    &&& reused[i] ==> ledger0.recorded(probed[i]) == Some(found_at[i])
                },
            ledger0.faithful() && ledger0.keeps() ==> forall|i: int|
                0 <= i < probed.len() ==> ledger.recorded(#[trigger] probed[i]) == Some(found_at[i]),
            progress0.keeps() ==> progress.keeps() && progress.heard() == progress0.heard() + calls,
            calls.len() == probed.len(),
            forall|i: int| 0 <= i < calls.len() ==> (#[trigger] calls[i]).0 == i && calls[i].0 <= calls[i].1,
            forall|i: int, j: int|
                0 < i <= j < calls.len() && #[trigger] fell(calls, i) ==> !#[trigger] rose(calls, j),
            forall|i: int| 0 < i < calls.len() && #[trigger] fell(calls, i) ==> !(search.phase() is Climb),
            probed.len() > 0 ==> calls[probed.len() - 1].1 == probed.len() - 1 + prev,
            probed.len() > 0 && search.phase() is Climb ==> prev <= search.remaining() + 1,
            probed.len() > 0 && !(search.phase() is Climb) ==> search.remaining() + 1 <= prev,
            probed.len() == 0 ==> search.phase() is Climb,
            forall|i: int|
                0 <= i < probed.len() ==> call_ensures(reaches, (#[trigger] found_at[i],), reached[i]),
            forall|i: int| 0 <= i < probed.len() ==> #[trigger] search.probed().contains_key(probed[i]),
            forall|k: u32|
                #[trigger] search.probed().contains_key(k) ==> exists|i: int|
                    0 <= i < probed.len() && probed[i] == k && search.probed()[k] == (
                        reached[i],
                        found_at[i],
                    ),
        decreases search.budget(),
    {
        let settled = stats.radii_settled();
        let (done, total) = search.meter(settled);
        let ghost heard_before = calls;
        progress.advance(done, total);
        proof {
            assert(done == calls.len() && total == calls.len() + search.remaining());
            lemma_metered_step(calls, prev, search.remaining(), search.phase() is Climb, (done, total));
            calls = calls.push((done, total));
            prev = search.remaining();
            if progress0.keeps() {
                assert(progress0.heard() + calls =~= (progress0.heard() + heard_before).push((done, total)));
            }
        }
        let km = match search.next_probe() {
            Some(km) => km,
            None => {
                let ghost last = search;
                let outcome = search.finish();
                let settled = Settled {
                    outcome,
                    stats,
                    probes,
                    probed: Ghost(probed),
                    reused: Ghost(reused),
                    found: Ghost(found_at),
                    reached: Ghost(reached),
                    searched: Ghost(searched_at),
                    calls: Ghost(calls),
                    search: Ghost(last),
                };
                proof {
                    let n = probed.len();
                    assert(calls[n as int] == (n as u64, n as u64));
                    assert(metered(calls, n));
                    assert(settles(settled));
                }
                return Ok(settled);
            },
        };
        proof {
            assert(!probed.contains(km)) by {
                if probed.contains(km) {
                    let i = choose|i: int| 0 <= i < probed.len() && probed[i] == km;
                    assert(search.probed().contains_key(probed[i]));
                }
            }
        }
        let ghost reused_before = reused;
        let ghost searched_before = searched_at;
        let ghost ledger_before = *ledger;
        let got = ledger.get(km);
        let found = match consult(got, &mut stats) {
            ProbeStep::Reuse(found) => {
                proof {
                    reused = reused.push(true);
                    searched_at = searched_at.push(nothing_searched());
                    assert(searched_at.drop_last() =~= searched_before);
                    assert(added(tallied(searched_before), nothing_searched()) == tallied(searched_before));
                }
                found
            },
            ProbeStep::Search => {
                let result = search_at(km);
                let searched = match result {
                    Ok(searched) => searched,
                    Err(e) => {
                        proof {
                            assert(call_ensures(search_at, (km,), Err::<Searched<P>, S>(e)));
                        }
                        let failed: Result<Settled<P>, RunFailure<S, L::Error>> = Err(
                            RunFailure::Search(e),
                        );
                        proof {
                            assert(failed matches Err(RunFailure::Search(e2)) && e2 == e);
                        }
                        return failed;
                    },
                };
                match ledger.put(km, searched.centre) {
                    Ok(()) => {},
                    Err(e) => {
                        proof {
                            assert(call_ensures(search_at, (km,), Ok::<Searched<P>, S>(searched)));
                        }
                        let failed: Result<Settled<P>, RunFailure<S, L::Error>> = Err(
                            RunFailure::Ledger(e),
                        );
                        return failed;
                    },
                }
                stats.count_searched(searched.stats);
                proof {
                    reused = reused.push(false);
                    searched_at = searched_at.push(searched.stats);
                    assert(searched_at.drop_last() =~= searched_before);
                }
                searched.centre
            },
        };
        proof {
            assert(reused.drop_last() =~= reused_before);
        }
        let reaching = reaches(found);
        probes.push((km, found));
        let ghost before = search;
        let ghost (probed0, reached0, found0) = (probed, reached, found_at);
        search.record(reaching, found);
        proof {
            let n = probed.len() as int;
            probed = probed.push(km);
            found_at = found_at.push(found);
            reached = reached.push(reaching);
            assert forall|k: u32| #[trigger] search.probed().contains_key(k) implies exists|i: int|
                0 <= i < probed.len() && probed[i] == k && search.probed()[k] == (
                    reached[i],
                    found_at[i],
                ) by {
                if k == km {
                    assert(probed[n] == k);
                } else {
                    assert(before.probed().contains_key(k));
                    let i = choose|i: int|
                        0 <= i < n && probed0[i] == k && before.probed()[k] == (reached0[i], found0[i]);
                    assert(probed[i] == probed0[i] && reached[i] == reached0[i] && found_at[i] == found0[i]);
                }
            }
            assert forall|i: int| 0 <= i < probed.len() implies #[trigger] search.probed().contains_key(
                probed[i],
            ) by {
                if i < n {
                    assert(before.probed().contains_key(probed[i]));
                }
            }
            assert forall|i: int, j: int| 0 <= i < j < probed.len() implies #[trigger] probed[i]
                != #[trigger] probed[j] by {
                if j == n {
                    assert(probed0.contains(probed0[i]));
                } else {
                    assert(probed0[i] != probed0[j]);
                }
            }
            if ledger0.faithful() {
                assert forall|k: u32| !probed.contains(k) implies #[trigger] ledger.recorded(k)
                    == ledger0.recorded(k) by {
                    assert(!probed0.contains(k)) by {
                        if probed0.contains(k) {
                            let i = choose|i: int| 0 <= i < probed0.len() && probed0[i] == k;
                            assert(probed[i] == k);
                        }
                    }
                    assert(k != km) by {
                        assert(probed[n] == km);
                    }
                }
                assert(ledger_before.recorded(km) == ledger0.recorded(km));
                assert forall|i: int| 0 <= i < probed.len() implies {
                    &&& (#[trigger] reused[i] <==> ledger0.recorded(probed[i]) is Some)
                    &&& reused[i] ==> ledger0.recorded(probed[i]) == Some(found_at[i])
                } by {
                    if i < n {
                        assert(reused[i] == reused_before[i] && probed[i] == probed0[i] && found_at[i]
                            == found0[i]);
                    }
                }
                if ledger0.keeps() {
                    assert forall|i: int| 0 <= i < probed.len() implies ledger.recorded(
                        #[trigger] probed[i],
                    ) == Some(found_at[i]) by {
                        if i < n {
                            assert(probed[i] == probed0[i] && found_at[i] == found0[i]);
                            assert(probed0[i] != km) by {
                                assert(probed0.contains(probed0[i]));
                            }
                        }
                    }
                }
            }
            assert forall|i: int|
                0 <= i < probed.len() && !#[trigger] reused[i] implies call_ensures(
                    search_at,
                    (probed[i],),
                    Ok(Searched { centre: found_at[i], stats: searched_at[i] }),
                ) by {
                if i < n {
                    assert(reused[i] == reused_before[i] && probed[i] == probed0[i] && found_at[i]
                        == found0[i] && searched_at[i] == searched_before[i]);
                }
            }
        }
    }
}

/// The sink's record stays [`metered`]-shaped when the next call reports the radii settled against the
/// bound `now` that the search left, given what the previous bound `prev` was.
proof fn lemma_metered_step(calls: Seq<(u64, u64)>, prev: nat, now: nat, climbing: bool, call: (u64, u64))
    requires
        call.0 == calls.len(),
        call.1 == calls.len() + now,
        forall|i: int, j: int|
            0 < i <= j < calls.len() && #[trigger] fell(calls, i) ==> !#[trigger] rose(calls, j),
        forall|i: int| 0 < i < calls.len() && #[trigger] fell(calls, i) ==> !climbing,
        calls.len() > 0 ==> calls[calls.len() - 1].1 == calls.len() - 1 + prev,
        calls.len() > 0 && climbing ==> prev <= now + 1,
        calls.len() > 0 && !climbing ==> now + 1 <= prev,
        calls.len() + now <= u64::MAX,
    ensures
        ({
            let next = calls.push(call);
            &&& forall|i: int, j: int|
                0 < i <= j < next.len() && #[trigger] fell(next, i) ==> !#[trigger] rose(next, j)
            &&& forall|i: int| 0 < i < next.len() && #[trigger] fell(next, i) ==> !climbing
        }),
{
    let next = calls.push(call);
    let n = calls.len() as int;
    assert forall|i: int| 0 < i < n implies fell(next, i) == fell(calls, i) && rose(next, i) == rose(
        calls,
        i,
    ) by {
        assert(next[i] == calls[i] && next[i - 1] == calls[i - 1]);
    }
    if n > 0 {
        assert(next[n] == call);
        assert(next[n - 1] == calls[n - 1]);
    }
}

/// Whether reaching the target can only become true as the radius grows.
pub open spec fn monotone(reach: spec_fn(u32) -> bool) -> bool {
    forall|a: u32, b: u32| a <= b && #[trigger] reach(a) ==> #[trigger] reach(b)
}

/// Whether every probe a search recorded is what `reach` says of its radius.
pub open spec fn recorded_by<P>(probed: Map<u32, (bool, P)>, reach: spec_fn(u32) -> bool) -> bool {
    forall|k: u32| #[trigger] probed.contains_key(k) ==> probed[k].0 == reach(k)
}

/// The answer of a search over radius is the least radius that reaches, whenever reaching is monotone in
/// the radius: it reaches and nothing below it does, and [`CEILING_KM`] is answered only when no radius
/// under it reaches at all.
pub proof fn lemma_answer_is_least_reaching<P>(search: RadiusSearch<P>, reach: spec_fn(u32) -> bool)
    requires
        search.wf(),
        search.answer() is Some,
        monotone(reach),
        recorded_by(search.probed(), reach),
    ensures
        search.answer().unwrap() < CEILING_KM ==> {
            &&& reach(search.answer().unwrap())
            &&& forall|k: u32| k < search.answer().unwrap() ==> !#[trigger] reach(k)
        },
        search.answer().unwrap() == CEILING_KM ==> forall|k: u32|
            k < CEILING_KM ==> !#[trigger] reach(k),
{
    let cap = climb_cap();
    match search.phase {
        Phase::Reached { km } => {
            assert(reach(km));
            assert forall|k: u32| k < km implies !#[trigger] reach(k) by {
                let below = (km - 1) as u32;
                assert(!reach(below));
                if reach(k) {
                    assert(reach(below));
                }
            }
        },
        Phase::Ceiling => {
            assert(!reach(cap));
            assert forall|k: u32| k < CEILING_KM implies !#[trigger] reach(k) by {
                if reach(k) {
                    assert(reach(cap));
                }
            }
        },
        _ => {},
    }
}

/// What every probe of a search over radius found, kept by whoever the caller brought.
///
/// What may be stored under a radius is the maximum over the table's cell centres at that radius, and
/// nothing else: a property of the table alone, independent of the share that asked for it.
pub trait RadiusLedger<P> {
    /// What a ledger fails with.
    type Error;

    /// Whether the ledger answers [`Self::get`] from [`Self::recorded`], and a successful
    /// [`Self::put`] changes what it records at no other radius. A ledger that promises nothing — every
    /// ledger whose implementation does not say otherwise — is used all the same.
    open spec fn faithful(&self) -> bool {
        false
    }

    /// Whether a faithful ledger keeps what a successful [`Self::put`] hands it, so that [`Self::get`]
    /// gives it back from then on.
    open spec fn keeps(&self) -> bool {
        false
    }

    /// What a faithful ledger holds at `km`.
    open spec fn recorded(&self, km: u32) -> Option<Candidate<P>> {
        None
    }

    /// The maximum recorded at `km`, or `None` when this radius has not been evaluated.
    fn get(&self, km: u32) -> (found: Option<Candidate<P>>)
        ensures
            self.faithful() ==> found == self.recorded(km),
    ;

    /// Records the maximum at `km`, durably enough that a run interrupted after this returns finds it.
    fn put(&mut self, km: u32, found: Candidate<P>) -> (put: Result<(), Self::Error>)
        ensures
            old(self).faithful() && put is Ok ==> {
                &&& final(self).faithful()
                &&& final(self).keeps() == old(self).keeps()
                &&& forall|k: u32| k != km ==> #[trigger] final(self).recorded(k) == old(self).recorded(k)
                &&& old(self).keeps() ==> final(self).recorded(km) == Some(found)
            },
    ;
}

/// The ledger for a caller that wants no resumption: it records nothing and gives nothing back.
impl<P> RadiusLedger<P> for () {
    type Error = ();

    open spec fn faithful(&self) -> bool {
        true
    }

    fn get(&self, km: u32) -> Option<Candidate<P>>
        returns
            None::<Candidate<P>>,
    {
        None
    }

    fn put(&mut self, km: u32, found: Candidate<P>) -> (put: Result<(), Self::Error>)
        ensures
            put == Ok::<(), ()>(()),
    {
        Ok(())
    }
}

} // verus!
