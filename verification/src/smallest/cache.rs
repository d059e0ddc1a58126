use vstd::prelude::*;

use crate::table::cache::{spec_mismatch, Attested, Identity, Mismatch, TEMPORARY_SUFFIX};
use crate::search::Candidate;
use crate::smallest::RadiusLedger;
use crate::text::concat;

verus! {

/// Bumped when a change to the document's fields is one an older reader would misread rather than
/// refuse. Its own number and not the table header's: the two documents share an attestation and are
/// versioned apart.
pub const FORMAT_VERSION: u32 = 2;

/// One probe, as published: a radius and the maximum found at it, the centre as a pair of indices.
#[derive(Debug, Clone, Copy, PartialEq)]
pub struct Probe<P> {
    pub km: u32,
    pub population: P,
    pub row: u32,
    pub col: u32,
}

/// Every way a ledger document can fail to be the one a caller asked for, past reading and parsing it.
#[derive(Debug, Clone, Copy, PartialEq)]
pub enum LedgerRefusal<P> {
    FormatVersion { expected: u32, found: u32 },
    NotThisTable(Mismatch),
    CentreOffGrid { row: u32, col: u32, width: u32, height: u32 },
    DuplicateRadius { km: u32, first: P, second: P },
}

/// How a ledger checks a document's version, read before the rest of it: a document of another
/// version need not parse into this one's shape at all.
pub fn check_version<P>(found: u32) -> (checked: Result<(), LedgerRefusal<P>>)
    ensures
        found == FORMAT_VERSION ==> checked is Ok,
        found != FORMAT_VERSION ==> checked == Err::<(), LedgerRefusal<P>>(
            LedgerRefusal::FormatVersion { expected: FORMAT_VERSION, found },
        ),
{
    if found != FORMAT_VERSION {
        return Err(LedgerRefusal::FormatVersion { expected: FORMAT_VERSION, found });
    }
    Ok(())
}

/// The candidate a probe records.
pub open spec fn candidate_of<P>(probe: Probe<P>) -> Candidate<P> {
    Candidate { row: probe.row, col: probe.col, population: probe.population }
}

/// What a list of probes loads as on a `width` by `height` grid: the radii and what each found, or the
/// first probe that is refused — one whose centre is not a cell of the grid, or one repeating a radius
/// an earlier probe recorded. A radius has one maximum, and two rows for it are two answers to the
/// same question.
pub open spec fn spec_load<P>(probes: Seq<Probe<P>>, width: u32, height: u32) -> Result<
    Map<u32, Candidate<P>>,
    LedgerRefusal<P>,
>
    decreases probes.len(),
{
    if probes.len() == 0 {
        Ok(Map::empty())
    } else {
        match spec_load(probes.drop_last(), width, height) {
            Err(e) => Err(e),
            Ok(m) => {
                let p = probes.last();
                if p.row >= height || p.col >= width {
                    Err(LedgerRefusal::CentreOffGrid { row: p.row, col: p.col, width, height })
                } else if m.contains_key(p.km) {
                    Err(
                        LedgerRefusal::DuplicateRadius {
                            km: p.km,
                            first: m[p.km].population,
                            second: p.population,
                        },
                    )
                } else {
                    Ok(m.insert(p.km, candidate_of(p)))
                }
            },
        }
    }
}

/// What every probe of a search over radius found, kept between runs: the radii in ascending order,
/// each once.
pub struct Ledger<P> {
    path: String,
    temporary: String,
    identity: Identity,
    entries: Vec<(u32, Candidate<P>)>,
    radii: Ghost<Map<u32, Candidate<P>>>,
}

/// Whether `entries` hold the radii of `radii`, each once, in ascending order.
pub open spec fn holds<P>(entries: Seq<(u32, Candidate<P>)>, radii: Map<u32, Candidate<P>>) -> bool {
    &&& forall|i: int, j: int| 0 <= i < j < entries.len() ==> #[trigger] entries[i].0 < #[trigger] entries[j].0
    &&& forall|i: int|
        0 <= i < entries.len() ==> #[trigger] radii.contains_key(entries[i].0) && radii[entries[i].0]
            == entries[i].1
    &&& forall|k: u32| #[trigger]
        radii.contains_key(k) ==> exists|i: int| 0 <= i < entries.len() && entries[i].0 == k
    &&& radii.dom().finite()
    &&& radii.len() == entries.len()
}

impl<P> Ledger<P> {
    /// The ledger's invariant: its entries hold its radii, each once, in ascending order.
    pub closed spec fn wf(&self) -> bool {
        holds(self.entries@, self.radii@)
    }

    /// The radii the ledger holds, and what each found.
    pub closed spec fn view(&self) -> Map<u32, Candidate<P>> {
        self.radii@
    }

    pub closed spec fn spec_path(&self) -> Seq<char> {
        self.path@
    }

    pub closed spec fn spec_temporary(&self) -> Seq<char> {
        self.temporary@
    }

    pub closed spec fn spec_identity(&self) -> Identity {
        self.identity
    }
}

impl<P: Copy> Ledger<P> {

    /// The ledger at `path` for the table `wanted` describes, holding nothing: what a first run starts
    /// from.
    pub fn empty(path: &str, wanted: Identity) -> (ledger: Self)
        ensures
            ledger.wf(),
            ledger.view() == Map::<u32, Candidate<P>>::empty(),
            ledger.spec_path() == path@,
            ledger.spec_temporary() == path@ + TEMPORARY_SUFFIX@,
            ledger.spec_identity() == wanted,
    {
        Ledger {
            path: path.to_owned(),
            temporary: concat(path, TEMPORARY_SUFFIX),
            identity: wanted,
            entries: Vec::new(),
            radii: Ghost(Map::empty()),
        }
    }

    /// The ledger a document describes, once its version has been checked: the identity it attests is
    /// compared with the one wanted, and then every probe it records is loaded, in order.
    ///
    /// # Errors
    /// [`LedgerRefusal::NotThisTable`] when the document describes another table, and otherwise the
    /// first probe [`spec_load`] refuses.
    pub fn load(path: &str, wanted: Identity, attested: &Attested, probes: &Vec<Probe<P>>) -> (loaded:
        Result<Self, LedgerRefusal<P>>)
        ensures
            match spec_mismatch(*attested, wanted) {
                Some(m) => loaded == Err::<Self, LedgerRefusal<P>>(LedgerRefusal::NotThisTable(m)),
                None => match spec_load(probes@, wanted.width, wanted.height) {
                    Ok(radii) => loaded matches Ok(ledger) && ledger.wf() && ledger.view() == radii
                        && ledger.spec_path() == path@ && ledger.spec_temporary() == path@
                        + TEMPORARY_SUFFIX@ && ledger.spec_identity() == wanted,
                    Err(e) => loaded == Err::<Self, LedgerRefusal<P>>(e),
                },
            },
    {
        match attested.check(&wanted) {
            Err(m) => {
                return Err(LedgerRefusal::NotThisTable(m));
            },
            Ok(()) => {},
        }
        let mut ledger = Self::empty(path, wanted);
        let mut i: usize = 0;
        while i < probes.len()
            invariant
                0 <= i <= probes@.len(),
                spec_load(probes@.take(i as int), wanted.width, wanted.height) == Ok::<
                    Map<u32, Candidate<P>>,
                    LedgerRefusal<P>,
                >(ledger.view()),
                ledger.spec_path() == path@,
                ledger.spec_temporary() == path@ + TEMPORARY_SUFFIX@,
                ledger.spec_identity() == wanted,
                ledger.wf(),
                spec_mismatch(*attested, wanted) is None,
            decreases probes@.len() - i,
        {
            let probe = probes[i];
            proof {
                assert(probes@.take(i + 1).drop_last() =~= probes@.take(i as int));
                assert(probes@.take(i + 1).last() == probe);
            }
            if probe.row >= wanted.height || probe.col >= wanted.width {
                proof {
                    assert(spec_load(probes@.take(i + 1), wanted.width, wanted.height) == Err::<
                        Map<u32, Candidate<P>>,
                        LedgerRefusal<P>,
                    >(LedgerRefusal::CentreOffGrid {
                        row: probe.row,
                        col: probe.col,
                        width: wanted.width,
                        height: wanted.height,
                    }));
                    lemma_load_error_persists(probes@.take(i + 1), probes@, wanted.width, wanted.height);
                }
                return Err(
                    LedgerRefusal::CentreOffGrid {
                        row: probe.row,
                        col: probe.col,
                        width: wanted.width,
                        height: wanted.height,
                    },
                );
            }
            let found = Candidate { row: probe.row, col: probe.col, population: probe.population };
            let ghost before = ledger.view();
            match ledger.insert(probe.km, found) {
                Some(first) => {
                    proof {
                        assert(before.contains_key(probe.km) && first == before[probe.km]);
                        assert(spec_load(probes@.take(i + 1), wanted.width, wanted.height) == Err::<
                            Map<u32, Candidate<P>>,
                            LedgerRefusal<P>,
                        >(LedgerRefusal::DuplicateRadius {
                            km: probe.km,
                            first: first.population,
                            second: probe.population,
                        }));
                        lemma_load_error_persists(probes@.take(i + 1), probes@, wanted.width, wanted.height);
                    }
                    return Err(
                        LedgerRefusal::DuplicateRadius {
                            km: probe.km,
                            first: first.population,
                            second: probe.population,
                        },
                    );
                },
                None => {
                    proof {
                        assert(!before.contains_key(probe.km));
                        assert(found == candidate_of(probe));
                    }
                },
            }
            i = i + 1;
        }
        proof {
            assert(probes@.take(probes@.len() as int) =~= probes@);
        }
        Ok(ledger)
    }

    /// Where the ledger is kept.
    pub fn path(&self) -> (path: &str)
        ensures
            path@ == self.spec_path(),
    {
        self.path.as_str()
    }

    /// The name a publication writes under before renaming into place.
    pub fn temporary(&self) -> (path: &str)
        ensures
            path@ == self.spec_temporary(),
    {
        self.temporary.as_str()
    }

    /// The table the ledger is of.
    pub fn identity(&self) -> (identity: Identity)
        ensures
            identity == self.spec_identity(),
    {
        self.identity
    }

    /// How many radii the ledger holds, which is what a resumed run reuses.
    pub fn len(&self) -> (n: usize)
        requires
            self.wf(),
        ensures
            n == self.view().len(),
    {
        self.entries.len()
    }

    pub fn is_empty(&self) -> (empty: bool)
        requires
            self.wf(),
        ensures
            empty <==> self.view().len() == 0,
    {
        self.entries.len() == 0
    }

    /// Where `km` stands among the radii held: the index of the first entry at or past it.
    fn position(&self, km: u32) -> (at: usize)
        ensures
            at <= self.entries@.len(),
            forall|i: int| 0 <= i < at ==> #[trigger] self.entries@[i].0 < km,
            at < self.entries@.len() ==> self.entries@[at as int].0 >= km,
    {
        let mut at: usize = 0;
        while at < self.entries.len() && self.entries[at].0 < km
            invariant
                at <= self.entries@.len(),
                forall|i: int| 0 <= i < at ==> #[trigger] self.entries@[i].0 < km,
            decreases self.entries@.len() - at,
        {
            at = at + 1;
        }
        at
    }

    /// What the probe at `km` found, if a probe there has been recorded.
    pub fn get(&self, km: u32) -> (found: Option<Candidate<P>>)
        ensures
            self.wf() ==> found == (if self.view().contains_key(km) {
                Some(self.view()[km])
            } else {
                None::<Candidate<P>>
            }),
    {
        let at = self.position(km);
        if at < self.entries.len() && self.entries[at].0 == km {
            Some(self.entries[at].1)
        } else {
            proof {
                if self.wf() && self.radii@.contains_key(km) {
                    let i = choose|i: int| 0 <= i < self.entries@.len() && self.entries@[i].0 == km;
                    if i >= at {
                        assert(self.entries@[at as int].0 <= self.entries@[i].0);
                    }
                }
            }
            None
        }
    }

    /// Records what the probe at `km` found, replacing what was recorded there; hands back what was.
    pub fn insert(&mut self, km: u32, found: Candidate<P>) -> (previous: Option<Candidate<P>>)
        ensures
            old(self).wf() ==> final(self).wf(),
            final(self).view() == old(self).view().insert(km, found),
            old(self).wf() ==> previous == (if old(self).view().contains_key(km) {
                Some(old(self).view()[km])
            } else {
                None::<Candidate<P>>
            }),
            final(self).spec_path() == old(self).spec_path(),
            final(self).spec_temporary() == old(self).spec_temporary(),
            final(self).spec_identity() == old(self).spec_identity(),
    {
        let at = self.position(km);
        let ghost entries = self.entries@;
        let ghost radii = self.radii@;
        let ghost sound = holds(entries, radii);
        if at < self.entries.len() && self.entries[at].0 == km {
            let previous = self.entries[at].1;
            self.entries.set(at, (km, found));
            let ghost entries_now = self.entries;
            proof {
                if sound {
                assert forall|k: u32| #[trigger] radii.insert(km, found).contains_key(k) implies exists|i: int|
                    0 <= i < entries_now@.len() && entries_now@[i].0 == k by {
                    if k != km {
                        let i = choose|i: int| 0 <= i < entries.len() && entries[i].0 == k;
                        assert(entries_now@[i].0 == k);
                    } else {
                        assert(entries_now@[at as int].0 == k);
                    }
                }
                assert(radii.insert(km, found).dom() =~= radii.dom());
                let now = entries_now@;
                assert forall|i: int| 0 <= i < now.len() implies now[i].0 == entries[i].0 by {}
                assert forall|i: int, j: int| 0 <= i < j < now.len() implies #[trigger] now[i].0
                    < #[trigger] now[j].0 by {
                    assert(entries[i].0 < entries[j].0);
                }
                assert forall|i: int| 0 <= i < now.len() implies #[trigger] radii.insert(km, found).contains_key(now[i].0)
                    && radii.insert(km, found)[now[i].0] == now[i].1 by {
                    if i != at {
                        assert(now[i] == entries[i]);
                        assert(radii.contains_key(entries[i].0));
                        if i < at {
                            assert(entries[i].0 < entries[at as int].0);
                        } else {
                            assert(entries[at as int].0 < entries[i].0);
                        }
                    }
                }
                }
            }
            self.radii = Ghost(radii.insert(km, found));
            Some(previous)
        } else {
            proof {
                if sound && radii.contains_key(km) {
                    let i = choose|i: int| 0 <= i < entries.len() && entries[i].0 == km;
                    if i >= at {
                        assert(entries[at as int].0 <= entries[i].0);
                    }
                    assert(false);
                }
            }
            self.entries.insert(at, (km, found));
            let ghost entries_now = self.entries;
            proof {
                entries.insert_ensures(at as int, (km, found));
                if sound {
                let now = entries_now@;
                assert forall|i: int, j: int| 0 <= i < j < now.len() implies #[trigger] now[i].0
                    < #[trigger] now[j].0 by {
                    if j < at {
                    } else if j == at {
                    } else if i < at {
                        assert(now[j].0 == entries[j - 1].0);
                        assert(entries[at as int].0 >= km);
                        if j - 1 > at {
                            assert(entries[at as int].0 < entries[j - 1].0);
                        }
                    } else if i == at {
                        assert(now[j].0 == entries[j - 1].0);
                        if j - 1 > at {
                            assert(entries[at as int].0 < entries[j - 1].0);
                        }
                    } else {
                        assert(now[i].0 == entries[i - 1].0);
                        assert(now[j].0 == entries[j - 1].0);
                    }
                }
                assert forall|i: int| 0 <= i < now.len() implies #[trigger] radii.insert(km, found).contains_key(now[i].0)
                    && radii.insert(km, found)[now[i].0] == now[i].1 by {
                    if i < at {
                        assert(now[i] == entries[i]);
                        assert(radii.contains_key(entries[i].0));
                    } else if i > at {
                        assert(now[i] == entries[i - 1]);
                        assert(radii.contains_key(entries[i - 1].0));
                    }
                }
                assert forall|k: u32| #[trigger] radii.insert(km, found).contains_key(k) implies exists|i: int|
                    0 <= i < now.len() && now[i].0 == k by {
                    if k != km {
                        let i = choose|i: int| 0 <= i < entries.len() && entries[i].0 == k;
                        if i < at {
                            assert(now[i].0 == k);
                        } else {
                            assert(now[i + 1].0 == k);
                        }
                    } else {
                        assert(now[at as int].0 == k);
                    }
                }
                }
            }
            self.radii = Ghost(radii.insert(km, found));
            None
        }
    }

    /// The probes the ledger holds, in ascending order of radius: what a publication writes.
    pub fn records(&self) -> (records: Vec<Probe<P>>)
        requires
            self.wf(),
        ensures
            forall|i: int, j: int| 0 <= i < j < records@.len() ==> #[trigger] records@[i].km < #[trigger] records@[j].km,
            forall|i: int| 0 <= i < records@.len() ==> #[trigger] self.view().contains_key(records@[i].km)
                && candidate_of(records@[i]) == self.view()[records@[i].km],
            forall|k: u32| #[trigger] self.view().contains_key(k) ==> exists|i: int|
                0 <= i < records@.len() && records@[i].km == k,
            records@.len() == self.view().len(),
    {
        let mut records: Vec<Probe<P>> = Vec::new();
        let mut i: usize = 0;
        while i < self.entries.len()
            invariant
                0 <= i <= self.entries@.len(),
                holds(self.entries@, self.radii@),
                records@.len() == i,
                forall|k: int| 0 <= k < i ==> #[trigger] records@[k].km == self.entries@[k].0
                    && candidate_of(records@[k]) == self.entries@[k].1,
            decreases self.entries@.len() - i,
        {
            let (km, found) = self.entries[i];
            records.push(Probe { km, population: found.population, row: found.row, col: found.col });
            i = i + 1;
        }
        proof {
            assert forall|a: int, b: int| 0 <= a < b < records@.len() implies #[trigger] records@[a].km
                < #[trigger] records@[b].km by {
                assert(self.entries@[a].0 < self.entries@[b].0);
            }
            assert forall|k: u32| #[trigger] self.view().contains_key(k) implies exists|i: int|
                0 <= i < records@.len() && records@[i].km == k by {
                let i = choose|i: int| 0 <= i < self.entries@.len() && self.entries@[i].0 == k;
                assert(records@[i].km == k);
            }
        }
        records
    }
}

/// The radii a list of probes records, each with what it found; a later probe at a radius replaces an
/// earlier one.
pub open spec fn recorded<P>(probes: Seq<Probe<P>>) -> Map<u32, Candidate<P>>
    decreases probes.len(),
{
    if probes.len() == 0 {
        Map::empty()
    } else {
        recorded(probes.drop_last()).insert(probes.last().km, candidate_of(probes.last()))
    }
}

proof fn lemma_recorded_keys<P>(probes: Seq<Probe<P>>)
    ensures
        forall|k: u32| #[trigger] recorded(probes).contains_key(k) <==> exists|i: int|
            0 <= i < probes.len() && probes[i].km == k,
    decreases probes.len(),
{
    if probes.len() > 0 {
        let rest = probes.drop_last();
        lemma_recorded_keys(rest);
        assert forall|k: u32| #[trigger] recorded(probes).contains_key(k) <==> exists|i: int|
            0 <= i < probes.len() && probes[i].km == k by {
            if recorded(probes).contains_key(k) {
                if k == probes.last().km {
                    assert(probes[probes.len() - 1].km == k);
                } else {
                    assert(recorded(rest).contains_key(k));
                    let i = choose|i: int| 0 <= i < rest.len() && rest[i].km == k;
                    assert(probes[i].km == k);
                }
            }
            if exists|i: int| 0 <= i < probes.len() && probes[i].km == k {
                let i = choose|i: int| 0 <= i < probes.len() && probes[i].km == k;
                if i < probes.len() - 1 {
                    assert(rest[i].km == k);
                    assert(recorded(rest).contains_key(k));
                }
            }
        }
    }
}

/// Probes at distinct radii, every centre a cell of the grid, load as exactly what they record.
proof fn lemma_distinct_probes_load<P>(probes: Seq<Probe<P>>, width: u32, height: u32)
    requires
        forall|i: int, j: int| 0 <= i < j < probes.len() ==> #[trigger] probes[i].km != #[trigger] probes[j].km,
        forall|i: int| 0 <= i < probes.len() ==> #[trigger] probes[i].row < height && probes[i].col < width,
    ensures
        spec_load(probes, width, height) == Ok::<Map<u32, Candidate<P>>, LedgerRefusal<P>>(recorded(probes)),
    decreases probes.len(),
{
    if probes.len() > 0 {
        let rest = probes.drop_last();
        assert forall|i: int, j: int| 0 <= i < j < rest.len() implies #[trigger] rest[i].km != #[trigger] rest[j].km by {
            assert(probes[i].km != probes[j].km);
        }
        assert forall|i: int| 0 <= i < rest.len() implies #[trigger] rest[i].row < height && rest[i].col < width by {
            assert(probes[i].row < height);
        }
        lemma_distinct_probes_load(rest, width, height);
        lemma_recorded_keys(rest);
        let last = probes.last();
        assert(last.row < height && last.col < width);
        if recorded(rest).contains_key(last.km) {
            let i = choose|i: int| 0 <= i < rest.len() && rest[i].km == last.km;
            assert(probes[i].km != probes[probes.len() - 1].km);
        }
    }
}

/// What a ledger publishes opens as the same ledger: the records [`Ledger::records`] writes, every
/// centre a cell of the grid, load back as exactly the radii the ledger held.
pub proof fn lemma_published_records_load_back<P>(
    records: Seq<Probe<P>>,
    radii: Map<u32, Candidate<P>>,
    width: u32,
    height: u32,
)
    requires
        forall|i: int, j: int| 0 <= i < j < records.len() ==> #[trigger] records[i].km < #[trigger] records[j].km,
        forall|i: int| 0 <= i < records.len() ==> #[trigger] radii.contains_key(records[i].km)
            && candidate_of(records[i]) == radii[records[i].km],
        forall|k: u32| #[trigger] radii.contains_key(k) ==> exists|i: int|
            0 <= i < records.len() && records[i].km == k,
        forall|i: int| 0 <= i < records.len() ==> #[trigger] records[i].row < height && records[i].col < width,
    ensures
        spec_load(records, width, height) == Ok::<Map<u32, Candidate<P>>, LedgerRefusal<P>>(radii),
{
    assert forall|i: int, j: int| 0 <= i < j < records.len() implies #[trigger] records[i].km
        != #[trigger] records[j].km by {
        assert(records[i].km < records[j].km);
    }
    lemma_distinct_probes_load(records, width, height);
    lemma_recorded_values(records);
    lemma_recorded_keys(records);
    assert forall|k: u32| #[trigger] recorded(records).contains_key(k) <==> radii.contains_key(k) by {
        if recorded(records).contains_key(k) {
            let i = choose|i: int| 0 <= i < records.len() && records[i].km == k;
            assert(radii.contains_key(records[i].km));
        }
        if radii.contains_key(k) {
            let i = choose|i: int| 0 <= i < records.len() && records[i].km == k;
            assert(records[i].km == k);
        }
    }
    assert forall|k: u32| #[trigger] radii.contains_key(k) implies recorded(records)[k] == radii[k] by {
        let i = choose|i: int| 0 <= i < records.len() && records[i].km == k;
        assert(recorded(records)[records[i].km] == candidate_of(records[i]));
        assert(radii.contains_key(records[i].km));
    }
    assert(recorded(records) =~= radii);
}

proof fn lemma_recorded_values<P>(probes: Seq<Probe<P>>)
    requires
        forall|i: int, j: int| 0 <= i < j < probes.len() ==> #[trigger] probes[i].km < #[trigger] probes[j].km,
    ensures
        forall|i: int| 0 <= i < probes.len() ==> #[trigger] recorded(probes)[probes[i].km] == candidate_of(probes[i]),
    decreases probes.len(),
{
    if probes.len() > 0 {
        let rest = probes.drop_last();
        lemma_recorded_values(rest);
        assert forall|i: int| 0 <= i < probes.len() implies #[trigger] recorded(probes)[probes[i].km]
            == candidate_of(probes[i]) by {
            let last = probes.last();
            if i < probes.len() - 1 {
                assert(probes[i].km < probes[probes.len() - 1].km);
                assert(rest[i] == probes[i]);
                assert(recorded(rest)[rest[i].km] == candidate_of(rest[i]));
                assert(recorded(probes) == recorded(rest).insert(last.km, candidate_of(last)));
            } else {
                assert(recorded(probes) == recorded(rest).insert(last.km, candidate_of(last)));
            }
        }
    }
}

/// A refusal on a prefix of the probes is the refusal of the whole list: loading stops at the first.
proof fn lemma_load_error_persists<P>(prefix: Seq<Probe<P>>, whole: Seq<Probe<P>>, width: u32, height: u32)
    requires
        prefix.len() <= whole.len(),
        prefix == whole.subrange(0, prefix.len() as int),
        spec_load(prefix, width, height) is Err,
    ensures
        spec_load(whole, width, height) == spec_load(prefix, width, height),
    decreases whole.len(),
{
    if whole.len() > prefix.len() {
        assert(prefix == whole.drop_last().subrange(0, prefix.len() as int));
        lemma_load_error_persists(prefix, whole.drop_last(), width, height);
    } else {
        assert(prefix =~= whole);
    }
}

/// A ledger held in memory is faithful while it holds together: it answers from what it holds, a put
/// changes only the radius it names, and it keeps every radius it is given. It never fails to record.
impl<P: Copy> RadiusLedger<P> for Ledger<P> {
    type Error = ();

    open spec fn faithful(&self) -> bool {
        self.wf()
    }

    open spec fn keeps(&self) -> bool {
        true
    }

    open spec fn recorded(&self, km: u32) -> Option<Candidate<P>> {
        if self.view().contains_key(km) {
            Some(self.view()[km])
        } else {
            None
        }
    }

    fn get(&self, km: u32) -> (found: Option<Candidate<P>>) {
        Ledger::get(self, km)
    }

    fn put(&mut self, km: u32, found: Candidate<P>) -> (put: Result<(), ()>) {
        self.insert(km, found);
        Ok(())
    }
}

} // verus!
