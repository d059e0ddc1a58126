use vstd::prelude::*;

use crate::raster::CellTallies;
use crate::search::SearchStats;
use crate::smallest::SmallestStats;
use crate::table::{ColSpan, RowBand};

verus! {

/// Bumped when a change to a document is not additive — a renamed or removed field, or one whose
/// meaning moved. A new field does not bump it.
pub const SCHEMA_VERSION: u32 = 1;

/// Where every cell of a drained raster went, as published, with the total the four classes sum to.
#[derive(Debug, Clone, Copy, PartialEq, Eq, Structural)]
pub struct CellTalliesReport {
    pub nodata: u64,
    pub unexpected_negative: u64,
    pub zero: u64,
    pub populated: u64,
    pub total: u64,
}

impl CellTalliesReport {
    pub fn from_tallies(tallies: CellTallies) -> (report: Self)
        requires
            tallies.spec_total() <= u64::MAX,
        ensures
            report == (CellTalliesReport {
                nodata: tallies.nodata,
                unexpected_negative: tallies.unexpected_negative,
                zero: tallies.zero,
                populated: tallies.populated,
                total: tallies.spec_total() as u64,
            }),
    {
        CellTalliesReport {
            nodata: tallies.nodata,
            unexpected_negative: tallies.unexpected_negative,
            zero: tallies.zero,
            populated: tallies.populated,
            total: tallies.total(),
        }
    }
}

/// Where a build published a table's two files.
#[derive(Debug, Clone, PartialEq, Eq)]
pub struct CacheFiles {
    pub header: String,
    pub payload: String,
}

impl CacheFiles {
    /// Both paths as text; a path that is not text is rendered before it gets here, with what is not
    /// UTF-8 replaced, because a document a renderer parses is UTF-8 and a path is not promised to be.
    pub fn new(header: &str, payload: &str) -> (files: Self)
        ensures
            files.header@ == header@,
            files.payload@ == payload@,
    {
        CacheFiles { header: header.to_owned(), payload: payload.to_owned() }
    }
}

/// The rows a query covered, inclusive.
#[derive(Debug, Clone, Copy, PartialEq, Eq, Structural)]
pub struct RowRange {
    pub north: u32,
    pub south: u32,
}

impl RowRange {
    pub fn of(rows: RowBand) -> (range: Self)
        ensures
            range == (RowRange { north: rows.spec_north(), south: rows.spec_south() }),
    {
        RowRange { north: rows.north(), south: rows.south() }
    }
}

/// The columns covered, with the full turn stated rather than left to be inferred from `west` and
/// `east`: on a grid whose columns close, one column and all of them are the same pair of indices.
#[derive(Debug, Clone, Copy, PartialEq, Eq, Structural)]
pub struct ColRange {
    pub west: u32,
    pub east: u32,
    pub full_turn: bool,
}

impl ColRange {
    /// The columns `cols` covers on a grid of `width` columns: the full turn from the first column to
    /// the last.
    pub fn of(cols: ColSpan, width: u32) -> (range: Self)
        requires
            width > 0,
        ensures
            range == match cols {
                ColSpan::FullTurn => ColRange { west: 0, east: (width - 1) as u32, full_turn: true },
                ColSpan::Through { west, east } => ColRange { west, east, full_turn: false },
            },
    {
        match cols {
            ColSpan::FullTurn => ColRange { west: 0, east: width - 1, full_turn: true },
            ColSpan::Through { west, east } => ColRange { west, east, full_turn: false },
        }
    }
}

/// What a fixed-radius search did beside answering, as published: all five counters, because the pair
/// that matters is a ratio of two of them.
#[derive(Debug, Clone, Copy, PartialEq, Eq, Structural)]
pub struct SearchStatsReport {
    pub levels: u32,
    pub blocks_examined: u64,
    pub blocks_pruned: u64,
    pub circles_evaluated: u64,
    pub kernels_built: u64,
}

impl SearchStatsReport {
    pub fn of(stats: SearchStats) -> (report: Self)
        ensures
            report == (SearchStatsReport {
                levels: stats.levels,
                blocks_examined: stats.blocks_examined,
                blocks_pruned: stats.blocks_pruned,
                circles_evaluated: stats.circles_evaluated,
                kernels_built: stats.kernels_built,
            }),
    {
        SearchStatsReport {
            levels: stats.levels,
            blocks_examined: stats.blocks_examined,
            blocks_pruned: stats.blocks_pruned,
            circles_evaluated: stats.circles_evaluated,
            kernels_built: stats.kernels_built,
        }
    }
}

/// The probed radii the arithmetic could not separate from the target, as published: a floor on the
/// ambiguity rather than the interval, since the radii between the ends were mostly not measured.
#[derive(Debug, Clone, Copy, PartialEq, Eq, Structural)]
pub struct AmbiguityReport {
    pub lowest_km: u32,
    pub highest_km: u32,
    /// How many probed radii fell inside.
    pub radii: u32,
}

impl AmbiguityReport {
    pub fn new(lowest_km: u32, highest_km: u32, radii: u32) -> (report: Self)
        ensures
            report == (AmbiguityReport { lowest_km, highest_km, radii }),
    {
        AmbiguityReport { lowest_km, highest_km, radii }
    }
}

/// What a search over radius did beside answering, as published.
#[derive(Debug, Clone, Copy, PartialEq, Eq, Structural)]
pub struct SmallestStatsReport {
    pub radii_evaluated: u64,
    /// Radii answered from a previous run's record instead of searched.
    pub radii_reused: u64,
    pub searched: SearchStatsReport,
}

impl SmallestStatsReport {
    pub fn of(stats: SmallestStats) -> (report: Self)
        ensures
            report.radii_evaluated == stats.radii_evaluated,
            report.radii_reused == stats.radii_reused,
            report.searched.levels == stats.searched.levels,
            report.searched.blocks_examined == stats.searched.blocks_examined,
            report.searched.blocks_pruned == stats.searched.blocks_pruned,
            report.searched.circles_evaluated == stats.searched.circles_evaluated,
            report.searched.kernels_built == stats.searched.kernels_built,
    {
        SmallestStatsReport {
            radii_evaluated: stats.radii_evaluated,
            radii_reused: stats.radii_reused,
            searched: SearchStatsReport::of(stats.searched),
        }
    }
}

/// The record of what every radius a run probed held, and where it sits.
#[derive(Debug, Clone, PartialEq, Eq)]
pub struct LedgerReport {
    pub path: String,
    /// How many radii the file holds, which is the one figure that says whether resumption is working.
    pub radii: usize,
}

impl LedgerReport {
    /// [`CacheFiles::new`]'s treatment of a path, and for its reason.
    pub fn new(path: &str, radii: usize) -> (report: Self)
        ensures
            report.path@ == path@,
            report.radii == radii,
    {
        LedgerReport { path: path.to_owned(), radii }
    }
}

/// The shares a sweep walked, in whole percent, which is the unit the flags take.
#[derive(Debug, Clone, Copy, PartialEq, Eq, Structural)]
pub struct SweepShares {
    pub from_percent: u32,
    pub to_percent: u32,
    pub step_percent: u32,
}

impl SweepShares {
    pub fn new(from_percent: u32, to_percent: u32, step_percent: u32) -> (shares: Self)
        ensures
            shares == (SweepShares { from_percent, to_percent, step_percent }),
    {
        SweepShares { from_percent, to_percent, step_percent }
    }
}

} // verus!
