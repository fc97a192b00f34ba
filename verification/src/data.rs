//! The data model: commit records on the way in, aligned render data on
//! the way out, and the spec-level views of both.
//!
//! Measurements are carried as the raw bit pattern of an IEEE 754
//! double (`u64`): the aggregator never interprets a measurement
//! numerically, it only moves values into place. A missing value (a
//! commit that did not report a benchmark, or a sample without a
//! recorded deviation) is an explicit `None`, never a fabricated
//! number.

use vstd::prelude::*;

verus! {

/// One measurement within a commit: the unit it was taken in, the mean,
/// and an optional standard deviation. `mean` and `sd` are IEEE 754
/// double bit patterns; `sd` is `None` when no deviation was recorded.
#[derive(Debug, Clone, PartialEq, Eq)]
pub struct BenchSample {
    pub unit: String,
    pub mean: u64,
    pub sd: Option<u64>,
}

/// One benchmark run: commit identity and display data, the commit
/// time as a single integer instant (the sole ordering key), and the
/// named measurements taken at that commit.
///
/// `benches` keeps its entries in the order the record listed them;
/// names are expected to be unique within one commit, but nothing here
/// relies on that.
#[derive(Debug, Clone, PartialEq, Eq)]
pub struct Commit {
    pub sha1: String,
    pub title: String,
    pub author: String,
    pub time: i64,
    pub url: Option<String>,
    pub benches: Vec<(String, BenchSample)>,
}

/// One benchmark's aligned history: exactly one `means` and one `sds`
/// entry per commit, in chronological commit order, `None` marking a
/// hole.
#[derive(Debug, Clone, PartialEq, Eq)]
pub struct Bench {
    pub name: String,
    pub unit: String,
    pub means: Vec<Option<u64>>,
    pub sds: Vec<Option<u64>>,
}

/// The aggregation result: one label per commit in chronological order,
/// and one dense `Bench` per benchmark name, in first-seen order.
#[derive(Debug, Clone, PartialEq, Eq)]
pub struct RenderData {
    pub benches: Vec<Bench>,
    pub xlabels: Vec<String>,
}

/// Why an aggregation pass failed. No partial result accompanies an
/// error: aggregation is all-or-nothing.
#[derive(Debug, Clone, PartialEq, Eq)]
pub enum AggregationError {
    /// The same benchmark name was reported with two different units.
    UnitConflict { name: String, unit_a: String, unit_b: String },
    /// A commit record violates a structural precondition.
    MalformedRecord { reason: String },
}

/// Spec-level image of a `BenchSample`.
#[verifier::ext_equal]
pub struct SampleModel {
    pub unit: Seq<char>,
    pub mean: u64,
    pub sd: Option<u64>,
}

/// Spec-level image of a `Commit`.
#[verifier::ext_equal]
pub struct CommitModel {
    pub sha1: Seq<char>,
    pub title: Seq<char>,
    pub author: Seq<char>,
    pub time: int,
    pub url: Option<Seq<char>>,
    pub benches: Seq<(Seq<char>, SampleModel)>,
}

/// Spec-level image of a `Bench`.
#[verifier::ext_equal]
pub struct BenchModel {
    pub name: Seq<char>,
    pub unit: Seq<char>,
    pub means: Seq<Option<u64>>,
    pub sds: Seq<Option<u64>>,
}

/// Spec-level image of a `RenderData`.
#[verifier::ext_equal]
pub struct RenderDataModel {
    pub benches: Seq<BenchModel>,
    pub xlabels: Seq<Seq<char>>,
}

/// Spec-level image of an `AggregationError`.
#[verifier::ext_equal]
pub enum ErrorModel {
    UnitConflict { name: Seq<char>, unit_a: Seq<char>, unit_b: Seq<char> },
    MalformedRecord { reason: Seq<char> },
}

/// The spec-level image of one commit's benchmark entries.
pub open spec fn benches_view(s: Seq<(String, BenchSample)>) -> Seq<(Seq<char>, SampleModel)> {
    s.map_values(|p: (String, BenchSample)| (p.0@, p.1@))
}

/// The spec-level image of a name-to-unit discovery list.
pub open spec fn disc_view(s: Seq<(String, String)>) -> Seq<(Seq<char>, Seq<char>)> {
    s.map_values(|p: (String, String)| (p.0@, p.1@))
}

/// The spec-level image of a list of display strings.
pub open spec fn strs_view(s: Seq<String>) -> Seq<Seq<char>> {
    s.map_values(|x: String| x@)
}

impl View for BenchSample {
    type V = SampleModel;

    open spec fn view(&self) -> SampleModel {
        SampleModel { unit: self.unit@, mean: self.mean, sd: self.sd }
    }
}

impl View for Commit {
    type V = CommitModel;

    open spec fn view(&self) -> CommitModel {
        CommitModel {
            sha1: self.sha1@,
            title: self.title@,
            author: self.author@,
            time: self.time as int,
            url: match self.url {
                Some(u) => Some(u@),
                None => None,
            },
            benches: benches_view(self.benches@),
        }
    }
}

impl View for Bench {
    type V = BenchModel;

    open spec fn view(&self) -> BenchModel {
        BenchModel {
            name: self.name@,
            unit: self.unit@,
            means: self.means@,
            sds: self.sds@,
        }
    }
}

impl View for RenderData {
    type V = RenderDataModel;

    open spec fn view(&self) -> RenderDataModel {
        RenderDataModel {
            benches: self.benches@.map_values(|b: Bench| b@),
            xlabels: strs_view(self.xlabels@),
        }
    }
}

impl View for AggregationError {
    type V = ErrorModel;

    open spec fn view(&self) -> ErrorModel {
        match self {
            AggregationError::UnitConflict { name, unit_a, unit_b } => ErrorModel::UnitConflict {
                name: name@,
                unit_a: unit_a@,
                unit_b: unit_b@,
            },
            AggregationError::MalformedRecord { reason } => ErrorModel::MalformedRecord {
                reason: reason@,
            },
        }
    }
}

/// The spec-level image of a whole commit list.
pub open spec fn commits_view(s: Seq<Commit>) -> Seq<CommitModel> {
    s.map_values(|c: Commit| c@)
}

impl Bench {
    /// A fresh series for one benchmark name, with no entries yet.
    pub fn new(name: String, unit: String) -> (b: Bench)
        ensures
            b@ == (BenchModel { name: name@, unit: unit@, means: Seq::empty(), sds: Seq::empty() }),
    {
        Bench { name, unit, means: Vec::new(), sds: Vec::new() }
    }
}

} // verus!
