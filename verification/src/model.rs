//! The mathematical definition of aggregation.
//!
//! `aggregate_spec` pins down the whole pass as a function of the input
//! commit sequence: a stable insertion sort by commit time, a single
//! left-to-right scan that builds labels, discovers benchmark names and
//! validates units, and a dense alignment that gives every discovered
//! benchmark exactly one slot per commit.

use vstd::prelude::*;

use crate::data::{BenchModel, CommitModel, ErrorModel, RenderDataModel, SampleModel};

verus! {

/// The first sample registered under `name`, scanning left to right.
pub open spec fn lookup(benches: Seq<(Seq<char>, SampleModel)>, name: Seq<char>) -> Option<
    SampleModel,
>
    decreases benches.len(),
{
    if benches.len() == 0 {
        None
    } else if benches[0].0 == name {
        Some(benches[0].1)
    } else {
        lookup(benches.drop_first(), name)
    }
}

/// The unit fixed for `name` by a discovery list, scanning left to
/// right; `None` when the name has not been seen yet.
pub open spec fn unit_lookup(disc: Seq<(Seq<char>, Seq<char>)>, name: Seq<char>) -> Option<
    Seq<char>,
>
    decreases disc.len(),
{
    if disc.len() == 0 {
        None
    } else if disc[0].0 == name {
        Some(disc[0].1)
    } else {
        unit_lookup(disc.drop_first(), name)
    }
}

/// The display label of one commit: its title followed by the first six
/// characters of its identifier in parentheses.
pub open spec fn label_of(c: CommitModel) -> Seq<char> {
    c.title + " ("@ + c.sha1.take(6) + ")"@
}

/// Chronological order: no later position holds an earlier time.
pub open spec fn sorted_by_time(s: Seq<CommitModel>) -> bool {
    forall|i: int, j: int| 0 <= i <= j < s.len() ==> s[i].time <= s[j].time
}

/// No two commits share a time.
pub open spec fn times_distinct(s: Seq<CommitModel>) -> bool {
    forall|i: int, j: int| 0 <= i < j < s.len() ==> s[i].time != s[j].time
}

/// Stable insertion of one commit into a chronologically sorted
/// sequence: `c` lands after every commit whose time is at or before
/// its own.
pub open spec fn insort(s: Seq<CommitModel>, c: CommitModel) -> Seq<CommitModel>
    decreases s.len(),
{
    if s.len() == 0 {
        seq![c]
    } else if s.last().time <= c.time {
        s.push(c)
    } else {
        insort(s.drop_last(), c).push(s.last())
    }
}

/// Stable insertion sort by commit time: commits are inserted in input
/// order, so equal times keep their relative input order.
pub open spec fn sort_by_time(s: Seq<CommitModel>) -> Seq<CommitModel>
    decreases s.len(),
{
    if s.len() == 0 {
        Seq::empty()
    } else {
        insort(sort_by_time(s.drop_last()), s.last())
    }
}

/// One commit's benchmark entries folded into the discovery list, left
/// to right: an unseen name is appended with its unit; a seen name must
/// repeat the unit fixed at first sight, else the fold stops with a
/// `UnitConflict` naming both units.
pub open spec fn discover_benches(
    disc: Seq<(Seq<char>, Seq<char>)>,
    benches: Seq<(Seq<char>, SampleModel)>,
) -> Result<Seq<(Seq<char>, Seq<char>)>, ErrorModel>
    decreases benches.len(),
{
    if benches.len() == 0 {
        Ok(disc)
    } else {
        match discover_benches(disc, benches.drop_last()) {
            Err(e) => Err(e),
            Ok(d) => {
                let name = benches.last().0;
                let unit = benches.last().1.unit;
                match unit_lookup(d, name) {
                    Some(u) => if u == unit {
                        Ok(d)
                    } else {
                        Err(ErrorModel::UnitConflict { name, unit_a: u, unit_b: unit })
                    },
                    None => Ok(d.push((name, unit))),
                }
            },
        }
    }
}

/// The reason reported when a commit identifier is too short to label.
pub open spec fn short_sha_reason() -> Seq<char> {
    "commit sha1 has fewer than 6 characters"@
}

/// The whole validation scan over chronologically sorted commits: each
/// commit's identifier must have at least six characters, then its
/// benchmark entries are folded into the discovery list. The first
/// failure, in scan order, is the result.
pub open spec fn scan(s: Seq<CommitModel>) -> Result<Seq<(Seq<char>, Seq<char>)>, ErrorModel>
    decreases s.len(),
{
    if s.len() == 0 {
        Ok(Seq::empty())
    } else {
        match scan(s.drop_last()) {
            Err(e) => Err(e),
            Ok(d) => {
                let c = s.last();
                if c.sha1.len() < 6 {
                    Err(ErrorModel::MalformedRecord { reason: short_sha_reason() })
                } else {
                    discover_benches(d, c.benches)
                }
            },
        }
    }
}

/// The dense mean series of one benchmark name over sorted commits:
/// the reported mean where the commit has the name, a hole where not.
pub open spec fn means_of(s: Seq<CommitModel>, name: Seq<char>) -> Seq<Option<u64>> {
    Seq::new(
        s.len(),
        |i: int|
            match lookup(s[i].benches, name) {
                Some(smp) => Some(smp.mean),
                None => None,
            },
    )
}

/// The dense deviation series of one benchmark name over sorted
/// commits: a hole both where the commit lacks the name and where the
/// sample recorded no deviation.
pub open spec fn sds_of(s: Seq<CommitModel>, name: Seq<char>) -> Seq<Option<u64>> {
    Seq::new(
        s.len(),
        |i: int|
            match lookup(s[i].benches, name) {
                Some(smp) => smp.sd,
                None => None,
            },
    )
}

/// One aligned series.
pub open spec fn bench_of(s: Seq<CommitModel>, name: Seq<char>, unit: Seq<char>) -> BenchModel {
    BenchModel { name, unit, means: means_of(s, name), sds: sds_of(s, name) }
}

/// The labels of sorted commits, in order.
pub open spec fn labels_of(s: Seq<CommitModel>) -> Seq<Seq<char>> {
    Seq::new(s.len(), |i: int| label_of(s[i]))
}

/// The aggregation result over sorted commits and a discovery list:
/// one series per discovered name, in first-seen order.
pub open spec fn render_of(
    s: Seq<CommitModel>,
    disc: Seq<(Seq<char>, Seq<char>)>,
) -> RenderDataModel {
    RenderDataModel {
        benches: Seq::new(disc.len(), |j: int| bench_of(s, disc[j].0, disc[j].1)),
        xlabels: labels_of(s),
    }
}

/// A lookup that skipped only mismatching entries has lost nothing.
pub proof fn lemma_lookup_skip(bs: Seq<(Seq<char>, SampleModel)>, n: Seq<char>, i: int)
    requires
        0 <= i <= bs.len(),
        forall|j: int| 0 <= j < i ==> bs[j].0 != n,
    ensures
        lookup(bs, n) == lookup(bs.skip(i), n),
    decreases i,
{
    if i == 0 {
        assert(bs.skip(0) =~= bs);
    } else {
        lemma_lookup_skip(bs.drop_first(), n, i - 1);
        assert(bs.drop_first().skip(i - 1) =~= bs.skip(i));
    }
}

/// A unit lookup that skipped only mismatching entries has lost
/// nothing.
pub proof fn lemma_unit_lookup_skip(disc: Seq<(Seq<char>, Seq<char>)>, n: Seq<char>, i: int)
    requires
        0 <= i <= disc.len(),
        forall|j: int| 0 <= j < i ==> disc[j].0 != n,
    ensures
        unit_lookup(disc, n) == unit_lookup(disc.skip(i), n),
    decreases i,
{
    if i == 0 {
        assert(disc.skip(0) =~= disc);
    } else {
        lemma_unit_lookup_skip(disc.drop_first(), n, i - 1);
        assert(disc.drop_first().skip(i - 1) =~= disc.skip(i));
    }
}

/// One more benchmark entry extends the discovery fold by one step.
pub proof fn lemma_discover_step(
    disc: Seq<(Seq<char>, Seq<char>)>,
    bs: Seq<(Seq<char>, SampleModel)>,
    j: int,
)
    requires
        0 <= j < bs.len(),
    ensures
        discover_benches(disc, bs.take(j + 1)) == (match discover_benches(disc, bs.take(j)) {
            Err(e) => Err(e),
            Ok(d) => {
                match unit_lookup(d, bs[j].0) {
                    Some(u) => if u == bs[j].1.unit {
                        Ok(d)
                    } else {
                        Err(
                            ErrorModel::UnitConflict {
                                name: bs[j].0,
                                unit_a: u,
                                unit_b: bs[j].1.unit,
                            },
                        )
                    },
                    None => Ok(d.push((bs[j].0, bs[j].1.unit))),
                }
            },
        }),
{
    assert(bs.take(j + 1).drop_last() =~= bs.take(j));
    assert(bs.take(j + 1).last() == bs[j]);
}

/// A failed discovery prefix fails the whole fold with the same error.
pub proof fn lemma_discover_prefix_err(
    disc: Seq<(Seq<char>, Seq<char>)>,
    bs: Seq<(Seq<char>, SampleModel)>,
    j: int,
    e: ErrorModel,
)
    requires
        0 <= j <= bs.len(),
        discover_benches(disc, bs.take(j)) == Err::<Seq<(Seq<char>, Seq<char>)>, ErrorModel>(e),
    ensures
        discover_benches(disc, bs) == Err::<Seq<(Seq<char>, Seq<char>)>, ErrorModel>(e),
    decreases bs.len() - j,
{
    if j == bs.len() {
        assert(bs.take(j) =~= bs);
    } else {
        lemma_discover_step(disc, bs, j);
        lemma_discover_prefix_err(disc, bs, j + 1, e);
    }
}

/// One more commit extends the validation scan by one step.
pub proof fn lemma_scan_step(s: Seq<CommitModel>, i: int)
    requires
        0 <= i < s.len(),
    ensures
        scan(s.take(i + 1)) == (match scan(s.take(i)) {
            Err(e) => Err(e),
            Ok(d) => {
                if s[i].sha1.len() < 6 {
                    Err(ErrorModel::MalformedRecord { reason: short_sha_reason() })
                } else {
                    discover_benches(d, s[i].benches)
                }
            },
        }),
{
    assert(s.take(i + 1).drop_last() =~= s.take(i));
    assert(s.take(i + 1).last() == s[i]);
}

/// A failed scan prefix fails the whole scan with the same error.
pub proof fn lemma_scan_prefix_err(s: Seq<CommitModel>, i: int, e: ErrorModel)
    requires
        0 <= i <= s.len(),
        scan(s.take(i)) == Err::<Seq<(Seq<char>, Seq<char>)>, ErrorModel>(e),
    ensures
        scan(s) == Err::<Seq<(Seq<char>, Seq<char>)>, ErrorModel>(e),
    decreases s.len() - i,
{
    if i == s.len() {
        assert(s.take(i) =~= s);
    } else {
        lemma_scan_step(s, i);
        lemma_scan_prefix_err(s, i + 1, e);
    }
}

/// What aggregation returns, as a function of the input commit list
/// alone.
pub open spec fn aggregate_spec(input: Seq<CommitModel>) -> Result<RenderDataModel, ErrorModel> {
    let s = sort_by_time(input);
    match scan(s) {
        Err(e) => Err(e),
        Ok(disc) => Ok(render_of(s, disc)),
    }
}

} // verus!
