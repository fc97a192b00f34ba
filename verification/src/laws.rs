//! The laws the aggregation engine obeys, proved once and for all over
//! `aggregate_spec` — which `aggregate` is proved to compute exactly.

use vstd::prelude::*;

use crate::data::{CommitModel, RenderDataModel};
use crate::model::{
    aggregate_spec, discover_benches, label_of, labels_of, lookup, scan, sort_by_time,
    sorted_by_time, times_distinct, unit_lookup,
};
use crate::sort::{lemma_sort_len, lemma_sort_multiset, lemma_sort_sorted};

verus! {

/// Two equal entries at different positions give their value a
/// multiplicity of at least two.
proof fn lemma_count_two(s: Seq<CommitModel>, i: int, j: int)
    requires
        0 <= i < j < s.len(),
        s[i] == s[j],
    ensures
        s.to_multiset().count(s[i]) >= 2,
{
    broadcast use vstd::seq_lib::group_to_multiset_ensures;
    broadcast use vstd::multiset::group_multiset_axioms;

    let t = s.remove(i);
    assert(t.to_multiset() =~= s.to_multiset().remove(s[i]));
    assert(t[j - 1] == s[j]);
    assert(t.contains(s[i]));
    assert(t.to_multiset().count(s[i]) > 0);
}

/// A value with multiplicity at least two sits at two different
/// positions.
proof fn lemma_two_positions(s: Seq<CommitModel>, v: CommitModel) -> (r: (int, int))
    requires
        s.to_multiset().count(v) >= 2,
    ensures
        0 <= r.0 < r.1 < s.len(),
        s[r.0] == v,
        s[r.1] == v,
{
    broadcast use vstd::seq_lib::group_to_multiset_ensures;
    broadcast use vstd::multiset::group_multiset_axioms;

    assert(s.contains(v));
    let i = choose|i: int| 0 <= i < s.len() && s[i] == v;
    let t = s.remove(i);
    assert(t.to_multiset() =~= s.to_multiset().remove(v));
    assert(t.to_multiset().count(v) >= 1);
    assert(t.contains(v));
    let j = choose|j: int| 0 <= j < t.len() && t[j] == v;
    if j < i {
        assert(s[j] == t[j]);
        (j, i)
    } else {
        assert(s[j + 1] == t[j]);
        (i, j + 1)
    }
}

/// Distinct commit times survive any reordering: a permutation of a
/// sequence whose times are pairwise distinct has pairwise distinct
/// times too.
pub proof fn lemma_times_distinct_perm(s: Seq<CommitModel>, t: Seq<CommitModel>)
    requires
        s.to_multiset() == t.to_multiset(),
        times_distinct(s),
    ensures
        times_distinct(t),
{
    broadcast use vstd::seq_lib::group_to_multiset_ensures;
    broadcast use vstd::multiset::group_multiset_axioms;

    assert forall|i: int, j: int| 0 <= i < j < t.len() implies t[i].time != t[j].time by {
        if t[i].time == t[j].time {
            if t[i] == t[j] {
                lemma_count_two(t, i, j);
                let (p, q) = lemma_two_positions(s, t[i]);
                assert(s[p].time != s[q].time);
            } else {
                assert(t.contains(t[i]));
                assert(t.contains(t[j]));
                assert(s.to_multiset().count(t[i]) > 0);
                assert(s.to_multiset().count(t[j]) > 0);
                assert(s.contains(t[i]));
                assert(s.contains(t[j]));
                let p = choose|p: int| 0 <= p < s.len() && s[p] == t[i];
                let q = choose|q: int| 0 <= q < s.len() && s[q] == t[j];
                assert(p != q);
                if p < q {
                    assert(s[p].time != s[q].time);
                } else {
                    assert(s[q].time != s[p].time);
                }
            }
        }
    }
}

/// A chronologically sorted arrangement of commits with pairwise
/// distinct times is unique: two sorted permutations of the same
/// commits are equal.
pub proof fn lemma_sorted_unique(a: Seq<CommitModel>, b: Seq<CommitModel>)
    requires
        sorted_by_time(a),
        sorted_by_time(b),
        a.to_multiset() == b.to_multiset(),
        times_distinct(a),
        times_distinct(b),
    ensures
        a == b,
    decreases a.len(),
{
    broadcast use vstd::seq_lib::group_to_multiset_ensures;
    broadcast use vstd::multiset::group_multiset_axioms;

    if a.len() == 0 {
        assert(a =~= b);
    } else {
        assert(a.to_multiset().len() == a.len());
        assert(b.to_multiset().len() == b.len());
        assert(b.len() == a.len());
        assert(a.contains(a.last()));
        assert(b.to_multiset().count(a.last()) > 0);
        assert(b.contains(a.last()));
        let ia = choose|i: int| 0 <= i < b.len() && b[i] == a.last();
        assert(b.contains(b.last()));
        assert(a.to_multiset().count(b.last()) > 0);
        assert(a.contains(b.last()));
        let ib = choose|i: int| 0 <= i < a.len() && a[i] == b.last();
        assert(b[ia].time <= b.last().time);
        assert(a[ib].time <= a.last().time);
        assert(a.last().time == b.last().time);
        assert(a.last() == b.last()) by {
            if ia < b.len() - 1 {
                assert(b[ia].time != b[b.len() - 1].time);
                assert(false);
            }
        }
        let a2 = a.drop_last();
        let b2 = b.drop_last();
        assert(a2.push(a.last()) =~= a);
        assert(b2.push(b.last()) =~= b);
        assert(a2.push(a.last()).to_multiset() == a2.to_multiset().insert(a.last()));
        assert(b2.push(b.last()).to_multiset() == b2.to_multiset().insert(b.last()));
        assert forall|x: CommitModel| a2.to_multiset().count(x) == b2.to_multiset().count(x) by {
            assert(a2.to_multiset().insert(a.last()).count(x) == b2.to_multiset().insert(
                b.last(),
            ).count(x));
        }
        assert(a2.to_multiset() =~= b2.to_multiset());
        lemma_sorted_unique(a2, b2);
        assert(a =~= b);
    }
}

/// Aggregation is a pure function of the commits themselves, not of
/// the order they were supplied in: two input lists holding the same
/// commits, all with distinct times, aggregate to the same result.
///
/// Commits with equal times are the one exception left open: their
/// relative order is taken from the input list, by design.
pub proof fn lemma_aggregate_deterministic(a: Seq<CommitModel>, b: Seq<CommitModel>)
    requires
        a.to_multiset() == b.to_multiset(),
        times_distinct(a),
    ensures
        aggregate_spec(a) == aggregate_spec(b),
{
    lemma_sort_sorted(a);
    lemma_sort_sorted(b);
    lemma_sort_multiset(a);
    lemma_sort_multiset(b);
    lemma_times_distinct_perm(a, sort_by_time(a));
    lemma_times_distinct_perm(a, sort_by_time(b));
    lemma_sorted_unique(sort_by_time(a), sort_by_time(b));
}

/// Rectangularity: every series in a successful aggregation has
/// exactly one mean and one deviation entry per commit label, and
/// there is one label per input commit.
pub proof fn lemma_rectangular(input: Seq<CommitModel>, rd: RenderDataModel)
    requires
        aggregate_spec(input) == Ok::<RenderDataModel, crate::data::ErrorModel>(rd),
    ensures
        rd.xlabels.len() == input.len(),
        forall|j: int|
            0 <= j < rd.benches.len() ==> #[trigger] rd.benches[j].means.len()
                == rd.xlabels.len() && rd.benches[j].sds.len() == rd.xlabels.len(),
{
    lemma_sort_len(input);
}

/// The missing-value law: in a successful aggregation, the series
/// entry for benchmark `j` at sorted commit position `i` is exactly
/// the commit's reported mean and deviation where the commit has the
/// benchmark, and a hole where it does not.
pub proof fn lemma_missing_value(input: Seq<CommitModel>, rd: RenderDataModel, j: int, i: int)
    requires
        aggregate_spec(input) == Ok::<RenderDataModel, crate::data::ErrorModel>(rd),
        0 <= j < rd.benches.len(),
        0 <= i < rd.xlabels.len(),
    ensures
        lookup(sort_by_time(input)[i].benches, rd.benches[j].name) matches Some(smp) ==> {
            &&& rd.benches[j].means[i] == Some(smp.mean)
            &&& rd.benches[j].sds[i] == smp.sd
        },
        lookup(sort_by_time(input)[i].benches, rd.benches[j].name) is None ==> {
            &&& rd.benches[j].means[i] is None
            &&& rd.benches[j].sds[i] is None
        },
{
}

/// The ordering law: a successful aggregation labels the commits in
/// chronological order — the labels are those of a time-sorted
/// permutation of the input.
pub proof fn lemma_ordering(input: Seq<CommitModel>, rd: RenderDataModel)
    requires
        aggregate_spec(input) == Ok::<RenderDataModel, crate::data::ErrorModel>(rd),
    ensures
        sorted_by_time(sort_by_time(input)),
        sort_by_time(input).to_multiset() == input.to_multiset(),
        rd.xlabels == labels_of(sort_by_time(input)),
{
    lemma_sort_sorted(input);
    lemma_sort_multiset(input);
}

/// The ordering law on three commits: supplied in any order, three
/// commits with increasing times are labelled first, second, third.
pub proof fn lemma_three_commit_order(
    c1: CommitModel,
    c2: CommitModel,
    c3: CommitModel,
    input: Seq<CommitModel>,
    rd: RenderDataModel,
)
    requires
        input.to_multiset() == seq![c1, c2, c3].to_multiset(),
        c1.time < c2.time,
        c2.time < c3.time,
        aggregate_spec(input) == Ok::<RenderDataModel, crate::data::ErrorModel>(rd),
    ensures
        rd.xlabels == seq![label_of(c1), label_of(c2), label_of(c3)],
{
    let s = sort_by_time(input);
    let t = seq![c1, c2, c3];
    lemma_sort_sorted(input);
    lemma_sort_multiset(input);
    assert(times_distinct(t)) by {
        assert(t[0] == c1 && t[1] == c2 && t[2] == c3);
    }
    lemma_times_distinct_perm(t, s);
    assert(sorted_by_time(t)) by {
        assert(t[0] == c1 && t[1] == c2 && t[2] == c3);
    }
    lemma_sorted_unique(s, t);
    assert(labels_of(t) =~= seq![label_of(c1), label_of(c2), label_of(c3)]);
}

/// Appending a discovery entry changes no lookup that already
/// succeeded, and answers for the appended name where none did.
proof fn lemma_unit_lookup_push(
    disc: Seq<(Seq<char>, Seq<char>)>,
    pair: (Seq<char>, Seq<char>),
    n: Seq<char>,
)
    ensures
        unit_lookup(disc.push(pair), n) == (if unit_lookup(disc, n) is Some {
            unit_lookup(disc, n)
        } else if pair.0 == n {
            Some(pair.1)
        } else {
            None
        }),
    decreases disc.len(),
{
    if disc.len() == 0 {
        assert(disc.push(pair)[0] == pair);
        assert(disc.push(pair).drop_first() =~= Seq::<(Seq<char>, Seq<char>)>::empty());
    } else {
        assert(disc.push(pair)[0] == disc[0]);
        assert(disc.push(pair).drop_first() =~= disc.drop_first().push(pair));
        lemma_unit_lookup_push(disc.drop_first(), pair, n);
    }
}

/// A unit fixed before a successful discovery fold is still fixed, to
/// the same unit, after it.
proof fn lemma_discover_mono(
    disc: Seq<(Seq<char>, Seq<char>)>,
    bs: Seq<(Seq<char>, crate::data::SampleModel)>,
    n: Seq<char>,
    u: Seq<char>,
)
    requires
        discover_benches(disc, bs) is Ok,
        unit_lookup(disc, n) == Some(u),
    ensures
        discover_benches(disc, bs) matches Ok(dout) && unit_lookup(dout, n) == Some(u),
    decreases bs.len(),
{
    if bs.len() > 0 {
        lemma_discover_mono(disc, bs.drop_last(), n, u);
        let d2 = discover_benches(disc, bs.drop_last())->Ok_0;
        let name = bs.last().0;
        let unit = bs.last().1.unit;
        if unit_lookup(d2, name) is None {
            lemma_unit_lookup_push(d2, (name, unit), n);
        }
    }
}

/// A successful discovery fold fixes, for every entry it folded in,
/// exactly that entry's unit.
proof fn lemma_discover_records(
    disc: Seq<(Seq<char>, Seq<char>)>,
    bs: Seq<(Seq<char>, crate::data::SampleModel)>,
    j: int,
)
    requires
        discover_benches(disc, bs) is Ok,
        0 <= j < bs.len(),
    ensures
        discover_benches(disc, bs) matches Ok(dout) && unit_lookup(dout, bs[j].0) == Some(
            bs[j].1.unit,
        ),
    decreases bs.len(),
{
    let d2 = discover_benches(disc, bs.drop_last())->Ok_0;
    let name = bs.last().0;
    let unit = bs.last().1.unit;
    if j == bs.len() - 1 {
        if unit_lookup(d2, name) is None {
            lemma_unit_lookup_push(d2, (name, unit), name);
        }
    } else {
        assert(bs.drop_last()[j] == bs[j]);
        lemma_discover_records(disc, bs.drop_last(), j);
        assert(seq![bs.last()].drop_last() =~= Seq::<
            (Seq<char>, crate::data::SampleModel),
        >::empty());
        assert(seq![bs.last()].last() == bs.last());
        assert(discover_benches(d2, seq![bs.last()]) == discover_benches(disc, bs)) by {
            reveal_with_fuel(discover_benches, 2);
        }
        lemma_discover_mono(d2, seq![bs.last()], bs[j].0, bs[j].1.unit);
    }
}

/// A successful scan fixes, for every benchmark entry of every
/// scanned commit, exactly that entry's unit.
proof fn lemma_scan_records(s: Seq<CommitModel>, i: int, j: int)
    requires
        scan(s) is Ok,
        0 <= i < s.len(),
        0 <= j < s[i].benches.len(),
    ensures
        scan(s) matches Ok(dout) && unit_lookup(dout, s[i].benches[j].0) == Some(
            s[i].benches[j].1.unit,
        ),
    decreases s.len(),
{
    let d = scan(s.drop_last())->Ok_0;
    if i == s.len() - 1 {
        lemma_discover_records(d, s.last().benches, j);
    } else {
        assert(s.drop_last()[i] == s[i]);
        lemma_scan_records(s.drop_last(), i, j);
        lemma_discover_mono(d, s.last().benches, s[i].benches[j].0, s[i].benches[j].1.unit);
    }
}

/// Unit consistency: aggregation succeeds only when every two reports
/// of the same benchmark name, anywhere in the input, agree on the
/// unit. Two commits reporting one name with two units make every
/// aggregation of them fail.
pub proof fn lemma_unit_consistency(
    input: Seq<CommitModel>,
    c1: CommitModel,
    c2: CommitModel,
    j1: int,
    j2: int,
)
    requires
        aggregate_spec(input) is Ok,
        input.contains(c1),
        input.contains(c2),
        0 <= j1 < c1.benches.len(),
        0 <= j2 < c2.benches.len(),
        c1.benches[j1].0 == c2.benches[j2].0,
    ensures
        c1.benches[j1].1.unit == c2.benches[j2].1.unit,
{
    broadcast use vstd::seq_lib::group_to_multiset_ensures;

    let s = sort_by_time(input);
    lemma_sort_multiset(input);
    assert(input.to_multiset().count(c1) > 0);
    assert(input.to_multiset().count(c2) > 0);
    assert(s.contains(c1));
    assert(s.contains(c2));
    let i1 = choose|i: int| 0 <= i < s.len() && s[i] == c1;
    let i2 = choose|i: int| 0 <= i < s.len() && s[i] == c2;
    lemma_scan_records(s, i1, j1);
    lemma_scan_records(s, i2, j2);
}

/// Some commit in `s` reports benchmark `n` with unit `u`.
pub open spec fn entry_in(s: Seq<CommitModel>, n: Seq<char>, u: Seq<char>) -> bool {
    exists|c: CommitModel, j: int|
        s.contains(c) && 0 <= j < c.benches.len() && c.benches[j].0 == n && c.benches[j].1.unit
            == u
}

/// Every benchmark name is reported with one unit only, over the whole
/// input.
pub open spec fn unit_consistent(s: Seq<CommitModel>) -> bool {
    forall|n: Seq<char>, u1: Seq<char>, u2: Seq<char>|
        #[trigger] entry_in(s, n, u1) && #[trigger] entry_in(s, n, u2) ==> u1 == u2
}

/// A discovery list is sound when each of its pairs was reported by
/// some commit.
spec fn disc_sound(s: Seq<CommitModel>, disc: Seq<(Seq<char>, Seq<char>)>) -> bool {
    forall|p: int| 0 <= p < disc.len() ==> #[trigger] entry_in(s, disc[p].0, disc[p].1)
}

/// Folding entries that a commit of a unit-consistent input reports
/// into a sound discovery list cannot fail, and keeps the list sound.
proof fn lemma_discover_ok(
    s: Seq<CommitModel>,
    disc: Seq<(Seq<char>, Seq<char>)>,
    c: CommitModel,
    bs: Seq<(Seq<char>, crate::data::SampleModel)>,
)
    requires
        unit_consistent(s),
        s.contains(c),
        disc_sound(s, disc),
        forall|j: int|
            0 <= j < bs.len() ==> exists|j2: int|
                0 <= j2 < c.benches.len() && (#[trigger] bs[j]) == #[trigger] c.benches[j2],
    ensures
        discover_benches(disc, bs) matches Ok(d2) && disc_sound(s, d2),
    decreases bs.len(),
{
    if bs.len() > 0 {
        assert forall|j: int| 0 <= j < bs.drop_last().len() implies exists|j2: int|
            0 <= j2 < c.benches.len() && (#[trigger] bs.drop_last()[j]) == #[trigger] c.benches[j2] by {
            assert(bs.drop_last()[j] == bs[j]);
        }
        lemma_discover_ok(s, disc, c, bs.drop_last());
        let d2 = discover_benches(disc, bs.drop_last())->Ok_0;
        let n = bs.last().0;
        let u = bs.last().1.unit;
        let j2 = choose|j2: int| 0 <= j2 < c.benches.len() && bs.last() == c.benches[j2];
        assert(entry_in(s, n, u));
        match unit_lookup(d2, n) {
            Some(u0) => {
                let p = lemma_unit_lookup_found(d2, n);
                assert(entry_in(s, n, u0));
                assert(u0 == u);
            },
            None => {
                assert(disc_sound(s, d2.push((n, u)))) by {
                    assert forall|p: int| 0 <= p < d2.len() + 1 implies entry_in(
                        s,
                        d2.push((n, u))[p].0,
                        d2.push((n, u))[p].1,
                    ) by {
                        if p < d2.len() {
                            assert(d2.push((n, u))[p] == d2[p]);
                            assert(entry_in(s, d2[p].0, d2[p].1));
                        }
                    }
                }
            },
        }
    }
}

/// A successful unit lookup names a pair that sits in the list.
proof fn lemma_unit_lookup_found(disc: Seq<(Seq<char>, Seq<char>)>, n: Seq<char>) -> (p: int)
    requires
        unit_lookup(disc, n) is Some,
    ensures
        0 <= p < disc.len(),
        disc[p].0 == n,
        Some(disc[p].1) == unit_lookup(disc, n),
    decreases disc.len(),
{
    if disc[0].0 == n {
        0
    } else {
        let q = lemma_unit_lookup_found(disc.drop_first(), n);
        assert(disc.drop_first()[q] == disc[q + 1]);
        q + 1
    }
}

/// Scanning commits drawn from a unit-consistent input with long
/// enough identifiers cannot fail.
proof fn lemma_scan_ok(all: Seq<CommitModel>, s: Seq<CommitModel>)
    requires
        unit_consistent(all),
        forall|c: CommitModel| #[trigger] all.contains(c) ==> c.sha1.len() >= 6,
        forall|i: int| 0 <= i < s.len() ==> all.contains(#[trigger] s[i]),
    ensures
        scan(s) matches Ok(d) && disc_sound(all, d),
    decreases s.len(),
{
    if s.len() > 0 {
        assert forall|i: int| 0 <= i < s.drop_last().len() implies all.contains(
            #[trigger] s.drop_last()[i],
        ) by {
            assert(s.drop_last()[i] == s[i]);
        }
        lemma_scan_ok(all, s.drop_last());
        let d = scan(s.drop_last())->Ok_0;
        let c = s.last();
        assert(all.contains(c));
        assert forall|j: int| 0 <= j < c.benches.len() implies exists|j2: int|
            0 <= j2 < c.benches.len() && (#[trigger] c.benches[j]) == #[trigger] c.benches[j2] by {
            assert(c.benches[j] == c.benches[j]);
        }
        lemma_discover_ok(all, d, c, c.benches);
    }
}

/// Success is owed: when every commit identifier has at least six
/// characters and no benchmark name is reported with two units,
/// aggregation returns a result, never an error.
pub proof fn lemma_success_when_consistent(input: Seq<CommitModel>)
    requires
        unit_consistent(input),
        forall|c: CommitModel| #[trigger] input.contains(c) ==> c.sha1.len() >= 6,
    ensures
        aggregate_spec(input) is Ok,
{
    broadcast use vstd::seq_lib::group_to_multiset_ensures;

    let s = sort_by_time(input);
    lemma_sort_multiset(input);
    assert forall|i: int| 0 <= i < s.len() implies input.contains(#[trigger] s[i]) by {
        assert(s.contains(s[i]));
        assert(input.to_multiset().count(s[i]) > 0);
    }
    lemma_scan_ok(input, s);
}

/// Empty input aggregates successfully to the empty result: no
/// labels, no series.
pub proof fn lemma_empty_input()
    ensures
        aggregate_spec(Seq::empty()) == Ok::<RenderDataModel, crate::data::ErrorModel>(
            RenderDataModel { benches: Seq::empty(), xlabels: Seq::empty() },
        ),
{
    let s = sort_by_time(Seq::<CommitModel>::empty());
    assert(s =~= Seq::<CommitModel>::empty());
    assert(scan(s) == Ok::<Seq<(Seq<char>, Seq<char>)>, crate::data::ErrorModel>(Seq::empty()));
    assert(aggregate_spec(Seq::empty()) matches Ok(m) && m =~= (RenderDataModel {
        benches: Seq::empty(),
        xlabels: Seq::empty(),
    }));
}

} // verus!
