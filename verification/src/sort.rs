//! Chronological ordering of commits: a stable insertion sort, pinned
//! to the spec-level `sort_by_time`.

use vstd::prelude::*;
use vstd::multiset::Multiset;

use crate::data::{Commit, CommitModel, commits_view};
use crate::model::{insort, sort_by_time, sorted_by_time};

verus! {

/// Inserting at the stable position is what `insort` computes: `c` goes
/// right after the last element whose time is at or before `c`'s.
proof fn lemma_insort_at(s: Seq<CommitModel>, c: CommitModel, p: int)
    requires
        0 <= p <= s.len(),
        forall|j: int| p <= j < s.len() ==> s[j].time > c.time,
        p > 0 ==> s[p - 1].time <= c.time,
    ensures
        insort(s, c) == s.insert(p, c),
    decreases s.len(),
{
    if s.len() == 0 {
        assert(insort(s, c) =~= s.insert(0, c));
    } else if s.last().time <= c.time {
        assert(p == s.len());
        assert(s.push(c) =~= s.insert(p, c));
    } else {
        assert(p < s.len());
        lemma_insort_at(s.drop_last(), c, p);
        assert(insort(s.drop_last(), c).push(s.last()) =~= s.insert(p, c));
    }
}

/// Viewing commutes with insertion.
proof fn lemma_view_insert(s: Seq<Commit>, p: int, c: Commit)
    requires
        0 <= p <= s.len(),
    ensures
        commits_view(s.insert(p, c)) == commits_view(s).insert(p, c@),
{
    assert(commits_view(s.insert(p, c)) =~= commits_view(s).insert(p, c@));
}

/// Extending a sorted prefix by one input commit is one `insort` step.
proof fn lemma_sort_step(v: Seq<CommitModel>, k: int)
    requires
        0 <= k < v.len(),
    ensures
        sort_by_time(v.take(k + 1)) == insort(sort_by_time(v.take(k)), v[k]),
{
    assert(v.take(k + 1).drop_last() =~= v.take(k));
    assert(v.take(k + 1).last() == v[k]);
}

/// Sort the commits by time, ascending; commits with equal times keep
/// their relative input order. The result is exactly the stable
/// insertion sort of the input.
pub fn sort_commits(commits: Vec<Commit>) -> (r: Vec<Commit>)
    ensures
        commits_view(r@) == sort_by_time(commits_view(commits@)),
{
    let ghost v: Seq<CommitModel> = commits_view(commits@);
    let mut rest = commits;
    let mut sorted: Vec<Commit> = Vec::new();
    let ghost mut k: int = 0;
    proof {
        assert(commits_view(rest@.skip(0)) =~= commits_view(rest@));
        assert(v.take(v.len() as int) =~= v);
    }
    while rest.len() > 0
        invariant
            0 <= k <= v.len(),
            k + rest@.len() == v.len(),
            commits_view(rest@) == v.skip(k),
            commits_view(sorted@) == sort_by_time(v.take(k)),
        decreases rest@.len(),
    {
        let ghost old_rest = rest@;
        let ghost old_sorted = sorted@;
        let c = rest.remove(0);
        proof {
            assert(c@ == commits_view(old_rest)[0]);
            assert(c@ == v[k]);
            assert(commits_view(old_rest.remove(0)) =~= commits_view(old_rest).remove(0));
            assert(commits_view(rest@) =~= v.skip(k + 1));
        }
        let mut pos: usize = sorted.len();
        while pos > 0 && sorted[pos - 1].time > c.time
            invariant
                pos <= sorted@.len(),
                forall|j: int|
                    pos <= j < sorted@.len() ==> commits_view(sorted@)[j].time > c@.time,
            decreases pos,
        {
            proof {
                assert(commits_view(sorted@)[pos - 1].time == sorted@[pos - 1].time as int);
            }
            pos = pos - 1;
        }
        proof {
            if pos > 0 {
                assert(commits_view(sorted@)[pos - 1].time == sorted@[pos - 1].time as int);
            }
        }
        sorted.insert(pos, c);
        proof {
            lemma_insort_at(commits_view(old_sorted), c@, pos as int);
            lemma_view_insert(old_sorted, pos as int, c);
            lemma_sort_step(v, k);
            k = k + 1;
        }
    }
    proof {
        assert(v.take(k) =~= v);
    }
    sorted
}

/// `insort` lengthens the sequence by one.
proof fn lemma_insort_len(s: Seq<CommitModel>, c: CommitModel)
    ensures
        insort(s, c).len() == s.len() + 1,
    decreases s.len(),
{
    if s.len() == 0 {
    } else if s.last().time <= c.time {
    } else {
        lemma_insort_len(s.drop_last(), c);
    }
}

/// Every element of `insort(s, c)` is `c` or an element of `s`.
proof fn lemma_insort_elems(s: Seq<CommitModel>, c: CommitModel, i: int)
    requires
        0 <= i < insort(s, c).len(),
    ensures
        insort(s, c)[i] == c || exists|j: int| 0 <= j < s.len() && insort(s, c)[i] == s[j],
    decreases s.len(),
{
    lemma_insort_len(s, c);
    if s.len() == 0 {
    } else if s.last().time <= c.time {
    } else {
        lemma_insort_len(s.drop_last(), c);
        if i < insort(s, c).len() - 1 {
            lemma_insort_elems(s.drop_last(), c, i);
            if insort(s.drop_last(), c)[i] != c {
                let j = choose|j: int|
                    0 <= j < s.drop_last().len() && insort(s.drop_last(), c)[i] == s.drop_last()[j];
                assert(s.drop_last()[j] == s[j]);
                assert(insort(s, c)[i] == s[j]);
            }
        } else {
            assert(insort(s, c)[i] == s[s.len() - 1]);
        }
    }
}

/// `insort` keeps a sequence chronologically sorted.
proof fn lemma_insort_sorted(s: Seq<CommitModel>, c: CommitModel)
    requires
        sorted_by_time(s),
    ensures
        sorted_by_time(insort(s, c)),
    decreases s.len(),
{
    if s.len() == 0 {
    } else if s.last().time <= c.time {
        assert(sorted_by_time(s.push(c)));
    } else {
        assert(sorted_by_time(s.drop_last()));
        lemma_insort_sorted(s.drop_last(), c);
        lemma_insort_len(s.drop_last(), c);
        let t = insort(s.drop_last(), c);
        let r = t.push(s.last());
        assert forall|i: int, j: int| 0 <= i <= j < r.len() implies r[i].time <= r[j].time by {
            if j < t.len() {
                assert(r[i] == t[i] && r[j] == t[j]);
                assert(t[i].time <= t[j].time);
            } else {
                assert(r[j] == s.last());
                if i < t.len() {
                    lemma_insort_elems(s.drop_last(), c, i);
                    if t[i] != c {
                        let k = choose|k: int|
                            0 <= k < s.drop_last().len() && t[i] == s.drop_last()[k];
                        assert(s[k].time <= s[s.len() - 1].time);
                    }
                }
            }
        }
    }
}

/// The stable sort is chronologically sorted.
pub proof fn lemma_sort_sorted(s: Seq<CommitModel>)
    ensures
        sorted_by_time(sort_by_time(s)),
    decreases s.len(),
{
    if s.len() == 0 {
    } else {
        lemma_sort_sorted(s.drop_last());
        lemma_insort_sorted(sort_by_time(s.drop_last()), s.last());
    }
}

/// The stable sort keeps the length of its input.
pub proof fn lemma_sort_len(s: Seq<CommitModel>)
    ensures
        sort_by_time(s).len() == s.len(),
    decreases s.len(),
{
    if s.len() > 0 {
        lemma_sort_len(s.drop_last());
        lemma_insort_len(sort_by_time(s.drop_last()), s.last());
    }
}

/// `insort` adds exactly its element to the multiset of the sequence.
proof fn lemma_insort_multiset(s: Seq<CommitModel>, c: CommitModel)
    ensures
        insort(s, c).to_multiset() == s.to_multiset().insert(c),
    decreases s.len(),
{
    broadcast use vstd::seq_lib::group_to_multiset_ensures;

    if s.len() == 0 {
        assert(seq![c] =~= Seq::empty().push(c));
        assert(Seq::<CommitModel>::empty().to_multiset() =~= Multiset::empty());
    } else if s.last().time <= c.time {
    } else {
        lemma_insort_multiset(s.drop_last(), c);
        assert(s.drop_last().push(s.last()) =~= s);
        assert(insort(s.drop_last(), c).push(s.last()).to_multiset() == insort(
            s.drop_last(),
            c,
        ).to_multiset().insert(s.last()));
        assert(s.drop_last().to_multiset().insert(c).insert(s.last())
            =~= s.drop_last().to_multiset().insert(s.last()).insert(c));
        assert(s.drop_last().push(s.last()).to_multiset() == s.drop_last().to_multiset().insert(
            s.last(),
        ));
    }
}

/// The stable sort is a permutation of its input.
pub proof fn lemma_sort_multiset(s: Seq<CommitModel>)
    ensures
        sort_by_time(s).to_multiset() == s.to_multiset(),
    decreases s.len(),
{
    broadcast use vstd::seq_lib::group_to_multiset_ensures;

    if s.len() == 0 {
        assert(sort_by_time(s) =~= s);
    } else {
        lemma_sort_multiset(s.drop_last());
        lemma_insort_multiset(sort_by_time(s.drop_last()), s.last());
        assert(s.drop_last().push(s.last()) =~= s);
        assert(s.drop_last().push(s.last()).to_multiset() == s.drop_last().to_multiset().insert(
            s.last(),
        ));
    }
}

} // verus!
