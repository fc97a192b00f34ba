//! The aggregation pass itself: sort, label, discover and validate,
//! then align. Its result is pinned to `aggregate_spec`.

use vstd::prelude::*;
use vstd::string::{StrSliceExecFns, StringExecFns};

use crate::data::{
    AggregationError, Bench, BenchSample, Commit, ErrorModel, RenderData, RenderDataModel,
    benches_view, commits_view, disc_view, strs_view,
};
use crate::model::{
    aggregate_spec, bench_of, discover_benches, label_of, labels_of, lemma_discover_prefix_err,
    lemma_discover_step, lemma_lookup_skip, lemma_scan_prefix_err, lemma_scan_step,
    lemma_unit_lookup_skip, lookup, means_of, scan, sds_of, short_sha_reason, sort_by_time,
    unit_lookup,
};
use crate::sort::sort_commits;

verus! {

/// The first sample stored under `name` in one commit's benchmark
/// entries, if any; agrees with the spec-level `lookup`.
fn find_sample<'a>(benches: &'a Vec<(String, BenchSample)>, name: &String) -> (r: Option<
    &'a BenchSample,
>)
    ensures
        match r {
            Some(smp) => lookup(benches_view(benches@), name@) == Some(smp@),
            None => lookup(benches_view(benches@), name@) is None,
        },
{
    let ghost bs = benches_view(benches@);
    let mut i: usize = 0;
    while i < benches.len()
        invariant
            i <= bs.len(),
            bs == benches_view(benches@),
            forall|j: int| 0 <= j < i ==> bs[j].0 != name@,
        decreases bs.len() - i,
    {
        if benches[i].0 == *name {
            proof {
                lemma_lookup_skip(bs, name@, i as int);
                assert(bs.skip(i as int)[0] == bs[i as int]);
            }
            return Some(&benches[i].1);
        }
        i = i + 1;
    }
    proof {
        lemma_lookup_skip(bs, name@, i as int);
        assert(bs.skip(i as int) =~= Seq::empty());
    }
    None
}

/// The unit fixed for `name` by the discovery list, if the name has
/// been seen; agrees with the spec-level `unit_lookup`.
fn find_unit<'a>(disc: &'a Vec<(String, String)>, name: &String) -> (r: Option<&'a String>)
    ensures
        match r {
            Some(u) => unit_lookup(disc_view(disc@), name@) == Some(u@),
            None => unit_lookup(disc_view(disc@), name@) is None,
        },
{
    let ghost dv = disc_view(disc@);
    let mut i: usize = 0;
    while i < disc.len()
        invariant
            i <= dv.len(),
            dv == disc_view(disc@),
            forall|j: int| 0 <= j < i ==> dv[j].0 != name@,
        decreases dv.len() - i,
    {
        if disc[i].0 == *name {
            proof {
                lemma_unit_lookup_skip(dv, name@, i as int);
                assert(dv.skip(i as int)[0] == dv[i as int]);
            }
            return Some(&disc[i].1);
        }
        i = i + 1;
    }
    proof {
        lemma_unit_lookup_skip(dv, name@, i as int);
        assert(dv.skip(i as int) =~= Seq::empty());
    }
    None
}

/// Align an unordered list of commit records into render data: commits
/// sorted by time, one label per commit, and one dense series per
/// benchmark name discovered in commit-chronological order.
///
/// The whole pass, successes and failures alike, returns exactly what
/// `aggregate_spec` says for this input.
#[verifier::loop_isolation(false)]
pub fn aggregate(commits: Vec<Commit>) -> (r: Result<RenderData, AggregationError>)
    ensures
        match r {
            Ok(rd) => aggregate_spec(commits_view(commits@)) == Ok::<RenderDataModel, ErrorModel>(
                rd@,
            ),
            Err(e) => aggregate_spec(commits_view(commits@)) == Err::<RenderDataModel, ErrorModel>(
                e@,
            ),
        },
{
    let ghost input = commits_view(commits@);
    let sorted = sort_commits(commits);
    let ghost s = sort_by_time(input);

    let mut xlabels: Vec<String> = Vec::new();
    let mut disc: Vec<(String, String)> = Vec::new();
    let mut i: usize = 0;
    proof {
        assert(s.take(0) =~= Seq::empty());
        assert(disc_view(disc@) =~= Seq::empty());
        assert(strs_view(xlabels@) =~= labels_of(s.take(0)));
    }
    while i < sorted.len()
        invariant
            i <= sorted@.len(),
            s == sort_by_time(input),
            s == commits_view(sorted@),
            scan(s.take(i as int)) == Ok::<Seq<(Seq<char>, Seq<char>)>, ErrorModel>(
                disc_view(disc@),
            ),
            strs_view(xlabels@) == labels_of(s.take(i as int)),
        decreases sorted@.len() - i,
    {
        let c = &sorted[i];
        proof {
            assert(s[i as int] == c@);
        }
        let n = c.sha1.as_str().unicode_len();
        if n < 6 {
            let e = AggregationError::MalformedRecord {
                reason: String::from_str("commit sha1 has fewer than 6 characters"),
            };
            proof {
                lemma_scan_step(s, i as int);
                assert(e@ == ErrorModel::MalformedRecord { reason: short_sha_reason() });
                lemma_scan_prefix_err(s, i as int + 1, e@);
            }
            return Err(e);
        }
        let mut label = c.title.clone();
        label.append(" (");
        let sha6 = c.sha1.as_str().substring_char(0, 6);
        label.append(sha6);
        label.append(")");
        xlabels.push(label);
        proof {
            assert(label@ == label_of(c@));
            assert(strs_view(xlabels@) =~= labels_of(s.take(i as int)).push(label_of(s[i as int])));
            assert(labels_of(s.take(i as int + 1)) =~= labels_of(s.take(i as int)).push(
                label_of(s[i as int]),
            ));
        }
        let ghost d0 = disc_view(disc@);
        let ghost cbs = benches_view(c.benches@);
        proof {
            assert(cbs.take(0) =~= Seq::empty());
        }
        let mut j: usize = 0;
        while j < c.benches.len()
            invariant
                j <= cbs.len(),
                cbs == benches_view(c.benches@),
                s == sort_by_time(input),
                s == commits_view(sorted@),
                i < sorted@.len(),
                c == &sorted@[i as int],
                c@ == s[i as int],
                c@.sha1.len() >= 6,
                scan(s.take(i as int)) == Ok::<Seq<(Seq<char>, Seq<char>)>, ErrorModel>(d0),
                discover_benches(d0, cbs.take(j as int)) == Ok::<
                    Seq<(Seq<char>, Seq<char>)>,
                    ErrorModel,
                >(disc_view(disc@)),
            decreases cbs.len() - j,
        {
            let name = &c.benches[j].0;
            let sample = &c.benches[j].1;
            proof {
                assert(cbs[j as int] == (name@, sample@));
            }
            match find_unit(&disc, name) {
                Some(u) => {
                    if !(*u == sample.unit) {
                        let e = AggregationError::UnitConflict {
                            name: name.clone(),
                            unit_a: u.clone(),
                            unit_b: sample.unit.clone(),
                        };
                        proof {
                            lemma_discover_step(d0, cbs, j as int);
                            assert(discover_benches(d0, cbs.take(j as int + 1))
                                == Err::<Seq<(Seq<char>, Seq<char>)>, ErrorModel>(e@));
                            lemma_discover_prefix_err(d0, cbs, j as int + 1, e@);
                            lemma_scan_step(s, i as int);
                            lemma_scan_prefix_err(s, i as int + 1, e@);
                        }
                        return Err(e);
                    }
                    proof {
                        lemma_discover_step(d0, cbs, j as int);
                    }
                },
                None => {
                    let ghost pre = disc@;
                    disc.push((name.clone(), sample.unit.clone()));
                    proof {
                        lemma_discover_step(d0, cbs, j as int);
                        assert(disc_view(disc@) =~= disc_view(pre).push((name@, sample.unit@)));
                    }
                },
            }
            j = j + 1;
        }
        proof {
            assert(cbs.take(j as int) =~= cbs);
            lemma_scan_step(s, i as int);
        }
        i = i + 1;
    }
    proof {
        assert(s.take(i as int) =~= s);
    }
    let ghost dv = disc_view(disc@);

    let mut out_benches: Vec<Bench> = Vec::new();
    let mut k: usize = 0;
    proof {
        assert(out_benches@.map_values(|b: Bench| b@) =~= Seq::new(
            0,
            |j: int| bench_of(s, dv[j].0, dv[j].1),
        ));
    }
    while k < disc.len()
        invariant
            k <= dv.len(),
            dv == disc_view(disc@),
            s == sort_by_time(input),
            s == commits_view(sorted@),
            scan(s) == Ok::<Seq<(Seq<char>, Seq<char>)>, ErrorModel>(dv),
            strs_view(xlabels@) == labels_of(s),
            out_benches@.map_values(|b: Bench| b@) == Seq::new(
                k as nat,
                |j: int| bench_of(s, dv[j].0, dv[j].1),
            ),
        decreases dv.len() - k,
    {
        let name = &disc[k].0;
        let unit = &disc[k].1;
        proof {
            assert(dv[k as int] == (name@, unit@));
        }
        let mut means: Vec<Option<u64>> = Vec::new();
        let mut sds: Vec<Option<u64>> = Vec::new();
        let mut i2: usize = 0;
        proof {
            assert(means@ =~= means_of(s, name@).take(0));
            assert(sds@ =~= sds_of(s, name@).take(0));
        }
        while i2 < sorted.len()
            invariant
                i2 <= sorted@.len(),
                s == commits_view(sorted@),
                means@ == means_of(s, name@).take(i2 as int),
                sds@ == sds_of(s, name@).take(i2 as int),
            decreases sorted@.len() - i2,
        {
            proof {
                assert(s[i2 as int] == sorted@[i2 as int]@);
            }
            match find_sample(&sorted[i2].benches, name) {
                Some(sample) => {
                    means.push(Some(sample.mean));
                    sds.push(sample.sd);
                },
                None => {
                    means.push(None);
                    sds.push(None);
                },
            }
            proof {
                assert(means@ =~= means_of(s, name@).take(i2 as int + 1));
                assert(sds@ =~= sds_of(s, name@).take(i2 as int + 1));
            }
            i2 = i2 + 1;
        }
        proof {
            assert(means_of(s, name@).take(i2 as int) =~= means_of(s, name@));
            assert(sds_of(s, name@).take(i2 as int) =~= sds_of(s, name@));
        }
        let b = Bench { name: name.clone(), unit: unit.clone(), means, sds };
        proof {
            assert(b@ =~= bench_of(s, dv[k as int].0, dv[k as int].1));
        }
        let ghost pre_out = out_benches@;
        out_benches.push(b);
        proof {
            assert forall|j: int| 0 <= j < k as int + 1 implies out_benches@.map_values(
                |bb: Bench| bb@,
            )[j] == bench_of(s, dv[j].0, dv[j].1) by {
                if j < k as int {
                    assert(out_benches@[j] == pre_out[j]);
                    assert(pre_out.map_values(|bb: Bench| bb@)[j] == bench_of(s, dv[j].0, dv[j].1));
                }
            }
            assert(out_benches@.map_values(|bb: Bench| bb@) =~= Seq::new(
                k as nat + 1,
                |j: int| bench_of(s, dv[j].0, dv[j].1),
            ));
        }
        k = k + 1;
    }
    let rd = RenderData { benches: out_benches, xlabels };
    proof {
        assert(aggregate_spec(input) matches Ok(m) && m =~= rd@);
    }
    Ok(rd)
}

} // verus!
