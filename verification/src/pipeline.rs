//! The whole pass, end to end: partition the region, aggregate every
//! partition, merge the tables in order, and render the summary.
//!
//! The contract ties the pipeline to the one-pass model: whatever the
//! worker count, the summary printed is the summary of the whole region's
//! aggregate — the merge laws made executable.
use vstd::prelude::*;

use crate::aggregate::aggregate;
use crate::aggregate::lemma_aggregate_split_at;
use crate::aggregate::lemma_first_fault_append;
use crate::aggregate::lemma_first_fault_kind;
use crate::aggregate::spec_aggregate;
use crate::aggregate::spec_first_fault;
use crate::format::spec_summary;
use crate::lines::lemma_lines_from_count;
use crate::lines::spec_lines;
use crate::partition::lemma_parts_alignment;
use crate::partition::lemma_parts_coverage;
use crate::partition::make_partitions;
use crate::partition::parts_model;
use crate::partition::spec_partition;
use crate::table::map_of;
use crate::table::table_wf;
use crate::table::AggregationTable;
use crate::table::Record;
use crate::{Error, TERMINATOR};

verus! {

/// Runs the whole pass over `data` with `workers` partitions.  On success
/// the returned bytes are the summary of the whole region's aggregate:
/// any table holding exactly that aggregate renders to these bytes.
/// Fails exactly on the pipeline's faults: no worker asked for, a failed
/// boundary search, or a record fault — the first one among the region's
/// lines.
pub fn summarize(data: &Vec<u8>, workers: usize) -> (r: Result<Vec<u8>, Error>)
    ensures
        match r {
            Ok(out) => {
                &&& workers >= 1
                &&& spec_partition(data@, workers as int) is Some
                &&& spec_first_fault(spec_lines(data@)) is None
                &&& spec_aggregate(spec_lines(data@)) is Some
                &&& forall|es: Seq<(Vec<u8>, Record)>|
                    table_wf(es) && #[trigger] map_of(es) == spec_aggregate(
                        spec_lines(data@),
                    )->Some_0 ==> out@ == spec_summary(es)
            },
            Err(e) => {
                ||| (e == Error::ZeroWorkers && workers == 0)
                ||| (e == Error::NoTerminator && workers >= 1 && spec_partition(
                    data@,
                    workers as int,
                ) is None)
                ||| ((e == Error::MissingSeparator || e == Error::BadNumber)
                    && spec_first_fault(spec_lines(data@)) == Some(e))
            },
        },
{
    let ps = match make_partitions(data, workers) {
        Ok(ps) => ps,
        Err(e) => {
            return Err(e);
        },
    };
    let ghost model = parts_model(ps@);
    let ghost target = data@.len() as int / workers as int;
    let n = ps.len();
    proof {
        lemma_parts_coverage(data@, target, 0, workers as int);
        lemma_parts_alignment(data@, target, 0, workers as int);
        lemma_lines_from_count(data@, 0);
    }
    let mut acc = AggregationTable::new();
    let ghost mut covered: int = 0;
    let mut i: usize = 0;
    proof {
        assert(spec_lines(data@.take(0)) =~= Seq::<Seq<u8>>::empty());
    }
    while i < n
        invariant
            0 <= i <= n == ps@.len() == workers,
            model == parts_model(ps@),
            model == spec_partition(data@, workers as int)->Some_0,
            spec_partition(data@, workers as int) is Some,
            model.len() == workers,
            model[0].0 == 0,
            model[workers - 1].1 == data@.len(),
            forall|x: int| 0 <= x < workers - 1 ==> (#[trigger] model[x]).1 == model[x + 1].0,
            forall|x: int|
                0 <= x < workers ==> 0 <= (#[trigger] model[x]).0 <= model[x].1 <= data@.len(),
            forall|x: int|
                0 <= x < workers - 1 ==> (#[trigger] model[x]).1 >= 1 && data@[model[x].1 - 1]
                    == TERMINATOR,
            forall|x: int|
                0 <= x < ps@.len() ==> ((#[trigger] ps@[x]).start as int, ps@[x].end as int)
                    == model[x],
            covered == if i == 0 {
                0int
            } else {
                model[i - 1].1
            },
            0 <= covered <= data@.len(),
            covered == 0 || covered == data@.len() || data@[covered - 1] == TERMINATOR,
            acc.wf(),
            spec_first_fault(spec_lines(data@.take(covered))) is None,
            spec_aggregate(spec_lines(data@.take(covered))) == Some(acc@),
            forall|k: Seq<u8>|
                acc@.dom().contains(k) ==> (#[trigger] acc@[k]).count <= spec_lines(
                    data@.take(covered),
                ).len(),
            spec_lines(data@.take(covered)).len() <= covered,
        decreases n - i,
    {
        let start = ps[i].start;
        let end = ps[i].end;
        proof {
            assert((start as int, end as int) == model[i as int]);
            if i == 0 {
                assert(start as int == covered);
            } else {
                assert(model[i - 1].1 == model[i as int].0);
            }
            assert(start as int == covered);
            assert(covered <= end as int <= data@.len());
        }
        let ghost part = data@.subrange(start as int, end as int);
        let ghost pls = spec_lines(part);
        let ghost s2 = data@.take(end as int);
        let ghost c = covered;
        proof {
            // the prefix splits at `covered`, a line-aligned boundary
            assert(s2.take(c) =~= data@.take(c));
            assert(s2.skip(c) =~= part);
            if c < end as int {
                if i > 0 {
                    assert(data@[c - 1] == TERMINATOR);
                    assert(s2[c - 1] == TERMINATOR);
                }
            }
            crate::aggregate::lemma_lines_split(s2, c);
            assert(spec_lines(s2) == spec_lines(data@.take(c)) + pls);
            lemma_first_fault_append(spec_lines(data@.take(c)), pls);
            lemma_lines_from_count(part, 0);
        }
        match aggregate(data, start, end) {
            Err(e) => {
                proof {
                    assert(spec_first_fault(pls) == Some(e));
                    assert(spec_first_fault(spec_lines(s2)) == Some(e));
                    // the rest of the region cannot hide an earlier fault
                    assert(data@.take(data@.len() as int) =~= data@);
                    if (end as int) < data@.len() {
                        assert(data@[end - 1] == TERMINATOR);
                    }
                    crate::aggregate::lemma_lines_split(data@, end as int);
                    lemma_first_fault_append(
                        spec_lines(data@.take(end as int)),
                        spec_lines(data@.skip(end as int)),
                    );
                    assert(spec_first_fault(spec_lines(data@)) == Some(e));
                    lemma_first_fault_kind(pls);
                }
                return Err(e);
            },
            Ok(t) => {
                proof {
                    // combined counts stay within one machine word
                    assert(spec_lines(s2).len() == spec_lines(data@.take(c)).len() + pls.len());
                    lemma_lines_from_count(s2, 0);
                    assert(spec_lines(s2).len() <= end as int);
                    assert(crate::table::mergeable(acc@, t@)) by {
                        assert(forall|k: Seq<u8>|
                            t@.dom().contains(k) ==> (#[trigger] t@[k]).count <= pls.len());
                    }
                    lemma_aggregate_split_at(s2, c);
                }
                let ghost acc_old = acc@;
                match acc.merge(t) {
                    Ok(()) => {},
                    Err(e) => {
                        proof {
                            assert(false);
                        }
                        return Err(e);
                    },
                }
                proof {
                    assert(acc@ == crate::table::spec_merge(acc_old, t@));
                    assert(spec_aggregate(spec_lines(s2)) == Some(acc@));
                    assert(forall|k: Seq<u8>|
                        acc@.dom().contains(k) ==> (#[trigger] acc@[k]).count <= spec_lines(
                            s2,
                        ).len());
                    covered = end as int;
                    if i + 1 < workers {
                        assert(model[i as int].1 == model[(i + 1) - 1].1);
                    }
                }
                i = i + 1;
            },
        }
    }
    proof {
        assert(covered == data@.len());
        assert(data@.take(covered) =~= data@);
    }
    let out = crate::format::format(&acc);
    proof {
        assert forall|es: Seq<(Vec<u8>, Record)>|
            table_wf(es) && #[trigger] map_of(es) == spec_aggregate(
                spec_lines(data@),
            )->Some_0 implies out@ == spec_summary(es) by {
            crate::format::lemma_summary_of_map(acc.entries@, es);
        }
    }
    Ok(out)
}

} // verus!

