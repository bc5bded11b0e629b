//! The partition aggregator, and the laws the whole pipeline obeys.
//!
//! Aggregation folds the lines of a byte range into a table, line by line.
//! Its model is [`agg_from`]: a left fold of [`spec_step`] over the lines,
//! failing on the first line with a record fault.  On that model the merge
//! laws are proved: splitting the input anywhere and merging the parts
//! yields exactly the one-pass table.
use vstd::prelude::*;

use crate::lines::copy_range;
use crate::lines::find_byte;
use crate::lines::lemma_find_byte_is;
use crate::lines::lemma_lines_from_count;
use crate::lines::lines_from;
use crate::lines::scan_byte;
use crate::lines::spec_lines;
use crate::parse::line_fault;
use crate::parse::parse_line;
use crate::parse::parse_line_model;
use crate::table::rec_merge;
use crate::table::rec_unit;
use crate::table::spec_merge;
use crate::table::spec_step;
use crate::table::AggregationTable;
use crate::table::RecModel;
use crate::{Error, TERMINATOR};

verus! {

/// Folds the lines `ls` into the table `m`, first line first; `None` as
/// soon as a line has a record fault.
pub open spec fn agg_from(m: Map<Seq<u8>, RecModel>, ls: Seq<Seq<u8>>) -> Option<
    Map<Seq<u8>, RecModel>,
>
    decreases ls.len(),
{
    if ls.len() == 0 {
        Some(m)
    } else {
        match parse_line_model(ls[0]) {
            None => None,
            Some(kv) => agg_from(spec_step(m, kv.0, kv.1), ls.skip(1)),
        }
    }
}

/// The table a sequence of lines denotes.
pub open spec fn spec_aggregate(ls: Seq<Seq<u8>>) -> Option<Map<Seq<u8>, RecModel>> {
    agg_from(Map::empty(), ls)
}

/// The first record fault among the lines, if any.
pub open spec fn spec_first_fault(ls: Seq<Seq<u8>>) -> Option<Error>
    decreases ls.len(),
{
    if ls.len() == 0 {
        None
    } else {
        match line_fault(ls[0]) {
            Some(e) => Some(e),
            None => spec_first_fault(ls.skip(1)),
        }
    }
}

/// Starting the fold later is the same as starting it on the suffix.
pub proof fn lemma_lines_from_is_suffix(u: Seq<u8>, q: int)
    requires
        0 <= q <= u.len(),
    ensures
        lines_from(u, q) == spec_lines(u.skip(q)),
    decreases u.len() - q,
{
    let w = u.skip(q);
    if q < u.len() {
        let j = find_byte(u, TERMINATOR, q);
        crate::lines::lemma_find_byte_props(u, TERMINATOR, q);
        assert(forall|x: int| 0 <= x < w.len() ==> w[x] == u[q + x]);
        lemma_find_byte_is(w, TERMINATOR, 0, j - q);
        if j < u.len() {
            lemma_lines_from_is_suffix(w, j - q + 1);
            assert(w.skip(j - q + 1) =~= u.skip(j + 1));
            lemma_lines_from_is_suffix(u, j + 1);
            assert(w.subrange(0, j - q) =~= u.subrange(q, j));
            assert(lines_from(w, 0) == seq![w.subrange(0, j - q)] + lines_from(w, j - q + 1));
        } else {
            assert(w.subrange(0, w.len() as int) =~= u.subrange(q, u.len() as int));
        }
    } else {
        assert(w.len() == 0);
    }
}

/// A cut just after a line terminator (or at either end) splits the line
/// list cleanly: no line straddles such a boundary.
pub proof fn lemma_lines_split(s: Seq<u8>, c: int)
    requires
        0 <= c <= s.len(),
        c == 0 || c == s.len() || s[c - 1] == TERMINATOR,
    ensures
        spec_lines(s) == spec_lines(s.take(c)) + spec_lines(s.skip(c)),
    decreases s.len(),
{
    if c == 0 {
        assert(s.skip(0) =~= s);
        assert(spec_lines(s.take(0)) =~= Seq::<Seq<u8>>::empty());
        assert(spec_lines(s) =~= spec_lines(s.take(c)) + spec_lines(s.skip(c)));
    } else if c == s.len() {
        assert(s.take(c) =~= s);
        assert(spec_lines(s.skip(c)) =~= Seq::<Seq<u8>>::empty());
        assert(spec_lines(s) =~= spec_lines(s.take(c)) + spec_lines(s.skip(c)));
    } else {
        let j = find_byte(s, TERMINATOR, 0);
        crate::lines::lemma_find_byte_props(s, TERMINATOR, 0);
        assert(j <= c - 1) by {
            if j > c - 1 {
                assert(s[c - 1] != TERMINATOR);
            }
        }
        let a = s.take(c);
        assert(forall|x: int| 0 <= x < a.len() ==> a[x] == s[x]);
        lemma_find_byte_is(a, TERMINATOR, 0, j);
        lemma_lines_from_is_suffix(s, j + 1);
        lemma_lines_from_is_suffix(a, j + 1);
        assert(spec_lines(s) == seq![s.subrange(0, j)] + spec_lines(s.skip(j + 1)));
        assert(a.subrange(0, j) =~= s.subrange(0, j));
        assert(spec_lines(a) == seq![s.subrange(0, j)] + spec_lines(a.skip(j + 1)));
        let s2 = s.skip(j + 1);
        let c2 = c - j - 1;
        assert(a.skip(j + 1) =~= s2.take(c2));
        assert(s.skip(c) =~= s2.skip(c2));
        if c2 == 0 {
            assert(spec_lines(s2.take(0)) =~= Seq::<Seq<u8>>::empty());
            assert(spec_lines(s) =~= spec_lines(a) + spec_lines(s.skip(c)));
        } else {
            assert(s2[c2 - 1] == s[c - 1]);
            lemma_lines_split(s2, c2);
            assert(spec_lines(s) =~= spec_lines(a) + spec_lines(s.skip(c)));
        }
    }
}

/// The first fault of a concatenation is the first part's fault, else the
/// second's.
pub proof fn lemma_first_fault_append(l1: Seq<Seq<u8>>, l2: Seq<Seq<u8>>)
    ensures
        spec_first_fault(l1 + l2) == (if spec_first_fault(l1) is Some {
            spec_first_fault(l1)
        } else {
            spec_first_fault(l2)
        }),
    decreases l1.len(),
{
    if l1.len() == 0 {
        assert(l1 + l2 =~= l2);
    } else {
        assert((l1 + l2)[0] == l1[0]);
        assert((l1 + l2).skip(1) =~= l1.skip(1) + l2);
        lemma_first_fault_append(l1.skip(1), l2);
    }
}

/// Only the two record faults can come out of a line.
pub proof fn lemma_first_fault_kind(ls: Seq<Seq<u8>>)
    requires
        spec_first_fault(ls) is Some,
    ensures
        spec_first_fault(ls) == Some(Error::MissingSeparator) || spec_first_fault(ls) == Some(
            Error::BadNumber,
        ),
    decreases ls.len(),
{
    if ls.len() > 0 && line_fault(ls[0]) is None {
        lemma_first_fault_kind(ls.skip(1));
    }
}

/// Folding a concatenation folds the first part, then the second.
pub proof fn lemma_agg_from_append(m: Map<Seq<u8>, RecModel>, l1: Seq<Seq<u8>>, l2: Seq<Seq<u8>>)
    ensures
        agg_from(m, l1 + l2) == (match agg_from(m, l1) {
            None => None::<Map<Seq<u8>, RecModel>>,
            Some(m1) => agg_from(m1, l2),
        }),
    decreases l1.len(),
{
    if l1.len() == 0 {
        assert(l1 + l2 =~= l2);
    } else {
        assert((l1 + l2)[0] == l1[0]);
        match parse_line_model(l1[0]) {
            None => {},
            Some(kv) => {
                assert((l1 + l2).skip(1) =~= l1.skip(1) + l2);
                lemma_agg_from_append(spec_step(m, kv.0, kv.1), l1.skip(1), l2);
            },
        }
    }
}

/// Folding into `m` is merging `m` with the lines' own table.
pub proof fn lemma_agg_from_is_merge(m: Map<Seq<u8>, RecModel>, ls: Seq<Seq<u8>>)
    ensures
        agg_from(m, ls) == (match spec_aggregate(ls) {
            None => None::<Map<Seq<u8>, RecModel>>,
            Some(m2) => Some(spec_merge(m, m2)),
        }),
    decreases ls.len(),
{
    if ls.len() == 0 {
        crate::table::lemma_merge_empty(m);
    } else {
        match parse_line_model(ls[0]) {
            None => {},
            Some(kv) => {
                let k = kv.0;
                let v = kv.1;
                let u = map![k => rec_unit(v)];
                lemma_agg_from_is_merge(spec_step(m, k, v), ls.skip(1));
                lemma_agg_from_is_merge(spec_step(Map::empty(), k, v), ls.skip(1));
                crate::table::lemma_step_is_merge_unit(m, k, v);
                crate::table::lemma_step_is_merge_unit(Map::empty(), k, v);
                crate::table::lemma_merge_empty(u);
                match spec_aggregate(ls.skip(1)) {
                    None => {},
                    Some(mr) => {
                        crate::table::lemma_merge_assoc(m, u, mr);
                    },
                }
            },
        }
    }
}

/// Merge correctness for a two-way split of the lines: aggregating the
/// whole list equals aggregating the parts and merging them.  With
/// [`crate::table::lemma_merge_comm`] and [`crate::table::lemma_merge_assoc`]
/// this extends to any number of parts folded in any order.
pub proof fn lemma_aggregate_split(l1: Seq<Seq<u8>>, l2: Seq<Seq<u8>>)
    requires
        spec_aggregate(l1) is Some,
        spec_aggregate(l2) is Some,
    ensures
        spec_aggregate(l1 + l2) == Some(
            spec_merge(spec_aggregate(l1)->Some_0, spec_aggregate(l2)->Some_0),
        ),
{
    lemma_agg_from_append(Map::empty(), l1, l2);
    lemma_agg_from_is_merge(spec_aggregate(l1)->Some_0, l2);
}

/// Merge correctness for a two-way split of the region at a line-aligned
/// byte boundary, the boundaries the partitioner makes: aggregating the
/// whole region equals aggregating the two ranges and merging their tables.
pub proof fn lemma_aggregate_split_at(s: Seq<u8>, c: int)
    requires
        0 <= c <= s.len(),
        c == 0 || c == s.len() || s[c - 1] == TERMINATOR,
        spec_aggregate(spec_lines(s.take(c))) is Some,
        spec_aggregate(spec_lines(s.skip(c))) is Some,
    ensures
        spec_aggregate(spec_lines(s)) == Some(
            spec_merge(
                spec_aggregate(spec_lines(s.take(c)))->Some_0,
                spec_aggregate(spec_lines(s.skip(c)))->Some_0,
            ),
        ),
{
    lemma_lines_split(s, c);
    lemma_aggregate_split(spec_lines(s.take(c)), spec_lines(s.skip(c)));
}

/// The distinct keys of every well-formed line.
pub open spec fn spec_keys(ls: Seq<Seq<u8>>) -> Set<Seq<u8>>
    decreases ls.len(),
{
    if ls.len() == 0 {
        Set::empty()
    } else {
        match parse_line_model(ls[0]) {
            None => spec_keys(ls.skip(1)),
            Some(kv) => spec_keys(ls.skip(1)).insert(kv.0),
        }
    }
}

/// The fold adds exactly the lines' keys to the table's key set.
pub proof fn lemma_agg_from_dom(m: Map<Seq<u8>, RecModel>, ls: Seq<Seq<u8>>)
    requires
        agg_from(m, ls) is Some,
    ensures
        agg_from(m, ls)->Some_0.dom() == m.dom() + spec_keys(ls),
    decreases ls.len(),
{
    if ls.len() == 0 {
        assert(m.dom() + spec_keys(ls) =~= m.dom());
    } else {
        match parse_line_model(ls[0]) {
            None => {},
            Some(kv) => {
                lemma_agg_from_dom(spec_step(m, kv.0, kv.1), ls.skip(1));
                assert(spec_step(m, kv.0, kv.1).dom() =~= m.dom().insert(kv.0));
                assert(m.dom().insert(kv.0) + spec_keys(ls.skip(1)) =~= m.dom() + spec_keys(ls));
            },
        }
    }
}

/// Key completeness: the aggregated table's key set is exactly the set of
/// distinct keys appearing anywhere in the lines.
pub proof fn lemma_key_completeness(ls: Seq<Seq<u8>>)
    requires
        spec_aggregate(ls) is Some,
    ensures
        spec_aggregate(ls)->Some_0.dom() == spec_keys(ls),
{
    lemma_agg_from_dom(Map::empty(), ls);
    assert(Map::<Seq<u8>, RecModel>::empty().dom() + spec_keys(ls) =~= spec_keys(ls));
}

/// The scaled values observed for key `k`, in line order.
pub open spec fn spec_values(ls: Seq<Seq<u8>>, k: Seq<u8>) -> Seq<int>
    decreases ls.len(),
{
    if ls.len() == 0 {
        Seq::empty()
    } else {
        match parse_line_model(ls[0]) {
            None => spec_values(ls.skip(1), k),
            Some(kv) => if kv.0 == k {
                seq![kv.1] + spec_values(ls.skip(1), k)
            } else {
                spec_values(ls.skip(1), k)
            },
        }
    }
}

/// Least element of a non-empty value list.
pub open spec fn vals_min(vs: Seq<int>) -> int
    decreases vs.len(),
{
    if vs.len() <= 1 {
        vs[0]
    } else {
        vstd::math::min(vs[0], vals_min(vs.skip(1)))
    }
}

/// Greatest element of a non-empty value list.
pub open spec fn vals_max(vs: Seq<int>) -> int
    decreases vs.len(),
{
    if vs.len() <= 1 {
        vs[0]
    } else {
        vstd::math::max(vs[0], vals_max(vs.skip(1)))
    }
}

/// Total of a value list.
pub open spec fn vals_sum(vs: Seq<int>) -> int
    decreases vs.len(),
{
    if vs.len() == 0 {
        0
    } else {
        vs[0] + vals_sum(vs.skip(1))
    }
}

/// The aggregate a non-empty value list denotes.
pub open spec fn rec_of_values(vs: Seq<int>) -> RecModel {
    RecModel { min: vals_min(vs), max: vals_max(vs), sum: vals_sum(vs), count: vs.len() as int }
}

/// A single value's aggregate is the unit record.
proof fn lemma_rec_of_values_one(v: int)
    ensures
        rec_of_values(seq![v]) == rec_unit(v),
{
    assert(vals_sum(seq![v].skip(1)) == 0) by {
        assert(seq![v].skip(1).len() == 0);
    }
}

/// Prepending a value merges its unit record in.
proof fn lemma_rec_of_values_cons(v: int, vs: Seq<int>)
    requires
        vs.len() >= 1,
    ensures
        rec_of_values(seq![v] + vs) == rec_merge(rec_unit(v), rec_of_values(vs)),
{
    let w = seq![v] + vs;
    assert(w.len() >= 2);
    assert(w[0] == v);
    assert(w.skip(1) =~= vs);
}

/// How the fold treats one key: the record it had grows by exactly the
/// values the lines hold for it.
pub proof fn lemma_agg_from_values(m: Map<Seq<u8>, RecModel>, ls: Seq<Seq<u8>>, k: Seq<u8>)
    requires
        agg_from(m, ls) is Some,
    ensures
        ({
            let m2 = agg_from(m, ls)->Some_0;
            let vs = spec_values(ls, k);
            &&& (m.dom().contains(k) && vs.len() == 0 ==> m2.dom().contains(k) && m2[k] == m[k])
            &&& (m.dom().contains(k) && vs.len() > 0 ==> m2.dom().contains(k) && m2[k]
                == rec_merge(m[k], rec_of_values(vs)))
            &&& (!m.dom().contains(k) && vs.len() == 0 ==> !m2.dom().contains(k))
            &&& (!m.dom().contains(k) && vs.len() > 0 ==> m2.dom().contains(k) && m2[k]
                == rec_of_values(vs))
        }),
    decreases ls.len(),
{
    if ls.len() > 0 {
        match parse_line_model(ls[0]) {
            None => {},
            Some(kv) => {
                let m1 = spec_step(m, kv.0, kv.1);
                let vr = spec_values(ls.skip(1), k);
                lemma_agg_from_values(m1, ls.skip(1), k);
                if kv.0 == k {
                    lemma_rec_of_values_one(kv.1);
                    if vr.len() >= 1 {
                        lemma_rec_of_values_cons(kv.1, vr);
                    }
                    if m.dom().contains(k) {
                        assert(m1[k] == rec_merge(m[k], rec_unit(kv.1)));
                        if vr.len() >= 1 {
                            crate::table::lemma_rec_merge_assoc(
                                m[k],
                                rec_unit(kv.1),
                                rec_of_values(vr),
                            );
                        }
                    } else {
                        assert(m1[k] == rec_unit(kv.1));
                    }
                } else {
                    assert(spec_values(ls, k) == vr);
                    assert(m1.dom().contains(k) == m.dom().contains(k));
                    if m.dom().contains(k) {
                        assert(m1[k] == m[k]);
                    }
                }
            },
        }
    }
}

/// Numeric correctness: for a key with observed scaled values `v1..vk`,
/// the aggregated record holds their minimum, their maximum, their total,
/// and their number.
pub proof fn lemma_numeric_correctness(ls: Seq<Seq<u8>>, k: Seq<u8>)
    requires
        spec_aggregate(ls) is Some,
        spec_aggregate(ls)->Some_0.dom().contains(k),
    ensures
        ({
            let rec = spec_aggregate(ls)->Some_0[k];
            let vs = spec_values(ls, k);
            &&& vs.len() >= 1
            &&& rec.min == vals_min(vs)
            &&& rec.max == vals_max(vs)
            &&& rec.sum == vals_sum(vs)
            &&& rec.count == vs.len()
        }),
{
    lemma_agg_from_values(Map::empty(), ls, k);
}

/// Scans the byte range `data[start..end]` — a whole number of lines — and
/// aggregates every record into one table.  Succeeds with the folded table
/// exactly when no line has a record fault; otherwise fails with the first
/// fault, fail-fast.
pub fn aggregate(data: &Vec<u8>, start: usize, end: usize) -> (r: Result<AggregationTable, Error>)
    requires
        start <= end <= data.len(),
    ensures
        ({
            let ls = spec_lines(data@.subrange(start as int, end as int));
            match r {
                Ok(t) => {
                    &&& t.wf()
                    &&& spec_first_fault(ls) is None
                    &&& spec_aggregate(ls) == Some(t@)
                    &&& forall|k: Seq<u8>|
                        t@.dom().contains(k) ==> (#[trigger] t@[k]).count <= ls.len()
                },
                Err(e) => spec_first_fault(ls) == Some(e),
            }
        }),
{
    let ghost whole = data@.subrange(start as int, end as int);
    let ghost all = spec_lines(whole);
    let mut t = AggregationTable::new();
    let mut pos: usize = start;
    let ghost mut done: int = 0;
    proof {
        lemma_lines_from_count(whole, 0);
    }
    while pos < end
        invariant
            start <= pos <= end <= data.len(),
            whole == data@.subrange(start as int, end as int),
            all == spec_lines(whole),
            all.len() <= end - start,
            t.wf(),
            0 <= done,
            done + lines_from(whole, pos - start).len() == all.len(),
            agg_from(t@, lines_from(whole, pos - start)) == spec_aggregate(all),
            spec_first_fault(lines_from(whole, pos - start)) == spec_first_fault(all),
            forall|k: Seq<u8>| t@.dom().contains(k) ==> (#[trigger] t@[k]).count <= done,
        decreases end - pos,
    {
        let ghost p = pos - start;
        let ghost rem = lines_from(whole, p);
        let j = scan_byte(data, TERMINATOR, pos, end);
        proof {
            assert(forall|x: int| 0 <= x < whole.len() ==> whole[x] == data@[start + x]);
            lemma_find_byte_is(whole, TERMINATOR, p, j - start);
            assert(find_byte(whole, TERMINATOR, p) == j - start);
            assert(whole.subrange(p, j - start) =~= data@.subrange(pos as int, j as int));
        }
        let ghost line = whole.subrange(p, j - start);
        let ghost rest = if j < end {
            lines_from(whole, j - start + 1)
        } else {
            Seq::<Seq<u8>>::empty()
        };
        proof {
            if j < end {
                assert(rem == seq![line] + rest);
            } else {
                assert(j - start == whole.len());
                assert(rem == seq![line]);
                assert(rem =~= seq![line] + rest);
            }
            assert(rem[0] == line);
            assert(rem.skip(1) =~= rest);
        }
        match parse_line(data, pos, j) {
            Err(e) => {
                proof {
                    assert(line_fault(line) == Some(e));
                    assert(spec_first_fault(rem) == Some(e));
                }
                return Err(e);
            },
            Ok((key_end, v)) => {
                let key = copy_range(data, pos, key_end);
                proof {
                    assert(parse_line_model(line) == Some((key@, v as int)));
                    assert(line_fault(line) is None);
                    assert(agg_from(t@, rem) == agg_from(
                        spec_step(t@, key@, v as int),
                        rest,
                    ));
                    if t@.dom().contains(key@) {
                        assert(t@[key@].count <= done);
                        assert(done < all.len()) by {
                            assert(rem.len() >= 1);
                        }
                        assert(all.len() <= end - start);
                        assert(t@[key@].count < u64::MAX);
                    }
                }
                let ghost t_old = t@;
                t.add(key, v);
                proof {
                    done = done + 1;
                    assert(forall|k: Seq<u8>|
                        t@.dom().contains(k) ==> (#[trigger] t@[k]).count <= done) by {
                        assert(t@ == spec_step(t_old, key@, v as int));
                        assert(forall|k: Seq<u8>|
                            t@.dom().contains(k) && k != key@ ==> t_old.dom().contains(k)
                                && (#[trigger] t@[k]) == t_old[k]);
                    }
                }
                if j < end {
                    pos = j + 1;
                } else {
                    pos = end;
                    proof {
                        assert(lines_from(whole, pos - start) =~= Seq::<Seq<u8>>::empty());
                    }
                }
            },
        }
    }
    proof {
        assert(lines_from(whole, pos - start) =~= Seq::<Seq<u8>>::empty());
        assert(agg_from(t@, Seq::<Seq<u8>>::empty()) == Some(t@));
    }
    Ok(t)
}

} // verus!
