//! The formatter: the merged table rendered as one deterministic summary
//! line.
//!
//! Entries are sorted ascending by byte-wise lexicographic key order and
//! rendered as `{key=min/max/mean, ...}`, every figure printed as a
//! fixed-point number with exactly one fractional digit.  The mean is the
//! scaled sum divided by the count, the division taken on integers (floor),
//! before the final divide-by-ten for display.
use vstd::prelude::*;

use crate::table::map_of;
use crate::table::rec_wf;
use crate::table::AggregationTable;
use crate::table::RecModel;
use crate::table::Record;
use crate::table::SCALE_BOUND;

verus! {

/// Byte-wise lexicographic order on keys.
pub open spec fn lex_le(a: Seq<u8>, b: Seq<u8>) -> bool
    decreases a.len(),
{
    if a.len() == 0 {
        true
    } else if b.len() == 0 {
        false
    } else if a[0] < b[0] {
        true
    } else if a[0] > b[0] {
        false
    } else {
        lex_le(a.skip(1), b.skip(1))
    }
}

/// The order is total.
pub proof fn lemma_lex_total(a: Seq<u8>, b: Seq<u8>)
    ensures
        lex_le(a, b) || lex_le(b, a),
    decreases a.len(),
{
    if a.len() > 0 && b.len() > 0 && a[0] == b[0] {
        lemma_lex_total(a.skip(1), b.skip(1));
    }
}

/// The order is antisymmetric.
pub proof fn lemma_lex_antisym(a: Seq<u8>, b: Seq<u8>)
    requires
        lex_le(a, b),
        lex_le(b, a),
    ensures
        a == b,
    decreases a.len(),
{
    if a.len() == 0 {
        assert(b.len() == 0);
        assert(a =~= b);
    } else {
        assert(b.len() > 0);
        assert(a[0] == b[0]);
        lemma_lex_antisym(a.skip(1), b.skip(1));
        assert(a =~= seq![a[0]] + a.skip(1));
        assert(b =~= seq![b[0]] + b.skip(1));
    }
}

/// The order is transitive.
pub proof fn lemma_lex_trans(a: Seq<u8>, b: Seq<u8>, c: Seq<u8>)
    requires
        lex_le(a, b),
        lex_le(b, c),
    ensures
        lex_le(a, c),
    decreases a.len(),
{
    if a.len() > 0 {
        assert(b.len() > 0);
        assert(c.len() > 0);
        if a[0] == b[0] && b[0] == c[0] {
            lemma_lex_trans(a.skip(1), b.skip(1), c.skip(1));
        }
    }
}

/// Byte-wise lexicographic comparison.
pub fn lex_le_bytes(a: &Vec<u8>, b: &Vec<u8>) -> (r: bool)
    ensures
        r == lex_le(a@, b@),
{
    let mut i: usize = 0;
    proof {
        assert(a@.skip(0) =~= a@);
        assert(b@.skip(0) =~= b@);
    }
    loop
        invariant
            0 <= i <= a@.len(),
            i <= b@.len(),
            forall|j: int| 0 <= j < i ==> a@[j] == b@[j],
            lex_le(a@, b@) == lex_le(a@.skip(i as int), b@.skip(i as int)),
        decreases a@.len() - i,
    {
        if i == a.len() {
            return true;
        }
        if i == b.len() {
            return false;
        }
        let x = a[i];
        let y = b[i];
        proof {
            assert(a@.skip(i as int)[0] == a@[i as int]);
            assert(b@.skip(i as int)[0] == b@[i as int]);
            assert(a@.skip(i as int).skip(1) =~= a@.skip(i + 1));
            assert(b@.skip(i as int).skip(1) =~= b@.skip(i + 1));
        }
        if x < y {
            return true;
        }
        if x > y {
            return false;
        }
        i = i + 1;
    }
}

/// The view of an entry list: keys and records as mathematical values.
pub open spec fn ents_view(s: Seq<(Vec<u8>, Record)>) -> Seq<(Seq<u8>, RecModel)> {
    s.map(|i: int, p: (Vec<u8>, Record)| (p.0@, p.1@))
}

/// Sorted ascending by key, byte-wise lexicographically.
pub open spec fn ents_sorted(es: Seq<(Seq<u8>, RecModel)>) -> bool {
    forall|i: int, j: int|
        0 <= i < j < es.len() ==> lex_le((#[trigger] es[i]).0, (#[trigger] es[j]).0)
}

/// Insertion into a sorted entry list, before the first key not below the
/// new one.
pub open spec fn spec_insert(es: Seq<(Seq<u8>, RecModel)>, p: (Seq<u8>, RecModel)) -> Seq<
    (Seq<u8>, RecModel),
>
    decreases es.len(),
{
    if es.len() == 0 {
        seq![p]
    } else if lex_le(p.0, es[0].0) {
        seq![p] + es
    } else {
        seq![es[0]] + spec_insert(es.skip(1), p)
    }
}

/// Insertion sort of an entry list by key.
pub open spec fn spec_sort(es: Seq<(Seq<u8>, RecModel)>) -> Seq<(Seq<u8>, RecModel)>
    decreases es.len(),
{
    if es.len() == 0 {
        Seq::empty()
    } else {
        spec_insert(spec_sort(es.drop_last()), es.last())
    }
}

/// Where the insertion lands: before the first key not below the new one.
pub proof fn lemma_spec_insert_at(es: Seq<(Seq<u8>, RecModel)>, p: (Seq<u8>, RecModel), j: int)
    requires
        0 <= j <= es.len(),
        forall|x: int| 0 <= x < j ==> !lex_le(p.0, (#[trigger] es[x]).0),
        j < es.len() ==> lex_le(p.0, es[j].0),
    ensures
        spec_insert(es, p) == es.take(j) + seq![p] + es.skip(j),
    decreases j,
{
    if j == 0 {
        if es.len() == 0 {
            assert(spec_insert(es, p) =~= es.take(0) + seq![p] + es.skip(0));
        } else {
            assert(spec_insert(es, p) =~= es.take(0) + seq![p] + es.skip(0));
        }
    } else {
        assert(!lex_le(p.0, es[0].0));
        let t = es.skip(1);
        assert(forall|x: int| 0 <= x < j - 1 ==> (#[trigger] t[x]) == es[x + 1]);
        lemma_spec_insert_at(t, p, j - 1);
        assert(seq![es[0]] + (t.take(j - 1) + seq![p] + t.skip(j - 1)) =~= es.take(j) + seq![p]
            + es.skip(j));
    }
}

/// Inserting into a sorted list keeps it sorted, adds one entry, and adds
/// nothing but the new entry.
pub proof fn lemma_spec_insert_sorted(es: Seq<(Seq<u8>, RecModel)>, p: (Seq<u8>, RecModel))
    requires
        ents_sorted(es),
    ensures
        ents_sorted(spec_insert(es, p)),
        spec_insert(es, p).len() == es.len() + 1,
        forall|j: int|
            0 <= j < spec_insert(es, p).len() ==> (#[trigger] spec_insert(es, p)[j]) == p
                || exists|x: int| 0 <= x < es.len() && (#[trigger] es[x]) == spec_insert(es, p)[j],
        spec_insert(es, p).to_multiset() == es.to_multiset().insert(p),
    decreases es.len(),
{
    broadcast use vstd::seq_lib::group_to_multiset_ensures;

    if es.len() == 0 {
        assert(seq![p] =~= Seq::<(Seq<u8>, RecModel)>::empty().push(p));
    } else if lex_le(p.0, es[0].0) {
        let r = seq![p] + es;
        assert(forall|j: int| 1 <= j < r.len() ==> (#[trigger] r[j]) == es[j - 1]);
        assert forall|i: int, j: int| 0 <= i < j < r.len() implies lex_le(
            (#[trigger] r[i]).0,
            (#[trigger] r[j]).0,
        ) by {
            if i == 0 {
                if j > 1 {
                    lemma_lex_trans(p.0, es[0].0, es[j - 1].0);
                }
            }
        }
        assert(r =~= es.insert(0, p));
        vstd::seq_lib::to_multiset_insert(es, 0, p);
    } else {
        let t = es.skip(1);
        assert(forall|x: int| 0 <= x < t.len() ==> (#[trigger] t[x]) == es[x + 1]);
        assert(ents_sorted(t));
        lemma_spec_insert_sorted(t, p);
        let rt = spec_insert(t, p);
        let r = seq![es[0]] + rt;
        lemma_lex_total(p.0, es[0].0);
        assert(lex_le(es[0].0, p.0));
        assert(forall|j: int| 1 <= j < r.len() ==> (#[trigger] r[j]) == rt[j - 1]);
        assert forall|i: int, j: int| 0 <= i < j < r.len() implies lex_le(
            (#[trigger] r[i]).0,
            (#[trigger] r[j]).0,
        ) by {
            if i == 0 {
                let q = rt[j - 1];
                if q == p {
                } else {
                    let x = choose|x: int| 0 <= x < t.len() && (#[trigger] t[x]) == q;
                    assert(lex_le(es[0].0, es[x + 1].0));
                }
            }
        }
        vstd::seq_lib::lemma_multiset_commutative(seq![es[0]], rt);
        assert(es =~= seq![es[0]] + t);
        vstd::seq_lib::lemma_multiset_commutative(seq![es[0]], t);
        assert(seq![es[0]].to_multiset().add(t.to_multiset().insert(p)) =~= (seq![
            es[0],
        ].to_multiset().add(t.to_multiset())).insert(p));
    }
}

/// The sort yields the same entries, sorted ascending by key.
pub proof fn lemma_spec_sort_sorted(es: Seq<(Seq<u8>, RecModel)>)
    ensures
        ents_sorted(spec_sort(es)),
        spec_sort(es).len() == es.len(),
        spec_sort(es).to_multiset() == es.to_multiset(),
    decreases es.len(),
{
    broadcast use vstd::seq_lib::group_to_multiset_ensures;

    if es.len() > 0 {
        lemma_spec_sort_sorted(es.drop_last());
        lemma_spec_insert_sorted(spec_sort(es.drop_last()), es.last());
        assert(es =~= es.drop_last().push(es.last()));
        assert(es.drop_last().push(es.last()).to_multiset() =~= es.drop_last().to_multiset().insert(
            es.last(),
        ));
    }
}

/// Sorts the table's entries ascending by key, copying the keys out.
fn sort_entries(t: &AggregationTable) -> (out: Vec<(Vec<u8>, Record)>)
    requires
        t.wf(),
    ensures
        ents_view(out@) == spec_sort(ents_view(t.entries@)),
        forall|j: int| 0 <= j < out@.len() ==> rec_wf((#[trigger] out@[j]).1@),
{
    let n = t.entries.len();
    let mut out: Vec<(Vec<u8>, Record)> = Vec::new();
    let mut i: usize = 0;
    proof {
        assert(ents_view(t.entries@.take(0)) =~= Seq::<(Seq<u8>, RecModel)>::empty());
        assert(ents_view(out@) =~= Seq::<(Seq<u8>, RecModel)>::empty());
    }
    while i < n
        invariant
            0 <= i <= n == t.entries@.len(),
            t.wf(),
            ents_view(out@) == spec_sort(ents_view(t.entries@.take(i as int))),
            forall|j: int| 0 <= j < out@.len() ==> rec_wf((#[trigger] out@[j]).1@),
        decreases n - i,
    {
        let key = crate::table::copy_bytes(&t.entries[i].0);
        let rec = t.entries[i].1;
        let ghost p = (key@, rec@);
        let ghost ov = ents_view(out@);
        let mut j: usize = 0;
        while j < out.len() && !lex_le_bytes(&key, &out[j].0)
            invariant
                0 <= j <= out@.len(),
                ov == ents_view(out@),
                key@ == p.0,
                forall|x: int| 0 <= x < j ==> !lex_le(p.0, (#[trigger] ov[x]).0),
            decreases out@.len() - j,
        {
            j = j + 1;
        }
        proof {
            lemma_spec_insert_at(ov, p, j as int);
        }
        let ghost out_old = out@;
        out.insert(j, (key, rec));
        proof {
            assert(out@ =~= out_old.take(j as int) + seq![(key, rec)] + out_old.skip(j as int));
            assert(ents_view(out@) =~= ov.take(j as int) + seq![p] + ov.skip(j as int));
            assert(ents_view(out@) == spec_insert(ov, p));
            let ghost tv = ents_view(t.entries@.take(i + 1));
            assert(tv.drop_last() =~= ents_view(t.entries@.take(i as int)));
            assert(tv.last() == p);
            assert(spec_sort(tv) == spec_insert(spec_sort(tv.drop_last()), p));
        }
        i = i + 1;
    }
    proof {
        assert(t.entries@.take(n as int) =~= t.entries@);
    }
    out
}

/// The decimal digits of `n`, most significant first.
pub open spec fn spec_digits(n: int) -> Seq<u8>
    recommends
        n >= 0,
    decreases n,
    via spec_digits_decreases
{
    if n < 10 {
        seq![(48 + (if n >= 0 { n } else { 0 })) as u8]
    } else {
        spec_digits(n / 10) + seq![(48 + n % 10) as u8]
    }
}

#[via_fn]
proof fn spec_digits_decreases(n: int) {
    if n >= 10 {
        vstd::arithmetic::div_mod::lemma_div_decreases(n, 10);
        vstd::arithmetic::div_mod::lemma_div_pos_is_pos(n, 10);
    }
}

/// The rendering of the scaled value `v`: sign, integer digits, point, one
/// fractional digit.
pub open spec fn spec_fixed(v: int) -> Seq<u8> {
    if v < 0 {
        seq![45u8] + spec_digits((-v) / 10) + seq![46u8, (48 + (-v) % 10) as u8]
    } else {
        spec_digits(v / 10) + seq![46u8, (48 + v % 10) as u8]
    }
}

/// Appends the decimal digits of `n`.
fn push_digits(n: u64, out: &mut Vec<u8>)
    ensures
        final(out)@ == old(out)@ + spec_digits(n as int),
    decreases n,
{
    if n < 10 {
        out.push(48 + (n as u8));
        proof {
            assert(final(out)@ =~= old(out)@ + spec_digits(n as int));
        }
    } else {
        proof {
            vstd::arithmetic::div_mod::lemma_div_decreases(n as int, 10);
            vstd::arithmetic::div_mod::lemma_div_pos_is_pos(n as int, 10);
            vstd::arithmetic::div_mod::lemma_mod_bound(n as int, 10);
        }
        push_digits(n / 10, out);
        out.push(48 + ((n % 10) as u8));
        proof {
            assert(final(out)@ =~= old(out)@ + spec_digits(n as int));
        }
    }
}

/// Appends the fixed-point rendering of the scaled value `v`.
fn push_fixed(v: i64, out: &mut Vec<u8>)
    requires
        -(SCALE_BOUND as int) <= v <= SCALE_BOUND as int,
    ensures
        final(out)@ == old(out)@ + spec_fixed(v as int),
{
    let mag: u64 = if v < 0 {
        out.push(45);
        (-v) as u64
    } else {
        v as u64
    };
    proof {
        vstd::arithmetic::div_mod::lemma_mod_bound(mag as int, 10);
    }
    push_digits(mag / 10, out);
    out.push(46);
    out.push(48 + ((mag % 10) as u8));
    proof {
        assert(final(out)@ =~= old(out)@ + spec_fixed(v as int));
    }
}

/// The mean's integer division: the scaled sum divided by the count,
/// rounded toward negative infinity, exactly as the mathematical integer
/// division of the model.
fn div_floor(sum: i128, count: u64) -> (r: i64)
    requires
        count >= 1,
        -(count * SCALE_BOUND) <= sum <= count * SCALE_BOUND,
    ensures
        r == sum as int / count as int,
        -(SCALE_BOUND as int) <= r <= SCALE_BOUND as int,
{
    let c = count as u128;
    proof {
        broadcast use vstd::arithmetic::div_mod::lemma_div_is_ordered;
        broadcast use vstd::arithmetic::div_mod::lemma_div_multiples_vanish;

        assert((c as int * SCALE_BOUND as int) / c as int == SCALE_BOUND as int);
        assert((c as int * (-(SCALE_BOUND as int))) / c as int == -(SCALE_BOUND as int));
        assert(c as int * (-(SCALE_BOUND as int)) == -(count * SCALE_BOUND));
    }
    if sum >= 0 {
        let q = ((sum as u128) / c) as u64;
        proof {
            assert(sum as int / c as int <= (c as int * SCALE_BOUND as int) / c as int);
            vstd::arithmetic::div_mod::lemma_div_pos_is_pos(sum as int, c as int);
        }
        q as i64
    } else {
        let m = (-sum) as u128;
        let qm = m / c;
        let rm = m % c;
        proof {
            vstd::arithmetic::div_mod::lemma_fundamental_div_mod(m as int, c as int);
            vstd::arithmetic::div_mod::lemma_mod_bound(m as int, c as int);
            assert(m as int / c as int <= (c as int * SCALE_BOUND as int) / c as int);
            vstd::arithmetic::div_mod::lemma_div_pos_is_pos(m as int, c as int);
        }
        if rm == 0 {
            proof {
                assert(sum as int == (-(qm as int)) * c as int + 0) by (nonlinear_arith)
                    requires
                        m as int == c as int * (qm as int),
                        sum as int == -(m as int),
                ;
                vstd::arithmetic::div_mod::lemma_fundamental_div_mod_converse(
                    sum as int,
                    c as int,
                    -(qm as int),
                    0,
                );
            }
            -((qm as u64) as i64)
        } else {
            proof {
                assert(sum as int == (-(qm as int) - 1) * c as int + (c as int - rm as int))
                    by (nonlinear_arith)
                    requires
                        m as int == c as int * (qm as int) + rm as int,
                        sum as int == -(m as int),
                ;
                vstd::arithmetic::div_mod::lemma_fundamental_div_mod_converse(
                    sum as int,
                    c as int,
                    -(qm as int) - 1,
                    c as int - rm as int,
                );
            }
            -((qm as u64) as i64) - 1
        }
    }
}

/// The rendering of one entry: `key=min/max/mean`, the mean truncated to
/// the fixed-point grid by integer division before display.
pub open spec fn spec_entry(p: (Seq<u8>, RecModel)) -> Seq<u8> {
    p.0 + seq![61u8] + spec_fixed(p.1.min) + seq![47u8] + spec_fixed(p.1.max) + seq![47u8]
        + spec_fixed(p.1.sum / p.1.count)
}

/// The rendering of the sorted entries from index `i` on, each after its
/// `", "` separator (the first entry has none).
pub open spec fn spec_render_rest(es: Seq<(Seq<u8>, RecModel)>, i: int) -> Seq<u8>
    decreases es.len() - i,
{
    if i < 0 || i >= es.len() {
        Seq::empty()
    } else {
        (if i > 0 {
            seq![44u8, 32u8]
        } else {
            Seq::empty()
        }) + spec_entry(es[i]) + spec_render_rest(es, i + 1)
    }
}

/// The whole summary line a table's entries denote: the entries sorted
/// ascending by key, rendered brace-delimited and comma-separated.
pub open spec fn spec_summary(s: Seq<(Vec<u8>, Record)>) -> Seq<u8> {
    seq![123u8] + spec_render_rest(spec_sort(ents_view(s)), 0) + seq![125u8]
}

/// Idempotent formatting: the summary is a function of the table's
/// entries alone, so rendering the same merged table twice yields
/// byte-identical output.
pub proof fn lemma_format_deterministic(s1: Seq<(Vec<u8>, Record)>, s2: Seq<(Vec<u8>, Record)>)
    requires
        ents_view(s1) == ents_view(s2),
    ensures
        spec_summary(s1) == spec_summary(s2),
{
}

/// Pairwise distinct keys.
pub open spec fn keys_distinct(es: Seq<(Seq<u8>, RecModel)>) -> bool {
    forall|i: int, j: int| 0 <= i < j < es.len() ==> (#[trigger] es[i]).0 != (#[trigger] es[j]).0
}

/// Two sorted lists with distinct keys and the same entries are the same
/// list.
proof fn lemma_sorted_unique(u: Seq<(Seq<u8>, RecModel)>, w: Seq<(Seq<u8>, RecModel)>)
    requires
        ents_sorted(u),
        ents_sorted(w),
        keys_distinct(u),
        keys_distinct(w),
        forall|p: (Seq<u8>, RecModel)| u.contains(p) <==> w.contains(p),
    ensures
        u == w,
    decreases u.len(),
{
    if u.len() == 0 {
        if w.len() > 0 {
            assert(w.contains(w[0]));
            assert(u.contains(w[0]));
        }
        assert(u =~= w);
    } else {
        assert(u.contains(u[0]));
        assert(w.contains(u[0]));
        let j = choose|j: int| 0 <= j < w.len() && w[j] == u[0];
        assert(w.len() > 0);
        assert(w.contains(w[0]));
        assert(u.contains(w[0]));
        let x = choose|x: int| 0 <= x < u.len() && u[x] == w[0];
        lemma_lex_total(w[0].0, w[0].0);
        lemma_lex_total(u[0].0, u[0].0);
        assert(lex_le(w[0].0, u[0].0)) by {
            if j > 0 {
                assert(lex_le(w[0].0, w[j].0));
            }
        }
        assert(lex_le(u[0].0, w[0].0)) by {
            if x > 0 {
                assert(lex_le(u[0].0, u[x].0));
            }
        }
        lemma_lex_antisym(u[0].0, w[0].0);
        assert(u[0].0 == w[0].0);
        assert(x == 0) by {
            if x > 0 {
                assert(u[0].0 != u[x].0);
            }
        }
        assert(u[0] == w[0]);
        let ut = u.skip(1);
        let wt = w.skip(1);
        assert(forall|i: int| 0 <= i < ut.len() ==> (#[trigger] ut[i]) == u[i + 1]);
        assert(forall|i: int| 0 <= i < wt.len() ==> (#[trigger] wt[i]) == w[i + 1]);
        assert forall|p: (Seq<u8>, RecModel)| ut.contains(p) <==> wt.contains(p) by {
            if ut.contains(p) {
                let i = choose|i: int| 0 <= i < ut.len() && ut[i] == p;
                assert(u[i + 1] == p);
                assert(u.contains(p));
                assert(w.contains(p));
                let y = choose|y: int| 0 <= y < w.len() && w[y] == p;
                assert(y != 0) by {
                    if y == 0 {
                        assert(u[0].0 != u[i + 1].0);
                    }
                }
                assert(wt[y - 1] == p);
                assert(wt.contains(p));
            }
            if wt.contains(p) {
                let i = choose|i: int| 0 <= i < wt.len() && wt[i] == p;
                assert(w[i + 1] == p);
                assert(w.contains(p));
                assert(u.contains(p));
                let y = choose|y: int| 0 <= y < u.len() && u[y] == p;
                assert(y != 0) by {
                    if y == 0 {
                        assert(w[0].0 != w[i + 1].0);
                    }
                }
                assert(ut[y - 1] == p);
                assert(ut.contains(p));
            }
        }
        lemma_sorted_unique(ut, wt);
        assert(u.len() == w.len());
        assert forall|i: int| 0 <= i < u.len() implies u[i] == w[i] by {
            if i > 0 {
                assert(ut[i - 1] == wt[i - 1]);
            }
        }
        assert(u =~= w);
    }
}

/// Sorting neither adds nor loses an entry.
proof fn lemma_sort_same_elements(ev: Seq<(Seq<u8>, RecModel)>)
    ensures
        forall|p: (Seq<u8>, RecModel)| spec_sort(ev).contains(p) <==> ev.contains(p),
{
    broadcast use vstd::seq_lib::group_to_multiset_ensures;

    lemma_spec_sort_sorted(ev);
    assert forall|p: (Seq<u8>, RecModel)| spec_sort(ev).contains(p) <==> ev.contains(p) by {
        assert(spec_sort(ev).to_multiset().count(p) == ev.to_multiset().count(p));
    }
}

/// The sort of a distinct-keyed list keeps its keys distinct.
proof fn lemma_sort_keys_distinct(ev: Seq<(Seq<u8>, RecModel)>)
    requires
        keys_distinct(ev),
    ensures
        keys_distinct(spec_sort(ev)),
{
    broadcast use vstd::seq_lib::group_to_multiset_ensures;

    lemma_spec_sort_sorted(ev);
    let sv = spec_sort(ev);
    assert forall|i: int, j: int| 0 <= i < j < sv.len() implies (#[trigger] sv[i]).0 != (
    #[trigger] sv[j]).0 by {
        if sv[i].0 == sv[j].0 {
            let p = sv[i];
            if sv[i] == sv[j] {
                // the pair would have to occur twice in the unsorted list
                assert(sv.remove(i).to_multiset() =~= sv.to_multiset().remove(p));
                assert(sv.remove(i)[j - 1] == sv[j]);
                assert(sv.remove(i).contains(p));
                assert(sv.to_multiset().remove(p).count(p) > 0);
                assert(ev.to_multiset().count(p) >= 2);
                assert(ev.contains(p));
                let x = choose|x: int| 0 <= x < ev.len() && ev[x] == p;
                assert(ev.remove(x).to_multiset() =~= ev.to_multiset().remove(p));
                assert(ev.remove(x).to_multiset().count(p) > 0);
                assert(ev.remove(x).contains(p));
                let y = choose|y: int| 0 <= y < ev.remove(x).len() && ev.remove(x)[y] == p;
                let y2 = if y < x {
                    y
                } else {
                    y + 1
                };
                assert(ev[y2] == p);
                assert(y2 != x);
                assert(ev[x].0 == ev[y2].0);
            } else {
                // two different records under one key cannot both occur
                lemma_sort_same_elements(ev);
                assert(sv.contains(sv[i]));
                assert(sv.contains(sv[j]));
                assert(ev.contains(sv[i]));
                assert(ev.contains(sv[j]));
                let x = choose|x: int| 0 <= x < ev.len() && ev[x] == sv[i];
                let y = choose|y: int| 0 <= y < ev.len() && ev[y] == sv[j];
                assert(x != y);
                assert(ev[x].0 == ev[y].0);
            }
        }
    }
}

/// The summary is a function of the table's map alone: tables holding the
/// same per-key records in any entry order render byte-identically.  In
/// particular, the order partitions were merged in cannot show in the
/// output.
pub proof fn lemma_summary_of_map(s1: Seq<(Vec<u8>, Record)>, s2: Seq<(Vec<u8>, Record)>)
    requires
        crate::table::table_wf(s1),
        crate::table::table_wf(s2),
        map_of(s1) == map_of(s2),
    ensures
        spec_summary(s1) == spec_summary(s2),
{
    broadcast use vstd::seq_lib::group_to_multiset_ensures;

    let ev1 = ents_view(s1);
    let ev2 = ents_view(s2);
    assert(keys_distinct(ev1));
    assert(keys_distinct(ev2));
    lemma_spec_sort_sorted(ev1);
    lemma_spec_sort_sorted(ev2);
    lemma_sort_keys_distinct(ev1);
    lemma_sort_keys_distinct(ev2);
    let sv1 = spec_sort(ev1);
    let sv2 = spec_sort(ev2);
    // membership in either sorted list is exactly a fact about the map
    assert forall|p: (Seq<u8>, RecModel)| ev1.contains(p) <==> ev2.contains(p) by {
        if ev1.contains(p) {
            let i = choose|i: int| 0 <= i < ev1.len() && ev1[i] == p;
            crate::table::lemma_map_of_get(s1, i);
            crate::table::lemma_map_of_dom(s2, p.0);
            assert(map_of(s2).dom().contains(p.0));
            let j = choose|j: int| 0 <= j < s2.len() && (#[trigger] s2[j]).0@ == p.0;
            crate::table::lemma_map_of_get(s2, j);
            assert(ev2[j] == p);
            assert(ev2.contains(p));
        }
        if ev2.contains(p) {
            let i = choose|i: int| 0 <= i < ev2.len() && ev2[i] == p;
            crate::table::lemma_map_of_get(s2, i);
            crate::table::lemma_map_of_dom(s1, p.0);
            assert(map_of(s1).dom().contains(p.0));
            let j = choose|j: int| 0 <= j < s1.len() && (#[trigger] s1[j]).0@ == p.0;
            crate::table::lemma_map_of_get(s1, j);
            assert(ev1[j] == p);
            assert(ev1.contains(p));
        }
    }
    lemma_sort_same_elements(ev1);
    lemma_sort_same_elements(ev2);
    assert forall|p: (Seq<u8>, RecModel)| sv1.contains(p) <==> sv2.contains(p) by {
        assert(sv1.contains(p) <==> ev1.contains(p));
        assert(sv2.contains(p) <==> ev2.contains(p));
    }
    lemma_sorted_unique(sv1, sv2);
}

/// Appends the rendering of one entry.
fn push_entry(key: &Vec<u8>, rec: &Record, out: &mut Vec<u8>)
    requires
        rec_wf(rec@),
    ensures
        final(out)@ == old(out)@ + spec_entry((key@, rec@)),
{
    let keylen = key.len();
    let mut b: usize = 0;
    while b < keylen
        invariant
            0 <= b <= keylen == key@.len(),
            out@ == old(out)@ + key@.take(b as int),
        decreases keylen - b,
    {
        out.push(key[b]);
        proof {
            assert(old(out)@ + key@.take(b + 1) =~= (old(out)@ + key@.take(b as int)).push(
                key@[b as int],
            ));
        }
        b = b + 1;
    }
    proof {
        assert(key@.take(keylen as int) =~= key@);
    }
    out.push(61);
    push_fixed(rec.min as i64, out);
    out.push(47);
    push_fixed(rec.max as i64, out);
    out.push(47);
    let mean = div_floor(rec.sum, rec.count);
    push_fixed(mean, out);
    proof {
        assert(final(out)@ =~= old(out)@ + spec_entry((key@, rec@)));
    }
}

/// Renders the merged table as its summary line.
pub fn format(t: &AggregationTable) -> (out: Vec<u8>)
    requires
        t.wf(),
    ensures
        out@ == spec_summary(t.entries@),
{
    let es = sort_entries(t);
    let ghost v = ents_view(es@);
    let n = es.len();
    let mut out: Vec<u8> = Vec::new();
    out.push(123);
    let ghost mut done = Seq::<u8>::empty();
    let mut i: usize = 0;
    proof {
        assert(out@ =~= seq![123u8] + done);
        assert(done + spec_render_rest(v, 0) =~= spec_render_rest(v, 0));
    }
    while i < n
        invariant
            0 <= i <= n == es@.len(),
            v == ents_view(es@),
            forall|j: int| 0 <= j < es@.len() ==> rec_wf((#[trigger] es@[j]).1@),
            out@ == seq![123u8] + done,
            done + spec_render_rest(v, i as int) == spec_render_rest(v, 0),
        decreases n - i,
    {
        let ghost sep = if i > 0 {
            seq![44u8, 32u8]
        } else {
            Seq::<u8>::empty()
        };
        if i > 0 {
            out.push(44);
            out.push(32);
        }
        proof {
            assert(out@ =~= seq![123u8] + (done + sep));
        }
        push_entry(&es[i].0, &es[i].1, &mut out);
        proof {
            assert(v[i as int] == (es@[i as int].0@, es@[i as int].1@));
            let done_old = done;
            done = done + sep + spec_entry(v[i as int]);
            assert(out@ =~= seq![123u8] + done);
            assert(spec_render_rest(v, i as int) == sep + spec_entry(v[i as int])
                + spec_render_rest(v, i + 1));
            assert(done + spec_render_rest(v, i + 1) =~= done_old + spec_render_rest(
                v,
                i as int,
            ));
        }
        i = i + 1;
    }
    out.push(125);
    proof {
        assert(spec_render_rest(v, n as int) == Seq::<u8>::empty());
        assert(done + Seq::<u8>::empty() =~= done);
        assert(out@ =~= spec_summary(t.entries@));
    }
    out
}

} // verus!
