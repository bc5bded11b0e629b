//! The key-indexed aggregation table.
//!
//! An associative structure from a byte-string key to the running
//! `(min, max, sum, count)` aggregate of its scaled values.  One table is
//! built per partition during the scan; the merger then folds all of them
//! into one.  The model of a table is a map from the key's bytes to the
//! mathematical record, and every operation is stated against that map.
use vstd::prelude::*;

use crate::Error;

verus! {

/// Bound on the magnitude of one scaled value: every stored value `v`
/// satisfies `-SCALE_BOUND <= v < SCALE_BOUND`.
pub const SCALE_BOUND: u64 = 0x8000_0000;

/// The running aggregate of one key: fixed-point values scaled by ten.
#[derive(Clone, Copy, Debug)]
pub struct Record {
    pub min: i32,
    pub max: i32,
    pub sum: i128,
    pub count: u64,
}

/// The mathematical shadow of a [`Record`], over unbounded integers.
pub struct RecModel {
    pub min: int,
    pub max: int,
    pub sum: int,
    pub count: int,
}

impl View for Record {
    type V = RecModel;

    open spec fn view(&self) -> RecModel {
        RecModel { min: self.min as int, max: self.max as int, sum: self.sum as int, count: self.count as int }
    }
}

/// The aggregate of a single observation.
pub open spec fn rec_unit(v: int) -> RecModel {
    RecModel { min: v, max: v, sum: v, count: 1 }
}

/// Field-wise combination of two aggregates: the two independent, symmetric
/// reductions for min and max, and totals for sum and count.
pub open spec fn rec_merge(a: RecModel, b: RecModel) -> RecModel {
    RecModel {
        min: vstd::math::min(a.min, b.min),
        max: vstd::math::max(a.max, b.max),
        sum: a.sum + b.sum,
        count: a.count + b.count,
    }
}

/// A well-formed aggregate: at least one observation, ordered extrema in
/// the scaled-value range, and a sum bounded by `count` values.
pub open spec fn rec_wf(r: RecModel) -> bool {
    &&& 1 <= r.count <= u64::MAX
    &&& -(SCALE_BOUND as int) <= r.min <= r.max < SCALE_BOUND as int
    &&& -(r.count * SCALE_BOUND) <= r.sum <= r.count * SCALE_BOUND
}

/// Combining two well-formed aggregates is well-formed whenever the counts
/// still fit one machine word.
pub proof fn lemma_rec_merge_wf(a: RecModel, b: RecModel)
    requires
        rec_wf(a),
        rec_wf(b),
        a.count + b.count <= u64::MAX,
    ensures
        rec_wf(rec_merge(a, b)),
{
    assert((a.count + b.count) * SCALE_BOUND == a.count * SCALE_BOUND + b.count * SCALE_BOUND)
        by (nonlinear_arith);
}

/// Merging aggregates is commutative.
pub proof fn lemma_rec_merge_comm(a: RecModel, b: RecModel)
    ensures
        rec_merge(a, b) == rec_merge(b, a),
{
}

/// Merging aggregates is associative.
pub proof fn lemma_rec_merge_assoc(a: RecModel, b: RecModel, c: RecModel)
    ensures
        rec_merge(rec_merge(a, b), c) == rec_merge(a, rec_merge(b, c)),
{
}

/// The map an entry list denotes, later entries overriding earlier ones
/// (with distinct keys nothing is overridden).
pub open spec fn map_of(s: Seq<(Vec<u8>, Record)>) -> Map<Seq<u8>, RecModel>
    decreases s.len(),
{
    if s.len() == 0 {
        Map::empty()
    } else {
        map_of(s.drop_last()).insert(s.last().0@, s.last().1@)
    }
}

/// A well-formed entry list: pairwise distinct keys, well-formed records.
pub open spec fn table_wf(s: Seq<(Vec<u8>, Record)>) -> bool {
    &&& forall|i: int, j: int| 0 <= i < j < s.len() ==> (#[trigger] s[i]).0@ != (#[trigger] s[j]).0@
    &&& forall|i: int| 0 <= i < s.len() ==> rec_wf((#[trigger] s[i]).1@)
}

/// A key is in the denoted map exactly when some entry holds it.
pub proof fn lemma_map_of_dom(s: Seq<(Vec<u8>, Record)>, k: Seq<u8>)
    ensures
        map_of(s).dom().contains(k) <==> exists|i: int|
            0 <= i < s.len() && (#[trigger] s[i]).0@ == k,
    decreases s.len(),
{
    if s.len() > 0 {
        lemma_map_of_dom(s.drop_last(), k);
        if s.last().0@ == k {
            assert(s[s.len() - 1].0@ == k);
        } else if map_of(s).dom().contains(k) {
            let i = choose|i: int| 0 <= i < s.len() - 1 && (#[trigger] s.drop_last()[i]).0@ == k;
            assert(s[i].0@ == k);
        } else {
            assert(forall|i: int| 0 <= i < s.len() - 1 ==> (#[trigger] s[i]).0@ == s.drop_last()[i].0@);
        }
    }
}

/// With distinct keys, each entry is what the denoted map holds for its key.
pub proof fn lemma_map_of_get(s: Seq<(Vec<u8>, Record)>, i: int)
    requires
        table_wf(s),
        0 <= i < s.len(),
    ensures
        map_of(s).dom().contains(s[i].0@),
        map_of(s)[s[i].0@] == s[i].1@,
    decreases s.len(),
{
    if i == s.len() - 1 {
    } else {
        assert(table_wf(s.drop_last())) by {
            assert(forall|x: int| 0 <= x < s.len() - 1 ==> (#[trigger] s.drop_last()[x]) == s[x]);
        }
        assert(s.drop_last()[i] == s[i]);
        lemma_map_of_get(s.drop_last(), i);
        assert(s[i].0@ != s.last().0@);
    }
}

/// Replacing the record of entry `i` denotes a plain map update.
pub proof fn lemma_map_of_update(s: Seq<(Vec<u8>, Record)>, i: int, p: (Vec<u8>, Record))
    requires
        table_wf(s),
        0 <= i < s.len(),
        p.0@ == s[i].0@,
    ensures
        map_of(s.update(i, p)) == map_of(s).insert(p.0@, p.1@),
    decreases s.len(),
{
    let t = s.update(i, p);
    if i == s.len() - 1 {
        assert(t.drop_last() =~= s.drop_last());
        assert(map_of(t) =~= map_of(s).insert(p.0@, p.1@));
    } else {
        assert(table_wf(s.drop_last())) by {
            assert(forall|x: int| 0 <= x < s.len() - 1 ==> (#[trigger] s.drop_last()[x]) == s[x]);
        }
        assert(s.drop_last()[i] == s[i]);
        lemma_map_of_update(s.drop_last(), i, p);
        assert(t.drop_last() =~= s.drop_last().update(i, p));
        assert(t.last() == s.last());
        assert(s[i].0@ != s.last().0@);
        assert(map_of(t) =~= map_of(s).insert(p.0@, p.1@));
    }
}

/// One observation folded into the map: the record of `k` gains `v`, or a
/// fresh single-observation record appears under `k`.
pub open spec fn spec_step(m: Map<Seq<u8>, RecModel>, k: Seq<u8>, v: int) -> Map<Seq<u8>, RecModel> {
    if m.dom().contains(k) {
        m.insert(k, rec_merge(m[k], rec_unit(v)))
    } else {
        m.insert(k, rec_unit(v))
    }
}

/// The merged table: every key of either side, combined field-wise where
/// both sides observed it.
pub open spec fn spec_merge(a: Map<Seq<u8>, RecModel>, b: Map<Seq<u8>, RecModel>) -> Map<
    Seq<u8>,
    RecModel,
> {
    Map::new(
        |k: Seq<u8>| a.dom().contains(k) || b.dom().contains(k),
        |k: Seq<u8>|
            if a.dom().contains(k) && b.dom().contains(k) {
                rec_merge(a[k], b[k])
            } else if a.dom().contains(k) {
                a[k]
            } else {
                b[k]
            },
    )
}

/// Whether the merged per-key counts all fit one machine word.
pub open spec fn mergeable(a: Map<Seq<u8>, RecModel>, b: Map<Seq<u8>, RecModel>) -> bool {
    forall|k: Seq<u8>|
        a.dom().contains(k) && b.dom().contains(k) ==> (#[trigger] a[k]).count + b[k].count
            <= u64::MAX
}

/// Merging with the empty table changes nothing.
pub proof fn lemma_merge_empty(a: Map<Seq<u8>, RecModel>)
    ensures
        spec_merge(a, Map::empty()) == a,
        spec_merge(Map::empty(), a) == a,
{
    assert(spec_merge(a, Map::empty()) =~= a);
    assert(spec_merge(Map::empty(), a) =~= a);
}

/// Merging tables is commutative: the result does not depend on which table
/// is chosen as the accumulator.
pub proof fn lemma_merge_comm(a: Map<Seq<u8>, RecModel>, b: Map<Seq<u8>, RecModel>)
    ensures
        spec_merge(a, b) == spec_merge(b, a),
{
    assert(spec_merge(a, b) =~= spec_merge(b, a));
}

/// Merging tables is associative: the order partitions are folded in does
/// not matter.
pub proof fn lemma_merge_assoc(
    a: Map<Seq<u8>, RecModel>,
    b: Map<Seq<u8>, RecModel>,
    c: Map<Seq<u8>, RecModel>,
)
    ensures
        spec_merge(spec_merge(a, b), c) == spec_merge(a, spec_merge(b, c)),
{
    assert(spec_merge(spec_merge(a, b), c) =~= spec_merge(a, spec_merge(b, c)));
}

/// One observation is the merge of a one-key table.
pub proof fn lemma_step_is_merge_unit(m: Map<Seq<u8>, RecModel>, k: Seq<u8>, v: int)
    ensures
        spec_step(m, k, v) == spec_merge(m, map![k => rec_unit(v)]),
{
    assert(spec_step(m, k, v) =~= spec_merge(m, map![k => rec_unit(v)]));
}

/// The key-indexed aggregation table.
#[derive(Debug)]
pub struct AggregationTable {
    pub entries: Vec<(Vec<u8>, Record)>,
}

impl View for AggregationTable {
    type V = Map<Seq<u8>, RecModel>;

    open spec fn view(&self) -> Map<Seq<u8>, RecModel> {
        map_of(self.entries@)
    }
}

impl AggregationTable {
    /// A well-formed table: distinct keys, well-formed records.
    pub open spec fn wf(&self) -> bool {
        table_wf(self.entries@)
    }

    /// An empty table.
    pub fn new() -> (r: Self)
        ensures
            r.wf(),
            r@ == Map::<Seq<u8>, RecModel>::empty(),
    {
        AggregationTable { entries: Vec::new() }
    }

    /// The number of distinct keys observed.
    pub fn len(&self) -> (r: usize)
        ensures
            r == self.entries@.len(),
    {
        self.entries.len()
    }

    /// Index of the entry holding `key`, if any.
    fn find_key(&self, key: &Vec<u8>) -> (r: Option<usize>)
        ensures
            match r {
                Some(i) => 0 <= i < self.entries@.len() && self.entries@[i as int].0@ == key@,
                None => forall|i: int|
                    0 <= i < self.entries@.len() ==> (#[trigger] self.entries@[i]).0@ != key@,
            },
    {
        let n = self.entries.len();
        let mut i: usize = 0;
        while i < n
            invariant
                0 <= i <= n == self.entries@.len(),
                forall|j: int| 0 <= j < i ==> (#[trigger] self.entries@[j]).0@ != key@,
            decreases n - i,
        {
            if bytes_eq(&self.entries[i].0, key) {
                return Some(i);
            }
            i = i + 1;
        }
        None
    }

    /// The record observed for `key`, if any.
    pub fn get(&self, key: &Vec<u8>) -> (r: Option<Record>)
        requires
            self.wf(),
        ensures
            match r {
                Some(rec) => self@.dom().contains(key@) && rec@ == self@[key@],
                None => !self@.dom().contains(key@),
            },
    {
        proof {
            lemma_map_of_dom(self.entries@, key@);
        }
        match self.find_key(key) {
            Some(i) => {
                proof {
                    lemma_map_of_get(self.entries@, i as int);
                }
                Some(self.entries[i].1)
            },
            None => None,
        }
    }

    /// Folds one observation `(key, v)` into the table.
    pub fn add(&mut self, key: Vec<u8>, v: i32)
        requires
            old(self).wf(),
            old(self)@.dom().contains(key@) ==> old(self)@[key@].count < u64::MAX,
        ensures
            final(self).wf(),
            final(self)@ == spec_step(old(self)@, key@, v as int),
    {
        proof {
            lemma_map_of_dom(self.entries@, key@);
        }
        match self.find_key(&key) {
            Some(i) => {
                proof {
                    lemma_map_of_get(self.entries@, i as int);
                }
                let mut rec = self.entries[i].1;
                let ghost oldrec = rec@;
                proof {
                    assert(rec_wf(oldrec));
                    assert((oldrec.count + 1) * SCALE_BOUND == oldrec.count * SCALE_BOUND
                        + SCALE_BOUND) by (nonlinear_arith);
                }
                if v < rec.min {
                    rec.min = v;
                }
                if v > rec.max {
                    rec.max = v;
                }
                rec.sum = rec.sum + (v as i128);
                rec.count = rec.count + 1;
                proof {
                    assert(rec@ == rec_merge(oldrec, rec_unit(v as int)));
                    lemma_map_of_update(self.entries@, i as int, (key, rec));
                }
                let ghost s0 = self.entries@;
                self.entries.set(i, (key, rec));
                proof {
                    assert(table_wf(self.entries@)) by {
                        assert(forall|x: int|
                            0 <= x < s0.len() && x != i ==> (#[trigger] self.entries@[x])
                                == s0[x]);
                        lemma_rec_merge_wf(oldrec, rec_unit(v as int));
                    }
                }
            },
            None => {
                let rec = Record { min: v, max: v, sum: v as i128, count: 1 };
                let ghost s0 = self.entries@;
                self.entries.push((key, rec));
                proof {
                    assert(self.entries@.drop_last() =~= s0);
                    assert(self.entries@.last() == (key, rec));
                    assert(table_wf(self.entries@)) by {
                        assert(forall|x: int|
                            0 <= x < s0.len() ==> (#[trigger] self.entries@[x]) == s0[x]);
                    }
                }
            },
        }
    }
    /// Folds every entry of `other` into this table, field-wise where a key
    /// is shared.  Fails (fail-fast, result discarded) exactly when some
    /// shared key's combined count would not fit one machine word.
    pub fn merge(&mut self, other: AggregationTable) -> (r: Result<(), Error>)
        requires
            old(self).wf(),
            other.wf(),
        ensures
            r is Ok ==> final(self).wf() && mergeable(old(self)@, other@) && final(self)@
                == spec_merge(old(self)@, other@),
            r is Err ==> r->Err_0 == Error::CountOverflow && !mergeable(old(self)@, other@),
    {
        let ghost a0 = old(self)@;
        let ghost oth = other.entries@;
        let n = other.entries.len();
        let mut i: usize = 0;
        proof {
            assert(oth.take(0) =~= Seq::<(Vec<u8>, Record)>::empty());
            assert(self@ =~= spec_merge(a0, map_of(oth.take(0))));
        }
        while i < n
            invariant
                0 <= i <= n == oth.len(),
                a0 == old(self)@,
                other.entries@ == oth,
                table_wf(oth),
                self.wf(),
                mergeable(a0, map_of(oth.take(i as int))),
                self@ == spec_merge(a0, map_of(oth.take(i as int))),
            decreases n - i,
        {
            let ghost mi = map_of(oth.take(i as int));
            let key = copy_bytes(&other.entries[i].0);
            let rec = other.entries[i].1;
            proof {
                lemma_map_of_get(oth, i as int);
                lemma_map_of_dom(oth.take(i as int), key@);
                assert(forall|x: int|
                    0 <= x < i ==> (#[trigger] oth.take(i as int)[x]) == oth[x]);
                assert(!mi.dom().contains(key@));
                lemma_map_of_dom(self.entries@, key@);
                assert(oth.take(i + 1).drop_last() =~= oth.take(i as int));
                assert(oth.take(i + 1).last() == oth[i as int]);
                assert(map_of(oth.take(i + 1)) == mi.insert(key@, rec@));
            }
            match self.find_key(&key) {
                Some(j) => {
                    proof {
                        lemma_map_of_get(self.entries@, j as int);
                        assert(self@[key@] == a0[key@]);
                    }
                    let mut acc = self.entries[j].1;
                    let ghost accm = acc@;
                    if acc.count > u64::MAX - rec.count {
                        proof {
                            lemma_map_of_get(oth, i as int);
                            assert(map_of(oth)[key@] == rec@);
                            assert(a0[key@].count + map_of(oth)[key@].count > u64::MAX);
                            lemma_map_of_dom(oth, key@);
                            assert(a0.dom().contains(key@));
                            assert(map_of(oth).dom().contains(key@));
                            assert(!mergeable(a0, map_of(oth)));
                        }
                        return Err(Error::CountOverflow);
                    }
                    proof {
                        assert(rec_wf(accm) && rec_wf(rec@));
                        lemma_rec_merge_wf(accm, rec@);
                    }
                    if rec.min < acc.min {
                        acc.min = rec.min;
                    }
                    if rec.max > acc.max {
                        acc.max = rec.max;
                    }
                    acc.sum = acc.sum + rec.sum;
                    acc.count = acc.count + rec.count;
                    proof {
                        assert(acc@ == rec_merge(accm, rec@));
                        lemma_map_of_update(self.entries@, j as int, (key, acc));
                    }
                    let ghost s0 = self.entries@;
                    self.entries.set(j, (key, acc));
                    proof {
                        assert(table_wf(self.entries@)) by {
                            assert(forall|x: int|
                                0 <= x < s0.len() && x != j ==> (#[trigger] self.entries@[x])
                                    == s0[x]);
                        }
                        assert(self@ =~= spec_merge(a0, mi.insert(key@, rec@)));
                    }
                },
                None => {
                    proof {
                        assert(!self@.dom().contains(key@));
                        assert(!a0.dom().contains(key@)) by {
                            assert(self@ == spec_merge(a0, mi));
                        }
                    }
                    let ghost s0 = self.entries@;
                    self.entries.push((key, rec));
                    proof {
                        assert(self.entries@.drop_last() =~= s0);
                        assert(self.entries@.last() == (key, rec));
                        assert(table_wf(self.entries@)) by {
                            assert(forall|x: int|
                                0 <= x < s0.len() ==> (#[trigger] self.entries@[x]) == s0[x]);
                        }
                        assert(self@ =~= spec_merge(a0, mi.insert(key@, rec@)));
                    }
                },
            }
            i = i + 1;
        }
        proof {
            assert(oth.take(n as int) =~= oth);
        }
        Ok(())
    }
}

/// Byte-wise equality of two keys.
pub fn bytes_eq(a: &Vec<u8>, b: &Vec<u8>) -> (r: bool)
    ensures
        r == (a@ == b@),
{
    if a.len() != b.len() {
        return false;
    }
    let n = a.len();
    let mut i: usize = 0;
    while i < n
        invariant
            0 <= i <= n,
            n == a@.len() == b@.len(),
            forall|j: int| 0 <= j < i ==> a@[j] == b@[j],
        decreases n - i,
    {
        if a[i] != b[i] {
            return false;
        }
        i = i + 1;
    }
    proof {
        assert(a@ =~= b@);
    }
    true
}

/// Copies a key out of its buffer.
pub fn copy_bytes(a: &Vec<u8>) -> (r: Vec<u8>)
    ensures
        r@ == a@,
{
    let n = a.len();
    let mut out: Vec<u8> = Vec::new();
    let mut i: usize = 0;
    while i < n
        invariant
            0 <= i <= n == a@.len(),
            out@ =~= a@.take(i as int),
        decreases n - i,
    {
        out.push(a[i]);
        i = i + 1;
    }
    proof {
        assert(a@.take(n as int) =~= a@);
    }
    out
}

} // verus!
