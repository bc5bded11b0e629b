//! The partitioner: dividing the region into one line-aligned byte range
//! per worker.
//!
//! Worker `i` of `n` gets a contiguous range `[start, end)`.  Every range
//! boundary except the final end-of-region boundary lies immediately after a
//! line terminator, so no worker ever begins or ends mid-record.  The ranges
//! are contiguous, non-overlapping, and together cover the whole region.
use vstd::prelude::*;

use crate::lines::find_byte;
use crate::lines::lemma_find_byte_is;
use crate::lines::lemma_find_byte_props;
use crate::lines::scan_byte;
use crate::{Error, TERMINATOR};

verus! {

/// A contiguous byte range `[start, end)` of the region, assigned to one
/// worker.
#[derive(Clone, Copy, Debug, PartialEq, Eq, Structural)]
pub struct Partition {
    pub start: usize,
    pub end: usize,
}

/// The ranges a partition list denotes.
pub open spec fn parts_model(ps: Seq<Partition>) -> Seq<(int, int)> {
    ps.map(|i: int, p: Partition| (p.start as int, p.end as int))
}

/// The partitioning algorithm, from `start` with `n` ranges still to make:
/// all but the last range end just after the first terminator at or past the
/// even target size; the last range always ends at the region's end.  `None`
/// when a boundary search runs past the end of the region.
pub open spec fn spec_parts(data: Seq<u8>, target: int, start: int, n: int) -> Option<
    Seq<(int, int)>,
>
    decreases n,
{
    if n <= 1 {
        Some(seq![(start, data.len() as int)])
    } else {
        let e = find_byte(data, TERMINATOR, start + target);
        if e >= data.len() {
            None
        } else {
            match spec_parts(data, target, e + 1, n - 1) {
                None => None,
                Some(r) => Some(seq![(start, e + 1)] + r),
            }
        }
    }
}

/// The whole region divided for `n` workers, with the even target size
/// `len / n`.  `None` for zero workers or a failed boundary search.
pub open spec fn spec_partition(data: Seq<u8>, n: int) -> Option<Seq<(int, int)>> {
    if n < 1 {
        None
    } else {
        spec_parts(data, data.len() as int / n, 0, n)
    }
}

/// Coverage: a successful partitioning yields exactly `n` contiguous ranges
/// that begin at `start`, end at the region's end, and stay in bounds — so
/// their union is the whole of `[start, len)`, with no gap and no overlap.
pub proof fn lemma_parts_coverage(data: Seq<u8>, target: int, start: int, n: int)
    requires
        n >= 1,
        target >= 0,
        0 <= start <= data.len(),
        spec_parts(data, target, start, n) is Some,
    ensures
        ({
            let ps = spec_parts(data, target, start, n)->Some_0;
            &&& ps.len() == n
            &&& ps[0].0 == start
            &&& ps[n - 1].1 == data.len()
            &&& forall|i: int| 0 <= i < n - 1 ==> (#[trigger] ps[i]).1 == ps[i + 1].0
            &&& forall|i: int| 0 <= i < n ==> start <= (#[trigger] ps[i]).0 <= ps[i].1 <= data.len()
        }),
    decreases n,
{
    let ps = spec_parts(data, target, start, n)->Some_0;
    if n == 1 {
    } else {
        let e = find_byte(data, TERMINATOR, start + target);
        if start + target <= data.len() {
            lemma_find_byte_props(data, TERMINATOR, start + target);
        }
        let rest = spec_parts(data, target, e + 1, n - 1)->Some_0;
        lemma_parts_coverage(data, target, e + 1, n - 1);
        assert(ps == seq![(start, e + 1)] + rest);
        assert(forall|i: int| 0 <= i < n - 1 ==> ps[i + 1] == rest[i]);
    }
}

/// Line-alignment: every range boundary except the final end-of-region
/// boundary lies immediately after a line terminator.
pub proof fn lemma_parts_alignment(data: Seq<u8>, target: int, start: int, n: int)
    requires
        n >= 1,
        target >= 0,
        0 <= start <= data.len(),
        spec_parts(data, target, start, n) is Some,
    ensures
        ({
            let ps = spec_parts(data, target, start, n)->Some_0;
            forall|i: int|
                0 <= i < n - 1 ==> (#[trigger] ps[i]).1 >= 1 && data[ps[i].1 - 1] == TERMINATOR
        }),
    decreases n,
{
    let ps = spec_parts(data, target, start, n)->Some_0;
    if n > 1 {
        let e = find_byte(data, TERMINATOR, start + target);
        if start + target <= data.len() {
            lemma_find_byte_props(data, TERMINATOR, start + target);
        }
        assert(e < data.len());
        assert(data[e] == TERMINATOR);
        let rest = spec_parts(data, target, e + 1, n - 1)->Some_0;
        lemma_parts_coverage(data, target, e + 1, n - 1);
        assert(rest.len() == n - 1);
        lemma_parts_alignment(data, target, e + 1, n - 1);
        assert(ps == seq![(start, e + 1)] + rest);
        assert(ps[0].1 == e + 1);
        assert(forall|i: int| 0 <= i < n - 2 ==> ps[i + 1] == rest[i]);
        assert(forall|i: int|
            1 <= i < n - 1 ==> (#[trigger] ps[i]).1 >= 1 && data[ps[i].1 - 1] == TERMINATOR) by {
            assert(forall|i: int| 1 <= i < n - 1 ==> (#[trigger] ps[i]) == rest[i - 1]);
        }
    }
}

/// The bytes the ranges of `ps` select, in order.
pub open spec fn concat_parts(data: Seq<u8>, ps: Seq<(int, int)>) -> Seq<u8>
    decreases ps.len(),
{
    if ps.len() == 0 {
        Seq::empty()
    } else {
        data.subrange(ps[0].0, ps[0].1) + concat_parts(data, ps.skip(1))
    }
}

/// Contiguous in-bounds ranges concatenate to the single spanning range.
pub proof fn lemma_concat_contiguous(data: Seq<u8>, ps: Seq<(int, int)>)
    requires
        ps.len() >= 1,
        forall|i: int| 0 <= i < ps.len() - 1 ==> (#[trigger] ps[i]).1 == ps[i + 1].0,
        forall|i: int| 0 <= i < ps.len() ==> 0 <= (#[trigger] ps[i]).0 <= ps[i].1 <= data.len(),
    ensures
        ps[0].0 <= ps[ps.len() - 1].1,
        concat_parts(data, ps) == data.subrange(ps[0].0, ps[ps.len() - 1].1),
    decreases ps.len(),
{
    if ps.len() == 1 {
        assert(concat_parts(data, ps.skip(1)) == Seq::<u8>::empty());
        assert(concat_parts(data, ps) =~= data.subrange(ps[0].0, ps[0].1));
    } else {
        let t = ps.skip(1);
        assert(forall|i: int| 0 <= i < t.len() ==> (#[trigger] t[i]) == ps[i + 1]);
        lemma_concat_contiguous(data, t);
        let a = ps[0].0;
        let b = ps[0].1;
        let c = ps[ps.len() - 1].1;
        assert(b == ps[1].0);
        assert(t[0] == ps[1] && t[t.len() - 1] == ps[ps.len() - 1]);
        assert(concat_parts(data, t) == data.subrange(b, c));
        assert(data.subrange(a, b) + data.subrange(b, c) =~= data.subrange(a, c));
    }
}

/// Reconstruction: a successful partitioning's ranges, concatenated in
/// order, reproduce the region byte for byte.
pub proof fn lemma_partition_concat(data: Seq<u8>, n: int)
    requires
        spec_partition(data, n) is Some,
    ensures
        concat_parts(data, spec_partition(data, n)->Some_0) == data,
{
    let ps = spec_partition(data, n)->Some_0;
    lemma_parts_coverage(data, data.len() as int / n, 0, n);
    lemma_concat_contiguous(data, ps);
    assert(data.subrange(0, data.len() as int) =~= data);
}

/// Divides `data` into one line-aligned range per worker, as
/// [`spec_partition`] describes.  Fails exactly when no worker was asked
/// for, or when a boundary search finds no terminator before the region's
/// end (malformed or truncated input).
pub fn make_partitions(data: &Vec<u8>, n: usize) -> (r: Result<Vec<Partition>, Error>)
    ensures
        match r {
            Ok(ps) => {
                &&& n >= 1
                &&& spec_partition(data@, n as int) == Some(parts_model(ps@))
                &&& ps@.len() == n
            },
            Err(e) => {
                ||| (e == Error::ZeroWorkers && n == 0)
                ||| (e == Error::NoTerminator && n >= 1 && spec_partition(data@, n as int) is None)
            },
        },
{
    if n == 0 {
        return Err(Error::ZeroWorkers);
    }
    let target: usize = data.len() / n;
    let mut ps: Vec<Partition> = Vec::new();
    let mut start: usize = 0;
    let mut k: usize = 0;
    proof {
        assert(parts_model(ps@) =~= Seq::<(int, int)>::empty());
    }
    while k < n - 1
        invariant
            1 <= n,
            0 <= k <= n - 1,
            target == data@.len() as int / n as int,
            0 <= start <= data@.len(),
            ps@.len() == k,
            spec_parts(data@, target as int, 0, n as int) == (match spec_parts(
                data@,
                target as int,
                start as int,
                n - k,
            ) {
                None => None::<Seq<(int, int)>>,
                Some(rest) => Some(parts_model(ps@) + rest),
            }),
        decreases n - k,
    {
        let from: usize = if target <= data.len() - start {
            start + target
        } else {
            data.len()
        };
        let e = scan_byte(data, TERMINATOR, from, data.len());
        proof {
            assert(forall|j: int|
                0 <= j < data@.len() - from ==> (#[trigger] data@.subrange(
                    from as int,
                    data@.len() as int,
                )[j]) == data@[from + j]);
            lemma_find_byte_is(data@, TERMINATOR, from as int, e as int);
            if start + target > data@.len() {
                assert(find_byte(data@, TERMINATOR, start + target) == data@.len());
                assert(e == data@.len());
            } else {
                assert(from == start + target);
                assert(find_byte(data@, TERMINATOR, start + target) == e);
            }
        }
        if e == data.len() {
            proof {
                assert(spec_parts(data@, target as int, start as int, n - k) is None);
            }
            return Err(Error::NoTerminator);
        }
        let ghost ps_old = ps@;
        ps.push(Partition { start, end: e + 1 });
        proof {
            assert(parts_model(ps@) =~= parts_model(ps_old) + seq![(start as int, e + 1 as int)]);
            assert(spec_parts(data@, target as int, start as int, n - k) == (match spec_parts(
                data@,
                target as int,
                e + 1,
                n - k - 1,
            ) {
                None => None::<Seq<(int, int)>>,
                Some(r) => Some(seq![(start as int, e + 1 as int)] + r),
            }));
            if spec_parts(data@, target as int, e + 1, n - k - 1) is Some {
                let rest = spec_parts(data@, target as int, e + 1, n - k - 1)->Some_0;
                assert(parts_model(ps_old) + (seq![(start as int, e + 1 as int)] + rest)
                    =~= parts_model(ps@) + rest);
            }
        }
        start = e + 1;
        k = k + 1;
    }
    let ghost ps_old = ps@;
    ps.push(Partition { start, end: data.len() });
    proof {
        assert(spec_parts(data@, target as int, start as int, 1) == Some(
            seq![(start as int, data@.len() as int)],
        ));
        assert(parts_model(ps@) =~= parts_model(ps_old) + seq![(start as int, data@.len() as int)]);
    }
    Ok(ps)
}

} // verus!
