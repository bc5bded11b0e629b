//! Splitting a byte region into lines at the single-byte terminator.
//!
//! A line is a maximal terminator-free run: the bytes before each terminator,
//! and the trailing bytes after the last terminator if there are any.  The
//! terminators themselves belong to no line.
use vstd::prelude::*;

use crate::TERMINATOR;

verus! {

/// Index of the first occurrence of `b` in `s` at an index `>= i`, or
/// `s.len()` if there is none.
pub open spec fn find_byte(s: Seq<u8>, b: u8, i: int) -> int
    decreases s.len() - i,
{
    if i >= s.len() {
        s.len() as int
    } else if s[i] == b {
        i
    } else {
        find_byte(s, b, i + 1)
    }
}

/// [`find_byte`] never points before where the search began.
pub proof fn lemma_find_byte_lb(s: Seq<u8>, b: u8, i: int)
    ensures
        i <= s.len() ==> find_byte(s, b, i) >= i,
    decreases s.len() - i,
{
    if i < s.len() && s[i] != b {
        lemma_find_byte_lb(s, b, i + 1);
    }
}

/// What [`find_byte`] returns: the first hit at or after `i`.
pub proof fn lemma_find_byte_props(s: Seq<u8>, b: u8, i: int)
    requires
        0 <= i <= s.len(),
    ensures
        i <= find_byte(s, b, i) <= s.len(),
        find_byte(s, b, i) < s.len() ==> s[find_byte(s, b, i)] == b,
        forall|j: int| i <= j < find_byte(s, b, i) ==> s[j] != b,
    decreases s.len() - i,
{
    if i < s.len() && s[i] != b {
        lemma_find_byte_props(s, b, i + 1);
    }
}

/// A position `k` with no hit before it, and a hit (or the end) at it, is
/// exactly what [`find_byte`] returns.
pub proof fn lemma_find_byte_is(s: Seq<u8>, b: u8, i: int, k: int)
    requires
        0 <= i <= k <= s.len(),
        forall|j: int| i <= j < k ==> s[j] != b,
        k < s.len() ==> s[k] == b,
    ensures
        find_byte(s, b, i) == k,
    decreases k - i,
{
    if i < k {
        lemma_find_byte_is(s, b, i + 1, k);
    }
}

/// Scans `data[from..end]` for the byte `b`; returns the index of the first
/// occurrence, or `end` if there is none.  The result is the first hit of
/// the subrange, shifted back to an absolute index.
pub fn scan_byte(data: &Vec<u8>, b: u8, from: usize, end: usize) -> (r: usize)
    requires
        from <= end <= data.len(),
    ensures
        r == from + find_byte(data@.subrange(from as int, end as int), b, 0),
        from <= r <= end,
        r < end ==> data@[r as int] == b,
        forall|j: int| from <= j < r ==> data@[j] != b,
{
    let ghost t = data@.subrange(from as int, end as int);
    let mut i: usize = from;
    while i < end && data[i] != b
        invariant
            from <= i <= end <= data.len(),
            t == data@.subrange(from as int, end as int),
            forall|j: int| from <= j < i ==> data@[j] != b,
        decreases end - i,
    {
        i = i + 1;
    }
    proof {
        assert(forall|j: int| 0 <= j < i - from ==> t[j] == data@[from + j]);
        lemma_find_byte_is(t, b, 0, i - from);
    }
    i
}

/// Copies the bytes `data[from..end]` out of the region.
pub fn copy_range(data: &Vec<u8>, from: usize, end: usize) -> (r: Vec<u8>)
    requires
        from <= end <= data.len(),
    ensures
        r@ == data@.subrange(from as int, end as int),
{
    let mut out: Vec<u8> = Vec::new();
    let mut i: usize = from;
    while i < end
        invariant
            from <= i <= end <= data.len(),
            out@ =~= data@.subrange(from as int, i as int),
        decreases end - i,
    {
        out.push(data[i]);
        proof {
            assert(out@ =~= data@.subrange(from as int, i + 1));
        }
        i = i + 1;
    }
    out
}

/// The lines of `s` from index `i` on.
pub open spec fn lines_from(s: Seq<u8>, i: int) -> Seq<Seq<u8>>
    decreases s.len() - i,
    via lines_from_decreases
{
    if i >= s.len() {
        Seq::empty()
    } else {
        let j = find_byte(s, TERMINATOR, i);
        if j < s.len() {
            seq![s.subrange(i, j)] + lines_from(s, j + 1)
        } else {
            seq![s.subrange(i, s.len() as int)]
        }
    }
}

#[via_fn]
proof fn lines_from_decreases(s: Seq<u8>, i: int) {
    lemma_find_byte_lb(s, TERMINATOR, i);
}

/// The lines of the whole of `s`.
pub open spec fn spec_lines(s: Seq<u8>) -> Seq<Seq<u8>> {
    lines_from(s, 0)
}

/// There are no more lines than bytes: every line consumes at least one byte
/// of `s` (its terminator, or at least one trailing byte).
pub proof fn lemma_lines_from_count(s: Seq<u8>, i: int)
    requires
        0 <= i <= s.len(),
    ensures
        lines_from(s, i).len() <= s.len() - i,
    decreases s.len() - i,
{
    if i < s.len() {
        let j = find_byte(s, TERMINATOR, i);
        lemma_find_byte_props(s, TERMINATOR, i);
        if j < s.len() {
            lemma_lines_from_count(s, j + 1);
        }
    }
}

} // verus!
