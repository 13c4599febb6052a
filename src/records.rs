//! The mathematical model of terminator-delimited records over a byte sequence.
use vstd::prelude::*;

verus! {

/// Number of occurrences of the terminator byte `t` in `s`.
pub open spec fn count_term(s: Seq<u8>, t: u8) -> nat
    decreases s.len(),
{
    if s.len() == 0 {
        0
    } else {
        (if s[0] == t { 1nat } else { 0nat }) + count_term(s.subrange(1, s.len() as int), t)
    }
}

/// Number of records in `s`: one per terminator, plus a trailing partial record
/// when `s` does not end with the terminator.
pub open spec fn records(s: Seq<u8>, t: u8) -> nat {
    count_term(s, t) + if s.len() > 0 && s.last() != t { 1nat } else { 0nat }
}

/// The bytes of `s` from offset `q` to its end.
pub open spec fn suffix(s: Seq<u8>, q: int) -> Seq<u8> {
    s.subrange(q, s.len() as int)
}

/// `q` is the offset from which the last `n` records of `s` are emitted: the
/// smallest offset whose suffix holds at most `n` records (0 when `s` has at most
/// `n` records, `s.len()` when `n` is 0).
pub open spec fn is_last_records_start(s: Seq<u8>, n: nat, t: u8, q: int) -> bool {
    &&& 0 <= q <= s.len()
    &&& records(suffix(s, q), t) <= n
    &&& q > 0 ==> records(suffix(s, q - 1), t) > n
}

/// `p` is the offset of the first byte of record `l` (counted from 1) of `s`:
/// 0 when `l <= 1`, the end of `s` when it has fewer than `l - 1` terminators, and
/// otherwise the offset just past its `(l - 1)`-th terminator.
pub open spec fn is_record_start(s: Seq<u8>, l: nat, t: u8, p: int) -> bool {
    if l <= 1 {
        p == 0
    } else if count_term(s, t) < l - 1 {
        p == s.len()
    } else {
        &&& 0 < p <= s.len()
        &&& s[p - 1] == t
        &&& count_term(s.subrange(0, p), t) == l - 1
    }
}

/// The offset from which a byte-count selection emits, on a source of `size` bytes:
/// from byte `k` onward when `from_start`, else the last `k` bytes.
pub open spec fn byte_range_start(size: nat, k: nat, from_start: bool) -> nat {
    if from_start {
        if k >= size { size } else { k }
    } else {
        if k >= size { 0 } else { (size - k) as nat }
    }
}

pub proof fn lemma_count_concat(a: Seq<u8>, b: Seq<u8>, t: u8)
    ensures
        count_term(a + b, t) == count_term(a, t) + count_term(b, t),
    decreases a.len(),
{
    if a.len() == 0 {
        assert(a + b =~= b);
    } else {
        let rest = a.subrange(1, a.len() as int);
        assert((a + b).subrange(1, (a + b).len() as int) =~= rest + b);
        lemma_count_concat(rest, b, t);
    }
}

pub proof fn lemma_count_none(s: Seq<u8>, t: u8)
    requires
        forall|i: int| 0 <= i < s.len() ==> s[i] != t,
    ensures
        count_term(s, t) == 0,
    decreases s.len(),
{
    if s.len() > 0 {
        let rest = s.subrange(1, s.len() as int);
        assert forall|i: int| 0 <= i < rest.len() implies rest[i] != t by {
            assert(rest[i] == s[i + 1]);
        }
        lemma_count_none(rest, t);
    }
}

pub proof fn lemma_count_single(s: Seq<u8>, t: u8)
    requires
        s.len() == 1,
    ensures
        count_term(s, t) == if s[0] == t { 1nat } else { 0nat },
{
    let rest = s.subrange(1, 1);
    assert(count_term(rest, t) == 0);
}

/// Splitting `s` at `i` splits its terminator count.
pub proof fn lemma_count_split(s: Seq<u8>, i: int, t: u8)
    requires
        0 <= i <= s.len(),
    ensures
        count_term(s, t) == count_term(s.subrange(0, i), t) + count_term(suffix(s, i), t),
{
    assert(s =~= s.subrange(0, i) + suffix(s, i));
    lemma_count_concat(s.subrange(0, i), suffix(s, i), t);
}

/// Prepending the byte at `q - 1` to the suffix from `q` adds one terminator exactly
/// when that byte is the terminator.
pub proof fn lemma_count_suffix_step(s: Seq<u8>, q: int, t: u8)
    requires
        0 < q <= s.len(),
    ensures
        count_term(suffix(s, q - 1), t) == count_term(suffix(s, q), t) + if s[q - 1] == t { 1nat } else { 0nat },
{
    let w = suffix(s, q - 1);
    assert(w.subrange(1, w.len() as int) =~= suffix(s, q));
}

/// Extending the prefix up to `p` by one byte adds one terminator exactly when that
/// byte is the terminator.
pub proof fn lemma_count_prefix_step(s: Seq<u8>, p: int, t: u8)
    requires
        0 <= p < s.len(),
    ensures
        count_term(s.subrange(0, p + 1), t) == count_term(s.subrange(0, p), t) + if s[p] == t { 1nat } else { 0nat },
{
    let w = s.subrange(0, p + 1);
    assert(w =~= s.subrange(0, p) + s.subrange(p, p + 1));
    lemma_count_concat(s.subrange(0, p), s.subrange(p, p + 1), t);
    lemma_count_single(s.subrange(p, p + 1), t);
}

/// Later suffixes never hold more records.
pub proof fn lemma_records_monotone(s: Seq<u8>, i: int, j: int, t: u8)
    requires
        0 <= i <= j <= s.len(),
    ensures
        records(suffix(s, i), t) >= records(suffix(s, j), t),
{
    let a = suffix(s, i);
    assert(suffix(a, j - i) =~= suffix(s, j));
    assert(a.subrange(0, j - i) =~= s.subrange(i, j));
    lemma_count_split(a, j - i, t);
}

/// Moving the start back by one byte adds at most one record.
pub proof fn lemma_records_step(s: Seq<u8>, q: int, t: u8)
    requires
        0 < q <= s.len(),
    ensures
        records(suffix(s, q - 1), t) <= records(suffix(s, q), t) + 1,
{
    lemma_count_suffix_step(s, q, t);
    if q == s.len() {
        lemma_count_single(suffix(s, q - 1), t);
        assert(suffix(s, q).len() == 0);
    }
}

/// What is emitted from the start of the last `n` records holds exactly `n` records,
/// or every record of `s` when it has no more than `n`.
pub proof fn lemma_last_records_count(s: Seq<u8>, n: nat, t: u8, q: int)
    requires
        is_last_records_start(s, n, t, q),
    ensures
        records(suffix(s, q), t) == if records(s, t) <= n { records(s, t) } else { n },
{
    assert(suffix(s, 0) =~= s);
    if q > 0 {
        lemma_records_step(s, q, t);
        lemma_records_monotone(s, 0, q - 1, t);
    }
}

/// What is emitted from the start of record `l` holds the records of `s` from the
/// `l`-th on: all of them when `l <= 1`, none when `s` has fewer than `l`.
pub proof fn lemma_record_start_count(s: Seq<u8>, l: nat, t: u8, p: int)
    requires
        is_record_start(s, l, t, p),
    ensures
        records(suffix(s, p), t) == if l <= 1 {
            records(s, t)
        } else if records(s, t) >= l - 1 {
            (records(s, t) - (l - 1)) as nat
        } else {
            0
        },
{
    if l <= 1 {
        assert(suffix(s, 0) =~= s);
    } else if count_term(s, t) < l - 1 {
        assert(suffix(s, p).len() == 0);
    } else {
        lemma_count_split(s, p, t);
        if p == s.len() {
            assert(suffix(s, p).len() == 0);
        } else {
            assert(suffix(s, p).last() == s.last());
        }
    }
}

/// The offset of the last `n` records is determined by the content: a selection
/// made twice on unchanged content yields the same offset.
pub proof fn lemma_last_records_start_unique(s: Seq<u8>, n: nat, t: u8, p: int, q: int)
    requires
        is_last_records_start(s, n, t, p),
        is_last_records_start(s, n, t, q),
    ensures
        p == q,
{
    if p < q {
        lemma_records_monotone(s, p, q - 1, t);
    } else if q < p {
        lemma_records_monotone(s, q, p - 1, t);
    }
}

/// A scan that finds the start of the last `n` records strictly inside the final
/// bytes `w` of a file has found it for the whole file: what lies before `w` cannot
/// change it.
pub proof fn lemma_last_records_extend(file: Seq<u8>, w: Seq<u8>, off: int, n: nat, t: u8, q: int)
    requires
        0 <= off <= file.len(),
        suffix(file, off) == w,
        0 < q,
        is_last_records_start(w, n, t, q),
    ensures
        is_last_records_start(file, n, t, off + q),
{
    assert(suffix(file, off + q) =~= suffix(w, q));
    assert(suffix(file, off + q - 1) =~= suffix(w, q - 1));
}

/// A terminator at offset `i` contributes to the count of every prefix past it.
proof fn lemma_count_prefix_grows(s: Seq<u8>, p: int, q: int, t: u8)
    requires
        0 < p < q <= s.len(),
        s[q - 1] == t,
    ensures
        count_term(s.subrange(0, q), t) > count_term(s.subrange(0, p), t),
{
    let w = s.subrange(0, q);
    assert(w.subrange(0, p) =~= s.subrange(0, p));
    lemma_count_split(w, p, t);
    let r = suffix(w, p);
    lemma_count_split(r, r.len() - 1, t);
    lemma_count_single(suffix(r, r.len() - 1), t);
}

/// The offset of record `l` is determined by the content: a selection made twice
/// on unchanged content yields the same offset.
pub proof fn lemma_record_start_unique(s: Seq<u8>, l: nat, t: u8, p: int, q: int)
    requires
        is_record_start(s, l, t, p),
        is_record_start(s, l, t, q),
    ensures
        p == q,
{
    if l > 1 && count_term(s, t) >= l - 1 {
        if p < q {
            lemma_count_prefix_grows(s, p, q, t);
        } else if q < p {
            lemma_count_prefix_grows(s, q, p, t);
        }
    }
}

} // verus!
