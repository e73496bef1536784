//! Byte-sequence utilities shared by the parser, the store and the resolver.

use vstd::prelude::*;
use vstd::string::StringSliceAdditionalSpecFns;

verus! {

/// True when `pat` occurs in `s` starting at index `i`.
pub open spec fn match_at(s: Seq<u8>, pat: Seq<u8>, i: int) -> bool {
    0 <= i && i + pat.len() <= s.len() && s.subrange(i, i + pat.len()) == pat
}

/// Index of the first occurrence of `pat` in `s` at or after `from`.
pub open spec fn find_at(s: Seq<u8>, pat: Seq<u8>, from: int) -> Option<int>
    decreases s.len() - from + 1,
{
    if from < 0 || from + pat.len() > s.len() {
        None
    } else if match_at(s, pat, from) {
        Some(from)
    } else {
        find_at(s, pat, from + 1)
    }
}

/// True when `pat` occurs somewhere in `s`.
pub open spec fn contains_seq(s: Seq<u8>, pat: Seq<u8>) -> bool {
    find_at(s, pat, 0) is Some
}

/// True when `s` starts with `pat`.
pub open spec fn starts_with(s: Seq<u8>, pat: Seq<u8>) -> bool {
    match_at(s, pat, 0)
}

/// True when `s` ends with `pat`.
pub open spec fn ends_with(s: Seq<u8>, pat: Seq<u8>) -> bool {
    pat.len() <= s.len() && s.subrange(s.len() - pat.len(), s.len() as int) == pat
}

pub proof fn lemma_find_at_bounds(s: Seq<u8>, pat: Seq<u8>, from: int)
    requires
        find_at(s, pat, from) is Some,
    ensures
        from <= find_at(s, pat, from)->Some_0,
        find_at(s, pat, from)->Some_0 + pat.len() <= s.len(),
        match_at(s, pat, find_at(s, pat, from)->Some_0),
    decreases s.len() - from + 1,
{
    if from < 0 || from + pat.len() > s.len() {
    } else if match_at(s, pat, from) {
    } else {
        lemma_find_at_bounds(s, pat, from + 1);
    }
}

/// Equality test on byte vectors.
pub fn bytes_eq(a: &Vec<u8>, b: &Vec<u8>) -> (r: bool)
    ensures
        r <==> a@ == b@,
{
    if a.len() != b.len() {
        assert(a@.len() != b@.len());
        assert(a@ != b@);
        return false;
    }
    let n = a.len();
    let mut i: usize = 0;
    while i < n
        invariant
            n == a@.len() == b@.len(),
            i <= n,
            forall|j: int| 0 <= j < i ==> a@[j] == b@[j],
        decreases n - i,
    {
        if a[i] != b[i] {
            return false;
        }
        i += 1;
    }
    proof {
        assert(a@ =~= b@);
    }
    true
}

/// True when `pat` occurs in `v` starting at index `i` (executable form).
pub fn check_match_at(v: &Vec<u8>, pat: &Vec<u8>, i: usize) -> (r: bool)
    requires
        i + pat@.len() <= v@.len(),
    ensures
        r <==> match_at(v@, pat@, i as int),
{
    let n = pat.len();
    let vn = v.len();
    let mut k: usize = 0;
    while k < n
        invariant
            i + n <= vn,
            vn == v@.len(),
            n == pat@.len(),
            k <= n,
            forall|j: int| 0 <= j < k ==> v@[i + j] == pat@[j],
        decreases n - k,
    {
        if v[i + k] != pat[k] {
            assert(v@.subrange(i as int, i + n) != pat@) by {
                assert(v@.subrange(i as int, i + n)[k as int] != pat@[k as int]);
            }
            return false;
        }
        k += 1;
    }
    proof {
        assert(v@.subrange(i as int, i + n) =~= pat@);
    }
    true
}

/// First occurrence of `pat` in `v` at or after `from`, as `find_at` gives it.
pub fn find_pattern(v: &Vec<u8>, pat: &Vec<u8>, from: usize) -> (r: Option<usize>)
    requires
        pat@.len() >= 1,
    ensures
        match r {
            Some(i) => find_at(v@, pat@, from as int) == Some(i as int),
            None => find_at(v@, pat@, from as int) is None,
        },
{
    if pat.len() > v.len() {
        return None;
    }
    let last = v.len() - pat.len();
    if from > last {
        return None;
    }
    let vn = v.len();
    let mut i: usize = from;
    while i <= last
        invariant
            pat@.len() >= 1,
            vn == v@.len(),
            last + pat@.len() == v@.len(),
            from <= i <= last + 1,
            find_at(v@, pat@, from as int) == find_at(v@, pat@, i as int),
        decreases last + 1 - i,
    {
        if check_match_at(v, pat, i) {
            return Some(i);
        }
        assert(find_at(v@, pat@, i as int) == find_at(v@, pat@, i + 1));
        i += 1;
    }
    assert(find_at(v@, pat@, i as int) is None);
    None
}

/// True when `v` starts with `pat`.
pub fn check_starts_with(v: &Vec<u8>, pat: &Vec<u8>) -> (r: bool)
    ensures
        r <==> starts_with(v@, pat@),
{
    if pat.len() > v.len() {
        assert(!starts_with(v@, pat@));
        return false;
    }
    check_match_at(v, pat, 0)
}

/// True when `v` ends with `pat`.
pub fn check_ends_with(v: &Vec<u8>, pat: &Vec<u8>) -> (r: bool)
    ensures
        r <==> ends_with(v@, pat@),
{
    if pat.len() > v.len() {
        assert(!ends_with(v@, pat@));
        return false;
    }
    let start = v.len() - pat.len();
    let r = check_match_at(v, pat, start);
    assert(v@.subrange(start as int, start + pat@.len()) =~= v@.subrange(
        v@.len() - pat@.len(),
        v@.len() as int,
    ));
    r
}

/// Copy of `v[from..to]`.
pub fn subrange_vec(v: &Vec<u8>, from: usize, to: usize) -> (r: Vec<u8>)
    requires
        from <= to <= v@.len(),
    ensures
        r@ == v@.subrange(from as int, to as int),
{
    let mut out: Vec<u8> = Vec::new();
    let mut i: usize = from;
    while i < to
        invariant
            from <= i <= to <= v@.len(),
            out@ == v@.subrange(from as int, i as int),
        decreases to - i,
    {
        out.push(v[i]);
        assert(out@ =~= v@.subrange(from as int, i + 1));
        i += 1;
    }
    out
}

/// Append all of `src` to `out`.
pub fn push_all(out: &mut Vec<u8>, src: &Vec<u8>)
    ensures
        final(out)@ == old(out)@ + src@,
{
    let n = src.len();
    let mut i: usize = 0;
    while i < n
        invariant
            n == src@.len(),
            i <= n,
            out@ == old(out)@ + src@.subrange(0, i as int),
        decreases n - i,
    {
        out.push(src[i]);
        assert(out@ =~= old(out)@ + src@.subrange(0, i + 1));
        i += 1;
    }
    assert(src@.subrange(0, n as int) =~= src@);
}

/// Append all bytes of a string slice to `out`; meaningful for ASCII text.
pub fn push_str_bytes(out: &mut Vec<u8>, s: &str)
    ensures
        final(out)@ == old(out)@ + s.spec_bytes(),
{
    let b = s.as_bytes();
    let n = b.len();
    let mut i: usize = 0;
    while i < n
        invariant
            n == b@.len(),
            b@ == s.spec_bytes(),
            i <= n,
            out@ == old(out)@ + b@.subrange(0, i as int),
        decreases n - i,
    {
        out.push(b[i]);
        assert(out@ =~= old(out)@ + b@.subrange(0, i + 1));
        i += 1;
    }
    assert(b@.subrange(0, n as int) =~= b@);
}

/// Bytes of a string slice as a fresh vector.
pub fn str_to_vec(s: &str) -> (r: Vec<u8>)
    ensures
        r@ == s.spec_bytes(),
{
    let mut out: Vec<u8> = Vec::new();
    push_str_bytes(&mut out, s);
    out
}

/// Decimal digits of `n`, most significant first.
pub open spec fn dec_of(n: nat) -> Seq<u8>
    decreases n,
{
    if n < 10 {
        seq![(48 + n) as u8]
    } else {
        dec_of(n / 10) + seq![(48 + n % 10) as u8]
    }
}

/// Append the decimal rendering of `n` to `out`.
pub fn push_u32_dec(out: &mut Vec<u8>, n: u32)
    ensures
        final(out)@ == old(out)@ + dec_of(n as nat),
    decreases n,
{
    if n >= 10 {
        push_u32_dec(out, n / 10);
    }
    out.push(48 + (n % 10) as u8);
}

} // verus!
