//! Byte-level text utilities: ASCII whitespace tokenizing, trimming, and
//! two-byte pattern search.
//!
//! The debug shell's line discipline is ASCII throughout, so all of this is
//! defined on byte sequences; multi-byte characters never match any of the
//! delimiters looked for here and simply ride along inside tokens.

use vstd::prelude::*;
use vstd::slice::slice_index_get;

verus! {

/// ASCII whitespace: space, tab, line feed, form feed, carriage return.
pub open spec fn is_ws(b: u8) -> bool {
    b == 0x20 || b == 0x09 || b == 0x0a || b == 0x0c || b == 0x0d
}

fn is_ws_byte(b: u8) -> (r: bool)
    ensures
        r == is_ws(b),
{
    b == 0x20 || b == 0x09 || b == 0x0a || b == 0x0c || b == 0x0d
}

/// Length of the leading run of non-whitespace bytes.
pub open spec fn token_len(s: Seq<u8>) -> int
    decreases s.len(),
{
    if s.len() == 0 || is_ws(s[0]) {
        0
    } else {
        1 + token_len(s.skip(1))
    }
}

pub proof fn lemma_token_len_bounds(s: Seq<u8>)
    ensures
        0 <= token_len(s) <= s.len(),
    decreases s.len(),
{
    if s.len() > 0 && !is_ws(s[0]) {
        lemma_token_len_bounds(s.skip(1));
    }
}

/// `token_len` is exactly the position of the first whitespace byte.
pub proof fn lemma_token_len_is(s: Seq<u8>, k: int)
    requires
        0 <= k <= s.len(),
        forall|i: int| 0 <= i < k ==> !is_ws(#[trigger] s[i]),
        k == s.len() || is_ws(s[k]),
    ensures
        token_len(s) == k,
    decreases k,
{
    if k == 0 {
    } else {
        lemma_token_len_is(s.skip(1), k - 1);
    }
}

/// The whitespace-separated tokens of `s`, in order, empty runs dropped.
pub open spec fn spec_tokenize(s: Seq<u8>) -> Seq<Seq<u8>>
    decreases s.len(),
    via spec_tokenize_decreases
{
    if s.len() == 0 {
        Seq::empty()
    } else if is_ws(s[0]) {
        spec_tokenize(s.skip(1))
    } else {
        seq![s.take(token_len(s))] + spec_tokenize(s.skip(token_len(s)))
    }
}

#[via_fn]
proof fn spec_tokenize_decreases(s: Seq<u8>) {
    if s.len() > 0 && !is_ws(s[0]) {
        lemma_token_len_bounds(s);
        lemma_token_len_bounds(s.skip(1));
    }
}

/// A token run followed by nothing or by whitespace tokenizes to the run
/// followed by the rest's tokens.
pub proof fn lemma_tokenize_token_prefix(t: Seq<u8>, r: Seq<u8>)
    requires
        t.len() > 0,
        forall|i: int| 0 <= i < t.len() ==> !is_ws(#[trigger] t[i]),
        r.len() == 0 || is_ws(r[0]),
    ensures
        spec_tokenize(t + r) == seq![t] + spec_tokenize(r),
{
    let s = t + r;
    assert(forall|i: int| 0 <= i < t.len() ==> s[i] == t[i]);
    if r.len() > 0 {
        assert(s[t.len() as int] == r[0]);
    }
    lemma_token_len_is(s, t.len() as int);
    assert(s.take(t.len() as int) =~= t);
    assert(s.skip(t.len() as int) =~= r);
}

/// Leading whitespace does not change the tokens.
pub proof fn lemma_tokenize_ws_prefix(w: Seq<u8>, r: Seq<u8>)
    requires
        forall|i: int| 0 <= i < w.len() ==> is_ws(#[trigger] w[i]),
    ensures
        spec_tokenize(w + r) == spec_tokenize(r),
    decreases w.len(),
{
    if w.len() == 0 {
        assert(w + r =~= r);
    } else {
        let s = w + r;
        assert(s[0] == w[0]);
        assert(s.skip(1) =~= w.skip(1) + r);
        lemma_tokenize_ws_prefix(w.skip(1), r);
    }
}

/// End of the token starting at `start`: the index of the next whitespace
/// byte, or the end of the slice.
fn token_end(s: &[u8], start: usize) -> (j: usize)
    requires
        start < s@.len(),
        !is_ws(s@[start as int]),
    ensures
        start < j <= s@.len(),
        forall|k: int| start <= k < j ==> !is_ws(#[trigger] s@[k]),
        j < s@.len() ==> is_ws(s@[j as int]),
{
    let len = s.len();
    let mut j = start + 1;
    while j < len
        invariant
            start < j <= len,
            len == s@.len(),
            forall|k: int| start <= k < j ==> !is_ws(#[trigger] s@[k]),
        decreases len - j,
    {
        if is_ws_byte(*slice_index_get(s, j)) {
            return j;
        }
        j = j + 1;
    }
    j
}

/// Copy of `s[from..to]`.
pub fn copy_range(s: &[u8], from: usize, to: usize) -> (r: Vec<u8>)
    requires
        from <= to <= s@.len(),
    ensures
        r@ == s@.subrange(from as int, to as int),
{
    let mut r: Vec<u8> = Vec::new();
    let mut k = from;
    while k < to
        invariant
            from <= k <= to <= s@.len(),
            r@ == s@.subrange(from as int, k as int),
        decreases to - k,
    {
        r.push(*slice_index_get(s, k));
        proof {
            assert(r@ =~= s@.subrange(from as int, k + 1));
        }
        k = k + 1;
    }
    r
}

/// Split `s` into its whitespace-separated tokens.
pub fn tokenize(s: &[u8]) -> (r: Vec<Vec<u8>>)
    ensures
        r.deep_view() == spec_tokenize(s@),
{
    let len = s.len();
    let mut toks: Vec<Vec<u8>> = Vec::new();
    let mut i: usize = 0;
    proof {
        assert(s@.skip(0) =~= s@);
        assert(toks.deep_view() + spec_tokenize(s@) =~~= spec_tokenize(s@));
    }
    while i < len
        invariant
            i <= len,
            len == s@.len(),
            spec_tokenize(s@) == toks.deep_view() + spec_tokenize(s@.skip(i as int)),
        decreases len - i,
    {
        let b = *slice_index_get(s, i);
        if is_ws_byte(b) {
            proof {
                assert(s@.skip(i as int).skip(1) =~= s@.skip(i + 1));
            }
            i = i + 1;
        } else {
            let j = token_end(s, i);
            let tok = copy_range(s, i, j);
            proof {
                let rest = s@.skip(i as int);
                assert(forall|k: int| 0 <= k < j - i ==> rest[k] == s@[i + k]);
                if j < len {
                    assert(rest[j - i] == s@[j as int]);
                }
                lemma_token_len_is(rest, j - i);
                assert(rest.take(j - i) =~= s@.subrange(i as int, j as int));
                assert(rest.skip(j - i) =~= s@.skip(j as int));
                assert(toks.deep_view().push(tok@) + spec_tokenize(s@.skip(j as int))
                    =~= toks.deep_view() + spec_tokenize(rest));
            }
            let ghost old_dv = toks.deep_view();
            toks.push(tok);
            proof {
                assert(toks.deep_view() =~~= old_dv.push(tok@));
            }
            i = j;
        }
    }
    proof {
        assert(s@.skip(len as int) =~= Seq::<u8>::empty());
        assert(toks.deep_view() =~~= toks.deep_view() + spec_tokenize(Seq::<u8>::empty()));
    }
    toks
}

/// `s` without its leading whitespace.
pub open spec fn trim_start(s: Seq<u8>) -> Seq<u8>
    decreases s.len(),
{
    if s.len() > 0 && is_ws(s[0]) {
        trim_start(s.skip(1))
    } else {
        s
    }
}

/// `s` without its trailing whitespace.
pub open spec fn trim_end(s: Seq<u8>) -> Seq<u8>
    decreases s.len(),
{
    if s.len() > 0 && is_ws(s.last()) {
        trim_end(s.drop_last())
    } else {
        s
    }
}

/// `s` without surrounding whitespace.
pub open spec fn spec_trim(s: Seq<u8>) -> Seq<u8> {
    trim_end(trim_start(s))
}

proof fn lemma_trim_start_at(s: Seq<u8>, lo: int)
    requires
        0 <= lo <= s.len(),
        forall|i: int| 0 <= i < lo ==> is_ws(#[trigger] s[i]),
        lo == s.len() || !is_ws(s[lo]),
    ensures
        trim_start(s) == s.skip(lo),
    decreases lo,
{
    if lo == 0 {
        assert(s.skip(0) =~= s);
    } else {
        assert(s.skip(1).skip(lo - 1) =~= s.skip(lo));
        lemma_trim_start_at(s.skip(1), lo - 1);
    }
}

proof fn lemma_trim_end_at(s: Seq<u8>, hi: int)
    requires
        0 <= hi <= s.len(),
        forall|i: int| hi <= i < s.len() ==> is_ws(#[trigger] s[i]),
        hi == 0 || !is_ws(s[hi - 1]),
    ensures
        trim_end(s) == s.take(hi),
    decreases s.len() - hi,
{
    if hi == s.len() {
        if s.len() > 0 {
            assert(!is_ws(s.last()));
        }
        assert(s.take(hi) =~= s);
    } else {
        assert(s.drop_last() =~= s.take(s.len() - 1));
        assert(s.drop_last().take(hi) =~= s.take(hi));
        lemma_trim_end_at(s.drop_last(), hi);
    }
}

/// Trimming something already free of surrounding whitespace changes nothing.
pub proof fn lemma_trim_clean(s: Seq<u8>)
    requires
        s.len() > 0 ==> !is_ws(s[0]) && !is_ws(s.last()),
    ensures
        spec_trim(s) == s,
{
    lemma_trim_start_at(s, 0);
    lemma_trim_end_at(s, s.len() as int);
    assert(s.take(s.len() as int) =~= s);
}

/// First index at or past `start` holding a non-whitespace byte, or the
/// slice's length when there is none.
fn scan_non_ws(s: &[u8], start: usize) -> (lo: usize)
    requires
        start <= s@.len(),
    ensures
        start <= lo <= s@.len(),
        forall|i: int| start <= i < lo ==> is_ws(#[trigger] s@[i]),
        lo < s@.len() ==> !is_ws(s@[lo as int]),
{
    let len = s.len();
    let mut lo = start;
    while lo < len
        invariant
            start <= lo <= len,
            len == s@.len(),
            forall|i: int| start <= i < lo ==> is_ws(#[trigger] s@[i]),
        decreases len - lo,
    {
        if !is_ws_byte(*slice_index_get(s, lo)) {
            return lo;
        }
        lo = lo + 1;
    }
    lo
}

/// One past the last non-whitespace byte, scanning back no further than
/// `lo`, where a non-whitespace byte is known to sit.
fn scan_non_ws_end(s: &[u8], lo: usize) -> (hi: usize)
    requires
        lo < s@.len(),
        !is_ws(s@[lo as int]),
    ensures
        lo < hi <= s@.len(),
        forall|i: int| hi <= i < s@.len() ==> is_ws(#[trigger] s@[i]),
        !is_ws(s@[hi - 1]),
{
    let len = s.len();
    let mut hi = len;
    while hi > lo + 1
        invariant
            lo < hi <= len,
            len == s@.len(),
            forall|i: int| hi <= i < len ==> is_ws(#[trigger] s@[i]),
        decreases hi,
    {
        if !is_ws_byte(*slice_index_get(s, hi - 1)) {
            return hi;
        }
        hi = hi - 1;
    }
    hi
}

/// Copy of `s` with surrounding ASCII whitespace removed.
pub fn trim_bytes(s: &[u8]) -> (r: Vec<u8>)
    ensures
        r@ == spec_trim(s@),
{
    let len = s.len();
    let lo = scan_non_ws(s, 0);
    proof {
        lemma_trim_start_at(s@, lo as int);
    }
    if lo == len {
        proof {
            assert(s@.skip(len as int) =~= Seq::<u8>::empty());
            lemma_trim_end_at(Seq::<u8>::empty(), 0);
            assert(Seq::<u8>::empty().take(0) =~= Seq::<u8>::empty());
        }
        return Vec::new();
    }
    let hi = scan_non_ws_end(s, lo);
    proof {
        let t = s@.skip(lo as int);
        assert(forall|i: int| 0 <= i < t.len() ==> t[i] == s@[i + lo]);
        lemma_trim_end_at(t, hi - lo);
        assert(t.take(hi - lo) =~= s@.subrange(lo as int, hi as int));
    }
    copy_range(s, lo, hi)
}

/// Index of the first occurrence of `pat` in `s`.
pub open spec fn first_match(s: Seq<u8>, pat: Seq<u8>) -> Option<int>
    decreases s.len(),
    when pat.len() > 0
{
    if s.len() < pat.len() {
        None
    } else if s.take(pat.len() as int) == pat {
        Some(0)
    } else {
        match first_match(s.skip(1), pat) {
            None => None,
            Some(i) => Some(i + 1),
        }
    }
}

pub proof fn lemma_first_match_bounds(s: Seq<u8>, pat: Seq<u8>)
    requires
        pat.len() > 0,
        first_match(s, pat) is Some,
    ensures
        0 <= first_match(s, pat).unwrap(),
        first_match(s, pat).unwrap() + pat.len() <= s.len(),
        s.subrange(
            first_match(s, pat).unwrap(),
            first_match(s, pat).unwrap() + pat.len(),
        ) == pat,
    decreases s.len(),
{
    let i = first_match(s, pat).unwrap();
    if s.len() < pat.len() {
        assert(false);
    } else if s.take(pat.len() as int) == pat {
        assert(s.subrange(0, pat.len() as int) =~= s.take(pat.len() as int));
    } else {
        lemma_first_match_bounds(s.skip(1), pat);
        assert(s.skip(1).subrange(i - 1, i - 1 + pat.len())
            =~= s.subrange(i, i + pat.len()));
    }
}

/// Whether `pat` occurs in `s` at position `j`.
pub open spec fn has_match_at(s: Seq<u8>, pat: Seq<u8>, j: int) -> bool {
    0 <= j && j + pat.len() <= s.len() && s.subrange(j, j + pat.len()) == pat
}

/// `first_match` finds exactly the earliest occurrence.
pub proof fn lemma_first_match_at(s: Seq<u8>, pat: Seq<u8>, k: int)
    requires
        pat.len() > 0,
        has_match_at(s, pat, k),
        forall|j: int| 0 <= j < k ==> !#[trigger] has_match_at(s, pat, j),
    ensures
        first_match(s, pat) == Some(k),
    decreases k,
{
    assert(s.take(pat.len() as int) =~= s.subrange(0, pat.len() as int));
    if k == 0 {
    } else {
        assert(!has_match_at(s, pat, 0));
        assert(s.take(pat.len() as int) != pat);
        let t = s.skip(1);
        assert(t.subrange(k - 1, k - 1 + pat.len()) =~= s.subrange(k, k + pat.len()));
        assert forall|j: int| 0 <= j < k - 1 implies !#[trigger] has_match_at(t, pat, j) by {
            assert(!has_match_at(s, pat, j + 1));
            if 0 <= j && j + pat.len() <= t.len() {
                assert(t.subrange(j, j + pat.len()) =~= s.subrange(j + 1, j + 1 + pat.len()));
            }
        }
        lemma_first_match_at(t, pat, k - 1);
    }
}

/// Find the first occurrence of the two-byte pattern `a b` in `s[from..end]`.
pub fn find_pair_within(s: &[u8], from: usize, end: usize, a: u8, b: u8) -> (r: Option<usize>)
    requires
        from <= end <= s@.len(),
    ensures
        match r {
            Some(i) => from <= i && i + 2 <= end && first_match(
                s@.subrange(from as int, end as int),
                seq![a, b],
            ) == Some(i - from),
            None => first_match(s@.subrange(from as int, end as int), seq![a, b]) is None,
        },
    decreases end - from,
{
    let ghost w = s@.subrange(from as int, end as int);
    if end - from < 2 {
        return None;
    }
    proof {
        assert(w.take(2) =~= seq![s@[from as int], s@[from + 1]]);
    }
    if *slice_index_get(s, from) == a && *slice_index_get(s, from + 1) == b {
        proof {
            assert(w.take(2) =~= seq![a, b]);
        }
        Some(from)
    } else {
        proof {
            assert(w.take(2) != seq![a, b]);
            assert(w.skip(1) =~= s@.subrange(from + 1, end as int));
        }
        find_pair_within(s, from + 1, end, a, b)
    }
}

} // verus!
