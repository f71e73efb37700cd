//! Byte-offset cursors in an edit buffer: where a byte offset falls among
//! the characters of a string, and the edits made at such an offset.

use vstd::prelude::*;

use crate::text::{chars_of, string_from_chars};
use crate::theme::{utf8_len, utf8_len_exec, utf8_total};
use crate::widgets::{fit, fit_bytes, fit_exec, lemma_utf8_total_prefix};

verus! {

/// Byte offset `n` falls between two characters of `s` (or is past its end).
pub open spec fn at_boundary(s: Seq<char>, n: int) -> bool {
    n > utf8_total(s) || fit_bytes(s, n) == n
}

/// The UTF-8 size of a string, taken from its first character.
pub proof fn lemma_total_front(s: Seq<char>)
    requires
        s.len() > 0,
    ensures
        utf8_total(s) == utf8_len(s[0]) + utf8_total(s.drop_first()),
    decreases s.len(),
{
    if s.len() > 1 {
        lemma_total_front(s.drop_last());
        assert(s.drop_last().drop_first() =~= s.drop_first().drop_last());
        assert(s.drop_last()[0] == s[0]);
    } else {
        assert(s.drop_first() =~= Seq::<char>::empty());
        assert(s.drop_last() =~= Seq::<char>::empty());
    }
}

/// The bytes that the fitting characters take are those of the prefix they form.
pub proof fn lemma_fit_bytes_prefix(s: Seq<char>, n: int)
    ensures
        fit_bytes(s, n) == utf8_total(s.take(fit(s, n) as int)),
        fit(s, n) <= s.len(),
    decreases s.len(),
{
    if s.len() == 0 || n < utf8_len(s[0]) {
        assert(s.take(0) =~= Seq::<char>::empty());
    } else {
        let t = s.drop_first();
        lemma_fit_bytes_prefix(t, n - utf8_len(s[0]));
        let k = fit(s, n) as int;
        assert(s.take(k).drop_first() =~= t.take(k - 1));
        assert(s.take(k)[0] == s[0]);
        lemma_total_front(s.take(k));
    }
}

/// The byte offset of the first `k` characters falls on a boundary, `k` characters in.
pub proof fn lemma_fit_of_prefix(s: Seq<char>, k: int)
    requires
        0 <= k <= s.len(),
    ensures
        fit(s, utf8_total(s.take(k)) as int) == k,
        fit_bytes(s, utf8_total(s.take(k)) as int) == utf8_total(s.take(k)),
    decreases k,
{
    if k == 0 {
        assert(s.take(0) =~= Seq::<char>::empty());
        if s.len() > 0 {
            assert(utf8_len(s[0]) >= 1);
        }
    } else {
        let t = s.drop_first();
        lemma_fit_of_prefix(t, k - 1);
        assert(s.take(k).drop_first() =~= t.take(k - 1));
        assert(s.take(k)[0] == s[0]);
        lemma_total_front(s.take(k));
    }
}

/// A boundary offset is the byte size of the characters before it.
pub proof fn lemma_boundary(s: Seq<char>, n: int)
    requires
        0 <= n <= utf8_total(s),
        fit_bytes(s, n) == n,
    ensures
        utf8_total(s.take(fit(s, n) as int)) == n,
        fit(s, n) <= s.len(),
        n < utf8_total(s) ==> fit(s, n) < s.len(),
{
    lemma_fit_bytes_prefix(s, n);
    if fit(s, n) == s.len() {
        assert(s.take(s.len() as int) =~= s);
    }
}

/// The UTF-8 size of a string made of two parts.
pub proof fn lemma_total_concat(a: Seq<char>, b: Seq<char>)
    ensures
        utf8_total(a + b) == utf8_total(a) + utf8_total(b),
    decreases b.len(),
{
    if b.len() == 0 {
        assert(a + b =~= a);
    } else {
        lemma_total_concat(a, b.drop_last());
        assert((a + b).drop_last() =~= a + b.drop_last());
    }
}

/// The UTF-8 size of the characters of `s`, which must fit in a `usize`.
pub fn utf8_size(cs: &Vec<char>) -> (r: usize)
    requires
        utf8_total(cs@) <= usize::MAX,
    ensures
        r == utf8_total(cs@),
{
    let mut total: usize = 0;
    let mut j: usize = 0;
    while j < cs.len()
        invariant
            j <= cs@.len(),
            total == utf8_total(cs@.subrange(0, j as int)),
            utf8_total(cs@) <= usize::MAX,
        decreases cs@.len() - j,
    {
        proof {
            assert(cs@.subrange(0, j + 1).drop_last() =~= cs@.subrange(0, j as int));
            lemma_utf8_total_prefix(cs@, j + 1);
        }
        total = total + utf8_len_exec(cs[j]) as usize;
        j = j + 1;
    }
    proof {
        assert(cs@.subrange(0, j as int) =~= cs@);
    }
    total
}

/// The characters `cs[lo..hi]`.
pub fn char_range(cs: &Vec<char>, lo: usize, hi: usize) -> (r: Vec<char>)
    requires
        lo <= hi <= cs@.len(),
    ensures
        r@ == cs@.subrange(lo as int, hi as int),
{
    let mut r: Vec<char> = Vec::new();
    let mut j: usize = lo;
    while j < hi
        invariant
            lo <= j <= hi <= cs@.len(),
            r@ == cs@.subrange(lo as int, j as int),
        decreases hi - j,
    {
        r.push(cs[j]);
        proof {
            assert(cs@.subrange(lo as int, j + 1) =~= cs@.subrange(lo as int, j as int).push(cs@[j as int]));
        }
        j = j + 1;
    }
    r
}

} // verus!
