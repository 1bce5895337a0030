//! Removal of snippet tab-stop markup from inserted text.
use crate::text::{chars_of, string_of};
use vstd::prelude::*;

verus! {

pub open spec fn is_digit(c: char) -> bool {
    '0' <= c && c <= '9'
}

/// The first position at or after `j` that holds `ch`, or the length of `s`.
pub open spec fn find_from(s: Seq<char>, j: int, ch: char) -> int
    decreases s.len() - j,
{
    if j < 0 || j >= s.len() || s[j] == ch {
        j
    } else {
        find_from(s, j + 1, ch)
    }
}

/// The first position at or after `j` that holds no ASCII digit, or the length of `s`.
pub open spec fn digits_end(s: Seq<char>, j: int) -> int
    decreases s.len() - j,
{
    if j < 0 || j >= s.len() || !is_digit(s[j]) {
        j
    } else {
        digits_end(s, j + 1)
    }
}

/// The default value of a placeholder body `s[a..b]`: what follows its first `:`, or nothing.
pub open spec fn placeholder_value(s: Seq<char>, a: int, b: int) -> Seq<char> {
    let colon = find_from(s.subrange(0, b), a, ':');
    if colon < b {
        s.subrange(colon + 1, b)
    } else {
        Seq::empty()
    }
}

/// `s[i..]` with snippet markup removed: `${N:default}` becomes `default`, a `${...}`
/// without `:` vanishes, `$N` vanishes, and any other `$` is kept.
pub open spec fn strip_from(s: Seq<char>, i: int) -> Seq<char>
    decreases s.len() - i,
    via strip_from_decreases
{
    if i < 0 || i >= s.len() {
        Seq::empty()
    } else if s[i] == '$' && i + 1 < s.len() && s[i + 1] == '{' {
        let close = find_from(s, i + 2, '}');
        placeholder_value(s, i + 2, close) + if close < s.len() {
            strip_from(s, close + 1)
        } else {
            Seq::empty()
        }
    } else if s[i] == '$' && i + 1 < s.len() && is_digit(s[i + 1]) {
        strip_from(s, digits_end(s, i + 1))
    } else {
        seq![s[i]] + strip_from(s, i + 1)
    }
}

#[via_fn]
proof fn strip_from_decreases(s: Seq<char>, i: int) {
    if 0 <= i < s.len() && i + 1 < s.len() {
        lemma_find_from_bounds(s, i + 2, '}');
        lemma_digits_end_bounds(s, i + 1);
    }
}

proof fn lemma_digits_end_bounds(s: Seq<char>, j: int)
    requires
        0 <= j <= s.len(),
    ensures
        j <= digits_end(s, j) <= s.len(),
    decreases s.len() - j,
{
    if j < s.len() && is_digit(s[j]) {
        lemma_digits_end_bounds(s, j + 1);
    }
}

/// A text with snippet markup removed.
pub open spec fn snippet_stripped(s: Seq<char>) -> Seq<char> {
    strip_from(s, 0)
}

proof fn lemma_find_from_bounds(s: Seq<char>, j: int, ch: char)
    requires
        0 <= j <= s.len(),
    ensures
        j <= find_from(s, j, ch) <= s.len(),
        find_from(s, j, ch) < s.len() ==> s[find_from(s, j, ch)] == ch,
        forall|k: int| j <= k < find_from(s, j, ch) ==> s[k] != ch,
    decreases s.len() - j,
{
    if j < s.len() && s[j] != ch {
        lemma_find_from_bounds(s, j + 1, ch);
    }
}

proof fn lemma_find_from_prefix(s: Seq<char>, j: int, b: int, ch: char)
    requires
        0 <= j <= b <= s.len(),
        forall|k: int| j <= k < b ==> s[k] != ch,
    ensures
        find_from(s.subrange(0, b), j, ch) == b,
    decreases b - j,
{
    if j < b {
        lemma_find_from_prefix(s, j + 1, b, ch);
    }
}

proof fn lemma_find_from_prefix_hit(s: Seq<char>, j: int, k: int, b: int, ch: char)
    requires
        0 <= j <= k < b <= s.len(),
        s[k] == ch,
        forall|x: int| j <= x < k ==> s[x] != ch,
    ensures
        find_from(s.subrange(0, b), j, ch) == k,
    decreases k - j,
{
    if j < k {
        lemma_find_from_prefix_hit(s, j + 1, k, b, ch);
    }
}

pub(crate) fn strip_snippet_chars(s: &Vec<char>) -> (r: Vec<char>)
    ensures
        r@ == snippet_stripped(s@),
{
    let n = s.len();
    let mut out: Vec<char> = Vec::new();
    let mut i: usize = 0;
    while i < n
        invariant
            n == s@.len(),
            i <= n,
            snippet_stripped(s@) == out@ + strip_from(s@, i as int),
        decreases n - i,
    {
        let ghost before = out@;
        if s[i] == '$' && i + 1 < n && s[i + 1] == '{' {
            // Scan the placeholder body up to the closing brace.
            let mut j: usize = i + 2;
            let mut colon: usize = n;
            while j < n && s[j] != '}'
                invariant
                    n == s@.len(),
                    i + 2 <= j <= n,
                    find_from(s@, i + 2, '}') == find_from(s@, j as int, '}'),
                    colon <= n,
                    colon == n ==> forall|k: int| i + 2 <= k < j ==> s@[k] != ':',
                    colon < n ==> i + 2 <= colon < j && s@[colon as int] == ':' && forall|k: int|
                        i + 2 <= k < colon ==> s@[k] != ':',
                decreases n - j,
            {
                if colon == n && s[j] == ':' {
                    colon = j;
                }
                j = j + 1;
            }
            proof {
                lemma_find_from_bounds(s@, j as int, '}');
                if colon < n {
                    lemma_find_from_prefix_hit(s@, i + 2, colon as int, j as int, ':');
                } else {
                    lemma_find_from_prefix(s@, i + 2, j as int, ':');
                }
            }
            if colon < n {
                let mut k: usize = colon + 1;
                while k < j
                    invariant
                        colon < k <= j <= n,
                        n == s@.len(),
                        out@ == before + s@.subrange(colon + 1, k as int),
                    decreases j - k,
                {
                    out.push(s[k]);
                    k = k + 1;
                    assert(out@ =~= before + s@.subrange(colon + 1, k as int));
                }
            }
            proof {
                assert(out@ =~= before + placeholder_value(s@, i + 2, j as int));
            }
            i = if j < n { j + 1 } else { n };
        } else if s[i] == '$' && i + 1 < n && '0' <= s[i + 1] && s[i + 1] <= '9' {
            let mut j: usize = i + 1;
            while j < n && '0' <= s[j] && s[j] <= '9'
                invariant
                    n == s@.len(),
                    i + 1 <= j <= n,
                    digits_end(s@, i + 1) == digits_end(s@, j as int),
                decreases n - j,
            {
                j = j + 1;
            }
            i = j;
        } else {
            out.push(s[i]);
            i = i + 1;
            assert(out@ =~= before + seq![s@[i - 1]]);
        }
    }
    out
}

/// Removes snippet tab-stop markup: `${N:default}` becomes `default`, `$N` is removed,
/// and any other `$` is kept.
pub fn strip_snippet_markers(text: &str) -> (r: String)
    ensures
        r@ == snippet_stripped(text@),
{
    let s = chars_of(text);
    let out = strip_snippet_chars(&s);
    string_of(out.as_slice())
}

proof fn lemma_strip_from_plain(s: Seq<char>, i: int)
    requires
        0 <= i <= s.len(),
        forall|k: int| 0 <= k < s.len() ==> s[k] != '$',
    ensures
        strip_from(s, i) == s.subrange(i, s.len() as int),
    decreases s.len() - i,
{
    if i < s.len() {
        lemma_strip_from_plain(s, i + 1);
        assert(seq![s[i]] + s.subrange(i + 1, s.len() as int) =~= s.subrange(i, s.len() as int));
    } else {
        assert(s.subrange(i, s.len() as int) =~= Seq::<char>::empty());
    }
}

/// Text without `$` comes out of snippet stripping unchanged.
pub proof fn lemma_strip_without_dollar(s: Seq<char>)
    requires
        forall|k: int| 0 <= k < s.len() ==> s[k] != '$',
    ensures
        snippet_stripped(s) == s,
{
    lemma_strip_from_plain(s, 0);
    assert(s.subrange(0, s.len() as int) =~= s);
}
} // verus!
