//! Subsequence scoring and edit distance, the two fuzzy tiers of completion ranking.
use crate::text::{chars_of, is_word_char, word_char};
use vstd::prelude::*;

verus! {

/// Greedy left-to-right scan for `q[qi..]` inside `c[ci..]`; `last` is the index of the
/// previous match (negative before the first one) and `gaps` the characters skipped so far
/// between matches. On success: (skipped characters, characters left after the last match).
pub open spec fn subseq_from(
    q: Seq<char>,
    c: Seq<char>,
    qi: int,
    ci: int,
    last: int,
    gaps: int,
) -> Option<(int, int)>
    decreases c.len() - ci,
{
    if qi < 0 || qi >= q.len() || ci < 0 || ci >= c.len() {
        None
    } else if c[ci] != q[qi] {
        subseq_from(q, c, qi, ci + 1, last, gaps)
    } else {
        let g = if last >= 0 {
            gaps + (ci - last - 1)
        } else {
            gaps
        };
        if qi + 1 == q.len() {
            Some((g, c.len() - (ci + 1)))
        } else {
            subseq_from(q, c, qi + 1, ci + 1, ci, g)
        }
    }
}

/// The subsequence score of `q` in `c`: `None` when `q` is empty or not a subsequence.
pub open spec fn subsequence(q: Seq<char>, c: Seq<char>) -> Option<(int, int)> {
    if q.len() == 0 {
        None
    } else {
        subseq_from(q, c, 0, 0, -1, 0)
    }
}

/// An optional pair of machine integers as mathematical integers.
pub open spec fn pair_view(r: Option<(usize, usize)>) -> Option<(int, int)> {
    match r {
        Some((a, b)) => Some((a as int, b as int)),
        None => None,
    }
}

pub(crate) fn subsequence_chars(q: &Vec<char>, c: &Vec<char>) -> (r: Option<(usize, usize)>)
    ensures
        pair_view(r) == subsequence(q@, c@),
{
    if q.len() == 0 {
        return None;
    }
    let mut qi: usize = 0;
    let mut ci: usize = 0;
    let mut last: usize = 0;
    let mut has_last: bool = false;
    let mut gaps: usize = 0;
    while ci < c.len()
        invariant
            q@.len() > 0,
            qi < q.len(),
            qi <= ci <= c.len(),
            has_last ==> last < ci && gaps <= last,
            !has_last ==> gaps == 0,
            subsequence(q@, c@) == subseq_from(
                q@,
                c@,
                qi as int,
                ci as int,
                if has_last { last as int } else { -1 },
                gaps as int,
            ),
        decreases c.len() - ci,
    {
        if c[ci] == q[qi] {
            let g: usize = if has_last {
                gaps + (ci - last - 1)
            } else {
                gaps
            };
            if qi + 1 == q.len() {
                return Some((g, c.len() - (ci + 1)));
            }
            qi = qi + 1;
            last = ci;
            has_last = true;
            gaps = g;
        }
        ci = ci + 1;
    }
    None
}

/// Scores `query` as a subsequence of `candidate`: the characters skipped between
/// consecutive matches and the characters left after the last match, both to be minimised.
pub fn subsequence_score(query: &str, candidate: &str) -> (r: Option<(usize, usize)>)
    ensures
        pair_view(r) == subsequence(query@, candidate@),
{
    let q = chars_of(query);
    let c = chars_of(candidate);
    subsequence_chars(&q, &c)
}

pub open spec fn min2(a: int, b: int) -> int {
    if a <= b {
        a
    } else {
        b
    }
}

/// Edit distance with single-character insertion, deletion and substitution.
pub open spec fn edit_distance(a: Seq<char>, b: Seq<char>) -> int
    decreases a.len() + b.len(),
{
    if a.len() == 0 {
        b.len() as int
    } else if b.len() == 0 {
        a.len() as int
    } else {
        min2(
            min2(edit_distance(a.drop_last(), b) + 1, edit_distance(a, b.drop_last()) + 1),
            edit_distance(a.drop_last(), b.drop_last()) + if a.last() == b.last() {
                0int
            } else {
                1int
            },
        )
    }
}

/// The edit distance saturated at 255.
pub open spec fn capped_distance(a: Seq<char>, b: Seq<char>) -> int {
    min2(edit_distance(a, b), 255)
}

proof fn lemma_edit_distance_bounds(a: Seq<char>, b: Seq<char>)
    ensures
        0 <= edit_distance(a, b),
        edit_distance(a, b) <= a.len() || edit_distance(a, b) <= b.len(),
    decreases a.len() + b.len(),
{
    if a.len() > 0 && b.len() > 0 {
        lemma_edit_distance_bounds(a.drop_last(), b);
        lemma_edit_distance_bounds(a, b.drop_last());
        lemma_edit_distance_bounds(a.drop_last(), b.drop_last());
    }
}

/// `x` saturated at the largest machine integer.
pub open spec fn sat(x: int) -> int {
    min2(x, usize::MAX as int)
}

pub(crate) fn edit_distance_chars(left: &Vec<char>, right: &Vec<char>) -> (r: u8)
    ensures
        r as int == capped_distance(left@, right@),
{
    let n = left.len();
    let m = right.len();
    if n == 0 {
        return if m < 255 { m as u8 } else { 255 };
    }
    if m == 0 {
        return if n < 255 { n as u8 } else { 255 };
    }
    let mut prev: Vec<usize> = Vec::new();
    let mut j: usize = 0;
    while j < m
        invariant
            j <= m,
            m == right@.len(),
            prev@.len() == j,
            forall|k: int| 0 <= k < j ==> prev@[k] == k,
        decreases m - j,
    {
        prev.push(j);
        j = j + 1;
    }
    prev.push(m);
    proof {
        assert forall|k: int| 0 <= k <= m implies prev@[k] == sat(edit_distance(
            left@.take(0),
            right@.take(k),
        )) by {
            assert(left@.take(0).len() == 0);
        }
    }
    let mut i: usize = 0;
    while i < n
        invariant
            n == left@.len(),
            m == right@.len(),
            i <= n,
            prev@.len() == m + 1,
            forall|k: int|
                0 <= k <= m ==> prev@[k] == sat(edit_distance(left@.take(i as int), right@.take(k))),
        decreases n - i,
    {
        let mut curr: Vec<usize> = Vec::new();
        curr.push(i.saturating_add(1));
        proof {
            assert(right@.take(0).len() == 0);
            assert(left@.take(i + 1).len() == i + 1);
        }
        let mut j: usize = 0;
        while j < m
            invariant
                n == left@.len(),
                m == right@.len(),
                i < n,
                j <= m,
                prev@.len() == m + 1,
                curr@.len() == j + 1,
                forall|k: int|
                    0 <= k <= m ==> prev@[k] == sat(edit_distance(
                        left@.take(i as int),
                        right@.take(k),
                    )),
                forall|k: int|
                    0 <= k <= j ==> curr@[k] == sat(edit_distance(
                        left@.take(i + 1),
                        right@.take(k),
                    )),
            decreases m - j,
        {
            proof {
                let a = left@.take(i + 1);
                let b = right@.take(j + 1);
                assert(a.drop_last() =~= left@.take(i as int));
                assert(b.drop_last() =~= right@.take(j as int));
                assert(a.last() == left@[i as int]);
                assert(b.last() == right@[j as int]);
                lemma_edit_distance_bounds(left@.take(i as int), right@.take(j + 1));
                lemma_edit_distance_bounds(left@.take(i + 1), right@.take(j as int));
                lemma_edit_distance_bounds(left@.take(i as int), right@.take(j as int));
            }
            let cost: usize = if left[i] == right[j] { 0 } else { 1 };
            let up = prev[j + 1].saturating_add(1);
            let here = curr[j].saturating_add(1);
            let diag = prev[j].saturating_add(cost);
            let mut best = if up <= here { up } else { here };
            if diag < best {
                best = diag;
            }
            curr.push(best);
            j = j + 1;
        }
        prev = curr;
        i = i + 1;
    }
    proof {
        assert(left@.take(n as int) =~= left@);
        assert(right@.take(m as int) =~= right@);
    }
    let d = prev[m];
    if d < 255 { d as u8 } else { 255 }
}

/// Edit distance between two texts, saturated at 255.
pub fn levenshtein(left: &str, right: &str) -> (r: u8)
    ensures
        r as int == capped_distance(left@, right@),
{
    let l = chars_of(left);
    let r = chars_of(right);
    edit_distance_chars(&l, &r)
}

/// Position `t` starts a token: a maximal run of identifier characters.
pub open spec fn token_start(c: Seq<char>, t: int) -> bool {
    0 <= t < c.len() && word_char(c[t]) && (t == 0 || !word_char(c[t - 1]))
}

/// The first position at or after `t` that holds no identifier character.
pub open spec fn run_end(c: Seq<char>, t: int) -> int
    decreases c.len() - t,
{
    if t < 0 || t >= c.len() || !word_char(c[t]) {
        t
    } else {
        run_end(c, t + 1)
    }
}

/// The token starting at `t`, cut to one character more than the query.
pub open spec fn token_prefix(q: Seq<char>, c: Seq<char>, t: int) -> Seq<char> {
    c.subrange(t, min2(run_end(c, t), t + q.len() + 1))
}

/// The capped edit distance between the query and the token prefix at `t`.
pub open spec fn token_distance(q: Seq<char>, c: Seq<char>, t: int) -> int {
    capped_distance(q, token_prefix(q, c, t))
}

/// `d` is the least token distance of the query over the tokens of `c`, or `None`
/// when `c` has no token.
pub open spec fn is_best_distance(q: Seq<char>, c: Seq<char>, d: Option<u8>) -> bool {
    match d {
        None => forall|t: int| !token_start(c, t),
        Some(d) => (exists|t: int| token_start(c, t) && d == token_distance(q, c, t)) && (forall|
            t: int,
        |
            token_start(c, t) ==> d <= token_distance(q, c, t)),
    }
}

proof fn lemma_run_end_ge(c: Seq<char>, t: int)
    requires
        0 <= t,
    ensures
        t <= run_end(c, t) <= if t <= c.len() { c.len() as int } else { t },
    decreases c.len() - t,
{
    if t < c.len() && word_char(c[t]) {
        lemma_run_end_ge(c, t + 1);
    }
}

pub(crate) fn best_edit_distance_chars(q: &Vec<char>, c: &Vec<char>) -> (r: Option<u8>)
    ensures
        is_best_distance(q@, c@, r),
{
    let mut best: Option<u8> = None;
    let mut witness: Ghost<int> = Ghost(0);
    let mut i: usize = 0;
    while i < c.len()
        invariant
            i <= c.len(),
            match best {
                None => forall|t: int| 0 <= t < i ==> !token_start(c@, t),
                Some(d) => 0 <= witness@ < i && token_start(c@, witness@) && d == token_distance(
                    q@,
                    c@,
                    witness@,
                ) && (forall|t: int| 0 <= t < i && token_start(c@, t) ==> d <= token_distance(q@, c@, t)),
            },
        decreases c.len() - i,
    {
        let starts = is_word_char(c[i]) && (i == 0 || !is_word_char(c[i - 1]));
        if starts {
            let mut prefix: Vec<char> = Vec::new();
            let mut j: usize = i;
            while j < c.len() && j - i <= q.len() && is_word_char(c[j])
                invariant
                    i < c.len(),
                    word_char(c@[i as int]),
                    i <= j <= c.len(),
                    j - i <= q.len() + 1,
                    run_end(c@, i as int) == run_end(c@, j as int),
                    prefix@ == c@.subrange(i as int, j as int),
                decreases c.len() - j,
            {
                prefix.push(c[j]);
                j = j + 1;
                assert(prefix@ =~= c@.subrange(i as int, j as int));
            }
            proof {
                lemma_run_end_ge(c@, j as int);
                assert(prefix@ =~= token_prefix(q@, c@, i as int));
            }
            let d = edit_distance_chars(q, &prefix);
            match best {
                None => {
                    best = Some(d);
                    witness = Ghost(i as int);
                },
                Some(b) => {
                    if d < b {
                        best = Some(d);
                        witness = Ghost(i as int);
                    }
                },
            }
        }
        i = i + 1;
    }
    best
}

/// The least edit distance between `query` and the start of any token of `candidate`
/// (a token cut to one character more than the query); `None` when there is no token.
pub fn best_edit_distance(query: &str, candidate: &str) -> (r: Option<u8>)
    ensures
        is_best_distance(query@, candidate@, r),
{
    let q = chars_of(query);
    let c = chars_of(candidate);
    best_edit_distance_chars(&q, &c)
}

/// `d` is the token distance at some token of `c` and at most the distance at every token.
pub open spec fn is_min_distance(q: Seq<char>, c: Seq<char>, d: int) -> bool {
    (exists|t: int| token_start(c, t) && d == token_distance(q, c, t)) && (forall|t: int|
        token_start(c, t) ==> d <= token_distance(q, c, t))
}

/// The least token distance of the query over the tokens of `c`; `None` when `c` has no token.
pub open spec fn best_distance(q: Seq<char>, c: Seq<char>) -> Option<int> {
    if exists|t: int| token_start(c, t) {
        Some(choose|d: int| is_min_distance(q, c, d))
    } else {
        None
    }
}

/// The result of `best_edit_distance` is the one `best_distance` names.
pub proof fn lemma_best_distance(q: Seq<char>, c: Seq<char>, d: Option<u8>)
    requires
        is_best_distance(q, c, d),
    ensures
        best_distance(q, c) == match d {
            Some(x) => Some(x as int),
            None => None::<int>,
        },
{
    if let Some(x) = d {
        let t0 = choose|t: int| token_start(c, t) && x == token_distance(q, c, t);
        assert(token_start(c, t0));
        assert(is_min_distance(q, c, x as int));
        let y = choose|y: int| is_min_distance(q, c, y);
        let t1 = choose|t: int| token_start(c, t) && y == token_distance(q, c, t);
        assert(x <= token_distance(q, c, t1));
        assert(y <= token_distance(q, c, t0));
    }
}
} // verus!
