//! Tiered ranking of resolved candidates against the typed prefix.
use crate::fuzzy::{best_distance, best_edit_distance_chars, lemma_best_distance, subsequence, subsequence_chars};
use crate::items::{views, CompletionItem, ItemView};
use crate::text::{ascii_lower, chars_of, identifier_start, identifier_start_col, lower, string_of, trim_text, trimmed};
use vstd::prelude::*;

verus! {

/// The most entries a ranked list keeps.
pub const MAX_COMPLETIONS: usize = 12;

/// Where a candidate ranks: lower is better, compared field by field. Only the fields that
/// a tier orders by are set; the others are 0.
#[derive(Clone, Copy, Debug, PartialEq, Eq, Structural)]
pub struct MatchRank {
    pub tier: u8,
    /// Tier 3: the edit distance.
    pub distance: u8,
    /// Tier 2: the characters skipped between matched ones.
    pub gaps: usize,
    /// Tier 2: the characters after the last match; tier 4: the match text's length.
    pub len_delta: usize,
}

/// A rank as a tuple of mathematical integers.
pub open spec fn rank_view(r: MatchRank) -> (int, int, int, int) {
    (r.tier as int, r.distance as int, r.gaps as int, r.len_delta as int)
}

pub open spec fn rank_opt_view(r: Option<MatchRank>) -> Option<(int, int, int, int)> {
    match r {
        Some(x) => Some(rank_view(x)),
        None => None,
    }
}

/// `p` is a prefix of `s`.
pub open spec fn is_prefix(p: Seq<char>, s: Seq<char>) -> bool {
    p.len() <= s.len() && s.subrange(0, p.len() as int) == p
}

/// The largest edit distance the fallback tier accepts for a query of `n` characters.
pub open spec fn distance_threshold(n: int) -> int {
    if n >= 7 {
        2
    } else {
        1
    }
}

/// The rank of a candidate for an already trimmed query, case-insensitively; `None` excludes it.
pub open spec fn rank_of(item: ItemView, query: Seq<char>) -> Option<(int, int, int, int)> {
    let q = lower(query);
    let mt = lower(item.match_text);
    let lb = lower(item.label);
    if q.len() == 0 {
        Some((4, 0, 0, item.match_text.len() as int))
    } else if mt == q || lb == q {
        Some((0, 0, 0, 0))
    } else if is_prefix(q, mt) || is_prefix(q, lb) {
        Some((1, 0, 0, 0))
    } else if subsequence(q, mt) is Some {
        Some((2, 0, (subsequence(q, mt)->0).0, (subsequence(q, mt)->0).1))
    } else {
        match best_distance(q, mt) {
            None => None,
            Some(d) => if d > distance_threshold(q.len() as int) {
                None
            } else {
                Some((3, d, 0, 0))
            },
        }
    }
}

fn chars_equal(a: &Vec<char>, b: &Vec<char>) -> (r: bool)
    ensures
        r == (a@ == b@),
{
    if a.len() != b.len() {
        return false;
    }
    let mut i: usize = 0;
    while i < a.len()
        invariant
            a.len() == b.len(),
            i <= a.len(),
            a@.subrange(0, i as int) == b@.subrange(0, i as int),
        decreases a.len() - i,
    {
        if a[i] != b[i] {
            assert(a@[i as int] != b@[i as int]);
            return false;
        }
        i = i + 1;
        assert(a@.subrange(0, i as int) =~= a@.subrange(0, i - 1).push(a@[i - 1]));
        assert(b@.subrange(0, i as int) =~= b@.subrange(0, i - 1).push(b@[i - 1]));
    }
    assert(a@ =~= a@.subrange(0, a.len() as int));
    assert(b@ =~= b@.subrange(0, b.len() as int));
    true
}

fn starts_with(s: &Vec<char>, p: &Vec<char>) -> (r: bool)
    ensures
        r == is_prefix(p@, s@),
{
    if p.len() > s.len() {
        return false;
    }
    let mut i: usize = 0;
    while i < p.len()
        invariant
            p.len() <= s.len(),
            i <= p.len(),
            s@.subrange(0, i as int) == p@.subrange(0, i as int),
        decreases p.len() - i,
    {
        if s[i] != p[i] {
            assert(s@.subrange(0, p.len() as int)[i as int] != p@[i as int]);
            return false;
        }
        i = i + 1;
        assert(s@.subrange(0, i as int) =~= s@.subrange(0, i - 1).push(s@[i - 1]));
        assert(p@.subrange(0, i as int) =~= p@.subrange(0, i - 1).push(p@[i - 1]));
    }
    assert(p@ =~= p@.subrange(0, p.len() as int));
    true
}

/// Ranks a candidate against a query that is already trimmed: case-insensitively, tier 0 for
/// an exact match of the match text or label, 1 for a prefix match, 2 for a subsequence of the
/// match text, 3 for a token within the edit-distance threshold, 4 for an empty query; `None`
/// excludes the candidate.
pub fn rank_query(item: &CompletionItem, query: &str) -> (r: Option<MatchRank>)
    ensures
        rank_opt_view(r) == rank_of(item@, query@),
{
    let q = ascii_lower(&chars_of(query));
    if q.len() == 0 {
        return Some(
            MatchRank { tier: 4, distance: 0, gaps: 0, len_delta: item.match_text.as_str().unicode_len() },
        );
    }
    let mt = ascii_lower(&chars_of(item.match_text.as_str()));
    let lb = ascii_lower(&chars_of(item.label.as_str()));
    if chars_equal(&mt, &q) || chars_equal(&lb, &q) {
        return Some(MatchRank { tier: 0, distance: 0, gaps: 0, len_delta: 0 });
    }
    if starts_with(&mt, &q) || starts_with(&lb, &q) {
        return Some(MatchRank { tier: 1, distance: 0, gaps: 0, len_delta: 0 });
    }
    match subsequence_chars(&q, &mt) {
        Some((gaps, len_delta)) => {
            return Some(MatchRank { tier: 2, distance: 0, gaps, len_delta });
        },
        None => {},
    }
    let best = best_edit_distance_chars(&q, &mt);
    proof {
        lemma_best_distance(q@, mt@, best);
    }
    match best {
        None => None,
        Some(distance) => {
            let max_distance: u8 = if q.len() >= 7 { 2 } else { 1 };
            if distance > max_distance {
                None
            } else {
                Some(MatchRank { tier: 3, distance, gaps: 0, len_delta: 0 })
            }
        },
    }
}

/// Ranks a candidate against the typed prefix, which is trimmed first (see `rank_query`).
pub fn completion_rank(item: &CompletionItem, typed_prefix: &str) -> (r: Option<MatchRank>)
    ensures
        rank_opt_view(r) == rank_of(item@, trimmed(typed_prefix@)),
{
    let query = trim_text(typed_prefix);
    rank_query(item, query.as_str())
}

/// Lexicographic order of texts by character: -1, 0 or 1 (the order of `str`'s comparison).
pub open spec fn text_cmp(a: Seq<char>, b: Seq<char>) -> int
    decreases a.len(),
{
    if a.len() == 0 {
        if b.len() == 0 {
            0
        } else {
            -1
        }
    } else if b.len() == 0 {
        1
    } else if a[0] < b[0] {
        -1
    } else if b[0] < a[0] {
        1
    } else {
        text_cmp(a.drop_first(), b.drop_first())
    }
}

proof fn lemma_text_cmp_antisymmetric(a: Seq<char>, b: Seq<char>)
    ensures
        text_cmp(a, b) == -text_cmp(b, a),
    decreases a.len(),
{
    if a.len() > 0 && b.len() > 0 && a[0] == b[0] {
        lemma_text_cmp_antisymmetric(a.drop_first(), b.drop_first());
    }
}

fn compare_text(a: &str, b: &str) -> (r: i8)
    ensures
        r as int == text_cmp(a@, b@),
{
    let x = chars_of(a);
    let y = chars_of(b);
    let mut i: usize = 0;
    assert(x@.skip(0) =~= x@);
    assert(y@.skip(0) =~= y@);
    while i < x.len() && i < y.len() && x[i] == y[i]
        invariant
            i <= x.len(),
            i <= y.len(),
            text_cmp(a@, b@) == text_cmp(x@.skip(i as int), y@.skip(i as int)),
            x@ == a@,
            y@ == b@,
        decreases x.len() - i,
    {
        assert(x@.skip(i as int).drop_first() =~= x@.skip(i + 1));
        assert(y@.skip(i as int).drop_first() =~= y@.skip(i + 1));
        i = i + 1;
    }
    if i == x.len() {
        if i == y.len() {
            0
        } else {
            -1
        }
    } else if i == y.len() {
        1
    } else if x[i] < y[i] {
        -1
    } else {
        1
    }
}

/// Lexicographic order of two ranks: -1, 0 or 1.
pub open spec fn rank_cmp(x: (int, int, int, int), y: (int, int, int, int)) -> int {
    if x.0 != y.0 {
        if x.0 < y.0 { -1 } else { 1 }
    } else if x.1 != y.1 {
        if x.1 < y.1 { -1 } else { 1 }
    } else if x.2 != y.2 {
        if x.2 < y.2 { -1 } else { 1 }
    } else if x.3 != y.3 {
        if x.3 < y.3 { -1 } else { 1 }
    } else {
        0
    }
}

/// Order of two ranked entries: by rank, then sort text, then label.
pub open spec fn entry_cmp(
    ra: (int, int, int, int),
    a: ItemView,
    rb: (int, int, int, int),
    b: ItemView,
) -> int {
    if rank_cmp(ra, rb) != 0 {
        rank_cmp(ra, rb)
    } else if text_cmp(a.sort_text, b.sort_text) != 0 {
        text_cmp(a.sort_text, b.sort_text)
    } else {
        text_cmp(a.label, b.label)
    }
}

proof fn lemma_entry_cmp_antisymmetric(
    ra: (int, int, int, int),
    a: ItemView,
    rb: (int, int, int, int),
    b: ItemView,
)
    ensures
        entry_cmp(ra, a, rb, b) == -entry_cmp(rb, b, ra, a),
{
    lemma_text_cmp_antisymmetric(a.sort_text, b.sort_text);
    lemma_text_cmp_antisymmetric(a.label, b.label);
}

proof fn lemma_text_cmp_zero(a: Seq<char>, b: Seq<char>)
    ensures
        text_cmp(a, b) == 0 ==> a == b,
    decreases a.len(),
{
    if a.len() > 0 && b.len() > 0 && a[0] == b[0] {
        lemma_text_cmp_zero(a.drop_first(), b.drop_first());
        if text_cmp(a, b) == 0 {
            assert(a =~= seq![a[0]] + a.drop_first());
            assert(b =~= seq![b[0]] + b.drop_first());
        }
    }
}

proof fn lemma_text_cmp_transitive(a: Seq<char>, b: Seq<char>, c: Seq<char>)
    requires
        text_cmp(a, b) <= 0,
        text_cmp(b, c) <= 0,
    ensures
        text_cmp(a, c) <= 0,
    decreases a.len(),
{
    if a.len() > 0 && b.len() > 0 && c.len() > 0 && a[0] == b[0] && b[0] == c[0] {
        lemma_text_cmp_transitive(a.drop_first(), b.drop_first(), c.drop_first());
    }
}

proof fn lemma_rank_cmp_transitive(x: (int, int, int, int), y: (int, int, int, int), z: (int, int, int, int))
    requires
        rank_cmp(x, y) <= 0,
        rank_cmp(y, z) <= 0,
        rank_cmp(x, y) < 0 || rank_cmp(y, z) < 0,
    ensures
        rank_cmp(x, z) < 0,
{
}

proof fn lemma_entry_cmp_transitive(
    ra: (int, int, int, int),
    a: ItemView,
    rb: (int, int, int, int),
    b: ItemView,
    rc: (int, int, int, int),
    c: ItemView,
)
    requires
        entry_cmp(ra, a, rb, b) <= 0,
        entry_cmp(rb, b, rc, c) <= 0,
    ensures
        entry_cmp(ra, a, rc, c) <= 0,
{
    lemma_text_cmp_zero(a.sort_text, b.sort_text);
    lemma_text_cmp_zero(b.sort_text, c.sort_text);
    lemma_text_cmp_zero(a.sort_text, c.sort_text);
    lemma_text_cmp_zero(a.label, b.label);
    lemma_text_cmp_zero(b.label, c.label);
    lemma_text_cmp_antisymmetric(a.sort_text, b.sort_text);
    lemma_text_cmp_antisymmetric(a.sort_text, c.sort_text);
    lemma_text_cmp_antisymmetric(b.sort_text, c.sort_text);
    if rank_cmp(ra, rb) == 0 && rank_cmp(rb, rc) == 0 {
        assert(ra == rb && rb == rc);
        let (sa, sb, sc) = (a.sort_text, b.sort_text, c.sort_text);
        if text_cmp(sa, sb) == 0 {
            assert(sa == sb);
            if text_cmp(sb, sc) == 0 {
                assert(sb == sc);
                lemma_text_cmp_transitive(a.label, b.label, c.label);
            }
        } else if text_cmp(sb, sc) == 0 {
            assert(sb == sc);
        } else {
            lemma_text_cmp_transitive(sa, sb, sc);
            if text_cmp(sa, sc) == 0 {
                assert(sa == sc);
            }
        }
    } else {
        lemma_rank_cmp_transitive(ra, rb, rc);
    }
}

proof fn lemma_entry_cmp_strict(
    ra: (int, int, int, int),
    a: ItemView,
    rb: (int, int, int, int),
    b: ItemView,
    rc: (int, int, int, int),
    c: ItemView,
)
    requires
        entry_cmp(ra, a, rb, b) < 0,
        entry_cmp(rb, b, rc, c) <= 0,
    ensures
        entry_cmp(ra, a, rc, c) < 0,
{
    lemma_entry_cmp_transitive(ra, a, rb, b, rc, c);
    lemma_text_cmp_zero(a.sort_text, c.sort_text);
    lemma_text_cmp_zero(a.label, c.label);
    lemma_entry_cmp_antisymmetric(rb, b, rc, c);
    if entry_cmp(ra, a, rc, c) == 0 {
        assert(ra == rc);
        assert(a.sort_text == c.sort_text);
        assert(a.label == c.label);
        assert(entry_cmp(ra, a, rb, b) == entry_cmp(rc, c, rb, b));
    }
}

proof fn lemma_insert_keeps_order(
    vo: Seq<ItemView>,
    old_idx: Seq<int>,
    p: int,
    x: ItemView,
    i: int,
    inp: Seq<ItemView>,
    q: Seq<char>,
)
    requires
        0 <= p <= vo.len(),
        old_idx.len() == vo.len(),
        0 <= i < inp.len(),
        inp[i] == x,
        rank_of(x, q) is Some,
        forall|k: int| 0 <= k < vo.len() ==> rank_of(#[trigger] vo[k], q) is Some,
        forall|k: int, l: int|
            0 <= k < l < vo.len() ==> key_cmp(#[trigger] vo[k], #[trigger] vo[l], q) <= 0,
        p < vo.len() ==> key_cmp(x, vo[p], q) < 0,
        forall|k: int|
            0 <= k < old_idx.len() ==> 0 <= #[trigger] old_idx[k] < i && inp[old_idx[k]] == vo[k],
        forall|k: int, l: int|
            0 <= k < l < vo.len() && key_cmp(#[trigger] vo[k], #[trigger] vo[l], q) == 0
                ==> old_idx[k] < old_idx[l],
    ensures
        forall|k: int|
            0 <= k < old_idx.len() + 1 ==> 0 <= #[trigger] old_idx.insert(p, i)[k] < i + 1 && inp[old_idx.insert(
                p,
                i,
            )[k]] == vo.insert(p, x)[k],
        forall|k: int, l: int|
            0 <= k < l < vo.len() + 1 && key_cmp(
                #[trigger] vo.insert(p, x)[k],
                #[trigger] vo.insert(p, x)[l],
                q,
            ) == 0 ==> old_idx.insert(p, i)[k] < old_idx.insert(p, i)[l],
{
    let vs = vo.insert(p, x);
    let idx = old_idx.insert(p, i);
    assert forall|k: int| 0 <= k < old_idx.len() + 1 implies 0 <= #[trigger] idx[k] < i + 1 && inp[idx[k]]
        == vs[k] by {
        if k < p {
            assert(idx[k] == old_idx[k] && vs[k] == vo[k]);
        } else if k > p {
            assert(idx[k] == old_idx[k - 1] && vs[k] == vo[k - 1]);
        }
    }
    assert forall|k: int, l: int|
        0 <= k < l < vo.len() + 1 && key_cmp(#[trigger] vs[k], #[trigger] vs[l], q) == 0 implies idx[k]
        < idx[l] by {
        if l < p {
            assert(vs[k] == vo[k] && vs[l] == vo[l]);
            assert(idx[k] == old_idx[k] && idx[l] == old_idx[l]);
        } else if l == p {
            assert(idx[k] == old_idx[k] && idx[l] == i);
        } else if k < p {
            assert(vs[k] == vo[k] && vs[l] == vo[l - 1]);
            assert(idx[k] == old_idx[k] && idx[l] == old_idx[l - 1]);
        } else if k == p {
            assert(vs[k] == x && vs[l] == vo[l - 1]);
            if l - 1 > p {
                assert(key_cmp(vo[p], vo[l - 1], q) <= 0);
                lemma_entry_cmp_strict(
                    rank_of(x, q)->0,
                    x,
                    rank_of(vo[p], q)->0,
                    vo[p],
                    rank_of(vo[l - 1], q)->0,
                    vo[l - 1],
                );
            }
        } else {
            assert(vs[k] == vo[k - 1] && vs[l] == vo[l - 1]);
            assert(idx[k] == old_idx[k - 1] && idx[l] == old_idx[l - 1]);
        }
    }
}

proof fn lemma_pairwise_order(s: Seq<ItemView>, q: Seq<char>)
    requires
        forall|i: int| 0 <= i < s.len() ==> rank_of(#[trigger] s[i], q) is Some,
        forall|i: int| 0 <= i && i + 1 < s.len() ==> key_cmp(#[trigger] s[i], s[i + 1], q) <= 0,
    ensures
        forall|i: int, j: int| 0 <= i < j < s.len() ==> key_cmp(#[trigger] s[i], #[trigger] s[j], q) <= 0,
    decreases s.len(),
{
    if s.len() > 1 {
        let t = s.drop_last();
        assert forall|i: int| 0 <= i < t.len() implies rank_of(#[trigger] t[i], q) is Some by {
            assert(t[i] == s[i]);
        }
        assert forall|i: int| 0 <= i && i + 1 < t.len() implies key_cmp(#[trigger] t[i], t[i + 1], q) <= 0 by {
            assert(t[i] == s[i]);
            assert(t[i + 1] == s[i + 1]);
        }
        lemma_pairwise_order(t, q);
        let n = s.len() - 1;
        assert forall|i: int, j: int| 0 <= i < j < s.len() implies key_cmp(#[trigger] s[i], #[trigger] s[j], q) <= 0 by {
            if j < n {
                assert(t[i] == s[i] && t[j] == s[j]);
            } else if i + 1 == j {
            } else {
                assert(t[i] == s[i] && t[n - 1] == s[n - 1]);
                assert(key_cmp(s[i], s[n - 1], q) <= 0);
                assert(key_cmp(s[n - 1], s[n], q) <= 0);
                lemma_entry_cmp_transitive(
                    rank_of(s[i], q)->0,
                    s[i],
                    rank_of(s[n - 1], q)->0,
                    s[n - 1],
                    rank_of(s[n], q)->0,
                    s[n],
                );
            }
        }
    }
}

/// Order of two accepted candidates for a query.
pub open spec fn key_cmp(a: ItemView, b: ItemView, query: Seq<char>) -> int {
    entry_cmp(rank_of(a, query)->0, a, rank_of(b, query)->0, b)
}

/// The candidates that a query does not exclude.
pub open spec fn accepted(query: Seq<char>) -> spec_fn(ItemView) -> bool {
    |v: ItemView| rank_of(v, query) is Some
}

/// `idx` maps each entry of `out` to a position of `inp` holding it, such that entries that
/// compare equal keep the order of their positions.
pub open spec fn keeps_input_order(
    out: Seq<ItemView>,
    inp: Seq<ItemView>,
    query: Seq<char>,
    idx: Seq<int>,
) -> bool {
    &&& idx.len() == out.len()
    &&& forall|k: int| 0 <= k < idx.len() ==> 0 <= #[trigger] idx[k] < inp.len() && inp[idx[k]] == out[k]
    &&& forall|k: int, l: int|
        0 <= k < l < out.len() && key_cmp(#[trigger] out[k], #[trigger] out[l], query) == 0 ==> idx[k]
            < idx[l]
}

/// `out` holds exactly the candidates of `inp` that `query` accepts, in ranking order; among
/// entries that compare equal, the order of `inp` is kept.
pub open spec fn is_ranking_of(out: Seq<ItemView>, inp: Seq<ItemView>, query: Seq<char>) -> bool {
    &&& out.to_multiset() == inp.filter(accepted(query)).to_multiset()
    &&& forall|i: int| 0 <= i < out.len() ==> rank_of(#[trigger] out[i], query) is Some
    &&& forall|i: int, j: int|
        0 <= i < j < out.len() ==> key_cmp(#[trigger] out[i], #[trigger] out[j], query) <= 0
    &&& exists|idx: Seq<int>| keeps_input_order(out, inp, query, idx)
}

fn compare_entries(ra: &MatchRank, a: &CompletionItem, rb: &MatchRank, b: &CompletionItem) -> (r: i8)
    ensures
        r as int == entry_cmp(rank_view(*ra), a@, rank_view(*rb), b@),
{
    let c: i8 = if ra.tier != rb.tier {
        if ra.tier < rb.tier { -1 } else { 1 }
    } else if ra.distance != rb.distance {
        if ra.distance < rb.distance { -1 } else { 1 }
    } else if ra.gaps != rb.gaps {
        if ra.gaps < rb.gaps { -1 } else { 1 }
    } else if ra.len_delta != rb.len_delta {
        if ra.len_delta < rb.len_delta { -1 } else { 1 }
    } else {
        0
    };
    if c != 0 {
        return c;
    }
    let s = compare_text(a.sort_text.as_str(), b.sort_text.as_str());
    if s != 0 {
        return s;
    }
    compare_text(a.label.as_str(), b.label.as_str())
}

proof fn lemma_multiset_insert<A>(s: Seq<A>, p: int, x: A)
    requires
        0 <= p <= s.len(),
    ensures
        s.insert(p, x).to_multiset() =~= s.to_multiset().insert(x),
{
    broadcast use vstd::seq_lib::group_to_multiset_ensures, vstd::multiset::group_multiset_axioms;

    let t = s.insert(p, x);
    assert(t.remove(p) =~= s);
    assert(t[p] == x);
    assert(t.contains(x));
}

proof fn lemma_filter_push(s: Seq<ItemView>, x: ItemView, pred: spec_fn(ItemView) -> bool)
    ensures
        s.push(x).filter(pred) == if pred(x) {
            s.filter(pred).push(x)
        } else {
            s.filter(pred)
        },
{
    reveal(Seq::filter);
    assert(s.push(x).drop_last() =~= s);
}

/// Orders the candidates that an already trimmed query accepts (see `rank_query`) by rank,
/// then sort text, then label, and drops the others. Equal entries keep their input order.
pub fn sort_for_query(items: Vec<CompletionItem>, query: &str) -> (r: Vec<CompletionItem>)
    ensures
        is_ranking_of(views(r@), views(items@), query@),
{
    broadcast use vstd::seq_lib::group_to_multiset_ensures;

    let ghost orig = items@;
    let ghost q = query@;
    assert(orig.len() == items.len());
    let mut rest = items;
    let mut sorted: Vec<CompletionItem> = Vec::new();
    let mut ranks: Vec<MatchRank> = Vec::new();
    let mut i: usize = 0;
    let ghost mut idx: Seq<int> = Seq::empty();
    proof {
        reveal(Seq::filter);
        assert(views(orig.take(0)) =~= Seq::<ItemView>::empty());
        assert(views(sorted@) =~= Seq::<ItemView>::empty());
    }
    while rest.len() > 0
        invariant
            i <= orig.len(),
            i + rest.len() == orig.len(),
            orig.len() <= usize::MAX,
            rest@ == orig.subrange(i as int, orig.len() as int),
            sorted.len() == ranks.len(),
            forall|k: int|
                0 <= k < sorted.len() ==> rank_of(#[trigger] views(sorted@)[k], q) == Some(
                    rank_view(ranks@[k]),
                ),
            views(sorted@).to_multiset() == views(orig.take(i as int)).filter(accepted(q)).to_multiset(),
            forall|k: int|
                0 <= k && k + 1 < sorted.len() ==> key_cmp(
                    #[trigger] views(sorted@)[k],
                    views(sorted@)[k + 1],
                    q,
                ) <= 0,
            q == query@,
            idx.len() == sorted.len(),
            forall|k: int|
                0 <= k < idx.len() ==> 0 <= #[trigger] idx[k] < i && views(orig)[idx[k]] == views(
                    sorted@,
                )[k],
            forall|k: int, l: int|
                0 <= k < l < idx.len() && key_cmp(
                    #[trigger] views(sorted@)[k],
                    #[trigger] views(sorted@)[l],
                    q,
                ) == 0 ==> idx[k] < idx[l],
        decreases rest.len(),
    {
        let item = rest.remove(0);
        proof {
            assert(item == orig[i as int]);
            assert(rest@ =~= orig.subrange(i + 1, orig.len() as int));
            assert(views(orig.take(i + 1)) =~= views(orig.take(i as int)).push(item@));
            lemma_filter_push(views(orig.take(i as int)), item@, accepted(q));
        }
        let ghost before = views(sorted@);
        let ghost pre = views(orig.take(i as int)).filter(accepted(q));
        let ghost post = views(orig.take(i + 1)).filter(accepted(q));
        match rank_query(&item, query) {
            None => {
                assert(!accepted(q)(item@));
                assert(post == pre);
            },
            Some(r) => {
                let mut p: usize = 0;
                while p < sorted.len() && compare_entries(&ranks[p], &sorted[p], &r, &item) <= 0
                    invariant
                        p <= sorted.len(),
                        sorted.len() == ranks.len(),
                        forall|k: int|
                            0 <= k < p ==> entry_cmp(
                                rank_view(#[trigger] ranks@[k]),
                                sorted@[k]@,
                                rank_view(r),
                                item@,
                            ) <= 0,
                    decreases sorted.len() - p,
                {
                    p = p + 1;
                }
                let ghost old_sorted = sorted@;
                let ghost old_ranks = ranks@;
                let ghost old_idx = idx;
                proof {
                    lemma_pairwise_order(views(old_sorted), q);
                    if p < sorted.len() {
                        lemma_entry_cmp_antisymmetric(
                            rank_view(ranks@[p as int]),
                            sorted@[p as int]@,
                            rank_view(r),
                            item@,
                        );
                    }
                    assert(views(old_sorted.insert(p as int, item)) =~= views(old_sorted).insert(
                        p as int,
                        item@,
                    ));
                    lemma_multiset_insert(views(old_sorted), p as int, item@);
                }
                sorted.insert(p, item);
                ranks.insert(p, r);
                proof {
                    idx = old_idx.insert(p as int, i as int);
                    if p < old_sorted.len() {
                        lemma_entry_cmp_antisymmetric(
                            rank_view(old_ranks[p as int]),
                            views(old_sorted)[p as int],
                            rank_view(r),
                            item@,
                        );
                        assert(rank_of(views(old_sorted)[p as int], q) == Some(
                            rank_view(old_ranks[p as int]),
                        ));
                    }
                    lemma_insert_keeps_order(
                        views(old_sorted),
                        old_idx,
                        p as int,
                        item@,
                        i as int,
                        views(orig),
                        q,
                    );
                    assert(views(sorted@) =~= views(old_sorted).insert(p as int, item@));
                    assert(accepted(q)(item@));
                    assert(post == pre.push(item@));
                    pre.to_multiset_ensures();
                    assert(pre.push(item@).to_multiset() =~= pre.to_multiset().insert(item@));
                    assert(views(sorted@).to_multiset() =~= before.to_multiset().insert(item@));
                    assert forall|k: int|
                        0 <= k && k + 1 < sorted.len() implies key_cmp(
                        #[trigger] views(sorted@)[k],
                        views(sorted@)[k + 1],
                        q,
                    ) <= 0 by {
                        if k + 1 < p {
                            assert(views(sorted@)[k] == views(old_sorted)[k]);
                            assert(views(sorted@)[k + 1] == views(old_sorted)[k + 1]);
                        } else if k + 1 == p {
                            assert(views(sorted@)[k] == views(old_sorted)[k]);
                            assert(rank_of(views(old_sorted)[k], q) == Some(rank_view(old_ranks[k])));
                        } else if k == p {
                            assert(views(sorted@)[k + 1] == views(old_sorted)[k]);
                            assert(rank_of(views(old_sorted)[k], q) == Some(rank_view(old_ranks[k])));
                        } else {
                            assert(views(sorted@)[k] == views(old_sorted)[k - 1]);
                            assert(views(sorted@)[k + 1] == views(old_sorted)[k]);
                        }
                    }
                    assert forall|k: int|
                        0 <= k < sorted.len() implies rank_of(#[trigger] views(sorted@)[k], q) == Some(
                        rank_view(ranks@[k]),
                    ) by {
                        if k < p {
                            assert(views(sorted@)[k] == views(old_sorted)[k]);
                        } else if k > p {
                            assert(views(sorted@)[k] == views(old_sorted)[k - 1]);
                        }
                    }
                }
            },
        }
        i = i + 1;
    }
    proof {
        assert(orig.take(orig.len() as int) =~= orig);
        assert forall|k: int| 0 <= k < views(sorted@).len() implies rank_of(
            #[trigger] views(sorted@)[k],
            q,
        ) is Some by {}
        lemma_pairwise_order(views(sorted@), q);
        assert(keeps_input_order(views(sorted@), views(items@), q, idx));
    }
    sorted
}
/// `out` is the first `MAX_COMPLETIONS` entries of a ranking of `inp` for `query`.
pub open spec fn is_top_ranking_of(out: Seq<ItemView>, inp: Seq<ItemView>, query: Seq<char>) -> bool {
    exists|full: Seq<ItemView>|
        is_ranking_of(full, inp, query) && out == full.take(
            if full.len() <= MAX_COMPLETIONS { full.len() as int } else { MAX_COMPLETIONS as int },
        )
}

/// Ranks the candidates against an already trimmed query and keeps the best `MAX_COMPLETIONS`.
pub fn top_for_query(items: Vec<CompletionItem>, query: &str) -> (r: Vec<CompletionItem>)
    ensures
        is_top_ranking_of(views(r@), views(items@), query@),
{
    let mut sorted = sort_for_query(items, query);
    let ghost full = views(sorted@);
    sorted.truncate(MAX_COMPLETIONS);
    assert(views(sorted@) =~= full.take(
        if full.len() <= MAX_COMPLETIONS { full.len() as int } else { MAX_COMPLETIONS as int },
    ));
    sorted
}

/// Ranks the candidates against the typed prefix (trimmed first) and keeps the best
/// `MAX_COMPLETIONS`: ascending by rank, then sort text, then label.
pub fn rank_completions(items: Vec<CompletionItem>, typed_prefix: &str) -> (r: Vec<CompletionItem>)
    ensures
        is_top_ranking_of(views(r@), views(items@), trimmed(typed_prefix@)),
{
    let query = trim_text(typed_prefix);
    top_for_query(items, query.as_str())
}

/// The least replace-start column among the candidates (0 for none).
pub open spec fn min_replace_start(items: Seq<ItemView>) -> int
    decreases items.len(),
{
    if items.len() == 0 {
        0
    } else if items.len() == 1 {
        items[0].replace_start
    } else {
        let m = min_replace_start(items.drop_last());
        if items.last().replace_start < m {
            items.last().replace_start
        } else {
            m
        }
    }
}

/// The text typed before the cursor that ranking uses as its query: from the start of the
/// identifier at the cursor, moved forward to the least replace-start of the candidates,
/// up to the cursor (clamped to the line).
pub open spec fn typed_prefix_of(line: Seq<char>, col: int, items: Seq<ItemView>) -> Seq<char> {
    let s0 = identifier_start(line, col);
    let start = if items.len() > 0 && min_replace_start(items) > s0 {
        min_replace_start(items)
    } else {
        s0
    };
    let end = if col <= line.len() { col } else { line.len() as int };
    if start >= end {
        Seq::empty()
    } else {
        line.subrange(start, end)
    }
}

/// The typed prefix at column `col` of `line_text` for the candidates `items`.
pub fn current_typed_prefix(line_text: &str, col: usize, items: &[CompletionItem]) -> (r: String)
    ensures
        r@ == typed_prefix_of(line_text@, col as int, views(items@)),
{
    let mut start = identifier_start_col(line_text, col);
    if items.len() > 0 {
        let mut min_start: usize = items[0].replace_start_col;
        let mut k: usize = 1;
        assert(views(items@).take(1) =~= seq![items@[0]@]);
        while k < items.len()
            invariant
                1 <= k <= items.len(),
                min_start == min_replace_start(views(items@).take(k as int)),
            decreases items.len() - k,
        {
            assert(views(items@).take(k + 1).drop_last() =~= views(items@).take(k as int));
            if items[k].replace_start_col < min_start {
                min_start = items[k].replace_start_col;
            }
            k = k + 1;
        }
        assert(views(items@).take(items.len() as int) =~= views(items@));
        if min_start > start {
            start = min_start;
        }
    }
    let chars = chars_of(line_text);
    let end = if col < chars.len() { col } else { chars.len() };
    if start >= end {
        return String::new();
    }
    let mut out: Vec<char> = Vec::new();
    let mut k: usize = start;
    while k < end
        invariant
            start <= k <= end <= chars.len(),
            chars@ == line_text@,
            out@ == line_text@.subrange(start as int, k as int),
        decreases end - k,
    {
        out.push(chars[k]);
        k = k + 1;
        assert(out@ =~= line_text@.subrange(start as int, k as int));
    }
    string_of(out.as_slice())
}
} // verus!
