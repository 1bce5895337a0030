//! Candidate items as the server sends them, and their resolution into ranked-list entries.
use crate::snippet::{snippet_stripped, strip_snippet_markers};
use crate::text::{chars_of, is_word_char, string_of, word_char};
use vstd::prelude::*;

verus! {

/// A range of a text edit, in zero-based lines and character columns.
#[derive(Clone, Copy, Debug, PartialEq, Eq, Structural)]
pub struct EditRange {
    pub start_line: u32,
    pub start_character: u32,
    pub end_line: u32,
    pub end_character: u32,
}

/// The text edit that a server may attach to a candidate: the replacement text and the
/// range it replaces (for an insert/replace edit, its insert range).
#[derive(Clone, Debug)]
pub struct RawTextEdit {
    pub range: EditRange,
    pub new_text: String,
}

/// A completion candidate as the server sends it.
#[derive(Clone, Debug)]
pub struct RawCompletionItem {
    pub label: String,
    pub insert_text: Option<String>,
    pub filter_text: Option<String>,
    pub sort_text: Option<String>,
    /// The insert text is in snippet format.
    pub is_snippet: bool,
    pub text_edit: Option<RawTextEdit>,
}

/// A resolved candidate, ready to be ranked and applied.
#[derive(Clone, Debug)]
pub struct CompletionItem {
    pub label: String,
    pub insert_text: String,
    pub match_text: String,
    pub replace_start_col: usize,
    pub replace_end_col: usize,
    pub sort_text: String,
}

/// The mathematical value of a resolved candidate.
pub ghost struct ItemView {
    pub label: Seq<char>,
    pub insert_text: Seq<char>,
    pub match_text: Seq<char>,
    pub replace_start: int,
    pub replace_end: int,
    pub sort_text: Seq<char>,
}

impl View for CompletionItem {
    type V = ItemView;

    open spec fn view(&self) -> ItemView {
        ItemView {
            label: self.label@,
            insert_text: self.insert_text@,
            match_text: self.match_text@,
            replace_start: self.replace_start_col as int,
            replace_end: self.replace_end_col as int,
            sort_text: self.sort_text@,
        }
    }
}

/// The text before snippet stripping: the edit's text, else the insert text, else the label.
pub open spec fn base_text(item: RawCompletionItem) -> Seq<char> {
    match item.text_edit {
        Some(e) => e.new_text@,
        None => match item.insert_text {
            Some(t) => t@,
            None => item.label@,
        },
    }
}

/// The text that accepting the candidate inserts.
pub open spec fn resolved_insert_text(item: RawCompletionItem) -> Seq<char> {
    if item.is_snippet {
        snippet_stripped(base_text(item))
    } else {
        base_text(item)
    }
}

/// Resolves the text that accepting `item` inserts: the text edit's replacement, else the
/// insert text, else the label; snippet markup is stripped from snippet-format items.
pub fn resolve_insert_text(item: &RawCompletionItem) -> (r: String)
    ensures
        r@ == resolved_insert_text(*item),
{
    let base: String = match &item.text_edit {
        Some(e) => e.new_text.clone(),
        None => match &item.insert_text {
            Some(t) => t.clone(),
            None => item.label.clone(),
        },
    };
    if item.is_snippet {
        strip_snippet_markers(base.as_str())
    } else {
        base
    }
}

/// The columns the candidate replaces on cursor line `line`: those of its edit when the edit
/// lies on that line, nothing when it lies elsewhere, the defaults when there is no edit.
pub open spec fn replace_range_of(
    item: RawCompletionItem,
    line: int,
    default_start: int,
    default_end: int,
) -> Option<(int, int)> {
    match item.text_edit {
        Some(e) => if e.range.start_line == line && e.range.end_line == line {
            Some((e.range.start_character as int, e.range.end_character as int))
        } else {
            None
        },
        None => Some((default_start, default_end)),
    }
}

/// Resolves the columns that `item` replaces on the cursor's line; `None` rejects the item.
pub fn resolve_replace_range(
    item: &RawCompletionItem,
    line: usize,
    default_start: usize,
    default_end: usize,
) -> (r: Option<(usize, usize)>)
    ensures
        crate::fuzzy::pair_view(r) == replace_range_of(
            *item,
            line as int,
            default_start as int,
            default_end as int,
        ),
{
    match &item.text_edit {
        Some(e) => {
            if e.range.start_line as usize != line || e.range.end_line as usize != line {
                None
            } else {
                Some((e.range.start_character as usize, e.range.end_character as usize))
            }
        },
        None => Some((default_start, default_end)),
    }
}

/// The text used for ranking: the filter text, else the insert text, else `resolved`.
pub open spec fn match_text_of(item: RawCompletionItem, resolved: Seq<char>) -> Seq<char> {
    match item.filter_text {
        Some(f) => f@,
        None => match item.insert_text {
            Some(t) => t@,
            None => resolved,
        },
    }
}

/// The text `item` is ranked by: its filter text, else its insert text, else `insert_text`.
pub fn completion_match_text(item: &RawCompletionItem, insert_text: &str) -> (r: String)
    ensures
        r@ == match_text_of(*item, insert_text@),
{
    match &item.filter_text {
        Some(f) => f.clone(),
        None => match &item.insert_text {
            Some(t) => t.clone(),
            None => insert_text.to_owned(),
        },
    }
}

/// The resolved form of one raw candidate, or `None` when it is rejected: its edit lies on
/// another line, or it would insert nothing.
pub open spec fn resolve_item(
    item: RawCompletionItem,
    line: int,
    col: int,
    default_start: int,
) -> Option<ItemView> {
    match replace_range_of(item, line, default_start, col) {
        None => None,
        Some((s, e)) => {
            let text = resolved_insert_text(item);
            if text.len() == 0 {
                None
            } else {
                Some(
                    ItemView {
                        label: item.label@,
                        insert_text: text,
                        match_text: match_text_of(item, text),
                        replace_start: s,
                        replace_end: e,
                        sort_text: match item.sort_text {
                            Some(t) => t@,
                            None => item.label@,
                        },
                    },
                )
            }
        },
    }
}

/// Two resolved candidates that replace the same range with the same text, matched by the
/// same text.
pub open spec fn same_key(a: ItemView, b: ItemView) -> bool {
    a.replace_start == b.replace_start && a.replace_end == b.replace_end && a.match_text
        == b.match_text && a.insert_text == b.insert_text
}

/// The resolved candidates of `raws`, in order, each key kept at its first occurrence.
pub open spec fn collected(
    raws: Seq<RawCompletionItem>,
    line: int,
    col: int,
    default_start: int,
) -> Seq<ItemView>
    decreases raws.len(),
{
    if raws.len() == 0 {
        Seq::empty()
    } else {
        let prev = collected(raws.drop_last(), line, col, default_start);
        match resolve_item(raws.last(), line, col, default_start) {
            None => prev,
            Some(v) => if exists|k: int| 0 <= k < prev.len() && same_key(#[trigger] prev[k], v) {
                prev
            } else {
                prev.push(v)
            },
        }
    }
}

/// The views of a sequence of resolved candidates.
pub open spec fn views(items: Seq<CompletionItem>) -> Seq<ItemView> {
    items.map_values(|i: CompletionItem| i@)
}

/// No two entries share a key.
pub open spec fn keys_unique(items: Seq<ItemView>) -> bool {
    forall|a: int, b: int| 0 <= a < b < items.len() ==> !same_key(items[a], items[b])
}

proof fn lemma_collected_unique(
    raws: Seq<RawCompletionItem>,
    line: int,
    col: int,
    default_start: int,
)
    ensures
        keys_unique(collected(raws, line, col, default_start)),
    decreases raws.len(),
{
    if raws.len() > 0 {
        lemma_collected_unique(raws.drop_last(), line, col, default_start);
    }
}

/// Resolves a batch of raw candidates for cursor line `line` and column `col`: items whose
/// edit lies on another line or that would insert nothing are dropped, and of the items that
/// share (replace range, match text, insert text) only the first is kept.
pub fn collect_items(
    incoming: Vec<RawCompletionItem>,
    line: usize,
    col: usize,
    default_start: usize,
) -> (r: Vec<CompletionItem>)
    ensures
        views(r@) == collected(incoming@, line as int, col as int, default_start as int),
        keys_unique(views(r@)),
{
    let mut items: Vec<CompletionItem> = Vec::new();
    let mut i: usize = 0;
    while i < incoming.len()
        invariant
            i <= incoming.len(),
            views(items@) == collected(
                incoming@.take(i as int),
                line as int,
                col as int,
                default_start as int,
            ),
        decreases incoming.len() - i,
    {
        let item = &incoming[i];
        proof {
            assert(incoming@.take(i + 1).drop_last() =~= incoming@.take(i as int));
            assert(incoming@.take(i + 1).last() == incoming@[i as int]);
        }
        match resolve_replace_range(item, line, default_start, col) {
            None => {},
            Some((replace_start_col, replace_end_col)) => {
                let insert_text = resolve_insert_text(item);
                if insert_text.as_str().unicode_len() > 0 {
                    let label = item.label.clone();
                    let sort_text = match &item.sort_text {
                        Some(t) => t.clone(),
                        None => item.label.clone(),
                    };
                    let match_text = completion_match_text(item, insert_text.as_str());
                    let candidate = CompletionItem {
                        label,
                        insert_text,
                        match_text,
                        replace_start_col,
                        replace_end_col,
                        sort_text,
                    };
                    let mut seen = false;
                    let mut k: usize = 0;
                    while k < items.len() && !seen
                        invariant
                            k <= items.len(),
                            seen ==> exists|x: int|
                                0 <= x < items@.len() && same_key(
                                    #[trigger] views(items@)[x],
                                    candidate@,
                                ),
                            !seen ==> forall|x: int|
                                0 <= x < k ==> !same_key(#[trigger] views(items@)[x], candidate@),
                        decreases items.len() - k,
                    {
                        let other = &items[k];
                        if other.replace_start_col == candidate.replace_start_col
                            && other.replace_end_col == candidate.replace_end_col
                            && other.match_text == candidate.match_text
                            && other.insert_text == candidate.insert_text {
                            seen = true;
                            assert(views(items@)[k as int] == items@[k as int]@);
                        }
                        k = k + 1;
                    }
                    if !seen {
                        items.push(candidate);
                        assert(views(items@) =~= views(items@).drop_last().push(candidate@));
                    }
                }
            },
        }
        i = i + 1;
    }
    proof {
        assert(incoming@.take(incoming.len() as int) =~= incoming@);
        lemma_collected_unique(incoming@, line as int, col as int, default_start as int);
    }
    items
}

/// Of two candidates that resolve to entries with the same key (replace range, match text,
/// insert text), only the first is kept, whatever their labels.
pub proof fn lemma_dedup_keeps_first(
    a: RawCompletionItem,
    b: RawCompletionItem,
    line: int,
    col: int,
    default_start: int,
)
    requires
        resolve_item(a, line, col, default_start) is Some,
        resolve_item(b, line, col, default_start) is Some,
        same_key(
            resolve_item(a, line, col, default_start)->0,
            resolve_item(b, line, col, default_start)->0,
        ),
    ensures
        collected(seq![a, b], line, col, default_start) == seq![
            resolve_item(a, line, col, default_start)->0,
        ],
{
    let s = seq![a, b];
    assert(s.drop_last() =~= seq![a]);
    assert(seq![a].drop_last() =~= Seq::<RawCompletionItem>::empty());
    assert(seq![a].last() == a);
    assert(s.last() == b);
    let none = collected(Seq::<RawCompletionItem>::empty(), line, col, default_start);
    assert(none == Seq::<ItemView>::empty());
    let first = collected(seq![a], line, col, default_start);
    assert(first == none.push(resolve_item(a, line, col, default_start)->0));
    assert(first =~= seq![resolve_item(a, line, col, default_start)->0]);
    assert(same_key(first[0], resolve_item(b, line, col, default_start)->0));
}
} // verus!
