//! The open completion menu: selection, scrolling, keys, and applying the chosen item.
use crate::items::{collect_items, collected, views, CompletionItem, ItemView};
use crate::ranking::{current_typed_prefix, is_top_ranking_of, rank_completions, typed_prefix_of};
use crate::session::CompletionUpdate;
use crate::text::{chars_of, identifier_start, identifier_start_col, string_of, trimmed};
use vstd::prelude::*;

verus! {

/// How many entries the menu shows at once.
pub const COMPLETION_WINDOW_ROWS: usize = 8;

/// The scroll offset that keeps entry `selected` inside the window, moving as little as
/// possible from `scroll`.
pub open spec fn visible_scroll(selected: int, scroll: int) -> int {
    let s = if selected < scroll {
        selected
    } else {
        scroll
    };
    if selected >= s + COMPLETION_WINDOW_ROWS {
        selected + 1 - COMPLETION_WINDOW_ROWS
    } else {
        s
    }
}

/// An open completion menu.
pub struct CompletionState {
    line: usize,
    anchor_col: usize,
    selected: usize,
    scroll: usize,
    items: Vec<CompletionItem>,
}

/// A key routed to the open menu.
#[derive(Clone, Copy, Debug, PartialEq, Eq, Structural)]
pub enum MenuKey {
    Up,
    Down,
    Enter,
    Tab,
    Esc,
    /// Any other key.
    Other,
}

/// What routing a key to the menu did.
#[derive(Debug)]
pub enum KeyResult {
    /// The key was not for the menu; the host handles it.
    NotConsumed,
    /// The menu used the key.
    Consumed,
    /// The menu closed with this item chosen; the host applies it.
    Accepted(CompletionItem),
}

impl CompletionState {
    pub closed spec fn line_spec(&self) -> int {
        self.line as int
    }

    pub closed spec fn anchor_spec(&self) -> int {
        self.anchor_col as int
    }

    pub closed spec fn selected_spec(&self) -> int {
        self.selected as int
    }

    pub closed spec fn scroll_spec(&self) -> int {
        self.scroll as int
    }

    pub closed spec fn items_spec(&self) -> Seq<ItemView> {
        views(self.items@)
    }

    /// At least one entry; the selection is an entry and lies inside the window.
    pub open spec fn wf(&self) -> bool {
        &&& self.items_spec().len() > 0
        &&& 0 <= self.selected_spec() < self.items_spec().len()
        &&& self.scroll_spec() <= self.selected_spec() < self.scroll_spec()
            + COMPLETION_WINDOW_ROWS
    }

    /// The cursor line the menu belongs to.
    pub fn line(&self) -> (r: usize)
        ensures
            r == self.line_spec(),
    {
        self.line
    }

    /// The cursor column the request was made at.
    pub fn anchor_col(&self) -> (r: usize)
        ensures
            r == self.anchor_spec(),
    {
        self.anchor_col
    }

    /// The selected entry's index.
    pub fn selected(&self) -> (r: usize)
        ensures
            r == self.selected_spec(),
    {
        self.selected
    }

    /// The index of the first entry shown.
    pub fn scroll(&self) -> (r: usize)
        ensures
            r == self.scroll_spec(),
    {
        self.scroll
    }

    /// The entries, best first.
    pub fn items(&self) -> (r: &Vec<CompletionItem>)
        ensures
            views(r@) == self.items_spec(),
    {
        &self.items
    }
}

/// Moves the scroll offset so that the selected entry is inside the window.
pub fn ensure_selection_visible(state: &mut CompletionState)
    ensures
        final(state).scroll_spec() == visible_scroll(old(state).selected_spec(), old(state).scroll_spec()),
        final(state).scroll_spec() <= final(state).selected_spec() < final(state).scroll_spec()
            + COMPLETION_WINDOW_ROWS,
        final(state).selected_spec() == old(state).selected_spec(),
        final(state).line_spec() == old(state).line_spec(),
        final(state).anchor_spec() == old(state).anchor_spec(),
        final(state).items_spec() == old(state).items_spec(),
{
    if state.selected < state.scroll {
        state.scroll = state.selected;
    }
    if state.selected - state.scroll >= COMPLETION_WINDOW_ROWS {
        state.scroll = state.selected - (COMPLETION_WINDOW_ROWS - 1);
    }
}

/// Routes a key to the menu. With no menu, nothing happens. If the cursor left the menu's
/// line, the menu closes and the key is not used. Up and Down move the selection (clamped)
/// and scroll it into view; Enter and Tab close the menu with the selected item chosen; Esc
/// closes it; any other key closes it and is left to the host.
pub fn handle_completion_key(menu: &mut Option<CompletionState>, cursor_line: usize, key: MenuKey) -> (r: KeyResult)
    requires
        match *old(menu) {
            Some(st) => st.wf(),
            None => true,
        },
    ensures
        match *old(menu) {
            None => *final(menu) is None && r is NotConsumed,
            Some(st) => if st.line_spec() != cursor_line {
                *final(menu) is None && r is NotConsumed
            } else {
                match key {
                    MenuKey::Up | MenuKey::Down => {
                        let sel = if key == MenuKey::Up {
                            if st.selected_spec() > 0 { st.selected_spec() - 1 } else { 0 }
                        } else {
                            if st.selected_spec() + 1 < st.items_spec().len() {
                                st.selected_spec() + 1
                            } else {
                                st.items_spec().len() - 1
                            }
                        };
                        &&& r is Consumed
                        &&& *final(menu) is Some
                        &&& final(menu)->0.wf()
                        &&& final(menu)->0.selected_spec() == sel
                        &&& final(menu)->0.scroll_spec() == visible_scroll(sel, st.scroll_spec())
                        &&& final(menu)->0.line_spec() == st.line_spec()
                        &&& final(menu)->0.anchor_spec() == st.anchor_spec()
                        &&& final(menu)->0.items_spec() == st.items_spec()
                    },
                    MenuKey::Enter | MenuKey::Tab => {
                        &&& *final(menu) is None
                        &&& r is Accepted
                        &&& (r->Accepted_0)@ == st.items_spec()[st.selected_spec()]
                    },
                    MenuKey::Esc => *final(menu) is None && r is Consumed,
                    MenuKey::Other => *final(menu) is None && r is NotConsumed,
                }
            },
        },
{
    let line = match menu {
        Some(st) => st.line,
        None => {
            return KeyResult::NotConsumed;
        },
    };
    if cursor_line != line {
        *menu = None;
        return KeyResult::NotConsumed;
    }
    match key {
        MenuKey::Up | MenuKey::Down => {
            let mut st = menu.take().unwrap();
            if key == MenuKey::Up {
                st.selected = if st.selected > 0 { st.selected - 1 } else { 0 };
            } else {
                let max = st.items.len().saturating_sub(1);
                st.selected = if st.selected < max {
                    st.selected + 1
                } else {
                    max
                };
            }
            ensure_selection_visible(&mut st);
            *menu = Some(st);
            KeyResult::Consumed
        },
        MenuKey::Enter | MenuKey::Tab => {
            let mut st = menu.take().unwrap();
            let selected = st.selected;
            let item = st.items.remove(selected);
            KeyResult::Accepted(item)
        },
        MenuKey::Esc => {
            *menu = None;
            KeyResult::Consumed
        },
        MenuKey::Other => {
            *menu = None;
            KeyResult::NotConsumed
        },
    }
}

/// The query that ranking uses for a server update answered at column `col` of `line_text`.
pub open spec fn update_query(line_text: Seq<char>, col: int, cands: Seq<ItemView>) -> Seq<char> {
    trimmed(typed_prefix_of(line_text, col, cands))
}

/// The resolved candidates of a server update on a line whose text is `line_text`.
pub open spec fn update_candidates(update: CompletionUpdate, line_text: Seq<char>) -> Seq<ItemView> {
    collected(
        update.items@,
        update.line as int,
        update.col as int,
        identifier_start(line_text, update.col as int),
    )
}

/// Builds the menu for a completion update on the cursor's line, whose text is
/// `line_text`: the candidates are resolved (default range from the identifier start to the
/// requested column), deduplicated, ranked against the typed prefix and cut to the best
/// entries. No menu when nothing is left.
pub fn build_completion(update: CompletionUpdate, line_text: &str) -> (r: Option<CompletionState>)
    ensures
        ({
            let cands = update_candidates(update, line_text@);
            let q = update_query(line_text@, update.col as int, cands);
            match r {
                None => is_top_ranking_of(Seq::empty(), cands, q),
                Some(st) => {
                    &&& st.wf()
                    &&& st.line_spec() == update.line
                    &&& st.anchor_spec() == update.col
                    &&& st.selected_spec() == 0
                    &&& st.scroll_spec() == 0
                    &&& is_top_ranking_of(st.items_spec(), cands, q)
                },
            }
        }),
{
    let line = update.line;
    let col = update.col;
    let default_start = identifier_start_col(line_text, col);
    let items = collect_items(update.items, line, col, default_start);
    let prefix = current_typed_prefix(line_text, col, items.as_slice());
    let ranked = rank_completions(items, prefix.as_str());
    if ranked.len() == 0 {
        assert(views(ranked@) =~= Seq::<ItemView>::empty());
        None
    } else {
        Some(CompletionState { line, anchor_col: col, selected: 0, scroll: 0, items: ranked })
    }
}

/// Takes in a ready completion update. An update for another document or another line than
/// the cursor's is dropped and the menu left as it was; otherwise the menu is rebuilt from it
/// (see `build_completion`). `line_text` is the text of the cursor's line.
pub fn refresh_completion(
    menu: &mut Option<CompletionState>,
    update: CompletionUpdate,
    current_path: &str,
    cursor_line: usize,
    line_text: &str,
)
    ensures
        (update.path@ != current_path@ || update.line != cursor_line) ==> *final(menu) == *old(menu),
        (update.path@ == current_path@ && update.line == cursor_line) ==> ({
            let cands = update_candidates(update, line_text@);
            let q = update_query(line_text@, update.col as int, cands);
            match *final(menu) {
                None => is_top_ranking_of(Seq::empty(), cands, q),
                Some(st) => {
                    &&& st.wf()
                    &&& st.line_spec() == cursor_line
                    &&& st.anchor_spec() == update.col
                    &&& st.selected_spec() == 0
                    &&& st.scroll_spec() == 0
                    &&& is_top_ranking_of(st.items_spec(), cands, q)
                },
            }
        }),
{
    if !crate::text::same_text(update.path.as_str(), current_path) || update.line != cursor_line {
        return;
    }
    *menu = build_completion(update, line_text);
}

/// Column `c` clamped to a line of `n` characters.
pub open spec fn clamp_col(c: int, n: int) -> int {
    if c <= n {
        c
    } else {
        n
    }
}

/// The line after applying `item`: its replace range, clamped to the line (an end before the
/// start counts as the start), replaced by its insert text.
pub open spec fn applied_line(line: Seq<char>, item: ItemView) -> Seq<char> {
    let start = clamp_col(item.replace_start, line.len() as int);
    let end0 = clamp_col(item.replace_end, line.len() as int);
    let end = if end0 < start {
        start
    } else {
        end0
    };
    line.subrange(0, start) + item.insert_text + line.subrange(end, line.len() as int)
}

/// The cursor column after applying `item`: the end of the inserted text.
pub open spec fn applied_col(line: Seq<char>, item: ItemView) -> int {
    clamp_col(item.replace_start, line.len() as int) + item.insert_text.len()
}

/// Applies a chosen item to the cursor's line: returns the new line and the new cursor column.
pub fn apply_completion(line_text: &str, item: &CompletionItem) -> (r: (String, usize))
    ensures
        r.0@ == applied_line(line_text@, item@),
        r.1 == applied_col(line_text@, item@),
{
    let chars = chars_of(line_text);
    let insert = chars_of(item.insert_text.as_str());
    let n = chars.len();
    let start = if item.replace_start_col <= n { item.replace_start_col } else { n };
    let end0 = if item.replace_end_col <= n { item.replace_end_col } else { n };
    let end = if end0 < start { start } else { end0 };
    let mut out: Vec<char> = Vec::new();
    let mut k: usize = 0;
    while k < start
        invariant
            k <= start <= n,
            chars@ == line_text@,
            n == chars@.len(),
            out@ == chars@.subrange(0, k as int),
        decreases start - k,
    {
        out.push(chars[k]);
        k = k + 1;
        assert(out@ =~= chars@.subrange(0, k as int));
    }
    let mut k: usize = 0;
    while k < insert.len()
        invariant
            k <= insert.len(),
            out@ == chars@.subrange(0, start as int) + insert@.subrange(0, k as int),
        decreases insert.len() - k,
    {
        out.push(insert[k]);
        k = k + 1;
        assert(out@ =~= chars@.subrange(0, start as int) + insert@.subrange(0, k as int));
    }
    assert(insert@.subrange(0, insert.len() as int) =~= insert@);
    let col = out.len();
    let mut k: usize = end;
    while k < n
        invariant
            end <= k <= n,
            n == chars@.len(),
            out@ == chars@.subrange(0, start as int) + insert@ + chars@.subrange(end as int, k as int),
        decreases n - k,
    {
        out.push(chars[k]);
        k = k + 1;
        assert(out@ =~= chars@.subrange(0, start as int) + insert@ + chars@.subrange(end as int, k as int));
    }
    (string_of(out.as_slice()), col)
}
/// The longest label, in characters, among the first `k` entries.
pub open spec fn widest_label(items: Seq<ItemView>, k: int) -> int
    decreases k,
{
    if k <= 0 || k > items.len() {
        0
    } else {
        let w = widest_label(items, k - 1);
        if items[k - 1].label.len() > w {
            items[k - 1].label.len() as int
        } else {
            w
        }
    }
}

/// The menu's width: the longest label among the entries shown at most at once, plus three
/// columns of frame and padding (saturating at the largest width).
pub fn completion_width(state: &CompletionState) -> (r: u16)
    ensures
        ({
            let n = state.items_spec().len();
            let w = widest_label(
                state.items_spec(),
                if n < COMPLETION_WINDOW_ROWS { n as int } else { COMPLETION_WINDOW_ROWS as int },
            );
            r == if w + 3 <= u16::MAX { w + 3 } else { u16::MAX as int }
        }),
{
    let ghost items = state.items_spec();
    let count = if state.items.len() < COMPLETION_WINDOW_ROWS {
        state.items.len()
    } else {
        COMPLETION_WINDOW_ROWS
    };
    let mut widest: usize = 0;
    let mut k: usize = 0;
    while k < count
        invariant
            items == views(state.items@),
            count <= state.items@.len(),
            k <= count,
            widest == widest_label(items, k as int),
        decreases count - k,
    {
        let w = state.items[k].label.as_str().unicode_len();
        if w > widest {
            widest = w;
        }
        k = k + 1;
    }
    if widest <= 65532 {
        (widest + 3) as u16
    } else {
        u16::MAX
    }
}
} // verus!
