//! Column arithmetic on one line of the buffer: word boundaries and indentation.
use crate::text::{chars_of, is_whitespace_char, is_word_char, whitespace, word_char};
use vstd::prelude::*;

verus! {

/// Columns one indentation step takes.
pub const TAB_WIDTH: usize = 4;

/// Whitespace 0, identifier characters 1, anything else 2.
pub open spec fn char_class(c: char) -> u8 {
    if whitespace(c) {
        0
    } else if word_char(c) {
        1
    } else {
        2
    }
}

/// Classifies a character for word selection: whitespace 0, identifier 1, anything else 2.
pub fn classify_char(ch: char) -> (r: u8)
    ensures
        r == char_class(ch),
{
    if is_whitespace_char(ch) {
        return 0;
    }
    if is_word_char(ch) {
        return 1;
    }
    2
}

/// Back from `idx` over whitespace.
pub open spec fn skip_space_back(s: Seq<char>, idx: int) -> int
    decreases idx,
{
    if idx <= 0 || idx > s.len() {
        0
    } else if whitespace(s[idx - 1]) {
        skip_space_back(s, idx - 1)
    } else {
        idx
    }
}

/// Back from `idx` over non-whitespace characters whose identifier-ness is `mode`.
pub open spec fn run_back(s: Seq<char>, idx: int, mode: bool) -> int
    decreases idx,
{
    if idx <= 0 || idx > s.len() {
        0
    } else if whitespace(s[idx - 1]) || word_char(s[idx - 1]) != mode {
        idx
    } else {
        run_back(s, idx - 1, mode)
    }
}

/// The column a word-left move reaches from `col`: back over whitespace, then over the run of
/// characters of the same kind (identifier or not) as the one before.
pub open spec fn previous_boundary(s: Seq<char>, col: int) -> int {
    let i = skip_space_back(s, if col <= s.len() { col } else { s.len() as int });
    if i <= 0 {
        0
    } else {
        run_back(s, i, word_char(s[i - 1]))
    }
}

proof fn lemma_skip_space_back(s: Seq<char>, idx: int)
    requires
        0 <= idx <= s.len(),
    ensures
        0 <= skip_space_back(s, idx) <= idx,
    decreases idx,
{
    if idx > 0 && whitespace(s[idx - 1]) {
        lemma_skip_space_back(s, idx - 1);
    }
}

/// The column a word-left move reaches from `col`.
pub fn previous_word_boundary(line: &str, col: usize) -> (r: usize)
    ensures
        r == previous_boundary(line@, col as int),
{
    let chars = chars_of(line);
    let mut idx: usize = if col < chars.len() { col } else { chars.len() };
    let ghost start = idx as int;
    while idx > 0 && is_whitespace_char(chars[idx - 1])
        invariant
            chars@ == line@,
            idx <= chars.len(),
            skip_space_back(line@, start) == skip_space_back(line@, idx as int),
        decreases idx,
    {
        idx = idx - 1;
    }
    if idx == 0 {
        return 0;
    }
    let mode = is_word_char(chars[idx - 1]);
    let ghost from = idx as int;
    while idx > 0 && !is_whitespace_char(chars[idx - 1]) && is_word_char(chars[idx - 1]) == mode
        invariant
            chars@ == line@,
            idx <= chars.len(),
            run_back(line@, from, mode) == run_back(line@, idx as int, mode),
        decreases idx,
    {
        idx = idx - 1;
    }
    idx
}

/// Forward from `idx` over whitespace.
pub open spec fn skip_space_fwd(s: Seq<char>, idx: int) -> int
    decreases s.len() - idx,
{
    if idx < 0 || idx >= s.len() || !whitespace(s[idx]) {
        idx
    } else {
        skip_space_fwd(s, idx + 1)
    }
}

/// Forward from `idx` over non-whitespace characters whose identifier-ness is `mode`.
pub open spec fn run_fwd(s: Seq<char>, idx: int, mode: bool) -> int
    decreases s.len() - idx,
{
    if idx < 0 || idx >= s.len() || whitespace(s[idx]) || word_char(s[idx]) != mode {
        idx
    } else {
        run_fwd(s, idx + 1, mode)
    }
}

/// The column a word-right move reaches from `col`: forward over whitespace, then over the
/// run of characters of the same kind as the first one.
pub open spec fn next_boundary(s: Seq<char>, col: int) -> int {
    let i = skip_space_fwd(s, if col <= s.len() { col } else { s.len() as int });
    if i >= s.len() {
        s.len() as int
    } else {
        run_fwd(s, i, word_char(s[i]))
    }
}

/// The column a word-right move reaches from `col`.
pub fn next_word_boundary(line: &str, col: usize) -> (r: usize)
    ensures
        r == next_boundary(line@, col as int),
{
    let chars = chars_of(line);
    let n = chars.len();
    let mut idx: usize = if col < n { col } else { n };
    let ghost start = idx as int;
    while idx < n && is_whitespace_char(chars[idx])
        invariant
            chars@ == line@,
            n == chars.len(),
            idx <= n,
            skip_space_fwd(line@, start) == skip_space_fwd(line@, idx as int),
        decreases n - idx,
    {
        idx = idx + 1;
    }
    if idx >= n {
        return n;
    }
    let mode = is_word_char(chars[idx]);
    let ghost from = idx as int;
    while idx < n && !is_whitespace_char(chars[idx]) && is_word_char(chars[idx]) == mode
        invariant
            chars@ == line@,
            n == chars.len(),
            idx <= n,
            run_fwd(line@, from, mode) == run_fwd(line@, idx as int, mode),
        decreases n - idx,
    {
        idx = idx + 1;
    }
    idx
}

/// The indentation one outdent step removes: up to `TAB_WIDTH` leading spaces, or a leading
/// tab (counted as one, or as the spaces before it).
pub open spec fn indent_from(s: Seq<char>, i: int) -> int
    decreases s.len() - i,
{
    if i < 0 || i >= s.len() {
        i
    } else if s[i] == ' ' && i < TAB_WIDTH {
        indent_from(s, i + 1)
    } else if s[i] == '\t' {
        if i == 0 {
            1
        } else {
            i
        }
    } else {
        i
    }
}

/// The width of the leading indentation that one outdent step removes.
pub fn leading_indent_width(line: &str) -> (r: usize)
    ensures
        r == indent_from(line@, 0),
{
    let chars = chars_of(line);
    let mut width: usize = 0;
    while width < chars.len()
        invariant
            chars@ == line@,
            width <= chars.len(),
            width <= TAB_WIDTH,
            indent_from(line@, 0) == indent_from(line@, width as int),
        decreases chars.len() - width,
    {
        let ch = chars[width];
        if ch == ' ' && width < TAB_WIDTH {
            width = width + 1;
        } else if ch == '\t' {
            return if width == 0 { 1 } else { width };
        } else {
            return width;
        }
    }
    width
}

} // verus!
