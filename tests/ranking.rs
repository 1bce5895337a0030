use lspcomplete::fuzzy::{best_edit_distance, levenshtein, subsequence_score};
use lspcomplete::items::{
    collect_items, completion_match_text, resolve_insert_text, resolve_replace_range,
    CompletionItem, EditRange, RawCompletionItem, RawTextEdit,
};
use lspcomplete::ranking::{
    completion_rank, current_typed_prefix, rank_completions, rank_query, sort_for_query,
    top_for_query, MatchRank, MAX_COMPLETIONS,
};
use lspcomplete::snippet::strip_snippet_markers;
use lspcomplete::text::identifier_start_col;

fn raw(label: &str) -> RawCompletionItem {
    RawCompletionItem {
        label: label.to_string(),
        insert_text: None,
        filter_text: None,
        sort_text: None,
        is_snippet: false,
        text_edit: None,
    }
}

fn item(label: &str) -> CompletionItem {
    CompletionItem {
        label: label.to_string(),
        insert_text: label.to_string(),
        match_text: label.to_string(),
        replace_start_col: 0,
        replace_end_col: 0,
        sort_text: label.to_string(),
    }
}

fn labels(items: &[CompletionItem]) -> Vec<String> {
    items.iter().map(|i| i.label.clone()).collect()
}

#[test]
fn snippet_placeholder_keeps_default() {
    assert_eq!(strip_snippet_markers("foo(${1:bar})"), "foo(bar)");
}

#[test]
fn snippet_tab_stop_is_removed() {
    assert_eq!(strip_snippet_markers("foo($0)"), "foo()");
    assert_eq!(strip_snippet_markers("a$12b"), "ab");
}

#[test]
fn snippet_plain_text_is_unchanged() {
    assert_eq!(strip_snippet_markers("plain text, no markup"), "plain text, no markup");
    assert_eq!(strip_snippet_markers(""), "");
}

#[test]
fn snippet_other_dollar_is_kept() {
    assert_eq!(strip_snippet_markers("cost $ 5 $x $"), "cost $ 5 $x $");
}

#[test]
fn snippet_placeholder_without_colon_vanishes() {
    assert_eq!(strip_snippet_markers("a${1}b"), "ab");
    assert_eq!(strip_snippet_markers("x${2:a:b}y"), "xa:by");
    assert_eq!(strip_snippet_markers("x${3:open"), "xopen");
}

#[test]
fn insert_text_prefers_edit_then_insert_then_label() {
    let mut r = raw("label");
    assert_eq!(resolve_insert_text(&r), "label");
    r.insert_text = Some("insert".to_string());
    assert_eq!(resolve_insert_text(&r), "insert");
    r.text_edit = Some(RawTextEdit {
        range: EditRange { start_line: 0, start_character: 0, end_line: 0, end_character: 1 },
        new_text: "edit".to_string(),
    });
    assert_eq!(resolve_insert_text(&r), "edit");
}

#[test]
fn insert_text_of_snippet_item_is_stripped() {
    let mut r = raw("foo");
    r.insert_text = Some("foo(${1:bar})".to_string());
    r.is_snippet = true;
    assert_eq!(resolve_insert_text(&r), "foo(bar)");
    r.is_snippet = false;
    assert_eq!(resolve_insert_text(&r), "foo(${1:bar})");
}

#[test]
fn match_text_prefers_filter_then_insert() {
    let mut r = raw("label");
    assert_eq!(completion_match_text(&r, "resolved"), "resolved");
    r.insert_text = Some("insert".to_string());
    assert_eq!(completion_match_text(&r, "resolved"), "insert");
    r.filter_text = Some("filter".to_string());
    assert_eq!(completion_match_text(&r, "resolved"), "filter");
}

#[test]
fn default_replace_range_starts_at_identifier() {
    let line = "foo.ba";
    let default_start = identifier_start_col(line, 6);
    assert_eq!(default_start, 4);
    assert_eq!(resolve_replace_range(&raw("bar"), 2, default_start, 6), Some((4, 6)));
}

#[test]
fn replace_range_from_edit_on_cursor_line() {
    let mut r = raw("x");
    r.text_edit = Some(RawTextEdit {
        range: EditRange { start_line: 3, start_character: 2, end_line: 3, end_character: 7 },
        new_text: "x".to_string(),
    });
    assert_eq!(resolve_replace_range(&r, 3, 0, 10), Some((2, 7)));
    assert_eq!(resolve_replace_range(&r, 4, 0, 10), None);
}

#[test]
fn identifier_start_clamps_and_handles_unicode() {
    assert_eq!(identifier_start_col("abc", 10), 0);
    assert_eq!(identifier_start_col("  héllo_1", 9), 2);
    assert_eq!(identifier_start_col("a b", 1), 0);
    assert_eq!(identifier_start_col("a.", 2), 2);
    assert_eq!(identifier_start_col("", 0), 0);
}

#[test]
fn dedup_keeps_first_of_same_key() {
    let mut a = raw("first");
    a.insert_text = Some("value".to_string());
    let mut b = raw("second");
    b.insert_text = Some("value".to_string());
    let items = collect_items(vec![a, b], 0, 3, 0);
    assert_eq!(items.len(), 1);
    assert_eq!(items[0].label, "first");
    assert_eq!(items[0].replace_start_col, 0);
    assert_eq!(items[0].replace_end_col, 3);
}

#[test]
fn collect_drops_other_line_and_empty_items() {
    let mut other_line = raw("far");
    other_line.text_edit = Some(RawTextEdit {
        range: EditRange { start_line: 1, start_character: 0, end_line: 2, end_character: 0 },
        new_text: "far".to_string(),
    });
    let mut empty = raw("empty");
    empty.insert_text = Some(String::new());
    let mut sorted = raw("kept");
    sorted.sort_text = Some("0001".to_string());
    let items = collect_items(vec![other_line, empty, sorted], 1, 4, 2);
    assert_eq!(items.len(), 1);
    assert_eq!(items[0].label, "kept");
    assert_eq!(items[0].sort_text, "0001");
    assert_eq!(items[0].match_text, "kept");
    assert_eq!((items[0].replace_start_col, items[0].replace_end_col), (2, 4));
}

#[test]
fn ranking_exact_then_prefix() {
    let ranked = rank_completions(vec![item("Getter"), item("getX"), item("get")], "get");
    assert_eq!(labels(&ranked), vec!["get", "Getter", "getX"]);
    assert_eq!(rank_query(&item("get"), "get").unwrap().tier, 0);
    assert_eq!(rank_query(&item("getX"), "get").unwrap().tier, 1);
    assert_eq!(rank_query(&item("Getter"), "get").unwrap().tier, 1);
}

#[test]
fn ranking_ties_broken_by_sort_text_then_label() {
    let mut a = item("getB");
    a.sort_text = "2".to_string();
    let mut b = item("getA");
    b.sort_text = "2".to_string();
    let mut c = item("getC");
    c.sort_text = "1".to_string();
    let ranked = rank_completions(vec![a, b, c], "get");
    assert_eq!(labels(&ranked), vec!["getC", "getA", "getB"]);
}

#[test]
fn subsequence_tier_scores_gaps_and_leftover() {
    assert_eq!(subsequence_score("gtx", "getx"), Some((1, 0)));
    assert_eq!(subsequence_score("gtx", "xgte"), None);
    assert_eq!(subsequence_score("", "abc"), None);
    assert_eq!(subsequence_score("ac", "abcde"), Some((1, 2)));
    assert_eq!(
        rank_query(&item("getX"), "gtx"),
        Some(MatchRank { tier: 2, distance: 0, gaps: 1, len_delta: 0 })
    );
    assert_eq!(rank_query(&item("xgte"), "gtx"), None);
}

#[test]
fn edit_distance_tier_threshold() {
    assert_eq!(levenshtein("gett", "bette"), 2);
    assert_eq!(best_edit_distance("gett", "better"), Some(2));
    assert_eq!(rank_query(&item("better"), "gett"), None);
    assert_eq!(best_edit_distance("gett", "gete"), Some(1));
    assert_eq!(
        rank_query(&item("gete"), "gett"),
        Some(MatchRank { tier: 3, distance: 1, gaps: 0, len_delta: 0 })
    );
}

#[test]
fn edit_distance_threshold_two_for_long_queries() {
    assert_eq!(rank_query(&item("abcdxfgy"), "abcdefgh").map(|r| (r.tier, r.distance)), Some((3, 2)));
    assert_eq!(rank_query(&item("abcdxfyy"), "abcdefgh"), None);
}

#[test]
fn levenshtein_values() {
    assert_eq!(levenshtein("kitten", "sitting"), 3);
    assert_eq!(levenshtein("", "abc"), 3);
    assert_eq!(levenshtein("abc", ""), 3);
    assert_eq!(levenshtein("same", "same"), 0);
    let long = "x".repeat(300);
    assert_eq!(levenshtein("", &long), 255);
    assert_eq!(levenshtein(&long, "y"), 255);
}

#[test]
fn best_edit_distance_over_tokens() {
    assert_eq!(best_edit_distance("ab", "zz.abx-q"), Some(1));
    assert_eq!(best_edit_distance("ab", "zz.ab-q"), Some(0));
    assert_eq!(best_edit_distance("ab", "...---"), None);
    assert_eq!(best_edit_distance("ab", ""), None);
}

#[test]
fn empty_prefix_orders_by_length() {
    let ranked = rank_completions(vec![item("longer"), item("mid"), item("a")], "");
    assert_eq!(labels(&ranked), vec!["a", "mid", "longer"]);
    assert_eq!(
        completion_rank(&item("mid"), ""),
        Some(MatchRank { tier: 4, distance: 0, gaps: 0, len_delta: 3 })
    );
}

#[test]
fn typed_prefix_is_trimmed_before_ranking() {
    assert_eq!(completion_rank(&item("get"), "  get \t").map(|r| r.tier), Some(0));
    assert_eq!(rank_query(&item("get"), "  get \t"), None);
}

#[test]
fn prefix_and_distance_tiers_ignore_length() {
    assert_eq!(
        rank_query(&item("getter_with_long_name"), "get"),
        Some(MatchRank { tier: 1, distance: 0, gaps: 0, len_delta: 0 })
    );
    let ranked = rank_completions(vec![item("zett"), item("aett.xxxx")], "gett");
    assert_eq!(labels(&ranked), vec!["aett.xxxx", "zett"]);
    assert_eq!(
        rank_query(&item("aett.xxxx"), "gett"),
        Some(MatchRank { tier: 3, distance: 1, gaps: 0, len_delta: 0 })
    );
}

#[test]
fn typed_prefix_trims_unicode_space() {
    assert_eq!(completion_rank(&item("get"), "\u{3000}get\u{a0}").map(|r| r.tier), Some(0));
    assert_eq!(completion_rank(&item("get"), " \u{2003} ").map(|r| r.tier), Some(4));
}

#[test]
fn ranking_is_case_insensitive() {
    assert_eq!(rank_query(&item("GET"), "get").map(|r| r.tier), Some(0));
    assert_eq!(rank_query(&item("get"), "GE").map(|r| r.tier), Some(1));
}

#[test]
fn equal_entries_keep_input_order() {
    let mut a = item("get");
    a.insert_text = "first".to_string();
    let mut b = item("get");
    b.insert_text = "second".to_string();
    let ranked = sort_for_query(vec![a.clone(), b.clone()], "ge");
    assert_eq!(ranked[0].insert_text, "first");
    let ranked = sort_for_query(vec![b, a], "ge");
    assert_eq!(ranked[0].insert_text, "second");
}

#[test]
fn unmatched_items_are_excluded() {
    let ranked = sort_for_query(vec![item("zzzz"), item("get")], "get");
    assert_eq!(labels(&ranked), vec!["get"]);
}

#[test]
fn ranking_keeps_at_most_twelve() {
    let items: Vec<CompletionItem> = (0..20).map(|i| item(&format!("get{:02}", i))).collect();
    let ranked = top_for_query(items, "get");
    assert_eq!(ranked.len(), MAX_COMPLETIONS);
    assert_eq!(ranked[0].label, "get00");
    assert_eq!(ranked[11].label, "get11");
}

#[test]
fn typed_prefix_widened_to_least_replace_start() {
    let mut a = item("bar");
    a.replace_start_col = 5;
    let mut b = item("baz");
    b.replace_start_col = 6;
    assert_eq!(current_typed_prefix("foo.bar", 7, &[a.clone(), b]), "ar");
    assert_eq!(current_typed_prefix("foo.bar", 7, &[]), "bar");
    assert_eq!(current_typed_prefix("foo.bar", 3, &[a]), "");
    assert_eq!(current_typed_prefix("ab", 9, &[]), "ab");
}
