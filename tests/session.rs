use lspcomplete::items::{EditRange, RawCompletionItem};
use lspcomplete::menu::{
    apply_completion, build_completion, completion_width, ensure_selection_visible,
    handle_completion_key, refresh_completion, CompletionState, KeyResult, MenuKey,
    COMPLETION_WINDOW_ROWS,
};
use lspcomplete::server_spec::ServerSpec;
use lspcomplete::session::{
    route_message, CompletionUpdate, Diagnostic, DocumentSync, LspManager, OpenPlan,
    RequestTable, ServerEvent, Severity,
};
use lspcomplete::table::PathTable;

fn raw(label: &str) -> RawCompletionItem {
    RawCompletionItem {
        label: label.to_string(),
        insert_text: None,
        filter_text: None,
        sort_text: None,
        is_snippet: false,
        text_edit: None,
    }
}

fn completion_event(path: &str, version: i32, line: usize, col: usize, label: &str) -> ServerEvent {
    ServerEvent::Completion {
        path: path.to_string(),
        version,
        line,
        col,
        items: vec![raw(label)],
    }
}

fn diag(line: u32, message: &str, severity: Option<Severity>) -> Diagnostic {
    Diagnostic {
        range: EditRange { start_line: line, start_character: 0, end_line: line, end_character: 1 },
        message: message.to_string(),
        severity,
    }
}

fn menu_with(n: usize) -> CompletionState {
    let items = (0..n).map(|i| raw(&format!("item{:02}", i))).collect();
    let update = CompletionUpdate { path: "/p/a.rs".to_string(), line: 0, col: 0, items };
    build_completion(update, "").unwrap()
}

#[test]
fn change_versions_count_up_from_open() {
    let mut sync = DocumentSync::new();
    assert!(!sync.is_open());
    assert_eq!(sync.open_document(), 1);
    let versions: Vec<i32> = (0..5).map(|_| sync.did_change()).collect();
    assert_eq!(versions, vec![2, 3, 4, 5, 6]);
    assert_eq!(sync.version(), 6);
    assert_eq!(sync.open_document(), 1);
    assert_eq!(sync.did_change(), 2);
}

#[test]
fn stale_completion_dropped_when_old_arrives_last() {
    let path = "/p/main.rs";
    let mut m = LspManager::new();
    m.record_version(path.to_string(), 1);
    m.record_version(path.to_string(), 2);
    m.handle_event(completion_event(path, 2, 0, 0, "new"));
    m.handle_event(completion_event(path, 1, 0, 0, "old"));
    let update = m.take_completion().unwrap();
    assert_eq!(update.items[0].label, "new");
    assert!(m.take_completion().is_none());
}

#[test]
fn stale_completion_dropped_when_old_arrives_first() {
    let path = "/p/main.rs";
    let mut m = LspManager::new();
    m.record_version(path.to_string(), 1);
    m.record_version(path.to_string(), 2);
    m.handle_event(completion_event(path, 1, 0, 0, "old"));
    assert!(m.take_completion().is_none());
    m.handle_event(completion_event(path, 1, 0, 0, "old"));
    m.handle_event(completion_event(path, 2, 0, 0, "new"));
    assert_eq!(m.take_completion().unwrap().items[0].label, "new");
}

#[test]
fn completion_for_unknown_document_is_accepted() {
    let mut m = LspManager::new();
    m.handle_event(completion_event("/p/x.rs", 7, 1, 2, "a"));
    let update = m.take_completion().unwrap();
    assert_eq!((update.path.as_str(), update.line, update.col), ("/p/x.rs", 1, 2));
}

#[test]
fn stale_response_after_edit_opens_no_menu() {
    let path = "/p/lib.rs";
    let mut m = LspManager::new();
    let mut sync = DocumentSync::new();
    let mut table = RequestTable::new();
    m.record_version(path.to_string(), sync.open_document());
    let version = m.request_version(path);
    assert_eq!(version, 1);
    let id = table.register_completion(path.to_string(), version, 3, 10);
    m.record_version(path.to_string(), sync.did_change());
    let pending = table.take(id).unwrap();
    assert_eq!(pending.version, 1);
    m.handle_event(ServerEvent::Completion {
        path: pending.path,
        version: pending.version,
        line: pending.line,
        col: pending.col,
        items: vec![raw("value")],
    });
    let mut menu: Option<CompletionState> = None;
    if let Some(update) = m.take_completion() {
        refresh_completion(&mut menu, update, path, 3, "let x = value_of_something;");
    }
    assert!(menu.is_none());
}

#[test]
fn request_version_defaults_to_one() {
    let mut m = LspManager::new();
    assert_eq!(m.request_version("/nowhere.rs"), 1);
    m.record_version("/a.rs".to_string(), 4);
    assert_eq!(m.request_version("/a.rs"), 4);
    assert_eq!(m.request_version("/b.rs"), 1);
}

#[test]
fn diagnostics_cached_and_stale_ones_dropped() {
    let path = "/p/main.rs";
    let mut m = LspManager::new();
    m.record_version(path.to_string(), 3);
    m.handle_event(ServerEvent::Diagnostics {
        path: path.to_string(),
        version: Some(3),
        diagnostics: vec![diag(2, "first", Some(Severity::Error)), diag(2, "second", None), diag(5, "warn", Some(Severity::Warning))],
    });
    assert_eq!(m.diagnostic_hint_for_line(path, 2), Some(("first".to_string(), false)));
    assert_eq!(m.diagnostic_hint_for_line(path, 5), Some(("warn".to_string(), true)));
    assert_eq!(m.diagnostic_hint_for_line(path, 4), None);
    assert_eq!(m.diagnostic_hint_for_line("/p/other.rs", 2), None);
    m.handle_event(ServerEvent::Diagnostics {
        path: path.to_string(),
        version: Some(2),
        diagnostics: vec![diag(4, "stale", None)],
    });
    assert_eq!(m.diagnostic_hint_for_line(path, 4), None);
    m.handle_event(ServerEvent::Diagnostics {
        path: path.to_string(),
        version: None,
        diagnostics: vec![diag(4, "unversioned", None)],
    });
    assert_eq!(m.diagnostic_hint_for_line(path, 4), Some(("unversioned".to_string(), false)));
    assert_eq!(m.diagnostic_hint_for_line(path, 2), None);
}

#[test]
fn open_file_plans() {
    let mut m = LspManager::new();
    assert_eq!(m.open_file("/p/notes.txt"), OpenPlan::Disabled);
    assert_eq!(m.open_file("/p/main.rs"), OpenPlan::Start(ServerSpec::RustAnalyzer));
    assert!(!m.is_active());
    m.server_started(ServerSpec::RustAnalyzer);
    m.record_version("/p/main.rs".to_string(), 1);
    assert_eq!(m.open_file("/p/lib.rs"), OpenPlan::Reuse);
    assert_eq!(m.request_version("/p/main.rs"), 1);
    assert_eq!(m.open_file("/p/app.py"), OpenPlan::Start(ServerSpec::Pylsp));
    assert_eq!(m.request_version("/p/main.rs"), 1);
    m.record_version("/p/app.py".to_string(), 5);
    assert_eq!(m.open_file("/p/README"), OpenPlan::Disabled);
    assert_eq!(m.request_version("/p/app.py"), 1);
    m.server_started(ServerSpec::Gopls);
    m.reset();
    assert!(!m.is_active());
}

#[test]
fn open_file_clears_caches_on_server_change() {
    let mut m = LspManager::new();
    m.server_started(ServerSpec::RustAnalyzer);
    m.record_version("/p/a.rs".to_string(), 9);
    m.handle_event(completion_event("/p/a.rs", 9, 0, 0, "x"));
    assert_eq!(m.open_file("/p/a.go"), OpenPlan::Start(ServerSpec::Gopls));
    assert!(m.take_completion().is_none());
    assert_eq!(m.request_version("/p/a.rs"), 1);
}

#[test]
fn server_table_by_extension() {
    assert_eq!(ServerSpec::from_path("/src/main.rs"), Some(ServerSpec::RustAnalyzer));
    assert_eq!(ServerSpec::from_path("tool.py"), Some(ServerSpec::Pylsp));
    for p in ["a.js", "a.ts", "a.jsx", "dir/a.tsx"] {
        assert_eq!(ServerSpec::from_path(p), Some(ServerSpec::TypeScript));
    }
    assert_eq!(ServerSpec::from_path("main.go"), Some(ServerSpec::Gopls));
    assert_eq!(ServerSpec::from_path("Makefile"), None);
    assert_eq!(ServerSpec::from_path(".rs"), None);
    assert_eq!(ServerSpec::from_path("a.RS"), None);
    assert_eq!(ServerSpec::for_extension("tsx"), Some(ServerSpec::TypeScript));
    assert_eq!(ServerSpec::TypeScript.args(), vec!["--stdio"]);
    assert!(ServerSpec::Gopls.args().is_empty());
    assert_eq!(ServerSpec::RustAnalyzer.command(), "rust-analyzer");
    assert_eq!(ServerSpec::TypeScript.language_id(), "typescript");
    assert_eq!(ServerSpec::Pylsp.key(), "python");
    assert_eq!(ServerSpec::Gopls.name(), "gopls");
}

#[test]
fn request_ids_increase_and_correlate() {
    let mut t = RequestTable::new();
    assert_eq!(t.next_id(), 1);
    assert_eq!(t.allocate_id(), 1);
    let a = t.register_completion("/a.rs".to_string(), 1, 0, 0);
    let b = t.register_completion("/b.rs".to_string(), 2, 3, 4);
    assert_eq!((a, b), (2, 3));
    assert!(t.take(1).is_none());
    let pb = t.take(b).unwrap();
    assert_eq!((pb.path.as_str(), pb.version, pb.line, pb.col), ("/b.rs", 2, 3, 4));
    assert!(t.take(b).is_none());
    t.cancel(a);
    assert!(t.take(a).is_none());
    assert_eq!(t.next_id(), 4);
}

#[test]
fn path_table_replaces_values() {
    let mut t: PathTable<i32> = PathTable::new();
    t.insert("/a".to_string(), 1);
    t.insert("/b".to_string(), 2);
    t.insert("/a".to_string(), 3);
    assert_eq!(t.get("/a"), Some(&3));
    assert_eq!(t.get("/b"), Some(&2));
    assert_eq!(t.get("/c"), None);
    t.clear();
    assert_eq!(t.get("/a"), None);
}

#[test]
fn menu_opens_with_first_item_selected() {
    let update = CompletionUpdate {
        path: "/p/a.rs".to_string(),
        line: 2,
        col: 6,
        items: vec![raw("bar"), raw("baz"), raw("qux")],
    };
    let st = build_completion(update, "foo.ba").unwrap();
    assert_eq!((st.line(), st.anchor_col(), st.selected(), st.scroll()), (2, 6, 0, 0));
    let labels: Vec<&str> = st.items().iter().map(|i| i.label.as_str()).collect();
    assert_eq!(labels, vec!["bar", "baz"]);
    assert_eq!((st.items()[0].replace_start_col, st.items()[0].replace_end_col), (4, 6));
}

#[test]
fn menu_not_opened_when_nothing_matches() {
    let update = CompletionUpdate {
        path: "/p/a.rs".to_string(),
        line: 0,
        col: 3,
        items: vec![raw("zzzzzz")],
    };
    assert!(build_completion(update, "abc").is_none());
}

#[test]
fn refresh_ignores_other_document_or_line() {
    let mut menu = Some(menu_with(3));
    let update = CompletionUpdate { path: "/p/b.rs".to_string(), line: 0, col: 0, items: vec![raw("x")] };
    refresh_completion(&mut menu, update, "/p/a.rs", 0, "");
    assert_eq!(menu.as_ref().unwrap().items().len(), 3);
    let update = CompletionUpdate { path: "/p/a.rs".to_string(), line: 1, col: 0, items: vec![raw("x")] };
    refresh_completion(&mut menu, update, "/p/a.rs", 0, "");
    assert_eq!(menu.as_ref().unwrap().items().len(), 3);
    let update = CompletionUpdate { path: "/p/a.rs".to_string(), line: 0, col: 0, items: vec![raw("x")] };
    refresh_completion(&mut menu, update, "/p/a.rs", 0, "");
    assert_eq!(menu.as_ref().unwrap().items().len(), 1);
}

#[test]
fn menu_keys_move_and_scroll() {
    let mut menu = Some(menu_with(12));
    assert!(matches!(handle_completion_key(&mut menu, 0, MenuKey::Up), KeyResult::Consumed));
    assert_eq!(menu.as_ref().unwrap().selected(), 0);
    for _ in 0..9 {
        assert!(matches!(handle_completion_key(&mut menu, 0, MenuKey::Down), KeyResult::Consumed));
    }
    let st = menu.as_ref().unwrap();
    assert_eq!((st.selected(), st.scroll()), (9, 9 + 1 - COMPLETION_WINDOW_ROWS));
    for _ in 0..10 {
        handle_completion_key(&mut menu, 0, MenuKey::Down);
    }
    assert_eq!(menu.as_ref().unwrap().selected(), 11);
    for _ in 0..11 {
        handle_completion_key(&mut menu, 0, MenuKey::Up);
    }
    let st = menu.as_ref().unwrap();
    assert_eq!((st.selected(), st.scroll()), (0, 0));
}

#[test]
fn menu_enter_and_tab_accept_selected() {
    let mut menu = Some(menu_with(3));
    handle_completion_key(&mut menu, 0, MenuKey::Down);
    match handle_completion_key(&mut menu, 0, MenuKey::Enter) {
        KeyResult::Accepted(item) => assert_eq!(item.label, "item01"),
        other => panic!("unexpected {:?}", other),
    }
    assert!(menu.is_none());
    let mut menu = Some(menu_with(3));
    match handle_completion_key(&mut menu, 0, MenuKey::Tab) {
        KeyResult::Accepted(item) => assert_eq!(item.label, "item00"),
        other => panic!("unexpected {:?}", other),
    }
}

#[test]
fn menu_closes_on_escape_other_key_or_line_change() {
    let mut menu = Some(menu_with(3));
    assert!(matches!(handle_completion_key(&mut menu, 0, MenuKey::Esc), KeyResult::Consumed));
    assert!(menu.is_none());
    let mut menu = Some(menu_with(3));
    assert!(matches!(handle_completion_key(&mut menu, 0, MenuKey::Other), KeyResult::NotConsumed));
    assert!(menu.is_none());
    let mut menu = Some(menu_with(3));
    assert!(matches!(handle_completion_key(&mut menu, 1, MenuKey::Down), KeyResult::NotConsumed));
    assert!(menu.is_none());
    let mut none: Option<CompletionState> = None;
    assert!(matches!(handle_completion_key(&mut none, 0, MenuKey::Enter), KeyResult::NotConsumed));
}

#[test]
fn selection_visible_keeps_window() {
    let mut st = menu_with(12);
    ensure_selection_visible(&mut st);
    assert_eq!(st.scroll(), 0);
}

#[test]
fn apply_replaces_range_and_moves_cursor() {
    let update = CompletionUpdate { path: "/p".to_string(), line: 0, col: 6, items: vec![raw("bar")] };
    let st = build_completion(update, "foo.ba").unwrap();
    let (line, col) = apply_completion("foo.ba", &st.items()[0]);
    assert_eq!((line.as_str(), col), ("foo.bar", 7));
}

#[test]
fn apply_clamps_range_to_line() {
    let item = lspcomplete::items::CompletionItem {
        label: "x".to_string(),
        insert_text: "xyz".to_string(),
        match_text: "x".to_string(),
        replace_start_col: 2,
        replace_end_col: 1,
        sort_text: "x".to_string(),
    };
    assert_eq!(apply_completion("abcd", &item), ("abxyzcd".to_string(), 5));
    let far = lspcomplete::items::CompletionItem { replace_start_col: 10, replace_end_col: 20, ..item };
    assert_eq!(apply_completion("ab", &far), ("abxyz".to_string(), 5));
}

#[test]
fn menu_width_from_widest_shown_label() {
    let update = CompletionUpdate {
        path: "/p".to_string(),
        line: 0,
        col: 0,
        items: vec![raw("a"), raw("abcd"), raw("ab")],
    };
    let st = build_completion(update, "").unwrap();
    assert_eq!(completion_width(&st), 7);
}

#[test]
fn messages_routed_by_method_and_id() {
    let mut t = RequestTable::new();
    let id = t.register_completion("/a.rs".to_string(), 1, 2, 3);
    let r = route_message(&mut t, Some("textDocument/publishDiagnostics"), None, false);
    assert!(r.diagnostics && r.completion.is_none());
    let r = route_message(&mut t, Some("window/logMessage"), None, false);
    assert!(!r.diagnostics && r.completion.is_none());
    let r = route_message(&mut t, None, Some(id), false);
    assert!(r.completion.is_none());
    let r = route_message(&mut t, None, Some(id + 5), true);
    assert!(r.completion.is_none());
    let r = route_message(&mut t, None, Some(id), true);
    let p = r.completion.unwrap();
    assert_eq!((p.path.as_str(), p.version, p.line, p.col), ("/a.rs", 1, 2, 3));
    assert!(route_message(&mut t, None, Some(id), true).completion.is_none());
}
