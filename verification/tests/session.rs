use iq::app::{Action, App, EvalResult};
use iq::engine::Document;
use iq::event::{handle_event, Event, Key, Mouse};
use std::sync::Arc;

fn open(json: &str, history: &[&str]) -> App {
    let document = match Document::parse(json) {
        Ok(d) => d,
        Err(e) => panic!("{}", e),
    };
    App::new(
        Arc::new(document),
        json.to_string(),
        "f.json".to_string(),
        4,
        history.iter().map(|s| s.to_string()).collect(),
    )
}

fn users() -> App {
    open(
        "{\"user\": {\"name\": \"a\", \"age\": 3}, \"users\": [{\"id\": 1}], \"zeta\": null}",
        &[".z"],
    )
}

fn press(app: &mut App, code: Key) -> Action {
    handle_event(app, Event::Key { code, control: false })
}

fn type_in(app: &mut App, text: &str) {
    for c in text.chars() {
        press(app, Key::Char(c));
    }
}

fn put(app: &mut App, input: &str, cursor: usize) {
    app.input = input.to_string();
    app.cursor = cursor;
    app.popup = None;
}

fn items(app: &App) -> Vec<String> {
    match &app.popup {
        Some(p) => p.items.clone(),
        None => Vec::new(),
    }
}

fn runs(action: &Action, text: &str) -> bool {
    matches!(action, Action::Evaluate(s) if s == text)
}

fn idle(action: &Action) -> bool {
    matches!(action, Action::Idle)
}

#[test]
fn a_session_begins_with_the_document() {
    let app = open("[1, 2, 3]", &[".a"]);
    assert_eq!(app.result_count, 3);
    assert_eq!(app.eval_duration, Some(0));
    assert_eq!(app.error, None);
    assert_eq!(app.line_offsets.len(), 5);
    assert_eq!((app.input.as_str(), app.cursor, app.scroll), ("", 0, 0));
    assert_eq!(app.history, vec![".a"]);
    assert_eq!(app.history_idx, None);
    assert!(app.running && !app.show_debug);
    assert_eq!(&items(&app)[..2], &[".[]", "empty"]);
}

#[test]
fn typing_runs_the_filter_and_offers_completions() {
    let mut app = users();
    let a = press(&mut app, Key::Char('.'));
    assert!(runs(&a, "."));
    assert_eq!(items(&app), vec!["user", "users", "zeta"]);
    let a = press(&mut app, Key::Char('u'));
    assert!(runs(&a, ".u"));
    assert_eq!((app.input.as_str(), app.cursor), (".u", 2));
    assert_eq!(items(&app), vec!["user", "users"]);
}

#[test]
fn characters_are_typed_at_the_cursor() {
    let mut app = open("{}", &[]);
    put(&mut app, "ab", 1);
    let a = press(&mut app, Key::Char('x'));
    assert!(runs(&a, "axb"));
    assert_eq!((app.input.as_str(), app.cursor), ("axb", 2));
}

#[test]
fn backspace_undoes_typing() {
    let mut app = users();
    put(&mut app, ".é.", 3);
    let a = press(&mut app, Key::Char('q'));
    assert!(runs(&a, ".éq."));
    let a = press(&mut app, Key::Backspace);
    assert!(runs(&a, ".é."));
    assert_eq!((app.input.as_str(), app.cursor), (".é.", 3));
}

#[test]
fn backspace_is_left_and_delete() {
    let mut one = users();
    put(&mut one, ".user", 3);
    press(&mut one, Key::Backspace);
    let mut two = users();
    put(&mut two, ".user", 3);
    press(&mut two, Key::Left);
    press(&mut two, Key::Delete);
    assert_eq!(one.input, ".uer");
    assert_eq!((one.input, one.cursor), (two.input, two.cursor));
}

#[test]
fn deleting_at_the_edges_runs_nothing() {
    let mut app = users();
    assert!(app.popup.is_some());
    assert!(idle(&press(&mut app, Key::Backspace)));
    assert!(app.popup.is_none());
    put(&mut app, ".é", 3);
    app.history_idx = Some(0);
    assert!(idle(&press(&mut app, Key::Delete)));
    assert_eq!((app.input.as_str(), app.cursor, app.history_idx), (".é", 3, None));
    app.cursor = 1;
    assert!(runs(&press(&mut app, Key::Delete), "."));
}

#[test]
fn cursor_keys_move_and_run_nothing() {
    let mut app = users();
    put(&mut app, ".us", 3);
    assert!(idle(&press(&mut app, Key::Left)));
    assert_eq!(app.cursor, 2);
    assert_eq!(items(&app), vec!["user", "users"]);
    assert!(idle(&press(&mut app, Key::Right)));
    assert_eq!(app.cursor, 3);
    press(&mut app, Key::Right);
    assert_eq!(app.cursor, 3);
    press(&mut app, Key::Home);
    assert_eq!(app.cursor, 0);
    press(&mut app, Key::Left);
    assert_eq!(app.cursor, 0);
    press(&mut app, Key::End);
    assert_eq!((app.cursor, app.input.as_str()), (3, ".us"));
}

#[test]
fn a_list_stays_where_nothing_new_is_offered() {
    let mut app = users();
    type_in(&mut app, ".u");
    app.input = ".u)".to_string();
    press(&mut app, Key::End);
    assert_eq!(items(&app), vec!["user", "users"]);
}

#[test]
fn the_cursor_moves_by_whole_characters() {
    let mut app = open("null", &[]);
    put(&mut app, "é", 2);
    press(&mut app, Key::Left);
    assert_eq!((app.input.as_str(), app.cursor), ("é", 0));
    press(&mut app, Key::Right);
    assert_eq!((app.input.as_str(), app.cursor), ("é", 2));
    put(&mut app, "a\u{1f600}.", 5);
    press(&mut app, Key::Left);
    assert_eq!(app.cursor, 1);
    press(&mut app, Key::Right);
    press(&mut app, Key::Right);
    assert_eq!(app.cursor, 6);
    press(&mut app, Key::Right);
    assert_eq!(app.cursor, 6);
    handle_event(&mut app, Event::Resize);
    handle_event(&mut app, Event::Other);
    assert_eq!(app.cursor, 6);
}

#[test]
fn whole_characters_are_typed_and_deleted() {
    let mut app = open("null", &[]);
    put(&mut app, "é", 2);
    assert!(runs(&app.delete_before(), ""));
    assert_eq!((app.input.as_str(), app.cursor), ("", 0));
    assert!(runs(&press(&mut app, Key::Char('\u{1f600}')), "\u{1f600}"));
    assert_eq!(app.cursor, 4);
    assert!(runs(&press(&mut app, Key::Char('ü')), "\u{1f600}ü"));
    assert_eq!(app.cursor, 6);
    assert!(runs(&press(&mut app, Key::Backspace), "\u{1f600}"));
    assert_eq!(app.cursor, 4);
    press(&mut app, Key::Home);
    assert!(runs(&press(&mut app, Key::Delete), ""));
}

#[test]
fn control_and_escape_end_the_session() {
    for c in ['c', 'd'] {
        let mut app = users();
        let a = handle_event(&mut app, Event::Key { code: Key::Char(c), control: true });
        assert!(idle(&a) && !app.running);
        assert_eq!(app.input, "");
    }
    let mut app = users();
    press(&mut app, Key::Esc);
    assert!(app.running && app.popup.is_none());
    press(&mut app, Key::Esc);
    assert!(!app.running);
}

#[test]
fn other_control_keys_type_their_character() {
    let mut app = users();
    let a = handle_event(&mut app, Event::Key { code: Key::Char('x'), control: true });
    assert!(runs(&a, "x"));
    press(&mut app, Key::Char('c'));
    assert_eq!(app.input, "xc");
}

#[test]
fn the_debug_overlay_toggles() {
    let mut app = users();
    press(&mut app, Key::F(1));
    assert!(app.show_debug);
    press(&mut app, Key::F(2));
    assert!(app.show_debug);
    press(&mut app, Key::F(1));
    assert!(!app.show_debug);
}

#[test]
fn enter_accepts_the_selected_completion() {
    let mut app = users();
    type_in(&mut app, ".u");
    press(&mut app, Key::Tab);
    let a = press(&mut app, Key::Enter);
    assert!(runs(&a, ".users"));
    assert_eq!(app.cursor, 6);
    // What was accepted is completed in turn.
    assert_eq!(items(&app), vec!["[]"]);
    let a = press(&mut app, Key::Char('\r'));
    assert!(runs(&a, ".users[]"));
    assert_eq!(items(&app), vec![".id"]);
    let a = press(&mut app, Key::Char('\n'));
    assert!(runs(&a, ".users[].id"));
    assert_eq!(app.cursor, 11);
}

#[test]
fn a_name_replaces_the_word_before_the_cursor() {
    let mut app = users();
    put(&mut app, ".a | .us | .b", 8);
    app.history_idx = Some(0);
    app.open_completion();
    assert_eq!(items(&app), vec!["user", "users"]);
    let a = app.accept_completion();
    assert!(runs(&a, ".a | .user | .b"));
    assert_eq!(app.cursor, 10);
    assert_eq!(&app.input[..app.cursor], ".a | .user");
    assert_eq!(app.history_idx, None);
}

#[test]
fn a_completion_with_a_dot_is_put_at_the_cursor() {
    let mut app = open("{\"k\": {\"x\": 1}}", &[]);
    put(&mut app, ".k", 2);
    app.open_completion();
    assert_eq!(items(&app), vec![".x"]);
    let a = app.accept_completion();
    assert!(runs(&a, ".k.x"));
    assert_eq!(app.cursor, 4);
    app.popup = None;
    assert!(idle(&app.accept_completion()));
    assert_eq!(app.input, ".k.x");
}

#[test]
fn a_call_is_completed_from_the_first_element() {
    let mut app = open("[{\"k\": 1, \"kk\": 2}]", &[]);
    put(&mut app, "map(", 4);
    app.open_completion();
    assert_eq!(&items(&app)[..3], &[".k", ".kk", ".empty"]);
    assert_eq!(items(&app).len(), 22);
    put(&mut app, "map(.k", 6);
    app.open_completion();
    assert_eq!(items(&app), vec!["kk"]);
    put(&mut app, "map(select(.a) | .", 18);
    app.open_completion();
    assert_eq!(items(&app), vec!["k", "kk"]);
    put(&mut app, "map(.k)", 7);
    app.open_completion();
    assert!(app.popup.is_none());
}

#[test]
fn a_closed_call_is_no_call() {
    let mut app = open("[{\"k\": 1}]", &[]);
    put(&mut app, "map(.k) | .", 11);
    app.open_completion();
    assert_eq!(items(&app), vec!["k"]);
    put(&mut app, ")(", 2);
    app.open_completion();
    assert_eq!(items(&app)[0], ".k");
}

#[test]
fn the_selection_goes_round_and_stays_in_view() {
    let mut app = users();
    let n = items(&app).len();
    assert_eq!(n, 23);
    for step in 1..=n {
        press(&mut app, Key::Down);
        let p = match &app.popup {
            Some(p) => p,
            None => panic!("closed"),
        };
        assert_eq!(p.selected, step % n);
        assert!(p.scroll_off <= p.selected && p.selected < p.scroll_off + 5);
    }
    press(&mut app, Key::Up);
    match &app.popup {
        Some(p) => assert_eq!((p.selected, p.scroll_off), (22, 18)),
        None => panic!("closed"),
    }
    press(&mut app, Key::Char('\t'));
    match &app.popup {
        Some(p) => assert_eq!((p.selected, p.scroll_off), (0, 0)),
        None => panic!("closed"),
    }
}

#[test]
fn up_undoes_down_in_the_list() {
    let mut app = users();
    for _ in 0..7 {
        press(&mut app, Key::Tab);
    }
    press(&mut app, Key::Down);
    press(&mut app, Key::Up);
    match &app.popup {
        Some(p) => assert_eq!((p.selected, p.scroll_off), (7, 4)),
        None => panic!("closed"),
    }
}

#[test]
fn tab_opens_the_list() {
    let mut app = users();
    app.popup = None;
    press(&mut app, Key::Tab);
    assert_eq!(items(&app).len(), 23);
    app.popup = None;
    app.cycle_completion(false);
    assert_eq!(items(&app).len(), 23);
    app.popup = None;
    assert!(idle(&press(&mut app, Key::Enter)));
    assert_eq!(items(&app).len(), 23);
}

#[test]
fn what_is_entered_is_remembered_once() {
    let mut app = open("{}", &[".a"]);
    app.popup = None;
    type_in(&mut app, " .x ");
    assert!(app.popup.is_none());
    app.history_idx = Some(0);
    let a = press(&mut app, Key::Enter);
    assert!(matches!(&a, Action::Remember(s) if s == ".x"));
    assert_eq!(app.history, vec![".a", ".x"]);
    assert_eq!(app.history_idx, None);
    assert_eq!(app.input, " .x ");
    assert!(idle(&press(&mut app, Key::Enter)));
    assert_eq!(app.history.len(), 2);
    put(&mut app, "  ", 2);
    assert!(idle(&press(&mut app, Key::Enter)));
    assert_eq!(app.history.len(), 2);
    put(&mut app, ".a", 2);
    assert!(matches!(app.push_history(), Action::Remember(_)));
    assert_eq!(app.history, vec![".a", ".x", ".a"]);
}

#[test]
fn the_history_is_stepped_through() {
    let mut app = open("{}", &[".a", ".bé"]);
    app.popup = None;
    let a = press(&mut app, Key::Up);
    assert!(runs(&a, ".bé"));
    assert_eq!((app.cursor, app.history_idx), (4, Some(1)));
    // With something typed the keys do nothing.
    assert!(idle(&press(&mut app, Key::Up)));
    assert_eq!(app.input, ".bé");
    assert!(runs(&app.history_up(), ".a"));
    assert_eq!(app.history_idx, Some(0));
    assert!(idle(&app.history_up()));
    assert_eq!(app.input, ".a");
    assert!(runs(&app.history_down(), ".bé"));
    assert_eq!((app.cursor, app.history_idx), (4, Some(1)));
    assert!(runs(&app.history_down(), ""));
    assert_eq!((app.cursor, app.history_idx), (0, None));
    assert!(idle(&app.history_down()));
}

#[test]
fn an_empty_history_has_no_entries() {
    let mut app = open("{}", &[]);
    app.popup = None;
    assert!(idle(&press(&mut app, Key::Up)));
    assert!(idle(&press(&mut app, Key::Down)));
    assert_eq!((app.input.as_str(), app.history_idx), ("", None));
}

#[test]
fn keys_and_the_wheel_scroll() {
    let mut app = users();
    app.max_scroll = 15;
    press(&mut app, Key::PageDown);
    assert_eq!(app.scroll, 10);
    press(&mut app, Key::PageDown);
    assert_eq!(app.scroll, 15);
    handle_event(&mut app, Event::Mouse(Mouse::ScrollUp));
    assert_eq!(app.scroll, 12);
    handle_event(&mut app, Event::Mouse(Mouse::ScrollDown));
    assert_eq!(app.scroll, 15);
    handle_event(&mut app, Event::Mouse(Mouse::Other));
    assert_eq!(app.scroll, 15);
    press(&mut app, Key::PageUp);
    assert_eq!(app.scroll, 5);
    press(&mut app, Key::PageUp);
    assert_eq!(app.scroll, 0);
    app.scroll_page_down(usize::MAX);
    assert_eq!(app.scroll, 15);
    app.scroll_page_up(4);
    assert_eq!(app.scroll, 11);
}

#[test]
fn results_replace_what_is_shown() {
    let mut app = users();
    app.max_scroll = 4;
    app.scroll = 3;
    assert!(!app.poll_eval(vec![]));
    assert_eq!(app.scroll, 3);
    let first = EvalResult {
        text: "1".to_string(),
        count: 1,
        error: None,
        duration: 1,
    };
    let second = EvalResult {
        text: "a\nb".to_string(),
        count: 2,
        error: Some("bad".to_string()),
        duration: 2500,
    };
    assert!(app.poll_eval(vec![first, second]));
    assert_eq!(app.result_text, "a\nb");
    assert_eq!(app.line_offsets, vec![0, 2]);
    assert_eq!((app.result_count, app.scroll), (2, 0));
    assert_eq!(app.error, Some("bad".to_string()));
    assert_eq!(app.eval_duration, Some(2500));
    app.eval_sync();
    assert_eq!((app.result_count, app.error, app.eval_duration), (1, None, Some(0)));
}

#[test]
fn the_filter_is_run_as_it_stands() {
    let mut app = users();
    put(&mut app, " .a ", 2);
    assert!(runs(&app.eval_async(), " .a "));
    assert!(runs(&app.after_edit(), " .a "));
    app.after_cursor();
    assert_eq!(app.input, " .a ");
}
