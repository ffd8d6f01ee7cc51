use iq::ansi::{Color, Line, Style};
use iq::app::App;
use iq::engine::Document;
use iq::screen::{can_draw, compose, make_input_prompt, ui, Borders, Rect};
use std::sync::Arc;

fn start(json: &str, preview: &str) -> App {
    let document = match Document::parse(json) {
        Ok(d) => d,
        Err(e) => panic!("{}", e),
    };
    App::new(
        Arc::new(document),
        preview.to_string(),
        "f.json".to_string(),
        4,
        Vec::new(),
    )
}

fn hundred() -> App {
    let numbers: Vec<String> = (0..100).map(|n| n.to_string()).collect();
    start(&format!("[{}]", numbers.join(",")), "[0,1")
}

fn text(l: &Line) -> String {
    l.spans.iter().map(|s| s.text.as_str()).collect()
}

fn area(x: u16, y: u16, width: u16, height: u16) -> Rect {
    Rect { x, y, width, height }
}

#[test]
fn the_screen_is_divided() {
    let mut app = hundred();
    let s = ui(&mut app, area(0, 0, 80, 24));
    assert!(s.debug.is_none());
    assert_eq!(s.results.area, area(0, 0, 80, 12));
    assert_eq!(s.input.area, area(0, 20, 80, 4));
    match &s.popup {
        Some(p) => assert_eq!(p.area, area(0, 12, 80, 8)),
        None => panic!("closed"),
    }
    app.popup = None;
    app.show_debug = true;
    let s = ui(&mut app, area(3, 2, 40, 30));
    match &s.debug {
        Some(d) => assert_eq!(d.area, area(3, 2, 40, 6)),
        None => panic!("hidden"),
    }
    assert_eq!(s.results.area, area(3, 8, 40, 20));
    assert!(s.popup.is_none());
    assert_eq!(s.input.area, area(3, 28, 40, 4));
}

#[test]
fn the_results_have_the_rows_that_are_left() {
    let mut app = hundred();
    app.show_debug = true;
    // Six rows for the overlay, eight for the list, four for the input, and one.
    let s = ui(&mut app, area(0, 5, 20, 19));
    assert_eq!(s.results.area, area(0, 11, 20, 1));
    assert_eq!(s.input.area, area(0, 20, 20, 4));
    let s = ui(&mut app, area(0, 0, 20, 0));
    assert_eq!((s.results.area.width, s.results.lines.len()), (20, 0));
}

#[test]
fn what_can_be_drawn() {
    let mut app = hundred();
    assert!(can_draw(&app));
    app.input = ".é".to_string();
    app.cursor = 1;
    assert!(can_draw(&app));
    app.filename = "x".repeat(65520);
    assert!(!can_draw(&app));
    app.error = Some("bad".to_string());
    assert!(can_draw(&app));
}

#[test]
fn the_view_is_full_and_stops_at_the_end() {
    let mut app = hundred();
    assert_eq!(app.line_offsets.len(), 102);
    let s = ui(&mut app, area(0, 0, 80, 24));
    assert_eq!(app.max_scroll, 90);
    assert_eq!(s.results.lines.len(), 12);
    assert_eq!(text(&s.results.lines[0]), "[");
    assert_eq!(text(&s.results.lines[1]), "    0,");
    app.max_scroll = 1000;
    app.scroll = 1000;
    let s = ui(&mut app, area(0, 0, 80, 24));
    assert_eq!(app.scroll, 90);
    assert_eq!(s.results.lines.len(), 12);
    assert_eq!(text(&s.results.lines[11]), "]");
    assert_eq!(s.results.borders, Borders::Bare);
    let mut app = start("1", "1");
    let s = ui(&mut app, area(0, 0, 80, 24));
    assert_eq!((app.max_scroll, s.results.lines.len()), (0, 1));
}

#[test]
fn the_list_shows_five_and_how_many_more() {
    let mut app = hundred();
    let s = ui(&mut app, area(0, 0, 80, 24));
    let p = match s.popup {
        Some(p) => p,
        None => panic!("closed"),
    };
    let shown: Vec<String> = p.lines.iter().map(text).collect();
    assert_eq!(
        shown,
        vec!["> .[]", "  empty", "  length", "  keys", "  has", "  \u{2026} 16 more"]
    );
    let reversed = Style { fg: None, bold: false, reversed: true };
    assert_eq!(p.lines[0].spans[0].style, reversed);
    assert_eq!(p.lines[1].spans[0].style, Style::plain());
    assert_eq!(p.lines[5].spans[0].style, Style::color(Color::DarkGray));
    assert_eq!((p.title, p.borders, p.border), (" Keys ", Borders::All, Style::color(Color::Cyan)));
    for _ in 0..20 {
        app.cycle_completion(true);
    }
    let s = ui(&mut app, area(0, 0, 80, 24));
    match s.popup {
        Some(p) => {
            assert_eq!(p.lines.len(), 5);
            assert_eq!(text(&p.lines[4]), "> false");
            assert_eq!(p.area.height, 8);
        }
        None => panic!("closed"),
    }
}

#[test]
fn a_short_list_is_shown_whole() {
    let mut app = start("{\"a\": 1, \"b\": 2}", "");
    app.insert_char('.');
    let s = ui(&mut app, area(0, 0, 80, 24));
    match s.popup {
        Some(p) => {
            assert_eq!(p.area.height, 4);
            let shown: Vec<String> = p.lines.iter().map(text).collect();
            assert_eq!(shown, vec!["> a", "  b"]);
        }
        None => panic!("closed"),
    }
}

#[test]
fn the_debug_overlay_tells_the_state() {
    let mut app = start("{\"a\": 1}", "{\"a\"\t");
    app.show_debug = true;
    let s = ui(&mut app, area(0, 0, 80, 24));
    let d = match s.debug {
        Some(d) => d,
        None => panic!("hidden"),
    };
    let shown: Vec<String> = d.lines.iter().map(text).collect();
    assert_eq!(
        shown,
        vec![
            "raw: \"{\\\"a\\\"\\t\"",
            "type: object, completions: 21",
            "input: \"\"",
            "popup: true",
        ]
    );
    assert_eq!((d.title, d.borders, d.border), (" Debug (F1) ", Borders::All, Style::plain()));
    app.popup = None;
    let s = ui(&mut app, area(0, 0, 80, 24));
    match s.debug {
        Some(d) => assert_eq!(text(&d.lines[3]), "popup: false"),
        None => panic!("hidden"),
    }
}

#[test]
fn the_prompt_shows_the_cursor() {
    let mut app = start("1", "");
    app.input = ".ab".to_string();
    app.cursor = 1;
    let lines = make_input_prompt(&app, 5);
    let spans: Vec<&str> = lines[0].spans.iter().map(|s| s.text.as_str()).collect();
    assert_eq!(spans, vec!["> ", ".", "a", "b"]);
    assert_eq!(lines[0].spans[0].style, Style::color(Color::Green));
    assert_eq!(lines[0].spans[2].style, Style { fg: None, bold: false, reversed: true });
    assert_eq!(text(&lines[1]), "\u{2500}".repeat(5));
    app.cursor = 3;
    let lines = make_input_prompt(&app, 5);
    assert_eq!(text(&lines[0]), "> .ab ");
    app.input = "éab".to_string();
    let lines = make_input_prompt(&app, 5);
    let spans: Vec<&str> = lines[0].spans.iter().map(|s| s.text.as_str()).collect();
    assert_eq!(spans, vec!["> ", "éa", "b"]);
    app.cursor = 0;
    let lines = make_input_prompt(&app, 5);
    let spans: Vec<&str> = lines[0].spans.iter().map(|s| s.text.as_str()).collect();
    assert_eq!(spans, vec!["> ", "é", "ab"]);
    app.input = String::new();
    assert_eq!(make_input_prompt(&app, 0)[0].spans.len(), 2);
}

#[test]
fn the_status_line_has_the_file_and_the_results() {
    let mut app = hundred();
    let lines = make_input_prompt(&app, 80);
    let expected = format!("f.json {}100 results \u{2022} 0ms", " ".repeat(56));
    assert_eq!(text(&lines[2]), expected);
    assert_eq!(expected.chars().count(), 80);
    // Where there is no room, one more column stays between the two.
    assert_eq!(text(&make_input_prompt(&app, 3)[2]), "f.json  100 results \u{2022} 0ms");
    app.eval_duration = Some(1999);
    app.result_count = 0;
    assert_eq!(text(&make_input_prompt(&app, 3)[2]), "f.json  1ms");
    app.eval_duration = None;
    assert_eq!(text(&make_input_prompt(&app, 80)[2]), "f.json");
    app.result_count = 7;
    assert_eq!(text(&make_input_prompt(&app, 3)[2]), "f.json  7 results");
    assert_eq!(lines[2].spans[0].style, Style::color(Color::DarkGray));
}

#[test]
fn what_went_wrong_takes_the_status_line() {
    let mut app = hundred();
    app.error = Some("bad".to_string());
    let lines = make_input_prompt(&app, 80);
    assert_eq!(text(&lines[2]), "  (bad)");
    assert_eq!(lines[2].spans[0].style, Style::color(Color::Red));
    assert_eq!(lines[0].spans[0].style, Style::color(Color::Red));
}

#[test]
fn panes_are_drawn_where_they_are_told() {
    let mut app = hundred();
    app.popup = None;
    let chunks = vec![area(0, 0, 10, 3), area(0, 3, 10, 4)];
    let s = compose(&mut app, &chunks);
    assert_eq!(app.max_scroll, 99);
    assert_eq!(s.results.lines.len(), 3);
    assert_eq!(s.results.area, chunks[0]);
    assert_eq!(s.input.area, chunks[1]);
    assert_eq!(text(&s.input.lines[1]), "\u{2500}".repeat(10));
    assert_eq!((s.input.borders, s.input.border), (Borders::Top, Style::color(Color::DarkGray)));
    assert_eq!(s.input.title, "");
}
