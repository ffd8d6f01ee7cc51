use iq::ansi::{colors, parse_ansi_line, sgr_to_style, Color, Line, Style};
use iq::lines::{compute_offsets, visible_lines};

fn spans(l: &Line) -> Vec<(String, Style)> {
    l.spans.iter().map(|s| (s.text.clone(), s.style)).collect()
}

fn plain(t: &str) -> (String, Style) {
    (t.to_string(), Style::plain())
}

#[test]
fn codes_stand_for_styles() {
    assert_eq!(sgr_to_style("90"), Style::color(Color::DarkGray));
    assert_eq!(sgr_to_style("33"), Style::color(Color::Yellow));
    assert_eq!(sgr_to_style("32"), Style::color(Color::Green));
    assert_eq!(sgr_to_style("1;37"), Style::bold_color(Color::White));
    assert_eq!(sgr_to_style("1;36"), Style::bold_color(Color::Cyan));
    assert_eq!(sgr_to_style("0"), Style::plain());
    assert_eq!(sgr_to_style(""), Style::plain());
    assert_eq!(sgr_to_style("31"), Style::plain());
}

#[test]
fn each_kind_of_token_comes_back_in_its_style() {
    let p = colors();
    let kinds = [
        (p.null, Style::color(Color::DarkGray)),
        (p.bool_val, Style::color(Color::Yellow)),
        (p.number, Style::color(Color::Yellow)),
        (p.string, Style::color(Color::Green)),
        (p.array_bracket, Style::bold_color(Color::White)),
        (p.object_brace, Style::bold_color(Color::White)),
        (p.object_key, Style::bold_color(Color::Cyan)),
    ];
    for (code, style) in kinds {
        let line = format!("{}tök{}", code, p.reset);
        assert_eq!(spans(&parse_ansi_line(&line)), vec![("tök".to_string(), style)]);
    }
    assert_eq!(p.reset, "\u{1b}[0m");
    assert_eq!(p.null, "\u{1b}[90m");
}

#[test]
fn text_without_escapes_is_one_span() {
    assert_eq!(spans(&parse_ansi_line("a b")), vec![plain("a b")]);
    assert!(parse_ansi_line("").spans.is_empty());
    assert!(parse_ansi_line("\u{1b}[0m").spans.is_empty());
    assert_eq!(spans(&parse_ansi_line("\u{1b}x")), vec![plain("\u{1b}x")]);
    assert_eq!(spans(&parse_ansi_line("x\u{1b}")), vec![plain("x\u{1b}")]);
}

#[test]
fn escapes_split_a_line_and_its_text_is_kept() {
    let line = "  \u{1b}[1;36m\"k\"\u{1b}[0m: \u{1b}[33m1\u{1b}[0m,";
    let parsed = parse_ansi_line(line);
    assert_eq!(
        spans(&parsed),
        vec![
            plain("  "),
            ("\"k\"".to_string(), Style::bold_color(Color::Cyan)),
            plain(": "),
            ("1".to_string(), Style::color(Color::Yellow)),
            plain(","),
        ]
    );
    let text: String = parsed.spans.iter().map(|s| s.text.as_str()).collect();
    assert_eq!(text, "  \"k\": 1,");
}

#[test]
fn an_escape_without_an_end_is_shown_as_text() {
    assert_eq!(spans(&parse_ansi_line("\u{1b}[33")), vec![plain("\u{1b}[33")]);
    assert_eq!(
        spans(&parse_ansi_line("ab\u{1b}[33")),
        vec![plain("ab"), plain("ab\u{1b}[33")]
    );
}

#[test]
fn offsets_are_those_of_line_starts() {
    assert!(compute_offsets("").is_empty());
    assert_eq!(compute_offsets("a"), vec![0]);
    assert_eq!(compute_offsets("a\n"), vec![0, 2]);
    assert_eq!(compute_offsets("\n\n"), vec![0, 1, 2]);
    assert_eq!(compute_offsets("é\nb\nc"), vec![0, 3, 5]);
}

#[test]
fn the_lines_in_view_are_cut_out() {
    let text = "é1\n\nthree\nfour";
    let offsets = compute_offsets(text);
    let all = visible_lines(text, &offsets, 0, 100);
    assert_eq!(all.len(), 4);
    assert_eq!(spans(&all[0]), vec![plain("é1")]);
    assert!(all[1].spans.is_empty());
    assert_eq!(spans(&all[3]), vec![plain("four")]);
    let two = visible_lines(text, &offsets, 1, 2);
    assert_eq!(two.len(), 2);
    assert_eq!(spans(&two[1]), vec![plain("three")]);
    assert!(visible_lines(text, &offsets, 4, 2).is_empty());
    assert!(visible_lines(text, &offsets, 2, 0).is_empty());
    assert!(visible_lines("", &[], 0, 5).is_empty());
}
