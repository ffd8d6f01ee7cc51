//! What is drawn: the panes of the screen and the lines in them.

use crate::ansi::{colored, line_views, plain_style, spans_of, Color, Line, Span, Style};
use crate::app::{App, Menu, Popup, State, MENU_ROWS};
use crate::complete::{completions, get_completions, smaller};
use crate::engine::{spaces, spaces_text};
use crate::lines::{law_lines, line_at, visible_lines, window};
use crate::text::{
    boundary, byte_len, chars_of, cut, decimal, decimal_text, head, size, tail, text_of, texts,
};
use vstd::prelude::*;

verus! {

/// The height of the input pane.
pub const INPUT_ROWS: u16 = 4;

/// The height of the debug overlay.
pub const DEBUG_ROWS: u16 = 6;

/// A rectangle of the screen.
#[derive(Debug, Clone, Copy, PartialEq, Eq, Structural)]
pub struct Rect {
    pub x: u16,
    pub y: u16,
    pub width: u16,
    pub height: u16,
}

/// How high a pane is to be.
#[derive(Debug, Clone, Copy, PartialEq, Eq, Structural)]
pub enum Constraint {
    Length(u16),
    Min(u16),
}

/// The sides of a pane that have a border.
#[derive(Debug, Clone, Copy, PartialEq, Eq, Structural)]
pub enum Borders {
    Bare,
    All,
    Top,
}

/// A rectangle with lines of text in it.
#[derive(Debug)]
pub struct Pane {
    pub area: Rect,
    pub lines: Vec<Line>,
    pub borders: Borders,
    pub title: &'static str,
    pub border: Style,
}

/// The model of a [`Pane`].
#[verifier::ext_equal]
pub struct PaneView {
    pub area: Rect,
    pub lines: Seq<Seq<(Seq<char>, Style)>>,
    pub borders: Borders,
    pub title: Seq<char>,
    pub border: Style,
}

impl View for Pane {
    type V = PaneView;

    open spec fn view(&self) -> PaneView {
        PaneView {
            area: self.area,
            lines: line_views(self.lines@),
            borders: self.borders,
            title: self.title@,
            border: self.border,
        }
    }
}

/// All that is drawn.
#[derive(Debug)]
pub struct Screen {
    pub debug: Option<Pane>,
    pub results: Pane,
    pub popup: Option<Pane>,
    pub input: Pane,
}

/// The style of the cursor and of the selected completion.
pub open spec fn reversed_style() -> Style {
    Style { fg: None, bold: false, reversed: true }
}

/// A line in one style.
pub open spec fn line_of(text: Seq<char>, style: Style) -> Seq<(Seq<char>, Style)> {
    seq![(text, style)]
}

/// Makes a line in one style.
fn line_in(text: String, style: Style) -> (r: Line)
    ensures
        r@ == line_of(text@, style),
{
    let mut spans: Vec<Span> = Vec::new();
    spans.push(Span { text, style });
    let r = Line { spans };
    assert(r@ =~= line_of(text@, style));
    r
}

/// The line with the filter in it, red if something is wrong with it.
pub open spec fn filter_line(s: State) -> Seq<(Seq<char>, Style)> {
    let before = head(s.input, s.cursor);
    let after = tail(s.input, s.cursor);
    let mark = seq![
        (
            "> "@,
            colored(
                if s.error is Some {
                    Color::Red
                } else {
                    Color::Green
                },
            ),
        ),
    ];
    let lead = if before.len() > 0 {
        mark.push((before, plain_style()))
    } else {
        mark
    };
    let under = seq![
        if after.len() > 0 {
            after[0]
        } else {
            ' '
        },
    ];
    let main = lead.push((under, reversed_style()));
    if after.len() > 1 {
        main.push((after.drop_first(), plain_style()))
    } else {
        main
    }
}

/// A duration in milliseconds.
pub open spec fn millis(micros: u128) -> Seq<char> {
    decimal((micros / 1000) as nat) + "ms"@
}

/// How many results there are, and how long they took.
pub open spec fn info(s: State) -> Seq<char> {
    match s.eval_duration {
        Some(d) => if s.result_count == 0 {
            millis(d)
        } else {
            decimal(s.result_count) + " results \u{2022} "@ + millis(d)
        },
        None => if s.result_count > 0 {
            decimal(s.result_count) + " results"@
        } else {
            Seq::empty()
        },
    }
}

/// The number of columns between the file name and the results, besides the one that is always
/// there.
pub open spec fn gap(s: State, width: u16) -> nat {
    let taken = (s.filename.len() as u16) + (info(s).len() as u16) + 1;
    if width <= taken + 1 {
        1
    } else {
        (width - taken) as nat
    }
}

/// The line with the file name on the left and the results on the right, or with what went wrong.
pub open spec fn status_line(s: State, width: u16) -> Seq<(Seq<char>, Style)> {
    match s.error {
        Some(e) => line_of("  ("@ + e + ")"@, colored(Color::Red)),
        None => if info(s).len() == 0 {
            line_of(s.filename, colored(Color::DarkGray))
        } else {
            line_of(
                s.filename.push(' ') + spaces(gap(s, width)) + info(s),
                colored(Color::DarkGray),
            )
        },
    }
}

/// `n` times the character of a rule.
pub open spec fn rule(n: nat) -> Seq<char> {
    Seq::new(n, |i: int| '\u{2500}')
}

/// The lines of the input pane.
pub open spec fn prompt(s: State, width: u16) -> Seq<Seq<(Seq<char>, Style)>> {
    seq![
        filter_line(s),
        line_of(rule(width as nat), colored(Color::DarkGray)),
        status_line(s, width),
    ]
}

/// The cursor stands between two characters, and the widths in the status line add up within the
/// range of `u16`.
pub open spec fn prompt_fits(s: State) -> bool {
    &&& boundary(s.input, s.cursor)
    &&& s.error is None && info(s).len() > 0 ==> (s.filename.len() as u16) + (info(s).len() as u16)
        + 1 <= u16::MAX
}

/// A duration in milliseconds.
fn millis_text(micros: u128) -> (r: String)
    ensures
        r@ == millis(micros),
{
    let mut r = decimal_text(micros / 1000);
    r.append("ms");
    r
}

/// How many results there are, and how long they took.
fn info_text(app: &App) -> (r: String)
    ensures
        r@ == info(app@),
{
    match app.eval_duration {
        Some(d) => {
            if app.result_count == 0 {
                millis_text(d)
            } else {
                let mut r = decimal_text(app.result_count as u128);
                r.append(" results \u{2022} ");
                r.append(millis_text(d).as_str());
                r
            }
        },
        None => {
            if app.result_count > 0 {
                let mut r = decimal_text(app.result_count as u128);
                r.append(" results");
                r
            } else {
                String::new()
            }
        },
    }
}

/// The line with the filter in it.
fn filter_row(app: &App) -> (r: Line)
    requires
        boundary(app@.input, app@.cursor),
    ensures
        r@ == filter_line(app@),
{
    let (before, after) = cut(app.input.as_str(), app.cursor);
    let chars = chars_of(after);
    let n = chars.len();
    let color = match app.error {
        Some(_) => Color::Red,
        None => Color::Green,
    };
    let mut spans: Vec<Span> = Vec::new();
    spans.push(Span { text: "> ".to_owned(), style: Style::color(color) });
    if !before.is_empty() {
        spans.push(Span { text: before.to_owned(), style: Style::plain() });
    }
    let mut under = String::new();
    under.push(
        if n > 0 {
            chars[0]
        } else {
            ' '
        },
    );
    spans.push(Span { text: under, style: Style { fg: None, bold: false, reversed: true } });
    if n > 1 {
        let rest = text_of(&chars, 1, n);
        assert(rest@ =~= after@.drop_first());
        spans.push(Span { text: rest, style: Style::plain() });
    }
    let r = Line { spans };
    assert(r@ =~= filter_line(app@));
    r
}

/// The line with the file name and the results, or with what went wrong.
fn status_row(app: &App, width: u16) -> (r: Line)
    requires
        prompt_fits(app@),
    ensures
        r@ == status_line(app@, width),
{
    match &app.error {
        Some(e) => {
            let mut text = "  (".to_owned();
            text.append(e.as_str());
            text.append(")");
            line_in(text, Style::color(Color::Red))
        },
        None => {
            let info = info_text(app);
            if info.as_str().is_empty() {
                return line_in(app.filename.clone(), Style::color(Color::DarkGray));
            }
            let fw = #[verifier::truncate] (chars_of(app.filename.as_str()).len() as u16);
            let iw = #[verifier::truncate] (chars_of(info.as_str()).len() as u16);
            let taken: u16 = fw + iw + 1;
            let free: u16 = width.saturating_sub(taken);
            let pad: usize = if free >= 1 {
                free as usize
            } else {
                1
            };
            let mut text = app.filename.clone();
            text.push(' ');
            text.append(spaces_text(pad).as_str());
            text.append(info.as_str());
            line_in(text, Style::color(Color::DarkGray))
        },
    }
}

/// The lines of the input pane.
pub fn make_input_prompt(app: &App, width: u16) -> (r: Vec<Line>)
    requires
        prompt_fits(app@),
    ensures
        line_views(r@) == prompt(app@, width),
{
    let mut sep = String::new();
    let mut i: u16 = 0;
    while i < width
        invariant
            i <= width,
            sep@ =~= rule(i as nat),
        decreases width - i,
    {
        sep.push('\u{2500}');
        i += 1;
    }
    let mut lines: Vec<Line> = Vec::new();
    lines.push(filter_row(app));
    lines.push(line_in(sep, Style::color(Color::DarkGray)));
    lines.push(status_row(app, width));
    assert(line_views(lines@) =~= prompt(app@, width));
    lines
}

/// The number of rows that the popup takes: its items, a row that says how many more there are,
/// and two borders.
pub open spec fn popup_rows(total: nat) -> u16 {
    if total > MENU_ROWS {
        (MENU_ROWS + 3) as u16
    } else {
        (total + 2) as u16
    }
}

/// The panes from top to bottom: the debug overlay, the results, the popup, the input.
pub open spec fn plan(s: State) -> Seq<Constraint> {
    let top = if s.show_debug {
        seq![Constraint::Length(DEBUG_ROWS), Constraint::Min(1)]
    } else {
        seq![Constraint::Min(1)]
    };
    let middle = match s.popup {
        Some(p) => top.push(Constraint::Length(popup_rows(p.items.len()))),
        None => top,
    };
    middle.push(Constraint::Length(INPUT_ROWS))
}

/// The panes from top to bottom.
fn plan_of(app: &App) -> (r: Vec<Constraint>)
    ensures
        r@ == plan(app@),
{
    let mut items: Vec<Constraint> = Vec::new();
    if app.show_debug {
        items.push(Constraint::Length(DEBUG_ROWS));
    }
    items.push(Constraint::Min(1));
    if let Some(p) = &app.popup {
        let total = p.items.len();
        let rows: u16 = if total > MENU_ROWS {
            (MENU_ROWS + 3) as u16
        } else {
            (total + 2) as u16
        };
        assert(rows == popup_rows(p@.items.len()));
        items.push(Constraint::Length(rows));
    }
    items.push(Constraint::Length(INPUT_ROWS));
    assert(items@ =~= plan(app@));
    items
}

/// One pane takes the room that the others leave.
pub open spec fn one_grows(items: Seq<Constraint>) -> bool {
    exists|k: int|
        0 <= k < items.len() && #[trigger] items[k] is Min && forall|i: int|
            0 <= i < items.len() && i != k ==> #[trigger] items[i] is Length
}

/// The number of rows that panes take at least.
pub open spec fn rows_needed(items: Seq<Constraint>) -> nat
    decreases items.len(),
{
    if items.len() == 0 {
        0
    } else {
        rows_needed(items.drop_last()) + match items.last() {
            Constraint::Length(n) => n as nat,
            Constraint::Min(n) => n as nat,
        }
    }
}

/// The area has room for panes.
pub open spec fn has_room(items: Seq<Constraint>, area: Rect) -> bool {
    &&& rows_needed(items) <= area.height
    &&& area.y + area.height <= u16::MAX
}

/// The panes lie one under the other over the whole area, each as high as its constraint says.
pub open spec fn stacked(items: Seq<Constraint>, area: Rect, chunks: Seq<Rect>) -> bool {
    &&& chunks[0].y == area.y
    &&& forall|i: int|
        0 < i < chunks.len() ==> (#[trigger] chunks[i]).y == chunks[i - 1].y + chunks[i - 1].height
    &&& chunks.last().y + chunks.last().height == area.y + area.height
    &&& forall|i: int|
        0 <= i < chunks.len() ==> match #[trigger] items[i] {
            Constraint::Length(n) => chunks[i].height == n,
            Constraint::Min(n) => chunks[i].height >= n,
        }
}

/// `chunks` are rectangles that the layout can give to panes on an area.
pub uninterp spec fn laid_out(items: Seq<Constraint>, area: Rect, chunks: Seq<Rect>) -> bool;

/// `ratatui::layout::Layout::split`, from top to bottom, for constraints one of which is a minimum:
/// one rectangle for each constraint, each as wide as the area and at its left edge. Where the area
/// has room for all of them, every constraint is met and nothing of the area is left over. Where it
/// has not, the heights come from a solver that walks hash maps, so the rectangles are tied to the
/// constraints and the area by a relation, which is named and not spelled out.
#[verifier::external_body]
fn split(items: &Vec<Constraint>, area: Rect) -> (r: Vec<Rect>)
    requires
        one_grows(items@),
    ensures
        laid_out(items@, area, r@),
        r@.len() == items@.len(),
        forall|i: int|
            0 <= i < r@.len() ==> (#[trigger] r@[i]).x == area.x && r@[i].width == area.width,
        has_room(items@, area) ==> stacked(items@, area, r@),
{
    let constraints = items.iter().map(|c| match c {
        Constraint::Length(n) => ratatui::layout::Constraint::Length(*n),
        Constraint::Min(n) => ratatui::layout::Constraint::Min(*n),
    }).collect::<Vec<_>>();
    let whole = ratatui::layout::Rect { x: area.x, y: area.y, width: area.width,
        height: area.height };
    let rects = ratatui::layout::Layout::default()
        .direction(ratatui::layout::Direction::Vertical).constraints(constraints).split(whole);
    rects.iter().map(|r| Rect { x: r.x, y: r.y, width: r.width, height: r.height }).collect()
}

/// A text as it looks in a debug print.
pub uninterp spec fn quoted(s: Seq<char>) -> Seq<char>;

/// The standard library's debug print of a text. What it escapes is named, not spelled out.
#[verifier::external_body]
fn quoted_text(s: &str) -> (r: String)
    ensures
        r@ == quoted(s@),
{
    format!("{s:?}")
}

/// The lines of the debug overlay.
pub open spec fn debug_lines(s: State) -> Seq<Seq<(Seq<char>, Style)>> {
    seq![
        line_of("raw: "@ + quoted(s.raw_preview), plain_style()),
        line_of(
            "type: "@ + s.json.kind() + ", completions: "@ + decimal(
                completions(s.json, s.input).len(),
            ),
            plain_style(),
        ),
        line_of("input: "@ + quoted(s.input), plain_style()),
        line_of(
            if s.popup is Some {
                "popup: true"@
            } else {
                "popup: false"@
            },
            plain_style(),
        ),
    ]
}

/// The lines of the debug overlay.
fn debug_rows(app: &App) -> (r: Vec<Line>)
    ensures
        line_views(r@) == debug_lines(app@),
{
    let mut raw = "raw: ".to_owned();
    raw.append(quoted_text(app.raw_preview.as_str()).as_str());
    let json = app.json_value.json();
    let items = get_completions(json, app.input.as_str());
    assert(items@.len() == texts(items@).len());
    let mut kind = "type: ".to_owned();
    kind.append(json.kind());
    kind.append(", completions: ");
    kind.append(decimal_text(items.len() as u128).as_str());
    let mut input = "input: ".to_owned();
    input.append(quoted_text(app.input.as_str()).as_str());
    let popup = if app.popup.is_some() {
        "popup: true".to_owned()
    } else {
        "popup: false".to_owned()
    };
    let mut lines: Vec<Line> = Vec::new();
    lines.push(line_in(raw, Style::plain()));
    lines.push(line_in(kind, Style::plain()));
    lines.push(line_in(input, Style::plain()));
    lines.push(line_in(popup, Style::plain()));
    assert(line_views(lines@) =~= debug_lines(app@));
    lines
}

/// The row of a completion.
pub open spec fn item_line(m: Menu, i: int) -> Seq<(Seq<char>, Style)> {
    if i == m.selected {
        line_of("> "@ + m.items[i], reversed_style())
    } else {
        line_of("  "@ + m.items[i], plain_style())
    }
}

/// How many completions are in view.
pub open spec fn items_shown(m: Menu) -> int {
    smaller(MENU_ROWS as int, m.items.len() - m.scroll_off)
}

/// The lines of the popup: the completions in view, and how many more follow them.
pub open spec fn menu_lines(m: Menu) -> Seq<Seq<(Seq<char>, Style)>> {
    let rows = Seq::new(items_shown(m) as nat, |k: int| item_line(m, m.scroll_off + k));
    let more = m.items.len() - m.scroll_off - items_shown(m);
    if more > 0 {
        rows.push(
            line_of("  \u{2026} "@ + decimal(more as nat) + " more"@, colored(Color::DarkGray)),
        )
    } else {
        rows
    }
}

/// The lines of the popup.
fn menu_rows(p: &Popup) -> (r: Vec<Line>)
    requires
        p@.wf(),
    ensures
        line_views(r@) == menu_lines(p@),
{
    let ghost m = p@;
    let n = p.items.len();
    assert(m.items.len() == n);
    let end: usize = if n - p.scroll_off >= MENU_ROWS {
        p.scroll_off + MENU_ROWS
    } else {
        n
    };
    let mut lines: Vec<Line> = Vec::new();
    let mut i: usize = p.scroll_off;
    while i < end
        invariant
            m == p@,
            p.scroll_off <= i <= end <= p.items@.len(),
            end == m.scroll_off + items_shown(m),
            lines@.len() == i - p.scroll_off,
            forall|k: int|
                0 <= k < lines@.len() ==> (#[trigger] lines@[k])@ == item_line(m, m.scroll_off + k),
        decreases end - i,
    {
        let selected = i == p.selected;
        let mut text = if selected {
            "> ".to_owned()
        } else {
            "  ".to_owned()
        };
        text.append(p.items[i].as_str());
        let style = Style { fg: None, bold: false, reversed: selected };
        lines.push(line_in(text, style));
        i += 1;
    }
    let ghost rows = Seq::new(items_shown(m) as nat, |k: int| item_line(m, m.scroll_off + k));
    assert(line_views(lines@) =~= rows);
    let remaining = n - end;
    if remaining > 0 {
        let mut text = "  \u{2026} ".to_owned();
        text.append(decimal_text(remaining as u128).as_str());
        text.append(" more");
        let ghost before = line_views(lines@);
        lines.push(line_in(text, Style::color(Color::DarkGray)));
        assert(line_views(lines@) =~= menu_lines(m));
    }
    lines
}

/// The session with its scrolling fitted to a view of `rows` lines.
pub open spec fn fitted(s: State, rows: nat) -> State {
    let total = s.line_offsets.len();
    let max_scroll = if total <= rows {
        0
    } else {
        total - rows
    };
    State { max_scroll, scroll: smaller(s.scroll, max_scroll), ..s }
}

/// The place of the results among the panes.
pub open spec fn results_index(s: State) -> int {
    if s.show_debug {
        1
    } else {
        0
    }
}

/// The lines of the results that are in view.
pub open spec fn result_lines(s: State, rows: nat) -> Seq<Seq<(Seq<char>, Style)>> {
    Seq::new(
        window(s.line_offsets.len() as int, s.scroll, rows as int) as nat,
        |k: int| spans_of(line_at(s.result_text, s.line_offsets, s.scroll + k), plain_style()),
    )
}

/// The pane of the debug overlay.
pub open spec fn debug_pane(s: State, chunks: Seq<Rect>) -> Option<PaneView> {
    if s.show_debug {
        Some(
            PaneView {
                area: chunks[0],
                lines: debug_lines(s),
                borders: Borders::All,
                title: " Debug (F1) "@,
                border: plain_style(),
            },
        )
    } else {
        None
    }
}

/// The pane of the results.
pub open spec fn results_pane(s: State, chunks: Seq<Rect>) -> PaneView {
    let area = chunks[results_index(s)];
    PaneView {
        area,
        lines: result_lines(s, area.height as nat),
        borders: Borders::Bare,
        title: ""@,
        border: plain_style(),
    }
}

/// The pane of the popup.
pub open spec fn popup_pane(s: State, chunks: Seq<Rect>) -> Option<PaneView> {
    match s.popup {
        Some(m) => Some(
            PaneView {
                area: chunks[results_index(s) + 1],
                lines: menu_lines(m),
                borders: Borders::All,
                title: " Keys "@,
                border: colored(Color::Cyan),
            },
        ),
        None => None,
    }
}

/// The pane of the input.
pub open spec fn input_pane(s: State, chunks: Seq<Rect>) -> PaneView {
    let area = chunks.last();
    PaneView {
        area,
        lines: prompt(s, area.width),
        borders: Borders::Top,
        title: ""@,
        border: colored(Color::DarkGray),
    }
}

/// A pane that may be missing.
pub open spec fn maybe_pane(p: Option<Pane>) -> Option<PaneView> {
    match p {
        Some(p) => Some(p@),
        None => None,
    }
}

/// The screen shows the session in the rectangles of its panes.
pub open spec fn shows(screen: Screen, s: State, chunks: Seq<Rect>) -> bool {
    &&& maybe_pane(screen.debug) == debug_pane(s, chunks)
    &&& screen.results@ == results_pane(s, chunks)
    &&& maybe_pane(screen.popup) == popup_pane(s, chunks)
    &&& screen.input@ == input_pane(s, chunks)
}

/// The session can be drawn: its offsets reach the end of the result, and the prompt fits.
pub open spec fn drawable(s: State) -> bool {
    &&& s.wf()
    &&& size(s.result_text) <= u32::MAX
    &&& prompt_fits(s)
}

/// Draws a session in the rectangles of its panes. The scrolling is fitted to the height of the
/// results.
pub fn compose(app: &mut App, chunks: &Vec<Rect>) -> (r: Screen)
    requires
        drawable(old(app)@),
        chunks@.len() == plan(old(app)@).len(),
    ensures
        final(app)@ == fitted(
            old(app)@,
            chunks@[results_index(old(app)@)].height as nat,
        ),
        drawable(final(app)@),
        shows(r, final(app)@, chunks@),
{
    let ghost s = app@;
    let at: usize = if app.show_debug {
        1
    } else {
        0
    };
    let results_area = chunks[at];
    let visible = results_area.height as usize;
    let total = app.line_offsets.len();
    app.max_scroll = total.saturating_sub(visible);
    if app.scroll > app.max_scroll {
        app.scroll = app.max_scroll;
    }
    let ghost t = fitted(s, results_area.height as nat);
    proof {
        assert(app@ =~= t);
        if s.result_text.len() > 0 {
            law_lines(s.result_text);
        }
    }
    let debug = if app.show_debug {
        Some(
            Pane {
                area: chunks[0],
                lines: debug_rows(app),
                borders: Borders::All,
                title: " Debug (F1) ",
                border: Style::plain(),
            },
        )
    } else {
        None
    };
    let results = Pane {
        area: results_area,
        lines: visible_lines(
            app.result_text.as_str(),
            app.line_offsets.as_slice(),
            app.scroll,
            visible,
        ),
        borders: Borders::Bare,
        title: "",
        border: Style::plain(),
    };
    let popup = match &app.popup {
        Some(p) => Some(
            Pane {
                area: chunks[at + 1],
                lines: menu_rows(p),
                borders: Borders::All,
                title: " Keys ",
                border: Style::color(Color::Cyan),
            },
        ),
        None => None,
    };
    let input_area = chunks[chunks.len() - 1];
    let input = Pane {
        area: input_area,
        lines: make_input_prompt(app, input_area.width),
        borders: Borders::Top,
        title: "",
        border: Style::color(Color::DarkGray),
    };
    Screen { debug, results, popup, input }
}

/// Whether a session can be drawn.
pub fn can_draw(app: &App) -> (r: bool)
    requires
        app@.wf(),
    ensures
        r == drawable(app@),
{
    let info = chars_of(info_text(app).as_str());
    let fw = #[verifier::truncate] (chars_of(app.filename.as_str()).len() as u16);
    let iw = #[verifier::truncate] (info.len() as u16);
    let status = match app.error {
        Some(_) => true,
        None => info.len() == 0 || (fw as u32) + (iw as u32) + 1 <= u16::MAX as u32,
    };
    status && byte_len(app.result_text.as_str()) as u64 <= u32::MAX as u64
}

/// Draws a session on an area of the screen. The layout says where the panes stand; each is as wide
/// as the area, and where there is room each is as high as planned.
pub fn ui(app: &mut App, area: Rect) -> (r: Screen)
    requires
        drawable(old(app)@),
    ensures
        drawable(final(app)@),
        exists|chunks: Seq<Rect>|
            {
                &&& laid_out(plan(old(app)@), area, chunks)
                &&& chunks.len() == plan(old(app)@).len()
                &&& forall|i: int|
                    0 <= i < chunks.len() ==> (#[trigger] chunks[i]).x == area.x && chunks[i].width
                        == area.width
                &&& has_room(plan(old(app)@), area) ==> stacked(plan(old(app)@), area, chunks)
                &&& final(app)@ == fitted(
                    old(app)@,
                    chunks[results_index(old(app)@)].height as nat,
                )
                &&& #[trigger] shows(r, final(app)@, chunks)
            },
{
    let items = plan_of(app);
    assert(one_grows(items@)) by {
        assert(items@[results_index(app@)] is Min);
    }
    let chunks = split(&items, area);
    compose(app, &chunks)
}

/// The number of rows besides the results: those of the debug overlay, the popup and the input.
pub open spec fn other_rows(s: State) -> nat {
    let overlay = if s.show_debug {
        DEBUG_ROWS as nat
    } else {
        0
    };
    let list = match s.popup {
        Some(m) => popup_rows(m.items.len()) as nat,
        None => 0,
    };
    overlay + list + INPUT_ROWS as nat
}

/// Where the results can have a row, they have all the rows that the other panes leave, and the
/// input stands at the bottom.
pub proof fn law_results_fill_the_screen(s: State, area: Rect, chunks: Seq<Rect>)
    requires
        s.wf(),
        other_rows(s) < area.height,
        area.y + area.height <= u16::MAX,
        chunks.len() == plan(s).len(),
        has_room(plan(s), area) ==> stacked(plan(s), area, chunks),
    ensures
        chunks[results_index(s)].height == area.height - other_rows(s),
        chunks.last().height == INPUT_ROWS,
        chunks.last().y + INPUT_ROWS == area.y + area.height,
{
    let items = plan(s);
    let n = items.len() as int;
    assert(rows_needed(items) == other_rows(s) + 1) by {
        reveal_with_fuel(rows_needed, 5);
        assert(items.last() == Constraint::Length(INPUT_ROWS));
    }
    assert(items[n - 1] == Constraint::Length(INPUT_ROWS));
    assert(items[results_index(s)] == Constraint::Min(1));
    if s.show_debug {
        assert(items[0] == Constraint::Length(DEBUG_ROWS));
        assert(chunks[1].y == chunks[0].y + chunks[0].height);
    }
    if let Some(m) = s.popup {
        assert(items[n - 2] == Constraint::Length(popup_rows(m.items.len())));
        assert(chunks[n - 2].y == chunks[n - 3].y + chunks[n - 3].height);
    }
    assert(chunks[n - 1].y == chunks[n - 2].y + chunks[n - 2].height);
}

} // verus!
