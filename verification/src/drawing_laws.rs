//! What holds of what is drawn.

use crate::ansi::{escape_at, line_text, sgr_style, spans_of, Color, Style};
use crate::app::{Menu, State};
use crate::complete::completions;
use crate::lines::line_at;
use crate::screen::{
    debug_lines, drawable, filter_line, fitted, info, menu_lines, plan, prompt, quoted, shows,
    status_line,
    Borders, Constraint, Rect, Screen,
};
use crate::session_laws::cursor_between;
use crate::text::{decimal, lemma_cut_at_seam, size};
use vstd::prelude::*;

verus! {

/// The default style.
pub open spec fn unstyled() -> Style {
    Style { fg: None, bold: false, reversed: false }
}

/// The default style in a colour.
pub open spec fn in_color(color: Color) -> Style {
    Style { fg: Some(color), bold: false, reversed: false }
}

/// The default style in reverse.
pub open spec fn in_reverse() -> Style {
    Style { fg: None, bold: false, reversed: true }
}

/// The text of a span that stands alone in its line, and its style.
pub open spec fn is_line(line: Seq<(Seq<char>, Style)>, text: Seq<char>, style: Style) -> bool {
    line.len() == 1 && line[0].0 == text && line[0].1 == style
}

/// The line with the filter shows a mark, the filter, and a blank behind it where the cursor stands
/// there. Just the character under the cursor is in reverse. The mark is red where something is
/// wrong and green otherwise.
pub proof fn law_filter_line(s: State, a: Seq<char>, b: Seq<char>)
    requires
        cursor_between(s, a, b),
    ensures
        ({
            let line = filter_line(s);
            let p: int = if a.len() > 0 {
                2
            } else {
                1
            };
            &&& line_text(line) == seq!['>', ' '] + a + b + if b.len() == 0 {
                seq![' ']
            } else {
                Seq::empty()
            }
            &&& line.len() == p + 1 + if b.len() > 1 {
                1int
            } else {
                0
            }
            &&& line[0].0 == seq!['>', ' ']
            &&& s.error is Some ==> line[0].1 == in_color(Color::Red)
            &&& s.error is None ==> line[0].1 == in_color(Color::Green)
            &&& line[p].1 == in_reverse()
            &&& line[p].0 == if b.len() > 0 {
                seq![b[0]]
            } else {
                seq![' ']
            }
            &&& forall|i: int| 0 < i < line.len() && i != p ==> (#[trigger] line[i]).1 == unstyled()
        }),
{
    lemma_cut_at_seam(a, b);
    reveal_strlit("> ");
    assert("> "@ =~= seq!['>', ' ']);
    reveal_with_fuel(line_text, 5);
    let line = filter_line(s);
    let under = if b.len() > 0 {
        seq![b[0]]
    } else {
        seq![' ']
    };
    let mut rest = line.drop_first();
    if a.len() > 0 {
        assert(rest[0].0 == a);
        rest = rest.drop_first();
    }
    assert(rest[0].0 == under);
    rest = rest.drop_first();
    if b.len() > 1 {
        assert(rest[0].0 == b.drop_first());
        assert(rest.drop_first() =~= Seq::empty());
    } else {
        assert(rest =~= Seq::empty());
    }
    assert(line_text(line) =~= seq!['>', ' '] + a + b + if b.len() == 0 {
        seq![' ']
    } else {
        Seq::empty()
    });
}

/// What went wrong takes the status line, in red and in parentheses. Otherwise the file name stands
/// on the left and the results on the right, with blanks between that make the line as wide as the
/// pane, two at least; without results the file name stands alone.
pub proof fn law_status_line(s: State, width: u16)
    requires
        s.filename.len() + info(s).len() + 1 <= 65535,
    ensures
        ({
            let line = status_line(s, width);
            let text = line[0].0;
            let f = s.filename.len() as int;
            let n = info(s).len() as int;
            &&& s.error matches Some(e) ==> is_line(
                line,
                seq![' ', ' ', '('] + e + seq![')'],
                in_color(Color::Red),
            )
            &&& s.error is None ==> is_line(line, text, in_color(Color::DarkGray))
            &&& s.error is None && n == 0 ==> text == s.filename
            &&& s.error is None && n > 0 ==> {
                &&& f + n + 2 <= width ==> text.len() == width
                &&& f + n + 2 > width ==> text.len() == f + n + 2
                &&& text.take(f) == s.filename
                &&& text.skip(text.len() - n) == info(s)
                &&& forall|i: int| f <= i < text.len() - n ==> #[trigger] text[i] == ' '
            }
        }),
{
    reveal_strlit("  (");
    reveal_strlit(")");
    assert("  ("@ =~= seq![' ', ' ', '(']);
    assert(")"@ =~= seq![')']);
    let line = status_line(s, width);
    let text = line[0].0;
    let f = s.filename.len() as int;
    let n = info(s).len() as int;
    if s.error is None && n > 0 {
        assert(text.take(f) =~= s.filename);
        assert(text.skip(text.len() - n) =~= info(s));
    }
}

/// The results are counted, if there are any, and the time they took is told in whole milliseconds,
/// if it is known.
pub proof fn law_info(s: State)
    ensures
        s.eval_duration matches Some(d) ==> {
            let ms = decimal((d / 1000) as nat) + seq!['m', 's'];
            &&& s.result_count == 0 ==> info(s) == ms
            &&& s.result_count > 0 ==> info(s) == decimal(s.result_count) + seq![
                ' ', 'r', 'e', 's', 'u', 'l', 't', 's', ' ', '\u{2022}', ' ',
            ] + ms
        },
        s.eval_duration is None && s.result_count > 0 ==> info(s) == decimal(s.result_count) + seq![
            ' ', 'r', 'e', 's', 'u', 'l', 't', 's',
        ],
        s.eval_duration is None && s.result_count == 0 ==> info(s).len() == 0,
{
    reveal_strlit("ms");
    reveal_strlit(" results \u{2022} ");
    reveal_strlit(" results");
    assert("ms"@ =~= seq!['m', 's']);
    assert(" results \u{2022} "@ =~= seq![
        ' ', 'r', 'e', 's', 'u', 'l', 't', 's', ' ', '\u{2022}', ' ',
    ]);
    assert(" results"@ =~= seq![' ', 'r', 'e', 's', 'u', 'l', 't', 's']);
}

/// The number that decimal digits stand for.
pub open spec fn number(digits: Seq<char>) -> int
    decreases digits.len(),
{
    if digits.len() == 0 {
        0
    } else {
        number(digits.drop_last()) * 10 + (digits.last() as int - '0' as int)
    }
}

/// A number is written in decimal digits that stand for it, without a zero before them.
pub proof fn law_decimal(n: nat)
    ensures
        number(decimal(n)) == n,
        decimal(n).len() > 0,
        forall|i: int| 0 <= i < decimal(n).len() ==> '0' <= #[trigger] decimal(n)[i] <= '9',
        decimal(n).len() > 1 ==> decimal(n)[0] != '0',
    decreases n,
{
    let d = decimal(n);
    if n < 10 {
        reveal_with_fuel(number, 2);
        assert(d.drop_last() =~= Seq::empty());
    } else {
        law_decimal(n / 10);
        assert(d.drop_last() =~= decimal(n / 10));
        if decimal(n / 10).len() == 1 {
            reveal_with_fuel(number, 2);
            assert(decimal(n / 10).drop_last() =~= Seq::empty());
        }
    }
}

/// The prompt is the line with the filter, a rule as wide as the pane, and the status line.
pub proof fn law_prompt(s: State, width: u16)
    ensures
        prompt(s, width).len() == 3,
        prompt(s, width)[0] == filter_line(s),
        prompt(s, width)[1].len() == 1,
        prompt(s, width)[1][0].1 == in_color(Color::DarkGray),
        prompt(s, width)[1][0].0.len() == width,
        forall|i: int| 0 <= i < width ==> #[trigger] prompt(s, width)[1][0].0[i] == '\u{2500}',
        prompt(s, width)[2] == status_line(s, width),
{
}

/// The list shows five items at most, from where it is scrolled to, the selected one marked and in
/// reverse; where more follow, a gray line tells how many.
pub proof fn law_list_lines(m: Menu)
    requires
        m.wf(),
    ensures
        ({
            let lines = menu_lines(m);
            let left = m.items.len() - m.scroll_off;
            let shown = if left > 5 {
                5
            } else {
                left
            };
            &&& lines.len() == if left > 5 {
                6
            } else {
                left
            }
            &&& forall|k: int|
                #![trigger lines[k]]
                0 <= k < shown && m.scroll_off + k == m.selected ==> is_line(
                    lines[k],
                    seq!['>', ' '] + m.items[m.scroll_off + k],
                    in_reverse(),
                )
            &&& forall|k: int|
                #![trigger lines[k]]
                0 <= k < shown && m.scroll_off + k != m.selected ==> is_line(
                    lines[k],
                    seq![' ', ' '] + m.items[m.scroll_off + k],
                    unstyled(),
                )
            &&& left > 5 ==> is_line(
                lines[5],
                seq![' ', ' ', '\u{2026}', ' '] + decimal((left - 5) as nat) + seq![
                    ' ', 'm', 'o', 'r', 'e',
                ],
                in_color(Color::DarkGray),
            )
        }),
{
    reveal_strlit("> ");
    reveal_strlit("  ");
    reveal_strlit("  \u{2026} ");
    reveal_strlit(" more");
    assert("> "@ =~= seq!['>', ' ']);
    assert("  "@ =~= seq![' ', ' ']);
    assert("  \u{2026} "@ =~= seq![' ', ' ', '\u{2026}', ' ']);
    assert(" more"@ =~= seq![' ', 'm', 'o', 'r', 'e']);
}

/// From top to bottom: six rows for the debug overlay where it is shown, the results, the list of
/// completions with its borders and the row that tells how many more there are, four rows for the
/// input.
pub proof fn law_plan(s: State)
    ensures
        ({
            let items = plan(s);
            let at: int = if s.show_debug {
                1
            } else {
                0
            };
            &&& s.show_debug ==> items[0] == Constraint::Length(6)
            &&& items[at] == Constraint::Min(1)
            &&& s.popup is None ==> items.len() == at + 2
            &&& s.popup matches Some(m) ==> {
                &&& items.len() == at + 3
                &&& m.items.len() <= 5 ==> items[at + 1] == Constraint::Length(
                    (m.items.len() + 2) as u16,
                )
                &&& m.items.len() > 5 ==> items[at + 1] == Constraint::Length(8)
            }
            &&& items.last() == Constraint::Length(4)
        }),
{
}

/// The view is fitted: the last place is the one from which the rest of the lines fills the rows,
/// and the view is not scrolled past it. Nothing else changes.
pub proof fn law_fitting(s: State, rows: nat)
    ensures
        ({
            let t = fitted(s, rows);
            let total = s.line_offsets.len() as int;
            &&& total <= rows ==> t.max_scroll == 0
            &&& total > rows ==> t.max_scroll == total - rows
            &&& s.scroll <= t.max_scroll ==> t.scroll == s.scroll
            &&& s.scroll > t.max_scroll ==> t.scroll == t.max_scroll
            &&& (State { scroll: s.scroll, max_scroll: s.max_scroll, ..t }) == s
        }),
{
}

/// Each pane stands in its rectangle, and the results show the lines from where the view is
/// scrolled to, as many as there are rows or lines.
pub proof fn law_panes(screen: Screen, s: State, chunks: Seq<Rect>)
    requires
        s.wf(),
        chunks.len() == plan(s).len(),
        shows(screen, s, chunks),
    ensures
        ({
            let at: int = if s.show_debug {
                1
            } else {
                0
            };
            let rows = chunks[at].height as int;
            let left = s.line_offsets.len() - s.scroll;
            let lines = screen.results@.lines;
            &&& screen.debug is Some <==> s.show_debug
            &&& screen.debug matches Some(p) ==> p@.area == chunks[0] && p@.lines == debug_lines(s)
                && p@.borders == Borders::All && p@.border == unstyled() && p@.title
                == " Debug (F1) "@
            &&& screen.results@.area == chunks[at]
            &&& screen.results@.borders == Borders::Bare
            &&& screen.results@.title == ""@ && screen.input@.title == ""@
            &&& left >= rows ==> lines.len() == rows
            &&& 0 <= left < rows ==> lines.len() == left
            &&& forall|k: int|
                0 <= k < lines.len() ==> #[trigger] lines[k] == spans_of(
                    line_at(s.result_text, s.line_offsets, s.scroll + k),
                    unstyled(),
                )
            &&& screen.popup is Some <==> s.popup is Some
            &&& s.popup matches Some(m) ==> screen.popup->0@.area == chunks[at + 1]
                && screen.popup->0@.lines == menu_lines(m) && screen.popup->0@.borders
                == Borders::All && screen.popup->0@.border == in_color(Color::Cyan)
                && screen.popup->0@.title == " Keys "@
            &&& screen.input@.area == chunks.last()
            &&& screen.input@.lines == prompt(s, chunks.last().width)
            &&& screen.input@.borders == Borders::Top
            &&& screen.input@.border == in_color(Color::DarkGray)
        }),
{
}

/// The debug overlay tells the beginning of the input, the kind of the document and how many
/// completions the filter has, the filter, and whether the list is open.
pub proof fn law_debug_lines(s: State)
    ensures
        ({
            let l = debug_lines(s);
            &&& l.len() == 4
            &&& is_line(l[0], seq!['r', 'a', 'w', ':', ' '] + quoted(s.raw_preview), unstyled())
            &&& is_line(
                l[1],
                seq!['t', 'y', 'p', 'e', ':', ' '] + s.json.kind() + seq![
                    ',', ' ', 'c', 'o', 'm', 'p', 'l', 'e', 't', 'i', 'o', 'n', 's', ':', ' ',
                ] + decimal(completions(s.json, s.input).len()),
                unstyled(),
            )
            &&& is_line(l[2], seq!['i', 'n', 'p', 'u', 't', ':', ' '] + quoted(s.input), unstyled())
            &&& s.popup is Some ==> is_line(
                l[3],
                seq!['p', 'o', 'p', 'u', 'p', ':', ' ', 't', 'r', 'u', 'e'],
                unstyled(),
            )
            &&& s.popup is None ==> is_line(
                l[3],
                seq!['p', 'o', 'p', 'u', 'p', ':', ' ', 'f', 'a', 'l', 's', 'e'],
                unstyled(),
            )
        }),
{
    reveal_strlit("raw: ");
    reveal_strlit("type: ");
    reveal_strlit(", completions: ");
    reveal_strlit("input: ");
    reveal_strlit("popup: true");
    reveal_strlit("popup: false");
    assert("raw: "@ =~= seq!['r', 'a', 'w', ':', ' ']);
    assert("type: "@ =~= seq!['t', 'y', 'p', 'e', ':', ' ']);
    assert(", completions: "@ =~= seq![
        ',', ' ', 'c', 'o', 'm', 'p', 'l', 'e', 't', 'i', 'o', 'n', 's', ':', ' ',
    ]);
    assert("input: "@ =~= seq!['i', 'n', 'p', 'u', 't', ':', ' ']);
    assert("popup: true"@ =~= seq!['p', 'o', 'p', 'u', 'p', ':', ' ', 't', 'r', 'u', 'e']);
    assert("popup: false"@ =~= seq!['p', 'o', 'p', 'u', 'p', ':', ' ', 'f', 'a', 'l', 's', 'e']);
}

/// No escape begins in `t`: nowhere does a bracket follow the character that begins one.
pub open spec fn no_escape(t: Seq<char>) -> bool {
    forall|k: int| 0 <= k < t.len() - 1 && #[trigger] t[k] == '\u{1b}' ==> t[k + 1] != '['
}

proof fn lemma_first_escape(t: Seq<char>, u: Seq<char>)
    requires
        no_escape(t),
    ensures
        escape_at(t + seq!['\u{1b}', '['] + u) == t.len(),
        escape_at(t) == t.len(),
    decreases t.len(),
{
    let s = t + seq!['\u{1b}', '['] + u;
    if t.len() > 0 {
        let rest = t.drop_first();
        assert forall|k: int| 0 <= k < rest.len() - 1 && #[trigger] rest[k] == '\u{1b}' implies rest[k
            + 1] != '[' by {
            assert(t[k + 1] == '\u{1b}');
        }
        lemma_first_escape(rest, u);
        assert(s.drop_first() =~= rest + seq!['\u{1b}', '['] + u);
        assert(s[0] == t[0]);
        assert(t.len() >= 2 && t[0] == '\u{1b}' ==> t[1] != '[');
        if t.len() == 1 {
            assert(rest =~= Seq::empty());
            assert(s[1] == '\u{1b}');
        } else {
            assert(s[1] == t[1]);
        }
    }
}

/// Text without an escape is one span in the style that holds; no text is no span.
pub proof fn law_plain_text(t: Seq<char>, style: Style)
    requires
        no_escape(t),
    ensures
        t.len() > 0 ==> spans_of(t, style) == seq![(t, style)],
        t.len() == 0 ==> spans_of(t, style).len() == 0,
{
    lemma_first_escape(t, Seq::empty());
    assert(t.take(t.len() as int) =~= t);
}

/// An escape ends the span before it and sets the style of what follows.
pub proof fn law_escape(t: Seq<char>, code: Seq<char>, rest: Seq<char>, style: Style)
    requires
        no_escape(t),
        !code.contains('m'),
    ensures
        ({
            let line = t + seq!['\u{1b}', '['] + code + seq!['m'] + rest;
            let after = spans_of(rest, sgr_style(code));
            &&& t.len() > 0 ==> spans_of(line, style) == seq![(t, style)] + after
            &&& t.len() == 0 ==> spans_of(line, style) == after
        }),
{
    let line = t + seq!['\u{1b}', '['] + code + seq!['m'] + rest;
    let u = code + seq!['m'] + rest;
    assert(line =~= t + seq!['\u{1b}', '['] + u);
    lemma_first_escape(t, u);
    let i = t.len() as int;
    assert(line.take(i) =~= t);
    assert(line.skip(i + 2) =~= u);
    u.index_of_first_ensures('m');
    let n = code.len() as int;
    assert(u[n] == 'm');
    assert(u.contains('m'));
    let e = u.index_of_first('m')->0;
    if e < n {
        assert(code[e] == u[e]);
        assert(code.contains('m'));
    }
    assert(e == n);
    assert(line.subrange(i + 2, i + 2 + e) =~= code);
    assert(line.skip(i + e + 3) =~= rest);
    let after = spans_of(rest, sgr_style(code));
    assert(Seq::<(Seq<char>, Style)>::empty() + after =~= after);
}

/// An escape that nothing ends is shown as text, with the text before it, which by then stands in a
/// span of its own.
pub proof fn law_unended_escape(t: Seq<char>, u: Seq<char>, style: Style)
    requires
        no_escape(t),
        !u.contains('m'),
    ensures
        ({
            let line = t + seq!['\u{1b}', '['] + u;
            &&& t.len() > 0 ==> spans_of(line, style) == seq![(t, style), (line, style)]
            &&& t.len() == 0 ==> spans_of(line, style) == seq![(line, style)]
        }),
{
    let line = t + seq!['\u{1b}', '['] + u;
    lemma_first_escape(t, u);
    let i = t.len() as int;
    assert(line.take(i) =~= t);
    assert(line.skip(i + 2) =~= u);
    u.index_of_first_ensures('m');
    assert(seq![(t, style)].push((line, style)) =~= seq![(t, style), (line, style)]);
    assert(Seq::empty().push((line, style)) =~= seq![(line, style)]);
}

/// The styles that the parameters of escapes stand for: 90, 33 and 32 are dark gray, yellow and
/// green, 1;37 and 1;36 bold white and bold cyan, and all others the default style.
pub proof fn law_codes(code: Seq<char>)
    ensures
        code == seq!['9', '0'] ==> sgr_style(code) == in_color(Color::DarkGray),
        code == seq!['3', '3'] ==> sgr_style(code) == in_color(Color::Yellow),
        code == seq!['3', '2'] ==> sgr_style(code) == in_color(Color::Green),
        code == seq!['1', ';', '3', '7'] ==> sgr_style(code) == (Style {
            fg: Some(Color::White),
            bold: true,
            reversed: false,
        }),
        code == seq!['1', ';', '3', '6'] ==> sgr_style(code) == (Style {
            fg: Some(Color::Cyan),
            bold: true,
            reversed: false,
        }),
        code != seq!['9', '0'] && code != seq!['3', '3'] && code != seq!['3', '2'] && code != seq![
            '1', ';', '3', '7',
        ] && code != seq!['1', ';', '3', '6'] ==> sgr_style(code) == unstyled(),
{
    reveal_strlit("90");
    reveal_strlit("33");
    reveal_strlit("32");
    reveal_strlit("1;37");
    reveal_strlit("1;36");
    assert("90"@ =~= seq!['9', '0']);
    assert("33"@ =~= seq!['3', '3']);
    assert("32"@ =~= seq!['3', '2']);
    assert("1;37"@ =~= seq!['1', ';', '3', '7']);
    assert("1;36"@ =~= seq!['1', ';', '3', '6']);
    assert("90"@[0] == '9' && "33"@[0] == '3' && "32"@[0] == '3' && "33"@[1] == '3' && "32"@[1]
        == '2');
    assert("1;37"@[3] == '7' && "1;36"@[3] == '6');
}

/// A session can be drawn as long as its result is not too long for offsets of thirty-two bits, and
/// the widths of the file name and of what is told of the results are not too large for sixteen, or
/// something else takes their place.
pub proof fn law_can_be_drawn(s: State)
    requires
        s.wf(),
        size(s.result_text) <= 0xffff_ffff,
        s.error is Some || s.filename.len() + info(s).len() + 1 <= 0xffff,
    ensures
        drawable(s),
{
}

} // verus!
