//! Coloured text: SGR escapes and the styles they stand for.

use crate::text::{chars_of, same_text, text_of};
use vstd::prelude::*;

verus! {

/// A foreground colour.
#[derive(Debug, Clone, Copy, PartialEq, Eq, Structural)]
pub enum Color {
    DarkGray,
    Yellow,
    Green,
    White,
    Cyan,
    Red,
}

/// How a piece of text is drawn.
#[derive(Debug, Clone, Copy, PartialEq, Eq, Structural)]
pub struct Style {
    pub fg: Option<Color>,
    pub bold: bool,
    pub reversed: bool,
}

/// A piece of text in one style.
#[derive(Debug)]
pub struct Span {
    pub text: String,
    pub style: Style,
}

/// A line of styled text.
#[derive(Debug)]
pub struct Line {
    pub spans: Vec<Span>,
}

impl View for Span {
    type V = (Seq<char>, Style);

    open spec fn view(&self) -> (Seq<char>, Style) {
        (self.text@, self.style)
    }
}

impl View for Line {
    type V = Seq<(Seq<char>, Style)>;

    open spec fn view(&self) -> Seq<(Seq<char>, Style)> {
        span_views(self.spans@)
    }
}

/// The texts and styles of a list of spans.
pub open spec fn span_views(spans: Seq<Span>) -> Seq<(Seq<char>, Style)> {
    Seq::new(spans.len(), |i: int| spans[i]@)
}

/// The lines of a list of lines.
pub open spec fn line_views(lines: Seq<Line>) -> Seq<Seq<(Seq<char>, Style)>> {
    Seq::new(lines.len(), |i: int| lines[i]@)
}

/// The default style.
pub open spec fn plain_style() -> Style {
    Style { fg: None, bold: false, reversed: false }
}

/// The default style in a colour.
pub open spec fn colored(color: Color) -> Style {
    Style { fg: Some(color), bold: false, reversed: false }
}

/// A bold style in a colour.
pub open spec fn bold(color: Color) -> Style {
    Style { fg: Some(color), bold: true, reversed: false }
}

impl Style {
    /// The default style.
    pub fn plain() -> (r: Style)
        ensures
            r == plain_style(),
    {
        Style { fg: None, bold: false, reversed: false }
    }

    /// The default style in a colour.
    pub fn color(color: Color) -> (r: Style)
        ensures
            r == colored(color),
    {
        Style { fg: Some(color), bold: false, reversed: false }
    }

    /// A bold style in a colour.
    pub fn bold_color(color: Color) -> (r: Style)
        ensures
            r == bold(color),
    {
        Style { fg: Some(color), bold: true, reversed: false }
    }
}

/// One SGR escape for each kind of JSON token, and one that ends a colour.
#[derive(Debug, Clone, Copy)]
pub struct Palette {
    pub null: &'static str,
    pub bool_val: &'static str,
    pub number: &'static str,
    pub string: &'static str,
    pub array_bracket: &'static str,
    pub object_brace: &'static str,
    pub object_key: &'static str,
    pub reset: &'static str,
}

/// The escapes of a palette, in the order of its fields.
pub open spec fn palette_view(p: Palette) -> Seq<Seq<char>> {
    seq![
        p.null@,
        p.bool_val@,
        p.number@,
        p.string@,
        p.array_bracket@,
        p.object_brace@,
        p.object_key@,
        p.reset@,
    ]
}

/// The escape with parameters `code`.
pub open spec fn escape(code: Seq<char>) -> Seq<char> {
    seq![ESC, '['] + code + seq!['m']
}

/// The escapes in which values are written.
pub open spec fn colors_view() -> Seq<Seq<char>> {
    seq![
        escape("90"@),
        escape("33"@),
        escape("33"@),
        escape("32"@),
        escape("1;37"@),
        escape("1;37"@),
        escape("1;36"@),
        escape("0"@),
    ]
}

/// The colours in which values are written: null dark gray, booleans and numbers yellow, strings
/// green, brackets and braces bold white, keys bold cyan.
pub fn colors() -> (r: Palette)
    ensures
        palette_view(r) == colors_view(),
{
    let r = Palette {
        null: "\u{1b}[90m",
        bool_val: "\u{1b}[33m",
        number: "\u{1b}[33m",
        string: "\u{1b}[32m",
        array_bracket: "\u{1b}[1;37m",
        object_brace: "\u{1b}[1;37m",
        object_key: "\u{1b}[1;36m",
        reset: "\u{1b}[0m",
    };
    proof {
        reveal_strlit("\u{1b}[90m");
        reveal_strlit("\u{1b}[33m");
        reveal_strlit("\u{1b}[32m");
        reveal_strlit("\u{1b}[1;37m");
        reveal_strlit("\u{1b}[1;36m");
        reveal_strlit("\u{1b}[0m");
        reveal_strlit("90");
        reveal_strlit("33");
        reveal_strlit("32");
        reveal_strlit("1;37");
        reveal_strlit("1;36");
        reveal_strlit("0");
        assert(r.null@ =~= escape("90"@));
        assert(r.number@ =~= escape("33"@));
        assert(r.string@ =~= escape("32"@));
        assert(r.array_bracket@ =~= escape("1;37"@));
        assert(r.object_key@ =~= escape("1;36"@));
        assert(r.reset@ =~= escape("0"@));
        assert(palette_view(r) =~= colors_view());
    }
    r
}

/// The character that an escape begins with.
pub const ESC: char = '\u{1b}';

/// The style that the parameters of an SGR escape stand for.
pub open spec fn sgr_style(code: Seq<char>) -> Style {
    if code == "90"@ {
        colored(Color::DarkGray)
    } else if code == "33"@ {
        colored(Color::Yellow)
    } else if code == "32"@ {
        colored(Color::Green)
    } else if code == "1;37"@ {
        bold(Color::White)
    } else if code == "1;36"@ {
        bold(Color::Cyan)
    } else {
        plain_style()
    }
}

/// The style that the parameters of an SGR escape stand for.
pub fn sgr_to_style(code: &str) -> (r: Style)
    ensures
        r == sgr_style(code@),
{
    if same_text(code, "90") {
        Style::color(Color::DarkGray)
    } else if same_text(code, "33") {
        Style::color(Color::Yellow)
    } else if same_text(code, "32") {
        Style::color(Color::Green)
    } else if same_text(code, "1;37") {
        Style::bold_color(Color::White)
    } else if same_text(code, "1;36") {
        Style::bold_color(Color::Cyan)
    } else {
        Style::plain()
    }
}

/// Where the first escape of `s` begins; the end of `s` where there is none.
pub open spec fn escape_at(s: Seq<char>) -> int
    decreases s.len(),
{
    if s.len() < 2 {
        s.len() as int
    } else if s[0] == ESC && s[1] == '[' {
        0
    } else {
        1 + escape_at(s.drop_first())
    }
}

/// The spans of a line of which `s` is left to read in `style`.
///
/// An escape that no `m` ends is shown as text, together with the text before it, which by then
/// stands in a span of its own.
pub open spec fn spans_of(s: Seq<char>, style: Style) -> Seq<(Seq<char>, Style)>
    decreases s.len(),
{
    let i = escape_at(s);
    proof {
        lemma_escape_range(s);
        s.skip(i + 2).index_of_first_ensures('m');
    }
    let lead = if i > 0 {
        seq![(s.take(i), style)]
    } else {
        Seq::empty()
    };
    if i == s.len() {
        lead
    } else {
        match s.skip(i + 2).index_of_first('m') {
            Some(e) => lead + spans_of(
                s.skip(i + e + 3),
                sgr_style(s.subrange(i + 2, i + 2 + e)),
            ),
            None => lead.push((s, style)),
        }
    }
}

/// `ESC [` stands at position `k`.
pub open spec fn opens_at(s: Seq<char>, k: int) -> bool {
    k + 1 < s.len() && s[k] == ESC && s[k + 1] == '['
}

/// An escape begins where [`escape_at`] says, and none before.
pub proof fn lemma_escape_range(s: Seq<char>)
    ensures
        0 <= escape_at(s) <= s.len(),
        escape_at(s) < s.len() ==> opens_at(s, escape_at(s)),
        forall|k: int| 0 <= k < escape_at(s) ==> !opens_at(s, k),
    decreases s.len(),
{
    if s.len() >= 2 && !(s[0] == ESC && s[1] == '[') {
        let rest = s.drop_first();
        lemma_escape_range(rest);
        assert(opens_at(rest, escape_at(rest)) ==> opens_at(s, escape_at(rest) + 1));
        assert forall|k: int| 0 <= k < escape_at(s) implies !opens_at(s, k) by {
            if k > 0 {
                assert(!opens_at(rest, k - 1));
            }
        }
    }
}

proof fn lemma_escape_at(s: Seq<char>, i: int)
    requires
        0 <= i <= s.len(),
        forall|k: int| 0 <= k < i ==> !opens_at(s, k),
        i == s.len() || opens_at(s, i),
    ensures
        escape_at(s) == i,
{
    lemma_escape_range(s);
    let e = escape_at(s);
    if e < i {
        assert(!opens_at(s, e));
    }
}

/// Reads one line with SGR escapes in it.
pub fn parse_ansi_line(s: &str) -> (r: Line)
    ensures
        r@ == spans_of(s@, plain_style()),
{
    let chars = chars_of(s);
    let n = chars.len();
    let mut spans: Vec<Span> = Vec::new();
    let mut style = Style::plain();
    let mut start: usize = 0;
    let mut i: usize = 0;
    assert(s@.skip(0) =~= s@);
    assert(span_views(spans@) + spans_of(s@, style) =~= spans_of(s@, style));
    while i < n
        invariant
            chars@ == s@,
            n == chars@.len(),
            start <= i <= n,
            forall|k: int| 0 <= k < i - start ==> !opens_at(s@.skip(start as int), k),
            span_views(spans@) + spans_of(s@.skip(start as int), style) == spans_of(
                s@,
                plain_style(),
            ),
        decreases n - i,
    {
        let ghost left = s@.skip(start as int);
        if n - i >= 2 && chars[i] == ESC && chars[i + 1] == '[' {
            let ghost at = i - start;
            let ghost before = span_views(spans@);
            proof {
                assert(opens_at(left, at));
                lemma_escape_at(left, at);
            }
            if i > start {
                let text = text_of(&chars, start, i);
                assert(text@ =~= left.take(at));
                spans.push(Span { text, style });
                assert(span_views(spans@) =~= before.push((left.take(at), style)));
            }
            let ghost rest = left.skip(at + 2);
            let mut e: usize = i + 2;
            while e < n && chars[e] != 'm'
                invariant
                    chars@ == s@,
                    n == chars@.len(),
                    i + 2 <= e <= n,
                    forall|k: int| i + 2 <= k < e ==> chars@[k] != 'm',
                ensures
                    e == n || chars@[e as int] == 'm',
                decreases n - e,
            {
                e += 1;
            }
            proof {
                rest.index_of_first_ensures('m');
                assert(forall|k: int|
                    0 <= k < rest.len() ==> #[trigger] rest[k] == chars@[i + 2 + k]);
                if e < n {
                    assert(rest[e - i - 2] == 'm');
                    assert(rest.contains('m'));
                    let f = rest.index_of_first('m')->0;
                    assert(f == e - i - 2);
                    assert(left.subrange(at + 2, at + 2 + f) =~= chars@.subrange(i + 2, e as int));
                    assert(left.skip(at + f + 3) =~= s@.skip(e + 1));
                } else {
                    if rest.contains('m') {
                        let f = rest.index_of_first('m')->0;
                        assert(rest[f] == chars@[i + 2 + f]);
                    }
                }
            }
            if e == n {
                let text = text_of(&chars, start, n);
                assert(text@ =~= left);
                let ghost middle = span_views(spans@);
                spans.push(Span { text, style });
                assert(span_views(spans@) =~= middle.push((left, style)));
                assert(span_views(spans@) =~= before + spans_of(left, style));
                return Line { spans };
            }
            let ghost middle = span_views(spans@);
            let code = text_of(&chars, i + 2, e);
            let ghost old_style = style;
            style = sgr_to_style(code.as_str());
            start = e + 1;
            i = start;
            assert(middle + spans_of(s@.skip(start as int), style) =~= before + spans_of(
                left,
                old_style,
            ));
        } else {
            assert(!opens_at(left, i - start));
            i += 1;
        }
    }
    proof {
        let left = s@.skip(start as int);
        lemma_escape_at(left, left.len() as int);
        assert(left.take(left.len() as int) =~= left);
    }
    if start < n {
        let ghost before = span_views(spans@);
        let text = text_of(&chars, start, n);
        assert(text@ =~= s@.skip(start as int));
        spans.push(Span { text, style });
        assert(span_views(spans@) =~= before.push((s@.skip(start as int), style)));
    }
    assert(span_views(spans@) =~= spans_of(s@, plain_style()));
    Line { spans }
}

/// Every escape of `s` is ended by an `m`.
pub open spec fn escapes_end(s: Seq<char>) -> bool
    decreases s.len(),
{
    let i = escape_at(s);
    proof {
        lemma_escape_range(s);
        s.skip(i + 2).index_of_first_ensures('m');
    }
    if i == s.len() {
        true
    } else {
        match s.skip(i + 2).index_of_first('m') {
            Some(e) => escapes_end(s.skip(i + e + 3)),
            None => false,
        }
    }
}

/// `s` without its escapes.
pub open spec fn without_escapes(s: Seq<char>) -> Seq<char>
    decreases s.len(),
{
    if s.len() == 0 {
        s
    } else if s.len() >= 2 && s[0] == ESC && s[1] == '[' && s.skip(2).contains('m') {
        proof {
            s.skip(2).index_of_first_ensures('m');
        }
        without_escapes(s.skip(s.skip(2).index_of_first('m')->0 + 3))
    } else {
        seq![s[0]] + without_escapes(s.drop_first())
    }
}

/// The text of a line, without its styles.
pub open spec fn line_text(spans: Seq<(Seq<char>, Style)>) -> Seq<char>
    decreases spans.len(),
{
    if spans.len() == 0 {
        Seq::empty()
    } else {
        spans[0].0 + line_text(spans.drop_first())
    }
}

proof fn lemma_without_lead(s: Seq<char>)
    ensures
        without_escapes(s) == s.take(escape_at(s)) + without_escapes(s.skip(escape_at(s))),
    decreases s.len(),
{
    lemma_escape_range(s);
    let i = escape_at(s);
    if i == 0 {
        assert(s.skip(0) =~= s);
        assert(s.take(0) + without_escapes(s) =~= without_escapes(s));
    } else {
        let rest = s.drop_first();
        lemma_without_lead(rest);
        lemma_escape_range(rest);
        assert(!opens_at(s, 0));
        if s.len() == 1 {
            assert(rest =~= Seq::empty());
        }
        assert(escape_at(rest) == i - 1);
        assert(s.skip(i) =~= rest.skip(i - 1));
        assert(s.take(i) =~= seq![s[0]] + rest.take(i - 1));
        assert(without_escapes(s) =~= s.take(i) + without_escapes(s.skip(i)));
    }
}

/// Reading a line whose escapes all end loses no text and adds none: the spans together hold what
/// the line holds besides its escapes.
pub proof fn law_text_kept(s: Seq<char>, style: Style)
    requires
        escapes_end(s),
    ensures
        line_text(spans_of(s, style)) == without_escapes(s),
    decreases s.len(),
{
    lemma_escape_range(s);
    lemma_without_lead(s);
    let i = escape_at(s);
    let spans = spans_of(s, style);
    if i == s.len() {
        assert(s.take(i) =~= s);
        assert(s.skip(i) =~= Seq::empty());
        if i > 0 {
            assert(spans.drop_first() =~= Seq::empty());
            assert(line_text(spans.drop_first()) =~= Seq::empty());
            assert(spans[0].0 == s);
            assert(line_text(spans) =~= s);
        }
        assert(without_escapes(s) =~= s);
    } else {
        let rest = s.skip(i + 2);
        rest.index_of_first_ensures('m');
        let e = rest.index_of_first('m')->0;
        let left = s.skip(i + e + 3);
        let next = sgr_style(s.subrange(i + 2, i + 2 + e));
        law_text_kept(left, next);
        let from = s.skip(i);
        assert(from.skip(2) =~= rest);
        assert(from[0] == ESC && from[1] == '[');
        assert(from.skip(e + 3) =~= left);
        assert(without_escapes(from) == without_escapes(left));
        if i > 0 {
            assert(spans.drop_first() =~= spans_of(left, next));
        } else {
            assert(spans =~= spans_of(left, next));
            assert(s.take(0) + without_escapes(left) =~= without_escapes(left));
        }
    }
}

/// The style in which each kind of token is shown, in the order of the fields of [`Palette`].
pub open spec fn token_styles() -> Seq<Style> {
    seq![
        colored(Color::DarkGray),
        colored(Color::Yellow),
        colored(Color::Yellow),
        colored(Color::Green),
        bold(Color::White),
        bold(Color::White),
        bold(Color::Cyan),
    ]
}

/// The escapes that colour a token come back as the style of its kind: a token written between
/// the escape of its kind and the one that ends a colour is read as one span in that style.
pub proof fn law_token_style(kind: int, token: Seq<char>)
    requires
        0 <= kind < 7,
        token.len() > 0,
        !token.contains(ESC),
    ensures
        spans_of(colors_view()[kind] + token + colors_view()[7], plain_style()) == seq![
            (token, token_styles()[kind]),
        ],
{
    reveal_strlit("90");
    reveal_strlit("33");
    reveal_strlit("32");
    reveal_strlit("1;37");
    reveal_strlit("1;36");
    reveal_strlit("0");
    let codes = seq!["90"@, "33"@, "33"@, "32"@, "1;37"@, "1;37"@, "1;36"@];
    let code = codes[kind];
    let reset = colors_view()[7];
    let s = colors_view()[kind] + token + reset;
    assert(colors_view()[kind] == escape(code));
    assert("90"@[0] == '9' && "33"@[0] == '3' && "32"@[1] == '2' && "33"@[1] == '3');
    assert("1;37"@[3] == '7' && "1;36"@[3] == '6');
    assert(sgr_style(code) == token_styles()[kind]);
    assert("0"@.len() == 1);
    assert(sgr_style("0"@) == plain_style());
    let n = code.len() as int;
    assert(forall|k: int| 0 <= k < n ==> code[k] != 'm');
    // The first escape begins the text.
    assert(opens_at(s, 0));
    lemma_escape_at(s, 0);
    let rest = s.skip(2);
    rest.index_of_first_ensures('m');
    assert(rest[n] == 'm');
    assert(rest.contains('m'));
    let e = rest.index_of_first('m')->0;
    if e < n {
        assert(rest[e] == code[e]);
    }
    assert(e == n);
    assert(s.subrange(2, 2 + n) =~= code);
    let left = token + reset;
    assert(s.skip(n + 3) =~= left);
    // The second one follows the token.
    let t = token.len() as int;
    assert(opens_at(left, t));
    assert forall|k: int| 0 <= k < t implies !opens_at(left, k) by {
        assert(left[k] == token[k]);
        assert(token.contains(token[k]));
    }
    lemma_escape_at(left, t);
    let tail = left.skip(t + 2);
    tail.index_of_first_ensures('m');
    assert(tail =~= "0"@ + seq!['m']);
    assert(tail[0] == '0' && tail[1] == 'm');
    assert(tail.contains('m'));
    assert(tail.index_of_first('m') == Some(1int));
    assert(left.skip(t + 4) =~= Seq::empty());
    assert(left.take(t) =~= token);
    let none = Seq::<char>::empty();
    assert(escape_at(none) == 0);
    assert(spans_of(none, sgr_style(left.subrange(t + 2, t + 3))) =~= Seq::empty());
    assert(spans_of(left, token_styles()[kind]) =~= seq![(token, token_styles()[kind])]);
}

} // verus!
