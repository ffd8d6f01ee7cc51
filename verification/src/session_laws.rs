//! What each command does to a session, told by the text on both sides of the cursor.

use crate::app::{initial, offers, Menu, Request, State};
use crate::complete::{ends_word, word_start};
use crate::completion_laws::{going_on_from, is_path, law_name_behind_a_dot, law_offered_outside};
use crate::engine::{whole, EvaluationView};
use crate::event::{Event, Key, Mouse};
use crate::json::JsonView;
use crate::text::{
    alphanumeric, head, lemma_ascii_byte, lemma_ascii_char, lemma_cut, lemma_cut_at_seam,
    lemma_encode_concat, lemma_ends, size, tail, trimmed, white_space,
};
use vstd::prelude::*;
use vstd::utf8::encode_utf8;

verus! {

/// The filter is `a` followed by `b`, and the cursor stands between the two.
pub open spec fn cursor_between(s: State, a: Seq<char>, b: Seq<char>) -> bool {
    s.input == a + b && s.cursor == size(a)
}

/// The completions of what stands before the cursor are listed, the first one selected; where there
/// are none, the list is as it was in `before`.
pub open spec fn lists_offers(s: State, a: Seq<char>, before: Option<Menu>) -> bool {
    if offers(s.json, a).len() == 0 {
        s.popup == before
    } else {
        s.popup matches Some(m) && m.items == offers(s.json, a) && m.selected == 0 && m.scroll_off
            == 0
    }
}

/// Nothing but the filter, the cursor, the list and the place in the history differs.
pub open spec fn else_same(s: State, t: State) -> bool {
    &&& t.json == s.json
    &&& t.history == s.history
    &&& t.result_text == s.result_text
    &&& t.line_offsets == s.line_offsets
    &&& t.result_count == s.result_count
    &&& t.error == s.error
    &&& t.eval_duration == s.eval_duration
    &&& t.scroll == s.scroll
    &&& t.max_scroll == s.max_scroll
    &&& t.show_debug == s.show_debug
    &&& t.running == s.running
    &&& t.raw_preview == s.raw_preview
    &&& t.filename == s.filename
    &&& t.indent_size == s.indent_size
}

/// Typing puts a character between the text on the left and the text on the right of the cursor,
/// and the cursor behind it.
pub proof fn law_typing(s: State, a: Seq<char>, b: Seq<char>, c: char)
    requires
        cursor_between(s, a, b),
    ensures
        cursor_between(s.inserted(c), a + seq![c], b),
        lists_offers(s.inserted(c), a + seq![c], None),
        s.inserted(c).history_idx is None,
        else_same(s, s.inserted(c)),
{
    lemma_cut_at_seam(a, b);
    lemma_cut_at_seam(a, seq![c]);
    lemma_cut_at_seam(a + seq![c], b);
    assert(a.push(c) =~= a + seq![c]);
}

/// Backspace takes away the last character on the left of the cursor, whatever it is, and does
/// nothing to the filter where there is none.
pub proof fn law_backspace(s: State, a: Seq<char>, b: Seq<char>)
    requires
        cursor_between(s, a, b),
    ensures
        a.len() > 0 ==> cursor_between(s.deleted_before(), a.drop_last(), b) && lists_offers(
            s.deleted_before(),
            a.drop_last(),
            None,
        ),
        a.len() == 0 ==> cursor_between(s.deleted_before(), a, b) && s.deleted_before().popup is None,
        s.deleted_before().history_idx is None,
        else_same(s, s.deleted_before()),
{
    lemma_cut_at_seam(a, b);
    if a.len() > 0 {
        lemma_some_bytes(a);
        lemma_cut_at_seam(a.drop_last(), b);
    } else {
        assert(size(a) == 0);
    }
}

proof fn lemma_some_bytes(a: Seq<char>)
    requires
        a.len() > 0,
    ensures
        size(a) > 0,
{
    vstd::utf8::encode_utf8_first_scalar(a);
}

/// Delete takes away the first character on the right of the cursor, whatever it is, and does
/// nothing to the filter where there is none.
pub proof fn law_delete(s: State, a: Seq<char>, b: Seq<char>)
    requires
        cursor_between(s, a, b),
    ensures
        b.len() > 0 ==> cursor_between(s.deleted_after(), a, b.drop_first()) && lists_offers(
            s.deleted_after(),
            a,
            None,
        ),
        b.len() == 0 ==> cursor_between(s.deleted_after(), a, b) && s.deleted_after().popup is None,
        s.deleted_after().history_idx is None,
        else_same(s, s.deleted_after()),
{
    lemma_cut_at_seam(a, b);
    if b.len() > 0 {
        lemma_some_bytes(b);
        lemma_cut_at_seam(a, b.drop_first());
    } else {
        assert(size(b) == 0);
    }
}

/// Left and right take the cursor over one character, home and end to the ends of the filter.
pub proof fn law_moving(s: State, a: Seq<char>, b: Seq<char>, control: bool)
    requires
        cursor_between(s, a, b),
    ensures
        ({
            let l = s.after_key(Key::Left, control);
            let r = s.after_key(Key::Right, control);
            let h = s.after_key(Key::Home, control);
            let e = s.after_key(Key::End, control);
            &&& else_same(s, l) && else_same(s, r) && else_same(s, h) && else_same(s, e)
            &&& a.len() > 0 ==> cursor_between(l, a.drop_last(), seq![a.last()] + b)
                && lists_offers(l, a.drop_last(), s.popup)
            &&& a.len() == 0 ==> cursor_between(l, a, b) && lists_offers(l, a, s.popup)
            &&& b.len() > 0 ==> cursor_between(r, a + seq![b[0]], b.drop_first()) && lists_offers(
                r,
                a + seq![b[0]],
                s.popup,
            )
            &&& b.len() == 0 ==> cursor_between(r, a, b) && lists_offers(r, a, s.popup)
            &&& cursor_between(h, Seq::empty(), a + b) && lists_offers(h, Seq::empty(), s.popup)
            &&& cursor_between(e, a + b, Seq::empty()) && lists_offers(e, a + b, s.popup)
            &&& l.history_idx == s.history_idx && r.history_idx == s.history_idx
            &&& h.history_idx == s.history_idx && e.history_idx == s.history_idx
        }),
{
    lemma_cut_at_seam(a, b);
    lemma_ends(a + b);
    let none = Seq::<char>::empty();
    assert(none + (a + b) =~= a + b);
    assert((a + b) + none =~= a + b);
    assert(size(none) == 0);
    if a.len() > 0 {
        lemma_some_bytes(a);
        let front = a.drop_last();
        assert(front + (seq![a.last()] + b) =~= a + b);
        lemma_cut_at_seam(front, seq![a.last()] + b);
    } else {
        assert(size(a) == 0);
    }
    if b.len() > 0 {
        lemma_some_bytes(b);
        assert(a.push(b[0]) =~= a + seq![b[0]]);
        assert((a + seq![b[0]]) + b.drop_first() =~= a + b);
        lemma_cut_at_seam(a + seq![b[0]], b.drop_first());
    } else {
        assert(size(b) == 0);
    }
}

proof fn lemma_word_begins(bytes: Seq<u8>, from: int, to: int)
    requires
        0 <= from <= to <= bytes.len(),
        forall|k: int| from <= k < to ==> !ends_word(#[trigger] bytes[k]),
        from == 0 || ends_word(bytes[from - 1]),
    ensures
        word_start(bytes, to) == from,
    decreases to,
{
    if to > from {
        lemma_word_begins(bytes, from, to - 1);
    }
}

/// `c` is one of `.`, `(`, `|` and the space.
pub open spec fn separates(c: char) -> bool {
    c == '.' || c == '(' || c == '|' || c == ' '
}

/// The word before the cursor begins behind the last `.`, `(`, `|` or space there, or at the start.
pub proof fn law_word_at_the_cursor(x: Seq<char>, w: Seq<char>, b: Seq<char>)
    requires
        x.len() > 0 ==> separates(x.last()),
        forall|k: int| 0 <= k < w.len() ==> !separates(#[trigger] w[k]),
    ensures
        word_start(encode_utf8(x + w + b), size(x + w) as int) == size(x),
{
    let bytes = encode_utf8(x + w + b);
    let front = x + w;
    lemma_encode_concat(front, b);
    lemma_encode_concat(x, w);
    let from = size(x) as int;
    let to = size(front) as int;
    if x.len() > 0 {
        let c = x.last();
        assert(x =~= x.drop_last() + seq![c]);
        lemma_ascii_char(c);
        lemma_encode_concat(x.drop_last(), seq![c]);
        assert(bytes[from - 1] == c as u8);
        assert(ends_word(bytes[from - 1]));
    } else {
        assert(size(x) == 0);
    }
    assert forall|k: int| from <= k < to implies !ends_word(#[trigger] bytes[k]) by {
        let i = k - from;
        assert(bytes[k] == encode_utf8(w)[i]);
        if ends_word(bytes[k]) {
            lemma_ascii_byte(w, i);
            lemma_cut(w, i);
            let h = head(w, i);
            let c = encode_utf8(w)[i] as char;
            assert(w == h + tail(w, i));
            assert(w[h.len() as int] == c);
            assert(separates(c));
        }
    }
    lemma_word_begins(bytes, from, to);
}

/// A completion that begins with neither a dot nor a bracket takes the place of the word before the
/// cursor: of what stands behind the last `.`, `(`, `|` or space there. What stands before the word
/// and what stands behind the cursor stay, and the cursor is put behind the completion.
pub proof fn law_accepting_a_name(
    s: State,
    x: Seq<char>,
    w: Seq<char>,
    b: Seq<char>,
    name: Seq<char>,
)
    requires
        cursor_between(s, x + w, b),
        x.len() > 0 ==> separates(x.last()),
        forall|k: int| 0 <= k < w.len() ==> !separates(#[trigger] w[k]),
        s.popup matches Some(m) && m.items[m.selected] == name,
        name.len() > 0 ==> name[0] != '.' && name[0] != '[',
    ensures
        cursor_between(s.accepted(), x + name, b),
        lists_offers(s.accepted(), x + name, None),
        s.accepted().history_idx is None,
        else_same(s, s.accepted()),
{
    let front = x + w;
    law_word_at_the_cursor(x, w, b);
    lemma_cut_at_seam(front, b);
    assert(front + b =~= x + (w + b));
    lemma_cut_at_seam(x, w + b);
    lemma_cut_at_seam(x, name);
    lemma_cut_at_seam(x + name, b);
    assert(s.accepted().input == x + name + b);
}

/// A completion that begins with a dot or a bracket is put at the cursor, behind all that stands
/// there.
pub proof fn law_accepting_a_step(s: State, a: Seq<char>, b: Seq<char>, key: Seq<char>)
    requires
        cursor_between(s, a, b),
        s.popup matches Some(m) && m.items[m.selected] == key,
        key.len() > 0 && (key[0] == '.' || key[0] == '['),
    ensures
        cursor_between(s.accepted(), a + key, b),
        lists_offers(s.accepted(), a + key, None),
        s.accepted().history_idx is None,
        else_same(s, s.accepted()),
{
    lemma_cut_at_seam(a, b);
    lemma_cut_at_seam(a, key);
    lemma_cut_at_seam(a + key, b);
}

/// Accepting without a list does nothing.
pub proof fn law_nothing_to_accept(s: State)
    requires
        s.popup is None,
    ensures
        s.accepted() == s,
{
}

/// Typing part of a name behind a path and accepting one of the longer names that are offered gives
/// the path to that name.
pub proof fn law_offered_name_completes_the_path(
    s: State,
    p: Seq<char>,
    part: Seq<char>,
    b: Seq<char>,
    m: Menu,
)
    requires
        cursor_between(s, p + seq!['.'] + part, b),
        is_path(p),
        part.len() > 0,
        part[0] != '[',
        alphanumeric(part.last()) || part.last() == '_',
        forall|k: int| 0 <= k < part.len() ==> !separates(#[trigger] part[k]) && part[k] != ')',
        s.popup == Some(m),
        m.items == offers(s.json, p + seq!['.'] + part),
        0 <= m.selected < m.items.len(),
        going_on_from(crate::completion_laws::value_before_dot(s.json, p), part).len() > 0,
    ensures
        ({
            let name = m.items[m.selected];
            &&& name.take(part.len() as int) == part && name.len() > part.len()
            &&& cursor_between(s.accepted(), p + seq!['.'] + name, b)
        }),
{
    let input = p + seq!['.'] + part;
    let ctx = crate::completion_laws::value_before_dot(s.json, p);
    let longer = going_on_from(ctx, part);
    assert(part + Seq::<char>::empty() =~= part);
    if part.contains('.') {
        let k = choose|k: int| 0 <= k < part.len() && part[k] == '.';
        assert(separates(part[k]));
    }
    law_name_behind_a_dot(s.json, p, part, Seq::empty());
    if input.contains('(') {
        let k = choose|k: int| 0 <= k < input.len() && input[k] == '(';
        if k < p.len() {
            assert(p[k] == '(');
        } else if k > p.len() {
            assert(part[k - p.len() - 1] == '(');
            assert(separates(part[k - p.len() - 1]));
        }
    }
    assert(input.last() == part[part.len() - 1]);
    law_offered_outside(s.json, input);
    assert(m.items == longer);
    let name = m.items[m.selected];
    broadcast use vstd::seq_lib::group_filter_ensures;

    assert(crate::completion_laws::goes_on(part)(longer[m.selected]));
    assert(name.take(part.len() as int) == part);
    assert(name[0] == name.take(part.len() as int)[0]);
    assert(separates('.'));
    assert(!separates(part[0]));
    law_accepting_a_name(s, p + seq!['.'], part, b, name);
}

/// Scrolling down never moves the view up, moves it by exactly as many lines as were asked for
/// wherever there are as many below, and stops at the last place; scrolling up by as many then
/// undoes it. Scrolling up is the same the other way round. Nothing else changes.
pub proof fn law_scrolling(s: State, n: nat)
    requires
        0 <= s.scroll <= s.max_scroll,
    ensures
        s.scroll <= s.scrolled_down(n).scroll <= s.max_scroll,
        s.scroll + n <= s.max_scroll ==> s.scrolled_down(n).scroll == s.scroll + n,
        s.scroll + n >= s.max_scroll ==> s.scrolled_down(n).scroll == s.max_scroll,
        s.scroll + n <= s.max_scroll ==> s.scrolled_down(n).scrolled_up(n) == s,
        0 <= s.scrolled_up(n).scroll <= s.scroll,
        n <= s.scroll ==> s.scrolled_up(n).scroll == s.scroll - n,
        n >= s.scroll ==> s.scrolled_up(n).scroll == 0,
        n <= s.scroll ==> s.scrolled_up(n).scrolled_down(n) == s,
        (State { scroll: s.scroll, ..s.scrolled_down(n) }) == s,
        (State { scroll: s.scroll, ..s.scrolled_up(n) }) == s,
{
}

/// Scrolling twice in one direction is scrolling once by the sum.
pub proof fn law_scrolling_twice(s: State, a: nat, b: nat)
    requires
        0 <= s.scroll <= s.max_scroll,
    ensures
        s.scrolled_down(a).scrolled_down(b) == s.scrolled_down(a + b),
        s.scrolled_up(a).scrolled_up(b) == s.scrolled_up(a + b),
{
}

/// A page is ten lines, and a turn of the wheel three.
pub proof fn law_pages_and_the_wheel(s: State, control: bool)
    requires
        0 <= s.scroll <= s.max_scroll,
    ensures
        ({
            let down = s.after_key(Key::PageDown, control);
            let up = s.after_key(Key::PageUp, control);
            let wheel_down = s.after(Event::Mouse(Mouse::ScrollDown));
            let wheel_up = s.after(Event::Mouse(Mouse::ScrollUp));
            &&& s.scroll + 10 <= s.max_scroll ==> down.scroll == s.scroll + 10
            &&& s.scroll + 10 > s.max_scroll ==> down.scroll == s.max_scroll
            &&& s.scroll >= 10 ==> up.scroll == s.scroll - 10
            &&& s.scroll < 10 ==> up.scroll == 0
            &&& s.scroll + 3 <= s.max_scroll ==> wheel_down.scroll == s.scroll + 3
            &&& s.scroll + 3 > s.max_scroll ==> wheel_down.scroll == s.max_scroll
            &&& s.scroll >= 3 ==> wheel_up.scroll == s.scroll - 3
            &&& s.scroll < 3 ==> wheel_up.scroll == 0
            &&& (State { scroll: s.scroll, ..down }) == s
            &&& (State { scroll: s.scroll, ..up }) == s
            &&& (State { scroll: s.scroll, ..wheel_down }) == s
            &&& (State { scroll: s.scroll, ..wheel_up }) == s
        }),
{
}

/// Selecting goes to the next item of the list, or to the one before, and round at the ends. The
/// list is not scrolled as long as the selected one of its five rows stays in view, and otherwise by
/// no more than it takes.
pub proof fn law_selecting(m: Menu)
    requires
        m.wf(),
    ensures
        ({
            let n = m.items.len() as int;
            let f = m.moved(true);
            let b = m.moved(false);
            &&& f.items == m.items && b.items == m.items
            &&& m.selected < n - 1 ==> f.selected == m.selected + 1
            &&& m.selected == n - 1 ==> f.selected == 0 && f.scroll_off == 0
            &&& m.selected > 0 ==> b.selected == m.selected - 1
            &&& m.selected == 0 ==> b.selected == n - 1 && b.scroll_off == if n <= 5 {
                m.scroll_off
            } else {
                n - 5
            }
            &&& m.selected < n - 1 && m.selected + 1 < m.scroll_off + 5 ==> f.scroll_off
                == m.scroll_off
            &&& m.selected < n - 1 && m.selected + 1 >= m.scroll_off + 5 ==> f.scroll_off
                == m.selected - 3
            &&& m.selected > m.scroll_off ==> b.scroll_off == m.scroll_off
            &&& 0 < m.selected == m.scroll_off ==> b.scroll_off == m.selected - 1
        }),
{
}

/// Another completion is selected where a list is open; otherwise the list is opened.
pub proof fn law_cycling(s: State, a: Seq<char>, b: Seq<char>, forward: bool)
    requires
        cursor_between(s, a, b),
    ensures
        s.popup matches Some(m) ==> s.cycled(forward) == (State {
            popup: Some(m.moved(forward)),
            ..s
        }),
        s.popup is None ==> cursor_between(s.cycled(forward), a, b) && lists_offers(
            s.cycled(forward),
            a,
            None,
        ) && else_same(s, s.cycled(forward)) && s.cycled(forward).history_idx == s.history_idx,
{
    lemma_cut_at_seam(a, b);
}

/// A step back shows the last entry of the history, or the one before the one shown, with the cursor
/// behind it; before the first entry, or without a history, it does nothing.
pub proof fn law_stepping_back(s: State)
    requires
        s.wf(),
        s.history.len() <= usize::MAX,
    ensures
        ({
            let t = s.stepped_back();
            let n = s.history.len() as int;
            &&& n == 0 || s.history_idx == Some(0usize) ==> t == s
            &&& n > 0 && s.history_idx is None ==> t.history_idx == Some((n - 1) as usize)
                && cursor_between(t, s.history[n - 1], Seq::empty()) && lists_offers(
                t,
                s.history[n - 1],
                None,
            ) && else_same(s, t)
            &&& s.history_idx matches Some(i) ==> (i > 0 ==> t.history_idx == Some((i - 1) as usize)
                && cursor_between(t, s.history[i - 1], Seq::empty()) && lists_offers(
                t,
                s.history[i - 1],
                None,
            ) && else_same(s, t))
        }),
{
    if s.entry_before() is Some {
        let e = s.history[s.entry_before()->0 as int];
        lemma_ends(e);
        assert(e + Seq::<char>::empty() =~= e);
    }
}

/// A step forward shows the entry behind the one shown, with the cursor behind it; behind the last
/// entry the filter is empty and no entry is shown; where none is shown it does nothing.
pub proof fn law_stepping_forward(s: State)
    requires
        s.wf(),
        s.history.len() <= usize::MAX,
    ensures
        ({
            let t = s.stepped_forward();
            let none = Seq::<char>::empty();
            &&& s.history_idx is None ==> t == s
            &&& s.history_idx matches Some(i) ==> (i + 1 < s.history.len() ==> t.history_idx == Some(
                (i + 1) as usize,
            ) && cursor_between(t, s.history[i + 1], none) && lists_offers(
                t,
                s.history[i + 1],
                None,
            ) && else_same(s, t))
            &&& s.history_idx matches Some(i) ==> (i + 1 == s.history.len() ==> t.history_idx is None
                && cursor_between(t, none, none) && lists_offers(t, none, None) && else_same(s, t))
        }),
{
    let none = Seq::<char>::empty();
    assert(none + none =~= none);
    lemma_ends(none);
    assert(size(none) == 0);
    if let Some(i) = s.history_idx {
        if i + 1 < s.history.len() {
            let e = s.history[i + 1];
            lemma_ends(e);
            assert(e + none =~= e);
        }
    }
}

/// The filter without the white space around it is put at the end of the history, unless nothing is
/// left of it or it is the last entry there already. The rest of the history and the filter stay.
pub proof fn law_remembering(s: State, l: Seq<char>, t: Seq<char>, r: Seq<char>)
    requires
        s.input == l + t + r,
        forall|i: int| 0 <= i < l.len() ==> white_space(#[trigger] l[i]),
        forall|i: int| 0 <= i < r.len() ==> white_space(#[trigger] r[i]),
        t.len() > 0 ==> !white_space(t[0]) && !white_space(t.last()),
    ensures
        t.len() == 0 || (s.history.len() > 0 && s.history.last() == t) ==> s.remembered().history
            == s.history && !s.is_new(),
        t.len() > 0 && (s.history.len() == 0 || s.history.last() != t) ==> s.remembered().history
            == s.history.push(t) && s.is_new(),
        (State { history: s.history, history_idx: s.history_idx, ..s.remembered() }) == s,
        s.remembered().history_idx is None,
{
    law_trimmed(l, t, r);
}

/// White space is cut off at both ends, and nothing else is.
pub proof fn law_trimmed(l: Seq<char>, t: Seq<char>, r: Seq<char>)
    requires
        forall|i: int| 0 <= i < l.len() ==> white_space(#[trigger] l[i]),
        forall|i: int| 0 <= i < r.len() ==> white_space(#[trigger] r[i]),
        t.len() > 0 ==> !white_space(t[0]) && !white_space(t.last()),
    ensures
        trimmed(l + t + r) == t,
    decreases l.len() + r.len(),
{
    let s = l + t + r;
    if l.len() > 0 {
        assert(s.first() == l[0]);
        assert(s.drop_first() =~= l.drop_first() + t + r);
        assert forall|i: int| 0 <= i < l.drop_first().len() implies white_space(
            #[trigger] l.drop_first()[i],
        ) by {
            assert(white_space(l[i + 1]));
        }
        law_trimmed(l.drop_first(), t, r);
    } else if r.len() > 0 {
        if t.len() == 0 {
            assert(s.first() == r[0]);
            assert(s.drop_first() =~= l + t + r.drop_first());
            assert forall|i: int| 0 <= i < r.drop_first().len() implies white_space(
                #[trigger] r.drop_first()[i],
            ) by {
                assert(white_space(r[i + 1]));
            }
            law_trimmed(l, t, r.drop_first());
        } else {
            assert(s.first() == t[0]);
            assert(s.last() == r[r.len() - 1]);
            assert(s.drop_last() =~= l + t + r.drop_last());
            law_trimmed(l, t, r.drop_last());
        }
    } else {
        assert(s =~= t);
        if t.len() > 0 {
            assert(s.first() == t[0]);
        }
    }
}

/// A result replaces all that is shown, and the view goes to its start. The filter stays.
pub proof fn law_showing(s: State, e: EvaluationView, duration: u128)
    ensures
        ({
            let t = s.showing(e, duration);
            &&& t.result_text == e.text && t.result_count == e.count && t.error == e.error
            &&& t.eval_duration == Some(duration)
            &&& t.scroll == 0 && t.max_scroll == s.max_scroll
            &&& t.input == s.input && t.cursor == s.cursor && t.popup == s.popup
            &&& t.history == s.history && t.history_idx == s.history_idx
            &&& t.show_debug == s.show_debug && t.running == s.running && t.json == s.json
        }),
{
}

/// A session begins with an empty filter, all completions listed, the whole document shown and the
/// history as it was read.
pub proof fn law_beginning(
    json: JsonView,
    preview: Seq<char>,
    filename: Seq<char>,
    indent: nat,
    history: Seq<Seq<char>>,
)
    ensures
        ({
            let s = initial(json, preview, filename, indent, history);
            &&& cursor_between(s, Seq::empty(), Seq::empty())
            &&& lists_offers(s, Seq::empty(), None)
            &&& s.json == json && s.filename == filename && s.raw_preview == preview
            &&& s.indent_size == indent && s.history == history && s.history_idx is None
            &&& s.running && !s.show_debug
            &&& s.result_text == whole(json, indent).text
            &&& s.result_count == whole(json, indent).count
            &&& s.error is None && s.eval_duration == Some(0u128) && s.scroll == 0
        }),
{
    let none = Seq::<char>::empty();
    lemma_ends(none);
    assert(none + none =~= none);
    assert(size(none) == 0);
}

/// What each key does.
pub proof fn law_keys(s: State, control: bool, c: char)
    ensures
        s.after_key(Key::F(1), control) == (State { show_debug: !s.show_debug, ..s }),
        forall|n: u8| n != 1 ==> #[trigger] s.after_key(Key::F(n), control) == s,
        s.after_key(Key::Char('c'), true) == (State { running: false, ..s }),
        s.after_key(Key::Char('d'), true) == (State { running: false, ..s }),
        s.popup is Some ==> s.after_key(Key::Esc, control) == (State { popup: None, ..s }),
        s.popup is None ==> s.after_key(Key::Esc, control) == (State { running: false, ..s }),
        s.after_key(Key::Tab, control) == s.cycled(true),
        s.after_key(Key::Char('\t'), control) == s.cycled(true),
        s.popup is Some ==> s.after_key(Key::Enter, control) == s.accepted(),
        s.popup is None && s.input.len() > 0 ==> s.after_key(Key::Enter, control) == s.remembered(),
        s.popup is None && s.input.len() == 0 ==> s.after_key(Key::Enter, control) == s.cycled(true),
        s.after_key(Key::Char('\r'), control) == s.after_key(Key::Enter, control),
        s.after_key(Key::Char('\n'), control) == s.after_key(Key::Enter, control),
        s.after_key(Key::Backspace, control) == s.deleted_before(),
        s.after_key(Key::Delete, control) == s.deleted_after(),
        c != '\t' && c != '\r' && c != '\n' && !(control && (c == 'c' || c == 'd'))
            ==> s.after_key(Key::Char(c), control) == s.inserted(c),
        s.popup is Some ==> s.after_key(Key::Up, control) == s.cycled(false),
        s.popup is Some ==> s.after_key(Key::Down, control) == s.cycled(true),
        s.popup is None && s.input.len() == 0 ==> s.after_key(Key::Up, control) == s.stepped_back(),
        s.popup is None && s.input.len() == 0 ==> s.after_key(Key::Down, control)
            == s.stepped_forward(),
        s.popup is None && s.input.len() > 0 ==> s.after_key(Key::Up, control) == s,
        s.popup is None && s.input.len() > 0 ==> s.after_key(Key::Down, control) == s,
        s.after_key(Key::Other, control) == s,
        s.after(Event::Mouse(Mouse::Other)) == s,
        s.after(Event::Resize) == s,
        s.after(Event::Other) == s,
        forall|code: Key| #[trigger]
            s.after((Event::Key { code, control })) == s.after_key(code, control),
{
}

/// What each event makes the session ask for. A character that is typed, a completion that is
/// accepted, a deletion that finds a character and an entry of the history that is found have the
/// filter run; a filter that is entered and is new is remembered; nothing else asks for anything.
pub proof fn law_requests(s: State, control: bool, c: char)
    requires
        s.wf(),
    ensures
        ({
            let of = |code: Key| s.request((Event::Key { code, control }));
            let run = |t: State| Request::Evaluate(t.input);
            let entered = if s.popup is Some {
                run(s.accepted())
            } else if s.remembered().history.len() > s.history.len() {
                Request::Remember(s.remembered().history.last())
            } else {
                Request::Idle
            };
            &&& of(Key::F(1)) is Idle && of(Key::Esc) is Idle && of(Key::Tab) is Idle
            &&& of(Key::Char('\t')) is Idle && of(Key::Left) is Idle && of(Key::Right) is Idle
            &&& of(Key::Home) is Idle && of(Key::End) is Idle && of(Key::Other) is Idle
            &&& of(Key::PageUp) is Idle && of(Key::PageDown) is Idle
            &&& of(Key::Enter) == entered && of(Key::Char('\r')) == entered
            &&& of(Key::Char('\n')) == entered
            &&& s.cursor > 0 ==> of(Key::Backspace) == run(s.deleted_before())
            &&& s.cursor == 0 ==> of(Key::Backspace) is Idle
            &&& s.cursor < size(s.input) ==> of(Key::Delete) == run(s.deleted_after())
            &&& s.cursor == size(s.input) ==> of(Key::Delete) is Idle
            &&& control && (c == 'c' || c == 'd') ==> of(Key::Char(c)) is Idle
            &&& c != '\t' && c != '\r' && c != '\n' && !(control && (c == 'c' || c == 'd'))
                ==> of(Key::Char(c)) == run(s.inserted(c))
            &&& s.popup is Some || s.input.len() > 0 ==> of(Key::Up) is Idle && of(Key::Down) is Idle
            &&& s.popup is None && s.input.len() == 0 && s.history.len() > 0 && s.history_idx
                != Some(0usize) ==> of(Key::Up) == run(s.stepped_back())
            &&& s.popup is None && s.input.len() == 0 && (s.history.len() == 0 || s.history_idx
                == Some(0usize)) ==> of(Key::Up) is Idle
            &&& s.popup is None && s.input.len() == 0 && s.history_idx is Some ==> of(Key::Down)
                == run(s.stepped_forward())
            &&& s.popup is None && s.input.len() == 0 && s.history_idx is None ==> of(Key::Down) is
                Idle
            &&& s.request(Event::Mouse(Mouse::ScrollUp)) is Idle
            &&& s.request(Event::Mouse(Mouse::ScrollDown)) is Idle
            &&& s.request(Event::Mouse(Mouse::Other)) is Idle
            &&& s.request(Event::Resize) is Idle && s.request(Event::Other) is Idle
        }),
{
    lemma_cut(s.input, s.cursor);
    if s.input.len() == 0 {
        assert(trimmed(s.input) == s.input);
    }
}

} // verus!
