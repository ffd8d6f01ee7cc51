//! What holds of a session as a whole.

use crate::app::{appends, local_part, open_parens, Menu, Request, State};
use crate::complete::{
    after_dot, before_dot, completions, context, law_word_start, plain, starting, word_start,
    DOT,
};
use crate::engine::{answers, latest_of, EvaluationView};
use crate::event::{Event, Key};
use crate::json::JsonView;
use crate::lines::window;
use crate::screen::fitted;
use crate::text::{
    head, left_of, lemma_ascii_byte, lemma_ascii_char, lemma_cut, lemma_cut_at_seam,
    lemma_encode_concat, lemma_ends, lemma_left_of, lemma_right_of, size, tail, trimmed,
};
use vstd::prelude::*;
use vstd::utf8::encode_utf8;

verus! {

/// Backspace undoes typing: the filter and the cursor are as they were before.
pub proof fn law_backspace_undoes_typing(s: State, c: char)
    requires
        s.wf(),
    ensures
        s.inserted(c).deleted_before().input == s.input,
        s.inserted(c).deleted_before().cursor == s.cursor,
{
    let b = head(s.input, s.cursor);
    let a = tail(s.input, s.cursor);
    let t = s.inserted(c);
    lemma_cut(s.input, s.cursor);
    assert(b.push(c) =~= b + seq![c]);
    lemma_cut_at_seam(b, seq![c]);
    lemma_cut_at_seam(b.push(c), a);
    assert(t.input == b.push(c) + a);
    assert(t.cursor == size(b.push(c)));
    assert(b.push(c).drop_last() =~= b);
    assert(t.cursor > 0) by {
        vstd::utf8::encode_utf8_first_scalar(seq![c]);
    }
}

/// Backspace does what moving left and deleting to the right does.
pub proof fn law_backspace_is_left_and_delete(s: State)
    requires
        s.wf(),
        s.cursor > 0,
    ensures
        s.moved_to(left_of(s.input, s.cursor)).deleted_after().input == s.deleted_before().input,
        s.moved_to(left_of(s.input, s.cursor)).deleted_after().cursor
            == s.deleted_before().cursor,
{
    let at = left_of(s.input, s.cursor);
    lemma_cut(s.input, s.cursor);
    lemma_left_of(s.input, s.cursor);
    assert(tail(s.input, at).drop_first() =~= tail(s.input, s.cursor));
}

/// Left and right move by one character: each undoes the other, and the cursor goes on standing
/// between two characters.
pub proof fn law_left_and_right(s: State)
    requires
        s.wf(),
    ensures
        s.cursor > 0 ==> {
            let l = s.after_key(Key::Left, false);
            &&& head(s.input, s.cursor) == head(l.input, l.cursor).push(tail(l.input, l.cursor)[0])
            &&& l.after_key(Key::Right, false).cursor == s.cursor
        },
        s.cursor < size(s.input) ==> {
            let r = s.after_key(Key::Right, false);
            &&& head(r.input, r.cursor) == head(s.input, s.cursor).push(tail(s.input, s.cursor)[0])
            &&& r.after_key(Key::Left, false).cursor == s.cursor
        },
{
    lemma_cut(s.input, s.cursor);
    if s.cursor > 0 {
        lemma_left_of(s.input, s.cursor);
        let h = head(s.input, s.cursor);
        assert(h =~= h.drop_last().push(h.last()));
    }
    if s.cursor < size(s.input) {
        lemma_right_of(s.input, s.cursor);
    }
}

/// The cursor keys leave the filter and the history as they are, and nothing is run again.
pub proof fn law_cursor_keys(s: State, code: Key, control: bool)
    requires
        code == Key::Left || code == Key::Right || code == Key::Home || code == Key::End,
    ensures
        s.after_key(code, control).input == s.input,
        s.after_key(code, control).history == s.history,
        s.after_key(code, control).result_text == s.result_text,
        s.request((Event::Key { code, control })) == Request::Idle,
{
}

/// The results follow the filter: whenever an event changes the filter, the new filter is run.
pub proof fn law_changes_are_run(s: State, event: Event)
    ensures
        s.after(event).input != s.input ==> s.request(event) == Request::Evaluate(
            s.after(event).input,
        ),
{
}

/// A session ends by control-c, by control-d, or by escape when no popup is open, and by nothing
/// else.
pub proof fn law_session_end(s: State, event: Event)
    requires
        s.running,
    ensures
        !s.after(event).running <==> (event matches Event::Key { code, control } && ((control && (
        code == Key::Char('c') || code == Key::Char('d'))) || (code == Key::Esc && s.popup is None))),
{
}

/// Pressing F1 shows or hides the debug overlay, and pressing it twice changes nothing.
pub proof fn law_debug_toggles(s: State, control: bool)
    ensures
        s.after_key(Key::F(1), control).show_debug == !s.show_debug,
        s.after_key(Key::F(1), control).after_key(Key::F(1), control) == s,
{
}

/// A filter is remembered without the white space around it, never empty, and never twice in a
/// row.
pub proof fn law_history_entries(s: State)
    requires
        forall|i: int| 0 <= i < s.history.len() ==> (#[trigger] s.history[i]).len() > 0,
        forall|i: int| 0 <= i < s.history.len() - 1 ==> #[trigger] s.history[i] != s.history[i + 1],
    ensures
        forall|i: int|
            0 <= i < s.remembered().history.len() ==> (#[trigger] s.remembered().history[i]).len()
                > 0,
        forall|i: int|
            0 <= i < s.remembered().history.len() - 1 ==> #[trigger] s.remembered().history[i]
                != s.remembered().history[i + 1],
        trimmed(s.input).len() > 0 ==> s.remembered().history.last() == trimmed(s.input),
{
    let h = s.remembered().history;
    assert forall|i: int| 0 <= i < h.len() - 1 implies #[trigger] h[i] != h[i + 1] by {
        if i < s.history.len() - 1 {
            assert(s.history[i] != s.history[i + 1]);
        }
    }
}

/// The session after `n` steps back in the history.
pub open spec fn steps_back(s: State, n: nat) -> State
    decreases n,
{
    if n == 0 {
        s
    } else {
        steps_back(s, (n - 1) as nat).stepped_back()
    }
}

/// Steps back go through the history from its last entry to its first, and stay there.
pub proof fn law_steps_back(s: State, n: nat)
    requires
        s.history_idx is None,
        0 < n,
        0 < s.history.len() <= usize::MAX,
    ensures
        steps_back(s, n).history == s.history,
        n <= s.history.len() ==> steps_back(s, n).history_idx == Some(
            (s.history.len() - n) as usize,
        ) && steps_back(s, n).input == s.history[s.history.len() - n],
        n > s.history.len() ==> steps_back(s, n).history_idx == Some(0usize) && steps_back(
            s,
            n,
        ).input == s.history[0],
    decreases n,
{
    if n > 1 {
        law_steps_back(s, (n - 1) as nat);
    } else {
        assert(steps_back(s, 0) == s);
    }
}

/// A step forward in the history undoes a step back.
pub proof fn law_forward_undoes_back(s: State)
    requires
        s.wf(),
        s.history.len() <= usize::MAX,
        s.entry_before() is Some,
    ensures
        s.stepped_back().stepped_forward().history_idx == s.history_idx,
        s.history_idx matches Some(i) ==> s.stepped_back().stepped_forward().input
            == s.history[i as int],
        s.history_idx is None ==> s.stepped_back().stepped_forward().input == Seq::<char>::empty(),
{
}

/// Whatever is selected stays in view, and the list stays the same.
pub proof fn law_selection_in_view(m: Menu, forward: bool)
    requires
        m.wf(),
    ensures
        m.moved(forward).wf(),
        m.moved(forward).items == m.items,
{
}

/// Selecting backward undoes selecting forward, and the other way round.
pub proof fn law_selection_undone(m: Menu, forward: bool)
    requires
        m.wf(),
    ensures
        m.moved(forward).moved(!forward).selected == m.selected,
{
}

/// The list after `n` selections in one direction.
pub open spec fn selections(m: Menu, forward: bool, n: nat) -> Menu
    decreases n,
{
    if n == 0 {
        m
    } else {
        selections(m, forward, (n - 1) as nat).moved(forward)
    }
}

/// Selecting forward as often as the list is long goes round to where it began.
pub proof fn law_selection_goes_round(m: Menu)
    requires
        m.wf(),
    ensures
        selections(m, true, m.items.len()).selected == m.selected,
{
    lemma_selections(m, m.items.len());
}

proof fn lemma_selections(m: Menu, n: nat)
    requires
        m.wf(),
        n <= m.items.len(),
    ensures
        selections(m, true, n).wf(),
        selections(m, true, n).items == m.items,
        selections(m, true, n).selected == if m.selected + n < m.items.len() {
            m.selected + n
        } else {
            m.selected + n - m.items.len()
        },
    decreases n,
{
    if n > 0 {
        lemma_selections(m, (n - 1) as nat);
    }
}

/// A completion that was accepted stands before the cursor, and what stood behind the cursor still
/// does.
pub proof fn law_accepted_before_cursor(s: State)
    requires
        s.wf(),
        s.popup is Some,
    ensures
        ({
            let key = s.popup->0.items[s.popup->0.selected];
            let t = s.accepted();
            &&& head(t.input, t.cursor) == head(s.input, s.replaced_from(key)) + key
            &&& tail(t.input, t.cursor) == tail(s.input, s.cursor)
        }),
{
    let key = s.popup->0.items[s.popup->0.selected];
    let from = s.replaced_from(key);
    lemma_cut(s.input, s.cursor);
    law_word_start(s.input, s.cursor);
    lemma_cut(s.input, from);
    let front = head(s.input, from);
    lemma_cut_at_seam(front, key);
    lemma_cut_at_seam(front + key, tail(s.input, s.cursor));
}

/// Names offered for a name that is being typed are longer than it and begin with it, as long as
/// there are any.
pub proof fn law_longer_names(v: JsonView, input: Seq<char>, name: Seq<char>)
    requires
        input.len() > 0,
        input.last() != '.',
        context(v, before_dot(input)).keys().filter(starting(after_dot(input), true)).len() > 0,
        completions(v, input).contains(name),
    ensures
        after_dot(input).is_prefix_of(name),
        name != after_dot(input),
        context(v, before_dot(input)).keys().contains(name),
{
    let keys = context(v, before_dot(input)).keys();
    let wanted = starting(after_dot(input), true);
    assert(input != seq!['.']) by {
        assert(seq!['.'].last() == '.');
    }
    let longer = keys.filter(wanted);
    broadcast use vstd::seq_lib::group_filter_ensures;

    let i = choose|i: int| 0 <= i < longer.len() && longer[i] == name;
    assert(wanted(longer[i]));
    keys.lemma_filter_contains_rev(wanted, name);
}

/// Accepting a longer name goes on from what was typed: with the cursor at the end of a plain path,
/// the filter begins with what it was.
pub proof fn law_accepting_goes_on(s: State)
    requires
        s.wf(),
        s.cursor == size(s.input),
        plain(s.input),
        s.popup matches Some(p) && !appends(p.items[p.selected]) && after_dot(
            s.input,
        ).is_prefix_of(p.items[p.selected]),
    ensures
        s.input.is_prefix_of(s.accepted().input),
{
    let key = s.popup->0.items[s.popup->0.selected];
    let input = s.input;
    let bytes = encode_utf8(input);
    let partial = after_dot(input);
    let w = word_start(bytes, s.cursor);
    law_word_start(input, s.cursor);
    lemma_cut(input, w);
    lemma_ends(input);
    let h = head(input, w);
    let t = tail(input, w);
    input.index_of_last_ensures('.');
    assert(input =~= h + t);
    // The word begins right behind the last dot.
    assert(t == partial) by {
        lemma_word_behind_dot(input);
    }
    assert(s.accepted().input =~= h + key + tail(input, s.cursor));
    assert(s.accepted().input =~= h + key);
    assert(forall|i: int| 0 <= i < partial.len() ==> partial[i] == key[i]);
    assert(input =~= s.accepted().input.subrange(0, input.len() as int));
}

proof fn lemma_word_behind_dot(input: Seq<char>)
    requires
        plain(input),
    ensures
        tail(input, word_start(encode_utf8(input), size(input) as int)) == after_dot(input),
{
    let bytes = encode_utf8(input);
    let w = word_start(bytes, size(input) as int);
    law_word_start(input, size(input) as int);
    lemma_word_edge(bytes, size(input) as int);
    lemma_cut(input, w);
    let h = head(input, w);
    let t = tail(input, w);
    input.index_of_last_ensures('.');
    // No dot stands in the word.
    assert forall|i: int| 0 <= i < t.len() implies t[i] != '.' by {
        if t[i] == '.' {
            let a = t.take(i);
            let b = t.skip(i + 1);
            assert(t =~= a + (seq!['.'] + b));
            lemma_encode_concat(a, seq!['.'] + b);
            lemma_encode_concat(seq!['.'], b);
            lemma_ascii_char('.');
            let k = w + size(a);
            assert(encode_utf8(t)[size(a) as int] == DOT);
            assert(bytes[k] == encode_utf8(t)[k - w]);
        }
    }
    if w == 0 {
        lemma_ends(input);
        assert(h =~= Seq::empty());
        assert(t =~= input);
        if input.contains('.') {
            let d = input.index_of_last('.')->0;
            assert(t[d] == '.');
        }
    } else {
        // The byte before the word is a dot: a plain path holds nothing else that ends a word.
        lemma_ascii_byte(input, w - 1);
        let c = bytes[w - 1] as char;
        assert(h.last() == c);
        assert(input[h.len() - 1] == c);
        assert(!crate::complete::breaks_path(input[h.len() - 1]));
        assert(c == '.');
        assert(input.contains('.'));
        let d = input.index_of_last('.')->0;
        if d >= h.len() {
            assert(t[d - h.len()] == '.');
        }
        assert(d == h.len() - 1);
        assert(input.skip(d + 1) =~= t);
    }
}

proof fn lemma_word_edge(bytes: Seq<u8>, cursor: int)
    ensures
        word_start(bytes, cursor) > 0 ==> crate::complete::ends_word(
            bytes[word_start(bytes, cursor) - 1],
        ),
    decreases cursor,
{
    if cursor > 0 && !crate::complete::ends_word(bytes[cursor - 1]) {
        lemma_word_edge(bytes, cursor - 1);
    }
}

/// What is completed inside a call is what follows the innermost open parenthesis: no parenthesis
/// is left open in it.
pub proof fn law_local_part_is_closed(s: Seq<char>)
    ensures
        open_parens(local_part(s)).len() == 0,
{
    if open_parens(s).len() > 0 {
        lemma_open_parens(s, open_parens(s).len() - 1);
    }
}

proof fn lemma_open_parens(s: Seq<char>, k: int)
    requires
        0 <= k < open_parens(s).len(),
    ensures
        0 <= open_parens(s)[k] < s.len(),
        open_parens(s.skip(open_parens(s)[k] + 1)).len() == open_parens(s).len() - k - 1,
    decreases s.len(),
{
    let most = s.drop_last();
    let before = open_parens(most);
    let p = open_parens(s)[k];
    if s.last() == '(' && k == before.len() {
        assert(s.skip(p + 1) =~= Seq::empty());
    } else {
        lemma_open_parens(most, k);
        assert(p == before[k]);
        let rest = s.skip(p + 1);
        assert(rest.drop_last() =~= most.skip(p + 1));
        assert(rest.last() == s.last());
    }
}

/// The view is full as long as there are lines to fill it: it never goes past the last line.
pub proof fn law_view_is_full(s: State, rows: nat)
    requires
        s.wf(),
    ensures
        window(s.line_offsets.len() as int, fitted(s, rows).scroll, rows as int) == if rows
            <= s.line_offsets.len() {
            rows as int
        } else {
            s.line_offsets.len() as int
        },
        fitted(s, rows).wf(),
{
}

/// Texts that were waiting together: the first one, and those that arrived behind it.
pub struct Batch {
    pub first: Seq<char>,
    pub newer: Seq<Seq<char>>,
}

impl Batch {
    /// All texts of the batch, in the order in which they arrived.
    pub open spec fn all(self) -> Seq<Seq<char>> {
        seq![self.first] + self.newer
    }
}

/// All texts that arrived, in order.
pub open spec fn received(batches: Seq<Batch>) -> Seq<Seq<char>>
    decreases batches.len(),
{
    if batches.len() == 0 {
        Seq::empty()
    } else {
        received(batches.drop_last()) + batches.last().all()
    }
}

/// The place among all texts of the last text of batch `i`.
pub open spec fn place(batches: Seq<Batch>, i: int) -> int {
    received(batches.take(i + 1)).len() - 1
}

/// The evaluations of batches are those of some of the texts that arrived, in order and each once,
/// and the last one is that of the last text. A text that is passed over had a newer one waiting
/// behind it.
pub proof fn law_last_text_is_answered(
    v: JsonView,
    indent: nat,
    batches: Seq<Batch>,
    results: Seq<EvaluationView>,
)
    requires
        batches.len() > 0,
        results.len() == batches.len(),
        forall|i: int|
            0 <= i < batches.len() ==> answers(
                v,
                latest_of(batches[i].first, batches[i].newer),
                indent,
                #[trigger] results[i],
            ),
    ensures
        1 <= results.len() <= received(batches).len(),
        forall|i: int|
            0 <= i < results.len() ==> 0 <= #[trigger] place(batches, i) < received(batches).len()
                && answers(v, received(batches)[place(batches, i)], indent, results[i]),
        forall|i: int, j: int|
            0 <= i < j < results.len() ==> #[trigger] place(batches, i) < #[trigger] place(
                batches,
                j,
            ),
        answers(v, received(batches).last(), indent, results.last()),
        forall|k: int|
            0 <= k < received(batches).len() && (forall|i: int|
                0 <= i < batches.len() ==> #[trigger] place(batches, i) != k)
                ==> #[trigger] passed_over(batches, k),
{
    lemma_places(batches);
    let n = batches.len() as int;
    assert(batches.take(n) =~= batches);
    assert(place(batches, n - 1) == received(batches).len() - 1);
    assert forall|i: int| 0 <= i < results.len() implies 0 <= #[trigger] place(batches, i)
        < received(batches).len() && answers(
        v,
        received(batches)[place(batches, i)],
        indent,
        results[i],
    ) by {
        assert(answers(v, latest_of(batches[i].first, batches[i].newer), indent, results[i]));
    }
    assert(answers(v, received(batches)[place(batches, n - 1)], indent, results[n - 1]));
    assert forall|k: int|
        0 <= k < received(batches).len() && (forall|i: int|
            0 <= i < batches.len() ==> #[trigger] place(batches, i) != k) implies
        #[trigger] passed_over(batches, k) by {
        let i = lemma_batch_of(batches, k);
        assert(place(batches, i) != k);
    }
}

/// The text at place `k` stands in a batch, and not at its end.
pub open spec fn passed_over(batches: Seq<Batch>, k: int) -> bool {
    exists|i: int|
        0 <= i < batches.len() && received(batches.take(i)).len() <= k < #[trigger] place(
            batches,
            i,
        )
}

proof fn lemma_places(batches: Seq<Batch>)
    ensures
        batches.len() <= received(batches).len(),
        forall|i: int|
            0 <= i < batches.len() ==> 0 <= #[trigger] place(batches, i) < received(batches).len()
                && received(batches)[place(batches, i)] == latest_of(
                batches[i].first,
                batches[i].newer,
            ),
        forall|i: int, j: int|
            0 <= i < j < batches.len() ==> #[trigger] place(batches, i) < #[trigger] place(
                batches,
                j,
            ),
    decreases batches.len(),
{
    if batches.len() > 0 {
        let most = batches.drop_last();
        let n = batches.len() as int;
        lemma_places(most);
        assert(batches.take(n) =~= batches);
        assert forall|i: int| 0 <= i < n - 1 implies #[trigger] place(batches, i) == place(
            most,
            i,
        ) by {
            assert(batches.take(i + 1) =~= most.take(i + 1));
        }
        let b = batches.last();
        assert(received(batches).last() == b.all().last());
        assert(b.all().last() == latest_of(b.first, b.newer));
        assert(place(batches, n - 1) == received(batches).len() - 1);
    }
}

proof fn lemma_batch_of(batches: Seq<Batch>, k: int) -> (i: int)
    requires
        0 <= k < received(batches).len(),
    ensures
        0 <= i < batches.len(),
        received(batches.take(i)).len() <= k <= place(batches, i),
    decreases batches.len(),
{
    let n = batches.len() as int;
    let most = batches.drop_last();
    assert(batches.take(n) =~= batches);
    assert(batches.take(n - 1) =~= most);
    if k < received(most).len() {
        let i = lemma_batch_of(most, k);
        assert(batches.take(i) =~= most.take(i));
        assert(batches.take(i + 1) =~= most.take(i + 1));
        i
    } else {
        n - 1
    }
}

} // verus!
