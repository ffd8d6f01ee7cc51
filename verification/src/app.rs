//! The state of a session and what its commands do to it.

use crate::complete::{completions, get_completions, smaller, word_start};
use crate::engine::{maybe_text, whole, Document, EvaluationView};
use crate::json::{Json, JsonView};
use crate::lines::{compute_offsets, offsets_of};
use crate::text::{
    boundary, chars_of, cut, head, left_of, lemma_ends, size, tail, text_of, texts, trimmed,
};
use std::sync::Arc;
use vstd::prelude::*;
use vstd::utf8::encode_utf8;

verus! {

/// How many completions are shown at once.
pub const MENU_ROWS: usize = 5;

/// The list of completions.
#[derive(Debug)]
pub struct Popup {
    pub items: Vec<String>,
    pub selected: usize,
    pub scroll_off: usize,
}

/// The model of a [`Popup`].
pub struct Menu {
    pub items: Seq<Seq<char>>,
    pub selected: int,
    pub scroll_off: int,
}

impl View for Popup {
    type V = Menu;

    open spec fn view(&self) -> Menu {
        Menu {
            items: texts(self.items@),
            selected: self.selected as int,
            scroll_off: self.scroll_off as int,
        }
    }
}

impl Menu {
    /// There is something to select, and what is selected is in view.
    pub open spec fn wf(self) -> bool {
        &&& 0 <= self.scroll_off <= self.selected < self.items.len()
        &&& self.selected < self.scroll_off + MENU_ROWS
    }

    /// A list of completions, the first one selected.
    pub open spec fn fresh(items: Seq<Seq<char>>) -> Menu {
        Menu { items, selected: 0, scroll_off: 0 }
    }

    /// Selects the next item, or the one before, going round at the ends.
    pub open spec fn moved(self, forward: bool) -> Menu {
        let n = self.items.len() as int;
        let selected = if forward {
            if self.selected + 1 == n {
                0
            } else {
                self.selected + 1
            }
        } else if self.selected == 0 {
            n - 1
        } else {
            self.selected - 1
        };
        let scroll_off = if selected < self.scroll_off {
            selected
        } else if selected >= self.scroll_off + MENU_ROWS {
            selected - MENU_ROWS + 1
        } else {
            self.scroll_off
        };
        Menu { items: self.items, selected, scroll_off }
    }
}

/// What a run of the engine came to, and how long it took in microseconds.
#[derive(Debug)]
pub struct EvalResult {
    pub text: String,
    pub count: usize,
    pub error: Option<String>,
    pub duration: u128,
}

/// What the session asks of its surroundings.
#[derive(Debug)]
pub enum Action {
    /// Nothing.
    Idle,
    /// Run a filter.
    Evaluate(String),
    /// Write a filter to the history file.
    Remember(String),
}

/// The model of an [`Action`].
pub enum Request {
    Idle,
    Evaluate(Seq<char>),
    Remember(Seq<char>),
}

impl View for Action {
    type V = Request;

    open spec fn view(&self) -> Request {
        match self {
            Action::Idle => Request::Idle,
            Action::Evaluate(s) => Request::Evaluate(s@),
            Action::Remember(s) => Request::Remember(s@),
        }
    }
}

/// A session.
pub struct App {
    pub raw_preview: String,
    pub json_value: Arc<Document>,
    pub filename: String,
    pub indent_size: usize,
    pub result_count: usize,
    /// How long the last run took, in microseconds.
    pub eval_duration: Option<u128>,
    /// The filter being typed.
    pub input: String,
    /// The byte offset of the cursor in `input`.
    pub cursor: usize,
    pub result_text: String,
    /// The byte offset of the start of each line of `result_text`.
    pub line_offsets: Vec<u32>,
    pub error: Option<String>,
    /// The first line in view.
    pub scroll: usize,
    pub max_scroll: usize,
    pub history: Vec<String>,
    /// The entry of `history` that is being shown.
    pub history_idx: Option<usize>,
    pub popup: Option<Popup>,
    pub show_debug: bool,
    pub running: bool,
}

/// The model of a session.
#[verifier::ext_equal]
pub struct State {
    pub raw_preview: Seq<char>,
    pub json: JsonView,
    pub filename: Seq<char>,
    pub indent_size: nat,
    pub result_count: nat,
    pub eval_duration: Option<u128>,
    pub input: Seq<char>,
    pub cursor: int,
    pub result_text: Seq<char>,
    pub line_offsets: Seq<u32>,
    pub error: Option<Seq<char>>,
    pub scroll: int,
    pub max_scroll: int,
    pub history: Seq<Seq<char>>,
    pub history_idx: Option<usize>,
    pub popup: Option<Menu>,
    pub show_debug: bool,
    pub running: bool,
}

impl View for App {
    type V = State;

    open spec fn view(&self) -> State {
        State {
            raw_preview: self.raw_preview@,
            json: self.json_value@,
            filename: self.filename@,
            indent_size: self.indent_size as nat,
            result_count: self.result_count as nat,
            eval_duration: self.eval_duration,
            input: self.input@,
            cursor: self.cursor as int,
            result_text: self.result_text@,
            line_offsets: self.line_offsets@,
            error: maybe_text(self.error),
            scroll: self.scroll as int,
            max_scroll: self.max_scroll as int,
            history: texts(self.history@),
            history_idx: self.history_idx,
            popup: match self.popup {
                Some(p) => Some(p@),
                None => None,
            },
            show_debug: self.show_debug,
            running: self.running,
        }
    }
}

/// The positions of the parentheses in `s` that are open at its end, the innermost last.
pub open spec fn open_parens(s: Seq<char>) -> Seq<int>
    decreases s.len(),
{
    if s.len() == 0 {
        Seq::empty()
    } else {
        let before = open_parens(s.drop_last());
        if s.last() == '(' {
            before.push(s.len() - 1)
        } else if s.last() == ')' && before.len() > 0 {
            before.drop_last()
        } else {
            before
        }
    }
}

/// The part of `s` that is completed: what follows the innermost open parenthesis, or all of it.
pub open spec fn local_part(s: Seq<char>) -> Seq<char> {
    if open_parens(s).len() > 0 {
        s.skip(open_parens(s).last() + 1)
    } else {
        s
    }
}

/// The value that a function call is applied to: the first element of an array, or else the value.
pub open spec fn call_root(v: JsonView) -> JsonView {
    match v {
        JsonView::Array(a) => if a.len() > 0 {
            a[0]
        } else {
            v
        },
        _ => v,
    }
}

/// `item` with a dot before it, unless it has one.
pub open spec fn with_dot(item: Seq<char>) -> Seq<char> {
    if item.len() > 0 && item[0] == '.' {
        item
    } else {
        seq!['.'] + item
    }
}

/// The completions that are offered when `before` stands before the cursor.
pub open spec fn offers(v: JsonView, before: Seq<char>) -> Seq<Seq<char>> {
    let inside = open_parens(before).len() > 0;
    let local = local_part(before);
    let items = completions(
        if inside {
            call_root(v)
        } else {
            v
        },
        local,
    );
    if before.len() > 0 && before.last() == ')' {
        Seq::empty()
    } else if inside && local.len() == 0 {
        Seq::new(items.len(), |i: int| with_dot(items[i]))
    } else {
        items
    }
}

/// Whether a completion is put behind what is typed, and does not take the place of a word.
pub open spec fn appends(key: Seq<char>) -> bool {
    key.len() > 0 && (key[0] == '.' || key[0] == '[')
}

impl State {
    /// The cursor stands between two characters; the entry shown is one of the history; what is
    /// selected in the popup is in view; the offsets are those of the result; the view is not
    /// scrolled too far.
    pub open spec fn wf(self) -> bool {
        &&& boundary(self.input, self.cursor)
        &&& self.history_idx matches Some(i) ==> i < self.history.len()
        &&& self.popup matches Some(p) ==> p.wf()
        &&& self.line_offsets == offsets_of(self.result_text)
        &&& 0 <= self.scroll <= self.max_scroll
    }

    /// The filter text and the cursor in it.
    pub open spec fn typed(self, input: Seq<char>, cursor: int) -> State {
        State { input, cursor, ..self }
    }

    /// Neither a popup nor an entry of the history is shown.
    pub open spec fn cleared(self) -> State {
        State { popup: None, history_idx: None, ..self }
    }

    /// Completions are offered; where there are none, nothing changes.
    pub open spec fn opened(self) -> State {
        let items = offers(self.json, head(self.input, self.cursor));
        if items.len() == 0 {
            self
        } else {
            State { popup: Some(Menu::fresh(items)), ..self }
        }
    }

    /// A character is typed at the cursor.
    pub open spec fn inserted(self, c: char) -> State {
        self.cleared().typed(
            head(self.input, self.cursor).push(c) + tail(self.input, self.cursor),
            self.cursor + size(seq![c]),
        ).opened()
    }

    /// The character before the cursor goes.
    pub open spec fn deleted_before(self) -> State {
        if self.cursor > 0 {
            self.cleared().typed(
                head(self.input, self.cursor).drop_last() + tail(self.input, self.cursor),
                left_of(self.input, self.cursor),
            ).opened()
        } else {
            self.cleared()
        }
    }

    /// The character behind the cursor goes.
    pub open spec fn deleted_after(self) -> State {
        if self.cursor < size(self.input) {
            self.cleared().typed(
                head(self.input, self.cursor) + tail(self.input, self.cursor).drop_first(),
                self.cursor,
            ).opened()
        } else {
            self.cleared()
        }
    }

    /// An entry of the history is shown, the cursor behind it.
    pub open spec fn recalled(self, i: usize) -> State {
        State { history_idx: Some(i), popup: None, ..self }.typed(
            self.history[i as int],
            size(self.history[i as int]) as int,
        ).opened()
    }

    /// The entry before the one shown; the last one where none is shown.
    pub open spec fn entry_before(self) -> Option<usize> {
        if self.history.len() == 0 {
            None
        } else {
            match self.history_idx {
                Some(i) => if i > 0 {
                    Some((i - 1) as usize)
                } else {
                    None
                },
                None => Some((self.history.len() - 1) as usize),
            }
        }
    }

    /// One step back in the history.
    pub open spec fn stepped_back(self) -> State {
        match self.entry_before() {
            Some(i) => self.recalled(i),
            None => self,
        }
    }

    /// One step forward in the history; behind the last entry stands an empty filter.
    pub open spec fn stepped_forward(self) -> State {
        match self.history_idx {
            Some(i) => if i + 1 < self.history.len() {
                self.recalled((i + 1) as usize)
            } else {
                self.cleared().typed(Seq::empty(), 0).opened()
            },
            None => self,
        }
    }

    /// The filter is one to remember: not empty, and not the last one remembered.
    pub open spec fn is_new(self) -> bool {
        let line = trimmed(self.input);
        line.len() > 0 && !(self.history.len() > 0 && self.history.last() == line)
    }

    /// The filter is remembered.
    pub open spec fn remembered(self) -> State {
        State {
            history: if self.is_new() {
                self.history.push(trimmed(self.input))
            } else {
                self.history
            },
            history_idx: None,
            ..self
        }
    }

    /// Another completion is selected; without a popup, completions are offered.
    pub open spec fn cycled(self, forward: bool) -> State {
        match self.popup {
            Some(p) => State { popup: Some(p.moved(forward)), ..self },
            None => self.opened(),
        }
    }

    /// Where the text begins that a completion takes the place of.
    pub open spec fn replaced_from(self, key: Seq<char>) -> int {
        if appends(key) {
            self.cursor
        } else {
            word_start(encode_utf8(self.input), self.cursor)
        }
    }

    /// The selected completion is put in: a field name in place of the word at the cursor,
    /// anything that begins with a dot or a bracket behind it.
    pub open spec fn accepted(self) -> State {
        match self.popup {
            Some(p) => {
                let key = p.items[p.selected];
                let from = self.replaced_from(key);
                self.cleared().typed(
                    head(self.input, from) + key + tail(self.input, self.cursor),
                    from + size(key),
                ).opened()
            },
            None => self,
        }
    }

    /// The view moves up.
    pub open spec fn scrolled_up(self, by: nat) -> State {
        State {
            scroll: if self.scroll <= by {
                0
            } else {
                self.scroll - by
            },
            ..self
        }
    }

    /// The view moves down, as far as it goes.
    pub open spec fn scrolled_down(self, by: nat) -> State {
        State { scroll: smaller(self.scroll + by, self.max_scroll), ..self }
    }

    /// A result is shown, from its first line on.
    pub open spec fn showing(self, e: EvaluationView, duration: u128) -> State {
        State {
            result_text: e.text,
            line_offsets: offsets_of(e.text),
            result_count: e.count,
            error: e.error,
            eval_duration: Some(duration),
            scroll: 0,
            ..self
        }
    }
}

/// The completions that are offered when `chars` stand before the cursor.
fn offered(json: &Json, chars: &Vec<char>) -> (r: Vec<String>)
    ensures
        texts(r@) == offers(json@, chars@),
{
    let n = chars.len();
    if n > 0 && chars[n - 1] == ')' {
        let r: Vec<String> = Vec::new();
        assert(texts(r@) =~= Seq::empty());
        return r;
    }
    let mut stack: Vec<usize> = Vec::new();
    let mut i: usize = 0;
    assert(chars@.take(0) =~= Seq::empty());
    while i < n
        invariant
            i <= n == chars@.len(),
            forall|k: int| 0 <= k < stack@.len() ==> #[trigger] stack@[k] < i,
            stack@.len() == open_parens(chars@.take(i as int)).len(),
            forall|k: int|
                0 <= k < stack@.len() ==> #[trigger] stack@[k] == open_parens(
                    chars@.take(i as int),
                )[k],
        decreases n - i,
    {
        assert(chars@.take(i + 1).drop_last() =~= chars@.take(i as int));
        let c = chars[i];
        if c == '(' {
            stack.push(i);
        } else if c == ')' {
            stack.pop();
        }
        i += 1;
    }
    assert(chars@.take(n as int) =~= chars@);
    let inside = stack.len() > 0;
    let from: usize = if inside {
        stack[stack.len() - 1] + 1
    } else {
        0
    };
    let local = text_of(chars, from, n);
    assert(local@ =~= local_part(chars@));
    let mut root: &Json = json;
    if inside {
        if let Json::Array(a) = json {
            if a.len() > 0 {
                root = &a[0];
            }
        }
    }
    let items = get_completions(root, local.as_str());
    if !(inside && from == n) {
        return items;
    }
    let mut r: Vec<String> = Vec::new();
    let mut j: usize = 0;
    while j < items.len()
        invariant
            j == r@.len() <= items@.len(),
            forall|k: int| 0 <= k < j ==> (#[trigger] r@[k])@ == with_dot(items@[k]@),
        decreases items@.len() - j,
    {
        let own = chars_of(items[j].as_str());
        let mut item = String::new();
        if !(own.len() > 0 && own[0] == '.') {
            item.push('.');
        }
        item.append(items[j].as_str());
        assert(item@ =~= with_dot(items@[j as int]@));
        r.push(item);
        j += 1;
    }
    assert(texts(r@) =~= Seq::new(texts(items@).len(), |i: int| with_dot(texts(items@)[i])));
    r
}

impl App {
    /// Starts a session on a document: the document is shown, and completions are offered.
    pub fn new(
        value: Arc<Document>,
        raw_preview: String,
        filename: String,
        indent_size: usize,
        history: Vec<String>,
    ) -> (r: App)
        ensures
            r@ == initial(
                value@,
                raw_preview@,
                filename@,
                indent_size as nat,
                texts(history@),
            ),
            r@.wf(),
    {
        let mut app = App {
            raw_preview,
            json_value: value,
            filename,
            indent_size,
            result_count: 0,
            eval_duration: None,
            input: String::new(),
            cursor: 0,
            result_text: String::new(),
            line_offsets: Vec::new(),
            error: None,
            scroll: 0,
            max_scroll: 0,
            history,
            history_idx: None,
            popup: None,
            show_debug: false,
            running: true,
        };
        proof {
            lemma_ends(app.input@);
            assert(app@ =~= blank(
                value@,
                raw_preview@,
                filename@,
                indent_size as nat,
                texts(history@),
            ));
        }
        app.eval_sync();
        app.open_completion();
        app
    }

    /// Shows the document itself.
    pub fn eval_sync(&mut self)
        requires
            old(self)@.wf(),
        ensures
            final(self)@ == old(self)@.showing(whole(old(self)@.json, old(self)@.indent_size), 0),
            final(self)@.wf(),
    {
        let shown = self.json_value.show(self.indent_size);
        self.result_count = shown.count;
        self.result_text = shown.text;
        self.line_offsets = compute_offsets(self.result_text.as_str());
        self.error = None;
        self.eval_duration = Some(0);
        self.scroll = 0;
        assert(self@ =~= old(self)@.showing(whole(old(self)@.json, old(self)@.indent_size), 0));
    }

    /// Asks for the filter to be run.
    pub fn eval_async(&self) -> (r: Action)
        ensures
            r@ == Request::Evaluate(self@.input),
    {
        Action::Evaluate(self.input.clone())
    }

    /// After a change of the filter: it is to be run, and completions are offered.
    pub fn after_edit(&mut self) -> (r: Action)
        requires
            old(self)@.wf(),
        ensures
            final(self)@ == old(self)@.opened(),
            final(self)@.wf(),
            r@ == Request::Evaluate(old(self)@.input),
    {
        let action = self.eval_async();
        self.open_completion();
        action
    }

    /// After a move of the cursor: completions are offered, and the filter need not be run again.
    pub fn after_cursor(&mut self)
        requires
            old(self)@.wf(),
        ensures
            final(self)@ == old(self)@.opened(),
            final(self)@.wf(),
    {
        self.open_completion();
    }

    /// Shows the results that have arrived, the last one in the end. Returns whether there were any.
    pub fn poll_eval(&mut self, results: Vec<EvalResult>) -> (r: bool)
        requires
            old(self)@.wf(),
        ensures
            r == (results@.len() > 0),
            results@.len() == 0 ==> final(self)@ == old(self)@,
            results@.len() > 0 ==> final(self)@ == old(self)@.showing(
                result_view(results@.last()),
                results@.last().duration,
            ),
            final(self)@.wf(),
    {
        let mut results = results;
        match results.pop() {
            Some(result) => {
                self.result_text = result.text;
                self.line_offsets = compute_offsets(self.result_text.as_str());
                self.result_count = result.count;
                self.error = result.error;
                self.eval_duration = Some(result.duration);
                self.scroll = 0;
                assert(self@ =~= old(self)@.showing(result_view(result), result.duration));
                true
            },
            None => false,
        }
    }

    /// Offers completions for what stands before the cursor, if there are any.
    pub fn open_completion(&mut self)
        requires
            old(self)@.wf(),
        ensures
            final(self)@ == old(self)@.opened(),
            final(self)@.wf(),
    {
        let before = cut(self.input.as_str(), self.cursor).0;
        let chars = chars_of(before);
        let items = offered(self.json_value.json(), &chars);
        let ghost list = texts(items@);
        assert(list == offers(self@.json, head(self@.input, self@.cursor)));
        if items.len() == 0 {
            return;
        }
        self.popup = Some(Popup { items, selected: 0, scroll_off: 0 });
        assert(self@ =~= State { popup: Some(Menu::fresh(list)), ..old(self)@ });
    }
}

/// What a result holds, but for the time it took.
pub open spec fn result_view(r: EvalResult) -> EvaluationView {
    EvaluationView { text: r.text@, count: r.count as nat, error: maybe_text(r.error) }
}

/// A session before anything is shown.
pub open spec fn blank(
    json: JsonView,
    raw_preview: Seq<char>,
    filename: Seq<char>,
    indent_size: nat,
    history: Seq<Seq<char>>,
) -> State {
    State {
        raw_preview,
        json,
        filename,
        indent_size,
        result_count: 0,
        eval_duration: None,
        input: Seq::empty(),
        cursor: 0,
        result_text: Seq::empty(),
        line_offsets: Seq::empty(),
        error: None,
        scroll: 0,
        max_scroll: 0,
        history,
        history_idx: None,
        popup: None,
        show_debug: false,
        running: true,
    }
}

/// A session at its start: the document is shown, and completions are offered.
pub open spec fn initial(
    json: JsonView,
    raw_preview: Seq<char>,
    filename: Seq<char>,
    indent_size: nat,
    history: Seq<Seq<char>>,
) -> State {
    blank(json, raw_preview, filename, indent_size, history).showing(
        whole(json, indent_size),
        0,
    ).opened()
}

} // verus!
