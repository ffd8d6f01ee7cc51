//! What keys and the mouse do.

use crate::app::{Action, App, Request, State};
use crate::text::{
    boundary, byte_len, left_of, lemma_cut, lemma_ends, right_of, size, step_left, step_right,
    trimmed,
};
use vstd::prelude::*;

verus! {

/// How many lines a page key scrolls.
pub const PAGE: usize = 10;

/// How many lines the mouse wheel scrolls.
pub const WHEEL_LINES: usize = 3;

/// A key of the keyboard.
#[derive(Debug, Clone, Copy, PartialEq, Eq, Structural)]
pub enum Key {
    F(u8),
    Char(char),
    Esc,
    Tab,
    Enter,
    Backspace,
    Delete,
    Left,
    Right,
    Home,
    End,
    Up,
    Down,
    PageUp,
    PageDown,
    Other,
}

/// What the mouse did.
#[derive(Debug, Clone, Copy, PartialEq, Eq, Structural)]
pub enum Mouse {
    ScrollUp,
    ScrollDown,
    Other,
}

/// Something that happened at the terminal.
#[derive(Debug, Clone, Copy, PartialEq, Eq, Structural)]
pub enum Event {
    /// A key, and whether the control key and no other modifier was held with it.
    Key { code: Key, control: bool },
    Mouse(Mouse),
    Resize,
    Other,
}

/// A key that ends the session at once.
pub open spec fn quits(code: Key, control: bool) -> bool {
    control && (code == Key::Char('c') || code == Key::Char('d'))
}

/// The enter key, or the character that some terminals send for it.
pub open spec fn is_enter(code: Key) -> bool {
    code == Key::Enter || code == Key::Char('\r') || code == Key::Char('\n')
}

/// The tab key, or the character that some terminals send for it.
pub open spec fn is_tab(code: Key) -> bool {
    code == Key::Tab || code == Key::Char('\t')
}

/// A character that is typed.
pub open spec fn types(code: Key, control: bool) -> bool {
    code is Char && !quits(code, control) && !is_enter(code) && !is_tab(code)
}

impl State {
    /// The cursor moves, and completions are offered.
    pub open spec fn moved_to(self, cursor: int) -> State {
        self.typed(self.input, cursor).opened()
    }

    /// The session after a key.
    pub open spec fn after_key(self, code: Key, control: bool) -> State {
        if code == Key::F(1) {
            State { show_debug: !self.show_debug, ..self }
        } else if quits(code, control) {
            State { running: false, ..self }
        } else if is_tab(code) {
            self.cycled(true)
        } else if is_enter(code) {
            if self.popup is Some {
                self.accepted()
            } else if self.input.len() == 0 {
                self.opened()
            } else {
                self.remembered()
            }
        } else {
            match code {
                Key::Esc => if self.popup is Some {
                    State { popup: None, ..self }
                } else {
                    State { running: false, ..self }
                },
                Key::Backspace => self.deleted_before(),
                Key::Delete => self.deleted_after(),
                Key::Left => self.moved_to(left_of(self.input, self.cursor)),
                Key::Right => self.moved_to(right_of(self.input, self.cursor)),
                Key::Home => self.moved_to(0),
                Key::End => self.moved_to(size(self.input) as int),
                Key::Char(c) => self.inserted(c),
                Key::Up => if self.popup is Some {
                    self.cycled(false)
                } else if self.input.len() == 0 {
                    self.stepped_back()
                } else {
                    self
                },
                Key::Down => if self.popup is Some {
                    self.cycled(true)
                } else if self.input.len() == 0 {
                    self.stepped_forward()
                } else {
                    self
                },
                Key::PageUp => self.scrolled_up(PAGE as nat),
                Key::PageDown => self.scrolled_down(PAGE as nat),
                _ => self,
            }
        }
    }

    /// The session after an event.
    pub open spec fn after(self, event: Event) -> State {
        match event {
            Event::Key { code, control } => self.after_key(code, control),
            Event::Mouse(Mouse::ScrollUp) => self.scrolled_up(WHEEL_LINES as nat),
            Event::Mouse(Mouse::ScrollDown) => self.scrolled_down(WHEEL_LINES as nat),
            _ => self,
        }
    }

    /// Whether a key changes the filter.
    pub open spec fn edits(self, code: Key, control: bool) -> bool {
        ||| types(code, control)
        ||| is_enter(code) && self.popup is Some
        ||| code == Key::Backspace && self.cursor > 0
        ||| code == Key::Delete && self.cursor < size(self.input)
        ||| code == Key::Up && self.popup is None && self.input.len() == 0
            && self.entry_before() is Some
        ||| code == Key::Down && self.popup is None && self.input.len() == 0
            && self.history_idx is Some
    }

    /// What an event makes the session ask for: a filter that was edited is to be run, and a filter
    /// that was entered is to be remembered.
    pub open spec fn request(self, event: Event) -> Request {
        match event {
            Event::Key { code, control } => if self.edits(code, control) {
                Request::Evaluate(self.after(event).input)
            } else if is_enter(code) && self.is_new() {
                Request::Remember(trimmed(self.input))
            } else {
                Request::Idle
            },
            _ => Request::Idle,
        }
    }
}

impl App {
    /// Moves the cursor.
    fn move_cursor(&mut self, cursor: usize)
        requires
            old(self)@.wf(),
            boundary(old(self)@.input, cursor as int),
        ensures
            final(self)@ == old(self)@.moved_to(cursor as int),
            final(self)@.wf(),
    {
        self.cursor = cursor;
        assert(self@ =~= old(self)@.typed(old(self)@.input, cursor as int));
        self.after_cursor();
    }

    /// What a key does.
    fn handle_key(&mut self, code: Key, control: bool) -> (r: Action)
        requires
            old(self)@.wf(),
        ensures
            final(self)@ == old(self)@.after_key(code, control),
            final(self)@.wf(),
            r@ == old(self)@.request((Event::Key { code, control })),
    {
        let ghost s = self@;
        proof {
            lemma_cut(s.input, s.cursor);
            lemma_ends(s.input);
        }
        match code {
            Key::F(1) => {
                self.show_debug = !self.show_debug;
                assert(self@ =~= State { show_debug: !s.show_debug, ..s });
                Action::Idle
            },
            Key::Char(c) if control && (c == 'c' || c == 'd') => {
                self.running = false;
                assert(self@ =~= State { running: false, ..s });
                Action::Idle
            },
            Key::Esc => {
                if self.popup.is_some() {
                    self.popup = None;
                    assert(self@ =~= State { popup: None, ..s });
                } else {
                    self.running = false;
                    assert(self@ =~= State { running: false, ..s });
                }
                Action::Idle
            },
            Key::Tab | Key::Char('\t') => {
                self.cycle_or_open();
                Action::Idle
            },
            Key::Enter | Key::Char('\r') | Key::Char('\n') => {
                if self.popup.is_some() {
                    self.accept_completion()
                } else if self.input.as_str().is_empty() {
                    proof {
                        assert(trimmed(s.input) == s.input);
                    }
                    self.open_completion();
                    Action::Idle
                } else {
                    self.push_history()
                }
            },
            Key::Backspace => self.delete_before(),
            Key::Delete => self.delete_after(),
            Key::Left => {
                let to = step_left(self.input.as_str(), self.cursor);
                self.move_cursor(to);
                Action::Idle
            },
            Key::Right => {
                let to = step_right(self.input.as_str(), self.cursor);
                self.move_cursor(to);
                Action::Idle
            },
            Key::Home => {
                self.move_cursor(0);
                Action::Idle
            },
            Key::End => {
                let len = byte_len(self.input.as_str());
                self.move_cursor(len);
                Action::Idle
            },
            Key::Char(c) => self.insert_char(c),
            Key::Up => {
                if self.popup.is_some() {
                    self.cycle_completion(false);
                    Action::Idle
                } else if self.input.as_str().is_empty() {
                    self.history_up()
                } else {
                    Action::Idle
                }
            },
            Key::Down => {
                if self.popup.is_some() {
                    self.cycle_completion(true);
                    Action::Idle
                } else if self.input.as_str().is_empty() {
                    self.history_down()
                } else {
                    Action::Idle
                }
            },
            Key::PageUp => {
                self.scroll_page_up(PAGE);
                Action::Idle
            },
            Key::PageDown => {
                self.scroll_page_down(PAGE);
                Action::Idle
            },
            _ => Action::Idle,
        }
    }
}

/// What an event does to a session, and what it makes the session ask for.
pub fn handle_event(app: &mut App, event: Event) -> (r: Action)
    requires
        old(app)@.wf(),
    ensures
        final(app)@ == old(app)@.after(event),
        final(app)@.wf(),
        r@ == old(app)@.request(event),
{
    match event {
        Event::Key { code, control } => app.handle_key(code, control),
        Event::Mouse(Mouse::ScrollUp) => {
            app.scroll_page_up(WHEEL_LINES);
            Action::Idle
        },
        Event::Mouse(Mouse::ScrollDown) => {
            app.scroll_page_down(WHEEL_LINES);
            Action::Idle
        },
        _ => Action::Idle,
    }
}

} // verus!
