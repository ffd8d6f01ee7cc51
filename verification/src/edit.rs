//! The commands of a session.

use crate::app::{appends, Action, App, Popup, Request, State, MENU_ROWS};
use crate::complete::{law_word_start, word_start_at};
use crate::text::{
    byte_len, chars_of, cut, lemma_cut, lemma_cut_at_seam, lemma_ends, lemma_left_of, same_text,
    size, step_left, text_of, texts, trim, trimmed,
};
use vstd::prelude::*;

verus! {

/// `a` followed by `b`.
fn concat(a: &str, b: &str) -> (r: String)
    ensures
        r@ == a@ + b@,
{
    let mut r = a.to_owned();
    r.append(b);
    r
}

impl App {
    /// Types a character at the cursor.
    pub fn insert_char(&mut self, c: char) -> (r: Action)
        requires
            old(self)@.wf(),
        ensures
            final(self)@ == old(self)@.inserted(c),
            final(self)@.wf(),
            r@ == Request::Evaluate(final(self)@.input),
    {
        self.popup = None;
        self.history_idx = None;
        let (before, after) = cut(self.input.as_str(), self.cursor);
        let mut front = before.to_owned();
        front.push(c);
        let ghost b = before@;
        let ghost a = after@;
        let input = concat(front.as_str(), after);
        let end = byte_len(front.as_str());
        proof {
            lemma_cut(self.input@, self.cursor as int);
            assert(b.push(c) =~= b + seq![c]);
            lemma_cut_at_seam(b, seq![c]);
            lemma_cut_at_seam(b.push(c), a);
        }
        self.input = input;
        self.cursor = end;
        assert(self@ =~= old(self)@.cleared().typed(
            b.push(c) + a,
            old(self)@.cursor + size(seq![c]),
        ));
        self.after_edit()
    }

    /// Deletes the character before the cursor.
    pub fn delete_before(&mut self) -> (r: Action)
        requires
            old(self)@.wf(),
        ensures
            final(self)@ == old(self)@.deleted_before(),
            final(self)@.wf(),
            r@ == (if old(self)@.cursor > 0 {
                Request::Evaluate(final(self)@.input)
            } else {
                Request::Idle
            }),
    {
        self.popup = None;
        self.history_idx = None;
        if self.cursor > 0 {
            let left = step_left(self.input.as_str(), self.cursor);
            let before = cut(self.input.as_str(), left).0;
            let after = cut(self.input.as_str(), self.cursor).1;
            let ghost b = before@;
            let ghost a = after@;
            let input = concat(before, after);
            proof {
                lemma_left_of(self.input@, self.cursor as int);
                lemma_cut(self.input@, left as int);
                lemma_cut_at_seam(b, a);
            }
            self.input = input;
            self.cursor = left;
            assert(self@ =~= old(self)@.cleared().typed(b + a, left as int));
            self.after_edit()
        } else {
            assert(self@ =~= old(self)@.cleared());
            Action::Idle
        }
    }

    /// Deletes the character behind the cursor.
    pub fn delete_after(&mut self) -> (r: Action)
        requires
            old(self)@.wf(),
        ensures
            final(self)@ == old(self)@.deleted_after(),
            final(self)@.wf(),
            r@ == (if old(self)@.cursor < size(old(self)@.input) {
                Request::Evaluate(final(self)@.input)
            } else {
                Request::Idle
            }),
    {
        self.popup = None;
        self.history_idx = None;
        if self.cursor < byte_len(self.input.as_str()) {
            let (before, after) = cut(self.input.as_str(), self.cursor);
            let chars = chars_of(after);
            let ghost b = before@;
            let ghost a = after@;
            proof {
                lemma_cut(self.input@, self.cursor as int);
                if a.len() == 0 {
                    assert(size(a) == 0);
                }
            }
            let rest = text_of(&chars, 1, chars.len());
            assert(rest@ =~= a.drop_first());
            let input = concat(before, rest.as_str());
            proof {
                lemma_cut_at_seam(b, a.drop_first());
            }
            self.input = input;
            assert(self@ =~= old(self)@.cleared().typed(b + a.drop_first(), old(self)@.cursor));
            self.after_edit()
        } else {
            assert(self@ =~= old(self)@.cleared());
            Action::Idle
        }
    }

    /// Shows entry `i` of the history.
    fn recall(&mut self, i: usize) -> (r: Action)
        requires
            old(self)@.wf(),
            i < old(self)@.history.len(),
        ensures
            final(self)@ == old(self)@.recalled(i),
            final(self)@.wf(),
            r@ == Request::Evaluate(final(self)@.input),
    {
        self.history_idx = Some(i);
        self.input = self.history[i].clone();
        self.cursor = byte_len(self.input.as_str());
        self.popup = None;
        proof {
            lemma_ends(self.input@);
            let s = old(self)@;
            assert(self@ =~= State { history_idx: Some(i), popup: None, ..s }.typed(
                s.history[i as int],
                size(s.history[i as int]) as int,
            ));
        }
        self.after_edit()
    }

    /// Goes one step back in the history.
    pub fn history_up(&mut self) -> (r: Action)
        requires
            old(self)@.wf(),
        ensures
            final(self)@ == old(self)@.stepped_back(),
            final(self)@.wf(),
            r@ == (if old(self)@.entry_before() is Some {
                Request::Evaluate(final(self)@.input)
            } else {
                Request::Idle
            }),
    {
        if self.history.len() == 0 {
            return Action::Idle;
        }
        let idx: usize = match self.history_idx {
            Some(i) => {
                if i > 0 {
                    i - 1
                } else {
                    return Action::Idle;
                }
            },
            None => self.history.len() - 1,
        };
        self.recall(idx)
    }

    /// Goes one step forward in the history.
    pub fn history_down(&mut self) -> (r: Action)
        requires
            old(self)@.wf(),
        ensures
            final(self)@ == old(self)@.stepped_forward(),
            final(self)@.wf(),
            r@ == (if old(self)@.history_idx is Some {
                Request::Evaluate(final(self)@.input)
            } else {
                Request::Idle
            }),
    {
        match self.history_idx {
            Some(i) => {
                if i < self.history.len() - 1 {
                    self.recall(i + 1)
                } else {
                    self.history_idx = None;
                    self.input = String::new();
                    self.cursor = 0;
                    self.popup = None;
                    proof {
                        lemma_ends(self.input@);
                        assert(self@ =~= old(self)@.cleared().typed(Seq::empty(), 0));
                    }
                    self.after_edit()
                }
            },
            None => Action::Idle,
        }
    }

    /// Remembers the filter, unless it is empty or the last one remembered.
    pub fn push_history(&mut self) -> (r: Action)
        requires
            old(self)@.wf(),
        ensures
            final(self)@ == old(self)@.remembered(),
            final(self)@.wf(),
            r@ == (if old(self)@.is_new() {
                Request::Remember(trimmed(old(self)@.input))
            } else {
                Request::Idle
            }),
    {
        let line = trim(self.input.as_str());
        let n = self.history.len();
        let known = n > 0 && same_text(self.history[n - 1].as_str(), line.as_str());
        let ghost before = self.history@;
        assert(n > 0 ==> texts(before).last() == before[n - 1]@);
        self.history_idx = None;
        if !line.as_str().is_empty() && !known {
            self.history.push(line.clone());
            assert(texts(self.history@) =~= texts(before).push(line@));
            assert(self@ =~= old(self)@.remembered());
            Action::Remember(line)
        } else {
            assert(self@ =~= old(self)@.remembered());
            Action::Idle
        }
    }

    /// Selects the next completion if the popup is open, and opens it otherwise.
    pub fn cycle_or_open(&mut self)
        requires
            old(self)@.wf(),
        ensures
            final(self)@ == old(self)@.cycled(true),
            final(self)@.wf(),
    {
        if self.popup.is_some() {
            self.cycle_completion(true);
        } else {
            self.open_completion();
        }
    }

    /// Selects the next completion or the one before; opens the popup if it is closed.
    pub fn cycle_completion(&mut self, forward: bool)
        requires
            old(self)@.wf(),
        ensures
            final(self)@ == old(self)@.cycled(forward),
            final(self)@.wf(),
    {
        match self.popup.take() {
            Some(p) => {
                let ghost menu = p@;
                let n = p.items.len();
                assert(menu.items.len() == n);
                let selected: usize = if forward {
                    if p.selected + 1 == n {
                        0
                    } else {
                        p.selected + 1
                    }
                } else if p.selected == 0 {
                    n - 1
                } else {
                    p.selected - 1
                };
                let scroll_off: usize = if selected < p.scroll_off {
                    selected
                } else if selected - p.scroll_off >= MENU_ROWS {
                    selected - MENU_ROWS + 1
                } else {
                    p.scroll_off
                };
                let next = Popup { items: p.items, selected, scroll_off };
                assert(next@ == menu.moved(forward));
                self.popup = Some(next);
                assert(self@ =~= State { popup: Some(menu.moved(forward)), ..old(self)@ });
            },
            None => {
                assert(self@ =~= old(self)@);
                self.open_completion();
            },
        }
    }

    /// Puts the selected completion in.
    pub fn accept_completion(&mut self) -> (r: Action)
        requires
            old(self)@.wf(),
        ensures
            final(self)@ == old(self)@.accepted(),
            final(self)@.wf(),
            r@ == (if old(self)@.popup is Some {
                Request::Evaluate(final(self)@.input)
            } else {
                Request::Idle
            }),
    {
        match self.popup.take() {
            Some(p) => {
                let key = p.items[p.selected].clone();
                let ghost s = old(self)@;
                assert(key@ == p@.items[p@.selected]);
                let chars = chars_of(key.as_str());
                let behind = chars.len() > 0 && (chars[0] == '.' || chars[0] == '[');
                assert(behind == appends(key@));
                proof {
                    lemma_cut(s.input, s.cursor);
                    law_word_start(s.input, s.cursor);
                }
                let from: usize = if behind {
                    self.cursor
                } else {
                    word_start_at(self.input.as_str(), self.cursor)
                };
                assert(from == s.replaced_from(key@));
                let before = cut(self.input.as_str(), from).0;
                let after = cut(self.input.as_str(), self.cursor).1;
                let ghost b = before@;
                let ghost a = after@;
                let front = concat(before, key.as_str());
                let input = concat(front.as_str(), after);
                let end = byte_len(front.as_str());
                proof {
                    lemma_cut(s.input, from as int);
                    lemma_cut_at_seam(b, key@);
                    lemma_cut_at_seam(b + key@, a);
                }
                self.input = input;
                self.cursor = end;
                self.history_idx = None;
                assert(self@ =~= s.cleared().typed(b + key@ + a, from + size(key@)));
                self.after_edit()
            },
            None => {
                assert(self@ =~= old(self)@);
                Action::Idle
            },
        }
    }

    /// Moves the view up by `page` lines.
    pub fn scroll_page_up(&mut self, page: usize)
        requires
            old(self)@.wf(),
        ensures
            final(self)@ == old(self)@.scrolled_up(page as nat),
            final(self)@.wf(),
    {
        self.scroll = self.scroll.saturating_sub(page);
        assert(self@ =~= old(self)@.scrolled_up(page as nat));
    }

    /// Moves the view down by `page` lines, as far as it goes.
    pub fn scroll_page_down(&mut self, page: usize)
        requires
            old(self)@.wf(),
        ensures
            final(self)@ == old(self)@.scrolled_down(page as nat),
            final(self)@.wf(),
    {
        self.scroll = if self.max_scroll - self.scroll <= page {
            self.max_scroll
        } else {
            self.scroll + page
        };
        assert(self@ =~= old(self)@.scrolled_down(page as nat));
    }
}

} // verus!
