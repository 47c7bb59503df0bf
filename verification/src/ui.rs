//! State of the scanner's interactive view: which answers are on display
//! and where the selection cursor stands. The terminal drawing around it is
//! not part of the library; it reads this state and renders it.

use crate::answers::safe_format_spec;
use crate::beacons::{channel_len, channel_try_recv, BeaconAnswer};
use crossbeam::channel::Receiver;
use vstd::prelude::*;

verus! {

/// What moving the selection forward picks: nothing changes while no
/// answers are shown; from no selection or from at-or-past the end it wraps
/// to the first answer, else it moves one further (which may point one past
/// the last answer, and then wraps on the following move).
pub open spec fn next_cursor(cursor: Option<usize>, len: nat) -> Option<usize> {
    if len == 0 {
        cursor
    } else {
        match cursor {
            Option::None => Option::Some(0usize),
            Option::Some(i) => if i >= len {
                Option::Some(0usize)
            } else {
                Option::Some((i + 1) as usize)
            },
        }
    }
}

/// What moving the selection backward picks: nothing changes while no
/// answers are shown; from no selection it picks the first answer, from the
/// first it wraps to the last, else it moves one back.
pub open spec fn prev_cursor(cursor: Option<usize>, len: nat) -> Option<usize> {
    if len == 0 {
        cursor
    } else {
        match cursor {
            Option::None => Option::Some(0usize),
            Option::Some(i) => if i == 0 {
                Option::Some((len - 1) as usize)
            } else {
                Option::Some((i - 1) as usize)
            },
        }
    }
}

/// The text shown for a selection: the rendered payload of the selected
/// answer, or nothing when no answer is selected or the selection points
/// past the end.
pub open spec fn info_text_spec(answers: Seq<BeaconAnswer>, cursor: Option<usize>) -> Seq<char> {
    match cursor {
        Option::None => Seq::empty(),
        Option::Some(i) => if i < answers.len() {
            safe_format_spec(answers[i as int].payload@)
        } else {
            Seq::empty()
        },
    }
}

/// The interactive view's state: the beacon answers on display and the
/// selection cursor of the address list.
#[derive(Debug, Clone)]
pub struct App {
    pub server_answers: Vec<BeaconAnswer>,
    pub cursor: Option<usize>,
}

impl Default for App {
    /// No answers shown, nothing selected.
    fn default() -> (r: Self)
        ensures
            r.server_answers@ == Seq::<BeaconAnswer>::empty(),
            r.cursor is None,
    {
        let r = App { server_answers: Vec::new(), cursor: None };
        r
    }
}

impl App {
    /// The current selection.
    pub fn get_cursor(&self) -> (r: Option<usize>)
        ensures
            r == self.cursor,
    {
        self.cursor
    }

    /// Moves the selection to the next answer, as `next_cursor` says.
    pub fn next(&mut self)
        ensures
            final(self).server_answers == old(self).server_answers,
            final(self).cursor == next_cursor(old(self).cursor, old(self).server_answers@.len()),
    {
        if self.server_answers.is_empty() {
            return ;
        }
        let len = self.server_answers.len();
        let index = match self.get_cursor() {
            None => 0,
            Some(i) => if i >= len {
                0
            } else {
                i + 1
            },
        };
        self.cursor = Some(index);
    }

    /// Moves the selection to the previous answer, as `prev_cursor` says.
    pub fn prev(&mut self)
        ensures
            final(self).server_answers == old(self).server_answers,
            final(self).cursor == prev_cursor(old(self).cursor, old(self).server_answers@.len()),
    {
        if self.server_answers.is_empty() {
            return ;
        }
        let len = self.server_answers.len();
        let index = match self.get_cursor() {
            None => 0,
            Some(i) => if i == 0 {
                len - 1
            } else {
                i - 1
            },
        };
        self.cursor = Some(index);
    }

    /// The rendered payload of the selected answer, empty when nothing
    /// usable is selected.
    pub fn get_info_text(&self) -> (r: String)
        ensures
            r@ == info_text_spec(self.server_answers@, self.cursor),
    {
        let index = match self.get_cursor() {
            None => {
                return String::new();
            },
            Some(i) => i,
        };
        if index < self.server_answers.len() {
            self.server_answers[index].payload.safe_format()
        } else {
            String::new()
        }
    }

    /// Replaces the displayed answers with the newest batch queued by the
    /// aggregator, if any; the selection is kept. Which batches are queued
    /// depends on the other threads, so nothing is promised of the answers
    /// shown afterwards.
    pub fn update_answers(&mut self, channel_receiving_end: &Receiver<Vec<BeaconAnswer>>)
        ensures
            final(self).cursor == old(self).cursor,
    {
        let mut remaining = channel_len(channel_receiving_end);
        loop
            invariant
                self.cursor == old(self).cursor,
            ensures
                self.cursor == old(self).cursor,
            decreases remaining,
        {
            if remaining == 0 {
                break;
            }
            match channel_try_recv(channel_receiving_end) {
                None => {
                    break;
                },
                Some(batch) => {
                    self.server_answers = batch;
                },
            }
            remaining = remaining - 1;
        }
    }
}

} // verus!
