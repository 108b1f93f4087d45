pub mod turn;

use vstd::prelude::*;
pub use turn::Turn;
use crate::cards::Card;
use turn::{first_round_view, TurnView};

verus! {

/// One hand of poker as an append-only log of turns. The flag asks the
/// display to show the whole log rather than the shared present.
#[derive(Clone, PartialEq, Debug)]
pub struct Board(pub Vec<Turn>, pub bool);

pub struct BoardView {
    pub turns: Seq<TurnView>,
    pub show_all: bool,
}

impl View for Board {
    type V = BoardView;

    open spec fn view(&self) -> BoardView {
        BoardView { turns: self.0@.map_values(|t: Turn| t@), show_all: self.1 }
    }
}

/// A board that starts a hand on `deck` for `n` players.
pub open spec fn new_board_view(deck: Seq<Card>, n: int) -> BoardView {
    BoardView { turns: seq![first_round_view(deck, n)], show_all: false }
}

/// The number of turns kept when a log is cut at `turn`: up to and including it.
pub open spec fn intersect_len(len: int, turn: int) -> int {
    if turn + 1 < len {
        turn + 1
    } else {
        len
    }
}

impl BoardView {
    /// The log already runs more than one turn past `turn_limit`.
    pub open spec fn is_past(self, turn_limit: Option<usize>) -> bool {
        match turn_limit {
            Some(t) => self.turns.len() > t + 1,
            None => false,
        }
    }

    /// Index of the turn that a view at `turn_limit` shows: that turn, or the last.
    pub open spec fn shown_index(self, turn_limit: Option<usize>) -> int {
        match turn_limit {
            Some(t) => t as int,
            None => self.turns.len() - 1,
        }
    }
}

impl Board {
    pub fn new(deck: Vec<Card>, num_players: usize) -> (r: Board)
        requires
            2 * num_players <= deck@.len(),
        ensures
            r@ == new_board_view(deck@, num_players as int),
    {
        let first = Turn::first_round(deck, num_players);
        let mut turns: Vec<Turn> = Vec::new();
        turns.push(first);
        let r = Board(turns, false);
        assert(r@.turns =~= new_board_view(deck@, num_players as int).turns);
        r
    }

    /// A copy of `base` whose log stops at the turn `turn`.
    pub fn timeline_intersect(base: &Board, turn: usize) -> (r: Board)
        ensures
            r@.turns == base@.turns.subrange(0, intersect_len(base@.turns.len() as int, turn as int)),
            r@.show_all == base@.show_all,
    {
        let keep: usize = if turn < base.0.len() {
            turn + 1
        } else {
            base.0.len()
        };
        let mut turns: Vec<Turn> = Vec::new();
        let mut i: usize = 0;
        while i < keep
            invariant
                0 <= i <= keep,
                keep <= base.0@.len(),
                turns@.len() == i,
                forall|k: int| 0 <= k < i ==> (#[trigger] turns@[k])@ == base.0@[k]@,
            decreases keep - i,
        {
            turns.push(base.0[i].copy());
            i = i + 1;
        }
        let r = Board(turns, base.1);
        assert(r@.turns =~= base@.turns.subrange(0, intersect_len(base@.turns.len() as int, turn as int)));
        r
    }

    pub fn is_past(&self, turn_limit: Option<usize>) -> (r: bool)
        ensures
            r == self@.is_past(turn_limit),
    {
        match turn_limit {
            Some(t) => t < self.0.len() && self.0.len() - t > 1,
            None => false,
        }
    }

    pub fn get_turn(&self, turn_limit: Option<usize>) -> (r: &Turn)
        requires
            self@.turns.len() > 0,
            0 <= self@.shown_index(turn_limit) < self@.turns.len(),
        ensures
            r@ == self@.turns[self@.shown_index(turn_limit)],
    {
        let index = match turn_limit {
            Some(t) => t,
            None => self.0.len() - 1,
        };
        &self.0[index]
    }

    pub fn get_turn_mut(&mut self, turn_limit: Option<usize>) -> (r: &mut Turn)
        requires
            old(self)@.turns.len() > 0,
            0 <= old(self)@.shown_index(turn_limit) < old(self)@.turns.len(),
        ensures
            *r == old(self).0@[old(self)@.shown_index(turn_limit)],
            final(self).0@ == old(self).0@.update(old(self)@.shown_index(turn_limit), *final(r)),
            final(self).1 == old(self).1,
    {
        let index = match turn_limit {
            Some(t) => t,
            None => self.0.len() - 1,
        };
        &mut self.0[index]
    }
}

} // verus!
