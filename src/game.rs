use vstd::prelude::*;
use rand::seq::SliceRandom;
use crate::board::{new_board_view, Board, BoardView};
use crate::cards::{fresh_deck, fresh_deck_spec, Card};

verus! {

/// The actions that a player can pick on a board.
pub enum ButtonType {
    CallOrCheck,
    RaiseOrBet,
    Fold,
    DoNothing,
    ToggleView,
}

/// One branch of history: the boards played in it, the branch it split
/// from, and the global time at which it split.
#[derive(Clone, PartialEq, Debug)]
pub struct Timeline {
    pub parent_index: usize,
    pub starting_time: usize,
    pub boards: Vec<Board>,
}

pub struct TimelineView {
    pub parent_index: int,
    pub starting_time: int,
    pub boards: Seq<BoardView>,
}

impl View for Timeline {
    type V = TimelineView;

    open spec fn view(&self) -> TimelineView {
        TimelineView {
            parent_index: self.parent_index as int,
            starting_time: self.starting_time as int,
            boards: self.boards@.map_values(|b: Board| b@),
        }
    }
}

/// Relies on rand's `SliceRandom::shuffle` with `thread_rng`: the deck is put
/// in some order, keeping the same cards.
#[verifier::external_body]
pub(crate) fn shuffle_deck(deck: &mut Vec<Card>)
    ensures
        final(deck)@.to_multiset() == old(deck)@.to_multiset(),
{
    deck.shuffle(&mut rand::thread_rng());
}

impl Timeline {
    /// A root timeline whose first hand is dealt from `deck`.
    pub fn with_deck(deck: Vec<Card>, num_players: usize) -> (r: Timeline)
        requires
            2 * num_players <= deck@.len(),
        ensures
            r@.parent_index == 0,
            r@.starting_time == 0,
            r@.boards == seq![new_board_view(deck@, num_players as int)],
    {
        let mut boards: Vec<Board> = Vec::new();
        boards.push(Board::new(deck, num_players));
        let r = Timeline { parent_index: 0, starting_time: 0, boards };
        assert(r@.boards =~= seq![new_board_view(deck@, num_players as int)]);
        r
    }

    /// A root timeline whose first hand is dealt from a freshly shuffled deck.
    pub fn genesis(num_players: usize) -> (r: Timeline)
        requires
            num_players <= 23,
        ensures
            r@.parent_index == 0,
            r@.starting_time == 0,
            exists|d: Seq<Card>|
                d.to_multiset() == fresh_deck_spec().to_multiset() && r@.boards == seq![
                    #[trigger] new_board_view(d, num_players as int),
                ],
    {
        let mut deck = fresh_deck();
        shuffle_deck(&mut deck);
        proof {
            vstd::seq_lib::to_multiset_len(deck@);
            vstd::seq_lib::to_multiset_len(fresh_deck_spec());
        }
        Timeline::with_deck(deck, num_players)
    }

    pub fn current_board(&self) -> (r: &Board)
        requires
            self@.boards.len() > 0,
        ensures
            r@ == self@.boards.last(),
    {
        self.boards.last().unwrap()
    }

    pub fn current_board_mut(&mut self) -> (r: &mut Board)
        requires
            old(self)@.boards.len() > 0,
        ensures
            *r == old(self).boards@.last(),
            final(self).boards@ == old(self).boards@.update(old(self).boards@.len() - 1, *final(r)),
            final(self).parent_index == old(self).parent_index,
            final(self).starting_time == old(self).starting_time,
    {
        let last = self.boards.len() - 1;
        &mut self.boards[last]
    }
}

} // verus!
