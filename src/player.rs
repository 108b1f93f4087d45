use vstd::prelude::*;
use crate::cards::Card;

verus! {

/// Chips that each player holds when a game starts.
pub const STARTING_CHIPS: i64 = 30;

/// What every player puts into each hand before any bet.
pub const ANTE: i64 = 1;

/// A seat at the table: a name and a chip ledger, which may go below zero.
#[derive(Clone, PartialEq, Debug)]
pub struct Player {
    pub name: String,
    pub chips: i64,
}

pub struct PlayerView {
    pub name: Seq<char>,
    pub chips: int,
}

impl View for Player {
    type V = PlayerView;

    open spec fn view(&self) -> PlayerView {
        PlayerView { name: self.name@, chips: self.chips as int }
    }
}

impl Player {
    pub fn from_name(name: String) -> (r: Player)
        ensures
            r.name@ == name@,
            r.chips == STARTING_CHIPS,
    {
        Player { name, chips: STARTING_CHIPS }
    }

    pub fn copy(&self) -> (r: Player)
        ensures
            r@ == self@,
    {
        Player { name: self.name.clone(), chips: self.chips }
    }
}

/// One player's part of a hand in progress.
#[derive(Clone, PartialEq, Debug)]
pub struct PlayerState {
    pub hand: Vec<Card>,
    pub bet: Vec<i64>,
    pub folded: bool,
}

pub struct PlayerStateView {
    pub hand: Seq<Card>,
    pub bet: Seq<i64>,
    pub folded: bool,
}

impl View for PlayerState {
    type V = PlayerStateView;

    open spec fn view(&self) -> PlayerStateView {
        PlayerStateView { hand: self.hand@, bet: self.bet@, folded: self.folded }
    }
}

/// The sum of a sequence of bets.
pub open spec fn bet_sum(bets: Seq<i64>) -> int
    decreases bets.len(),
{
    if bets.len() == 0 {
        0
    } else {
        bet_sum(bets.drop_last()) + bets.last()
    }
}

impl PlayerStateView {
    /// All that the player has put at stake in this hand: the bets and the ante.
    pub open spec fn total(self) -> int {
        bet_sum(self.bet) + ANTE
    }
}

impl PlayerState {
    pub fn copy(&self) -> (r: PlayerState)
        ensures
            r@ == self@,
    {
        let hand = self.hand.clone();
        let bet = self.bet.clone();
        assert(hand@ =~= self.hand@);
        assert(bet@ =~= self.bet@);
        PlayerState { hand, bet, folded: self.folded }
    }

    /// The chips this player has at risk in the hand: the sum of the bets plus the ante.
    pub fn commitment(&self) -> (r: i64)
        requires
            i64::MIN <= self@.total() <= i64::MAX,
        ensures
            r == self@.total(),
    {
        let mut sum: i128 = 0;
        let mut i: usize = 0;
        while i < self.bet.len()
            invariant
                0 <= i <= self.bet@.len(),
                sum == bet_sum(self.bet@.subrange(0, i as int)),
                -(i as int) * 0x8000_0000_0000_0000 <= sum <= (i as int) * 0x8000_0000_0000_0000,
            decreases self.bet@.len() - i,
        {
            let b = self.bet[i];
            assert(self.bet@.subrange(0, i + 1).drop_last() =~= self.bet@.subrange(0, i as int));
            proof {
                let k = i as int;
                assert(k + 1 <= 0xffff_ffff_ffff_ffff);
                assert((k + 1) * 0x8000_0000_0000_0000 <= 0xffff_ffff_ffff_ffff * 0x8000_0000_0000_0000)
                    by (nonlinear_arith)
                    requires k + 1 <= 0xffff_ffff_ffff_ffff;
                assert((k + 1) * 0x8000_0000_0000_0000 == k * 0x8000_0000_0000_0000 + 0x8000_0000_0000_0000)
                    by (nonlinear_arith);
            }
            sum = sum + b as i128;
            i = i + 1;
        }
        assert(self.bet@.subrange(0, i as int) =~= self.bet@);
        (sum + ANTE as i128) as i64
    }
}

} // verus!
