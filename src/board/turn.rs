use vstd::prelude::*;
use crate::cards::{Card, HandType};
use crate::player::{PlayerState, PlayerStateView};

verus! {

/// One snapshot of a hand in progress.
#[derive(Clone, PartialEq, Debug)]
pub struct Turn {
    pub player_states: Vec<PlayerState>,
    pub open_cards: Vec<Card>,
    pub deck: Vec<Card>,
    pub completed_stage: usize,
    pub bet_amount: i64,
    pub num_checks: usize,
    pub winning_hand_type: Option<HandType>,
}

pub struct TurnView {
    pub player_states: Seq<PlayerStateView>,
    pub open_cards: Seq<Card>,
    pub deck: Seq<Card>,
    pub completed_stage: int,
    pub bet_amount: int,
    pub num_checks: int,
    pub winning_hand_type: Option<HandType>,
}

impl View for Turn {
    type V = TurnView;

    open spec fn view(&self) -> TurnView {
        TurnView {
            player_states: self.player_states@.map_values(|p: PlayerState| p@),
            open_cards: self.open_cards@,
            deck: self.deck@,
            completed_stage: self.completed_stage as int,
            bet_amount: self.bet_amount as int,
            num_checks: self.num_checks as int,
            winning_hand_type: self.winning_hand_type,
        }
    }
}

/// Number of players who have not folded.
pub open spec fn unfolded_count(ps: Seq<PlayerStateView>) -> nat
    decreases ps.len(),
{
    if ps.len() == 0 {
        0
    } else {
        unfolded_count(ps.drop_last()) + if ps.last().folded {
            0nat
        } else {
            1nat
        }
    }
}

/// The fewest bets placed by a player who has not folded, if there is one.
pub open spec fn min_bets(ps: Seq<PlayerStateView>) -> Option<int>
    decreases ps.len(),
{
    if ps.len() == 0 {
        None
    } else {
        let before = min_bets(ps.drop_last());
        let here = ps.last().bet.len() as int;
        if ps.last().folded {
            before
        } else {
            match before {
                None => Some(here),
                Some(m) => Some(if here < m { here } else { m }),
            }
        }
    }
}

/// The stage that the betting has reached: every player still in the hand
/// has a bet for each stage before it. A hand with at most one player left
/// goes straight to the showdown.
pub open spec fn reached_stage(ps: Seq<PlayerStateView>) -> int {
    if unfolded_count(ps) <= 1 {
        4
    } else {
        match min_bets(ps) {
            Some(m) => m,
            None => 4,
        }
    }
}

/// Cards that the deck must still hold for the stages after `stage`.
pub open spec fn cards_to_deal(stage: int) -> int {
    if stage == 0 {
        5
    } else if stage == 1 {
        2
    } else if stage == 2 {
        1
    } else {
        0
    }
}

pub open spec fn with_zero_bet(p: PlayerStateView) -> PlayerStateView {
    if p.folded {
        p
    } else {
        PlayerStateView { hand: p.hand, bet: p.bet.push(0), folded: p.folded }
    }
}

impl TurnView {
    /// Everything but the rule on folded players that holds of each turn.
    pub open spec fn wf_parts(self, n: int) -> bool {
        &&& self.player_states.len() == n
        &&& self.completed_stage >= 0
        &&& self.bet_amount >= 0
        &&& forall|i: int, j: int|
            0 <= i < n && 0 <= j < self.player_states[i].bet.len() ==> #[trigger] self.player_states[i].bet[j]
                >= 0
        &&& self.deck.len() >= cards_to_deal(self.completed_stage)
    }

    /// A well-formed turn for `n` players: a hand still being bet on has two
    /// or more players in it, and the deck can deal the stages ahead.
    pub open spec fn wf(self, n: int) -> bool {
        &&& self.wf_parts(n)
        &&& self.completed_stage < 4 ==> unfolded_count(self.player_states) >= 2
    }

    /// Every player still in the hand gets a zero bet.
    pub open spec fn with_zero_bets(self) -> TurnView {
        TurnView { player_states: self.player_states.map_values(|p| with_zero_bet(p)), ..self }
    }

    /// When every player still in has checked, each of them gets a zero bet.
    pub open spec fn after_checks(self) -> TurnView {
        if self.num_checks == unfolded_count(self.player_states) {
            self.with_zero_bets()
        } else {
            self
        }
    }

    /// The turn with `k` cards moved from the top of the deck to the open cards.
    pub open spec fn dealt(self, k: int) -> TurnView {
        let l = self.deck.len() as int;
        TurnView {
            deck: self.deck.subrange(0, l - k),
            open_cards: self.open_cards + self.deck.subrange(l - k, l).reverse(),
            ..self
        }
    }

    /// The turn once the stage has been recomputed: entering stage 1 opens
    /// three cards, stages 2 and 3 one each, and every new stage starts with
    /// no bet to match. Stage 4 is the showdown, which happens elsewhere.
    pub open spec fn advanced(self) -> TurnView {
        let t = self.after_checks();
        let next = reached_stage(t.player_states);
        if next > t.completed_stage {
            let t2 = TurnView { num_checks: 0, completed_stage: next, ..t };
            if next == 1 {
                TurnView { bet_amount: 0, ..t2.dealt(3) }
            } else if next == 2 || next == 3 {
                TurnView { bet_amount: 0, ..t2.dealt(1) }
            } else {
                t2
            }
        } else {
            t
        }
    }

    /// Advancing this turn enters the showdown.
    pub open spec fn enters_showdown(self) -> bool {
        let t = self.after_checks();
        reached_stage(t.player_states) > t.completed_stage && reached_stage(t.player_states) == 4
    }
}

/// The opening turn of a hand: each of `n` players draws two cards from the
/// top of the deck (the end of the sequence), one player after another.
pub open spec fn first_round_view(deck: Seq<Card>, n: int) -> TurnView {
    let l = deck.len() as int;
    TurnView {
        player_states: Seq::new(
            n as nat,
            |i: int|
                PlayerStateView {
                    hand: seq![deck[l - 1 - 2 * i], deck[l - 2 - 2 * i]],
                    bet: seq![],
                    folded: false,
                },
        ),
        open_cards: seq![],
        deck: deck.subrange(0, l - 2 * n),
        completed_stage: 0,
        bet_amount: 0,
        num_checks: 0,
        winning_hand_type: None,
    }
}

proof fn lemma_unfolded_all(ps: Seq<PlayerStateView>)
    requires
        forall|i: int| 0 <= i < ps.len() ==> !(#[trigger] ps[i]).folded,
    ensures
        unfolded_count(ps) == ps.len(),
    decreases ps.len(),
{
    if ps.len() > 0 {
        lemma_unfolded_all(ps.drop_last());
    }
}

impl Turn {
    pub fn copy(&self) -> (r: Turn)
        ensures
            r@ == self@,
    {
        let mut states: Vec<PlayerState> = Vec::new();
        let mut i: usize = 0;
        while i < self.player_states.len()
            invariant
                0 <= i <= self.player_states@.len(),
                states@.len() == i,
                forall|k: int| 0 <= k < i ==> (#[trigger] states@[k])@ == self.player_states@[k]@,
            decreases self.player_states@.len() - i,
        {
            let p = self.player_states[i].copy();
            states.push(p);
            i = i + 1;
        }
        assert(states@.map_values(|p: PlayerState| p@) =~= self.player_states@.map_values(
            |p: PlayerState| p@,
        ));
        let open_cards = self.open_cards.clone();
        let deck = self.deck.clone();
        assert(open_cards@ =~= self.open_cards@);
        assert(deck@ =~= self.deck@);
        Turn {
            player_states: states,
            open_cards,
            deck,
            completed_stage: self.completed_stage,
            bet_amount: self.bet_amount,
            num_checks: self.num_checks,
            winning_hand_type: self.winning_hand_type,
        }
    }

    /// Deals two cards to each of `num_players` players from the top of the deck.
    pub fn first_round(deck: Vec<Card>, num_players: usize) -> (r: Turn)
        requires
            2 * num_players <= deck@.len(),
        ensures
            r@ == first_round_view(deck@, num_players as int),
    {
        let ghost d = deck@;
        let ghost l = deck@.len() as int;
        let mut deck = deck;
        let mut player_states: Vec<PlayerState> = Vec::new();
        let mut i: usize = 0;
        while i < num_players
            invariant
                0 <= i <= num_players,
                2 * num_players <= l,
                l == d.len(),
                deck@ == d.subrange(0, l - 2 * i),
                player_states@.len() == i,
                forall|k: int|
                    0 <= k < i ==> (#[trigger] player_states@[k])@ == first_round_view(
                        d,
                        num_players as int,
                    ).player_states[k],
            decreases num_players - i,
        {
            let a = deck.pop().unwrap();
            let b = deck.pop().unwrap();
            assert(deck@ =~= d.subrange(0, l - 2 * (i + 1)));
            let mut hand: Vec<Card> = Vec::new();
            hand.push(a);
            hand.push(b);
            let bet: Vec<i64> = Vec::new();
            let ps = PlayerState { hand, bet, folded: false };
            assert(ps@.hand =~= seq![d[l - 1 - 2 * i], d[l - 2 - 2 * i]]);
            assert(ps@.bet =~= Seq::<i64>::empty());
            player_states.push(ps);
            i = i + 1;
        }
        let open: Vec<Card> = Vec::new();
        let r = Turn {
            deck,
            open_cards: open,
            player_states,
            completed_stage: 0,
            bet_amount: 0,
            num_checks: 0,
            winning_hand_type: None,
        };
        assert(r@.player_states =~= first_round_view(d, num_players as int).player_states);
        assert(r@.open_cards =~= Seq::<Card>::empty());
        r
    }
}

/// The opening turn is well formed when the deck holds enough cards.
pub proof fn lemma_first_round_wf(deck: Seq<Card>, n: int)
    requires
        2 <= n,
        deck.len() >= 2 * n + 5,
    ensures
        first_round_view(deck, n).wf(n),
{
    let t = first_round_view(deck, n);
    lemma_unfolded_all(t.player_states);
}

/// The views of a sequence of player states.
pub open spec fn state_views(ps: Seq<PlayerState>) -> Seq<PlayerStateView> {
    ps.map_values(|p: PlayerState| p@)
}

pub open spec fn least_as_int(m: Option<usize>) -> Option<int> {
    match m {
        None => None,
        Some(x) => Some(x as int),
    }
}

/// Counts the players who have not folded.
pub fn count_unfolded(ps: &Vec<PlayerState>) -> (r: usize)
    ensures
        r == unfolded_count(state_views(ps@)),
{
    let mut count: usize = 0;
    let mut i: usize = 0;
    while i < ps.len()
        invariant
            0 <= i <= ps@.len(),
            count <= i,
            count == unfolded_count(state_views(ps@.subrange(0, i as int))),
        decreases ps@.len() - i,
    {
        assert(state_views(ps@.subrange(0, i + 1)).drop_last() =~= state_views(ps@.subrange(0, i as int)));
        if !ps[i].folded {
            count = count + 1;
        }
        i = i + 1;
    }
    assert(ps@.subrange(0, i as int) =~= ps@);
    count
}

/// The stage that the betting has reached (see `reached_stage`).
pub fn betting_stage(ps: &Vec<PlayerState>) -> (r: usize)
    ensures
        r == reached_stage(state_views(ps@)),
{
    let mut least: Option<usize> = None;
    let mut i: usize = 0;
    while i < ps.len()
        invariant
            0 <= i <= ps@.len(),
            min_bets(state_views(ps@.subrange(0, i as int))) == least_as_int(least),
        decreases ps@.len() - i,
    {
        assert(state_views(ps@.subrange(0, i + 1)).drop_last() =~= state_views(ps@.subrange(0, i as int)));
        if !ps[i].folded {
            let here = ps[i].bet.len();
            least = match least {
                None => Some(here),
                Some(m) => Some(if here < m { here } else { m }),
            };
        }
        i = i + 1;
    }
    assert(ps@.subrange(0, i as int) =~= ps@);
    let unfolded = count_unfolded(ps);
    if unfolded <= 1 {
        return 4;
    }
    match least {
        None => 4,
        Some(m) => m,
    }
}

impl Turn {
    /// Moves `k` cards from the top of the deck to the open cards.
    fn deal(&mut self, k: usize)
        requires
            k <= old(self).deck@.len(),
        ensures
            final(self)@ == old(self)@.dealt(k as int),
    {
        let ghost d = self.deck@;
        let ghost o = self.open_cards@;
        let ghost l = d.len() as int;
        let mut j: usize = 0;
        while j < k
            invariant
                0 <= j <= k,
                k <= l,
                l == d.len(),
                self.deck@ == d.subrange(0, l - j),
                self.open_cards@ == o + d.subrange(l - j, l).reverse(),
                self.player_states == old(self).player_states,
                self.completed_stage == old(self).completed_stage,
                self.bet_amount == old(self).bet_amount,
                self.num_checks == old(self).num_checks,
                self.winning_hand_type == old(self).winning_hand_type,
            decreases k - j,
        {
            let c = self.deck.pop().unwrap();
            self.open_cards.push(c);
            j = j + 1;
            assert(self.deck@ =~= d.subrange(0, l - j));
            assert(self.open_cards@ =~= o + d.subrange(l - j, l).reverse());
        }
        assert(self@.deck =~= old(self)@.dealt(k as int).deck);
        assert(self@.open_cards =~= old(self)@.dealt(k as int).open_cards);
    }

    /// Gives every player still in the hand a zero bet.
    fn add_zero_bets(&mut self)
        ensures
            final(self)@ == old(self)@.with_zero_bets(),
    {
        let ghost before = self.player_states@;
        let mut i: usize = 0;
        while i < self.player_states.len()
            invariant
                0 <= i <= self.player_states@.len(),
                self.player_states@.len() == before.len(),
                forall|k: int| 0 <= k < i ==> (#[trigger] self.player_states@[k])@ == with_zero_bet(before[k]@),
                forall|k: int| i <= k < before.len() ==> #[trigger] self.player_states@[k] == before[k],
                self.open_cards == old(self).open_cards,
                self.deck == old(self).deck,
                self.completed_stage == old(self).completed_stage,
                self.bet_amount == old(self).bet_amount,
                self.num_checks == old(self).num_checks,
                self.winning_hand_type == old(self).winning_hand_type,
            decreases before.len() - i,
        {
            if !self.player_states[i].folded {
                self.player_states[i].bet.push(0);
            }
            i = i + 1;
        }
        assert(self@.player_states =~= old(self)@.with_zero_bets().player_states);
    }

    /// Recomputes the stage after an action, dealing the open cards of a new
    /// stage. Returns whether the hand has just reached its showdown.
    pub fn advance_stage(&mut self) -> (showdown: bool)
        requires
            old(self)@.deck.len() >= cards_to_deal(old(self)@.completed_stage),
        ensures
            final(self)@ == old(self)@.advanced(),
            showdown == old(self)@.enters_showdown(),
    {
        let unfolded = count_unfolded(&self.player_states);
        if self.num_checks == unfolded {
            self.add_zero_bets();
        }
        let next = betting_stage(&self.player_states);
        if next > self.completed_stage {
            self.num_checks = 0;
            self.completed_stage = next;
            if next == 1 {
                self.bet_amount = 0;
                self.deal(3);
            } else if next == 2 || next == 3 {
                self.bet_amount = 0;
                self.deal(1);
            }
            return next == 4;
        }
        false
    }
}

proof fn lemma_unfolded_zero_bets(ps: Seq<PlayerStateView>)
    ensures
        unfolded_count(ps.map_values(|p| with_zero_bet(p))) == unfolded_count(ps),
    decreases ps.len(),
{
    if ps.len() > 0 {
        lemma_unfolded_zero_bets(ps.drop_last());
        assert(ps.map_values(|p| with_zero_bet(p)).drop_last() =~= ps.drop_last().map_values(
            |p| with_zero_bet(p),
        ));
    }
}

/// Recomputing the stage of a turn leaves it well formed.
pub proof fn lemma_advanced_wf(t: TurnView, n: int)
    requires
        t.wf_parts(n),
    ensures
        t.advanced().wf(n),
        t.advanced().player_states.len() == n,
{
    let a = t.after_checks();
    lemma_unfolded_zero_bets(t.player_states);
    assert(unfolded_count(a.player_states) == unfolded_count(t.player_states));
    assert forall|i: int, j: int|
        0 <= i < n && 0 <= j < a.player_states[i].bet.len() implies #[trigger] a.player_states[i].bet[j]
        >= 0 by {
        if t.num_checks == unfolded_count(t.player_states) {
            let p = t.player_states[i];
            if !p.folded && j == p.bet.len() {
            } else {
                assert(p.bet[j] >= 0);
            }
        } else {
            assert(t.player_states[i].bet[j] >= 0);
        }
    }
    assert(a.wf_parts(n));
    let next = reached_stage(a.player_states);
    if unfolded_count(a.player_states) <= 1 {
        assert(next == 4);
    }
    if next > a.completed_stage {
        let t2 = TurnView { num_checks: 0, completed_stage: next, ..a };
        assert(t2.player_states == a.player_states);
        if next == 1 {
            assert(a.completed_stage == 0);
            assert(t2.dealt(3).deck.len() == a.deck.len() - 3);
        } else if next == 2 || next == 3 {
            assert(t2.dealt(1).deck.len() == a.deck.len() - 1);
        }
        assert(t.advanced().player_states == a.player_states);
        assert(t.advanced().wf_parts(n));
    } else {
        assert(t.advanced() == a);
    }
}

/// A hand still being bet on with a single player left goes to the
/// showdown at the next stage recompute, whatever bets have been placed.
pub proof fn lemma_last_player_standing(t: TurnView)
    requires
        unfolded_count(t.player_states) == 1,
        0 <= t.completed_stage < 4,
    ensures
        t.enters_showdown(),
        t.advanced().completed_stage == 4,
{
    lemma_unfolded_zero_bets(t.player_states);
    assert(unfolded_count(t.after_checks().player_states) == 1);
}

} // verus!
