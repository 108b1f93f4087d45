use vstd::prelude::*;
use crate::board::turn::{
    lemma_advanced_wf, lemma_first_round_wf, unfolded_count, with_zero_bet, Turn, TurnView,
};
use crate::board::{intersect_len, new_board_view, Board, BoardView};
use crate::cards::{calculate_winners, fresh_deck_spec, hand_views, keys_with_type, top_type, Card, HandType};
use crate::game::{shuffle_deck, Timeline, TimelineView};
use crate::player::{bet_sum, Player, PlayerStateView, PlayerView, ANTE, STARTING_CHIPS};

verus! {

/// The whole game: the players, every timeline, and the player whose turn
/// the display last revealed.
#[derive(Clone, PartialEq, Debug)]
pub struct Multiverse {
    pub players: Vec<Player>,
    pub timelines: Vec<Timeline>,
    pub active_player: usize,
}

pub struct MultiverseView {
    pub players: Seq<PlayerView>,
    pub timelines: Seq<TimelineView>,
    pub active_player: int,
}

impl View for Multiverse {
    type V = MultiverseView;

    open spec fn view(&self) -> MultiverseView {
        MultiverseView {
            players: self.players@.map_values(|p: Player| p@),
            timelines: self.timelines@.map_values(|t: Timeline| t@),
            active_player: self.active_player as int,
        }
    }
}

impl MultiverseView {
    pub open spec fn n(self) -> int {
        self.players.len() as int
    }

    pub open spec fn board_at(self, t: int, b: int) -> BoardView {
        self.timelines[t].boards[b]
    }

    pub open spec fn is_board(self, t: int, b: int) -> bool {
        0 <= t < self.timelines.len() && 0 <= b < self.timelines[t].boards.len()
    }

    /// No board of any timeline has fewer than `g + 1` turns.
    pub open spec fn turn_bound(self, g: int) -> bool {
        forall|t: int, b: int| #[trigger]
            self.is_board(t, b) ==> g + 1 <= self.board_at(t, b).turns.len()
    }

    /// Some board has exactly `g + 1` turns.
    pub open spec fn turn_reached(self, g: int) -> bool {
        exists|t: int, b: int| #[trigger]
            self.is_board(t, b) && g + 1 == self.board_at(t, b).turns.len()
    }

    /// The shared present: one less than the fewest turns of any board.
    pub open spec fn global_turn(self) -> int {
        choose|g: int| self.turn_bound(g) && self.turn_reached(g)
    }

    /// The player to act: the present taken modulo the number of players.
    pub open spec fn active(self) -> int {
        self.global_turn() % self.n()
    }

    pub open spec fn last_board(self, tl: int) -> BoardView {
        self.timelines[tl].boards.last()
    }

    /// The turn that actions on a timeline start from: the present of its last board.
    pub open spec fn live_turn(self, tl: int) -> TurnView {
        self.last_board(tl).turns[self.global_turn()]
    }

    /// The structure that every game keeps: two to six players, and every
    /// timeline, board and turn present and well formed.
    pub open spec fn wf(self) -> bool {
        &&& 2 <= self.n() <= 6
        &&& self.timelines.len() >= 1
        &&& forall|t: int| 0 <= t < self.timelines.len() ==> (#[trigger] self.timelines[t]).boards.len() >= 1
        &&& forall|t: int, b: int| #[trigger] self.is_board(t, b) ==> self.board_at(t, b).turns.len() >= 1
        &&& forall|t: int, b: int, k: int|
            self.is_board(t, b) && 0 <= k < self.board_at(t, b).turns.len() ==> (#[trigger] self.board_at(
                t,
                b,
            ).turns[k]).wf(self.n())
    }
}

/// The players still in the hand, each with their position and cards.
pub open spec fn contenders(ps: Seq<PlayerStateView>) -> Seq<(usize, Seq<Card>)>
    decreases ps.len(),
{
    if ps.len() == 0 {
        seq![]
    } else {
        let before = contenders(ps.drop_last());
        if ps.last().folded {
            before
        } else {
            before.push(((ps.len() - 1) as usize, ps.last().hand))
        }
    }
}

/// Everything that the players have at stake in a hand.
pub open spec fn pot(ps: Seq<PlayerStateView>) -> int
    decreases ps.len(),
{
    if ps.len() == 0 {
        0
    } else {
        pot(ps.drop_last()) + ps.last().total()
    }
}

/// Every card of a turn: the deck, then each player's hand in order, then the open cards.
pub open spec fn collected_cards(t: TurnView) -> Seq<Card> {
    t.deck + t.player_states.map_values(|p: PlayerStateView| p.hand).flatten() + t.open_cards
}

/// `d` holds the same cards as `cards`, in some order.
pub open spec fn is_shuffle_of(d: Seq<Card>, cards: Seq<Card>) -> bool {
    d.to_multiset() == cards.to_multiset()
}

/// The winners of a hand at its showdown, by position.
pub open spec fn showdown_winners(t: TurnView) -> Seq<usize> {
    let hands = contenders(t.player_states);
    keys_with_type(hands, top_type(hands))
}

/// What each winner takes: the pot split evenly, any remainder left out.
pub open spec fn share(t: TurnView) -> int {
    let w = showdown_winners(t).len() as int;
    if w > 0 {
        pot(t.player_states) / w
    } else {
        0
    }
}

/// The chips of player `i` once the hand of turn `t` is paid out: every
/// player pays what they have at stake, and each winner takes a share.
pub open spec fn paid_chips(chips: int, t: TurnView, i: int) -> int {
    chips - t.player_states[i].total() + if showdown_winners(t).contains(i as usize) {
        share(t)
    } else {
        0
    }
}

pub open spec fn paid_players(players: Seq<PlayerView>, t: TurnView) -> Seq<PlayerView> {
    Seq::new(
        players.len(),
        |i: int| PlayerView { name: players[i].name, chips: paid_chips(players[i].chips, t, i) },
    )
}

impl MultiverseView {
    pub open spec fn last_turn(self, tl: int) -> TurnView {
        self.last_board(tl).turns.last()
    }

    pub open spec fn with_boards(self, tl: int, boards: Seq<BoardView>) -> MultiverseView {
        MultiverseView {
            timelines: self.timelines.update(
                tl,
                TimelineView { boards: boards, ..self.timelines[tl] },
            ),
            ..self
        }
    }

    pub open spec fn with_turns(self, tl: int, b: int, turns: Seq<TurnView>) -> MultiverseView {
        self.with_boards(
            tl,
            self.timelines[tl].boards.update(b, BoardView { turns: turns, ..self.board_at(tl, b) }),
        )
    }

    pub open spec fn with_turn_at(self, tl: int, b: int, k: int, t: TurnView) -> MultiverseView {
        self.with_turns(tl, b, self.board_at(tl, b).turns.update(k, t))
    }

    /// The game with `t` appended to the last board of timeline `tl`.
    pub open spec fn with_turn_pushed(self, tl: int, t: TurnView) -> MultiverseView {
        let b = self.timelines[tl].boards.len() - 1;
        self.with_turns(tl, b, self.board_at(tl, b).turns.push(t))
    }

    /// The game with the last turn of the last board of `tl` replaced by `t`.
    pub open spec fn with_last_turn(self, tl: int, t: TurnView) -> MultiverseView {
        let b = self.timelines[tl].boards.len() - 1;
        let k = self.board_at(tl, b).turns.len() - 1;
        self.with_turn_at(tl, b, k, t)
    }

    /// The showdown of the hand on timeline `tl`: the players are paid out
    /// and a new hand is dealt from `deck`, the gathered cards shuffled.
    pub open spec fn showdown_view(self, tl: int, deck: Seq<Card>) -> MultiverseView {
        MultiverseView {
            players: paid_players(self.players, self.last_turn(tl)),
            ..self.with_boards(tl, self.timelines[tl].boards.push(new_board_view(deck, self.n())))
        }
    }

    /// The game after the stage of the last turn of `tl` is recomputed; a
    /// showdown deals the next hand from `deck` and records the winning category.
    pub open spec fn stage_view(self, tl: int, deck: Seq<Card>) -> MultiverseView {
        let b = self.timelines[tl].boards.len() - 1;
        let k = self.board_at(tl, b).turns.len() - 1;
        let t = self.last_turn(tl);
        let m1 = self.with_last_turn(tl, t.advanced());
        if t.enters_showdown() {
            let m2 = m1.showdown_view(tl, deck);
            let top = top_type(contenders(t.advanced().player_states));
            m2.with_turn_at(tl, b, k, TurnView { winning_hand_type: Some(top), ..t.advanced() })
        } else {
            m1
        }
    }

    /// `result` is what recomputing the stage of `tl` can give, for some shuffle.
    pub open spec fn stage_outcome(self, tl: int, result: MultiverseView) -> bool {
        exists|d: Seq<Card>| #[trigger]
            is_shuffle_of(d, collected_cards(self.last_turn(tl).advanced())) && result
                == self.stage_view(tl, d)
    }

    /// The live turn with one more check.
    pub open spec fn checked_turn(self, tl: int) -> TurnView {
        TurnView { num_checks: self.live_turn(tl).num_checks + 1, ..self.live_turn(tl) }
    }

    /// The live turn with a bet of `amount` by the active player.
    pub open spec fn bet_turn(self, tl: int, amount: int) -> TurnView {
        let live = self.live_turn(tl);
        let p = live.player_states[self.active()];
        TurnView {
            player_states: live.player_states.update(
                self.active(),
                PlayerStateView { bet: p.bet.push(amount as i64), ..p },
            ),
            bet_amount: amount,
            num_checks: 0,
            ..live
        }
    }

    /// The live turn with the active player folded.
    pub open spec fn folded_turn(self, tl: int) -> TurnView {
        let live = self.live_turn(tl);
        let p = live.player_states[self.active()];
        TurnView {
            player_states: live.player_states.update(self.active(), PlayerStateView { folded: true, ..p }),
            ..live
        }
    }

    /// `result` is what an action on `tl` that records the turn `t` can give.
    pub open spec fn action_outcome(self, tl: int, t: TurnView, result: MultiverseView) -> bool {
        self.with_turn_pushed(tl, t).stage_outcome(tl, result)
    }

    /// A bet of `amount` on `tl` is accepted: it matches the bet on the
    /// table, and a first bet of a stage is at least 1.
    pub open spec fn bet_accepted(self, tl: int, amount: int) -> bool {
        let b = self.live_turn(tl).bet_amount;
        amount >= b && (b != 0 || amount >= 1)
    }

    /// A raise read as `amount` is accepted: a first bet of a stage must be at
    /// least 1, a raise at least twice the bet to match.
    pub open spec fn raise_accepted(self, tl: int, amount: Option<i64>) -> bool {
        let b = self.live_turn(tl).bet_amount;
        match amount {
            Some(a) => if b == 0 {
                a >= 1
            } else {
                a >= 2 * b
            },
            None => false,
        }
    }

    /// The timeline that branches from timeline `parent` at global time
    /// `starting_time`: its one board is the parent's board at that time, cut
    /// at the present.
    pub open spec fn spawned(self, parent: int, starting_time: int) -> TimelineView {
        self.spawned_at(parent, starting_time, self.global_turn())
    }

    /// The timeline that branches from timeline `parent` at global time
    /// `starting_time`, its board cut at turn `turn`.
    pub open spec fn spawned_at(self, parent: int, starting_time: int, turn: int) -> TimelineView {
        let target = self.timelines[parent].boards[starting_time - self.timelines[parent].starting_time];
        TimelineView {
            parent_index: parent,
            starting_time: starting_time,
            boards: seq![
                BoardView {
                    turns: target.turns.subrange(0, intersect_len(target.turns.len() as int, turn)),
                    show_all: target.show_all,
                },
            ],
        }
    }

    pub open spec fn with_chips(self, i: int, chips: int) -> MultiverseView {
        MultiverseView {
            players: self.players.update(i, PlayerView { chips: chips, ..self.players[i] }),
            ..self
        }
    }

    /// The card can be taken from board `t_from` of `tl_from` just after the
    /// present: that turn exists, or the board is the live one, which the
    /// raise before the move extends; and the slot holds a card at `card`.
    pub open spec fn source_ready(self, tl_from: int, t_from: int, player: int, card: int) -> bool {
        let g = self.global_turn();
        let b = self.board_at(tl_from, t_from);
        ||| b.turns.len() > g + 1 && 0 <= card < slot_cards(b.turns[g + 1], player).len()
        ||| t_from == self.timelines[tl_from].boards.len() - 1 && b.turns.len() == g + 1 && 0 <= card
            < slot_cards(b.turns[g], player).len()
    }

    /// The move that follows a successful raise, from this game: `payer`,
    /// the player who started the move, pays the burn; the card leaves its
    /// slot at turn `g + 1` of the source board, `g` being the present read
    /// when the move started; and it is added to the same slot at turn `g` of
    /// the destination board, or, when that board had run past `g`, of a new
    /// timeline branched from it and cut at `g`.
    pub open spec fn travelled(
        self,
        g: int,
        payer: int,
        tl_from: int,
        t_from: int,
        player: int,
        card: int,
        tl_to: int,
        t_to: int,
    ) -> MultiverseView {
        let m1 = self.with_chips(
            payer,
            self.players[payer].chips - burn(tl_from, t_from, player, tl_to, t_to, self.n()),
        );
        let c = slot_cards(m1.board_at(tl_from, t_from).turns[g + 1], player)[card];
        m1.taken(tl_from, t_from, g + 1, player, card).landed(g, player, tl_to, t_to, c)
    }

    /// The game with card `card` of slot `player` taken from turn `k` of a board.
    pub open spec fn taken(self, tl: int, b: int, k: int, player: int, card: int) -> MultiverseView {
        let src = self.board_at(tl, b).turns[k];
        self.with_turn_at(tl, b, k, with_slot(src, player, slot_cards(src, player).remove(card)))
    }

    /// The game with `c` added to slot `player` at turn `h` of board `t_to`
    /// of `tl_to`, or, when that board has run past `h`, of a new timeline
    /// branched from it and cut at `h`.
    pub open spec fn landed(self, h: int, player: int, tl_to: int, t_to: int, c: Card) -> MultiverseView {
        if self.board_at(tl_to, t_to).is_past(Some(h as usize)) {
            let nt = self.timelines.len() as int;
            let m3 = MultiverseView {
                timelines: self.timelines.push(
                    self.spawned_at(tl_to, t_to + self.timelines[tl_to].starting_time, h),
                ),
                ..self
            };
            let dst = m3.board_at(nt, 0).turns[h];
            m3.with_turn_at(nt, 0, h, with_slot(dst, player, slot_cards(dst, player).push(c)))
        } else {
            let dst = self.board_at(tl_to, t_to).turns[h];
            self.with_turn_at(tl_to, t_to, h, with_slot(dst, player, slot_cards(dst, player).push(c)))
        }
    }

    /// `result` is what a successful move can give: the raise on `tl_from`
    /// has some outcome, and the move is made on it, paid by the player
    /// active when it started.
    pub open spec fn travel_outcome(
        self,
        tl_from: int,
        t_from: int,
        player: int,
        card: int,
        tl_to: int,
        t_to: int,
        amount: int,
        result: MultiverseView,
    ) -> bool {
        exists|mid: MultiverseView| #[trigger]
            self.action_outcome(tl_from, self.bet_turn(tl_from, amount), mid) && result == mid.travelled(
                self.global_turn(),
                self.active(),
                tl_from,
                t_from,
                player,
                card,
                tl_to,
                t_to,
            )
    }

    /// The players' chips can take every payout of the hand in `t` with
    /// `extra` more at stake.
    pub open spec fn stakes_fit(self, t: TurnView, extra: int) -> bool {
        forall|i: int|
            0 <= i < self.n() ==> i64::MIN <= #[trigger] self.players[i].chips - (pot(t.player_states)
                + extra) && self.players[i].chips + (pot(t.player_states) + extra) <= i64::MAX
    }

    /// The hand in `t` can be settled: its payouts fit in the chip ledger,
    /// and its cards are enough to deal the next hand.
    pub open spec fn can_settle(self, t: TurnView, extra: int) -> bool {
        &&& collected_cards(t).len() >= 2 * self.n() + 5
        &&& self.stakes_fit(t, extra)
    }

    /// The structure of `wf`, without its condition on turns.
    pub open spec fn wf_shape(self) -> bool {
        &&& 2 <= self.n() <= 6
        &&& self.timelines.len() >= 1
        &&& forall|t: int| 0 <= t < self.timelines.len() ==> (#[trigger] self.timelines[t]).boards.len() >= 1
        &&& forall|t: int, b: int| #[trigger] self.is_board(t, b) ==> self.board_at(t, b).turns.len() >= 1
    }

    /// Well formed, except that the last turn of the last board of `tl`
    /// still waits for its stage to be recomputed.
    pub open spec fn wf_pending(self, tl: int) -> bool {
        let bl = self.timelines[tl].boards.len() - 1;
        let kl = self.board_at(tl, bl).turns.len() - 1;
        &&& self.wf_shape()
        &&& 0 <= tl < self.timelines.len()
        &&& forall|t: int, b: int, k: int|
            self.is_board(t, b) && 0 <= k < self.board_at(t, b).turns.len() && !(t == tl && b == bl
                && k == kl) ==> (#[trigger] self.board_at(t, b).turns[k]).wf(self.n())
        &&& self.last_turn(tl).wf_parts(self.n())
        &&& self.last_turn(tl).completed_stage < 4 ==> crate::board::turn::unfolded_count(
            self.last_turn(tl).player_states,
        ) >= 1
    }
}

proof fn lemma_bet_sum_nonneg(bets: Seq<i64>)
    requires
        forall|j: int| 0 <= j < bets.len() ==> #[trigger] bets[j] >= 0,
    ensures
        crate::player::bet_sum(bets) >= 0,
    decreases bets.len(),
{
    if bets.len() > 0 {
        lemma_bet_sum_nonneg(bets.drop_last());
    }
}

/// With no negative bet, each player's stake is positive and at most the pot.
proof fn lemma_pot_prefix(ps: Seq<PlayerStateView>, i: int)
    requires
        0 <= i <= ps.len(),
        forall|k: int| 0 <= k < ps.len() ==> (#[trigger] ps[k]).total() >= 1,
    ensures
        0 <= pot(ps.subrange(0, i)) <= pot(ps),
    decreases ps.len(),
{
    if i < ps.len() {
        lemma_pot_prefix(ps.drop_last(), i);
        assert(ps.drop_last().subrange(0, i) =~= ps.subrange(0, i));
    } else {
        assert(ps.subrange(0, i) =~= ps);
        if ps.len() > 0 {
            lemma_pot_prefix(ps.drop_last(), i - 1);
            assert(ps.drop_last().subrange(0, i - 1) =~= ps.drop_last());
        }
    }
}

/// Replacing the pending turn by a well-formed one makes the game well formed.
proof fn lemma_settle_last_wf(m: MultiverseView, tl: int, t: TurnView)
    requires
        m.wf_pending(tl),
        t.wf(m.n()),
    ensures
        m.with_last_turn(tl, t).wf(),
        m.with_last_turn(tl, t).n() == m.n(),
        m.with_last_turn(tl, t).timelines.len() == m.timelines.len(),
{
    let r = m.with_last_turn(tl, t);
    let bl = m.timelines[tl].boards.len() - 1;
    let kl = m.board_at(tl, bl).turns.len() - 1;
    assert(m.is_board(tl, bl));
    assert forall|a: int, b: int| #[trigger] r.is_board(a, b) implies m.is_board(a, b) && r.board_at(a, b).turns.len() == m.board_at(a, b).turns.len() by {
    }
    assert forall|a: int| 0 <= a < r.timelines.len() implies (#[trigger] r.timelines[a]).boards.len() >= 1 by {
        assert(r.timelines[a].boards.len() == m.timelines[a].boards.len());
    }
    assert forall|a: int, b: int, k: int|
        r.is_board(a, b) && 0 <= k < r.board_at(a, b).turns.len() implies (#[trigger] r.board_at(a, b).turns[k]).wf(r.n()) by {
        if a == tl && b == bl && k == kl {
        } else {
            assert(m.is_board(a, b));
            assert(r.board_at(a, b).turns[k] == m.board_at(a, b).turns[k]);
        }
    }
}

/// Overwriting a turn of a well-formed game with a well-formed turn keeps it well formed.
proof fn lemma_set_turn_wf(m: MultiverseView, tl: int, b0: int, k0: int, t: TurnView)
    requires
        m.wf(),
        m.is_board(tl, b0),
        0 <= k0 < m.board_at(tl, b0).turns.len(),
        t.wf(m.n()),
    ensures
        m.with_turn_at(tl, b0, k0, t).wf(),
{
    let r = m.with_turn_at(tl, b0, k0, t);
    assert forall|a: int, b: int| #[trigger] r.is_board(a, b) implies m.is_board(a, b) && r.board_at(a, b).turns.len() == m.board_at(a, b).turns.len() by {
    }
    assert forall|a: int| 0 <= a < r.timelines.len() implies (#[trigger] r.timelines[a]).boards.len() >= 1 by {
        assert(r.timelines[a].boards.len() == m.timelines[a].boards.len());
    }
    assert forall|a: int, b: int, k: int|
        r.is_board(a, b) && 0 <= k < r.board_at(a, b).turns.len() implies (#[trigger] r.board_at(a, b).turns[k]).wf(r.n()) by {
        if a == tl && b == b0 && k == k0 {
        } else {
            assert(m.is_board(a, b));
            assert(r.board_at(a, b).turns[k] == m.board_at(a, b).turns[k]);
        }
    }
}

/// The showdown keeps the game well formed when the gathered cards can deal a hand.
proof fn lemma_showdown_wf(m: MultiverseView, tl: int, d: Seq<Card>)
    requires
        m.wf(),
        0 <= tl < m.timelines.len(),
        d.len() >= 2 * m.n() + 5,
    ensures
        m.showdown_view(tl, d).wf(),
        m.showdown_view(tl, d).n() == m.n(),
        m.showdown_view(tl, d).timelines[tl].boards.len() == m.timelines[tl].boards.len() + 1,
        forall|b: int| 0 <= b < m.timelines[tl].boards.len() ==> #[trigger] m.showdown_view(tl, d).timelines[tl].boards[b] == m.timelines[tl].boards[b],
{
    let r = m.showdown_view(tl, d);
    lemma_first_round_wf(d, m.n());
    let nb = m.timelines[tl].boards.len();
    assert forall|a: int| 0 <= a < r.timelines.len() implies (#[trigger] r.timelines[a]).boards.len() >= 1 by {
        if a != tl {
            assert(r.timelines[a] == m.timelines[a]);
        }
    }
    assert forall|a: int, b: int| #[trigger] r.is_board(a, b) implies r.board_at(a, b).turns.len() >= 1 by {
        if a == tl && b == nb {
        } else {
            assert(m.is_board(a, b));
        }
    }
    assert forall|a: int, b: int, k: int|
        r.is_board(a, b) && 0 <= k < r.board_at(a, b).turns.len() implies (#[trigger] r.board_at(a, b).turns[k]).wf(r.n()) by {
        if a == tl && b == nb {
            assert(r.board_at(a, b) == new_board_view(d, m.n()));
        } else {
            assert(m.is_board(a, b));
            assert(r.board_at(a, b).turns[k] == m.board_at(a, b).turns[k]);
        }
    }
}

/// Appending a turn that awaits its stage recompute leaves the game pending on that timeline.
proof fn lemma_push_pending(m: MultiverseView, tl: int, t: TurnView)
    requires
        m.wf(),
        0 <= tl < m.timelines.len(),
        t.wf_parts(m.n()),
        t.completed_stage < 4 ==> unfolded_count(t.player_states) >= 1,
    ensures
        m.with_turn_pushed(tl, t).wf_pending(tl),
        m.with_turn_pushed(tl, t).last_turn(tl) == t,
{
    let r = m.with_turn_pushed(tl, t);
    let bl = m.timelines[tl].boards.len() - 1;
    assert(m.is_board(tl, bl));
    let kl = m.board_at(tl, bl).turns.len();
    assert(r.board_at(tl, bl).turns.len() == kl + 1);
    assert forall|a: int| 0 <= a < r.timelines.len() implies (#[trigger] r.timelines[a]).boards.len() >= 1 by {
        assert(r.timelines[a].boards.len() == m.timelines[a].boards.len());
    }
    assert forall|a: int, b: int| #[trigger] r.is_board(a, b) implies r.board_at(a, b).turns.len() >= 1 by {
        assert(m.is_board(a, b));
    }
    assert forall|a: int, b: int, k: int|
        r.is_board(a, b) && 0 <= k < r.board_at(a, b).turns.len() && !(a == tl && b == bl && k == kl)
        implies (#[trigger] r.board_at(a, b).turns[k]).wf(r.n()) by {
        assert(m.is_board(a, b));
        assert(r.board_at(a, b).turns[k] == m.board_at(a, b).turns[k]);
    }
}

proof fn lemma_pot_update(ps: Seq<PlayerStateView>, a: int, p: PlayerStateView)
    requires
        0 <= a < ps.len(),
    ensures
        pot(ps.update(a, p)) == pot(ps) - ps[a].total() + p.total(),
    decreases ps.len(),
{
    if a < ps.len() - 1 {
        lemma_pot_update(ps.drop_last(), a, p);
        assert(ps.update(a, p).drop_last() =~= ps.drop_last().update(a, p));
    } else {
        assert(ps.update(a, p).drop_last() =~= ps.drop_last());
    }
}

proof fn lemma_unfolded_update(ps: Seq<PlayerStateView>, a: int, p: PlayerStateView)
    requires
        0 <= a < ps.len(),
    ensures
        unfolded_count(ps.update(a, p)) + (if ps[a].folded { 0int } else { 1int }) == unfolded_count(ps) + (
        if p.folded {
            0int
        } else {
            1int
        }),
    decreases ps.len(),
{
    if a < ps.len() - 1 {
        lemma_unfolded_update(ps.drop_last(), a, p);
        assert(ps.update(a, p).drop_last() =~= ps.drop_last().update(a, p));
    } else {
        assert(ps.update(a, p).drop_last() =~= ps.drop_last());
    }
}

proof fn lemma_pot_zero_bets(ps: Seq<PlayerStateView>)
    ensures
        pot(ps.map_values(|p| with_zero_bet(p))) == pot(ps),
    decreases ps.len(),
{
    if ps.len() > 0 {
        lemma_pot_zero_bets(ps.drop_last());
        assert(ps.map_values(|p| with_zero_bet(p)).drop_last() =~= ps.drop_last().map_values(
            |p| with_zero_bet(p),
        ));
        let q = ps.last();
        assert(q.bet.push(0).drop_last() =~= q.bet);
    }
}

/// Recomputing the stage keeps the pot and the number of cards.
proof fn lemma_advanced_keeps(t: TurnView, n: int)
    requires
        t.wf_parts(n),
    ensures
        pot(t.advanced().player_states) == pot(t.player_states),
        collected_cards(t.advanced()).len() == collected_cards(t).len(),
{
    lemma_pot_zero_bets(t.player_states);
    let a = t.after_checks();
    assert(a.player_states.map_values(|p: PlayerStateView| p.hand) =~= t.player_states.map_values(
        |p: PlayerStateView| p.hand,
    ));
    assert(collected_cards(a).len() == collected_cards(t).len());
    assert(t.advanced().player_states == a.player_states);
    assert(t.advanced().player_states.map_values(|p: PlayerStateView| p.hand) =~= a.player_states.map_values(
        |p: PlayerStateView| p.hand,
    ));
}

/// Changing one player's state without touching the cards keeps the number of cards.
proof fn lemma_same_cards(t: TurnView, a: int, p: PlayerStateView, u: TurnView)
    requires
        0 <= a < t.player_states.len(),
        p.hand == t.player_states[a].hand,
        u.player_states == t.player_states.update(a, p),
        u.deck == t.deck,
        u.open_cards == t.open_cards,
    ensures
        collected_cards(u) == collected_cards(t),
{
    assert(u.player_states.map_values(|q: PlayerStateView| q.hand) =~= t.player_states.map_values(
        |q: PlayerStateView| q.hand,
    ));
}

/// The live turn of a well-formed game is well formed.
proof fn lemma_live_turn_wf(m: MultiverseView, tl: int, g: int)
    requires
        m.wf(),
        0 <= tl < m.timelines.len(),
        0 <= g,
        g == m.global_turn(),
        forall|t: int, b: int| #[trigger] m.is_board(t, b) ==> g <= m.board_at(t, b).turns.len() - 1,
    ensures
        m.live_turn(tl).wf(m.n()),
        m.is_board(tl, m.timelines[tl].boards.len() - 1),
        g < m.last_board(tl).turns.len(),
{
    let b = m.timelines[tl].boards.len() - 1;
    assert(m.is_board(tl, b));
}

proof fn lemma_bet_sum_prefix(b: Seq<i64>, j: int)
    requires
        0 <= j <= b.len(),
        forall|k: int| 0 <= k < b.len() ==> #[trigger] b[k] >= 0,
    ensures
        0 <= bet_sum(b.subrange(0, j)) <= bet_sum(b),
    decreases b.len(),
{
    if j < b.len() {
        lemma_bet_sum_prefix(b.drop_last(), j);
        assert(b.drop_last().subrange(0, j) =~= b.subrange(0, j));
    } else {
        assert(b.subrange(0, j) =~= b);
        lemma_bet_sum_nonneg(b);
    }
}

/// All the cards of a turn, gathered in the order of `collected_cards`.
fn gather_cards(state: &Turn) -> (r: Vec<Card>)
    ensures
        r@ == collected_cards(state@),
{
    let ghost t = state@;
    let n = state.player_states.len();
    let mut deck = state.deck.clone();
    assert(deck@ =~= t.deck);
    let ghost hands_of = t.player_states.map_values(|p: PlayerStateView| p.hand);
    let mut i: usize = 0;
    while i < n
        invariant
            0 <= i <= n,
            t == state@,
            t.player_states.len() == n,
            hands_of == t.player_states.map_values(|p: PlayerStateView| p.hand),
            deck@ == t.deck + hands_of.subrange(0, i as int).flatten(),
        decreases n - i,
    {
        let mut h = state.player_states[i].hand.clone();
        assert(h@ =~= hands_of[i as int]);
        proof {
            hands_of.subrange(0, i as int).lemma_flatten_push(hands_of[i as int]);
            assert(hands_of.subrange(0, i + 1) =~= hands_of.subrange(0, i as int).push(hands_of[i as int]));
        }
        deck.append(&mut h);
        assert(deck@ =~= t.deck + hands_of.subrange(0, i + 1).flatten());
        i = i + 1;
    }
    assert(hands_of.subrange(0, n as int) =~= hands_of);
    let mut open = state.open_cards.clone();
    assert(open@ =~= t.open_cards);
    deck.append(&mut open);
    assert(deck@ =~= collected_cards(t));
    deck
}

/// The chips of the first `k` players.
pub open spec fn chips_upto(players: Seq<PlayerView>, k: int) -> int
    decreases k,
{
    if k <= 0 {
        0
    } else {
        chips_upto(players, k - 1) + players[k - 1].chips
    }
}

/// How many of the positions below `k` are in `w`.
pub open spec fn count_in(w: Seq<usize>, k: int) -> int
    decreases k,
{
    if k <= 0 {
        0
    } else {
        count_in(w, k - 1) + if w.contains((k - 1) as usize) {
            1int
        } else {
            0int
        }
    }
}

/// What the winners of the hand in `t` receive in all: each player's change
/// in chips, plus what that player had at stake, summed over the players.
pub open spec fn distributed(players: Seq<PlayerView>, t: TurnView) -> int {
    chips_upto(paid_players(players, t), players.len() as int) - chips_upto(players, players.len() as int)
        + pot(t.player_states)
}

pub open spec fn increasing_below(w: Seq<usize>, n: int) -> bool {
    &&& forall|j: int| 0 <= j < w.len() ==> #[trigger] w[j] < n
    &&& forall|i: int, j: int| 0 <= i < j < w.len() ==> #[trigger] w[i] < #[trigger] w[j]
}

proof fn lemma_contenders_increasing(ps: Seq<PlayerStateView>)
    requires
        ps.len() <= usize::MAX,
    ensures
        increasing_below(contenders(ps).map_values(|h: (usize, Seq<Card>)| h.0), ps.len() as int),
        contenders(ps).len() == unfolded_count(ps),
    decreases ps.len(),
{
    if ps.len() > 0 {
        lemma_contenders_increasing(ps.drop_last());
        let c = contenders(ps.drop_last());
        assert(c.map_values(|h: (usize, Seq<Card>)| h.0).len() == c.len());
        let ck = c.map_values(|h: (usize, Seq<Card>)| h.0);
        let n1 = ps.len() - 1;
        if !ps.last().folded {
            let k = contenders(ps).map_values(|h: (usize, Seq<Card>)| h.0);
            assert(k =~= ck.push(n1 as usize));
            assert forall|i: int, j: int| 0 <= i < j < k.len() implies #[trigger] k[i] < #[trigger] k[j] by {
                if j == k.len() - 1 {
                    assert(ck[i] < n1);
                }
            }
        }
    }
}

proof fn lemma_keys_increasing(hands: Seq<(usize, Seq<Card>)>, top: HandType, n: int)
    requires
        increasing_below(hands.map_values(|h: (usize, Seq<Card>)| h.0), n),
    ensures
        increasing_below(keys_with_type(hands, top), n),
        forall|j: int| 0 <= j < keys_with_type(hands, top).len() ==> exists|i: int| 0 <= i < hands.len() && #[trigger] keys_with_type(hands, top)[j] == hands[i].0,
    decreases hands.len(),
{
    if hands.len() > 0 {
        let d = hands.drop_last();
        assert(d.map_values(|h: (usize, Seq<Card>)| h.0) =~= hands.map_values(|h: (usize, Seq<Card>)| h.0).drop_last());
        lemma_keys_increasing(d, top, n);
        let k = keys_with_type(d, top);
        let last = hands.last().0;
        assert(hands.map_values(|h: (usize, Seq<Card>)| h.0)[hands.len() - 1] == last);
        assert forall|j: int| 0 <= j < k.len() implies #[trigger] k[j] < last by {
            let i = choose|i: int| 0 <= i < d.len() && #[trigger] k[j] == d[i].0;
            assert(hands.map_values(|h: (usize, Seq<Card>)| h.0)[i] == d[i].0);
        }
        assert forall|j: int| 0 <= j < keys_with_type(hands, top).len() implies exists|i: int| 0 <= i < hands.len() && #[trigger] keys_with_type(hands, top)[j] == hands[i].0 by {
            if j < k.len() {
                let i = choose|i: int| 0 <= i < d.len() && #[trigger] k[j] == d[i].0;
                assert(hands[i] == d[i]);
            } else {
                assert(keys_with_type(hands, top)[j] == hands[hands.len() - 1].0);
            }
        }
    }
}

proof fn lemma_count_in_all(w: Seq<usize>, n: int)
    requires
        0 <= n <= usize::MAX,
        increasing_below(w, n),
    ensures
        count_in(w, n) == w.len(),
    decreases n,
{
    if n > 0 {
        if w.len() > 0 && w.last() == (n - 1) as usize {
            let d = w.drop_last();
            assert forall|j: int| 0 <= j < d.len() implies #[trigger] d[j] < n - 1 by {
                assert(w[j] < w[w.len() - 1]);
            }
            lemma_count_in_all(d, n - 1);
            assert forall|k: int| 0 <= k < n - 1 implies #[trigger] w.contains(k as usize) == d.contains(k as usize) by {
                if w.contains(k as usize) {
                    let j = choose|j: int| 0 <= j < w.len() && w[j] == k as usize;
                    assert(j != w.len() - 1);
                    assert(d[j] == k as usize);
                }
                if d.contains(k as usize) {
                    let j = choose|j: int| 0 <= j < d.len() && d[j] == k as usize;
                    assert(w[j] == k as usize);
                }
            }
            lemma_count_in_same(w, d, n - 1);
            assert(w[w.len() - 1] == (n - 1) as usize);
            assert(w.contains((n - 1) as usize));
            assert(count_in(w, n) == count_in(w, n - 1) + 1);
        } else {
            assert forall|j: int| 0 <= j < w.len() implies #[trigger] w[j] < n - 1 by {
                if w[j] == n - 1 {
                    assert(j != w.len() - 1);
                    assert(w[j] < w[w.len() - 1]);
                }
            }
            lemma_count_in_all(w, n - 1);
            assert(!w.contains((n - 1) as usize));
            assert(count_in(w, n) == count_in(w, n - 1));
        }
    } else if w.len() > 0 {
        assert(w[0] < n);
    }
}

proof fn lemma_count_in_same(a: Seq<usize>, b: Seq<usize>, k: int)
    requires
        forall|i: int| 0 <= i < k ==> #[trigger] a.contains(i as usize) == b.contains(i as usize),
    ensures
        count_in(a, k) == count_in(b, k),
    decreases k,
{
    if k > 0 {
        lemma_count_in_same(a, b, k - 1);
    }
}

proof fn lemma_payout_sum(players: Seq<PlayerView>, t: TurnView, k: int)
    requires
        0 <= k <= players.len(),
        t.player_states.len() == players.len(),
    ensures
        chips_upto(paid_players(players, t), k) == chips_upto(players, k) - pot(t.player_states.subrange(0, k))
            + share(t) * count_in(showdown_winners(t), k),
    decreases k,
{
    if k > 0 {
        lemma_payout_sum(players, t, k - 1);
        assert(t.player_states.subrange(0, k).drop_last() =~= t.player_states.subrange(0, k - 1));
        let sh = share(t);
        let c1 = count_in(showdown_winners(t), k - 1);
        let x: int = if showdown_winners(t).contains((k - 1) as usize) { 1int } else { 0int };
        assert(count_in(showdown_winners(t), k) == c1 + x);
        assert(sh * (c1 + x) == sh * c1 + sh * x) by (nonlinear_arith);
    }
}

/// Pot conservation at a showdown with one or more players in the hand: the
/// winners receive the pot split evenly, which is the whole pot less a
/// remainder smaller than the number of winners.
pub proof fn lemma_pot_conservation(players: Seq<PlayerView>, t: TurnView)
    requires
        t.player_states.len() == players.len(),
        players.len() <= usize::MAX,
        unfolded_count(t.player_states) >= 1,
        forall|i: int| 0 <= i < t.player_states.len() ==> (#[trigger] t.player_states[i]).total() >= 0,
    ensures
        distributed(players, t) == showdown_winners(t).len() * share(t),
        0 <= pot(t.player_states) - distributed(players, t) < showdown_winners(t).len(),
{
    let n = players.len() as int;
    let ps = t.player_states;
    lemma_contenders_increasing(ps);
    let hands = contenders(ps);
    lemma_keys_increasing(hands, top_type(hands), n);
    crate::cards::lemma_some_hand_on_top(hands);
    let w = showdown_winners(t);
    lemma_count_in_all(w, n);
    lemma_payout_sum(players, t, n);
    assert(ps.subrange(0, n) =~= ps);
    lemma_pot_nonneg(ps);
    let p = pot(ps);
    let wl = w.len() as int;
    assert(share(t) == p / wl);
    assert(distributed(players, t) == share(t) * wl);
    assert(share(t) * wl == wl * share(t)) by (nonlinear_arith);
    assert(0 <= p - wl * (p / wl) < wl) by (nonlinear_arith)
        requires wl >= 1, p >= 0;
}

proof fn lemma_pot_nonneg(ps: Seq<PlayerStateView>)
    requires
        forall|i: int| 0 <= i < ps.len() ==> (#[trigger] ps[i]).total() >= 0,
    ensures
        pot(ps) >= 0,
    decreases ps.len(),
{
    if ps.len() > 0 {
        lemma_pot_nonneg(ps.drop_last());
    }
}

proof fn lemma_paid_at_least(chips: int, t: TurnView, i: int)
    requires
        0 <= i < t.player_states.len(),
        forall|k: int| 0 <= k < t.player_states.len() ==> (#[trigger] t.player_states[k]).total() >= 1,
    ensures
        paid_chips(chips, t, i) >= chips - pot(t.player_states),
        share(t) >= 0,
{
    lemma_pot_prefix(t.player_states, i);
    lemma_pot_prefix(t.player_states, i + 1);
    assert(t.player_states.subrange(0, i + 1).drop_last() =~= t.player_states.subrange(0, i));
    lemma_pot_nonneg(t.player_states);
    let w = showdown_winners(t).len() as int;
    if w > 0 {
        let p = pot(t.player_states);
        assert(p / w >= 0) by (nonlinear_arith)
            requires p >= 0, w > 0;
    }
}

/// What an action on timeline `tl` leaves in place: every board but the last
/// of `tl` is kept, that board gains one turn with the same hands and at
/// least the same open cards as the recorded turn `t`, and no player loses
/// more than the pot of `t`.
proof fn lemma_outcome_frame(m: MultiverseView, tl: int, t: TurnView, mid: MultiverseView)
    requires
        m.wf(),
        0 <= tl < m.timelines.len(),
        t.wf_parts(m.n()),
        m.action_outcome(tl, t, mid),
    ensures
        mid.timelines.len() == m.timelines.len(),
        mid.n() == m.n(),
        forall|a: int|
            0 <= a < m.timelines.len() ==> (#[trigger] mid.timelines[a]).boards.len() >= m.timelines[a].boards.len()
                && mid.timelines[a].starting_time == m.timelines[a].starting_time,
        forall|a: int, b: int|
            #[trigger] m.is_board(a, b) && !(a == tl && b == m.timelines[tl].boards.len() - 1) ==> mid.board_at(a, b)
                == m.board_at(a, b),
        mid.board_at(tl, m.timelines[tl].boards.len() - 1).turns.len() == m.last_board(tl).turns.len() + 1,
        forall|k: int|
            0 <= k < m.last_board(tl).turns.len() ==> #[trigger] mid.board_at(
                tl,
                m.timelines[tl].boards.len() - 1,
            ).turns[k] == m.last_board(tl).turns[k],
        ({
            let x = mid.board_at(tl, m.timelines[tl].boards.len() - 1).turns[m.last_board(tl).turns.len() as int];
            &&& x.player_states.len() == t.player_states.len()
            &&& forall|i: int| 0 <= i < t.player_states.len() ==> #[trigger] x.player_states[i].hand == t.player_states[i].hand
            &&& x.open_cards.len() >= t.open_cards.len()
            &&& forall|j: int| 0 <= j < t.open_cards.len() ==> #[trigger] x.open_cards[j] == t.open_cards[j]
        }),
        forall|i: int| 0 <= i < m.n() ==> #[trigger] mid.players[i].chips >= m.players[i].chips - pot(t.player_states),
{
    let p = m.with_turn_pushed(tl, t);
    let d = choose|d: Seq<Card>| #[trigger]
        is_shuffle_of(d, collected_cards(p.last_turn(tl).advanced())) && mid == p.stage_view(tl, d);
    let adv = t.advanced();
    lemma_advanced_keeps(t, m.n());
    lemma_advanced_wf(t, m.n());
    let bl = m.timelines[tl].boards.len() - 1;
    let kl = m.last_board(tl).turns.len() as int;
    assert(m.is_board(tl, bl));
    assert(p.last_turn(tl) == t);
    let a0 = t.after_checks();
    assert forall|i: int| 0 <= i < t.player_states.len() implies #[trigger] adv.player_states[i].hand == t.player_states[i].hand by {
        assert(adv.player_states == a0.player_states);
    }
    assert forall|j: int| 0 <= j < t.open_cards.len() implies #[trigger] adv.open_cards[j] == t.open_cards[j] by {
    }
    assert forall|k: int| 0 <= k < t.player_states.len() implies (#[trigger] t.player_states[k]).total() >= 1 by {
        lemma_bet_sum_nonneg(t.player_states[k].bet);
    }
    assert forall|k: int| 0 <= k < adv.player_states.len() implies (#[trigger] adv.player_states[k]).total() >= 1 by {
        lemma_bet_sum_nonneg(adv.player_states[k].bet);
    }
    lemma_pot_nonneg(t.player_states);
    if t.enters_showdown() {
        assert forall|i: int| 0 <= i < m.n() implies #[trigger] mid.players[i].chips >= m.players[i].chips - pot(t.player_states) by {
            lemma_paid_at_least(m.players[i].chips, adv, i);
        }
    } else {
        assert(mid.players == m.players);
    }
    assert forall|a: int, b: int|
        #[trigger] m.is_board(a, b) && !(a == tl && b == bl) implies mid.board_at(a, b) == m.board_at(a, b) by {
    }
}

/// A bet that matches the live turn gives a turn that awaits only its stage recompute.
proof fn lemma_bet_turn_wf(m: MultiverseView, tl: int, amount: int)
    requires
        m.live_turn(tl).wf(m.n()),
        0 <= m.active() < m.n(),
        amount >= m.live_turn(tl).bet_amount,
        amount <= i64::MAX,
    ensures
        m.bet_turn(tl, amount).wf_parts(m.n()),
        pot(m.bet_turn(tl, amount).player_states) == pot(m.live_turn(tl).player_states) + amount,
        collected_cards(m.bet_turn(tl, amount)) == collected_cards(m.live_turn(tl)),
        m.bet_turn(tl, amount).completed_stage < 4 ==> unfolded_count(m.bet_turn(tl, amount).player_states) >= 1,
        forall|i: int|
            0 <= i < m.n() ==> #[trigger] m.bet_turn(tl, amount).player_states[i].hand == m.live_turn(tl).player_states[i].hand,
        m.bet_turn(tl, amount).open_cards == m.live_turn(tl).open_cards,
{
    let live = m.live_turn(tl);
    let a = m.active();
    let p = live.player_states[a];
    let q = PlayerStateView { bet: p.bet.push(amount as i64), ..p };
    let u = m.bet_turn(tl, amount);
    assert(q.bet.drop_last() =~= p.bet);
    lemma_pot_update(live.player_states, a, q);
    lemma_unfolded_update(live.player_states, a, q);
    lemma_same_cards(live, a, q, u);
    assert forall|i: int, j: int|
        0 <= i < m.n() && 0 <= j < u.player_states[i].bet.len() implies #[trigger] u.player_states[i].bet[j] >= 0 by {
        if i != a || j < p.bet.len() {
            assert(live.player_states[i].bet[j] >= 0);
        }
    }
}

fn contains_index(v: &Vec<usize>, x: usize) -> (r: bool)
    ensures
        r == v@.contains(x),
{
    let mut i: usize = 0;
    while i < v.len()
        invariant
            0 <= i <= v@.len(),
            forall|j: int| 0 <= j < i ==> v@[j] != x,
        decreases v@.len() - i,
    {
        if v[i] == x {
            return true;
        }
        i = i + 1;
    }
    false
}

impl Multiverse {
    fn set_turn(&mut self, tl: usize, b: usize, k: usize, turn: Turn)
        requires
            old(self)@.is_board(tl as int, b as int),
            k < old(self)@.board_at(tl as int, b as int).turns.len(),
        ensures
            final(self)@ == old(self)@.with_turn_at(tl as int, b as int, k as int, turn@),
    {
        let ghost m = self@;
        let ghost tv = turn@;
        self.timelines[tl].boards[b].0.set(k, turn);
        proof {
            let r = m.with_turn_at(tl as int, b as int, k as int, tv);
            assert(self@.timelines[tl as int].boards[b as int].turns =~= r.timelines[tl as int].boards[b as int].turns);
            assert(self@.timelines[tl as int].boards =~= r.timelines[tl as int].boards);
            assert(self@.timelines =~= r.timelines);
            assert(self@.players =~= r.players);
        }
    }

    fn push_turn(&mut self, tl: usize, turn: Turn)
        requires
            tl < old(self)@.timelines.len(),
            old(self)@.timelines[tl as int].boards.len() >= 1,
        ensures
            final(self)@ == old(self)@.with_turn_pushed(tl as int, turn@),
    {
        let ghost m = self@;
        let ghost tv = turn@;
        let b = self.timelines[tl].boards.len() - 1;
        self.timelines[tl].boards[b].0.push(turn);
        proof {
            let r = m.with_turn_pushed(tl as int, tv);
            assert(self@.timelines[tl as int].boards[b as int].turns =~= r.timelines[tl as int].boards[b as int].turns);
            assert(self@.timelines[tl as int].boards =~= r.timelines[tl as int].boards);
            assert(self@.timelines =~= r.timelines);
            assert(self@.players =~= r.players);
        }
    }

    fn push_board(&mut self, tl: usize, board: Board)
        requires
            tl < old(self)@.timelines.len(),
        ensures
            final(self)@ == old(self)@.with_boards(
                tl as int,
                old(self)@.timelines[tl as int].boards.push(board@),
            ),
    {
        let ghost m = self@;
        let ghost bv = board@;
        self.timelines[tl].boards.push(board);
        proof {
            let r = m.with_boards(tl as int, m.timelines[tl as int].boards.push(bv));
            assert(self@.timelines[tl as int].boards =~= r.timelines[tl as int].boards);
            assert(self@.timelines =~= r.timelines);
            assert(self@.players =~= r.players);
        }
    }

    /// Recomputes the stage of the last turn of `timeline`; on reaching the
    /// showdown, settles the hand, starts the next one, and records the
    /// winning category on that turn.
    pub fn try_increase_stage(&mut self, timeline: usize)
        requires
            old(self)@.wf_pending(timeline as int),
            old(self)@.last_turn(timeline as int).enters_showdown() ==> old(self)@.can_settle(
                old(self)@.last_turn(timeline as int).advanced(),
                0,
            ),
        ensures
            old(self)@.stage_outcome(timeline as int, final(self)@),
            final(self)@.wf(),
    {
        let ghost m = self@;
        let ghost tl = timeline as int;
        let ghost t = m.last_turn(tl);
        let bn = self.timelines[timeline].boards.len() - 1;
        assert(m.is_board(tl, bn as int));
        let kn = self.timelines[timeline].boards[bn].0.len() - 1;
        let mut state = self.timelines[timeline].boards[bn].0[kn].copy();
        assert(state@ == t);
        let showdown = state.advance_stage();
        self.set_turn(timeline, bn, kn, state);
        let ghost adv = t.advanced();
        proof {
            lemma_advanced_wf(t, m.n());
            lemma_settle_last_wf(m, tl, adv);
            assert(self@ == m.with_last_turn(tl, adv));
        }
        if showdown {
            let ghost m1 = self@;
            assert(m1.last_turn(tl) == adv);
            assert(m1.is_board(tl, bn as int));
            let top = self.showdown(timeline);
            let ghost d = choose|d: Seq<Card>| #[trigger]
                is_shuffle_of(d, collected_cards(adv)) && self@ == m1.showdown_view(tl, d);
            proof {
                vstd::seq_lib::to_multiset_len(d);
                vstd::seq_lib::to_multiset_len(collected_cards(adv));
                lemma_showdown_wf(m1, tl, d);
                assert(self@.is_board(tl, bn as int));
                assert(self@.board_at(tl, bn as int) == m1.board_at(tl, bn as int));
            }
            let mut done = self.timelines[timeline].boards[bn].0[kn].copy();
            assert(done@ == adv);
            done.winning_hand_type = Some(top);
            let ghost m2 = self@;
            self.set_turn(timeline, bn, kn, done);
            proof {
                lemma_set_turn_wf(m2, tl, bn as int, kn as int, done@);
                assert(self@ == m.stage_view(tl, d));
                assert(m.stage_outcome(tl, self@));
            }
        } else {
            proof {
                let c = collected_cards(adv);
                assert(is_shuffle_of(c, c));
                assert(self@ == m.stage_view(tl, c));
            }
        }
    }

    /// Records `turn` on the last board of `timeline` and recomputes its stage.
    fn act(&mut self, timeline: usize, turn: Turn)
        requires
            old(self)@.wf(),
            timeline < old(self)@.timelines.len(),
            turn@.wf_parts(old(self)@.n()),
            turn@.completed_stage < 4 ==> unfolded_count(turn@.player_states) >= 1,
            old(self)@.can_settle(turn@, 0),
        ensures
            old(self)@.action_outcome(timeline as int, turn@, final(self)@),
            final(self)@.wf(),
    {
        let ghost m = self@;
        let ghost t = turn@;
        assert(m.timelines[timeline as int].boards.len() >= 1);
        self.push_turn(timeline, turn);
        proof {
            lemma_push_pending(m, timeline as int, t);
            lemma_advanced_keeps(t, m.n());
            assert(self@.players == m.players);
            assert(self@.can_settle(t.advanced(), 0));
        }
        self.try_increase_stage(timeline);
    }

    /// Checks on `timeline`; allowed only when there is no bet to match.
    pub fn try_check(&mut self, timeline: usize) -> (r: bool)
        requires
            old(self)@.wf(),
            timeline < old(self)@.timelines.len(),
            old(self)@.live_turn(timeline as int).bet_amount == 0 ==> old(self)@.live_turn(
                timeline as int,
            ).num_checks < usize::MAX && old(self)@.can_settle(old(self)@.live_turn(timeline as int), 0),
        ensures
            r == (old(self)@.live_turn(timeline as int).bet_amount == 0),
            !r ==> final(self)@ == old(self)@,
            r ==> old(self)@.action_outcome(
                timeline as int,
                old(self)@.checked_turn(timeline as int),
                final(self)@,
            ),
            final(self)@.wf(),
    {
        let ghost m = self@;
        if self.current_turn(timeline).bet_amount == 0 {
            let g = self.get_turn();
            let mut turn = self.current_turn(timeline).copy();
            proof {
                lemma_live_turn_wf(m, timeline as int, g as int);
            }
            turn.num_checks = turn.num_checks + 1;
            assert(turn@ == m.checked_turn(timeline as int));
            self.act(timeline, turn);
            return true;
        }
        false
    }

    /// Bets `amount` for the active player on `timeline`; refused when it is
    /// below the bet to match, or below 1 when there is none.
    pub fn try_bet(&mut self, timeline: usize, amount: i64) -> (r: bool)
        requires
            old(self)@.wf(),
            timeline < old(self)@.timelines.len(),
            old(self)@.bet_accepted(timeline as int, amount as int) ==> old(self)@.can_settle(
                old(self)@.live_turn(timeline as int),
                amount as int,
            ),
        ensures
            r == old(self)@.bet_accepted(timeline as int, amount as int),
            !r ==> final(self)@ == old(self)@,
            r ==> old(self)@.action_outcome(
                timeline as int,
                old(self)@.bet_turn(timeline as int, amount as int),
                final(self)@,
            ),
            final(self)@.wf(),
    {
        let ghost m = self@;
        let active = self.get_active_player();
        if self.can_bet(timeline, active, amount) {
            let g = self.get_turn();
            let mut turn = self.current_turn(timeline).copy();
            let ghost live = turn@;
            proof {
                lemma_live_turn_wf(m, timeline as int, g as int);
            }
            assert(turn.player_states@[active as int]@ == live.player_states[active as int]);
            turn.player_states[active].bet.push(amount);
            turn.bet_amount = amount;
            turn.num_checks = 0;
            proof {
                let a = active as int;
                let p = live.player_states[a];
                let q = PlayerStateView { bet: p.bet.push(amount), ..p };
                assert(turn@.player_states =~= live.player_states.update(a, q));
                assert(turn@ == m.bet_turn(timeline as int, amount as int));
                assert(q.bet.drop_last() =~= p.bet);
                lemma_pot_update(live.player_states, a, q);
                lemma_unfolded_update(live.player_states, a, q);
                lemma_same_cards(live, a, q, turn@);
                assert forall|i: int, j: int|
                    0 <= i < m.n() && 0 <= j < turn@.player_states[i].bet.len() implies #[trigger] turn@.player_states[i].bet[j]
                    >= 0 by {
                    if i != a || j < p.bet.len() {
                        assert(live.player_states[i].bet[j] >= 0);
                    }
                }
            }
            self.act(timeline, turn);
            return true;
        }
        false
    }

    /// Matches the bet on `timeline`; refused when there is no bet to match.
    pub fn try_call(&mut self, timeline: usize) -> (r: bool)
        requires
            old(self)@.wf(),
            timeline < old(self)@.timelines.len(),
            old(self)@.live_turn(timeline as int).bet_amount != 0 ==> old(self)@.can_settle(
                old(self)@.live_turn(timeline as int),
                old(self)@.live_turn(timeline as int).bet_amount,
            ),
        ensures
            r == (old(self)@.live_turn(timeline as int).bet_amount != 0),
            !r ==> final(self)@ == old(self)@,
            r ==> old(self)@.action_outcome(
                timeline as int,
                old(self)@.bet_turn(timeline as int, old(self)@.live_turn(timeline as int).bet_amount),
                final(self)@,
            ),
            final(self)@.wf(),
    {
        let g = self.get_turn();
        proof {
            lemma_live_turn_wf(self@, timeline as int, g as int);
        }
        let bet_amount = self.current_turn(timeline).bet_amount;
        if self.can_bet(timeline, self.get_active_player(), bet_amount) {
            return self.try_bet(timeline, bet_amount);
        }
        false
    }

    /// The active player folds on `timeline`.
    pub fn fold(&mut self, timeline: usize)
        requires
            old(self)@.wf(),
            timeline < old(self)@.timelines.len(),
            old(self)@.can_settle(old(self)@.live_turn(timeline as int), 0),
        ensures
            old(self)@.action_outcome(timeline as int, old(self)@.folded_turn(timeline as int), final(self)@),
            final(self)@.wf(),
    {
        let ghost m = self@;
        let active = self.get_active_player();
        let g = self.get_turn();
        let mut turn = self.current_turn(timeline).copy();
        let ghost live = turn@;
        proof {
            lemma_live_turn_wf(m, timeline as int, g as int);
        }
        assert(turn.player_states@[active as int]@ == live.player_states[active as int]);
        turn.player_states[active].folded = true;
        proof {
            let a = active as int;
            let p = live.player_states[a];
            let q = PlayerStateView { folded: true, ..p };
            assert(turn@.player_states =~= live.player_states.update(a, q));
            assert(turn@ == m.folded_turn(timeline as int));
            lemma_pot_update(live.player_states, a, q);
            lemma_unfolded_update(live.player_states, a, q);
            lemma_same_cards(live, a, q, turn@);
            assert forall|i: int, j: int|
                0 <= i < m.n() && 0 <= j < turn@.player_states[i].bet.len() implies #[trigger] turn@.player_states[i].bet[j]
                >= 0 by {
                assert(live.player_states[i].bet[j] >= 0);
            }
        }
        self.act(timeline, turn);
    }

    /// Repeats the last turn of board `epoch` of `timeline`, so that a board
    /// where the player has nothing to do keeps up with the present.
    pub fn skip(&mut self, timeline: usize, epoch: usize)
        requires
            old(self)@.wf(),
            old(self)@.is_board(timeline as int, epoch as int),
        ensures
            final(self)@ == old(self)@.with_turns(
                timeline as int,
                epoch as int,
                old(self)@.board_at(timeline as int, epoch as int).turns.push(
                    old(self)@.board_at(timeline as int, epoch as int).turns.last(),
                ),
            ),
            final(self)@.wf(),
    {
        let ghost m = self@;
        let ghost tl = timeline as int;
        let ghost b0 = epoch as int;
        assert(m.board_at(tl, b0) == self.timelines@[tl].boards@[b0]@);
        let last = self.timelines[timeline].boards[epoch].get_turn(None).copy();
        let ghost lv = last@;
        self.timelines[timeline].boards[epoch].0.push(last);
        proof {
            let r = m.with_turns(tl, b0, m.board_at(tl, b0).turns.push(lv));
            assert(self@.timelines[tl].boards[b0].turns =~= r.timelines[tl].boards[b0].turns);
            assert(self@.timelines[tl].boards =~= r.timelines[tl].boards);
            assert(self@.timelines =~= r.timelines);
            assert(self@.players =~= r.players);
            let kl = m.board_at(tl, b0).turns.len() - 1;
            assert(lv.wf(m.n()));
            assert forall|a: int| 0 <= a < r.timelines.len() implies (#[trigger] r.timelines[a]).boards.len() >= 1 by {
                assert(r.timelines[a].boards.len() == m.timelines[a].boards.len());
            }
            assert forall|a: int, b: int| #[trigger] r.is_board(a, b) implies r.board_at(a, b).turns.len() >= 1 by {
                assert(m.is_board(a, b));
            }
            assert forall|a: int, b: int, k: int|
                r.is_board(a, b) && 0 <= k < r.board_at(a, b).turns.len() implies (#[trigger] r.board_at(a, b).turns[k]).wf(r.n()) by {
                assert(m.is_board(a, b));
                if !(a == tl && b == b0 && k == kl + 1) {
                    assert(r.board_at(a, b).turns[k] == m.board_at(a, b).turns[k]);
                }
            }
        }
    }

    /// Opens the betting of a stage with `amount`, as read from the player;
    /// refused when nothing was read or the amount is below 1.
    pub fn try_initial_bet(&mut self, timeline: usize, amount: Option<i64>) -> (r: bool)
        requires
            old(self)@.wf(),
            timeline < old(self)@.timelines.len(),
            (amount matches Some(a) && a >= 1 && a >= old(self)@.live_turn(timeline as int).bet_amount)
                ==> old(self)@.can_settle(old(self)@.live_turn(timeline as int), amount.unwrap() as int),
        ensures
            r == (amount matches Some(a) && a >= 1 && a >= old(self)@.live_turn(timeline as int).bet_amount),
            !r ==> final(self)@ == old(self)@,
            r ==> old(self)@.action_outcome(
                timeline as int,
                old(self)@.bet_turn(timeline as int, amount.unwrap() as int),
                final(self)@,
            ),
            final(self)@.wf(),
    {
        if let Some(a) = amount {
            if a >= 1 {
                return self.try_bet(timeline, a);
            }
        }
        false
    }

    /// Raises with `amount`, as read from the player; refused when nothing
    /// was read, the amount is below twice the bet to match, or, with no bet
    /// to match, below 1.
    pub fn try_raise(&mut self, timeline: usize, amount: Option<i64>) -> (r: bool)
        requires
            old(self)@.wf(),
            timeline < old(self)@.timelines.len(),
            old(self)@.raise_accepted(timeline as int, amount) ==> old(self)@.can_settle(
                old(self)@.live_turn(timeline as int),
                amount.unwrap() as int,
            ),
        ensures
            r == (amount matches Some(a) && a >= 2 * old(self)@.live_turn(timeline as int).bet_amount && (
            old(self)@.live_turn(timeline as int).bet_amount != 0 || a >= 1)),
            !r ==> final(self)@ == old(self)@,
            r ==> old(self)@.action_outcome(
                timeline as int,
                old(self)@.bet_turn(timeline as int, amount.unwrap() as int),
                final(self)@,
            ),
            final(self)@.wf(),
    {
        let g = self.get_turn();
        proof {
            lemma_live_turn_wf(self@, timeline as int, g as int);
        }
        let min_amount: i128 = 2 * (self.current_turn(timeline).bet_amount as i128);
        if let Some(a) = amount {
            if a as i128 >= min_amount {
                return self.try_bet(timeline, a);
            }
        }
        false
    }

    /// A first bet when there is nothing to match, a raise otherwise.
    pub fn try_raise_or_bet(&mut self, timeline: usize, amount: Option<i64>) -> (r: bool)
        requires
            old(self)@.wf(),
            timeline < old(self)@.timelines.len(),
            old(self)@.raise_accepted(timeline as int, amount) ==> old(self)@.can_settle(
                old(self)@.live_turn(timeline as int),
                amount.unwrap() as int,
            ),
        ensures
            r == old(self)@.raise_accepted(timeline as int, amount),
            !r ==> final(self)@ == old(self)@,
            r ==> old(self)@.action_outcome(
                timeline as int,
                old(self)@.bet_turn(timeline as int, amount.unwrap() as int),
                final(self)@,
            ),
            final(self)@.wf(),
    {
        let g = self.get_turn();
        proof {
            lemma_live_turn_wf(self@, timeline as int, g as int);
        }
        if self.current_turn(timeline).bet_amount == 0 {
            self.try_initial_bet(timeline, amount)
        } else {
            self.try_raise(timeline, amount)
        }
    }

    /// Branches a new timeline off timeline `parent_index` at global time
    /// `starting_time`, seeded with the parent's board at that time cut at
    /// turn `turn`.
    fn spawn_at(&mut self, parent_index: usize, starting_time: usize, turn: usize)
        requires
            old(self)@.wf(),
            parent_index < old(self)@.timelines.len(),
            old(self)@.timelines[parent_index as int].starting_time <= starting_time,
            starting_time - old(self)@.timelines[parent_index as int].starting_time
                < old(self)@.timelines[parent_index as int].boards.len(),
        ensures
            final(self)@.timelines == old(self)@.timelines.push(
                old(self)@.spawned_at(parent_index as int, starting_time as int, turn as int),
            ),
            final(self)@.players == old(self)@.players,
            final(self)@.active_player == old(self)@.active_player,
            final(self)@.wf(),
    {
        let ghost m = self@;
        let offset = starting_time - self.timelines[parent_index].starting_time;
        assert(m.is_board(parent_index as int, offset as int));
        assert(m.board_at(parent_index as int, offset as int) == self.timelines@[parent_index as int].boards@[offset as int]@);
        let seed = Board::timeline_intersect(&self.timelines[parent_index].boards[offset], turn);
        let mut boards: Vec<Board> = Vec::new();
        boards.push(seed);
        let tl = Timeline { parent_index, starting_time, boards };
        let ghost tv = tl@;
        self.timelines.push(tl);
        proof {
            let sp = m.spawned_at(parent_index as int, starting_time as int, turn as int);
            assert(tv.boards =~= sp.boards);
            assert(self@.timelines =~= m.timelines.push(sp));
            assert(self@.players =~= m.players);
            let r = self@;
            let nt = m.timelines.len() as int;
            assert(r.board_at(nt, 0).turns.len() >= 1);
            assert forall|a: int| 0 <= a < r.timelines.len() implies (#[trigger] r.timelines[a]).boards.len() >= 1 by {
                if a < nt {
                    assert(r.timelines[a] == m.timelines[a]);
                }
            }
            assert forall|a: int, b: int| #[trigger] r.is_board(a, b) implies r.board_at(a, b).turns.len() >= 1 by {
                if a < nt {
                    assert(m.is_board(a, b));
                }
            }
            assert forall|a: int, b: int, k: int|
                r.is_board(a, b) && 0 <= k < r.board_at(a, b).turns.len() implies (#[trigger] r.board_at(a, b).turns[k]).wf(r.n()) by {
                if a < nt {
                    assert(m.is_board(a, b));
                } else {
                    assert(r.board_at(a, b).turns[k] == m.board_at(parent_index as int, offset as int).turns[k]);
                }
            }
        }
    }

    /// Branches a new timeline off timeline `parent_index` at global time
    /// `starting_time`, seeded with the parent's board at that time cut at the
    /// present. Returns the new timeline's index and its board's index.
    pub fn spawn_timeline(&mut self, parent_index: usize, starting_time: usize) -> (r: (usize, usize))
        requires
            old(self)@.wf(),
            parent_index < old(self)@.timelines.len(),
            old(self)@.timelines[parent_index as int].starting_time <= starting_time,
            starting_time - old(self)@.timelines[parent_index as int].starting_time
                < old(self)@.timelines[parent_index as int].boards.len(),
        ensures
            r.0 == old(self)@.timelines.len(),
            r.1 == 0,
            final(self)@.timelines == old(self)@.timelines.push(
                old(self)@.spawned(parent_index as int, starting_time as int),
            ),
            final(self)@.players == old(self)@.players,
            final(self)@.active_player == old(self)@.active_player,
            final(self)@.wf(),
            final(self)@.global_turn() == old(self)@.global_turn(),
    {
        let ghost m = self@;
        let g = self.get_turn();
        self.spawn_at(parent_index, starting_time, g);
        proof {
            let r = self@;
            let nt = m.timelines.len() as int;
            let offset = starting_time - m.timelines[parent_index as int].starting_time;
            assert(m.is_board(parent_index as int, offset));
            assert(r.board_at(nt, 0).turns.len() == g + 1);
            assert forall|a: int, b: int| #[trigger] r.is_board(a, b) implies g + 1 <= r.board_at(a, b).turns.len() by {
                if a < nt {
                    assert(m.is_board(a, b));
                }
            }
            assert(r.turn_bound(g as int));
            assert(m.turn_reached(g as int));
            let (t1, b1) = choose|t: int, b: int| #[trigger] m.is_board(t, b) && g + 1 == m.board_at(t, b).turns.len();
            assert(r.is_board(t1, b1) && g + 1 == r.board_at(t1, b1).turns.len());
            assert(r.turn_reached(g as int));
            lemma_global_turn_is(r, g as int);
        }
        (self.timelines.len() - 1, 0)
    }

    /// A new game for the named players, with two timelines, each dealt from
    /// its own shuffled deck.
    pub fn from_players(players: Vec<String>) -> (r: Multiverse)
        requires
            2 <= players@.len() <= 6,
        ensures
            r@.players.len() == players@.len(),
            forall|i: int|
                0 <= i < players@.len() ==> #[trigger] r@.players[i] == (PlayerView {
                    name: players@[i]@,
                    chips: STARTING_CHIPS as int,
                }),
            r@.active_player == usize::MAX,
            r@.global_turn() == 0,
            r@.timelines.len() == 2,
            forall|t: int|
                0 <= t < 2 ==> (#[trigger] r@.timelines[t]).parent_index == 0 && r@.timelines[t].starting_time
                    == 0 && exists|d: Seq<Card>| #[trigger]
                    is_shuffle_of(d, fresh_deck_spec()) && r@.timelines[t].boards == seq![
                        new_board_view(d, players@.len() as int),
                    ],
            r@.wf(),
    {
        let num_players = players.len();
        let mut roster: Vec<Player> = Vec::new();
        let mut i: usize = 0;
        let players = players;
        while i < num_players
            invariant
                0 <= i <= num_players,
                num_players == players@.len(),
                roster@.len() == i,
                forall|k: int|
                    0 <= k < i ==> (#[trigger] roster@[k])@ == (PlayerView {
                        name: players@[k]@,
                        chips: STARTING_CHIPS as int,
                    }),
            decreases num_players - i,
        {
            let name = players[i].clone();
            roster.push(Player::from_name(name));
            i = i + 1;
        }
        let first = Timeline::genesis(num_players);
        let second = Timeline::genesis(num_players);
        let mut timelines: Vec<Timeline> = Vec::new();
        timelines.push(first);
        timelines.push(second);
        let r = Multiverse { players: roster, timelines, active_player: usize::MAX };
        proof {
            let m = r@;
            let n = num_players as int;
            assert(fresh_deck_spec().len() == 52);
            assert forall|t: int| 0 <= t < 2 implies (#[trigger] m.timelines[t]).parent_index == 0
                && m.timelines[t].starting_time == 0 && exists|d: Seq<Card>| #[trigger]
                is_shuffle_of(d, fresh_deck_spec()) && m.timelines[t].boards == seq![new_board_view(d, n)] by {
                let d = choose|d: Seq<Card>| d.to_multiset() == fresh_deck_spec().to_multiset() && m.timelines[t].boards
                    == seq![#[trigger] new_board_view(d, n)];
                assert(is_shuffle_of(d, fresh_deck_spec()));
            }
            assert forall|t: int, b: int, k: int|
                m.is_board(t, b) && 0 <= k < m.board_at(t, b).turns.len() implies (#[trigger] m.board_at(t, b).turns[k]).wf(m.n()) by {
                let d = choose|d: Seq<Card>| #[trigger]
                    is_shuffle_of(d, fresh_deck_spec()) && m.timelines[t].boards == seq![new_board_view(d, n)];
                vstd::seq_lib::to_multiset_len(d);
                vstd::seq_lib::to_multiset_len(fresh_deck_spec());
                lemma_first_round_wf(d, n);
                assert(m.board_at(t, b) == new_board_view(d, n));
            }
            assert forall|t: int, b: int| #[trigger] m.is_board(t, b) implies m.board_at(t, b).turns.len() == 1 by {
                let d = choose|d: Seq<Card>| #[trigger]
                    is_shuffle_of(d, fresh_deck_spec()) && m.timelines[t].boards == seq![new_board_view(d, n)];
                assert(m.board_at(t, b) == new_board_view(d, n));
            }
            assert(m.turn_bound(0));
            assert(m.is_board(0, 0));
            assert(m.turn_reached(0));
            lemma_global_turn_is(m, 0);
        }
        r
    }

    /// Whether the hand on `timeline`, with `extra` more at stake, can be
    /// settled: its payouts fit in the chip ledger, and its cards can deal the
    /// next hand.
    pub fn has_room(&self, timeline: usize, extra: i64) -> (r: bool)
        requires
            self@.wf(),
            timeline < self@.timelines.len(),
            extra >= 0,
        ensures
            r == self@.can_settle(self@.live_turn(timeline as int), extra as int),
    {
        let ghost m = self@;
        let g = self.get_turn();
        proof {
            lemma_live_turn_wf(m, timeline as int, g as int);
        }
        let state = self.current_turn(timeline);
        let ghost t = state@;
        assert(t == m.live_turn(timeline as int));
        let n = self.players.len();
        let cards = gather_cards(state);
        if cards.len() < 2 * n + 5 {
            return false;
        }
        proof {
            assert forall|k: int| 0 <= k < n implies (#[trigger] t.player_states[k]).total() >= 1 by {
                lemma_bet_sum_nonneg(t.player_states[k].bet);
            }
            if !m.can_settle(t, extra as int) {
            } else {
                assert(m.players[0].chips - (pot(t.player_states) + extra) >= i64::MIN);
            }
        }
        let mut acc: i128 = 0;
        let mut i: usize = 0;
        while i < n
            invariant
                0 <= i <= n,
                n == m.n(),
                t == state@,
                t.wf(n as int),
                forall|k: int| 0 <= k < n ==> (#[trigger] t.player_states[k]).total() >= 1,
                acc == pot(t.player_states.subrange(0, i as int)),
                0 <= acc <= i64::MAX,
                t == m.live_turn(timeline as int),
                m == self@,
                m.can_settle(t, extra as int) ==> pot(t.player_states) <= i64::MAX,
            decreases n - i,
        {
            let bets = &state.player_states[i].bet;
            assert(state.player_states@[i as int]@ == t.player_states[i as int]);
            let ghost b = t.player_states[i as int].bet;
            proof {
                assert forall|k: int| 0 <= k < b.len() implies #[trigger] b[k] >= 0 by {
                    assert(t.player_states[i as int].bet[k] >= 0);
                }
                lemma_pot_prefix(t.player_states, i + 1);
                assert(t.player_states.subrange(0, i + 1).drop_last() =~= t.player_states.subrange(0, i as int));
            }
            let mut sum: i128 = ANTE as i128;
            let mut j: usize = 0;
            while j < bets.len()
                invariant
                    0 <= j <= b.len(),
                    b == bets@,
                    forall|k: int| 0 <= k < b.len() ==> #[trigger] b[k] >= 0,
                    sum == bet_sum(b.subrange(0, j as int)) + ANTE,
                    acc + sum <= i64::MAX + 1,
                    0 <= acc <= i64::MAX,
                    1 <= sum,
                    pot(t.player_states) >= acc + bet_sum(b) + ANTE,
                    t == m.live_turn(timeline as int),
                    m == self@,
                    m.can_settle(t, extra as int) ==> pot(t.player_states) <= i64::MAX,
                decreases b.len() - j,
            {
                assert(b.subrange(0, j + 1).drop_last() =~= b.subrange(0, j as int));
                sum = sum + bets[j] as i128;
                if acc + sum > i64::MAX as i128 {
                    proof {
                        lemma_bet_sum_prefix(b, j + 1);
                        assert(pot(t.player_states) >= acc + sum);
                        assert(!m.can_settle(t, extra as int));
                    }
                    return false;
                }
                j = j + 1;
            }
            assert(b.subrange(0, j as int) =~= b);
            if acc + sum > i64::MAX as i128 {
                assert(!m.can_settle(t, extra as int));
                return false;
            }
            acc = acc + sum;
            i = i + 1;
        }
        assert(t.player_states.subrange(0, n as int) =~= t.player_states);
        let total: i128 = acc + extra as i128;
        let mut k: usize = 0;
        while k < n
            invariant
                0 <= k <= n,
                n == m.n(),
                n == self.players@.len(),
                m == self@,
                total == pot(t.player_states) + extra,
                0 <= total <= 2 * i64::MAX,
                t == m.live_turn(timeline as int),
                collected_cards(t).len() >= 2 * m.n() + 5,
                forall|q: int|
                    0 <= q < k ==> i64::MIN <= #[trigger] m.players[q].chips - total && m.players[q].chips + total
                        <= i64::MAX,
            decreases n - k,
        {
            assert(self.players@[k as int]@ == m.players[k as int]);
            let chips = self.players[k].chips as i128;
            if chips - total < i64::MIN as i128 || chips + total > i64::MAX as i128 {
                assert(!(i64::MIN <= m.players[k as int].chips - (pot(t.player_states) + extra)
                    && m.players[k as int].chips + (pot(t.player_states) + extra) <= i64::MAX));
                assert(!m.stakes_fit(t, extra as int));
                return false;
            }
            k = k + 1;
        }
        true
    }

    fn set_chips(&mut self, i: usize, chips: i64)
        requires
            i < old(self)@.players.len(),
        ensures
            final(self)@ == old(self)@.with_chips(i as int, chips as int),
    {
        let ghost m = self@;
        self.players[i].chips = chips;
        assert(self@.players =~= m.with_chips(i as int, chips as int).players);
    }

    /// Takes card `card` from slot `player` of turn `k` of a board.
    fn take_card(&mut self, tl: usize, b: usize, k: usize, player: usize, card: usize) -> (c: Card)
        requires
            old(self)@.wf(),
            old(self)@.is_board(tl as int, b as int),
            k < old(self)@.board_at(tl as int, b as int).turns.len(),
            card < slot_cards(old(self)@.board_at(tl as int, b as int).turns[k as int], player as int).len(),
        ensures
            c == slot_cards(old(self)@.board_at(tl as int, b as int).turns[k as int], player as int)[card as int],
            final(self)@ == old(self)@.taken(tl as int, b as int, k as int, player as int, card as int),
            final(self)@.wf(),
    {
        let ghost m = self@;
        let n = self.players.len();
        let mut src = self.timelines[tl].boards[b].0[k].copy();
        let ghost sv = src@;
        assert(sv == m.board_at(tl as int, b as int).turns[k as int]);
        assert(sv.wf(m.n()));
        let c = if player < n {
            assert(src.player_states@[player as int]@ == sv.player_states[player as int]);
            src.player_states[player].hand.remove(card)
        } else {
            src.open_cards.remove(card)
        };
        proof {
            let cards = slot_cards(sv, player as int).remove(card as int);
            if player < n {
                assert(src@.player_states =~= with_slot(sv, player as int, cards).player_states);
                let p = sv.player_states[player as int];
                lemma_unfolded_update(sv.player_states, player as int, PlayerStateView { hand: cards, ..p });
            }
            assert(src@ == with_slot(sv, player as int, cards));
            assert forall|i: int, j: int|
                0 <= i < m.n() && 0 <= j < src@.player_states[i].bet.len() implies #[trigger] src@.player_states[i].bet[j] >= 0 by {
                assert(src@.player_states[i].bet == sv.player_states[i].bet);
                assert(sv.player_states[i].bet[j] >= 0);
            }
            lemma_set_turn_wf(m, tl as int, b as int, k as int, src@);
        }
        self.set_turn(tl, b, k, src);
        c
    }

    /// Adds `c` to slot `player` at turn `h` of board `t_to` of
    /// `timeline_to`, first branching a new timeline from that board, cut at
    /// `h`, when it has run past `h`.
    fn land_card(&mut self, h: usize, player: usize, timeline_to: usize, t_to: usize, c: Card)
        requires
            old(self)@.wf(),
            old(self)@.is_board(timeline_to as int, t_to as int),
            h < old(self)@.board_at(timeline_to as int, t_to as int).turns.len(),
            t_to + old(self)@.timelines[timeline_to as int].starting_time <= usize::MAX,
        ensures
            final(self)@ == old(self)@.landed(h as int, player as int, timeline_to as int, t_to as int, c),
            final(self)@.wf(),
    {
        let ghost m2 = self@;
        let n = self.players.len();
        assert(m2.board_at(timeline_to as int, t_to as int) == self.timelines@[timeline_to as int].boards@[t_to as int]@);
        let past = self.timelines[timeline_to].boards[t_to].is_past(Some(h));
        let (tl, b) = if past {
            let st = t_to + self.timelines[timeline_to].starting_time;
            self.spawn_at(timeline_to, st, h);
            (self.timelines.len() - 1, 0)
        } else {
            (timeline_to, t_to)
        };
        let ghost m3 = self@;
        proof {
            assert(m3.is_board(tl as int, b as int));
            assert(h < m3.board_at(tl as int, b as int).turns.len());
        }
        let mut dst = self.timelines[tl].boards[b].0[h].copy();
        let ghost dv = dst@;
        assert(dv == m3.board_at(tl as int, b as int).turns[h as int]);
        assert(dv.wf(m3.n()));
        if player < n {
            assert(dst.player_states@[player as int]@ == dv.player_states[player as int]);
            dst.player_states[player].hand.push(c);
        } else {
            dst.open_cards.push(c);
        }
        proof {
            let cards = slot_cards(dv, player as int).push(c);
            if player < n {
                assert(dst@.player_states =~= with_slot(dv, player as int, cards).player_states);
                let p = dv.player_states[player as int];
                lemma_unfolded_update(dv.player_states, player as int, PlayerStateView { hand: cards, ..p });
            }
            assert(dst@ == with_slot(dv, player as int, cards));
            assert forall|i: int, j: int|
                0 <= i < m3.n() && 0 <= j < dst@.player_states[i].bet.len() implies #[trigger] dst@.player_states[i].bet[j] >= 0 by {
                assert(dst@.player_states[i].bet == dv.player_states[i].bet);
                assert(dv.player_states[i].bet[j] >= 0);
            }
            lemma_set_turn_wf(m3, tl as int, b as int, h as int, dst@);
        }
        self.set_turn(tl, b, h, dst);
    }

    /// Moves a card through time: from slot `player` (a player's hand, or the
    /// open cards when `player` is no player's position) of board `t_from` of
    /// timeline `timeline_from`, to the same slot of board `t_to` of timeline
    /// `timeline_to`. The move costs a raise of `amount` on the source
    /// timeline, which must be accepted, and a burn of chips. A destination
    /// that has run past the present is first branched into a new timeline,
    /// which receives the card instead.
    pub fn time_travel(
        &mut self,
        timeline_from: usize,
        t_from: usize,
        player: usize,
        card: usize,
        timeline_to: usize,
        t_to: usize,
        amount: Option<i64>,
    ) -> (r: bool)
        requires
            old(self)@.wf(),
            timeline_from < old(self)@.timelines.len(),
            timeline_to < old(self)@.timelines.len(),
            t_from < old(self)@.timelines[timeline_from as int].boards.len(),
            t_to < old(self)@.timelines[timeline_to as int].boards.len(),
            !(timeline_from == timeline_to && t_from == t_to) && old(self)@.raise_accepted(
                timeline_from as int,
                amount,
            ) ==> {
                &&& t_to + old(self)@.timelines[timeline_to as int].starting_time <= usize::MAX
                &&& old(self)@.source_ready(timeline_from as int, t_from as int, player as int, card as int)
                &&& old(self)@.can_settle(
                    old(self)@.live_turn(timeline_from as int),
                    amount.unwrap() + burn(
                        timeline_from as int,
                        t_from as int,
                        player as int,
                        timeline_to as int,
                        t_to as int,
                        old(self)@.n(),
                    ),
                )
            },
        ensures
            r == (!(timeline_from == timeline_to && t_from == t_to) && old(self)@.raise_accepted(
                timeline_from as int,
                amount,
            )),
            !r ==> final(self)@ == old(self)@,
            r ==> old(self)@.travel_outcome(
                timeline_from as int,
                t_from as int,
                player as int,
                card as int,
                timeline_to as int,
                t_to as int,
                amount.unwrap() as int,
                final(self)@,
            ),
            final(self)@.wf(),
    {
        if timeline_from == timeline_to && t_from == t_to {
            return false;
        }
        let ghost m = self@;
        let ghost tf = timeline_from as int;
        let g = self.get_turn();
        let n = self.players.len();
        let d_t: usize = if t_from >= t_to {
            t_from - t_to
        } else {
            t_to - t_from
        };
        let d_tl: usize = if timeline_from >= timeline_to {
            timeline_from - timeline_to
        } else {
            timeline_to - timeline_from
        };
        let slot_cost: i128 = if player < n {
            0
        } else {
            4
        };
        let cost: i128 = d_t as i128 + d_tl as i128 + slot_cost;
        assert(cost == burn(tf, t_from as int, player as int, timeline_to as int, t_to as int, m.n()));
        proof {
            lemma_live_turn_wf(m, tf, g as int);
        }
        let initiating = self.get_active_player();
        if !self.try_raise_or_bet(timeline_from, amount) {
            return false;
        }
        let ghost a = amount.unwrap() as int;
        let ghost mid = self@;
        proof {
            lemma_bet_turn_wf(m, tf, a);
            lemma_outcome_frame(m, tf, m.bet_turn(tf, a), mid);
            let lps = m.live_turn(tf).player_states;
            assert forall|k: int| 0 <= k < lps.len() implies (#[trigger] lps[k]).total() >= 0 by {
                lemma_bet_sum_nonneg(lps[k].bet);
            }
            lemma_pot_nonneg(lps);
            assert(m.is_board(tf, t_from as int));
            assert(m.is_board(timeline_to as int, t_to as int));
        }
        let chips = self.players[initiating].chips;
        proof {
            assert(m.stakes_fit(m.live_turn(tf), a + cost));
            assert(i64::MIN <= m.players[initiating as int].chips - (pot(m.live_turn(tf).player_states) + a + cost));
            assert(mid.players[initiating as int].chips >= m.players[initiating as int].chips - pot(m.bet_turn(tf, a).player_states));
        }
        self.set_chips(initiating, (chips as i128 - cost) as i64);
        let ghost m1 = self@;
        proof {
            assert(m1.timelines == mid.timelines);
            assert(m1.players.len() == mid.players.len());
            assert(m1.wf()) by {
                assert forall|t: int, b: int| #[trigger] m1.is_board(t, b) implies m1.board_at(t, b).turns.len() >= 1 by {
                    assert(mid.is_board(t, b));
                }
                assert forall|t: int, b: int, k: int|
                    m1.is_board(t, b) && 0 <= k < m1.board_at(t, b).turns.len() implies (#[trigger] m1.board_at(t, b).turns[k]).wf(m1.n()) by {
                    assert(mid.is_board(t, b));
                }
            }
        }
        // take the card just after the present of the source board
        let board_len = self.timelines[timeline_from].boards[t_from].0.len();
        proof {
            let bl = m.timelines[tf].boards.len() - 1;
            let b = m.board_at(tf, t_from as int);
            if b.turns.len() > g + 1 {
                if t_from as int != bl {
                    assert(mid.board_at(tf, t_from as int) == b);
                } else {
                    assert(mid.board_at(tf, t_from as int).turns[g + 1] == b.turns[g + 1]);
                }
            } else {
                assert(m.live_turn(tf) == b.turns[g as int]);
            }
            assert(m1.is_board(tf, t_from as int));
            assert(g + 1 < m1.board_at(tf, t_from as int).turns.len());
            assert(m1.board_at(tf, t_from as int).turns.len() == board_len);
            assert(0 <= card < slot_cards(m1.board_at(tf, t_from as int).turns[g + 1], player as int).len());
        }
        let src_idx = g + 1;
        let c = self.take_card(timeline_from, t_from, src_idx, player, card);
        proof {
            let bl = m.timelines[tf].boards.len() - 1;
            let tt = timeline_to as int;
            if !(tt == tf && t_to as int == bl) {
                assert(mid.board_at(tt, t_to as int) == m.board_at(tt, t_to as int));
            }
            assert(g < self@.board_at(tt, t_to as int).turns.len());
        }
        self.land_card(g, player, timeline_to, t_to, c);
        proof {
            assert(self@ == mid.travelled(
                g as int,
                initiating as int,
                tf,
                t_from as int,
                player as int,
                card as int,
                timeline_to as int,
                t_to as int,
            ));
            assert(m.travel_outcome(tf, t_from as int, player as int, card as int, timeline_to as int, t_to as int, a, self@));
        }
        true
    }

    /// Settles the hand on the last board of `timeline`: every player pays
    /// their stake, the winners split the pot, and a new hand is dealt from
    /// the gathered cards, shuffled. Returns the winning category.
    pub fn showdown(&mut self, timeline: usize) -> (r: HandType)
        requires
            old(self)@.wf_shape(),
            timeline < old(self)@.timelines.len(),
            old(self)@.last_turn(timeline as int).wf_parts(old(self)@.n()),
            old(self)@.can_settle(old(self)@.last_turn(timeline as int), 0),
        ensures
            r == top_type(contenders(old(self)@.last_turn(timeline as int).player_states)),
            exists|d: Seq<Card>| #[trigger]
                is_shuffle_of(d, collected_cards(old(self)@.last_turn(timeline as int))) && final(self)@
                    == old(self)@.showdown_view(timeline as int, d),
    {
        let ghost m = self@;
        let ghost tl = timeline as int;
        let ghost bl = m.timelines[tl].boards.len() - 1;
        assert(m.is_board(tl, bl));
        let state = self.timelines[timeline].current_board().get_turn(None).copy();
        let ghost t = state@;
        assert(t == m.last_turn(tl));
        let n = self.players.len();
        // the hands still in play
        let mut hands: Vec<(usize, Vec<Card>)> = Vec::new();
        let mut i: usize = 0;
        while i < n
            invariant
                0 <= i <= n,
                n == m.n(),
                t == state@,
                t.player_states.len() == n,
                hand_views(hands@) == contenders(t.player_states.subrange(0, i as int)),
            decreases n - i,
        {
            assert(t.player_states.subrange(0, i + 1).drop_last() =~= t.player_states.subrange(0, i as int));
            if !state.player_states[i].folded {
                let h = state.player_states[i].hand.clone();
                assert(h@ =~= t.player_states[i as int].hand);
                let ghost before = hands@;
                hands.push((i, h));
                assert(hand_views(hands@) =~= hand_views(before).push((i, t.player_states[i as int].hand)));
            }
            i = i + 1;
        }
        assert(t.player_states.subrange(0, n as int) =~= t.player_states);
        let (winners, top) = calculate_winners(&hands);
        // every card of the hand, gathered for the next deal
        let mut deck = gather_cards(&state);
        // the pot
        proof {
            assert forall|k: int| 0 <= k < n implies (#[trigger] t.player_states[k]).total() >= 1 by {
                lemma_bet_sum_nonneg(t.player_states[k].bet);
            }
            lemma_pot_prefix(t.player_states, 0);
            assert(m.stakes_fit(t, 0));
            assert(m.players[0].chips - pot(t.player_states) >= i64::MIN);
            assert(m.players[0].chips + pot(t.player_states) <= i64::MAX);
        }
        proof {
            assert forall|k: int| 0 <= k < n implies (#[trigger] t.player_states[k]).total() <= pot(t.player_states) by {
                lemma_pot_prefix(t.player_states, k);
                lemma_pot_prefix(t.player_states, k + 1);
                assert(t.player_states.subrange(0, k + 1).drop_last() =~= t.player_states.subrange(0, k));
            }
        }
        let mut total: i64 = 0;
        let mut i: usize = 0;
        while i < n
            invariant
                0 <= i <= n,
                n == m.n(),
                t == state@,
                t.player_states.len() == n,
                forall|k: int| 0 <= k < n ==> (#[trigger] t.player_states[k]).total() >= 1,
                forall|k: int| 0 <= k < n ==> (#[trigger] t.player_states[k]).total() <= pot(t.player_states),
                0 <= pot(t.player_states) <= i64::MAX,
                total == pot(t.player_states.subrange(0, i as int)),
            decreases n - i,
        {
            proof {
                lemma_pot_prefix(t.player_states, i + 1);
                assert(t.player_states.subrange(0, i + 1).drop_last() =~= t.player_states.subrange(0, i as int));
            }
            assert(state.player_states@[i as int]@ == t.player_states[i as int]);
            let c = state.player_states[i].commitment();
            total = total + c;
            i = i + 1;
        }
        assert(t.player_states.subrange(0, n as int) =~= t.player_states);
        proof {
            assert(winners@ == showdown_winners(t));
        }
        let w = winners.len();
        let each: i64 = if w > 0 {
            (total as i128 / w as i128) as i64
        } else {
            0
        };
        proof {
            if w > 0 {
                let e = each as int;
                let tt = total as int;
                let ww = w as int;
                assert((total as i128 / w as i128) == tt / ww);
                assert(e <= tt && e >= 0) by (nonlinear_arith)
                    requires e == tt / ww, ww >= 1, tt >= 0;
            }
            assert(each == share(t));
        }
        // the payouts
        let mut i: usize = 0;
        while i < n
            invariant
                0 <= i <= n,
                n == m.n(),
                n == self.players@.len(),
                t == state@,
                t.player_states.len() == n,
                forall|k: int| 0 <= k < n ==> (#[trigger] t.player_states[k]).total() >= 1,
                forall|k: int| 0 <= k < n ==> (#[trigger] t.player_states[k]).total() <= pot(t.player_states),
                total == pot(t.player_states),
                0 <= each <= total,
                each == share(t),
                winners@ == showdown_winners(t),
                m.stakes_fit(t, 0),
                self@.timelines == m.timelines,
                self.active_player == m.active_player,
                forall|k: int| 0 <= k < i ==> (#[trigger] self.players@[k])@ == paid_players(m.players, t)[k],
                forall|k: int| i <= k < n ==> (#[trigger] self.players@[k])@ == m.players[k],
            decreases n - i,
        {
            assert(state.player_states@[i as int]@ == t.player_states[i as int]);
            let c = state.player_states[i].commitment();
            let won = contains_index(&winners, i);
            assert(self.players@[i as int]@ == m.players[i as int]);
            let chips = self.players[i].chips;
            assert(i64::MIN <= m.players[i as int].chips - pot(t.player_states));
            let paid: i64 = if won {
                chips - c + each
            } else {
                chips - c
            };
            self.players[i].chips = paid;
            i = i + 1;
        }
        let ghost collected = deck@;
        shuffle_deck(&mut deck);
        proof {
            vstd::seq_lib::to_multiset_len(deck@);
            vstd::seq_lib::to_multiset_len(collected);
        }
        let board = Board::new(deck, n);
        let ghost paid_state = self@;
        assert(paid_state.players =~= paid_players(m.players, t));
        self.push_board(timeline, board);
        proof {
            let r = m.showdown_view(tl, deck@);
            assert(self@.timelines =~= r.timelines);
            assert(self@.players =~= r.players);
            assert(is_shuffle_of(deck@, collected_cards(t)));
        }
        top
    }
}

/// The cards of a slot of a turn: the hand of player `player`, or the open
/// cards when `player` is no player's position.
pub open spec fn slot_cards(t: TurnView, player: int) -> Seq<Card> {
    if 0 <= player < t.player_states.len() {
        t.player_states[player].hand
    } else {
        t.open_cards
    }
}

/// The turn with the cards of a slot replaced.
pub open spec fn with_slot(t: TurnView, player: int, cards: Seq<Card>) -> TurnView {
    if 0 <= player < t.player_states.len() {
        TurnView {
            player_states: t.player_states.update(
                player,
                PlayerStateView { hand: cards, ..t.player_states[player] },
            ),
            ..t
        }
    } else {
        TurnView { open_cards: cards, ..t }
    }
}

pub open spec fn distance(a: int, b: int) -> int {
    if a >= b {
        a - b
    } else {
        b - a
    }
}

/// The chips that moving a card costs: how far it travels across boards and
/// timelines, and four more when it lands among the open cards.
pub open spec fn burn(tl_from: int, t_from: int, player: int, tl_to: int, t_to: int, n: int) -> int {
    distance(t_from, t_to) + distance(tl_from, tl_to) + if player < n {
        0int
    } else {
        4int
    }
}

/// The present is determined by the boards.
pub proof fn lemma_global_turn_is(m: MultiverseView, g: int)
    requires
        m.turn_bound(g),
        m.turn_reached(g),
    ensures
        m.global_turn() == g,
{
    let h = m.global_turn();
    assert(m.turn_bound(h) && m.turn_reached(h));
    let (t1, b1) = choose|t: int, b: int| #[trigger] m.is_board(t, b) && g + 1 == m.board_at(t, b).turns.len();
    let (t2, b2) = choose|t: int, b: int| #[trigger] m.is_board(t, b) && h + 1 == m.board_at(t, b).turns.len();
    assert(m.is_board(t1, b1));
    assert(m.is_board(t2, b2));
}

impl Multiverse {
    /// The shared present: the fewest turns of any board, less one.
    pub fn get_turn(&self) -> (r: usize)
        requires
            self@.wf(),
        ensures
            r == self@.global_turn(),
            forall|t: int, b: int| #[trigger]
                self@.is_board(t, b) ==> r <= self@.board_at(t, b).turns.len() - 1,
            self@.turn_reached(r as int),
    {
        let ghost m = self@;
        assert(m.timelines[0] == self.timelines@[0]@);
        assert(m.timelines[0].boards.len() >= 1);
        let mut turn: usize = self.timelines[0].boards[0].0.len();
        assert(m.is_board(0, 0));
        let mut found_t: usize = 0;
        let mut found_b: usize = 0;
        let mut i: usize = 0;
        while i < self.timelines.len()
            invariant
                m == self@,
                m.wf(),
                0 <= i <= m.timelines.len(),
                m.is_board(found_t as int, found_b as int),
                turn == m.board_at(found_t as int, found_b as int).turns.len(),
                forall|t: int, b: int| #[trigger]
                    m.is_board(t, b) && t < i ==> turn <= m.board_at(t, b).turns.len(),
            decreases m.timelines.len() - i,
        {
            let boards = &self.timelines[i].boards;
            let mut j: usize = 0;
            while j < boards.len()
                invariant
                    m == self@,
                    m.wf(),
                    0 <= i < m.timelines.len(),
                    boards == self.timelines@[i as int].boards,
                    0 <= j <= boards@.len(),
                    m.is_board(found_t as int, found_b as int),
                    turn == m.board_at(found_t as int, found_b as int).turns.len(),
                    forall|t: int, b: int| #[trigger]
                        m.is_board(t, b) && (t < i || (t == i && b < j)) ==> turn <= m.board_at(
                            t,
                            b,
                        ).turns.len(),
                decreases boards@.len() - j,
            {
                assert(m.board_at(i as int, j as int) == boards@[j as int]@);
                if boards[j].0.len() < turn {
                    turn = boards[j].0.len();
                    found_t = i;
                    found_b = j;
                }
                j = j + 1;
            }
            i = i + 1;
        }
        proof {
            assert(turn >= 1);
            let g = turn - 1;
            assert(m.turn_bound(g));
            assert(m.is_board(found_t as int, found_b as int) && g + 1 == m.board_at(found_t as int, found_b as int).turns.len());
            assert(m.turn_reached(g));
            lemma_global_turn_is(m, g);
        }
        turn - 1
    }

    /// The player to act now.
    pub fn get_active_player(&self) -> (r: usize)
        requires
            self@.wf(),
        ensures
            r == self@.active(),
    {
        self.get_turn() % self.players.len()
    }

    /// The present turn of the last board of `timeline`.
    pub fn current_turn(&self, timeline: usize) -> (r: &Turn)
        requires
            self@.wf(),
            timeline < self@.timelines.len(),
        ensures
            r@ == self@.live_turn(timeline as int),
    {
        let g = self.get_turn();
        let ghost b = self@.timelines[timeline as int].boards.len() - 1;
        assert(self@.is_board(timeline as int, b));
        self.timelines[timeline].current_board().get_turn(Some(g))
    }

    /// A bet of `amount` matches the bet to call on `timeline`.
    pub fn can_bet(&self, timeline: usize, _player: usize, amount: i64) -> (r: bool)
        requires
            self@.wf(),
            timeline < self@.timelines.len(),
        ensures
            r == self@.bet_accepted(timeline as int, amount as int),
    {
        let b = self.current_turn(timeline).bet_amount;
        amount >= b && (b != 0 || amount >= 1)
    }
}

} // verus!
