use poker_multiverse::board::turn::Turn;
use poker_multiverse::board::Board;
use poker_multiverse::cards::{fresh_deck, Card, HandType, Suite};
use poker_multiverse::game::Timeline;
use poker_multiverse::multiverse::Multiverse;
use poker_multiverse::player::{Player, PlayerState};

fn game(n: usize) -> Multiverse {
    let names: Vec<String> = (0..n).map(|i| format!("p{}", i)).collect();
    Multiverse::from_players(names)
}

fn card_count(t: &Turn) -> usize {
    t.deck.len() + t.open_cards.len() + t.player_states.iter().map(|p| p.hand.len()).sum::<usize>()
}

#[test]
fn player_starts_with_thirty_chips() {
    let p = Player::from_name("ada".to_string());
    assert_eq!(p.name, "ada");
    assert_eq!(p.chips, 30);
}

#[test]
fn commitment_adds_the_ante() {
    let p = PlayerState { hand: vec![], bet: vec![2, 3], folded: false };
    assert_eq!(p.commitment(), 6);
    let q = PlayerState { hand: vec![], bet: vec![], folded: true };
    assert_eq!(q.commitment(), 1);
}

#[test]
fn first_round_deals_from_the_top() {
    let deck = fresh_deck();
    let t = Turn::first_round(deck.clone(), 3);
    assert_eq!(t.player_states.len(), 3);
    assert_eq!(t.player_states[0].hand, vec![deck[51], deck[50]]);
    assert_eq!(t.player_states[2].hand, vec![deck[47], deck[46]]);
    assert_eq!(t.deck.len(), 46);
    assert_eq!(t.completed_stage, 0);
    assert_eq!(t.bet_amount, 0);
    assert!(t.open_cards.is_empty());
    assert!(t.winning_hand_type.is_none());
}

#[test]
fn board_views_and_cuts() {
    let board = Board::new(fresh_deck(), 2);
    let mut long = board.clone();
    long.0.push(board.0[0].clone());
    long.0.push(board.0[0].clone());
    assert!(long.is_past(Some(0)));
    assert!(long.is_past(Some(1)));
    assert!(!long.is_past(Some(2)));
    assert!(!long.is_past(None));
    let cut = Board::timeline_intersect(&long, 1);
    assert_eq!(cut.0.len(), 2);
    assert_eq!(cut.0[1], long.0[1]);
    assert_eq!(Board::timeline_intersect(&long, 10).0.len(), 3);
    assert_eq!(long.get_turn(None), &long.0[2]);
}

#[test]
fn genesis_deals_a_shuffled_full_deck() {
    let t = Timeline::genesis(4);
    assert_eq!(t.parent_index, 0);
    assert_eq!(t.starting_time, 0);
    assert_eq!(t.boards.len(), 1);
    let turn = &t.current_board().0[0];
    assert_eq!(card_count(turn), 52);
    let mut all: Vec<Card> = turn.deck.clone();
    for p in &turn.player_states {
        all.extend(p.hand.iter().copied());
    }
    let fresh = fresh_deck();
    for card in &fresh {
        assert_eq!(all.iter().filter(|c| *c == card).count(), 1);
    }
}

#[test]
fn new_game_starts_at_turn_zero() {
    let g = game(3);
    assert_eq!(g.timelines.len(), 2);
    assert_eq!(g.players.len(), 3);
    assert_eq!(g.get_turn(), 0);
    assert_eq!(g.get_active_player(), 0);
    assert_eq!(g.active_player, usize::MAX);
    assert!(g.has_room(0, 0));
}

#[test]
fn bet_below_the_bet_to_match_changes_nothing() {
    let mut g = game(2);
    assert!(g.try_bet(0, 3));
    let mut h = g.clone();
    // the clock waits for the other timeline; the live turn still has no bet
    assert!(h.try_initial_bet(1, Some(4)));
    let before = h.clone();
    assert!(!h.can_bet(0, 1, 2));
    assert!(!h.try_bet(0, 2));
    assert_eq!(h, before);
    assert!(!h.try_initial_bet(0, Some(0)));
    assert!(!h.try_initial_bet(0, None));
    assert!(!h.try_raise(0, Some(5)));
    assert_eq!(h, before);
}

#[test]
fn an_opening_bet_must_be_at_least_one() {
    let mut g = game(2);
    let before = g.clone();
    assert!(!g.can_bet(0, 0, 0));
    assert!(g.can_bet(0, 0, 1));
    assert!(!g.try_bet(0, 0));
    assert!(!g.try_bet(0, -3));
    assert!(!g.try_raise(0, Some(0)));
    assert!(!g.try_raise_or_bet(0, Some(0)));
    assert!(!g.try_call(0));
    assert_eq!(g, before);
    assert!(g.try_raise(0, Some(1)));
}

#[test]
fn bet_then_call_opens_the_flop() {
    let mut g = game(2);
    assert!(g.try_bet(0, 2));
    g.skip(1, 0);
    assert_eq!(g.get_turn(), 1);
    assert_eq!(g.get_active_player(), 1);
    assert!(g.try_call(0));
    let t = g.timelines[0].current_board().0.last().unwrap().clone();
    assert_eq!(t.player_states[0].bet, vec![2]);
    assert_eq!(t.player_states[1].bet, vec![2]);
    assert_eq!(t.completed_stage, 1);
    assert_eq!(t.open_cards.len(), 3);
    assert_eq!(t.bet_amount, 0);
    assert_eq!(card_count(&t), 52);
}

#[test]
fn all_checks_advance_the_stage() {
    let mut g = game(2);
    assert!(g.try_check(0));
    g.skip(1, 0);
    assert!(g.try_check(0));
    let t = g.timelines[0].current_board().0.last().unwrap().clone();
    assert_eq!(t.player_states[0].bet, vec![0]);
    assert_eq!(t.player_states[1].bet, vec![0]);
    assert_eq!(t.completed_stage, 1);
    assert_eq!(t.num_checks, 0);
    assert_eq!(t.open_cards.len(), 3);
}

#[test]
fn check_is_refused_when_a_bet_stands() {
    let mut g = game(2);
    assert!(g.try_bet(0, 2));
    g.skip(1, 0);
    let before = g.clone();
    assert!(!g.try_check(0));
    assert_eq!(g, before);
}

#[test]
fn raise_must_double_the_bet() {
    let mut g = game(2);
    assert!(g.try_raise_or_bet(0, Some(3)));
    g.skip(1, 0);
    assert!(!g.try_raise_or_bet(0, Some(5)));
    assert!(g.try_raise_or_bet(0, Some(6)));
    let t = g.timelines[0].current_board().0.last().unwrap().clone();
    assert_eq!(t.player_states[1].bet, vec![6]);
    // both players now hold a bet, so the flop opens with nothing to match
    assert_eq!(t.completed_stage, 1);
    assert_eq!(t.bet_amount, 0);
}

#[test]
fn two_folds_of_three_go_to_the_showdown() {
    let mut g = game(3);
    g.fold(0);
    g.skip(1, 0);
    assert_eq!(g.get_active_player(), 1);
    g.fold(0);
    let board = &g.timelines[0].boards[0];
    let last = board.0.last().unwrap();
    assert_eq!(last.completed_stage, 4);
    assert_eq!(last.winning_hand_type, Some(HandType::NoPair));
    assert!(last.open_cards.is_empty());
    assert_eq!(g.timelines[0].boards.len(), 2);
    // each paid the ante, the one left took the pot of three
    assert_eq!(g.players[0].chips, 29);
    assert_eq!(g.players[1].chips, 29);
    assert_eq!(g.players[2].chips, 32);
    let total: i64 = g.players.iter().map(|p| p.chips).sum();
    assert_eq!(total, 90);
    assert_eq!(card_count(&g.timelines[0].boards[1].0[0]), 52);
    assert_eq!(g.get_turn(), 0);
}

#[test]
fn showdown_splits_the_pot_among_ties() {
    let mut g = game(3);
    g.players[0].chips = 10;
    let t = g.timelines[0].current_board().0[0].clone();
    let mut settled = t.clone();
    settled.player_states[0].bet = vec![2];
    settled.player_states[1].bet = vec![2];
    settled.player_states[2].bet = vec![3];
    settled.player_states[2].folded = true;
    g.timelines[0].boards[0].0.push(settled);
    let kind = g.showdown(0);
    assert_eq!(kind, HandType::NoPair);
    // pot 3 + 3 + 4 = 10, two winners take 5 each
    assert_eq!(g.players[0].chips, 10 - 3 + 5);
    assert_eq!(g.players[1].chips, 30 - 3 + 5);
    assert_eq!(g.players[2].chips, 30 - 4);
}

#[test]
fn spawn_copies_the_board_up_to_the_present() {
    let mut g = game(2);
    assert!(g.try_bet(0, 2));
    assert!(g.timelines[0].boards[0].is_past(Some(g.get_turn())));
    let parent = g.timelines[0].clone();
    let (index, board) = g.spawn_timeline(0, 0);
    assert_eq!((index, board), (2, 0));
    let child = &g.timelines[2];
    assert_eq!(child.parent_index, 0);
    assert_eq!(child.starting_time, 0);
    assert_eq!(child.boards.len(), 1);
    assert_eq!(child.boards[0].0.len(), 1);
    assert_eq!(child.boards[0].0[0], parent.boards[0].0[0]);
    assert_eq!(g.timelines[0], parent);
    assert_eq!(g.get_turn(), 0);
}

#[test]
fn moving_a_card_into_a_board_past_the_present_branches() {
    let mut g = game(2);
    assert!(g.try_bet(0, 2));
    assert!(g.try_check(0));
    assert_eq!(g.timelines[0].boards[0].0.len(), 3);
    let untouched = g.timelines[0].clone();
    let moved = g.timelines[1].boards[0].0[0].player_states[0].hand[0];
    let count = g.timelines.len();
    assert!(g.time_travel(1, 0, 0, 0, 0, 0, Some(1)));
    assert_eq!(g.timelines.len(), count + 1);
    let branch = &g.timelines[count];
    assert_eq!(branch.parent_index, 0);
    // the branch is cut at the present read when the move started
    assert_eq!(branch.boards[0].0.len(), 1);
    let landed = &branch.boards[0].0[0].player_states[0].hand;
    assert_eq!(landed.len(), 3);
    assert_eq!(landed[2], moved);
    assert_eq!(g.timelines[0], untouched);
    assert_eq!(g.timelines[1].boards[0].0[1].player_states[0].hand.len(), 1);
    // the player who started the move paid the burn of one chip
    assert_eq!(g.players[0].chips, 29);
    assert_eq!(g.players[1].chips, 30);
}

#[test]
fn a_move_branches_from_a_board_past_the_present_it_started_at() {
    let mut g = game(2);
    assert!(g.try_bet(0, 2));
    assert_eq!(g.get_turn(), 0);
    let untouched = g.timelines[0].clone();
    let moved = g.timelines[1].boards[0].0[0].player_states[0].hand[1];
    // the raise on timeline 1 moves the present from 0 to 1
    assert!(g.time_travel(1, 0, 0, 1, 0, 0, Some(3)));
    assert_eq!(g.get_turn(), 0);
    assert_eq!(g.timelines.len(), 3);
    assert_eq!(g.timelines[0], untouched);
    let branch = &g.timelines[2].boards[0];
    assert_eq!(branch.0.len(), 1);
    assert_eq!(branch.0[0].player_states[0].hand[2], moved);
    assert_eq!(g.players[0].chips, 29);
    assert_eq!(g.players[1].chips, 30);
}

#[test]
fn moving_within_one_board_is_refused() {
    let mut g = game(2);
    let before = g.clone();
    assert!(!g.time_travel(0, 0, 0, 0, 0, 0, Some(1)));
    assert_eq!(g, before);
}

#[test]
fn moving_a_card_into_the_present_needs_no_branch() {
    let mut g = game(2);
    let moved = g.timelines[0].boards[0].0[0].player_states[0].hand[1];
    assert!(g.time_travel(0, 0, 0, 1, 1, 0, Some(2)));
    assert_eq!(g.timelines.len(), 2);
    let target = &g.timelines[1].boards[0].0[0].player_states[0].hand;
    assert_eq!(target.len(), 3);
    assert_eq!(target[2], moved);
}

#[test]
fn settlement_room_reflects_the_chip_ledger() {
    let mut g = game(2);
    assert!(g.has_room(0, 1000));
    g.players[1].chips = i64::MAX;
    assert!(!g.has_room(0, 0));
}

#[test]
fn cards_are_built_from_suits_and_ranks() {
    let card = Card::new(Suite::Hearts, 12);
    assert_eq!(card.suite, Suite::Hearts);
    assert_eq!(card.rank.0, 12);
}
