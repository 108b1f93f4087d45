use vstd::prelude::*;
use itertools::Itertools;
use crate::sorting::{descending, ints, lemma_descending_first_is_max, sort_ascending, sort_descending};

verus! {

broadcast use vstd::seq_lib::group_to_multiset_ensures;

/// The four suits of a standard deck.
#[derive(PartialEq, Eq, Structural, Copy, Clone, Debug)]
pub enum Suite {
    Clubs,
    Hearts,
    Spades,
    Diamonds,
}

/// A card value from 1 (ace) to 13 (king).
#[derive(PartialEq, Eq, Structural, PartialOrd, Ord, Clone, Copy, Debug)]
pub struct Rank(pub u8);

/// A playing card.
#[derive(PartialEq, Eq, Structural, Clone, Copy, Debug)]
pub struct Card {
    pub suite: Suite,
    pub rank: Rank,
}

impl Card {
    /// A card is well formed when its rank lies in `1..=13`.
    pub open spec fn wf(self) -> bool {
        1 <= self.rank.0 <= 13
    }

    pub fn new(suite: Suite, rank: u8) -> (r: Card)
        requires
            1 <= rank <= 13,
        ensures
            r.suite == suite,
            r.rank.0 == rank,
            r.wf(),
    {
        Card { suite, rank: Rank(rank) }
    }
}

/// Position of a suit in the order in which a fresh deck is built.
pub open spec fn suite_index(s: Suite) -> int {
    match s {
        Suite::Clubs => 0,
        Suite::Hearts => 1,
        Suite::Spades => 2,
        Suite::Diamonds => 3,
    }
}

pub open spec fn suite_at(i: int) -> Suite {
    if i == 0 {
        Suite::Clubs
    } else if i == 1 {
        Suite::Hearts
    } else if i == 2 {
        Suite::Spades
    } else {
        Suite::Diamonds
    }
}

/// The unshuffled deck: clubs, hearts, spades, diamonds, each from ace to king.
pub open spec fn fresh_deck_spec() -> Seq<Card> {
    Seq::new(52, |i: int| Card { suite: suite_at(i / 13), rank: Rank((i % 13 + 1) as u8) })
}

pub fn fresh_deck() -> (deck: Vec<Card>)
    ensures
        deck@ == fresh_deck_spec(),
{
    let suites: [Suite; 4] = [Suite::Clubs, Suite::Hearts, Suite::Spades, Suite::Diamonds];
    let mut deck: Vec<Card> = Vec::new();
    let mut s: usize = 0;
    while s < 4
        invariant
            0 <= s <= 4,
            deck@.len() == 13 * s,
            suites@ == seq![Suite::Clubs, Suite::Hearts, Suite::Spades, Suite::Diamonds],
            forall|i: int| 0 <= i < deck@.len() ==> #[trigger] deck@[i] == fresh_deck_spec()[i],
        decreases 4 - s,
    {
        let suite = suites[s];
        let mut r: u8 = 1;
        while r <= 13
            invariant
                0 <= s < 4,
                1 <= r <= 14,
                suite == suite_at(s as int),
                deck@.len() == 13 * s + r - 1,
                forall|i: int| 0 <= i < deck@.len() ==> #[trigger] deck@[i] == fresh_deck_spec()[i],
            decreases 14 - r,
        {
            deck.push(Card { suite, rank: Rank(r) });
            proof {
                let i = 13 * s + r - 1;
                assert(i / 13 == s as int && i % 13 == r - 1) by (nonlinear_arith)
                    requires i == 13 * s + r - 1, 1 <= r <= 13;
            }
            r = r + 1;
        }
        s = s + 1;
    }
    assert(deck@ =~= fresh_deck_spec());
    deck
}

/// Hand categories, from the weakest to the strongest.
#[derive(PartialEq, Eq, Structural, PartialOrd, Ord, Copy, Clone, Debug)]
pub enum HandType {
    NoPair,
    OnePair,
    TwoPairs,
    ThreeOfAKind,
    Straight,
    Flush,
    FullHouse,
    FourOfAKind,
    StraightFlush,
    FiveOfAKind,
}

impl HandType {
    /// Position of the category in the ascending order of strength.
    pub open spec fn value(self) -> int {
        match self {
            HandType::NoPair => 0,
            HandType::OnePair => 1,
            HandType::TwoPairs => 2,
            HandType::ThreeOfAKind => 3,
            HandType::Straight => 4,
            HandType::Flush => 5,
            HandType::FullHouse => 6,
            HandType::FourOfAKind => 7,
            HandType::StraightFlush => 8,
            HandType::FiveOfAKind => 9,
        }
    }

    pub fn strength(&self) -> (r: u8)
        ensures
            r == self.value(),
    {
        match self {
            HandType::NoPair => 0,
            HandType::OnePair => 1,
            HandType::TwoPairs => 2,
            HandType::ThreeOfAKind => 3,
            HandType::Straight => 4,
            HandType::Flush => 5,
            HandType::FullHouse => 6,
            HandType::FourOfAKind => 7,
            HandType::StraightFlush => 8,
            HandType::FiveOfAKind => 9,
        }
    }
}

/// Number of cards that satisfy `pred`.
pub open spec fn count_where(cards: Seq<Card>, pred: spec_fn(Card) -> bool) -> nat {
    cards.fold_left(0nat, |n: nat, c: Card| if pred(c) { (n + 1) as nat } else { n })
}

pub open spec fn rank_count(cards: Seq<Card>, r: int) -> nat {
    count_where(cards, |c: Card| c.rank.0 == r)
}

pub open spec fn suite_count(cards: Seq<Card>, s: Suite) -> nat {
    count_where(cards, |c: Card| c.suite == s)
}

/// How many cards there are of each rank from 1 to 13.
pub open spec fn rank_counts(cards: Seq<Card>) -> Seq<int> {
    Seq::new(13, |i: int| rank_count(cards, i + 1) as int)
}

/// How many cards there are of each suit.
pub open spec fn suite_counts(cards: Seq<Card>) -> Seq<int> {
    seq![
        suite_count(cards, Suite::Hearts) as int,
        suite_count(cards, Suite::Clubs) as int,
        suite_count(cards, Suite::Spades) as int,
        suite_count(cards, Suite::Diamonds) as int,
    ]
}

/// The ranks of the cards, in ascending order.
pub open spec fn sorted_ranks(cards: Seq<Card>) -> Seq<int> {
    cards.map_values(|c: Card| c.rank.0 as int).sort()
}

/// Lengths of the runs of a sorted sequence of ranks, in the order of the
/// runs: a run goes on while each rank is one more than the one before it.
pub open spec fn runs(s: Seq<int>) -> Seq<int>
    decreases s.len(),
{
    if s.len() == 0 {
        seq![]
    } else {
        let before = runs(s.drop_last());
        if s.len() >= 2 && s.last() == s[s.len() - 2] + 1 {
            before.update(before.len() - 1, before.last() + 1)
        } else {
            before.push(1)
        }
    }
}

pub open spec fn by_rank(cards: Seq<Card>) -> Seq<int> {
    descending(rank_counts(cards))
}

pub open spec fn by_suite(cards: Seq<Card>) -> Seq<int> {
    descending(suite_counts(cards))
}

pub open spec fn by_sequence(cards: Seq<Card>) -> Seq<int> {
    descending(runs(sorted_ranks(cards)))
}

/// The category of a hand, decided from its rank, suit and run counts,
/// each sorted from the largest down; the first rule that matches wins.
pub open spec fn category(ranks: Seq<int>, suites: Seq<int>, seqs: Seq<int>) -> HandType {
    if ranks[0] >= 5 {
        HandType::FiveOfAKind
    } else if seqs[0] >= 5 && suites[0] >= 5 {
        HandType::StraightFlush
    } else if ranks[0] >= 4 {
        HandType::FourOfAKind
    } else if ranks[0] >= 3 && ranks[1] >= 2 {
        HandType::FullHouse
    } else if suites[0] >= 5 {
        HandType::Flush
    } else if seqs[0] >= 5 {
        HandType::Straight
    } else if ranks[0] >= 3 {
        HandType::ThreeOfAKind
    } else if ranks[0] >= 2 && ranks[1] >= 2 {
        HandType::TwoPairs
    } else if ranks[0] >= 2 {
        HandType::OnePair
    } else {
        HandType::NoPair
    }
}

/// The category of a hand taken as a whole.
pub open spec fn rank5(cards: Seq<Card>) -> HandType {
    category(by_rank(cards), by_suite(cards), by_sequence(cards))
}

proof fn lemma_count_step(cards: Seq<Card>, i: int, pred: spec_fn(Card) -> bool)
    requires
        0 <= i < cards.len(),
    ensures
        count_where(cards.subrange(0, i + 1), pred) == count_where(cards.subrange(0, i), pred) + (
        if pred(cards[i]) {
            1int
        } else {
            0int
        }),
{
    assert(cards.subrange(0, i + 1).drop_last() =~= cards.subrange(0, i));
}

proof fn lemma_runs_bounds(s: Seq<int>)
    ensures
        s.len() > 0 ==> runs(s).len() > 0,
        forall|j: int| 0 <= j < runs(s).len() ==> 1 <= #[trigger] runs(s)[j] <= s.len(),
    decreases s.len(),
{
    if s.len() > 0 {
        let before = runs(s.drop_last());
        lemma_runs_bounds(s.drop_last());
        assert forall|j: int| 0 <= j < runs(s).len() implies 1 <= #[trigger] runs(s)[j] <= s.len() by {
            if j < before.len() {
                assert(1 <= before[j] <= s.len() - 1);
            }
        }
    }
}

/// Counts of cards sharing each rank, from the largest count down.
pub fn split_by_rank(hand: &Vec<Card>) -> (r: Vec<usize>)
    ensures
        ints(r@) == by_rank(hand@),
        r@.len() == 13,
{
    let mut counts: Vec<usize> = vec![0usize; 13];
    let mut i: usize = 0;
    while i < hand.len()
        invariant
            0 <= i <= hand.len(),
            counts@.len() == 13,
            forall|k: int|
                0 <= k < 13 ==> #[trigger] counts@[k] == rank_count(hand@.subrange(0, i as int), k + 1),
            forall|k: int| 0 <= k < 13 ==> #[trigger] counts@[k] <= i,
        decreases hand.len() - i,
    {
        let r = hand[i].rank.0;
        proof {
            assert forall|k: int| 0 <= k < 13 implies #[trigger] rank_count(hand@.subrange(0, i + 1), k + 1)
                == rank_count(hand@.subrange(0, i as int), k + 1) + (if hand@[i as int].rank.0 == k + 1 {
                1int
            } else {
                0int
            }) by {
                lemma_count_step(hand@, i as int, |c: Card| c.rank.0 == k + 1);
            }
        }
        if 1 <= r && r <= 13 {
            let k = (r - 1) as usize;
            counts.set(k, counts[k] + 1);
        }
        i = i + 1;
    }
    assert(hand@.subrange(0, hand@.len() as int) =~= hand@);
    assert(ints(counts@) =~= rank_counts(hand@));
    sort_descending(&counts)
}

/// Counts of cards sharing each suit, from the largest count down.
pub fn split_by_suite(hand: &Vec<Card>) -> (r: Vec<usize>)
    ensures
        ints(r@) == by_suite(hand@),
        r@.len() == 4,
{
    let mut hearts: usize = 0;
    let mut clubs: usize = 0;
    let mut spades: usize = 0;
    let mut diamonds: usize = 0;
    let mut i: usize = 0;
    while i < hand.len()
        invariant
            0 <= i <= hand.len(),
            hearts == suite_count(hand@.subrange(0, i as int), Suite::Hearts),
            clubs == suite_count(hand@.subrange(0, i as int), Suite::Clubs),
            spades == suite_count(hand@.subrange(0, i as int), Suite::Spades),
            diamonds == suite_count(hand@.subrange(0, i as int), Suite::Diamonds),
            hearts <= i && clubs <= i && spades <= i && diamonds <= i,
        decreases hand.len() - i,
    {
        proof {
            lemma_count_step(hand@, i as int, |c: Card| c.suite == Suite::Hearts);
            lemma_count_step(hand@, i as int, |c: Card| c.suite == Suite::Clubs);
            lemma_count_step(hand@, i as int, |c: Card| c.suite == Suite::Spades);
            lemma_count_step(hand@, i as int, |c: Card| c.suite == Suite::Diamonds);
        }
        match hand[i].suite {
            Suite::Hearts => hearts = hearts + 1,
            Suite::Clubs => clubs = clubs + 1,
            Suite::Spades => spades = spades + 1,
            Suite::Diamonds => diamonds = diamonds + 1,
        }
        i = i + 1;
    }
    assert(hand@.subrange(0, hand@.len() as int) =~= hand@);
    let counts: Vec<usize> = vec![hearts, clubs, spades, diamonds];
    assert(ints(counts@) =~= suite_counts(hand@));
    sort_descending(&counts)
}

/// Lengths of the runs of consecutive ranks, from the longest down.
pub fn split_by_sequence(hand: &Vec<Card>) -> (r: Vec<usize>)
    ensures
        ints(r@) == by_sequence(hand@),
        hand@.len() > 0 ==> r@.len() > 0,
{
    let mut ranks: Vec<usize> = Vec::new();
    let mut i: usize = 0;
    while i < hand.len()
        invariant
            0 <= i <= hand.len(),
            ints(ranks@) == hand@.subrange(0, i as int).map_values(|c: Card| c.rank.0 as int),
        decreases hand.len() - i,
    {
        let ghost before = ranks@;
        ranks.push(hand[i].rank.0 as usize);
        assert(ints(ranks@) =~= ints(before).push(hand@[i as int].rank.0 as int));
        assert(ints(ranks@) =~= hand@.subrange(0, i + 1).map_values(|c: Card| c.rank.0 as int));
        i = i + 1;
    }
    assert(hand@.subrange(0, hand@.len() as int) =~= hand@);
    let sorted = sort_ascending(&ranks);
    let ghost s = ints(sorted@);
    proof {
        ints(ranks@).lemma_sort_ensures();
        assert(ints(ranks@).len() == hand@.len());
        assert(ints(ranks@).sort().to_multiset().len() == ints(ranks@).to_multiset().len());
        assert(s.len() == hand@.len());
    }
    let mut out: Vec<usize> = Vec::new();
    let mut last: usize = 0;
    let mut j: usize = 0;
    while j < sorted.len()
        invariant
            0 <= j <= sorted.len(),
            s == ints(sorted@),
            ints(out@) == runs(s.subrange(0, j as int)),
            j > 0 ==> last == sorted@[j - 1],
            j > 0 ==> out@.len() > 0,
            forall|k: int| 0 <= k < out@.len() ==> #[trigger] out@[k] <= j,
        decreases sorted.len() - j,
    {
        let x = sorted[j];
        proof {
            lemma_runs_bounds(s.subrange(0, j as int));
            assert(s.subrange(0, j + 1).drop_last() =~= s.subrange(0, j as int));
        }
        if j > 0 && x > 0 && x - 1 == last {
            let k = out.len() - 1;
            let ghost before = out@;
            out.set(k, out[k] + 1);
            assert(ints(out@) =~= ints(before).update(k as int, ints(before)[k as int] + 1));
        } else {
            let ghost before = out@;
            out.push(1);
            assert(ints(out@) =~= ints(before).push(1));
        }
        last = x;
        j = j + 1;
    }
    assert(s.subrange(0, s.len() as int) =~= s);
    proof {
        lemma_runs_bounds(s);
    }
    let r = sort_descending(&out);
    proof {
        ints(out@).lemma_sort_ensures();
        if hand@.len() > 0 {
            assert(ints(out@).len() > 0);
            assert(ints(out@).sort().to_multiset().len() > 0);
            assert(ints(out@).sort().len() > 0);
            assert(ints(r@).len() > 0);
        }
    }
    r
}

/// The category of a hand, decided on the hand as a whole.
pub fn type_of_hand_5(hand: &Vec<Card>) -> (r: HandType)
    requires
        hand@.len() > 0,
    ensures
        r == rank5(hand@),
{
    let ranks = split_by_rank(hand);
    let suites = split_by_suite(hand);
    let sequences = split_by_sequence(hand);
    proof {
        assert(ints(ranks@)[0] == ranks@[0] as int && ints(ranks@)[1] == ranks@[1] as int);
        assert(ints(suites@)[0] == suites@[0] as int);
        assert(ints(sequences@)[0] == sequences@[0] as int);
    }
    if ranks[0] >= 5 {
        return HandType::FiveOfAKind;
    }
    if sequences[0] >= 5 && suites[0] >= 5 {
        return HandType::StraightFlush;
    }
    if ranks[0] >= 4 {
        return HandType::FourOfAKind;
    }
    if ranks[0] >= 3 && ranks[1] >= 2 {
        return HandType::FullHouse;
    }
    if suites[0] >= 5 {
        return HandType::Flush;
    }
    if sequences[0] >= 5 {
        return HandType::Straight;
    }
    if ranks[0] >= 3 {
        return HandType::ThreeOfAKind;
    }
    if ranks[0] >= 2 && ranks[1] >= 2 {
        return HandType::TwoPairs;
    }
    if ranks[0] >= 2 {
        return HandType::OnePair;
    }
    HandType::NoPair
}

/// `idx` picks `k` positions below `n`, in strictly increasing order.
pub open spec fn is_choice(idx: Seq<int>, n: int, k: int) -> bool {
    &&& idx.len() == k
    &&& forall|j: int| 0 <= j < k ==> 0 <= #[trigger] idx[j] < n
    &&& forall|j: int| 0 <= j < k - 1 ==> #[trigger] idx[j] < idx[j + 1]
}

/// The cards at the positions `idx` of `hand`.
pub open spec fn pick(hand: Seq<Card>, idx: Seq<int>) -> Seq<Card> {
    idx.map_values(|i: int| hand[i])
}

/// `t` is the best category over all five-card choices of `hand`
/// (`NoPair` when the hand holds fewer than five cards).
pub open spec fn is_best_type(hand: Seq<Card>, t: HandType) -> bool {
    &&& forall|idx: Seq<int>| #[trigger]
        is_choice(idx, hand.len() as int, 5) ==> rank5(pick(hand, idx)).value() <= t.value()
    &&& (t == HandType::NoPair || exists|idx: Seq<int>| #[trigger]
        is_choice(idx, hand.len() as int, 5) && rank5(pick(hand, idx)) == t)
}

/// The category of a hand: the best over all its five-card choices.
#[verifier::opaque]
pub open spec fn hand_rank(hand: Seq<Card>) -> HandType {
    choose|t: HandType| is_best_type(hand, t)
}

/// A hand has at most one best category.
pub proof fn lemma_best_type_unique(hand: Seq<Card>, t1: HandType, t2: HandType)
    requires
        is_best_type(hand, t1),
        is_best_type(hand, t2),
    ensures
        t1 == t2,
{
    if t1 != HandType::NoPair {
        let idx = choose|idx: Seq<int>|
            #[trigger] is_choice(idx, hand.len() as int, 5) && rank5(pick(hand, idx)) == t1;
        assert(t1.value() <= t2.value());
    }
    if t2 != HandType::NoPair {
        let idx = choose|idx: Seq<int>|
            #[trigger] is_choice(idx, hand.len() as int, 5) && rank5(pick(hand, idx)) == t2;
        assert(t2.value() <= t1.value());
    }
}

/// Whatever best category a hand has is the one `hand_rank` names.
pub proof fn lemma_hand_rank_is(hand: Seq<Card>, t: HandType)
    requires
        is_best_type(hand, t),
    ensures
        hand_rank(hand) == t,
{
    reveal(hand_rank);
    lemma_best_type_unique(hand, hand_rank(hand), t);
}

/// Relies on itertools::Itertools::combinations: over the positions `0..n`
/// it yields every strictly increasing choice of `k` positions, as a vector.
#[verifier::external_body]
fn index_combinations(n: usize, k: usize) -> (r: Vec<Vec<usize>>)
    ensures
        forall|j: int| 0 <= j < r@.len() ==> is_choice(ints(#[trigger] r@[j]@), n as int, k as int),
        forall|idx: Seq<int>| #[trigger]
            is_choice(idx, n as int, k as int) ==> exists|j: int|
                0 <= j < r@.len() && #[trigger] ints(r@[j]@) == idx,
{
    (0..n).combinations(k).collect()
}

/// The cards of `hand` at the positions `idx`.
fn pick_cards(hand: &Vec<Card>, idx: &Vec<usize>) -> (r: Vec<Card>)
    requires
        forall|j: int| 0 <= j < idx@.len() ==> #[trigger] idx@[j] < hand@.len(),
    ensures
        r@ == pick(hand@, ints(idx@)),
{
    let mut out: Vec<Card> = Vec::new();
    let mut m: usize = 0;
    while m < idx.len()
        invariant
            0 <= m <= idx@.len(),
            forall|j: int| 0 <= j < idx@.len() ==> #[trigger] idx@[j] < hand@.len(),
            out@ =~= pick(hand@, ints(idx@).subrange(0, m as int)),
        decreases idx@.len() - m,
    {
        out.push(hand[idx[m]]);
        m = m + 1;
        assert(out@ =~= pick(hand@, ints(idx@).subrange(0, m as int)));
    }
    assert(ints(idx@).subrange(0, m as int) =~= ints(idx@));
    out
}

/// The best category over every five-card choice of the hand.
pub fn type_of_hand(hand: &Vec<Card>) -> (r: HandType)
    ensures
        r == hand_rank(hand@),
{
    let choices = index_combinations(hand.len(), 5);
    let ghost n = hand@.len() as int;
    let mut best = HandType::NoPair;
    let mut j: usize = 0;
    while j < choices.len()
        invariant
            0 <= j <= choices@.len(),
            n == hand@.len(),
            forall|j2: int| 0 <= j2 < choices@.len() ==> is_choice(ints(#[trigger] choices@[j2]@), n, 5),
            forall|j2: int|
                0 <= j2 < j ==> rank5(pick(hand@, ints(#[trigger] choices@[j2]@))).value() <= best.value(),
            best == HandType::NoPair || exists|j2: int|
                0 <= j2 < j && rank5(pick(hand@, ints(#[trigger] choices@[j2]@))) == best,
        decreases choices@.len() - j,
    {
        let c = &choices[j];
        proof {
            assert(is_choice(ints(choices@[j as int]@), n, 5));
            assert forall|m: int| 0 <= m < c@.len() implies #[trigger] c@[m] < hand@.len() by {
                assert(ints(c@)[m] < n);
            }
        }
        let sub = pick_cards(hand, c);
        let t = type_of_hand_5(&sub);
        if t.strength() > best.strength() {
            best = t;
        }
        j = j + 1;
    }
    proof {
        assert forall|idx: Seq<int>| #[trigger] is_choice(idx, n, 5) implies rank5(
            pick(hand@, idx),
        ).value() <= best.value() by {
            let j2 = choose|j2: int| 0 <= j2 < choices@.len() && #[trigger] ints(choices@[j2]@) == idx;
            assert(rank5(pick(hand@, ints(choices@[j2]@))).value() <= best.value());
        }
        if best != HandType::NoPair {
            let j2 = choose|j2: int|
                0 <= j2 < j && rank5(pick(hand@, ints(#[trigger] choices@[j2]@))) == best;
            assert(is_choice(ints(choices@[j2]@), n, 5));
        }
        assert(is_best_type(hand@, best));
        lemma_hand_rank_is(hand@, best);
    }
    best
}

/// Position `i` holds a hand of the highest category, and no later hand is of that category.
pub open spec fn is_last_best<T>(hands: Seq<(T, Vec<Card>)>, i: int) -> bool {
    &&& 0 <= i < hands.len()
    &&& forall|j: int|
        0 <= j < hands.len() ==> hand_rank(#[trigger] hands[j].1@).value() <= hand_rank(
            hands[i].1@,
        ).value()
    &&& forall|j: int|
        i < j < hands.len() ==> hand_rank(#[trigger] hands[j].1@).value() < hand_rank(
            hands[i].1@,
        ).value()
}

fn best_position<T: Copy>(hands: &Vec<(T, Vec<Card>)>) -> (b: usize)
    requires
        hands@.len() > 0,
    ensures
        is_last_best(hands@, b as int),
{
    let mut best: usize = 0;
    let mut best_type = type_of_hand(&hands[0].1);
    let mut i: usize = 1;
    while i < hands.len()
        invariant
            1 <= i <= hands@.len(),
            0 <= best < i,
            best_type == hand_rank(hands@[best as int].1@),
            forall|j: int| 0 <= j < i ==> hand_rank(#[trigger] hands@[j].1@).value() <= best_type.value(),
            forall|j: int| best < j < i ==> hand_rank(#[trigger] hands@[j].1@).value() < best_type.value(),
        decreases hands@.len() - i,
    {
        let t = type_of_hand(&hands[i].1);
        if t.strength() >= best_type.strength() {
            best = i;
            best_type = t;
        }
        i = i + 1;
    }
    best
}

/// The key of a hand of the highest category; of several such hands, the last.
pub fn calculate_winner<T: Copy>(hands: &Vec<(T, Vec<Card>)>) -> (r: T)
    requires
        hands@.len() > 0,
    ensures
        exists|i: int| #[trigger] is_last_best(hands@, i) && r == hands@[i].0,
{
    let b = best_position(hands);
    let r = hands[b].0;
    assert(is_last_best(hands@, b as int) && r == hands@[b as int].0);
    r
}

/// Each keyed hand with its cards as a sequence.
pub open spec fn hand_views(hands: Seq<(usize, Vec<Card>)>) -> Seq<(usize, Seq<Card>)> {
    hands.map_values(|h: (usize, Vec<Card>)| (h.0, h.1@))
}

/// The best category among the hands (`NoPair` when there are none).
pub open spec fn top_type(hands: Seq<(usize, Seq<Card>)>) -> HandType
    decreases hands.len(),
{
    if hands.len() == 0 {
        HandType::NoPair
    } else {
        let before = top_type(hands.drop_last());
        let here = hand_rank(hands.last().1);
        if here.value() > before.value() {
            here
        } else {
            before
        }
    }
}

/// The keys of the hands whose category is `top`, in their order.
pub open spec fn keys_with_type(hands: Seq<(usize, Seq<Card>)>, top: HandType) -> Seq<usize>
    decreases hands.len(),
{
    if hands.len() == 0 {
        seq![]
    } else {
        let before = keys_with_type(hands.drop_last(), top);
        if hand_rank(hands.last().1) == top {
            before.push(hands.last().0)
        } else {
            before
        }
    }
}

/// Among one or more hands, some hand is of the top category.
pub proof fn lemma_some_hand_on_top(hands: Seq<(usize, Seq<Card>)>)
    requires
        hands.len() > 0,
    ensures
        keys_with_type(hands, top_type(hands)).len() > 0,
    decreases hands.len(),
{
    let top = top_type(hands);
    if hand_rank(hands.last().1) != top {
        lemma_some_hand_on_top(hands.drop_last());
        assert(top == top_type(hands.drop_last()));
    }
}

/// The keys of every hand of the highest category, and that category.
pub fn calculate_winners(hands: &Vec<(usize, Vec<Card>)>) -> (r: (Vec<usize>, HandType))
    ensures
        r.1 == top_type(hand_views(hands@)),
        r.0@ == keys_with_type(hand_views(hands@), r.1),
{
    let mut types: Vec<HandType> = Vec::new();
    let mut top = HandType::NoPair;
    let mut i: usize = 0;
    while i < hands.len()
        invariant
            0 <= i <= hands@.len(),
            types@.len() == i,
            forall|j: int| 0 <= j < i ==> types@[j] == hand_rank(#[trigger] hands@[j].1@),
            top == top_type(hand_views(hands@.subrange(0, i as int))),
        decreases hands@.len() - i,
    {
        let t = type_of_hand(&hands[i].1);
        assert(hand_views(hands@.subrange(0, i + 1)).drop_last() =~= hand_views(hands@.subrange(0, i as int)));
        if t.strength() > top.strength() {
            top = t;
        }
        types.push(t);
        i = i + 1;
    }
    assert(hands@.subrange(0, i as int) =~= hands@);
    let mut winners: Vec<usize> = Vec::new();
    let mut k: usize = 0;
    while k < hands.len()
        invariant
            0 <= k <= hands@.len(),
            types@.len() == hands@.len(),
            forall|j: int| 0 <= j < hands@.len() ==> types@[j] == hand_rank(#[trigger] hands@[j].1@),
            winners@ == keys_with_type(hand_views(hands@.subrange(0, k as int)), top),
        decreases hands@.len() - k,
    {
        assert(hand_views(hands@.subrange(0, k + 1)).drop_last() =~= hand_views(hands@.subrange(0, k as int)));
        if types[k].strength() == top.strength() {
            winners.push(hands[k].0);
        }
        k = k + 1;
    }
    assert(hands@.subrange(0, k as int) =~= hands@);
    (winners, top)
}

proof fn lemma_count_all(cards: Seq<Card>, pred: spec_fn(Card) -> bool)
    requires
        forall|j: int| 0 <= j < cards.len() ==> #[trigger] pred(cards[j]),
    ensures
        count_where(cards, pred) == cards.len(),
    decreases cards.len(),
{
    if cards.len() > 0 {
        lemma_count_all(cards.drop_last(), pred);
    }
}

/// Every category is at most five of a kind.
pub proof fn lemma_value_at_most_five_of_a_kind(t: HandType)
    ensures
        t.value() <= HandType::FiveOfAKind.value(),
        t != HandType::FiveOfAKind ==> t.value() < HandType::FiveOfAKind.value(),
{
}

/// A hand of well-formed cards that holds five cards of one rank is five of a
/// kind, and five of a kind is above every other category.
pub proof fn lemma_five_of_a_kind(hand: Seq<Card>, idx: Seq<int>)
    requires
        forall|i: int| 0 <= i < hand.len() ==> (#[trigger] hand[i]).wf(),
        is_choice(idx, hand.len() as int, 5),
        forall|j: int| 0 <= j < 5 ==> (#[trigger] pick(hand, idx)[j]).rank == pick(hand, idx)[0].rank,
    ensures
        hand_rank(hand) == HandType::FiveOfAKind,
        forall|t: HandType| t != HandType::FiveOfAKind ==> #[trigger] t.value() < HandType::FiveOfAKind.value(),
{
    let cards = pick(hand, idx);
    let r = cards[0].rank.0 as int;
    assert(hand[idx[0]].wf());
    lemma_count_all(cards, |c: Card| c.rank.0 == r);
    let counts = rank_counts(cards);
    assert(counts[r - 1] == 5);
    lemma_descending_first_is_max(counts);
    assert(rank5(cards) == HandType::FiveOfAKind);
    assert forall|other: Seq<int>| #[trigger]
        is_choice(other, hand.len() as int, 5) implies rank5(pick(hand, other)).value()
        <= HandType::FiveOfAKind.value() by {
        lemma_value_at_most_five_of_a_kind(rank5(pick(hand, other)));
    }
    assert(is_best_type(hand, HandType::FiveOfAKind));
    lemma_hand_rank_is(hand, HandType::FiveOfAKind);
}

/// When exactly one hand is five of a kind, `calculate_winner` returns its key.
pub proof fn lemma_five_of_a_kind_wins<T>(hands: Seq<(T, Vec<Card>)>, k: int, r: T)
    requires
        0 <= k < hands.len(),
        hand_rank(hands[k].1@) == HandType::FiveOfAKind,
        forall|j: int|
            0 <= j < hands.len() && j != k ==> hand_rank(#[trigger] hands[j].1@) != HandType::FiveOfAKind,
        exists|i: int| #[trigger] is_last_best(hands, i) && r == hands[i].0,
    ensures
        r == hands[k].0,
{
    let i = choose|i: int| #[trigger] is_last_best(hands, i) && r == hands[i].0;
    assert(hand_rank(hands[k].1@).value() <= hand_rank(hands[i].1@).value());
    lemma_value_at_most_five_of_a_kind(hand_rank(hands[i].1@));
    if i != k {
        assert(hand_rank(hands[i].1@).value() < HandType::FiveOfAKind.value());
    }
}

} // verus!
