use vstd::prelude::*;
use vstd::multiset::Multiset;
use vstd::relations::total_ordering;
use vstd::seq_lib::{commutative_foldl, lemma_fold_left_permutation, lemma_sorted_unique};
use crate::cards::{
    count_where, hand_rank, is_best_type, is_choice, lemma_hand_rank_is, pick, rank5, rank_counts,
    sorted_ranks, suite_counts, Card, HandType,
};

verus! {

broadcast use vstd::seq_lib::group_to_multiset_ensures, vstd::multiset::group_multiset_axioms;

proof fn lemma_count_where_permutation(a: Seq<Card>, b: Seq<Card>, pred: spec_fn(Card) -> bool)
    requires
        a.to_multiset() == b.to_multiset(),
    ensures
        count_where(a, pred) == count_where(b, pred),
{
    let f = |n: nat, c: Card| if pred(c) { (n + 1) as nat } else { n };
    assert(commutative_foldl(f));
    lemma_fold_left_permutation(a, b, f, 0nat);
}

/// Mapping two sequences with the same elements gives sequences with the same elements.
proof fn lemma_map_multiset(a: Seq<Card>, b: Seq<Card>, f: spec_fn(Card) -> int)
    requires
        a.to_multiset() == b.to_multiset(),
    ensures
        a.map_values(f).to_multiset() == b.map_values(f).to_multiset(),
    decreases a.len(),
{
    if a.len() == 0 {
        assert(a.to_multiset().len() == 0);
        assert(b.to_multiset().len() == b.len());
        assert(b.len() == 0);
        assert(a.map_values(f) =~= b.map_values(f));
    } else {
        let x = a.last();
        let a1 = a.drop_last();
        assert(a =~= a1.push(x));
        assert(b.to_multiset().count(x) > 0);
        assert(b.contains(x));
        let i = choose|i: int| 0 <= i < b.len() && b[i] == x;
        let b1 = b.remove(i);
        assert(a1.to_multiset() =~= b1.to_multiset());
        lemma_map_multiset(a1, b1, f);
        assert(a.map_values(f) =~= a1.map_values(f).push(f(x)));
        assert(b.map_values(f).remove(i) =~= b1.map_values(f));
        assert(b.map_values(f)[i] == f(x));
        assert(b.map_values(f).to_multiset() =~= b1.map_values(f).to_multiset().insert(f(x)));
    }
}

/// The category of five cards does not depend on their order.
pub proof fn lemma_rank5_permutation(a: Seq<Card>, b: Seq<Card>)
    requires
        a.to_multiset() == b.to_multiset(),
    ensures
        rank5(a) == rank5(b),
{
    assert forall|r: int| 0 <= r < 13 implies rank_counts(a)[r] == rank_counts(b)[r] by {
        lemma_count_where_permutation(a, b, |c: Card| c.rank.0 == r + 1);
    }
    assert(rank_counts(a) =~= rank_counts(b));
    lemma_count_where_permutation(a, b, |c: Card| c.suite == crate::cards::Suite::Hearts);
    lemma_count_where_permutation(a, b, |c: Card| c.suite == crate::cards::Suite::Clubs);
    lemma_count_where_permutation(a, b, |c: Card| c.suite == crate::cards::Suite::Spades);
    lemma_count_where_permutation(a, b, |c: Card| c.suite == crate::cards::Suite::Diamonds);
    assert(suite_counts(a) =~= suite_counts(b));
    let f = |c: Card| c.rank.0 as int;
    lemma_map_multiset(a, b, f);
    let ra = a.map_values(f);
    let rb = b.map_values(f);
    ra.lemma_sort_ensures();
    rb.lemma_sort_ensures();
    let leq = |x: int, y: int| x <= y;
    assert(total_ordering(leq));
    lemma_sorted_unique(ra.sort(), rb.sort(), leq);
    assert(sorted_ranks(a) == sorted_ranks(b));
}

/// The cards at increasing positions of a hand are cards of the hand.
proof fn lemma_pick_within(h: Seq<Card>, idx: Seq<int>)
    requires
        is_choice(idx, h.len() as int, idx.len() as int),
    ensures
        pick(h, idx).to_multiset().subset_of(h.to_multiset()),
    decreases h.len(),
{
    let k = idx.len() as int;
    if k == 0 {
        assert(pick(h, idx) =~= Seq::<Card>::empty());
    } else {
        assert(0 <= idx[0] < h.len());
        let h1 = h.drop_last();
        assert(h =~= h1.push(h.last()));
        if idx.last() == h.len() - 1 {
            let idx1 = idx.drop_last();
            assert(is_choice(idx1, h1.len() as int, k - 1)) by {
                assert forall|j: int| 0 <= j < k - 1 implies 0 <= #[trigger] idx1[j] < h1.len() by {
                    assert(idx[j] < idx[k - 1]) by {
                        lemma_choice_increasing(idx, h.len() as int, j, k - 1);
                    }
                }
            }
            lemma_pick_within(h1, idx1);
            assert(pick(h1, idx1) =~= pick(h, idx1));
            assert(pick(h, idx) =~= pick(h, idx1).push(h.last()));
        } else {
            assert(is_choice(idx, h1.len() as int, k)) by {
                assert forall|j: int| 0 <= j < k implies 0 <= #[trigger] idx[j] < h1.len() by {
                    if j < k - 1 {
                        lemma_choice_increasing(idx, h.len() as int, j, k - 1);
                    }
                }
            }
            lemma_pick_within(h1, idx);
            assert(pick(h1, idx) =~= pick(h, idx));
        }
    }
}

proof fn lemma_choice_increasing(idx: Seq<int>, n: int, i: int, j: int)
    requires
        is_choice(idx, n, idx.len() as int),
        0 <= i < j < idx.len(),
    ensures
        idx[i] < idx[j],
    decreases j - i,
{
    if j > i + 1 {
        lemma_choice_increasing(idx, n, i, j - 1);
        assert(idx[j - 1] < idx[j]);
    } else {
        assert(idx[i] < idx[i + 1]);
    }
}

/// Any cards of a hand stand at some increasing positions of it.
proof fn lemma_realize(h: Seq<Card>, m: Multiset<Card>)
    requires
        m.subset_of(h.to_multiset()),
    ensures
        exists|idx: Seq<int>| #[trigger]
            is_choice(idx, h.len() as int, m.len() as int) && pick(h, idx).to_multiset() == m,
    decreases h.len(),
{
    if h.len() == 0 {
        assert(m =~= Multiset::<Card>::empty());
        let idx = Seq::<int>::empty();
        assert(pick(h, idx) =~= Seq::<Card>::empty());
        assert(m.len() == 0);
        assert(pick(h, idx).to_multiset() =~= m);
        assert(is_choice(idx, h.len() as int, m.len() as int));
    } else {
        let x = h.last();
        let h1 = h.drop_last();
        assert(h =~= h1.push(x));
        if m.count(x) > 0 {
            let m1 = m.remove(x);
            assert(m1.subset_of(h1.to_multiset()));
            lemma_realize(h1, m1);
            let idx1 = choose|idx: Seq<int>| #[trigger]
                is_choice(idx, h1.len() as int, m1.len() as int) && pick(h1, idx).to_multiset() == m1;
            let idx = idx1.push(h.len() - 1);
            assert(is_choice(idx, h.len() as int, m.len() as int)) by {
                assert forall|j: int| 0 <= j < m.len() - 1 implies #[trigger] idx[j] < idx[j + 1] by {
                    if j + 1 < m1.len() {
                        assert(idx1[j] < idx1[j + 1]);
                    }
                }
            }
            assert(pick(h1, idx1) =~= pick(h, idx1));
            assert(pick(h, idx) =~= pick(h, idx1).push(x));
            assert(pick(h, idx).to_multiset() =~= m);
            assert(is_choice(idx, h.len() as int, m.len() as int));
        } else {
            assert(m.subset_of(h1.to_multiset()));
            lemma_realize(h1, m);
            let idx = choose|idx: Seq<int>| #[trigger]
                is_choice(idx, h1.len() as int, m.len() as int) && pick(h1, idx).to_multiset() == m;
            assert(is_choice(idx, h.len() as int, m.len() as int));
            assert(pick(h1, idx) =~= pick(h, idx));
            assert(pick(h, idx).to_multiset() == m);
        }
    }
}

/// A five-card choice of one hand has a match, of the same category, in any
/// hand with the same cards.
proof fn lemma_matching_choice(h1: Seq<Card>, h2: Seq<Card>, idx1: Seq<int>)
    requires
        h1.to_multiset() == h2.to_multiset(),
        is_choice(idx1, h1.len() as int, 5),
    ensures
        exists|idx2: Seq<int>| #[trigger]
            is_choice(idx2, h2.len() as int, 5) && rank5(pick(h2, idx2)) == rank5(pick(h1, idx1)),
{
    lemma_pick_within(h1, idx1);
    let m = pick(h1, idx1).to_multiset();
    assert(m.len() == 5);
    lemma_realize(h2, m);
    let idx2 = choose|idx: Seq<int>| #[trigger]
        is_choice(idx, h2.len() as int, m.len() as int) && pick(h2, idx).to_multiset() == m;
    lemma_rank5_permutation(pick(h2, idx2), pick(h1, idx1));
}

proof fn lemma_best_transfers(h1: Seq<Card>, h2: Seq<Card>, t: HandType)
    requires
        h1.to_multiset() == h2.to_multiset(),
        is_best_type(h1, t),
    ensures
        is_best_type(h2, t),
{
    assert forall|idx2: Seq<int>| #[trigger] is_choice(idx2, h2.len() as int, 5) implies rank5(
        pick(h2, idx2),
    ).value() <= t.value() by {
        lemma_matching_choice(h2, h1, idx2);
        let idx1 = choose|idx1: Seq<int>| #[trigger]
            is_choice(idx1, h1.len() as int, 5) && rank5(pick(h1, idx1)) == rank5(pick(h2, idx2));
        assert(rank5(pick(h1, idx1)).value() <= t.value());
    }
    if t != HandType::NoPair {
        let idx1 = choose|idx: Seq<int>| #[trigger] is_choice(idx, h1.len() as int, 5) && rank5(pick(h1, idx)) == t;
        lemma_matching_choice(h1, h2, idx1);
    }
}

/// If no choice of the hand is above `v`, the hand has a best category.
proof fn lemma_best_at_most(hand: Seq<Card>, v: int)
    requires
        0 <= v <= 9,
        forall|idx: Seq<int>| #[trigger]
            is_choice(idx, hand.len() as int, 5) ==> rank5(pick(hand, idx)).value() <= v,
    ensures
        exists|t: HandType| is_best_type(hand, t),
    decreases v,
{
    if exists|idx: Seq<int>| #[trigger] is_choice(idx, hand.len() as int, 5) && rank5(pick(hand, idx)).value() == v {
        let idx = choose|idx: Seq<int>| #[trigger]
            is_choice(idx, hand.len() as int, 5) && rank5(pick(hand, idx)).value() == v;
        let t = rank5(pick(hand, idx));
        assert(is_best_type(hand, t));
    } else if v == 0 {
        assert forall|idx: Seq<int>| #[trigger] is_choice(idx, hand.len() as int, 5) implies false by {
            assert(rank5(pick(hand, idx)).value() >= 0);
        }
        assert(is_best_type(hand, HandType::NoPair));
    } else {
        lemma_best_at_most(hand, v - 1);
    }
}

/// Every hand has a best category, which `hand_rank` names.
pub proof fn lemma_hand_rank_is_best(hand: Seq<Card>)
    ensures
        is_best_type(hand, hand_rank(hand)),
{
    assert forall|idx: Seq<int>| #[trigger] is_choice(idx, hand.len() as int, 5) implies rank5(
        pick(hand, idx),
    ).value() <= 9 by {
        crate::cards::lemma_value_at_most_five_of_a_kind(rank5(pick(hand, idx)));
    }
    lemma_best_at_most(hand, 9);
    let t = choose|t: HandType| is_best_type(hand, t);
    lemma_hand_rank_is(hand, t);
}

/// The category of a hand does not depend on the order of its cards.
pub proof fn lemma_rank_permutation(h1: Seq<Card>, h2: Seq<Card>)
    requires
        h1.to_multiset() == h2.to_multiset(),
    ensures
        hand_rank(h1) == hand_rank(h2),
{
    lemma_hand_rank_is_best(h1);
    lemma_best_transfers(h1, h2, hand_rank(h1));
    lemma_hand_rank_is(h2, hand_rank(h1));
}

} // verus!
