use vstd::prelude::*;
use vstd::relations::{sorted_by, total_ordering};
use vstd::seq_lib::lemma_sorted_unique;

verus! {

broadcast use vstd::seq_lib::group_to_multiset_ensures;

/// The integers that a vector of counts holds.
pub open spec fn ints(s: Seq<usize>) -> Seq<int> {
    s.map_values(|x: usize| x as int)
}

/// The elements of `s` from the largest to the smallest.
pub open spec fn descending(s: Seq<int>) -> Seq<int> {
    s.sort().reverse()
}

pub open spec fn ascending_order() -> spec_fn(int, int) -> bool {
    |x: int, y: int| x <= y
}

proof fn lemma_ascending_total()
    ensures
        total_ordering(ascending_order()),
{
}

/// Sorts the values from the smallest to the largest.
pub fn sort_ascending(v: &Vec<usize>) -> (r: Vec<usize>)
    ensures
        ints(r@) == ints(v@).sort(),
{
    let mut out: Vec<usize> = Vec::new();
    let mut i: usize = 0;
    while i < v.len()
        invariant
            0 <= i <= v.len(),
            sorted_by(ints(out@), ascending_order()),
            ints(out@).to_multiset() == ints(v@.subrange(0, i as int)).to_multiset(),
        decreases v.len() - i,
    {
        let x = v[i];
        let mut p: usize = 0;
        while p < out.len() && out[p] <= x
            invariant
                0 <= p <= out.len(),
                forall|j: int| 0 <= j < p ==> out@[j] <= x,
            decreases out.len() - p,
        {
            p = p + 1;
        }
        let ghost before = out@;
        out.insert(p, x);
        proof {
            assert(ints(out@) =~= ints(before).insert(p as int, x as int));
            assert(ints(v@.subrange(0, i + 1)) =~= ints(v@.subrange(0, i as int)).push(x as int));
            assert forall|a: int, b: int| 0 <= a < b < out@.len() implies #[trigger] ascending_order()(
                ints(out@)[a],
                ints(out@)[b],
            ) by {
                if b < p {
                    assert(ascending_order()(ints(before)[a], ints(before)[b]));
                } else if b == p {
                } else if a < p {
                    assert(ascending_order()(ints(before)[p as int], ints(before)[b - 1]));
                } else if a == p {
                    assert(ascending_order()(ints(before)[p as int], ints(before)[b - 1]));
                } else {
                    assert(ascending_order()(ints(before)[a - 1], ints(before)[b - 1]));
                }
            }
        }
        i = i + 1;
    }
    proof {
        assert(v@.subrange(0, v@.len() as int) =~= v@);
        ints(v@).lemma_sort_ensures();
        lemma_ascending_total();
        lemma_sorted_unique(ints(out@), ints(v@).sort(), ascending_order());
    }
    out
}

/// Sorts the values from the largest to the smallest.
pub fn sort_descending(v: &Vec<usize>) -> (r: Vec<usize>)
    ensures
        ints(r@) == descending(ints(v@)),
        r@.len() == v@.len(),
{
    let up = sort_ascending(v);
    let mut out: Vec<usize> = Vec::new();
    let mut i: usize = up.len();
    while i > 0
        invariant
            0 <= i <= up.len(),
            out@.len() == up.len() - i,
            forall|j: int| 0 <= j < out@.len() ==> out@[j] == up@[up.len() - 1 - j],
        decreases i,
    {
        i = i - 1;
        out.push(up[i]);
    }
    assert(ints(out@) =~= ints(up@).reverse());
    proof {
        ints(v@).lemma_sort_ensures();
        assert(ints(v@).sort().to_multiset().len() == ints(v@).to_multiset().len());
        assert(ints(up@).len() == ints(v@).len());
    }
    out
}

/// The first of the descending values is the largest of them.
pub proof fn lemma_descending_first_is_max(s: Seq<int>)
    requires
        s.len() > 0,
    ensures
        descending(s).len() == s.len(),
        forall|k: int| 0 <= k < s.len() ==> #[trigger] s[k] <= descending(s)[0],
{
    s.lemma_sort_ensures();
    let t = s.sort();
    assert(t.to_multiset().len() == s.to_multiset().len());
    assert forall|k: int| 0 <= k < s.len() implies #[trigger] s[k] <= descending(s)[0] by {
        assert(s.to_multiset().count(s[k]) > 0);
        assert(t.contains(s[k]));
        let m = choose|m: int| 0 <= m < t.len() && t[m] == s[k];
        if m < t.len() - 1 {
            assert(ascending_order()(t[m], t[t.len() - 1]));
        }
    }
}

} // verus!
