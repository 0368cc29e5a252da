use vstd::prelude::*;
use vstd::seq_lib::{to_multiset_contains, to_multiset_len};
use crate::seq_util::{is_strict_order, lemma_sorted_unique, sorted_by};

verus! {

/// Pairs compare by their first entry, then by their second.
pub open spec fn pair_le(a: (i128, usize), b: (i128, usize)) -> bool {
    a.0 < b.0 || (a.0 == b.0 && a.1 <= b.1)
}

/// No pair stands before a smaller one.
pub open spec fn pairs_sorted(s: Seq<(i128, usize)>) -> bool {
    forall|i: int, j: int| 0 <= i < j < s.len() ==> pair_le(#[trigger] s[i], #[trigger] s[j])
}

/// Sorts pairs of integers in ascending order.
///
/// Calls the slice method `sort_unstable`, which sorts in ascending order of
/// `Ord`; on tuples of integers that is the order by first entry, then by
/// second. The contract says that the result holds the same pairs and is in
/// that order.
#[verifier::external_body]
pub(crate) fn sort_pairs(v: &mut Vec<(i128, usize)>)
    ensures
        final(v)@.to_multiset() == old(v)@.to_multiset(),
        pairs_sorted(final(v)@),
{
    v.sort_unstable()
}

/// `order` lists every index below `n` once.
pub open spec fn is_permutation(order: Seq<usize>, n: int) -> bool {
    &&& order.len() == n
    &&& forall|k: int| 0 <= k < order.len() ==> (#[trigger] order[k]) < n
    &&& forall|a: int, b: int| 0 <= a < b < order.len() ==> #[trigger] order[a] != #[trigger] order[b]
    &&& forall|i: usize| i < n ==> #[trigger] order.contains(i)
}

/// `order` lists the indices of `keys` by ascending key, equal keys by
/// ascending index.
pub open spec fn is_key_order(keys: Seq<i128>, order: Seq<usize>) -> bool {
    &&& is_permutation(order, keys.len() as int)
    &&& forall|a: int, b: int|
        0 <= a < b < order.len() ==> pair_le(
            (keys[(#[trigger] order[a]) as int], order[a]),
            (keys[(#[trigger] order[b]) as int], order[b]),
        )
}

/// The indices of `keys` by ascending key, equal keys by ascending index.
pub fn order_by_key(keys: &Vec<i128>) -> (order: Vec<usize>)
    ensures
        is_key_order(keys@, order@),
{
    let n = keys.len();
    let mut pairs: Vec<(i128, usize)> = Vec::new();
    let mut i: usize = 0;
    while i < n
        invariant
            n == keys@.len(),
            i <= n,
            pairs@.len() == i,
            forall|k: int| 0 <= k < i ==> #[trigger] pairs@[k] == (keys@[k], k as usize),
        decreases n - i,
    {
        pairs.push((keys[i], i));
        i = i + 1;
    }
    let ghost unsorted = pairs@;
    sort_pairs(&mut pairs);
    proof {
        to_multiset_len(unsorted);
        to_multiset_len(pairs@);
        assert(unsorted.no_duplicates());
        unsorted.lemma_multiset_has_no_duplicates();
        pairs@.lemma_multiset_has_no_duplicates_conv();
        assert forall|k: int| 0 <= k < pairs@.len() implies (#[trigger] pairs@[k]).1 < n
            && pairs@[k].0 == keys@[pairs@[k].1 as int] by {
            to_multiset_contains(pairs@, pairs@[k]);
            to_multiset_contains(unsorted, pairs@[k]);
            assert(pairs@.contains(pairs@[k]));
            let j = choose|j: int| 0 <= j < unsorted.len() && unsorted[j] == pairs@[k];
            assert(unsorted[j] == (keys@[j], j as usize));
        }
        assert forall|i: int| 0 <= i < n implies pairs@.contains((keys@[i], i as usize)) by {
            to_multiset_contains(pairs@, (keys@[i], i as usize));
            to_multiset_contains(unsorted, (keys@[i], i as usize));
            assert(unsorted[i] == (keys@[i], i as usize));
            assert(unsorted.contains((keys@[i], i as usize)));
        }
    }
    let mut order: Vec<usize> = Vec::new();
    let mut k: usize = 0;
    while k < n
        invariant
            n == keys@.len(),
            pairs@.len() == n,
            k <= n,
            order@.len() == k,
            forall|j: int| 0 <= j < k ==> #[trigger] order@[j] == pairs@[j].1,
        decreases n - k,
    {
        order.push(pairs[k].1);
        k = k + 1;
    }
    proof {
        assert forall|a: int, b: int| 0 <= a < b < order@.len() implies #[trigger] order@[a]
            != #[trigger] order@[b] by {
            assert(pairs@[a] != pairs@[b]);
            assert(pairs@[a].0 == keys@[pairs@[a].1 as int]);
            assert(pairs@[b].0 == keys@[pairs@[b].1 as int]);
        }
        assert forall|i: usize| i < n implies #[trigger] order@.contains(i) by {
            let p = (keys@[i as int], i);
            assert(pairs@.contains(p));
            let j = choose|j: int| 0 <= j < pairs@.len() && pairs@[j] == p;
            assert(order@[j] == i);
        }
        assert forall|a: int, b: int| 0 <= a < b < order@.len() implies pair_le(
            (keys@[(#[trigger] order@[a]) as int], order@[a]),
            (keys@[(#[trigger] order@[b]) as int], order@[b]),
        ) by {
            assert(pair_le(pairs@[a], pairs@[b]));
            assert(pairs@[a].0 == keys@[pairs@[a].1 as int]);
            assert(pairs@[b].0 == keys@[pairs@[b].1 as int]);
        }
    }
    order
}

/// `a` stands before `b`: by first entry, then by second.
pub open spec fn lex_less(a: (int, int), b: (int, int)) -> bool {
    a.0 < b.0 || (a.0 == b.0 && a.1 < b.1)
}

/// Every pair stands before the pairs after it.
pub open spec fn lex_increasing(s: Seq<(int, int)>) -> bool {
    forall|i: int, j: int| 0 <= i < j < s.len() ==> lex_less(#[trigger] s[i], #[trigger] s[j])
}

/// There is one way to put pairs in increasing order.
pub proof fn lemma_lex_increasing_unique(a: Seq<(int, int)>, b: Seq<(int, int)>)
    requires
        lex_increasing(a),
        lex_increasing(b),
        forall|x: (int, int)| a.contains(x) <==> b.contains(x),
    ensures
        a == b,
{
    let before = |x: (int, int), y: (int, int)| lex_less(x, y);
    assert(is_strict_order(before));
    assert(sorted_by(a, before)) by {
        assert forall|i: int, j: int| 0 <= i < j < a.len() implies before(
            #[trigger] a[i],
            #[trigger] a[j],
        ) by {
            assert(lex_less(a[i], a[j]));
        }
    }
    assert(sorted_by(b, before)) by {
        assert forall|i: int, j: int| 0 <= i < j < b.len() implies before(
            #[trigger] b[i],
            #[trigger] b[j],
        ) by {
            assert(lex_less(b[i], b[j]));
        }
    }
    lemma_sorted_unique(a, b, before);
}

/// Keys have one order.
pub proof fn lemma_key_order_unique(keys: Seq<i128>, first: Seq<usize>, second: Seq<usize>)
    requires
        is_key_order(keys, first),
        is_key_order(keys, second),
    ensures
        first == second,
{
    let a = Seq::new(first.len(), |k: int| (keys[first[k] as int] as int, first[k] as int));
    let b = Seq::new(second.len(), |k: int| (keys[second[k] as int] as int, second[k] as int));
    assert(lex_increasing(a)) by {
        assert forall|i: int, j: int| 0 <= i < j < a.len() implies lex_less(
            #[trigger] a[i],
            #[trigger] a[j],
        ) by {
            assert(pair_le((keys[first[i] as int], first[i]), (keys[first[j] as int], first[j])));
            assert(first[i] != first[j]);
        }
    }
    assert(lex_increasing(b)) by {
        assert forall|i: int, j: int| 0 <= i < j < b.len() implies lex_less(
            #[trigger] b[i],
            #[trigger] b[j],
        ) by {
            assert(pair_le(
                (keys[second[i] as int], second[i]),
                (keys[second[j] as int], second[j]),
            ));
            assert(second[i] != second[j]);
        }
    }
    assert forall|x: (int, int)| a.contains(x) <==> b.contains(x) by {
        if a.contains(x) {
            let i = choose|i: int| 0 <= i < a.len() && a[i] == x;
            assert(first[i] < keys.len());
            assert(second.contains(first[i]));
            let j = choose|j: int| 0 <= j < second.len() && second[j] == first[i];
            assert(b[j] == x);
        }
        if b.contains(x) {
            let i = choose|i: int| 0 <= i < b.len() && b[i] == x;
            assert(second[i] < keys.len());
            assert(first.contains(second[i]));
            let j = choose|j: int| 0 <= j < first.len() && first[j] == second[i];
            assert(a[j] == x);
        }
    }
    lemma_lex_increasing_unique(a, b);
    assert forall|k: int| 0 <= k < first.len() implies first[k] == second[k] by {
        assert(a[k] == b[k]);
    }
    assert(first =~= second);
}

} // verus!
