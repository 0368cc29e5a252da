use vstd::prelude::*;
use vstd::set_lib::{lemma_int_range, lemma_len_subset, set_int_range};

verus! {

/// What a sequence holds after an insertion: what it held, and the new item.
pub proof fn lemma_insert_contains<A>(s: Seq<A>, i: int, a: A, x: A)
    requires
        0 <= i <= s.len(),
    ensures
        s.insert(i, a).contains(x) <==> (s.contains(x) || x == a),
{
    let t = s.insert(i, a);
    if s.contains(x) {
        let j = choose|j: int| 0 <= j < s.len() && s[j] == x;
        if j < i {
            assert(t[j] == x);
        } else {
            assert(t[j + 1] == x);
        }
    }
    if x == a {
        assert(t[i] == x);
    }
    if t.contains(x) {
        let j = choose|j: int| 0 <= j < t.len() && t[j] == x;
        if j < i {
            assert(s[j] == x);
        } else if j > i {
            assert(s[j - 1] == x);
        }
    }
}

/// Inserting an item that a duplicate-free sequence does not hold keeps it
/// free of duplicates.
pub proof fn lemma_insert_no_duplicates<A>(s: Seq<A>, i: int, a: A)
    requires
        0 <= i <= s.len(),
        s.no_duplicates(),
        !s.contains(a),
    ensures
        s.insert(i, a).no_duplicates(),
{
    let t = s.insert(i, a);
    assert forall|p: int, q: int| 0 <= p < t.len() && 0 <= q < t.len() && p != q implies t[p]
        != t[q] by {
        let sp = if p < i {
            p
        } else {
            p - 1
        };
        let sq = if q < i {
            q
        } else {
            q - 1
        };
        if p == i {
            assert(s[sq] == t[q]);
            assert(s.contains(s[sq]));
        } else if q == i {
            assert(s[sp] == t[p]);
            assert(s.contains(s[sp]));
        } else {
            assert(s[sp] == t[p]);
            assert(s[sq] == t[q]);
        }
    }
}

/// Removing an item from a duplicate-free sequence leaves the other items,
/// still free of duplicates.
pub proof fn lemma_remove_no_duplicates<A>(s: Seq<A>, i: int)
    requires
        0 <= i < s.len(),
        s.no_duplicates(),
    ensures
        s.remove(i).no_duplicates(),
        !s.remove(i).contains(s[i]),
        forall|x: A| x != s[i] ==> (#[trigger] s.remove(i).contains(x) <==> s.contains(x)),
{
    let t = s.remove(i);
    assert forall|p: int, q: int| 0 <= p < t.len() && 0 <= q < t.len() && p != q implies t[p]
        != t[q] by {
        let sp = if p < i {
            p
        } else {
            p + 1
        };
        let sq = if q < i {
            q
        } else {
            q + 1
        };
        assert(s[sp] == t[p]);
        assert(s[sq] == t[q]);
    }
    if t.contains(s[i]) {
        let j = choose|j: int| 0 <= j < t.len() && t[j] == s[i];
        let sj = if j < i {
            j
        } else {
            j + 1
        };
        assert(s[sj] == t[j]);
    }
    assert forall|x: A| x != s[i] implies (#[trigger] t.contains(x) <==> s.contains(x)) by {
        if t.contains(x) {
            let j = choose|j: int| 0 <= j < t.len() && t[j] == x;
            let sj = if j < i {
                j
            } else {
                j + 1
            };
            assert(s[sj] == x);
        }
        if s.contains(x) {
            let j = choose|j: int| 0 <= j < s.len() && s[j] == x;
            if j < i {
                assert(t[j] == x);
            } else {
                assert(t[j - 1] == x);
            }
        }
    }
}

/// A duplicate-free sequence of integers from `lo` up to, not including,
/// `hi` has at most `hi - lo` items.
pub proof fn lemma_distinct_in_range_len(s: Seq<int>, lo: int, hi: int)
    requires
        lo <= hi,
        s.no_duplicates(),
        forall|i: int| 0 <= i < s.len() ==> lo <= #[trigger] s[i] < hi,
    ensures
        s.len() <= hi - lo,
{
    s.unique_seq_to_set();
    lemma_int_range(lo, hi);
    assert(s.to_set().subset_of(set_int_range(lo, hi))) by {
        assert forall|x: int| s.to_set().contains(x) implies set_int_range(lo, hi).contains(
            x,
        ) by {
            let j = choose|j: int| 0 <= j < s.len() && s[j] == x;
            assert(lo <= s[j] < hi);
        }
    }
    lemma_len_subset(s.to_set(), set_int_range(lo, hi));
}

/// `s` with its first `k` items moved to the end.
pub open spec fn rotate_left<A>(s: Seq<A>, k: int) -> Seq<A> {
    s.subrange(k, s.len() as int) + s.subrange(0, k)
}

/// A rotation holds the same items, and no duplicates if there were none.
pub proof fn lemma_rotate_left<A>(s: Seq<A>, k: int)
    requires
        0 <= k <= s.len(),
    ensures
        rotate_left(s, k).len() == s.len(),
        forall|x: A| #[trigger] rotate_left(s, k).contains(x) <==> s.contains(x),
        s.no_duplicates() ==> rotate_left(s, k).no_duplicates(),
{
    let r = rotate_left(s, k);
    let n = s.len() as int;
    assert forall|i: int| 0 <= i < n implies #[trigger] r[i] == s[if i < n - k {
        i + k
    } else {
        i - (n - k)
    }] by {}
    assert forall|x: A| #[trigger] r.contains(x) <==> s.contains(x) by {
        if r.contains(x) {
            let i = choose|i: int| 0 <= i < r.len() && r[i] == x;
            let j = if i < n - k {
                i + k
            } else {
                i - (n - k)
            };
            assert(s[j] == x);
        }
        if s.contains(x) {
            let j = choose|j: int| 0 <= j < s.len() && s[j] == x;
            let i = if j >= k {
                j - k
            } else {
                j + (n - k)
            };
            assert(r[i] == x);
        }
    }
    if s.no_duplicates() {
        assert forall|p: int, q: int| 0 <= p < r.len() && 0 <= q < r.len() && p != q implies r[p]
            != r[q] by {
            let sp = if p < n - k {
                p + k
            } else {
                p - (n - k)
            };
            let sq = if q < n - k {
                q + k
            } else {
                q - (n - k)
            };
            assert(r[p] == s[sp]);
            assert(r[q] == s[sq]);
        }
    }
}

/// `after` holds the items of `before` in another order: the item at place
/// `i` of `after` stood at place `perm[i]` of `before`, and every place of
/// `before` is the place of one item.
pub open spec fn is_reordering<T>(before: Seq<T>, after: Seq<T>, perm: Seq<int>) -> bool {
    &&& perm.len() == before.len()
    &&& after.len() == before.len()
    &&& forall|i: int| 0 <= i < perm.len() ==> 0 <= #[trigger] perm[i] < before.len()
    &&& perm.no_duplicates()
    &&& forall|a: int| 0 <= a < before.len() ==> #[trigger] perm.contains(a)
    &&& forall|i: int| 0 <= i < after.len() ==> #[trigger] after[i] == before[perm[i]]
}

/// A reordering holds the same items, and no duplicates if there were none.
pub proof fn lemma_reordering<T>(before: Seq<T>, after: Seq<T>, perm: Seq<int>)
    requires
        is_reordering(before, after, perm),
    ensures
        forall|x: T| #[trigger] after.contains(x) <==> before.contains(x),
        before.no_duplicates() ==> after.no_duplicates(),
{
    assert forall|x: T| #[trigger] after.contains(x) <==> before.contains(x) by {
        if after.contains(x) {
            let i = choose|i: int| 0 <= i < after.len() && after[i] == x;
            assert(after[i] == before[perm[i]]);
        }
        if before.contains(x) {
            let a = choose|a: int| 0 <= a < before.len() && before[a] == x;
            assert(perm.contains(a));
            let i = choose|i: int| 0 <= i < perm.len() && perm[i] == a;
            assert(after[i] == before[perm[i]]);
        }
    }
    if before.no_duplicates() {
        assert forall|p: int, q: int| 0 <= p < after.len() && 0 <= q < after.len() && p
            != q implies after[p] != after[q] by {
            assert(after[p] == before[perm[p]]);
            assert(after[q] == before[perm[q]]);
            assert(perm[p] != perm[q]);
        }
    }
}

/// Moving the last item into place `i` and dropping the last place takes
/// out the item at `i` and keeps the others, still free of duplicates.
pub proof fn lemma_swap_remove<A>(s: Seq<A>, i: int)
    requires
        0 <= i < s.len(),
        s.no_duplicates(),
    ensures
        s.update(i, s.last()).drop_last().no_duplicates(),
        forall|x: A| #[trigger]
            s.update(i, s.last()).drop_last().contains(x) <==> s.contains(x) && x != s[i],
{
    let t = s.update(i, s.last()).drop_last();
    let last = s.len() - 1;
    assert forall|p: int, q: int| 0 <= p < t.len() && 0 <= q < t.len() && p != q implies t[p]
        != t[q] by {
        let sp = if p == i {
            last
        } else {
            p
        };
        let sq = if q == i {
            last
        } else {
            q
        };
        assert(t[p] == s[sp]);
        assert(t[q] == s[sq]);
    }
    assert forall|x: A| #[trigger] t.contains(x) <==> s.contains(x) && x != s[i] by {
        if t.contains(x) {
            let p = choose|p: int| 0 <= p < t.len() && t[p] == x;
            let sp = if p == i {
                last
            } else {
                p
            };
            assert(s[sp] == x);
        }
        if s.contains(x) && x != s[i] {
            let p = choose|p: int| 0 <= p < s.len() && s[p] == x;
            if p == last {
                assert(t[i] == x);
            } else {
                assert(t[p] == x);
            }
        }
    }
}

/// Every item stands, by `before`, before the items after it.
pub open spec fn sorted_by<A>(s: Seq<A>, before: spec_fn(A, A) -> bool) -> bool {
    forall|i: int, j: int| 0 <= i < j < s.len() ==> before(#[trigger] s[i], #[trigger] s[j])
}

/// `before` puts things in a row: nothing before itself, of two things one
/// before the other, and what is before something before all that comes
/// after it.
pub open spec fn is_strict_order<A>(before: spec_fn(A, A) -> bool) -> bool {
    &&& forall|x: A| !#[trigger] before(x, x)
    &&& forall|x: A, y: A| x != y ==> #[trigger] before(x, y) || #[trigger] before(y, x)
    &&& forall|x: A, y: A, z: A|
        #[trigger] before(x, y) && #[trigger] before(y, z) ==> before(x, z)
}

/// There is one way to put things in a strict order.
pub proof fn lemma_sorted_unique<A>(a: Seq<A>, b: Seq<A>, before: spec_fn(A, A) -> bool)
    requires
        is_strict_order(before),
        sorted_by(a, before),
        sorted_by(b, before),
        forall|x: A| a.contains(x) <==> b.contains(x),
    ensures
        a == b,
    decreases a.len(),
{
    if a.len() == 0 {
        if b.len() > 0 {
            assert(b.contains(b[0]));
        }
        assert(a =~= b);
    } else {
        assert(a.contains(a.last()));
        if b.len() == 0 {
            assert(b.contains(a.last()));
        }
        assert(b.contains(b.last()));
        let ia = choose|i: int| 0 <= i < a.len() && a[i] == b.last();
        let ib = choose|i: int| 0 <= i < b.len() && b[i] == a.last();
        if a.last() != b.last() {
            assert(before(a[ia], a[a.len() - 1]));
            assert(before(b[ib], b[b.len() - 1]));
            assert(before(a.last(), b.last()) && before(b.last(), a.last()));
            assert(before(a.last(), a.last()));
        }
        let a0 = a.drop_last();
        let b0 = b.drop_last();
        assert forall|x: A| a0.contains(x) <==> b0.contains(x) by {
            if a0.contains(x) {
                let i = choose|i: int| 0 <= i < a0.len() && a0[i] == x;
                assert(a[i] == x);
                assert(before(a[i], a[a.len() - 1]));
                assert(a.contains(x));
                let j = choose|j: int| 0 <= j < b.len() && b[j] == x;
                assert(b0[j] == x);
            }
            if b0.contains(x) {
                let i = choose|i: int| 0 <= i < b0.len() && b0[i] == x;
                assert(b[i] == x);
                assert(before(b[i], b[b.len() - 1]));
                assert(b.contains(x));
                let j = choose|j: int| 0 <= j < a.len() && a[j] == x;
                assert(a0[j] == x);
            }
        }
        assert(sorted_by(a0, before)) by {
            assert forall|i: int, j: int| 0 <= i < j < a0.len() implies before(
                #[trigger] a0[i],
                #[trigger] a0[j],
            ) by {
                assert(before(a[i], a[j]));
            }
        }
        assert(sorted_by(b0, before)) by {
            assert forall|i: int, j: int| 0 <= i < j < b0.len() implies before(
                #[trigger] b0[i],
                #[trigger] b0[j],
            ) by {
                assert(before(b[i], b[j]));
            }
        }
        lemma_sorted_unique(a0, b0, before);
        assert(a =~= a0.push(a.last()));
        assert(b =~= b0.push(b.last()));
    }
}

/// Where each item stands before the next, each stands before all that
/// come after it.
pub proof fn lemma_chain_is_sorted<A>(s: Seq<A>, before: spec_fn(A, A) -> bool)
    requires
        forall|x: A, y: A, z: A|
            #[trigger] before(x, y) && #[trigger] before(y, z) ==> before(x, z),
        forall|k: int| 0 <= k < s.len() - 1 ==> before(#[trigger] s[k], s[k + 1]),
    ensures
        sorted_by(s, before),
    decreases s.len(),
{
    if s.len() > 1 {
        let init = s.drop_last();
        assert forall|k: int| 0 <= k < init.len() - 1 implies before(
            #[trigger] init[k],
            init[k + 1],
        ) by {
            assert(before(s[k], s[k + 1]));
        }
        lemma_chain_is_sorted(init, before);
        assert forall|i: int, j: int| 0 <= i < j < s.len() implies before(
            #[trigger] s[i],
            #[trigger] s[j],
        ) by {
            if j < s.len() - 1 {
                assert(before(init[i], init[j]));
            } else if i < s.len() - 2 {
                assert(before(init[i], init[s.len() - 2]));
                assert(before(s[s.len() - 2], s[s.len() - 2 + 1]));
            } else {
                assert(before(s[i], s[i + 1]));
            }
        }
    }
}

} // verus!
