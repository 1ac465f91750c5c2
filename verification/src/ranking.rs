//! Discipline-agnostic ranking engine: assigns each item of a scored list a
//! dense 1-based rank, best score first, without disturbing the caller's
//! ordering. Ties are not deduplicated: items whose scores compare equal get
//! distinct sequential ranks, earlier list position first.

use vstd::prelude::*;
use vstd::set_lib::lemma_len_subset;
use vstd::set_lib::lemma_int_range;
use vstd::set_lib::set_int_range;

use crate::discipline::TypedScore;
use crate::discipline::score_better;
use crate::discipline::score_equiv;
use crate::discipline::lemma_score_transitive;
use crate::discipline::lemma_score_trichotomy;
use crate::discipline::ranks_before;
use crate::discipline::ties_with;

verus! {

broadcast use vstd::set::group_set_axioms;

/// Whether the item at index `i` stands before the item at index `j` in the
/// best-to-worst order the engine ranks by: a strictly better score, or a
/// tied score at an earlier list position.
pub open spec fn placed_before(s: Seq<TypedScore>, i: int, j: int) -> bool {
    score_better(s[i], s[j]) || (score_equiv(s[i], s[j]) && i < j)
}

/// How many of the first `n` items stand before the item at index `i`.
pub open spec fn count_before_upto(s: Seq<TypedScore>, i: int, n: int) -> int
    decreases n,
{
    if n <= 0 {
        0
    } else {
        count_before_upto(s, i, n - 1) + if placed_before(s, n - 1, i) {
            1int
        } else {
            0int
        }
    }
}

/// The rank of the item at index `i`: one more than the number of items that
/// stand before it.
pub open spec fn rank_of(s: Seq<TypedScore>, i: int) -> int {
    1 + count_before_upto(s, i, s.len() as int)
}

/// The set of indices below `n` whose items stand before the item at `i`.
pub open spec fn before_set_upto(s: Seq<TypedScore>, i: int, n: int) -> Set<int> {
    Set::new(|j: int| 0 <= j < n && placed_before(s, j, i))
}

/// The count and the set agree, and the count is bounded: at most `n`, and at
/// most `n - 1` when `i` itself lies below `n` (no item stands before
/// itself).
pub proof fn lemma_count_before_upto(s: Seq<TypedScore>, i: int, n: int)
    requires
        0 <= n,
    ensures
        before_set_upto(s, i, n).finite(),
        count_before_upto(s, i, n) == before_set_upto(s, i, n).len(),
        0 <= count_before_upto(s, i, n) <= n,
        0 <= i < n ==> count_before_upto(s, i, n) <= n - 1,
    decreases n,
{
    lemma_score_trichotomy(s[i], s[i]);
    if n == 0 {
        assert(before_set_upto(s, i, 0) =~= Set::<int>::empty());
    } else {
        lemma_count_before_upto(s, i, n - 1);
        if placed_before(s, n - 1, i) {
            assert(before_set_upto(s, i, n) =~= before_set_upto(s, i, n - 1).insert(n - 1));
        } else {
            assert(before_set_upto(s, i, n) =~= before_set_upto(s, i, n - 1));
        }
    }
}

/// If some item below `n` stands before the item at `i`, the count below `n`
/// is positive.
pub proof fn lemma_count_before_positive(s: Seq<TypedScore>, i: int, n: int, j: int)
    requires
        0 <= j < n,
        placed_before(s, j, i),
    ensures
        count_before_upto(s, i, n) >= 1,
    decreases n,
{
    if j < n - 1 {
        lemma_count_before_positive(s, i, n - 1, j);
    }
    lemma_count_before_upto(s, i, n - 1);
}

/// Decides the best-to-worst placement order at run time.
fn comes_before(scores: &Vec<TypedScore>, a: usize, b: usize) -> (r: bool)
    requires
        a < scores@.len(),
        b < scores@.len(),
    ensures
        r == placed_before(scores@, a as int, b as int),
{
    let better = ranks_before(&scores[a], &scores[b]);
    let tied = ties_with(&scores[a], &scores[b]);
    better || (tied && a < b)
}

/// Whether original position `k` occurs somewhere in the index list `idx`.
pub open spec fn lists_index(idx: Seq<usize>, k: int) -> bool {
    exists|a: int| 0 <= a < idx.len() && #[trigger] idx[a] == k
}

/// Whether `idx` lists every position of `s` exactly once, best score first
/// (ties by list position): position `r` of `idx` holds the original index
/// of the item standing at place `r`.
pub open spec fn is_placement_order(s: Seq<TypedScore>, idx: Seq<usize>) -> bool {
    &&& idx.len() == s.len()
    &&& forall|a: int| 0 <= a < idx.len() ==> 0 <= #[trigger] idx[a] < s.len()
    &&& forall|a: int, b: int|
        0 <= a < b < idx.len() ==> placed_before(s, #[trigger] idx[a] as int, #[trigger] idx[b] as int)
    &&& forall|k: int| 0 <= k < s.len() ==> #[trigger] lists_index(idx, k)
}

/// In a placement order, the place of an item is exactly the number of items
/// standing before it: the item listed at place `r` has rank `r + 1`.
proof fn lemma_place_is_rank(s: Seq<TypedScore>, idx: Seq<usize>, r: int)
    requires
        is_placement_order(s, idx),
        0 <= r < idx.len(),
    ensures
        rank_of(s, idx[r] as int) == r + 1,
{
    let n = s.len() as int;
    let v = idx[r] as int;
    let before = before_set_upto(s, v, n);
    lemma_count_before_upto(s, v, n);
    let places = set_int_range(0, r);
    lemma_int_range(0, r);
    let f = |a: int| idx[a] as int;
    assert forall|a: int| places.contains(a) implies before.contains(#[trigger] f(a)) by {
        assert(placed_before(s, idx[a] as int, idx[r] as int));
    }
    assert forall|a1: int, a2: int|
        places.contains(a1) && places.contains(a2) && #[trigger] f(a1) == #[trigger] f(
            a2,
        ) implies a1 == a2 by {
        if a1 < a2 {
            lemma_score_trichotomy(s[f(a1)], s[f(a1)]);
            assert(placed_before(s, idx[a1] as int, idx[a2] as int));
        }
        if a2 < a1 {
            lemma_score_trichotomy(s[f(a1)], s[f(a1)]);
            assert(placed_before(s, idx[a2] as int, idx[a1] as int));
        }
    }
    assert forall|y: int| #[trigger] before.contains(y) implies exists|a: int|
        places.contains(a) && f(a) == y by {
        assert(lists_index(idx, y));
        let a = choose|a: int| 0 <= a < idx.len() && idx[a] == y;
        lemma_placed_before_connected(s, y, v);
        lemma_score_trichotomy(s[y], s[y]);
        assert(a != r);
        if a > r {
            assert(placed_before(s, idx[r] as int, idx[a] as int));
            assert(false);
        }
        assert(places.contains(a) && f(a) == y);
    }
    lemma_bijection_len(places, before, f);
}

/// Assigns every item of `scores` its dense 1-based rank. The input order is
/// untouched: the rank of the item at position `i` is returned at position
/// `i`. Total over any finite input, including the empty list.
///
/// Double indirection: an index list is sorted into best-to-worst placement
/// order, and a second pass inverts it so that each original position reads
/// off its own place.
pub fn assign_ranks(scores: &Vec<TypedScore>) -> (ranks: Vec<usize>)
    ensures
        ranks@.len() == scores@.len(),
        forall|i: int| 0 <= i < scores@.len() ==> ranks@[i] as int == rank_of(scores@, i),
{
    let n = scores.len();
    let mut indices: Vec<usize> = Vec::new();
    let mut i: usize = 0;
    while i < n
        invariant
            i <= n,
            n == scores@.len(),
            indices@.len() == i,
            forall|a: int| 0 <= a < i ==> 0 <= #[trigger] indices@[a] < i,
            forall|a: int, b: int|
                0 <= a < b < i ==> placed_before(
                    scores@,
                    #[trigger] indices@[a] as int,
                    #[trigger] indices@[b] as int,
                ),
            forall|k: int| 0 <= k < i ==> #[trigger] lists_index(indices@, k),
        decreases n - i,
    {
        let mut j: usize = indices.len();
        while j > 0 && comes_before(scores, i, indices[j - 1])
            invariant
                j <= indices@.len(),
                i < n,
                n == scores@.len(),
                indices@.len() == i,
                forall|a: int| 0 <= a < i ==> 0 <= #[trigger] indices@[a] < i,
                forall|b: int|
                    j <= b < i ==> placed_before(scores@, i as int, #[trigger] indices@[b] as int),
            decreases j,
        {
            j = j - 1;
        }
        let ghost old_indices = indices@;
        indices.insert(j, i);
        proof {
            old_indices.insert_ensures(j as int, i);
            if j > 0 {
                lemma_placed_before_connected(scores@, old_indices[j - 1] as int, i as int);
            }
            assert forall|a: int, b: int| 0 <= a < b < i + 1 implies placed_before(
                scores@,
                #[trigger] indices@[a] as int,
                #[trigger] indices@[b] as int,
            ) by {
                if b < j {
                    assert(indices@[a] == old_indices[a] && indices@[b] == old_indices[b]);
                } else if a < j && b == j {
                    assert(indices@[a] == old_indices[a]);
                    if a < j - 1 {
                        lemma_placed_before_transitive(
                            scores@,
                            old_indices[a] as int,
                            old_indices[j - 1] as int,
                            i as int,
                        );
                    }
                } else if a < j && b > j {
                    assert(indices@[a] == old_indices[a] && indices@[b] == old_indices[b - 1]);
                } else if a == j {
                    assert(indices@[b] == old_indices[b - 1]);
                } else {
                    assert(indices@[a] == old_indices[a - 1] && indices@[b] == old_indices[b - 1]);
                }
            }
            assert forall|k: int| 0 <= k < i + 1 implies #[trigger] lists_index(indices@, k) by {
                if k == i {
                    assert(indices@[j as int] == k);
                } else {
                    assert(lists_index(old_indices, k));
                    let a = choose|a: int| 0 <= a < old_indices.len() && old_indices[a] == k;
                    if a < j {
                        assert(indices@[a] == k);
                    } else {
                        assert(indices@[a + 1] == k);
                    }
                }
            }
        }
        i = i + 1;
    }
    let mut ranks: Vec<usize> = Vec::new();
    let mut i: usize = 0;
    while i < n
        invariant
            i <= n,
            ranks@.len() == i,
        decreases n - i,
    {
        ranks.push(0);
        i = i + 1;
    }
    let mut r: usize = 0;
    while r < n
        invariant
            r <= n,
            n == scores@.len(),
            ranks@.len() == n,
            is_placement_order(scores@, indices@),
            forall|a: int| 0 <= a < r ==> ranks@[indices@[a] as int] == a + 1,
        decreases n - r,
    {
        let pos = indices[r];
        ranks[pos] = r + 1;
        proof {
            assert forall|a: int| 0 <= a < r + 1 implies ranks@[indices@[a] as int] == a + 1 by {
                if a < r && indices@[a] == indices@[r as int] {
                    lemma_score_trichotomy(scores@[indices@[a] as int], scores@[indices@[a] as int]);
                    assert(placed_before(scores@, indices@[a] as int, indices@[r as int] as int));
                    assert(false);
                }
            }
        }
        r = r + 1;
    }
    proof {
        assert forall|k: int| 0 <= k < n implies ranks@[k] as int == rank_of(scores@, k) by {
            assert(lists_index(indices@, k));
            let a = choose|a: int| 0 <= a < indices@.len() && indices@[a] == k;
            lemma_place_is_rank(scores@, indices@, a);
        }
    }
    ranks
}

/// Every rank lies in `1..=N`.
pub proof fn lemma_rank_in_range(s: Seq<TypedScore>, i: int)
    requires
        0 <= i < s.len(),
    ensures
        1 <= rank_of(s, i) <= s.len(),
{
    lemma_count_before_upto(s, i, s.len() as int);
}

/// The best-to-worst placement order is transitive.
proof fn lemma_placed_before_transitive(s: Seq<TypedScore>, i: int, j: int, k: int)
    requires
        placed_before(s, i, j),
        placed_before(s, j, k),
    ensures
        placed_before(s, i, k),
{
    lemma_score_transitive(s[i], s[j], s[k]);
}

/// Of two distinct indices, exactly one stands before the other.
proof fn lemma_placed_before_connected(s: Seq<TypedScore>, i: int, j: int)
    requires
        i != j,
    ensures
        placed_before(s, i, j) || placed_before(s, j, i),
        !(placed_before(s, i, j) && placed_before(s, j, i)),
{
    lemma_score_trichotomy(s[i], s[j]);
    lemma_score_trichotomy(s[j], s[i]);
}

/// No two items share a rank: ranks are duplicate-free. If `i` stands before
/// `j`, its rank is strictly smaller.
pub proof fn lemma_rank_injective(s: Seq<TypedScore>, i: int, j: int)
    requires
        0 <= i < s.len(),
        0 <= j < s.len(),
        i != j,
    ensures
        rank_of(s, i) != rank_of(s, j),
        placed_before(s, i, j) ==> rank_of(s, i) < rank_of(s, j),
{
    lemma_placed_before_connected(s, i, j);
    if placed_before(s, i, j) {
        lemma_rank_lt(s, i, j);
    } else {
        lemma_rank_lt(s, j, i);
    }
}

/// If `i` stands before `j`, every item standing before `i` also stands
/// before `j`, and `i` itself stands before `j` but not before itself; so the
/// count before `i` is strictly below the count before `j`.
proof fn lemma_rank_lt(s: Seq<TypedScore>, i: int, j: int)
    requires
        0 <= i < s.len(),
        0 <= j < s.len(),
        placed_before(s, i, j),
    ensures
        rank_of(s, i) < rank_of(s, j),
{
    let n = s.len() as int;
    let bi = before_set_upto(s, i, n);
    let bj = before_set_upto(s, j, n);
    lemma_count_before_upto(s, i, n);
    lemma_count_before_upto(s, j, n);
    assert forall|k: int| bi.contains(k) implies bj.contains(k) by {
        lemma_placed_before_transitive(s, k, i, j);
    }
    lemma_score_trichotomy(s[i], s[i]);
    assert(!bi.contains(i));
    assert(bj.contains(i));
    assert(bi.insert(i).subset_of(bj));
    lemma_len_subset(bi.insert(i), bj);
}

/// The set of ranks taken by the first `m` items has exactly `m` elements.
proof fn lemma_prefix_ranks_len(s: Seq<TypedScore>, m: int)
    requires
        0 <= m <= s.len(),
    ensures
        prefix_ranks(s, m).finite(),
        prefix_ranks(s, m).len() == m,
    decreases m,
{
    if m == 0 {
        assert(prefix_ranks(s, 0) =~= Set::<int>::empty());
    } else {
        lemma_prefix_ranks_len(s, m - 1);
        assert forall|i: int| 0 <= i < m - 1 implies #[trigger] rank_of(s, i) != rank_of(s, m - 1) by {
            lemma_rank_injective(s, i, m - 1);
        }
        assert(!prefix_ranks(s, m - 1).contains(rank_of(s, m - 1)));
        assert(prefix_ranks(s, m) =~= prefix_ranks(s, m - 1).insert(rank_of(s, m - 1)));
    }
}

/// The set of ranks taken by the first `m` items.
spec fn prefix_ranks(s: Seq<TypedScore>, m: int) -> Set<int> {
    Set::new(|r: int| exists|i: int| 0 <= i < m && rank_of(s, i) == r)
}

/// Ranks are gap-free: every value in `1..=N` is some item's rank.
pub proof fn lemma_rank_complete(s: Seq<TypedScore>, r: int)
    requires
        1 <= r <= s.len(),
    ensures
        exists|i: int| 0 <= i < s.len() && rank_of(s, i) == r,
{
    let n = s.len() as int;
    let taken = prefix_ranks(s, n);
    let range = set_int_range(1, n + 1);
    lemma_prefix_ranks_len(s, n);
    lemma_int_range(1, n + 1);
    assert forall|x: int| taken.contains(x) implies range.contains(x) by {
        let i = choose|i: int| 0 <= i < n && rank_of(s, i) == x;
        lemma_rank_in_range(s, i);
    }
    if !taken.contains(r) {
        assert(taken.subset_of(range.remove(r)));
        lemma_len_subset(taken, range.remove(r));
        assert(false);
    }
}

/// An item ranks first exactly when nothing stands before it; in particular
/// no other item's score is strictly better than a rank-1 item's score.
pub proof fn lemma_rank_one_is_best(s: Seq<TypedScore>, i: int)
    requires
        0 <= i < s.len(),
        rank_of(s, i) == 1,
    ensures
        forall|j: int| 0 <= j < s.len() ==> !score_better(s[j], s[i]),
{
    assert forall|j: int| 0 <= j < s.len() implies !score_better(s[j], s[i]) by {
        if score_better(s[j], s[i]) {
            lemma_count_before_positive(s, i, s.len() as int, j);
        }
    }
}

/// Re-ranking an unchanged list in the same order yields identical ranks: any
/// two rank assignments that satisfy the engine's contract agree everywhere.
pub proof fn lemma_rerank_identical(s: Seq<TypedScore>, r1: Seq<usize>, r2: Seq<usize>)
    requires
        r1.len() == s.len(),
        r2.len() == s.len(),
        forall|i: int| 0 <= i < s.len() ==> r1[i] as int == rank_of(s, i),
        forall|i: int| 0 <= i < s.len() ==> r2[i] as int == rank_of(s, i),
    ensures
        r1 =~= r2,
{
}

/// Whether `j` occurs among the first `n` entries of `p`.
pub open spec fn in_image(p: Seq<int>, n: int, j: int) -> bool {
    exists|k: int| 0 <= k < n && p[k] == j
}

/// Whether the first `n` entries of `p` are a permutation of `0..n`.
pub open spec fn is_permutation(p: Seq<int>, n: int) -> bool {
    &&& p.len() == n
    &&& forall|k: int| 0 <= k < n ==> 0 <= #[trigger] p[k] < n
    &&& forall|k1: int, k2: int|
        0 <= k1 < n && 0 <= k2 < n && #[trigger] p[k1] == #[trigger] p[k2] ==> k1 == k2
    &&& forall|j: int| 0 <= j < n ==> #[trigger] in_image(p, n, j)
}

/// The list `s` reordered by `p`: position `k` holds the item from original
/// position `p[k]`.
pub open spec fn permuted(s: Seq<TypedScore>, p: Seq<int>) -> Seq<TypedScore> {
    Seq::new(s.len(), |k: int| s[p[k]])
}

/// A set mapped one-to-one onto another has the same number of elements.
proof fn lemma_bijection_len(a: Set<int>, b: Set<int>, f: spec_fn(int) -> int)
    requires
        a.finite(),
        forall|x: int| a.contains(x) ==> b.contains(#[trigger] f(x)),
        forall|x: int, y: int|
            a.contains(x) && a.contains(y) && #[trigger] f(x) == #[trigger] f(y) ==> x == y,
        forall|y: int| #[trigger] b.contains(y) ==> exists|x: int| a.contains(x) && f(x) == y,
    ensures
        b.finite(),
        a.len() == b.len(),
    decreases a.len(),
{
    if a.len() == 0 {
        assert forall|y: int| !b.contains(y) by {
            if b.contains(y) {
                let x = choose|x: int| a.contains(x) && f(x) == y;
            }
        }
        assert(b =~= Set::<int>::empty());
    } else {
        let x = a.choose();
        assert(a.contains(x));
        let a2 = a.remove(x);
        let b2 = b.remove(f(x));
        assert forall|y: int| #[trigger] b2.contains(y) implies exists|z: int|
            a2.contains(z) && f(z) == y by {
            let w = choose|w: int| a.contains(w) && f(w) == y;
            assert(a2.contains(w) && f(w) == y);
        }
        lemma_bijection_len(a2, b2, f);
        assert(b =~= b2.insert(f(x)));
    }
}

/// Order-independence: when no two scores of the list tie, ranking the
/// permuted list gives each item the same rank it gets at its original
/// position — the identity-to-rank mapping does not depend on input order.
pub proof fn lemma_rank_order_independent(s: Seq<TypedScore>, p: Seq<int>, k: int)
    requires
        is_permutation(p, s.len() as int),
        forall|i: int, j: int|
            0 <= i < s.len() && 0 <= j < s.len() && i != j ==> !#[trigger] score_equiv(s[i], s[j]),
        0 <= k < s.len(),
    ensures
        rank_of(permuted(s, p), k) == rank_of(s, p[k]),
{
    let n = s.len() as int;
    let s2 = permuted(s, p);
    let a = before_set_upto(s2, k, n);
    let b = before_set_upto(s, p[k], n);
    lemma_count_before_upto(s2, k, n);
    lemma_count_before_upto(s, p[k], n);
    let f = |x: int| p[x];
    assert forall|x: int| a.contains(x) implies b.contains(#[trigger] f(x)) by {
        lemma_score_trichotomy(s2[x], s2[k]);
        assert(x != k);
        assert(score_better(s[p[x]], s[p[k]]));
    }
    assert forall|y: int| #[trigger] b.contains(y) implies exists|x: int|
        a.contains(x) && f(x) == y by {
        lemma_score_trichotomy(s[y], s[p[k]]);
        assert(y != p[k]);
        assert(score_better(s[y], s[p[k]]));
        assert(in_image(p, n, y));
        let x = choose|x: int| 0 <= x < n && p[x] == y;
        assert(s2[x] == s[y] && s2[k] == s[p[k]]);
        assert(a.contains(x) && f(x) == y);
    }
    lemma_bijection_len(a, b, f);
}

} // verus!
