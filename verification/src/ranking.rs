use vstd::prelude::*;
use vstd::seq_lib::seq_to_set_is_finite;
use vstd::set_lib::{lemma_int_range, lemma_len_subset, set_int_range};

use crate::embedding::{has_nan, is_nan_bits, order_key};
use crate::ieee::{float_eq, float_lt, lemma_order_key_exact};

verus! {

/// Entry `i` comes before entry `j` in a ranking by `scores`: its distance
/// is smaller, or the distances are equal and it is stored earlier.
pub open spec fn precedes(scores: Seq<u32>, i: int, j: int) -> bool {
    ||| order_key(scores[i]) < order_key(scores[j])
    ||| (order_key(scores[i]) == order_key(scores[j]) && i < j)
}

/// Entry `i` may still be ranked once `prev` has been (`prev < 0`: nothing
/// has been ranked yet).
pub open spec fn comes_after(scores: Seq<u32>, prev: int, i: int) -> bool {
    prev < 0 || precedes(scores, prev, i)
}

/// Entry `i` is the first entry that comes after `prev`.
pub open spec fn is_next(scores: Seq<u32>, prev: int, i: int) -> bool {
    &&& 0 <= i < scores.len()
    &&& comes_after(scores, prev, i)
    &&& forall|j: int|
        0 <= j < scores.len() && comes_after(scores, prev, j) && j != i ==> #[trigger] precedes(
            scores,
            i,
            j,
        )
}

/// The positions of the `k` entries nearest by `scores`, nearest first;
/// entries at equal distance keep their stored order.
pub open spec fn ranking(scores: Seq<u32>, k: nat) -> Seq<int>
    decreases k,
{
    if k == 0 {
        Seq::empty()
    } else {
        let r = ranking(scores, (k - 1) as nat);
        let prev = if k == 1 { -1int } else { r.last() };
        r.push(choose|i: int| is_next(scores, prev, i))
    }
}

/// The last ranked position of a prefix of length `j` (`-1` when empty).
pub open spec fn last_ranked(r: Seq<int>, j: int) -> int {
    if j == 0 { -1 } else { r[j - 1] }
}

/// A ranking of `k` entries has `k` positions.
pub proof fn lemma_ranking_len(scores: Seq<u32>, k: nat)
    ensures
        ranking(scores, k).len() == k,
    decreases k,
{
    if k > 0 {
        lemma_ranking_len(scores, (k - 1) as nat);
    }
}

/// At most one entry comes next.
pub proof fn lemma_next_unique(scores: Seq<u32>, prev: int, a: int, b: int)
    requires
        is_next(scores, prev, a),
        is_next(scores, prev, b),
    ensures
        a == b,
{
    if a != b {
        assert(precedes(scores, a, b));
        assert(precedes(scores, b, a));
    }
}

/// The ranking of `k + 1` entries extends that of `k` by the entry that
/// comes next.
pub proof fn lemma_ranking_step(scores: Seq<u32>, k: nat, p: int)
    requires
        is_next(scores, last_ranked(ranking(scores, k), k as int), p),
    ensures
        ranking(scores, k + 1) == ranking(scores, k).push(p),
{
    lemma_ranking_len(scores, k);
    let prev = last_ranked(ranking(scores, k), k as int);
    let c = choose|i: int| is_next(scores, prev, i);
    lemma_next_unique(scores, prev, c, p);
}

/// A sequence that holds every position below `n` has at least `n` items.
proof fn lemma_covering_length(r: Seq<int>, n: int)
    requires
        0 <= n,
        forall|i: int| 0 <= i < n ==> r.contains(i),
    ensures
        r.len() >= n,
{
    lemma_int_range(0, n);
    seq_to_set_is_finite(r);
    assert(set_int_range(0, n).subset_of(r.to_set()));
    lemma_len_subset(set_int_range(0, n), r.to_set());
    r.lemma_cardinality_of_set();
}

/// Coming before is transitive.
proof fn lemma_precedes_transitive(scores: Seq<u32>, a: int, b: int, c: int)
    requires
        precedes(scores, a, b),
        precedes(scores, b, c),
    ensures
        precedes(scores, a, c),
{
}

/// Among the first `m` entries, one that comes after `prev` and before
/// every other such entry, when any comes after `prev`.
proof fn next_among(scores: Seq<u32>, prev: int, m: int) -> (b: int)
    requires
        0 < m <= scores.len(),
        exists|i: int| 0 <= i < m && #[trigger] comes_after(scores, prev, i),
    ensures
        0 <= b < m,
        comes_after(scores, prev, b),
        forall|t: int|
            0 <= t < m && comes_after(scores, prev, t) && t != b ==> #[trigger] precedes(scores, b, t),
    decreases m,
{
    if !(exists|i: int| 0 <= i < m - 1 && #[trigger] comes_after(scores, prev, i)) {
        let w = choose|i: int| 0 <= i < m && #[trigger] comes_after(scores, prev, i);
        assert(w == m - 1);
        m - 1
    } else {
        let c = next_among(scores, prev, m - 1);
        if comes_after(scores, prev, m - 1) && precedes(scores, m - 1, c) {
            assert forall|t: int|
                0 <= t < m && comes_after(scores, prev, t) && t != m - 1 implies #[trigger] precedes(
                scores,
                m - 1,
                t,
            ) by {
                if t != c {
                    lemma_precedes_transitive(scores, m - 1, c, t);
                }
            }
            m - 1
        } else {
            c
        }
    }
}

/// What ranking `k` entries keeps: every position is an entry, each comes
/// before the ones ranked after it, and every entry that does not come after
/// the last ranked one has been ranked.
proof fn lemma_ranking_invariant(scores: Seq<u32>, k: nat)
    requires
        k <= scores.len(),
    ensures
        ranking(scores, k).len() == k,
        forall|j: int| 0 <= j < k ==> 0 <= #[trigger] ranking(scores, k)[j] < scores.len(),
        forall|a: int, b: int|
            0 <= a < b < k ==> precedes(
                scores,
                #[trigger] ranking(scores, k)[a],
                #[trigger] ranking(scores, k)[b],
            ),
        forall|i: int|
            0 <= i < scores.len() && !comes_after(scores, last_ranked(ranking(scores, k), k as int), i)
                ==> #[trigger] ranking(scores, k).contains(i),
    decreases k,
{
    if k > 0 {
        let k1 = (k - 1) as nat;
        lemma_ranking_invariant(scores, k1);
        let r = ranking(scores, k1);
        let prev = last_ranked(r, k1 as int);
        let n = scores.len() as int;
        if !(exists|i: int| 0 <= i < n && #[trigger] comes_after(scores, prev, i)) {
            assert forall|i: int| 0 <= i < n implies r.contains(i) by {
                assert(!comes_after(scores, prev, i));
            }
            lemma_covering_length(r, n);
        }
        let p = next_among(scores, prev, n);
        lemma_ranking_step(scores, k1, p);
        let r2 = r.push(p);
        assert(ranking(scores, k) == r2);
        assert forall|a: int, b: int| 0 <= a < b < k implies precedes(
            scores,
            #[trigger] r2[a],
            #[trigger] r2[b],
        ) by {
            if b == k1 {
                assert(r2[b] == p);
                assert(prev == r[k1 - 1]);
                if a < k1 - 1 {
                    assert(precedes(scores, r[a], r[k1 - 1]));
                    lemma_precedes_transitive(scores, r[a], prev, p);
                }
            } else {
                assert(r2[a] == r[a] && r2[b] == r[b]);
            }
        }
        assert forall|i: int|
            0 <= i < n && !comes_after(scores, last_ranked(r2, k as int), i) implies #[trigger] r2.contains(i) by {
            assert(last_ranked(r2, k as int) == p);
            if i == p {
                assert(r2[k1 as int] == i);
            } else {
                if comes_after(scores, prev, i) {
                    assert(precedes(scores, p, i));
                }
                assert(r.contains(i));
                let w = choose|w: int| 0 <= w < r.len() && r[w] == i;
                assert(r2[w] == i);
            }
        }
    }
}

/// A ranking of `k` entries, `k` at most their number, names entries only,
/// each entry at most once, and each before every entry ranked after it.
pub proof fn lemma_ranking_ordered(scores: Seq<u32>, k: nat)
    requires
        k <= scores.len(),
    ensures
        ranking(scores, k).len() == k,
        forall|j: int| 0 <= j < k ==> 0 <= #[trigger] ranking(scores, k)[j] < scores.len(),
        forall|a: int, b: int|
            0 <= a < b < k ==> precedes(
                scores,
                #[trigger] ranking(scores, k)[a],
                #[trigger] ranking(scores, k)[b],
            ),
        forall|a: int, b: int|
            0 <= a < k && 0 <= b < k && a != b ==> #[trigger] ranking(scores, k)[a]
                != #[trigger] ranking(scores, k)[b],
{
    lemma_ranking_invariant(scores, k);
    let r = ranking(scores, k);
    assert forall|a: int, b: int| 0 <= a < k && 0 <= b < k && a != b implies #[trigger] r[a] != #[trigger] r[b] by {
        if a < b {
            assert(precedes(scores, r[a], r[b]));
        } else {
            assert(precedes(scores, r[b], r[a]));
        }
    }
}

/// What a ranking selects, read as IEEE-754 numbers when no distance is
/// NaN: no ranked distance is greater than one ranked after it, no entry
/// left out is smaller than a ranked one, and ranked entries at equal
/// distance keep the order in which they are stored.
pub proof fn lemma_ranking_nearest(scores: Seq<u32>, k: nat)
    requires
        k <= scores.len(),
        !has_nan(scores),
    ensures
        forall|a: int, b: int|
            0 <= a < b < k ==> !float_lt(
                scores[#[trigger] ranking(scores, k)[b]],
                scores[#[trigger] ranking(scores, k)[a]],
            ),
        forall|a: int, b: int|
            0 <= a < b < k && float_eq(
                scores[#[trigger] ranking(scores, k)[a]],
                scores[#[trigger] ranking(scores, k)[b]],
            ) ==> ranking(scores, k)[a] < ranking(scores, k)[b],
        forall|i: int, j: int|
            0 <= i < scores.len() && 0 <= j < k && !ranking(scores, k).contains(i) ==> !float_lt(
                #[trigger] scores[i],
                scores[#[trigger] ranking(scores, k)[j]],
            ),
{
    lemma_ranking_invariant(scores, k);
    let r = ranking(scores, k);
    assert forall|i: int| 0 <= i < scores.len() implies !is_nan_bits(#[trigger] scores[i]) by {
        if is_nan_bits(scores[i]) {
            assert(has_nan(scores));
        }
    }
    assert forall|a: int, b: int| 0 <= a < b < k implies !float_lt(
        scores[#[trigger] r[b]],
        scores[#[trigger] r[a]],
    ) by {
        assert(precedes(scores, r[a], r[b]));
        lemma_order_key_exact(scores[r[b]], scores[r[a]]);
    }
    assert forall|a: int, b: int|
        0 <= a < b < k && float_eq(scores[#[trigger] r[a]], scores[#[trigger] r[b]]) implies r[a] < r[b] by {
        assert(precedes(scores, r[a], r[b]));
        lemma_order_key_exact(scores[r[a]], scores[r[b]]);
    }
    assert forall|i: int, j: int|
        0 <= i < scores.len() && 0 <= j < k && !r.contains(i) implies !float_lt(
        #[trigger] scores[i],
        scores[#[trigger] r[j]],
    ) by {
        let last = last_ranked(r, k as int);
        assert(comes_after(scores, last, i));
        assert(last == r[k - 1]);
        if j < k - 1 {
            assert(precedes(scores, r[j], r[k - 1]));
        }
        lemma_order_key_exact(scores[i], scores[r[j]]);
    }
}

fn score_key(bits: u32) -> (key: i64)
    ensures
        key == order_key(bits),
{
    if bits >= 0x8000_0000 {
        -((bits - 0x8000_0000) as i64)
    } else {
        bits as i64
    }
}

fn precedes_exec(scores: &[u32], i: usize, j: usize) -> (b: bool)
    requires
        i < scores@.len(),
        j < scores@.len(),
    ensures
        b == precedes(scores@, i as int, j as int),
{
    let ki = score_key(scores[i]);
    let kj = score_key(scores[j]);
    ki < kj || (ki == kj && i < j)
}

/// The positions of the `k` entries nearest by `scores`, nearest first.
pub fn rank(scores: &[u32], k: usize) -> (r: Vec<usize>)
    requires
        k <= scores@.len(),
    ensures
        r@.len() == k,
        forall|j: int| 0 <= j < k ==> #[trigger] r@[j] as int == ranking(scores@, k as nat)[j],
        forall|j: int| 0 <= j < k ==> r@[j] < scores@.len(),
        forall|a: int, b: int|
            0 <= a < b < k ==> order_key(scores@[#[trigger] r@[a] as int]) <= order_key(
                scores@[#[trigger] r@[b] as int],
            ),
        forall|i: int, j: int|
            0 <= i < scores@.len() && 0 <= j < k && !ranking(scores@, k as nat).contains(i)
                ==> order_key(scores@[#[trigger] r@[j] as int]) <= order_key(#[trigger] scores@[i]),
{
    let n = scores.len();
    let mut r: Vec<usize> = Vec::new();
    let mut j: usize = 0;
    while j < k
        invariant
            k <= n == scores@.len(),
            j <= k,
            r@.len() == j,
            ranking(scores@, j as nat).len() == j,
            forall|t: int| 0 <= t < j ==> #[trigger] r@[t] as int == ranking(scores@, j as nat)[t],
            forall|t: int| 0 <= t < j ==> #[trigger] r@[t] < n,
            forall|a: int, b: int|
                0 <= a < b < j ==> precedes(scores@, #[trigger] r@[a] as int, #[trigger] r@[b] as int),
            forall|i: int|
                0 <= i < n && !comes_after(scores@, last_ranked(ranking(scores@, j as nat), j as int), i)
                    ==> #[trigger] ranking(scores@, j as nat).contains(i),
        decreases k - j,
    {
        let ghost rs = ranking(scores@, j as nat);
        let ghost prev = last_ranked(rs, j as int);
        let mut found = false;
        let mut best: usize = 0;
        let mut i: usize = 0;
        while i < n
            invariant
                k <= n == scores@.len(),
                j < k,
                r@.len() == j,
                rs == ranking(scores@, j as nat),
                prev == last_ranked(rs, j as int),
                j > 0 ==> prev == r@[j - 1] as int,
                forall|t: int| 0 <= t < j ==> #[trigger] r@[t] < n,
                i <= n,
                found ==> best < i && comes_after(scores@, prev, best as int),
                found ==> forall|t: int|
                    0 <= t < i && comes_after(scores@, prev, t) && t != best ==> #[trigger] precedes(
                        scores@,
                        best as int,
                        t,
                    ),
                !found ==> forall|t: int| 0 <= t < i ==> !#[trigger] comes_after(scores@, prev, t),
            decreases n - i,
        {
            let after = j == 0 || precedes_exec(scores, r[j - 1], i);
            let ghost old_best = best;
            let ghost old_found = found;
            if after && (!found || precedes_exec(scores, i, best)) {
                found = true;
                best = i;
                proof {
                    assert forall|t: int|
                        0 <= t < i + 1 && comes_after(scores@, prev, t) && t != best implies #[trigger] precedes(
                        scores@,
                        best as int,
                        t,
                    ) by {
                        if old_found && t != old_best {
                            assert(precedes(scores@, old_best as int, t));
                        }
                    }
                }
            }
            i = i + 1;
        }
        proof {
            if !found {
                assert forall|t: int| 0 <= t < n implies rs.contains(t) by {
                    assert(!comes_after(scores@, prev, t));
                }
                lemma_covering_length(rs, n as int);
            }
            assert(is_next(scores@, prev, best as int));
            let c = choose|c: int| is_next(scores@, prev, c);
            assert(is_next(scores@, prev, c));
            if c != best as int {
                assert(precedes(scores@, best as int, c));
                assert(precedes(scores@, c, best as int));
            }
            assert(ranking(scores@, (j + 1) as nat) == rs.push(best as int));
        }
        r.push(best);
        proof {
            let rs2 = rs.push(best as int);
            assert forall|t: int| 0 <= t < j + 1 implies #[trigger] r@[t] as int == rs2[t] by {}
            assert forall|a: int, b: int|
                0 <= a < b < j + 1 implies precedes(scores@, #[trigger] r@[a] as int, #[trigger] r@[b] as int) by {
                if b == j && a < j - 1 {
                    assert(precedes(scores@, r@[a] as int, r@[j - 1] as int));
                }
            }
            assert forall|t: int|
                0 <= t < n && !comes_after(scores@, last_ranked(rs2, j + 1), t) implies #[trigger] rs2.contains(t) by {
                if t == best as int {
                    assert(rs2[j as int] == t);
                } else {
                    if comes_after(scores@, prev, t) {
                        assert(precedes(scores@, best as int, t));
                    }
                    assert(rs.contains(t));
                    let w = choose|w: int| 0 <= w < rs.len() && rs[w] == t;
                    assert(rs2[w] == t);
                }
            }
        }
        j = j + 1;
    }
    proof {
        let rs = ranking(scores@, k as nat);
        assert forall|i: int, t: int|
            0 <= i < scores@.len() && 0 <= t < k && !rs.contains(i) implies order_key(
            scores@[#[trigger] r@[t] as int],
        ) <= order_key(#[trigger] scores@[i]) by {
            if k > 0 {
                assert(comes_after(scores@, last_ranked(rs, k as int), i));
                if t < k - 1 {
                    assert(precedes(scores@, r@[t] as int, r@[k - 1] as int));
                }
            }
        }
    }
    r
}

} // verus!
