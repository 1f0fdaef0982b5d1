//! Indexing of the 120 orderings of a five-card hand.
//!
//! A play order is a permutation of the five original hand slots. Each
//! permutation gets a dense index in `[0, 120)` by the factorial number
//! system: the digit at position `i` counts the still-unused slot values
//! smaller than the value chosen there, weighted by `(4 - i)!`. The map is a
//! bijection, orders permutations lexicographically, and gives every prefix
//! of committed plays a contiguous index range.

use vstd::prelude::*;

verus! {

use vstd::arithmetic::mul::{lemma_mul_inequality, lemma_mul_is_distributive_add_other_way};
use vstd::arithmetic::div_mod::{lemma_fundamental_div_mod, lemma_multiply_divide_lt};

/// The factorial function.
pub open spec fn fact(n: nat) -> nat
    decreases n,
{
    if n <= 0 {
        1
    } else {
        n * fact((n - 1) as nat)
    }
}

proof fn lemma_fact_pos(n: nat)
    ensures
        fact(n) >= 1,
    decreases n,
{
    if n > 0 {
        lemma_fact_pos((n - 1) as nat);
        lemma_mul_inequality(1, n as int, fact((n - 1) as nat) as int);
    }
}

proof fn lemma_fact_mono(a: nat, b: nat)
    ensures
        a <= b ==> fact(a) <= fact(b),
    decreases b,
{
    if a < b {
        lemma_fact_mono(a, (b - 1) as nat);
        lemma_fact_pos((b - 1) as nat);
        lemma_mul_inequality(1, b as int, fact((b - 1) as nat) as int);
    }
}

/// Compute a small factorial.
pub fn factorial(n: usize) -> (r: usize)
    requires
        n <= 12,
    ensures
        r == fact(n as nat),
    decreases n,
{
    if n <= 1 {
        proof {
            reveal_with_fuel(fact, 2);
            if n == 0 {
                assert(fact(0) == 1);
            } else {
                assert(n == 1);
                assert(fact(1) == 1 * fact(0));
                assert(fact(0) == 1);
            }
            assert(1 == fact(n as nat));
        }
        1
    } else {
        let sub = factorial(n - 1);
        proof {
            assert(sub == fact((n - 1) as nat));
            assert(fact(n as nat) == (n as nat) * fact((n as nat - 1) as nat));
            assert((n as nat - 1) as nat == (n - 1) as nat);
            assert(fact(n as nat) == n * sub);
            lemma_fact_mono(n as nat, 12);
            assert(fact(12) == 479001600) by {
                reveal_with_fuel(fact, 13);
            }
            assert(n * sub <= 479001600);
        }
        n * sub
    }
}

/// A row of marks, one per hand slot, with no slot marked yet.
pub open spec fn empty_marks() -> Seq<bool> {
    seq![false, false, false, false, false]
}

/// How many slots below `b` are still unmarked.
pub open spec fn count_free_below(marks: Seq<bool>, b: int) -> int
    decreases b,
{
    if b <= 0 {
        0
    } else {
        count_free_below(marks, b - 1) + if marks[b - 1] {
            0int
        } else {
            1int
        }
    }
}

/// The marks row after committing the first `i` entries of `p`.
pub open spec fn marks_of(p: Seq<usize>, i: int) -> Seq<bool>
    decreases i,
{
    if i <= 0 {
        empty_marks()
    } else {
        marks_of(p, i - 1).update(p[i - 1] as int, true)
    }
}

/// An ordered list of distinct hand slots, committed so far; at most all five.
pub open spec fn valid_prefix(p: Seq<usize>) -> bool {
    &&& p.len() <= 5
    &&& forall|k: int| 0 <= k < p.len() ==> p[k] < 5
    &&& p.no_duplicates()
}

/// A complete play order: all five hand slots, each exactly once.
pub open spec fn is_permutation5(p: Seq<usize>) -> bool {
    p.len() == 5 && valid_prefix(p)
}

/// The index contribution of the first `i` entries of `p`.
pub open spec fn lehmer_partial(p: Seq<usize>, i: int) -> int
    decreases i,
{
    if i <= 0 {
        0
    } else {
        lehmer_partial(p, i - 1) + count_free_below(marks_of(p, i - 1), p[i - 1] as int) * (fact(
            (5 - i) as nat,
        ) as int)
    }
}

/// First index of the contiguous block of permutations that begin with `p`.
pub open spec fn prefix_start(p: Seq<usize>) -> int {
    lehmer_partial(p, p.len() as int)
}

/// The dense index of a complete play order.
pub open spec fn perm_index_of(p: Seq<usize>) -> int {
    prefix_start(p)
}

pub(crate) proof fn lemma_marks_of(p: Seq<usize>, i: int)
    requires
        0 <= i <= p.len(),
        forall|k: int| 0 <= k < p.len() ==> p[k] < 5,
    ensures
        marks_of(p, i).len() == 5,
        forall|v: int|
            0 <= v < 5 ==> (marks_of(p, i)[v] <==> exists|k: int| 0 <= k < i && p[k] as int == v),
    decreases i,
{
    if i > 0 {
        lemma_marks_of(p, i - 1);
        assert forall|v: int|
            0 <= v < 5 implies (marks_of(p, i)[v] <==> exists|k: int|
            0 <= k < i && p[k] as int == v) by {
            if v == p[i - 1] as int {
                assert(p[i - 1] as int == v);
            } else {
                assert(marks_of(p, i)[v] == marks_of(p, i - 1)[v]);
            }
        }
    }
}

pub(crate) proof fn lemma_count_free_nonneg(marks: Seq<bool>, b: int)
    ensures
        0 <= count_free_below(marks, b) <= b || b < 0,
    decreases b,
{
    if b > 0 {
        lemma_count_free_nonneg(marks, b - 1);
    }
}

pub(crate) proof fn lemma_count_free_mono(marks: Seq<bool>, b1: int, b2: int)
    requires
        0 <= b1 <= b2,
    ensures
        0 <= count_free_below(marks, b1) <= count_free_below(marks, b2) <= count_free_below(
            marks,
            b1,
        ) + (b2 - b1),
    decreases b2,
{
    lemma_count_free_nonneg(marks, b1);
    if b1 < b2 {
        lemma_count_free_mono(marks, b1, b2 - 1);
    }
}

pub(crate) proof fn lemma_count_free_update(marks: Seq<bool>, v: int, b: int)
    requires
        0 <= v < marks.len(),
        0 <= b <= marks.len(),
    ensures
        count_free_below(marks.update(v, true), b) == count_free_below(marks, b) - (if v < b
            && !marks[v] {
            1int
        } else {
            0int
        }),
    decreases b,
{
    if b > 0 {
        lemma_count_free_update(marks, v, b - 1);
    }
}

pub(crate) proof fn lemma_count_free_total(p: Seq<usize>, i: int)
    requires
        valid_prefix(p),
        0 <= i <= p.len(),
    ensures
        count_free_below(marks_of(p, i), 5) == 5 - i,
    decreases i,
{
    if i == 0 {
        assert(count_free_below(empty_marks(), 5) == 5) by {
            reveal_with_fuel(count_free_below, 6);
        }
    } else {
        lemma_count_free_total(p, i - 1);
        lemma_marks_of(p, i - 1);
        // p[i - 1] is not yet marked because p has no duplicates
        assert(!marks_of(p, i - 1)[p[i - 1] as int]) by {
            if marks_of(p, i - 1)[p[i - 1] as int] {
                let k = choose|k: int| 0 <= k < i - 1 && #[trigger] (p[k] as int) == p[i - 1] as int;
                assert(p[k] == p[i - 1]);
            }
        }
        lemma_count_free_update(marks_of(p, i - 1), p[i - 1] as int, 5);
        assert(marks_of(p, i) == marks_of(p, i - 1).update(p[i - 1] as int, true));
        assert(count_free_below(marks_of(p, i), 5) == count_free_below(marks_of(p, i - 1), 5) - 1);
    }
}

pub(crate) proof fn lemma_count_free_strict(marks: Seq<bool>, a: int, b: int)
    requires
        0 <= a < b <= marks.len(),
        !marks[a],
    ensures
        count_free_below(marks, a) < count_free_below(marks, b),
{
    assert(count_free_below(marks, a + 1) == count_free_below(marks, a) + 1);
    lemma_count_free_mono(marks, a + 1, b);
}

/// The digit at position `i` lies in `[0, 4 - i]`.
proof fn lemma_digit_bound(p: Seq<usize>, i: int)
    requires
        valid_prefix(p),
        0 <= i < p.len(),
    ensures
        0 <= count_free_below(marks_of(p, i), p[i] as int) <= 4 - i,
{
    let m = marks_of(p, i);
    let v = p[i] as int;
    lemma_marks_of(p, i);
    lemma_count_free_total(p, i);
    assert(!m[v]);
    lemma_count_free_mono(marks_of(p, i), 0, v);
    lemma_count_free_strict(m, v, 5);
}

/// `lehmer_partial` grows with the position, and the whole tail from
/// position `i` on adds less than `(5 - i)!`.
proof fn lemma_lehmer_range(p: Seq<usize>, i: int, j: int)
    requires
        valid_prefix(p),
        0 <= i <= j <= p.len(),
    ensures
        lehmer_partial(p, i) <= lehmer_partial(p, j) <= lehmer_partial(p, i) + fact(
            (5 - i) as nat,
        ) - fact((5 - j) as nat),
    decreases j - i,
{
    if i < j {
        lemma_lehmer_range(p, i, j - 1);
        let d = count_free_below(marks_of(p, j - 1), p[j - 1] as int);
        let f = fact((5 - j) as nat) as int;
        lemma_digit_bound(p, j - 1);
        lemma_fact_pos((5 - j) as nat);
        lemma_mul_inequality(0, d, f);
        lemma_mul_inequality(d, 5 - j, f);
        // (6 - j)! == (6 - j) * (5 - j)!
        assert(fact((6 - j) as nat) == (6 - j) * fact((5 - j) as nat));
        lemma_mul_is_distributive_add_other_way(f, 5 - j, 1);
    }
}

/// The index of a complete play order lies in `[0, 120)`.
pub proof fn lemma_perm_index_in_range(p: Seq<usize>)
    requires
        is_permutation5(p),
    ensures
        0 <= perm_index_of(p) < 120,
{
    lemma_lehmer_range(p, 0, 5);
    assert(fact(5) == 120 && fact(0) == 1) by {
        reveal_with_fuel(fact, 7);
    }
}

/// Like bounds for a prefix: its block lies inside `[0, 120]`.
pub proof fn lemma_prefix_start_in_range(p: Seq<usize>)
    requires
        valid_prefix(p),
    ensures
        0 <= prefix_start(p),
        prefix_start(p) + fact((5 - p.len()) as nat) <= 120,
{
    lemma_lehmer_range(p, 0, p.len() as int);
    assert(fact(5) == 120) by {
        reveal_with_fuel(fact, 7);
    }
}

pub(crate) proof fn lemma_lehmer_agree(p: Seq<usize>, q: Seq<usize>, i: int)
    requires
        0 <= i <= p.len(),
        i <= q.len(),
        forall|k: int| 0 <= k < i ==> p[k] == q[k],
    ensures
        marks_of(p, i) == marks_of(q, i),
        lehmer_partial(p, i) == lehmer_partial(q, i),
    decreases i,
{
    if i > 0 {
        lemma_lehmer_agree(p, q, i - 1);
    }
}

proof fn lemma_first_diff(p: Seq<usize>, q: Seq<usize>, k: int)
    requires
        0 <= k <= p.len(),
        k <= q.len(),
        p.subrange(0, k) != q.subrange(0, k),
    ensures
        exists|j: int|
            0 <= j < k && p[j] != q[j] && (forall|m: int| 0 <= m < j ==> p[m] == q[m]),
    decreases k,
{
    if k == 0 {
        assert(p.subrange(0, 0) =~= q.subrange(0, 0));
    } else {
        if p.subrange(0, k - 1) == q.subrange(0, k - 1) {
            if p[k - 1] == q[k - 1] {
                assert(p.subrange(0, k) =~= q.subrange(0, k)) by {
                    assert(forall|m: int|
                        0 <= m < k - 1 ==> p[m] == p.subrange(0, k - 1)[m] && q[m] == q.subrange(
                            0,
                            k - 1,
                        )[m]);
                }
            } else {
                let j = k - 1;
                assert(forall|m: int|
                    0 <= m < j ==> p[m] == p.subrange(0, k - 1)[m] && q[m] == q.subrange(
                        0,
                        k - 1,
                    )[m]);
                assert(0 <= j < k && p[j] != q[j] && (forall|m: int| 0 <= m < j ==> p[m] == q[m]));
            }
        } else {
            lemma_first_diff(p, q, k - 1);
            let j = choose|j: int|
                0 <= j < k - 1 && p[j] != q[j] && (forall|m: int| 0 <= m < j ==> p[m] == q[m]);
            assert(0 <= j < k && p[j] != q[j] && (forall|m: int| 0 <= m < j ==> p[m] == q[m]));
        }
    }
}

/// A permutation's index falls inside a prefix's block exactly when the
/// permutation begins with that prefix.
pub proof fn lemma_prefix_range_covers(prefix: Seq<usize>, p: Seq<usize>)
    requires
        valid_prefix(prefix),
        is_permutation5(p),
    ensures
        (prefix_start(prefix) <= perm_index_of(p) < prefix_start(prefix) + fact(
            (5 - prefix.len()) as nat,
        )) <==> p.subrange(0, prefix.len() as int) == prefix,
{
    let k = prefix.len() as int;
    if p.subrange(0, k) == prefix {
        assert(forall|m: int| 0 <= m < k ==> p[m] == p.subrange(0, k)[m]);
        lemma_lehmer_agree(p, prefix, k);
        lemma_lehmer_range(p, k, 5);
        assert(fact(0) == 1);
    } else {
        assert(forall|m: int| 0 <= m < k ==> prefix[m] == prefix.subrange(0, k)[m]);
        assert(prefix.subrange(0, k) =~= prefix);
        lemma_first_diff(p, prefix, k);
        let j = choose|j: int|
            0 <= j < k && p[j] != prefix[j] && (forall|m: int| 0 <= m < j ==> p[m] == prefix[m]);
        lemma_lehmer_agree(p, prefix, j);
        let m = marks_of(p, j);
        let dp = count_free_below(m, p[j] as int);
        let dq = count_free_below(m, prefix[j] as int);
        lemma_marks_of(p, j);
        lemma_marks_of(prefix, j);
        assert(!m[p[j] as int]);
        assert(!m[prefix[j] as int]) by {
            assert(marks_of(prefix, j) == m);
        }
        let fj = fact((5 - (j + 1)) as nat) as int;
        // (5 - j)! = (5 - j) * (4 - j)!
        assert(fact((5 - j) as nat) == (5 - j) * fact((4 - j) as nat));
        lemma_fact_pos((4 - j) as nat);
        lemma_digit_bound(p, j);
        lemma_digit_bound(prefix, j);
        // partial sums up to position j + 1
        assert(lehmer_partial(p, j + 1) == lehmer_partial(p, j) + dp * fj);
        assert(lehmer_partial(prefix, j + 1) == lehmer_partial(prefix, j) + dq * fj) by {
            assert(marks_of(prefix, j) == m);
        }
        if p[j] < prefix[j] {
            lemma_count_free_strict(m, p[j] as int, prefix[j] as int);
            // index of p stays below the block of prefix
            lemma_lehmer_range(p, j + 1, 5);
            assert(fact(0) == 1);
            lemma_lehmer_range(prefix, j + 1, k);
            lemma_mul_inequality(dp + 1, dq, fj);
            lemma_mul_is_distributive_add_other_way(fj, dp, 1);
            assert(perm_index_of(p) < prefix_start(prefix));
        } else {
            lemma_count_free_strict(m, prefix[j] as int, p[j] as int);
            // index of p lies at or above the end of the block of prefix
            lemma_lehmer_range(p, j + 1, 5);
            lemma_lehmer_range(prefix, j + 1, k);
            lemma_mul_inequality(dq + 1, dp, fj);
            lemma_mul_is_distributive_add_other_way(fj, dq, 1);
            lemma_fact_mono((5 - k) as nat, (4 - j) as nat);
            assert(perm_index_of(p) >= prefix_start(prefix) + fact((5 - k) as nat));
        }
    }
}

/// Distinct play orders get distinct indices.
pub proof fn lemma_perm_index_injective(p: Seq<usize>, q: Seq<usize>)
    requires
        is_permutation5(p),
        is_permutation5(q),
        p != q,
    ensures
        perm_index_of(p) != perm_index_of(q),
{
    lemma_prefix_range_covers(q, p);
    assert(p.subrange(0, 5) =~= p);
    assert(q.subrange(0, 5) =~= q);
    assert(fact(0) == 1);
}

pub(crate) proof fn lemma_nth_free_exists(marks: Seq<bool>, d: int, b: int)
    requires
        0 <= d < count_free_below(marks, b),
        b <= marks.len(),
    ensures
        exists|v: int| 0 <= v < b && !marks[v] && #[trigger] count_free_below(marks, v) == d,
    decreases b,
{
    lemma_count_free_nonneg(marks, b - 1);
    if d < count_free_below(marks, b - 1) {
        lemma_nth_free_exists(marks, d, b - 1);
        let v = choose|v: int|
            0 <= v < b - 1 && !marks[v] && #[trigger] count_free_below(marks, v) == d;
        assert(0 <= v < b && !marks[v] && count_free_below(marks, v) == d);
    } else {
        assert(!marks[b - 1]);
        assert(0 <= b - 1 < b && !marks[b - 1] && count_free_below(marks, b - 1) == d);
    }
}

proof fn lemma_perm_exists_rec(built: Seq<usize>, rem: int)
    requires
        valid_prefix(built),
        0 <= rem < fact((5 - built.len()) as nat),
    ensures
        exists|p: Seq<usize>|
            is_permutation5(p) && #[trigger] perm_index_of(p) == prefix_start(built) + rem,
    decreases 5 - built.len(),
{
    let i = built.len() as int;
    if i == 5 {
        assert(is_permutation5(built) && perm_index_of(built) == prefix_start(built) + rem);
    } else {
        let m = marks_of(built, i);
        let f = fact((4 - i) as nat) as int;
        lemma_fact_pos((4 - i) as nat);
        let d = rem / f;
        let r2 = rem % f;
        lemma_fundamental_div_mod(rem, f);
        assert(f * d == d * f) by (nonlinear_arith);
        assert(rem == d * f + r2);
        assert(fact((5 - i) as nat) == (5 - i) * fact((4 - i) as nat));
        lemma_multiply_divide_lt(rem, f, 5 - i);
        assert(0 <= d < 5 - i);
        lemma_count_free_total(built, i);
        lemma_marks_of(built, i);
        lemma_nth_free_exists(m, d, 5);
        let v = choose|v: int| 0 <= v < 5 && !m[v] && #[trigger] count_free_below(m, v) == d;
        let built2 = built.push(v as usize);
        assert(valid_prefix(built2)) by {
            assert(forall|k: int| 0 <= k < built.len() ==> built2[k] == built[k]);
            assert(forall|k: int| 0 <= k < built.len() ==> built[k] as int != v);
        }
        assert(marks_of(built2, i) == m && lehmer_partial(built2, i) == lehmer_partial(built, i))
            by {
            lemma_lehmer_agree(built2, built, i);
        }
        assert(lehmer_partial(built2, i + 1) == prefix_start(built) + d * f);
        lemma_perm_exists_rec(built2, r2);
        let p = choose|p: Seq<usize>|
            is_permutation5(p) && #[trigger] perm_index_of(p) == prefix_start(built2) + r2;
        assert(perm_index_of(p) == prefix_start(built) + rem);
    }
}

/// Every index below 120 is the index of some play order.
pub proof fn lemma_perm_exists(k: int)
    requires
        0 <= k < 120,
    ensures
        exists|p: Seq<usize>| is_permutation5(p) && #[trigger] perm_index_of(p) == k,
{
    let e = Seq::<usize>::empty();
    assert(valid_prefix(e));
    assert(prefix_start(e) == 0);
    assert(fact(5) == 120) by {
        reveal_with_fuel(fact, 7);
    }
    lemma_perm_exists_rec(e, k);
}

/// The one play order whose index is `k`, named as a value.
pub open spec fn perm_with_index(k: int) -> Seq<usize> {
    choose|p: Seq<usize>| is_permutation5(p) && #[trigger] perm_index_of(p) == k
}

/// For an index in range, `perm_with_index` is a play order with that index.
pub proof fn lemma_perm_with_index(k: int)
    requires
        0 <= k < 120,
    ensures
        is_permutation5(perm_with_index(k)),
        perm_index_of(perm_with_index(k)) == k,
{
    lemma_perm_exists(k);
}

/// A play order is recovered from its own index.
pub proof fn lemma_perm_with_index_unique(q: Seq<usize>)
    requires
        is_permutation5(q),
    ensures
        perm_with_index(perm_index_of(q)) == q,
{
    lemma_perm_index_in_range(q);
    lemma_perm_with_index(perm_index_of(q));
    if perm_with_index(perm_index_of(q)) != q {
        lemma_perm_index_injective(perm_with_index(perm_index_of(q)), q);
    }
}

/// The identity play order has index 0.
pub proof fn lemma_identity_index()
    ensures
        perm_index_of(seq![0usize, 1usize, 2usize, 3usize, 4usize]) == 0,
{
    let p = seq![0usize, 1usize, 2usize, 3usize, 4usize];
    reveal_with_fuel(lehmer_partial, 6);
    reveal_with_fuel(marks_of, 6);
    reveal_with_fuel(count_free_below, 6);
    assert(count_free_below(marks_of(p, 0), 0) == 0);
    assert(count_free_below(marks_of(p, 1), 1) == 0);
    assert(count_free_below(marks_of(p, 2), 2) == 0);
    assert(count_free_below(marks_of(p, 3), 3) == 0);
    assert(count_free_below(marks_of(p, 4), 4) == 0);
    assert(perm_index_of(p) == 0);
}

fn prefix_index(prefix: &[usize]) -> (s: usize)
    requires
        valid_prefix(prefix@),
    ensures
        s == prefix_start(prefix@),
{
    let n = prefix.len();
    let mut used = [false, false, false, false, false];
    let mut index: usize = 0;
    proof {
        assert(used@ =~= empty_marks());
    }
    for i in 0..n
        invariant
            n == prefix@.len(),
            valid_prefix(prefix@),
            used@ == marks_of(prefix@, i as int),
            index == lehmer_partial(prefix@, i as int),
            index <= 120,
    {
        let v = prefix[i];
        assert(v < 5);
        let mut smaller: usize = 0;
        for j in 0..v
            invariant
                v == prefix@[i as int] && v < 5,
                used@ == marks_of(prefix@, i as int),
                smaller == count_free_below(used@, j as int),
                smaller <= j,
        {
            if !used[j] {
                smaller = smaller + 1;
            }
        }
        let f = factorial(4 - i);
        proof {
            lemma_digit_bound(prefix@, i as int);
            lemma_fact_mono((4 - i) as nat, 5);
            assert(fact(5) == 120) by {
                reveal_with_fuel(fact, 7);
            }
            lemma_lehmer_range(prefix@, 0, i + 1);
            assert(lehmer_partial(prefix@, i + 1) == lehmer_partial(prefix@, i as int)
                + count_free_below(marks_of(prefix@, i as int), prefix@[i as int] as int) * (fact(
                (4 - i) as nat,
            ) as int));
        }
        used[v] = true;
        proof {
            assert(used@ =~= marks_of(prefix@, i + 1));
        }
        index = index + smaller * f;
    }
    index
}

/// Compute the index of the block of play orders that begin with `prefix`,
/// as a half-open range `[start, end)` of length `(5 - len)!`.
pub fn perm_prefix_range(prefix: &[usize]) -> (r: (usize, usize))
    requires
        valid_prefix(prefix@),
    ensures
        r.0 == prefix_start(prefix@),
        r.1 == r.0 + fact((5 - prefix@.len()) as nat),
        r.1 <= 120,
{
    let s = prefix_index(prefix);
    let len = factorial(5 - prefix.len());
    proof {
        lemma_prefix_start_in_range(prefix@);
    }
    (s, s + len)
}

/// Compute the dense index of a complete play order.
pub fn perm_index(perm: &[usize; 5]) -> (idx: usize)
    requires
        is_permutation5(perm@),
    ensures
        idx == perm_index_of(perm@),
        idx < 120,
{
    proof {
        lemma_perm_index_in_range(perm@);
    }
    prefix_index(vstd::array::array_as_slice(perm))
}

/// Reconstruct the play order with the given dense index.
pub fn perm_from_index(idx: usize) -> (p: [usize; 5])
    requires
        idx < 120,
    ensures
        is_permutation5(p@),
        perm_index_of(p@) == idx,
{
    let mut used = [false, false, false, false, false];
    let mut result = [0usize, 0, 0, 0, 0];
    let mut rem: usize = idx;
    proof {
        assert(used@ =~= empty_marks());
        assert(result@.subrange(0, 0) =~= Seq::<usize>::empty());
        assert(fact(5) == 120) by {
            reveal_with_fuel(fact, 7);
        }
    }
    for i in 0..5
        invariant
            valid_prefix(result@.subrange(0, i as int)),
            result@.len() == 5,
            used@ == marks_of(result@.subrange(0, i as int), i as int),
            rem < fact((5 - i) as nat),
            lehmer_partial(result@.subrange(0, i as int), i as int) + rem == idx,
            idx < 120,
    {
        let ghost built = result@.subrange(0, i as int);
        let f = factorial(4 - i);
        proof {
            lemma_fact_pos((4 - i) as nat);
        }
        let d = rem / f;
        let r2 = rem % f;
        proof {
            lemma_fundamental_div_mod(rem as int, f as int);
            assert((f as int) * (d as int) == (d as int) * (f as int)) by (nonlinear_arith);
            assert(rem == (d as int) * (f as int) + r2);
            assert(fact((5 - i) as nat) == ((5 - i) as nat) * fact((4 - i) as nat));
            assert(d < 5 - i) by {
                if d >= 5 - i {
                    lemma_mul_inequality(5 - i as int, d as int, f as int);
                    assert((5 - i as int) * (f as int) <= (d as int) * (f as int));
                    assert(rem >= (5 - i as int) * (f as int));
                }
            }
            lemma_count_free_total(built, i as int);
            lemma_marks_of(built, i as int);
        }
        // walk to the slot holding the d-th still-free value
        let mut cnt: usize = 0;
        let mut found: usize = 5;
        let mut w: usize = 0;
        while w < 5
            invariant
                used@.len() == 5,
                w <= 5,
                found <= 5,
                d < count_free_below(used@, 5),
                found == 5 ==> cnt == count_free_below(used@, w as int) && cnt <= d,
                found < 5 ==> !used@[found as int] && count_free_below(used@, found as int)
                    == d as int,
            decreases 5 - w,
        {
            if found == 5 && !used[w] {
                if cnt == d {
                    found = w;
                } else {
                    cnt = cnt + 1;
                }
            }
            w = w + 1;
        }
        proof {
            assert(w == 5);
            if found == 5 {
                assert(cnt == count_free_below(used@, 5));
                assert(cnt <= d);
                assert(d < count_free_below(used@, 5));
                assert(false);
            }
        }
        assert(found < 5);
        result[i] = found;
        used[found] = true;
        rem = r2;
        proof {
            let built2 = result@.subrange(0, i + 1);
            assert(built2 =~= built.push(found));
            assert(valid_prefix(built2)) by {
                assert(forall|k: int| 0 <= k < built.len() ==> built2[k] == built[k]);
                assert(forall|k: int| 0 <= k < built.len() ==> built[k] as int != found as int);
            }
            assert(marks_of(built2, i as int) == marks_of(built, i as int) && lehmer_partial(
                built2,
                i as int,
            ) == lehmer_partial(built, i as int)) by {
                lemma_lehmer_agree(built2, built, i as int);
            }
            assert(used@ =~= marks_of(built2, i + 1));
            assert(lehmer_partial(built2, i + 1) == lehmer_partial(built, i as int) + d * f);
        }
    }
    proof {
        assert(result@.subrange(0, 5) =~= result@);
        assert(fact(0) == 1);
    }
    result
}

/// Produce the 120 play orders, ordered by their dense index: the entry at
/// position `k` is the play order whose index is `k`, and the first entry is
/// the identity order.
pub fn all_hand_orders() -> (perms: Vec<[usize; 5]>)
    ensures
        perms@.len() == 120,
        forall|k: int|
            0 <= k < 120 ==> is_permutation5(#[trigger] perms@[k]@) && perm_index_of(perms@[k]@)
                == k,
        perms@[0]@ == seq![0usize, 1usize, 2usize, 3usize, 4usize],
{
    let mut result: Vec<[usize; 5]> = Vec::new();
    for k in 0..120
        invariant
            result@.len() == k,
            forall|m: int|
                0 <= m < k ==> is_permutation5(#[trigger] result@[m]@) && perm_index_of(
                    result@[m]@,
                ) == m,
    {
        result.push(perm_from_index(k));
    }
    proof {
        let ident = seq![0usize, 1usize, 2usize, 3usize, 4usize];
        lemma_identity_index();
        if result@[0]@ != ident {
            assert(is_permutation5(ident));
            lemma_perm_index_injective(result@[0]@, ident);
        }
    }
    result
}

} // verus!
