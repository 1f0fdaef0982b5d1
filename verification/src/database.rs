//! The outcome store: recorded round outcomes keyed by the four players'
//! permutation indices, with batched counting over index ranges or explicit
//! index lists.

use core::ops::Range;
use std::collections::HashMap;
use vstd::prelude::*;

use crate::{GameResult, slot_of, result_slot};

verus! {

use vstd::arithmetic::mul::lemma_mul_inequality;

broadcast use vstd::std_specs::hash::group_hash_axioms;

/// The packed store key for one combination of four permutation indices,
/// mixed-radix with base 120 per seat.
pub open spec fn combo_key(p1: usize, p2: usize, p3: usize, p4: usize) -> int {
    ((p1 * 120 + p2) * 120 + p3) * 120 + p4
}

/// Keys of distinct index combinations never collide.
pub proof fn lemma_combo_key_injective(
    a1: usize, b1: usize, c1: usize, d1: usize,
    a2: usize, b2: usize, c2: usize, d2: usize,
)
    requires
        a1 < 120 && b1 < 120 && c1 < 120 && d1 < 120,
        a2 < 120 && b2 < 120 && c2 < 120 && d2 < 120,
        combo_key(a1, b1, c1, d1) == combo_key(a2, b2, c2, d2),
    ensures
        a1 == a2 && b1 == b2 && c1 == c2 && d1 == d2,
{
}

/// What the store answers for a key: the recorded outcome, or `NotPlayed`
/// where nothing was recorded.
pub open spec fn stored_result(m: Map<u32, GameResult>, key: u32) -> GameResult {
    if m.contains_key(key) {
        m[key]
    } else {
        GameResult::NotPlayed
    }
}

/// The store's answer for one combination of four permutation indices.
pub open spec fn entry_for(
    m: Map<u32, GameResult>,
    p1: usize, p2: usize, p3: usize, p4: usize,
) -> GameResult {
    stored_result(m, combo_key(p1, p2, p3, p4) as u32)
}

/// The indices of a half-open range, in order, as a sequence.
pub open spec fn range_seq(s: usize, e: usize) -> Seq<usize> {
    Seq::new(if e >= s { (e - s) as nat } else { 0 }, |k: int| (s + k) as usize)
}

/// How many entries over `{p1} x {p2} x {p3} x l4` read as `r`.
pub open spec fn count1(
    m: Map<u32, GameResult>,
    p1: usize, p2: usize, p3: usize,
    l4: Seq<usize>,
    r: GameResult,
) -> nat
    decreases l4.len(),
{
    if l4.len() == 0 {
        0
    } else {
        count1(m, p1, p2, p3, l4.drop_last(), r) + if entry_for(m, p1, p2, p3, l4.last()) == r {
            1nat
        } else {
            0nat
        }
    }
}

/// How many entries over `{p1} x {p2} x l3 x l4` read as `r`.
pub open spec fn count2(
    m: Map<u32, GameResult>,
    p1: usize, p2: usize,
    l3: Seq<usize>, l4: Seq<usize>,
    r: GameResult,
) -> nat
    decreases l3.len(),
{
    if l3.len() == 0 {
        0
    } else {
        count2(m, p1, p2, l3.drop_last(), l4, r) + count1(m, p1, p2, l3.last(), l4, r)
    }
}

/// How many entries over `{p1} x l2 x l3 x l4` read as `r`.
pub open spec fn count3(
    m: Map<u32, GameResult>,
    p1: usize,
    l2: Seq<usize>, l3: Seq<usize>, l4: Seq<usize>,
    r: GameResult,
) -> nat
    decreases l2.len(),
{
    if l2.len() == 0 {
        0
    } else {
        count3(m, p1, l2.drop_last(), l3, l4, r) + count2(m, p1, l2.last(), l3, l4, r)
    }
}

/// How many entries over the full cross product `l1 x l2 x l3 x l4` read as `r`.
pub open spec fn count4(
    m: Map<u32, GameResult>,
    l1: Seq<usize>, l2: Seq<usize>, l3: Seq<usize>, l4: Seq<usize>,
    r: GameResult,
) -> nat
    decreases l1.len(),
{
    if l1.len() == 0 {
        0
    } else {
        count4(m, l1.drop_last(), l2, l3, l4, r) + count3(m, l1.last(), l2, l3, l4, r)
    }
}

proof fn lemma_count1_bound(
    m: Map<u32, GameResult>,
    p1: usize, p2: usize, p3: usize,
    l4: Seq<usize>,
    r: GameResult,
)
    ensures
        count1(m, p1, p2, p3, l4, r) <= l4.len(),
    decreases l4.len(),
{
    if l4.len() > 0 {
        lemma_count1_bound(m, p1, p2, p3, l4.drop_last(), r);
    }
}

proof fn lemma_count2_bound(
    m: Map<u32, GameResult>,
    p1: usize, p2: usize,
    l3: Seq<usize>, l4: Seq<usize>,
    r: GameResult,
)
    requires
        l4.len() <= 120,
    ensures
        count2(m, p1, p2, l3, l4, r) <= l3.len() * 120,
    decreases l3.len(),
{
    if l3.len() > 0 {
        lemma_count2_bound(m, p1, p2, l3.drop_last(), l4, r);
        lemma_count1_bound(m, p1, p2, l3.last(), l4, r);
    }
}

proof fn lemma_count3_bound(
    m: Map<u32, GameResult>,
    p1: usize,
    l2: Seq<usize>, l3: Seq<usize>, l4: Seq<usize>,
    r: GameResult,
)
    requires
        l3.len() <= 120,
        l4.len() <= 120,
    ensures
        count3(m, p1, l2, l3, l4, r) <= l2.len() * 14400,
    decreases l2.len(),
{
    if l2.len() > 0 {
        lemma_count3_bound(m, p1, l2.drop_last(), l3, l4, r);
        lemma_count2_bound(m, p1, l2.last(), l3, l4, r);
    }
}

proof fn lemma_count4_bound(
    m: Map<u32, GameResult>,
    l1: Seq<usize>, l2: Seq<usize>, l3: Seq<usize>, l4: Seq<usize>,
    r: GameResult,
)
    requires
        l2.len() <= 120,
        l3.len() <= 120,
        l4.len() <= 120,
    ensures
        count4(m, l1, l2, l3, l4, r) <= l1.len() * 1728000,
    decreases l1.len(),
{
    if l1.len() > 0 {
        lemma_count4_bound(m, l1.drop_last(), l2, l3, l4, r);
        lemma_count3_bound(m, l1.last(), l2, l3, l4, r);
    }
}

/// Every entry reads as exactly one outcome kind, so over any lists the four
/// per-kind counts sum to the number of combinations.
pub proof fn lemma_counts_total(
    m: Map<u32, GameResult>,
    l1: Seq<usize>, l2: Seq<usize>, l3: Seq<usize>, l4: Seq<usize>,
)
    ensures
        count4(m, l1, l2, l3, l4, GameResult::NotPlayed) + count4(
            m, l1, l2, l3, l4, GameResult::Team1Win,
        ) + count4(m, l1, l2, l3, l4, GameResult::Team2Win) + count4(
            m, l1, l2, l3, l4, GameResult::RuleViolation,
        ) == l1.len() * l2.len() * l3.len() * l4.len(),
    decreases l1.len(),
{
    if l1.len() == 0 {
        assert(l1.len() * l2.len() * l3.len() * l4.len() == 0) by (nonlinear_arith)
            requires
                l1.len() == 0,
        ;
    } else {
        lemma_counts_total(m, l1.drop_last(), l2, l3, l4);
        lemma_counts_total3(m, l1.last(), l2, l3, l4);
        assert(l1.drop_last().len() * l2.len() * l3.len() * l4.len() + l2.len() * l3.len()
            * l4.len() == l1.len() * l2.len() * l3.len() * l4.len()) by (nonlinear_arith)
            requires
                l1.len() >= 1,
                l1.drop_last().len() == l1.len() - 1,
        ;
    }
}

proof fn lemma_counts_total3(
    m: Map<u32, GameResult>,
    p1: usize,
    l2: Seq<usize>, l3: Seq<usize>, l4: Seq<usize>,
)
    ensures
        count3(m, p1, l2, l3, l4, GameResult::NotPlayed) + count3(
            m, p1, l2, l3, l4, GameResult::Team1Win,
        ) + count3(m, p1, l2, l3, l4, GameResult::Team2Win) + count3(
            m, p1, l2, l3, l4, GameResult::RuleViolation,
        ) == l2.len() * l3.len() * l4.len(),
    decreases l2.len(),
{
    if l2.len() == 0 {
        assert(l2.len() * l3.len() * l4.len() == 0) by (nonlinear_arith)
            requires
                l2.len() == 0,
        ;
    } else {
        lemma_counts_total3(m, p1, l2.drop_last(), l3, l4);
        lemma_counts_total2(m, p1, l2.last(), l3, l4);
        assert(l2.drop_last().len() * l3.len() * l4.len() + l3.len() * l4.len() == l2.len()
            * l3.len() * l4.len()) by (nonlinear_arith)
            requires
                l2.len() >= 1,
                l2.drop_last().len() == l2.len() - 1,
        ;
    }
}

proof fn lemma_counts_total2(
    m: Map<u32, GameResult>,
    p1: usize, p2: usize,
    l3: Seq<usize>, l4: Seq<usize>,
)
    ensures
        count2(m, p1, p2, l3, l4, GameResult::NotPlayed) + count2(
            m, p1, p2, l3, l4, GameResult::Team1Win,
        ) + count2(m, p1, p2, l3, l4, GameResult::Team2Win) + count2(
            m, p1, p2, l3, l4, GameResult::RuleViolation,
        ) == l3.len() * l4.len(),
    decreases l3.len(),
{
    if l3.len() == 0 {
        assert(l3.len() * l4.len() == 0) by (nonlinear_arith)
            requires
                l3.len() == 0,
        ;
    } else {
        lemma_counts_total2(m, p1, p2, l3.drop_last(), l4);
        lemma_counts_total1(m, p1, p2, l3.last(), l4);
        assert(l3.drop_last().len() * l4.len() + l4.len() == l3.len() * l4.len())
            by (nonlinear_arith)
            requires
                l3.len() >= 1,
                l3.drop_last().len() == l3.len() - 1,
        ;
    }
}

proof fn lemma_counts_total1(
    m: Map<u32, GameResult>,
    p1: usize, p2: usize, p3: usize,
    l4: Seq<usize>,
)
    ensures
        count1(m, p1, p2, p3, l4, GameResult::NotPlayed) + count1(
            m, p1, p2, p3, l4, GameResult::Team1Win,
        ) + count1(m, p1, p2, p3, l4, GameResult::Team2Win) + count1(
            m, p1, p2, p3, l4, GameResult::RuleViolation,
        ) == l4.len(),
    decreases l4.len(),
{
    if l4.len() > 0 {
        lemma_counts_total1(m, p1, p2, p3, l4.drop_last());
    }
}

/// An outcome kind that no listed combination reads as is counted zero times.
pub proof fn lemma_count_zero(
    m: Map<u32, GameResult>,
    l1: Seq<usize>, l2: Seq<usize>, l3: Seq<usize>, l4: Seq<usize>,
    r: GameResult,
)
    requires
        forall|ka: int, kb: int, kc: int, kd: int|
            #![trigger l1[ka], l2[kb], l3[kc], l4[kd]]
            0 <= ka < l1.len() && 0 <= kb < l2.len() && 0 <= kc < l3.len() && 0 <= kd < l4.len()
                ==> entry_for(m, l1[ka], l2[kb], l3[kc], l4[kd]) != r,
    ensures
        count4(m, l1, l2, l3, l4, r) == 0,
    decreases l1.len(),
{
    if l1.len() > 0 {
        assert(forall|k: int| 0 <= k < l1.len() - 1 ==> l1.drop_last()[k] == l1[k]);
        lemma_count_zero(m, l1.drop_last(), l2, l3, l4, r);
        lemma_count_zero3(m, l1.last(), l2, l3, l4, r);
    }
}

proof fn lemma_count_zero3(
    m: Map<u32, GameResult>,
    p1: usize,
    l2: Seq<usize>, l3: Seq<usize>, l4: Seq<usize>,
    r: GameResult,
)
    requires
        forall|kb: int, kc: int, kd: int|
            #![trigger l2[kb], l3[kc], l4[kd]]
            0 <= kb < l2.len() && 0 <= kc < l3.len() && 0 <= kd < l4.len() ==> entry_for(
                m, p1, l2[kb], l3[kc], l4[kd],
            ) != r,
    ensures
        count3(m, p1, l2, l3, l4, r) == 0,
    decreases l2.len(),
{
    if l2.len() > 0 {
        assert(forall|k: int| 0 <= k < l2.len() - 1 ==> l2.drop_last()[k] == l2[k]);
        lemma_count_zero3(m, p1, l2.drop_last(), l3, l4, r);
        lemma_count_zero2(m, p1, l2.last(), l3, l4, r);
    }
}

proof fn lemma_count_zero2(
    m: Map<u32, GameResult>,
    p1: usize, p2: usize,
    l3: Seq<usize>, l4: Seq<usize>,
    r: GameResult,
)
    requires
        forall|kc: int, kd: int|
            #![trigger l3[kc], l4[kd]]
            0 <= kc < l3.len() && 0 <= kd < l4.len() ==> entry_for(m, p1, p2, l3[kc], l4[kd]) != r,
    ensures
        count2(m, p1, p2, l3, l4, r) == 0,
    decreases l3.len(),
{
    if l3.len() > 0 {
        assert(forall|k: int| 0 <= k < l3.len() - 1 ==> l3.drop_last()[k] == l3[k]);
        lemma_count_zero2(m, p1, p2, l3.drop_last(), l4, r);
        lemma_count_zero1(m, p1, p2, l3.last(), l4, r);
    }
}

proof fn lemma_count_zero1(
    m: Map<u32, GameResult>,
    p1: usize, p2: usize, p3: usize,
    l4: Seq<usize>,
    r: GameResult,
)
    requires
        forall|kd: int|
            0 <= kd < l4.len() ==> entry_for(m, p1, p2, p3, #[trigger] l4[kd]) != r,
    ensures
        count1(m, p1, p2, p3, l4, r) == 0,
    decreases l4.len(),
{
    if l4.len() > 0 {
        assert(forall|k: int| 0 <= k < l4.len() - 1 ==> l4.drop_last()[k] == l4[k]);
        lemma_count_zero1(m, p1, p2, p3, l4.drop_last(), r);
        assert(l4.last() == l4[l4.len() - 1]);
    }
}

/// Pack four permutation indices into one store key.
pub(crate) fn pack_key(p1: usize, p2: usize, p3: usize, p4: usize) -> (k: u32)
    requires
        p1 < 120 && p2 < 120 && p3 < 120 && p4 < 120,
    ensures
        k == combo_key(p1, p2, p3, p4) as u32,
        combo_key(p1, p2, p3, p4) < 207360000,
{
    ((((p1 * 120 + p2) * 120 + p3) * 120 + p4) as u32)
}

/// Count, over all combinations drawn from the four index lists, how many
/// entries of the map read as each outcome kind.
pub(crate) fn count_in_lists_map(
    results: &HashMap<u32, GameResult>,
    l1: &[usize], l2: &[usize], l3: &[usize], l4: &[usize],
) -> (counts: [u32; 4])
    requires
        l1@.len() <= 120 && forall|k: int| 0 <= k < l1@.len() ==> l1@[k] < 120,
        l2@.len() <= 120 && forall|k: int| 0 <= k < l2@.len() ==> l2@[k] < 120,
        l3@.len() <= 120 && forall|k: int| 0 <= k < l3@.len() ==> l3@[k] < 120,
        l4@.len() <= 120 && forall|k: int| 0 <= k < l4@.len() ==> l4@[k] < 120,
    ensures
        forall|r: GameResult| #[trigger] counts@[slot_of(r)] == count4(
            results@, l1@, l2@, l3@, l4@, r,
        ),
{
    let mut counts: [u32; 4] = [0, 0, 0, 0];
    proof {
        assert(l1@.subrange(0, 0) =~= Seq::<usize>::empty());
    }
    let n1 = l1.len();
    for a in 0..n1
        invariant
            n1 == l1@.len(),
            l1@.len() <= 120 && (forall|k: int| 0 <= k < l1@.len() ==> l1@[k] < 120),
            l2@.len() <= 120 && (forall|k: int| 0 <= k < l2@.len() ==> l2@[k] < 120),
            l3@.len() <= 120 && (forall|k: int| 0 <= k < l3@.len() ==> l3@[k] < 120),
            l4@.len() <= 120 && (forall|k: int| 0 <= k < l4@.len() ==> l4@[k] < 120),
            counts@.len() == 4,
            forall|r: GameResult| #[trigger] counts@[slot_of(r)] == count4(
                results@, l1@.subrange(0, a as int), l2@, l3@, l4@, r,
            ),
    {
        let i1 = l1[a];
        let ghost pre1 = l1@.subrange(0, a as int);
        proof {
            assert(l2@.subrange(0, 0) =~= Seq::<usize>::empty());
        }
        let n2 = l2.len();
        for b in 0..n2
            invariant
                n2 == l2@.len(),
                a < l1@.len() && i1 == l1@[a as int] && pre1 == l1@.subrange(0, a as int),
                l1@.len() <= 120 && (forall|k: int| 0 <= k < l1@.len() ==> l1@[k] < 120),
                l2@.len() <= 120 && (forall|k: int| 0 <= k < l2@.len() ==> l2@[k] < 120),
                l3@.len() <= 120 && (forall|k: int| 0 <= k < l3@.len() ==> l3@[k] < 120),
                l4@.len() <= 120 && (forall|k: int| 0 <= k < l4@.len() ==> l4@[k] < 120),
                counts@.len() == 4,
                forall|r: GameResult| #[trigger] counts@[slot_of(r)] == count4(
                    results@, pre1, l2@, l3@, l4@, r,
                ) + count3(results@, i1, l2@.subrange(0, b as int), l3@, l4@, r),
        {
            let i2 = l2[b];
            let ghost pre2 = l2@.subrange(0, b as int);
            proof {
                assert(l3@.subrange(0, 0) =~= Seq::<usize>::empty());
            }
            let n3 = l3.len();
            for c in 0..n3
                invariant
                    n3 == l3@.len(),
                    a < l1@.len() && i1 == l1@[a as int] && pre1 == l1@.subrange(0, a as int),
                    b < l2@.len() && i2 == l2@[b as int] && pre2 == l2@.subrange(0, b as int),
                    l1@.len() <= 120 && (forall|k: int| 0 <= k < l1@.len() ==> l1@[k] < 120),
                    l2@.len() <= 120 && (forall|k: int| 0 <= k < l2@.len() ==> l2@[k] < 120),
                    l3@.len() <= 120 && (forall|k: int| 0 <= k < l3@.len() ==> l3@[k] < 120),
                    l4@.len() <= 120 && (forall|k: int| 0 <= k < l4@.len() ==> l4@[k] < 120),
                    counts@.len() == 4,
                    forall|r: GameResult| #[trigger] counts@[slot_of(r)] == count4(
                        results@, pre1, l2@, l3@, l4@, r,
                    ) + count3(results@, i1, pre2, l3@, l4@, r) + count2(
                        results@, i1, i2, l3@.subrange(0, c as int), l4@, r,
                    ),
            {
                let i3 = l3[c];
                let ghost pre3 = l3@.subrange(0, c as int);
                proof {
                    assert(l4@.subrange(0, 0) =~= Seq::<usize>::empty());
                }
                let n4 = l4.len();
                for d in 0..n4
                    invariant
                        n4 == l4@.len(),
                        a < l1@.len() && i1 == l1@[a as int] && pre1 == l1@.subrange(0, a as int),
                        b < l2@.len() && i2 == l2@[b as int] && pre2 == l2@.subrange(0, b as int),
                        c < l3@.len() && i3 == l3@[c as int] && pre3 == l3@.subrange(0, c as int),
                        l1@.len() <= 120 && (forall|k: int| 0 <= k < l1@.len() ==> l1@[k] < 120),
                        l2@.len() <= 120 && (forall|k: int| 0 <= k < l2@.len() ==> l2@[k] < 120),
                        l3@.len() <= 120 && (forall|k: int| 0 <= k < l3@.len() ==> l3@[k] < 120),
                        l4@.len() <= 120 && (forall|k: int| 0 <= k < l4@.len() ==> l4@[k] < 120),
                        counts@.len() == 4,
                        forall|r: GameResult| #[trigger] counts@[slot_of(r)] == count4(
                            results@, pre1, l2@, l3@, l4@, r,
                        ) + count3(results@, i1, pre2, l3@, l4@, r) + count2(
                            results@, i1, i2, pre3, l4@, r,
                        ) + count1(results@, i1, i2, i3, l4@.subrange(0, d as int), r),
                {
                    let i4 = l4[d];
                    let key = pack_key(i1, i2, i3, i4);
                    let entry = match results.get(&key) {
                        Some(r) => *r,
                        None => GameResult::NotPlayed,
                    };
                    proof {
                        assert(entry == entry_for(results@, i1, i2, i3, i4));
                        lemma_count4_bound(results@, pre1, l2@, l3@, l4@, entry);
                        lemma_count3_bound(results@, i1, pre2, l3@, l4@, entry);
                        lemma_count2_bound(results@, i1, i2, pre3, l4@, entry);
                        lemma_count1_bound(
                            results@, i1, i2, i3, l4@.subrange(0, d as int), entry,
                        );
                        lemma_mul_inequality(pre1.len() as int, 120, 1728000);
                        lemma_mul_inequality(pre2.len() as int, 120, 14400);
                        lemma_mul_inequality(pre3.len() as int, 120, 120);
                    }
                    let slot = result_slot(entry);
                    counts[slot] = counts[slot] + 1;
                    proof {
                        let sub = l4@.subrange(0, d as int);
                        let sub2 = l4@.subrange(0, d + 1);
                        assert(sub2.drop_last() =~= sub);
                        assert(sub2.last() == l4@[d as int]);
                        assert forall|r: GameResult| #[trigger] counts@[slot_of(r)] == count4(
                            results@, pre1, l2@, l3@, l4@, r,
                        ) + count3(results@, i1, pre2, l3@, l4@, r) + count2(
                            results@, i1, i2, pre3, l4@, r,
                        ) + count1(results@, i1, i2, i3, sub2, r) by {
                            if r == entry {
                                assert(count1(results@, i1, i2, i3, sub2, r) == count1(
                                    results@, i1, i2, i3, sub, r,
                                ) + 1);
                            } else {
                                assert(slot_of(r) != slot_of(entry));
                                assert(count1(results@, i1, i2, i3, sub2, r) == count1(
                                    results@, i1, i2, i3, sub, r,
                                ));
                            }
                        }
                    }
                }
                proof {
                    assert(l4@.subrange(0, l4@.len() as int) =~= l4@);
                    let sub3 = l3@.subrange(0, c + 1);
                    assert(sub3.drop_last() =~= pre3);
                    assert(sub3.last() == l3@[c as int]);
                }
            }
            proof {
                assert(l3@.subrange(0, l3@.len() as int) =~= l3@);
                let sub2 = l2@.subrange(0, b + 1);
                assert(sub2.drop_last() =~= pre2);
                assert(sub2.last() == l2@[b as int]);
            }
        }
        proof {
            assert(l2@.subrange(0, l2@.len() as int) =~= l2@);
            let sub1 = l1@.subrange(0, a + 1);
            assert(sub1.drop_last() =~= pre1);
            assert(sub1.last() == l1@[a as int]);
        }
    }
    proof {
        assert(l1@.subrange(0, l1@.len() as int) =~= l1@);
    }
    counts
}

/// Materialize a half-open index range as an explicit list.
pub(crate) fn range_to_vec(s: usize, e: usize) -> (v: Vec<usize>)
    requires
        e <= 120,
    ensures
        v@ == range_seq(s, e),
        v@.len() <= 120,
        forall|k: int| 0 <= k < v@.len() ==> v@[k] < 120,
{
    let mut v: Vec<usize> = Vec::new();
    if s >= e {
        proof {
            assert(v@ =~= range_seq(s, e));
        }
        return v;
    }
    let mut i = s;
    while i < e
        invariant
            s <= i <= e <= 120,
            v@.len() == i - s,
            forall|k: int| 0 <= k < v@.len() ==> v@[k] == s + k,
        decreases e - i,
    {
        v.push(i);
        i = i + 1;
    }
    proof {
        assert(v@ =~= range_seq(s, e));
    }
    v
}

/// Capability interface of the outcome store: record an outcome for a
/// combination of permutation indices, read one back, and count outcomes in
/// bulk over ranges or lists of indices. Implementations can be swapped in;
/// `InMemoryGameDatabase` is the one used in play.
pub trait GameDatabase: Sized {
    /// The recorded outcomes, keyed by packed index key.
    spec fn stored(&self) -> Map<u32, GameResult>;

    /// Forget every recorded outcome.
    fn clear(&mut self)
        ensures
            final(self).stored() == Map::<u32, GameResult>::empty(),
    ;

    /// Record the outcome for one combination of permutation indices.
    fn set(&mut self, p1: usize, p2: usize, p3: usize, p4: usize, result: GameResult)
        requires
            p1 < 120 && p2 < 120 && p3 < 120 && p4 < 120,
        ensures
            final(self).stored() == old(self).stored().insert(
                combo_key(p1, p2, p3, p4) as u32,
                result,
            ),
    ;

    /// Read the outcome recorded for one combination; `NotPlayed` if none.
    fn get(&self, p1: usize, p2: usize, p3: usize, p4: usize) -> (r: GameResult)
        requires
            p1 < 120 && p2 < 120 && p3 < 120 && p4 < 120,
        ensures
            r == entry_for(self.stored(), p1, p2, p3, p4),
    ;

    /// Count the recorded outcomes of every kind over all combinations drawn
    /// from four index ranges.
    fn counts_in_ranges(
        &self,
        p1: Range<usize>, p2: Range<usize>, p3: Range<usize>, p4: Range<usize>,
    ) -> (counts: [u32; 4])
        requires
            p1.end <= 120 && p2.end <= 120 && p3.end <= 120 && p4.end <= 120,
        ensures
            forall|r: GameResult| #[trigger] counts@[slot_of(r)] == count4(
                self.stored(),
                range_seq(p1.start, p1.end),
                range_seq(p2.start, p2.end),
                range_seq(p3.start, p3.end),
                range_seq(p4.start, p4.end),
                r,
            ),
    ;

    /// Count the recorded outcomes of every kind over all combinations drawn
    /// from four explicit index lists.
    fn counts_in_lists(&self, l1: &[usize], l2: &[usize], l3: &[usize], l4: &[usize]) -> (counts:
        [u32; 4])
        requires
            l1@.len() <= 120 && forall|k: int| 0 <= k < l1@.len() ==> l1@[k] < 120,
            l2@.len() <= 120 && forall|k: int| 0 <= k < l2@.len() ==> l2@[k] < 120,
            l3@.len() <= 120 && forall|k: int| 0 <= k < l3@.len() ==> l3@[k] < 120,
            l4@.len() <= 120 && forall|k: int| 0 <= k < l4@.len() ==> l4@[k] < 120,
        ensures
            forall|r: GameResult| #[trigger] counts@[slot_of(r)] == count4(
                self.stored(), l1@, l2@, l3@, l4@, r,
            ),
    ;
}

/// In-memory implementation of [`GameDatabase`], backed by a hash map.
pub struct InMemoryGameDatabase {
    results: HashMap<u32, GameResult>,
}

impl InMemoryGameDatabase {
    pub fn new() -> (db: Self)
        ensures
            db.stored() == Map::<u32, GameResult>::empty(),
    {
        Self { results: HashMap::new() }
    }
}

impl GameDatabase for InMemoryGameDatabase {
    closed spec fn stored(&self) -> Map<u32, GameResult> {
        self.results@
    }

    fn clear(&mut self) {
        self.results = HashMap::new();
    }

    fn set(&mut self, p1: usize, p2: usize, p3: usize, p4: usize, result: GameResult) {
        let idx = pack_key(p1, p2, p3, p4);
        self.results.insert(idx, result);
    }

    fn get(&self, p1: usize, p2: usize, p3: usize, p4: usize) -> (r: GameResult) {
        let idx = pack_key(p1, p2, p3, p4);
        match self.results.get(&idx) {
            Some(r) => *r,
            None => GameResult::NotPlayed,
        }
    }

    fn counts_in_ranges(
        &self,
        p1: Range<usize>, p2: Range<usize>, p3: Range<usize>, p4: Range<usize>,
    ) -> (counts: [u32; 4]) {
        let l1 = range_to_vec(p1.start, p1.end);
        let l2 = range_to_vec(p2.start, p2.end);
        let l3 = range_to_vec(p3.start, p3.end);
        let l4 = range_to_vec(p4.start, p4.end);
        count_in_lists_map(
            &self.results,
            l1.as_slice(),
            l2.as_slice(),
            l3.as_slice(),
            l4.as_slice(),
        )
    }

    fn counts_in_lists(&self, l1: &[usize], l2: &[usize], l3: &[usize], l4: &[usize]) -> (counts:
        [u32; 4]) {
        count_in_lists_map(&self.results, l1, l2, l3, l4)
    }
}

} // verus!
