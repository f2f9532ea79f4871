//! Coverage of points by the lines in a sequence of slots, and the cost
//! that counts the pairs of lines sharing a point.

use vstd::prelude::*;

use crate::geometry::{lemma_line_points_distinct, line_points, on_line};

verus! {

/// The number of pairs among `c` things.
pub open spec fn choose2(c: int) -> int {
    c * (c - 1) / 2
}

/// The sum of `choose2` over the first `n` coverage counts.
pub open spec fn pair_cost(counts: Seq<int>, n: int) -> int
    decreases n,
{
    if n <= 0 {
        0
    } else {
        pair_cost(counts, n - 1) + choose2(counts[n - 1])
    }
}

/// How often a slot covers the point `p`: once if it holds a line through
/// `p`, else not at all.
pub open spec fn hits(slot: Option<int>, p: int) -> int {
    match slot {
        Some(k) => if on_line(k, p) {
            1
        } else {
            0
        },
        None => 0,
    }
}

/// How many of the first `n` slots hold a line through the point `p`.
pub open spec fn coverage(slots: Seq<Option<int>>, n: int, p: int) -> int
    decreases n,
{
    if n <= 0 {
        0
    } else {
        coverage(slots, n - 1, p) + hits(slots[n - 1], p)
    }
}

/// The sum of the first `n` coverage counts.
pub open spec fn count_sum(counts: Seq<int>, n: int) -> int
    decreases n,
{
    if n <= 0 {
        0
    } else {
        count_sum(counts, n - 1) + counts[n - 1]
    }
}

/// How many of the first `n` points a slot covers.
pub open spec fn hits_sum(slot: Option<int>, n: int) -> int
    decreases n,
{
    if n <= 0 {
        0
    } else {
        hits_sum(slot, n - 1) + hits(slot, n - 1)
    }
}

/// How many of the first `n` slots hold a line.
pub open spec fn occupied(slots: Seq<Option<int>>, n: int) -> int
    decreases n,
{
    if n <= 0 {
        0
    } else {
        occupied(slots, n - 1) + (if slots[n - 1] is Some {
            1int
        } else {
            0int
        })
    }
}

/// Whether slot `i` holds a line through the point `p`.
pub open spec fn covers(slots: Seq<Option<int>>, i: int, p: int) -> bool {
    hits(slots[i], p) == 1
}

/// Whether the lines in the two slots `i < j` both go through the point `p`.
pub open spec fn clash(slots: Seq<Option<int>>, i: int, j: int, p: int) -> bool {
    i < j && covers(slots, i, p) && covers(slots, j, p)
}

/// Whether two of the first `n` slots hold lines that share a point.
pub open spec fn has_clash(slots: Seq<Option<int>>, n: int) -> bool {
    exists|i: int, j: int, p: int|
        0 <= i && j < n && 0 <= p < 81 && #[trigger] clash(slots, i, j, p)
}

/// One more thing makes as many more pairs as there were things.
pub proof fn lemma_choose2_step(c: int)
    ensures
        choose2(c + 1) == choose2(c) + c,
{
    assert((c + 1) * c == c * (c - 1) + 2 * c) by (nonlinear_arith);
}

/// Changing one count changes the cost by the difference of its pairs.
pub proof fn lemma_pair_cost_update(counts: Seq<int>, n: int, p: int, v: int)
    requires
        0 <= p < counts.len(),
        0 <= n <= counts.len(),
    ensures
        pair_cost(counts.update(p, v), n) == pair_cost(counts, n) + (if p < n {
            choose2(v) - choose2(counts[p])
        } else {
            0
        }),
    decreases n,
{
    if n > 0 {
        lemma_pair_cost_update(counts, n - 1, p, v);
    }
}

/// Counts between 0 and 27 give a cost between 0 and 351 for each point.
pub proof fn lemma_pair_cost_bound(counts: Seq<int>, n: int)
    requires
        0 <= n <= counts.len(),
        forall|p: int| 0 <= p < n ==> 0 <= #[trigger] counts[p] <= 27,
    ensures
        0 <= pair_cost(counts, n) <= 351 * n,
    decreases n,
{
    if n > 0 {
        lemma_pair_cost_bound(counts, n - 1);
        let c = counts[n - 1];
        assert(0 <= c * (c - 1) <= 702) by (nonlinear_arith)
            requires
                0 <= c <= 27,
        ;
    }
}

/// A cost of all-zero counts is zero.
pub proof fn lemma_pair_cost_zero(counts: Seq<int>, n: int)
    requires
        0 <= n <= counts.len(),
        forall|p: int| 0 <= p < n ==> #[trigger] counts[p] == 0,
    ensures
        pair_cost(counts, n) == 0,
    decreases n,
{
    if n > 0 {
        lemma_pair_cost_zero(counts, n - 1);
    }
}

/// The sum of pairs is zero exactly when no count exceeds 1.
pub proof fn lemma_pair_cost_zero_iff(counts: Seq<int>, n: int)
    requires
        0 <= n <= counts.len(),
        forall|p: int| 0 <= p < n ==> 0 <= #[trigger] counts[p],
    ensures
        pair_cost(counts, n) >= 0,
        pair_cost(counts, n) == 0 <==> forall|p: int| 0 <= p < n ==> #[trigger] counts[p] <= 1,
    decreases n,
{
    if n > 0 {
        lemma_pair_cost_zero_iff(counts, n - 1);
        let c = counts[n - 1];
        assert(c * (c - 1) >= 0 && (c >= 2 ==> c * (c - 1) >= 2) && (c <= 1 ==> c * (c - 1) == 0))
            by (nonlinear_arith)
            requires
                c >= 0,
        ;
    }
}

/// The coverage of a point lies between 0 and the number of slots counted.
pub proof fn lemma_coverage_bound(slots: Seq<Option<int>>, n: int, p: int)
    requires
        0 <= n <= slots.len(),
    ensures
        0 <= coverage(slots, n, p) <= n,
    decreases n,
{
    if n > 0 {
        lemma_coverage_bound(slots, n - 1, p);
    }
}

/// Changing one slot changes the coverage of a point by the difference of
/// what the slot covers.
pub proof fn lemma_coverage_update(
    slots: Seq<Option<int>>,
    n: int,
    idx: int,
    slot: Option<int>,
    p: int,
)
    requires
        0 <= idx < slots.len(),
        0 <= n <= slots.len(),
    ensures
        coverage(slots.update(idx, slot), n, p) == coverage(slots, n, p) + (if idx < n {
            hits(slot, p) - hits(slots[idx], p)
        } else {
            0
        }),
    decreases n,
{
    if n > 0 {
        lemma_coverage_update(slots, n - 1, idx, slot, p);
    }
}

/// Empty slots cover nothing.
pub proof fn lemma_coverage_empty(slots: Seq<Option<int>>, n: int, p: int)
    requires
        0 <= n <= slots.len(),
        forall|i: int| 0 <= i < n ==> (#[trigger] slots[i]) is None,
    ensures
        coverage(slots, n, p) == 0,
    decreases n,
{
    if n > 0 {
        lemma_coverage_empty(slots, n - 1, p);
    }
}

/// A point is covered exactly when some slot holds a line through it, and
/// covered twice or more exactly when two slots do.
pub proof fn lemma_coverage_witness(slots: Seq<Option<int>>, n: int, p: int)
    requires
        0 <= n <= slots.len(),
    ensures
        coverage(slots, n, p) >= 1 <==> exists|i: int| 0 <= i < n && #[trigger] covers(slots, i, p),
        coverage(slots, n, p) >= 2 <==> exists|i: int, j: int|
            0 <= i && j < n && #[trigger] clash(slots, i, j, p),
    decreases n,
{
    if n > 0 {
        lemma_coverage_witness(slots, n - 1, p);
        lemma_coverage_bound(slots, n - 1, p);
        let below = coverage(slots, n - 1, p);
        if below >= 1 {
            let i = choose|i: int| 0 <= i < n - 1 && #[trigger] covers(slots, i, p);
            assert(covers(slots, i, p));
            if covers(slots, n - 1, p) {
                assert(clash(slots, i, n - 1, p));
            }
        }
        if below >= 2 {
            let (i, j) = choose|i: int, j: int|
                0 <= i && j < n - 1 && #[trigger] clash(slots, i, j, p);
            assert(clash(slots, i, j, p));
        }
        if covers(slots, n - 1, p) {
            assert(0 <= n - 1 < n && covers(slots, n - 1, p));
        }
        if coverage(slots, n, p) < 1 {
            assert forall|i: int| 0 <= i < n implies !#[trigger] covers(slots, i, p) by {
                if i < n - 1 {
                    assert(!covers(slots, i, p));
                }
            }
        }
        if coverage(slots, n, p) < 2 {
            assert forall|i: int, j: int| 0 <= i && j < n implies !#[trigger] clash(
                slots,
                i,
                j,
                p,
            ) by {
                if clash(slots, i, j, p) {
                    if j < n - 1 {
                        assert(false);
                    } else {
                        assert(0 <= i < n - 1 && covers(slots, i, p));
                        assert(false);
                    }
                }
            }
        }
    }
}

/// A slot covers, among the first `n` points, those of its line's three
/// points that are below `n`.
pub proof fn lemma_hits_sum(slot: Option<int>, n: int)
    requires
        0 <= n,
        slot matches Some(k) ==> 0 <= k < 1080,
    ensures
        hits_sum(slot, n) == match slot {
            Some(k) => (if line_points(k).0 < n {
                1int
            } else {
                0int
            }) + (if line_points(k).1 < n {
                1int
            } else {
                0int
            }) + (if line_points(k).2 < n {
                1int
            } else {
                0int
            }),
            None => 0,
        },
    decreases n,
{
    if let Some(k) = slot {
        lemma_line_points_distinct(k);
    }
    if n > 0 {
        lemma_hits_sum(slot, n - 1);
    }
}

/// Counts that are all zero add up to zero.
pub proof fn lemma_count_sum_zero(counts: Seq<int>, n: int)
    requires
        0 <= n <= counts.len(),
        forall|p: int| 0 <= p < n ==> #[trigger] counts[p] == 0,
    ensures
        count_sum(counts, n) == 0,
    decreases n,
{
    if n > 0 {
        lemma_count_sum_zero(counts, n - 1);
    }
}

/// The coverage counts of the first `n` points add up to what the slots
/// cover of them, slot by slot.
pub proof fn lemma_count_sum_step(
    before: Seq<int>,
    after: Seq<int>,
    slot: Option<int>,
    n: int,
)
    requires
        0 <= n <= before.len(),
        n <= after.len(),
        forall|p: int| 0 <= p < n ==> #[trigger] after[p] == before[p] + hits(slot, p),
    ensures
        count_sum(after, n) == count_sum(before, n) + hits_sum(slot, n),
    decreases n,
{
    if n > 0 {
        lemma_count_sum_step(before, after, slot, n - 1);
    }
}

/// Counts of at most 1 add up to at most their number, and to their number
/// only if each of them is 1.
pub proof fn lemma_count_sum_ones(counts: Seq<int>, n: int)
    requires
        0 <= n <= counts.len(),
        forall|p: int| 0 <= p < n ==> #[trigger] counts[p] <= 1,
    ensures
        count_sum(counts, n) <= n,
        count_sum(counts, n) == n ==> forall|p: int| 0 <= p < n ==> #[trigger] counts[p] == 1,
    decreases n,
{
    if n > 0 {
        lemma_count_sum_ones(counts, n - 1);
    }
}

/// With every slot filled, each slot counts as occupied.
pub proof fn lemma_occupied_full(slots: Seq<Option<int>>, n: int)
    requires
        0 <= n <= slots.len(),
        forall|i: int| 0 <= i < n ==> (#[trigger] slots[i]) is Some,
    ensures
        occupied(slots, n) == n,
    decreases n,
{
    if n > 0 {
        lemma_occupied_full(slots, n - 1);
    }
}

/// The coverage counts of all points add up to three for each of the first
/// `m` slots that holds a line.
pub proof fn lemma_coverage_total(slots: Seq<Option<int>>, m: int)
    requires
        0 <= m <= slots.len(),
        forall|i: int| 0 <= i < m ==> ((#[trigger] slots[i]) matches Some(k) ==> 0 <= k < 1080),
    ensures
        count_sum(Seq::new(81, |p: int| coverage(slots, m, p)), 81) == 3 * occupied(slots, m),
    decreases m,
{
    let after = Seq::new(81, |p: int| coverage(slots, m, p));
    if m > 0 {
        let before = Seq::new(81, |p: int| coverage(slots, m - 1, p));
        lemma_coverage_total(slots, m - 1);
        lemma_count_sum_step(before, after, slots[m - 1], 81);
        lemma_hits_sum(slots[m - 1], 81);
        if let Some(k) = slots[m - 1] {
            lemma_line_points_distinct(k);
        }
    } else {
        lemma_count_sum_zero(after, 81);
    }
}

} // verus!
