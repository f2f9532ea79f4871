//! A candidate assignment of lines to 27 slots, with the coverage count of
//! every point and the violation cost kept current under each change.

use rand::rngs::StdRng;
use vstd::prelude::*;

use crate::coverage::{
    clash, count_sum, coverage, has_clash, hits, lemma_choose2_step, lemma_count_sum_ones,
    lemma_coverage_bound, lemma_coverage_empty, lemma_coverage_total, lemma_coverage_update,
    lemma_coverage_witness, lemma_occupied_full, lemma_pair_cost_bound, lemma_pair_cost_update,
    lemma_pair_cost_zero, lemma_pair_cost_zero_iff, occupied, pair_cost,
};
use crate::geometry::{lemma_line_points_distinct, line_points, GeometryTable, Line, Point, NUM_LINES};
use crate::random::{random_below, random_line};
use crate::space::NUM_POINTS;

verus! {

/// Number of slots of a partition.
pub const PARTITION_SIZE: usize = 27;

/// The mathematical content of a partition state.
pub struct PartitionView {
    /// For each slot the index of its line, if it holds one.
    pub slots: Seq<Option<int>>,
    /// For each point the number of assigned lines through it.
    pub counts: Seq<int>,
    /// The violation cost.
    pub cost: int,
}

impl PartitionView {
    /// The state with every slot empty.
    pub open spec fn empty() -> PartitionView {
        PartitionView {
            slots: Seq::new(27, |i: int| None::<int>),
            counts: Seq::new(81, |p: int| 0int),
            cost: 0,
        }
    }

    /// The state is consistent: 27 slots that hold lines of the catalogue or
    /// nothing, for each point its coverage by the slots, and as cost the
    /// number of pairs of assigned lines that share a point, summed over the
    /// points.
    pub open spec fn wf(self) -> bool {
        &&& self.slots.len() == 27
        &&& forall|i: int|
            0 <= i < 27 ==> ((#[trigger] self.slots[i]) matches Some(k) ==> 0 <= k < 1080)
        &&& self.counts.len() == 81
        &&& forall|p: int| 0 <= p < 81 ==> #[trigger] self.counts[p] == coverage(self.slots, 27, p)
        &&& self.cost == pair_cost(self.counts, 81)
    }

    /// Whether every slot holds a line.
    pub open spec fn full(self) -> bool {
        forall|i: int| 0 <= i < 27 ==> (#[trigger] self.slots[i]) is Some
    }

    /// The sum of the coverage counts of the three points of line `k`: the
    /// rise in cost if the line were put into an empty slot.
    pub open spec fn probe(self, k: int) -> int {
        self.counts[line_points(k).0] + self.counts[line_points(k).1] + self.counts[line_points(
            k,
        ).2]
    }

    /// The state after line `k` is put into the empty slot `idx`.
    pub open spec fn with_line(self, idx: int, k: int) -> PartitionView {
        PartitionView {
            slots: self.slots.update(idx, Some(k)),
            counts: Seq::new(81, |p: int| self.counts[p] + hits(Some(k), p)),
            cost: self.cost + self.probe(k),
        }
    }

    /// The state after the line in slot `idx` is taken out.
    pub open spec fn without(self, idx: int) -> PartitionView {
        PartitionView {
            slots: self.slots.update(idx, None),
            counts: Seq::new(81, |p: int| self.counts[p] - hits(self.slots[idx], p)),
            cost: self.cost - (self.probe(self.slots[idx].unwrap()) - 3),
        }
    }
}

/// The index of the line in a slot, if it holds one.
pub open spec fn slot_view(slot: Option<Line>) -> Option<int> {
    match slot {
        Some(line) => Some(line.0 as int),
        None => None,
    }
}

/// One candidate assignment of lines to the 27 slots.
pub struct Partition {
    slots: Vec<Option<Line>>,
    point_count: Vec<i32>,
    cost: i32,
}

impl View for Partition {
    type V = PartitionView;

    closed spec fn view(&self) -> PartitionView {
        PartitionView {
            slots: Seq::new(self.slots@.len(), |i: int| slot_view(self.slots@[i])),
            counts: Seq::new(self.point_count@.len(), |p: int| self.point_count@[p] as int),
            cost: self.cost as int,
        }
    }
}

/// Adds one to the count of point `p` and returns the count it had.
fn raise(counts: &mut Vec<i32>, p: usize) -> (c: i32)
    requires
        p < old(counts)@.len(),
        old(counts)@[p as int] < i32::MAX,
    ensures
        c == old(counts)@[p as int],
        final(counts)@ == old(counts)@.update(p as int, (c + 1) as i32),
{
    let c = counts[p];
    counts.set(p, c + 1);
    c
}

/// Takes one from the count of point `p` and returns the count it has then.
fn lower(counts: &mut Vec<i32>, p: usize) -> (c: i32)
    requires
        p < old(counts)@.len(),
        old(counts)@[p as int] > i32::MIN,
    ensures
        c == old(counts)@[p as int] - 1,
        final(counts)@ == old(counts)@.update(p as int, c),
{
    let c = counts[p] - 1;
    counts.set(p, c);
    c
}

impl Partition {
    /// A partition with every slot empty: every coverage count and the cost
    /// are 0.
    pub fn new() -> (partition: Partition)
        ensures
            partition@ == PartitionView::empty(),
            partition@.wf(),
            partition@.cost == 0,
            forall|p: int| 0 <= p < 81 ==> partition@.counts[p] == 0,
    {
        let mut slots: Vec<Option<Line>> = Vec::new();
        let mut i: usize = 0;
        while i < PARTITION_SIZE
            invariant
                i <= 27,
                slots@.len() == i,
                forall|j: int| 0 <= j < i ==> (#[trigger] slots@[j]) is None,
            decreases 27 - i,
        {
            slots.push(None);
            i += 1;
        }
        let mut point_count: Vec<i32> = Vec::new();
        let mut p: usize = 0;
        while p < NUM_POINTS
            invariant
                p <= 81,
                point_count@.len() == p,
                forall|j: int| 0 <= j < p ==> (#[trigger] point_count@[j]) == 0,
            decreases 81 - p,
        {
            point_count.push(0);
            p += 1;
        }
        let partition = Partition { slots, point_count, cost: 0 };
        proof {
            assert(partition@.slots =~= PartitionView::empty().slots);
            assert(partition@.counts =~= PartitionView::empty().counts);
            lemma_pair_cost_zero(partition@.counts, 81);
            assert forall|q: int| 0 <= q < 81 implies #[trigger] partition@.counts[q] == coverage(
                partition@.slots,
                27,
                q,
            ) by {
                lemma_coverage_empty(partition@.slots, 27, q);
            }
        }
        partition
    }

    /// The violation cost. In a consistent state it is the number of pairs
    /// of assigned lines that share a point, summed over the points.
    pub fn cost(&self) -> (c: i32)
        ensures
            c == self@.cost,
            self@.wf() ==> c == pair_cost(self@.counts, 81),
    {
        self.cost
    }

    /// The coverage count of a point.
    pub fn count(&self, point: Point) -> (c: &i32)
        requires
            self@.wf(),
            point.0 < 81,
        ensures
            *c == self@.counts[point.0 as int],
    {
        &self.point_count[point.0]
    }

    /// The line in slot `idx`, if it holds one.
    pub fn line_in(&self, idx: usize) -> (slot: Option<Line>)
        requires
            self@.wf(),
            idx < 27,
        ensures
            slot_view(slot) == self@.slots[idx as int],
    {
        self.slots[idx]
    }

    /// Puts `line` into the empty slot `idx` and returns the rise in cost:
    /// the sum of the coverage counts that the line's three points had.
    pub fn set(&mut self, table: &GeometryTable, idx: usize, line: Line) -> (delta: i32)
        requires
            old(self)@.wf(),
            table.wf(),
            idx < 27,
            old(self)@.slots[idx as int] is None,
            line.0 < 1080,
        ensures
            final(self)@ == old(self)@.with_line(idx as int, line.0 as int),
            final(self)@.wf(),
            delta == old(self)@.probe(line.0 as int),
            delta == final(self)@.cost - old(self)@.cost,
            0 <= delta <= 78,
    {
        let ghost before = self@;
        let ghost k = line.0 as int;
        let ghost after = before.with_line(idx as int, k);
        let p0 = line.at(table, 0).0;
        let p1 = line.at(table, 1).0;
        let p2 = line.at(table, 2).0;
        proof {
            lemma_line_points_distinct(k);
            lemma_with_line_wf(before, idx as int, k);
            lemma_counts_bound(before);
            lemma_counts_bound(after);
            assert(before.counts[p0 as int] == self.point_count@[p0 as int]);
            assert(before.counts[p1 as int] == self.point_count@[p1 as int]);
            assert(before.counts[p2 as int] == self.point_count@[p2 as int]);
            assert(after.counts[p0 as int] == before.counts[p0 as int] + 1);
            assert(after.counts[p1 as int] == before.counts[p1 as int] + 1);
            assert(after.counts[p2 as int] == before.counts[p2 as int] + 1);
        }
        self.slots.set(idx, Some(line));
        let c0 = raise(&mut self.point_count, p0);
        let c1 = raise(&mut self.point_count, p1);
        let c2 = raise(&mut self.point_count, p2);
        let delta = c0 + c1 + c2;
        self.cost = self.cost + delta;
        proof {
            assert(self@.slots =~= after.slots);
            assert(self@.counts =~= after.counts);
        }
        delta
    }

    /// The rise in cost if `line` were put into an empty slot now: the sum
    /// of the coverage counts of its three points. The state is only read.
    pub fn cost_at(&self, table: &GeometryTable, line: Line) -> (delta: i32)
        requires
            self@.wf(),
            table.wf(),
            line.0 < 1080,
        ensures
            delta == self@.probe(line.0 as int),
            0 <= delta <= 81,
    {
        let p0 = line.at(table, 0).0;
        let p1 = line.at(table, 1).0;
        let p2 = line.at(table, 2).0;
        proof {
            lemma_counts_bound(self@);
            assert(self@.counts[p0 as int] == self.point_count@[p0 as int]);
            assert(self@.counts[p1 as int] == self.point_count@[p1 as int]);
            assert(self@.counts[p2 as int] == self.point_count@[p2 as int]);
        }
        self.point_count[p0] + self.point_count[p1] + self.point_count[p2]
    }

    /// Takes the line out of the occupied slot `idx` and returns the change
    /// in cost, which is never positive: minus the sum of the coverage
    /// counts that the line's three points have once it is gone.
    pub fn unset(&mut self, table: &GeometryTable, idx: usize) -> (delta: i32)
        requires
            old(self)@.wf(),
            table.wf(),
            idx < 27,
            old(self)@.slots[idx as int] is Some,
        ensures
            final(self)@ == old(self)@.without(idx as int),
            final(self)@.wf(),
            delta == 3 - old(self)@.probe(old(self)@.slots[idx as int].unwrap()),
            delta == -final(self)@.probe(old(self)@.slots[idx as int].unwrap()),
            delta == final(self)@.cost - old(self)@.cost,
            -78 <= delta <= 0,
    {
        let ghost before = self@;
        let ghost after = before.without(idx as int);
        assert(before.slots[idx as int] == slot_view(self.slots@[idx as int]));
        let line = self.slots[idx].unwrap();
        let ghost k = line.0 as int;
        let p0 = line.at(table, 0).0;
        let p1 = line.at(table, 1).0;
        let p2 = line.at(table, 2).0;
        proof {
            lemma_line_points_distinct(k);
            lemma_without_wf(before, idx as int);
            lemma_counts_bound(before);
            lemma_counts_bound(after);
            assert(before.counts[p0 as int] == self.point_count@[p0 as int]);
            assert(before.counts[p1 as int] == self.point_count@[p1 as int]);
            assert(before.counts[p2 as int] == self.point_count@[p2 as int]);
            assert(after.counts[p0 as int] == before.counts[p0 as int] - 1);
            assert(after.counts[p1 as int] == before.counts[p1 as int] - 1);
            assert(after.counts[p2 as int] == before.counts[p2 as int] - 1);
        }
        self.slots.set(idx, None);
        let c0 = lower(&mut self.point_count, p0);
        let c1 = lower(&mut self.point_count, p1);
        let c2 = lower(&mut self.point_count, p2);
        let delta = 0 - c0 - c1 - c2;
        self.cost = self.cost + delta;
        proof {
            assert(self@.slots =~= after.slots);
            assert(self@.counts =~= after.counts);
        }
        delta
    }

    /// The rise in cost for each of the 1080 lines, by index: what the
    /// heat-bath weights of the candidates for a vacated slot are made of.
    pub fn candidate_costs(&self, table: &GeometryTable) -> (costs: Vec<i32>)
        requires
            self@.wf(),
            table.wf(),
        ensures
            costs@.len() == 1080,
            forall|k: int| 0 <= k < 1080 ==> (#[trigger] costs@[k]) == self@.probe(k),
    {
        let mut costs: Vec<i32> = Vec::new();
        let mut k: usize = 0;
        while k < NUM_LINES
            invariant
                k <= 1080,
                self@.wf(),
                table.wf(),
                costs@.len() == k,
                forall|j: int| 0 <= j < k ==> (#[trigger] costs@[j]) == self@.probe(j),
            decreases 1080 - k,
        {
            let c = self.cost_at(table, Line(k));
            costs.push(c);
            k += 1;
        }
        costs
    }

    /// A partition with every slot filled by a line drawn uniformly and
    /// independently of the others. Whatever lines are drawn, the state is
    /// consistent.
    pub fn random(table: &GeometryTable, rng: &mut StdRng) -> (partition: Partition)
        requires
            table.wf(),
        ensures
            partition@.wf(),
            partition@.full(),
    {
        let mut partition = Partition::new();
        let mut i: usize = 0;
        while i < PARTITION_SIZE
            invariant
                i <= 27,
                table.wf(),
                partition@.wf(),
                forall|j: int| 0 <= j < i ==> (#[trigger] partition@.slots[j]) is Some,
                forall|j: int| i <= j < 27 ==> (#[trigger] partition@.slots[j]) is None,
            decreases 27 - i,
        {
            let line = random_line(rng);
            partition.set(table, i, line);
            i += 1;
        }
        partition
    }

    /// Opens an annealing step on a full partition: draws one of the 27
    /// slots uniformly and takes its line out. Returns the slot and the
    /// change in cost. The step is closed by `set` on that slot.
    pub fn vacate(&mut self, table: &GeometryTable, rng: &mut StdRng) -> (vacated: (usize, i32))
        requires
            old(self)@.wf(),
            old(self)@.full(),
            table.wf(),
        ensures
            vacated.0 < 27,
            final(self)@ == old(self)@.without(vacated.0 as int),
            final(self)@.wf(),
            final(self)@.slots[vacated.0 as int] is None,
            vacated.1 == final(self)@.cost - old(self)@.cost,
            vacated.1 == 3 - old(self)@.probe(old(self)@.slots[vacated.0 as int].unwrap()),
    {
        let idx = random_below(rng, PARTITION_SIZE);
        let delta = self.unset(table, idx);
        (idx, delta)
    }
}

impl Default for Partition {
    /// A partition with every slot empty.
    fn default() -> (partition: Partition)
        ensures
            partition@ == PartitionView::empty(),
            partition@.wf(),
    {
        Partition::new()
    }
}

/// In a consistent state every coverage count lies between 0 and 27, and
/// the cost between 0 and 81 times the pairs among 27.
pub proof fn lemma_counts_bound(v: PartitionView)
    requires
        v.wf(),
    ensures
        forall|p: int| 0 <= p < 81 ==> 0 <= #[trigger] v.counts[p] <= 27,
        0 <= v.cost <= 28431,
{
    assert forall|p: int| 0 <= p < 81 implies 0 <= #[trigger] v.counts[p] <= 27 by {
        lemma_coverage_bound(v.slots, 27, p);
    }
    lemma_pair_cost_bound(v.counts, 81);
}

/// Putting a line into an empty slot of a consistent state gives a
/// consistent state: the counts are again the coverage, and the cost is
/// again the sum of pairs over the points.
pub proof fn lemma_with_line_wf(v: PartitionView, idx: int, k: int)
    requires
        v.wf(),
        0 <= idx < 27,
        v.slots[idx] is None,
        0 <= k < 1080,
    ensures
        v.with_line(idx, k).wf(),
        0 <= v.probe(k) <= 78,
{
    let w = v.with_line(idx, k);
    lemma_line_points_distinct(k);
    lemma_counts_bound(v);
    let p0 = line_points(k).0;
    let p1 = line_points(k).1;
    let p2 = line_points(k).2;
    assert forall|p: int| 0 <= p < 81 implies #[trigger] w.counts[p] == coverage(w.slots, 27, p) by {
        lemma_coverage_update(v.slots, 27, idx, Some(k), p);
    }
    assert forall|p: int| 0 <= p < 81 implies 0 <= #[trigger] w.counts[p] <= 27 by {
        lemma_coverage_bound(w.slots, 27, p);
    }
    assert(w.counts[p0] <= 27 && w.counts[p1] <= 27 && w.counts[p2] <= 27);
    let s0 = v.counts;
    let s1 = s0.update(p0, s0[p0] + 1);
    let s2 = s1.update(p1, s1[p1] + 1);
    let s3 = s2.update(p2, s2[p2] + 1);
    lemma_pair_cost_update(s0, 81, p0, s0[p0] + 1);
    lemma_pair_cost_update(s1, 81, p1, s1[p1] + 1);
    lemma_pair_cost_update(s2, 81, p2, s2[p2] + 1);
    lemma_choose2_step(s0[p0]);
    lemma_choose2_step(s1[p1]);
    lemma_choose2_step(s2[p2]);
    assert(s3 =~= w.counts);
}

/// Taking the line out of an occupied slot of a consistent state gives a
/// consistent state.
pub proof fn lemma_without_wf(v: PartitionView, idx: int)
    requires
        v.wf(),
        0 <= idx < 27,
        v.slots[idx] is Some,
    ensures
        v.without(idx).wf(),
        3 <= v.probe(v.slots[idx].unwrap()) <= 81,
        v.without(idx).probe(v.slots[idx].unwrap()) == v.probe(v.slots[idx].unwrap()) - 3,
{
    let w = v.without(idx);
    let k = v.slots[idx].unwrap();
    lemma_line_points_distinct(k);
    lemma_counts_bound(v);
    let p0 = line_points(k).0;
    let p1 = line_points(k).1;
    let p2 = line_points(k).2;
    assert forall|p: int| 0 <= p < 81 implies #[trigger] w.counts[p] == coverage(w.slots, 27, p) by {
        lemma_coverage_update(v.slots, 27, idx, None, p);
    }
    assert forall|p: int| 0 <= p < 81 implies 0 <= #[trigger] w.counts[p] <= 27 by {
        lemma_coverage_bound(w.slots, 27, p);
    }
    assert(w.counts[p0] >= 0 && w.counts[p1] >= 0 && w.counts[p2] >= 0);
    let s0 = v.counts;
    let s1 = s0.update(p0, s0[p0] - 1);
    let s2 = s1.update(p1, s1[p1] - 1);
    let s3 = s2.update(p2, s2[p2] - 1);
    lemma_pair_cost_update(s0, 81, p0, s0[p0] - 1);
    lemma_pair_cost_update(s1, 81, p1, s1[p1] - 1);
    lemma_pair_cost_update(s2, 81, p2, s2[p2] - 1);
    lemma_choose2_step(s0[p0] - 1);
    lemma_choose2_step(s1[p1] - 1);
    lemma_choose2_step(s2[p2] - 1);
    assert(s3 =~= w.counts);
}

/// Putting a line into an empty slot and taking it out again restores the
/// slots, every coverage count and the cost.
pub proof fn lemma_set_then_unset(v: PartitionView, idx: int, k: int)
    requires
        v.wf(),
        0 <= idx < 27,
        v.slots[idx] is None,
        0 <= k < 1080,
    ensures
        v.with_line(idx, k).without(idx) == v,
{
    let w = v.with_line(idx, k);
    let u = w.without(idx);
    lemma_line_points_distinct(k);
    assert(u.slots =~= v.slots);
    assert(u.counts =~= v.counts);
}

/// The cost of a consistent state is zero exactly when no point is covered
/// twice, which is when no two slots hold lines that share a point.
pub proof fn lemma_zero_cost(v: PartitionView)
    requires
        v.wf(),
    ensures
        v.cost >= 0,
        v.cost == 0 <==> forall|p: int| 0 <= p < 81 ==> #[trigger] v.counts[p] <= 1,
        v.cost == 0 <==> !has_clash(v.slots, 27),
{
    lemma_counts_bound(v);
    lemma_pair_cost_zero_iff(v.counts, 81);
    if has_clash(v.slots, 27) {
        let (i, j, p) = choose|i: int, j: int, p: int|
            0 <= i && j < 27 && 0 <= p < 81 && #[trigger] clash(v.slots, i, j, p);
        lemma_coverage_witness(v.slots, 27, p);
        assert(clash(v.slots, i, j, p));
        assert(v.counts[p] >= 2);
    }
    if v.cost != 0 {
        let p = choose|p: int| 0 <= p < 81 && !(#[trigger] v.counts[p] <= 1);
        lemma_coverage_witness(v.slots, 27, p);
        let (i, j) = choose|i: int, j: int| 0 <= i && j < 27 && #[trigger] clash(v.slots, i, j, p);
        assert(clash(v.slots, i, j, p));
    }
}

/// In a consistent state the coverage counts add up to three times the
/// number of occupied slots. A full state has cost zero exactly when it is
/// a resolution: every point lies on exactly one of the 27 lines.
pub proof fn lemma_resolution(v: PartitionView)
    requires
        v.wf(),
    ensures
        count_sum(v.counts, 81) == 3 * occupied(v.slots, 27),
        v.full() ==> (v.cost == 0 <==> forall|p: int| 0 <= p < 81 ==> #[trigger] v.counts[p] == 1),
{
    lemma_coverage_total(v.slots, 27);
    assert(v.counts =~= Seq::new(81, |p: int| coverage(v.slots, 27, p)));
    lemma_zero_cost(v);
    if v.full() {
        lemma_occupied_full(v.slots, 27);
        if v.cost == 0 {
            lemma_count_sum_ones(v.counts, 81);
        }
    }
}

} // verus!
