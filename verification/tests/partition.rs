use ag43_anneal::geometry::{GeometryTable, Line, Point};
use ag43_anneal::partition::{Partition, PARTITION_SIZE};
use ag43_anneal::random::random_line;
use rand::rngs::StdRng;
use rand::SeedableRng;

fn counts(partition: &Partition) -> Vec<i32> {
    (0..81).map(|p| *partition.count(Point(p))).collect()
}

fn cost_from_scratch(partition: &Partition) -> i32 {
    counts(partition).iter().map(|&c| c * (c - 1) / 2).sum()
}

#[test]
fn empty_partition_has_cost_zero() {
    let partition = Partition::new();
    assert_eq!(partition.cost(), 0);
    assert!(counts(&partition).iter().all(|&c| c == 0));
    for idx in 0..PARTITION_SIZE {
        assert_eq!(partition.line_in(idx), None);
    }
}

#[test]
fn default_partition_is_empty() {
    let partition = Partition::default();
    assert_eq!(partition.cost(), 0);
    assert!(counts(&partition).iter().all(|&c| c == 0));
    assert_eq!(partition.line_in(0), None);
}

#[test]
fn resolution_has_cost_zero() {
    let table = GeometryTable::new();
    for class in 0..40 {
        let mut partition = Partition::new();
        for idx in 0..27 {
            let delta = partition.set(&table, idx, Line(27 * class + idx));
            assert_eq!(delta, 0);
        }
        assert_eq!(partition.cost(), 0);
        assert!(counts(&partition).iter().all(|&c| c == 1));
    }
}

#[test]
fn two_lines_sharing_a_point_cost_one() {
    let table = GeometryTable::new();
    let mut partition = Partition::new();
    assert_eq!(partition.set(&table, 0, Line(0)), 0);
    assert_eq!(partition.set(&table, 1, Line(27)), 1);
    assert_eq!(partition.cost(), 1);
    assert_eq!(*partition.count(Point(0)), 2);
    assert_eq!(*partition.count(Point(1)), 1);
    assert_eq!(*partition.count(Point(3)), 1);
    assert_eq!(*partition.count(Point(4)), 0);
}

#[test]
fn same_line_three_times() {
    let table = GeometryTable::new();
    let mut partition = Partition::new();
    assert_eq!(partition.set(&table, 3, Line(1079)), 0);
    assert_eq!(partition.set(&table, 7, Line(1079)), 3);
    assert_eq!(partition.set(&table, 26, Line(1079)), 6);
    assert_eq!(partition.cost(), 9);
    assert_eq!(*partition.count(Point(26)), 3);
    assert_eq!(*partition.count(Point(40)), 3);
    assert_eq!(*partition.count(Point(54)), 3);
    assert_eq!(partition.cost_at(&table, Line(1079)), 9);
    assert_eq!(partition.cost_at(&table, Line(539)), 3);
    assert_eq!(partition.cost_at(&table, Line(0)), 0);
    assert_eq!(partition.unset(&table, 7), -6);
    assert_eq!(partition.cost(), 3);
    assert_eq!(partition.unset(&table, 3), -3);
    assert_eq!(partition.unset(&table, 26), 0);
    assert_eq!(partition.cost(), 0);
    assert!(counts(&partition).iter().all(|&c| c == 0));
}

#[test]
fn set_then_unset_restores_the_state() {
    let table = GeometryTable::new();
    let mut partition = Partition::new();
    partition.set(&table, 0, Line(0));
    partition.set(&table, 1, Line(27));
    partition.set(&table, 2, Line(1053));
    let counts_before = counts(&partition);
    let cost_before = partition.cost();
    for k in 0..1080 {
        let up = partition.set(&table, 5, Line(k));
        assert_eq!(partition.line_in(5), Some(Line(k)));
        let down = partition.unset(&table, 5);
        assert_eq!(up + down, 0);
        assert_eq!(partition.line_in(5), None);
        assert_eq!(counts(&partition), counts_before);
        assert_eq!(partition.cost(), cost_before);
    }
}

#[test]
fn cost_at_reads_only() {
    let table = GeometryTable::new();
    let mut partition = Partition::new();
    partition.set(&table, 0, Line(0));
    partition.set(&table, 1, Line(27));
    let counts_before = counts(&partition);
    let cost_before = partition.cost();
    assert_eq!(partition.cost_at(&table, Line(0)), 4);
    assert_eq!(partition.cost_at(&table, Line(27)), 4);
    assert_eq!(partition.cost_at(&table, Line(28)), 1);
    assert_eq!(partition.cost_at(&table, Line(26)), 0);
    assert_eq!(counts(&partition), counts_before);
    assert_eq!(partition.cost(), cost_before);
}

#[test]
fn cost_at_is_the_rise_that_set_returns() {
    let table = GeometryTable::new();
    let mut rng = StdRng::seed_from_u64(7);
    let mut partition = Partition::new();
    for idx in 0..27 {
        let line = random_line(&mut rng);
        let probe = partition.cost_at(&table, line);
        let before = partition.cost();
        let delta = partition.set(&table, idx, line);
        assert_eq!(delta, probe);
        assert_eq!(partition.cost(), before + delta);
        assert_eq!(partition.cost(), cost_from_scratch(&partition));
    }
}

#[test]
fn candidate_costs_lists_cost_at_for_every_line() {
    let table = GeometryTable::new();
    let mut partition = Partition::new();
    partition.set(&table, 0, Line(0));
    partition.set(&table, 1, Line(27));
    let costs = partition.candidate_costs(&table);
    assert_eq!(costs.len(), 1080);
    for k in 0..1080 {
        assert_eq!(costs[k], partition.cost_at(&table, Line(k)));
    }
    assert_eq!(costs[0], 4);
    assert_eq!(costs[28], 1);
    assert_eq!(costs[26], 0);
}

#[test]
fn random_partition_is_full_and_consistent() {
    let table = GeometryTable::new();
    for seed in 0..20 {
        let mut rng = StdRng::seed_from_u64(seed);
        let partition = Partition::random(&table, &mut rng);
        let mut expected = vec![0i32; 81];
        for idx in 0..27 {
            let line = partition.line_in(idx).unwrap();
            assert!(line.0 < 1080);
            for i in 0..3 {
                expected[line.at(&table, i).0] += 1;
            }
        }
        assert_eq!(counts(&partition), expected);
        assert_eq!(partition.cost(), cost_from_scratch(&partition));
        assert_eq!(expected.iter().sum::<i32>(), 81);
    }
}

#[test]
fn vacate_empties_one_slot() {
    let table = GeometryTable::new();
    let mut rng = StdRng::seed_from_u64(11);
    let mut partition = Partition::random(&table, &mut rng);
    for _ in 0..200 {
        let before = partition.cost();
        let (idx, down) = partition.vacate(&table, &mut rng);
        assert!(idx < 27);
        assert!(down <= 0);
        assert_eq!(partition.line_in(idx), None);
        assert_eq!(partition.cost(), before + down);
        assert_eq!(partition.cost(), cost_from_scratch(&partition));
        let line = random_line(&mut rng);
        let up = partition.set(&table, idx, line);
        assert_eq!(partition.cost(), before + down + up);
        assert_eq!(partition.cost(), cost_from_scratch(&partition));
    }
}

#[test]
fn random_lines_stay_in_range_and_vary() {
    let mut rng = StdRng::seed_from_u64(3);
    let mut lines_seen = vec![false; 1080];
    for _ in 0..20000 {
        let line = random_line(&mut rng);
        assert!(line.0 < 1080);
        lines_seen[line.0] = true;
    }
    assert!(lines_seen.iter().filter(|&&s| s).count() > 1000);
}

#[test]
fn vacate_reaches_every_slot() {
    let table = GeometryTable::new();
    let mut rng = StdRng::seed_from_u64(5);
    let mut partition = Partition::random(&table, &mut rng);
    let mut slots_seen = vec![false; PARTITION_SIZE];
    for _ in 0..2000 {
        let (idx, _) = partition.vacate(&table, &mut rng);
        assert!(idx < PARTITION_SIZE);
        slots_seen[idx] = true;
        partition.set(&table, idx, Line(idx));
    }
    assert!(slots_seen.iter().all(|&s| s));
}
