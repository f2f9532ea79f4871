use ag43_anneal::geometry::{GeometryTable, Line, Point, NUM_CLASSES, CLASS_SIZE, NUM_LINES};
use ag43_anneal::partition::Partition;
use rand::rngs::StdRng;
use rand::{Rng, SeedableRng};

fn heat_bath_line(
    partition: &Partition,
    table: &GeometryTable,
    rng: &mut StdRng,
    beta: f64,
) -> Line {
    let costs = partition.candidate_costs(table);
    let mut z: f64 = 0.0;
    for &cost in &costs {
        z += f64::exp(-beta * cost as f64);
    }
    let mut sample = rng.gen_range(0.0..z);
    for (i, &cost) in costs.iter().enumerate() {
        sample -= f64::exp(-beta * cost as f64);
        if sample <= 0.0 {
            return Line(i);
        }
    }
    Line(NUM_LINES - 1)
}

fn cost_from_scratch(partition: &Partition) -> i32 {
    (0..81)
        .map(|p| *partition.count(Point(p)))
        .map(|c| c * (c - 1) / 2)
        .sum()
}

#[test]
fn class_constants_multiply_to_the_line_count() {
    assert_eq!(NUM_CLASSES, 40);
    assert_eq!(CLASS_SIZE, 27);
    assert_eq!(NUM_CLASSES * CLASS_SIZE, NUM_LINES);
}

#[test]
fn heat_bath_at_beta_zero_is_uniform() {
    let table = GeometryTable::new();
    let mut rng = StdRng::seed_from_u64(2024);
    let mut partition = Partition::random(&table, &mut rng);
    partition.vacate(&table, &mut rng);
    let draws = 108_000;
    let mut seen = vec![0u32; NUM_LINES];
    for _ in 0..draws {
        seen[heat_bath_line(&partition, &table, &mut rng, 0.0).0] += 1;
    }
    let expected = draws as f64 / NUM_LINES as f64;
    let chi2: f64 = seen
        .iter()
        .map(|&n| (n as f64 - expected) * (n as f64 - expected) / expected)
        .sum();
    assert!(seen.iter().all(|&n| n > 0));
    assert!(chi2 < 1300.0);
}

#[test]
fn annealing_at_large_beta_lowers_cost() {
    let table = GeometryTable::new();
    for seed in 0..3 {
        let mut rng = StdRng::seed_from_u64(seed);
        let mut partition = Partition::random(&table, &mut rng);
        let initial = partition.cost();
        for _ in 0..1500 {
            let before = partition.cost();
            let (idx, down) = partition.vacate(&table, &mut rng);
            let line = heat_bath_line(&partition, &table, &mut rng, 8.0);
            let up = partition.set(&table, idx, line);
            assert_eq!(partition.cost(), before + down + up);
        }
        assert_eq!(partition.cost(), cost_from_scratch(&partition));
        assert!(partition.cost() < initial);
        assert!(partition.cost() <= 6);
    }
}
