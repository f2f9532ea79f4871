use ag43_anneal::geometry::{GeometryTable, Line, Point, NUM_LINES};
use ag43_anneal::space::{step_point, NUM_POINTS};

fn all_lines(table: &GeometryTable) -> Vec<[Point; 3]> {
    let mut lines = Vec::new();
    for k in 0..NUM_LINES {
        let line = Line(k);
        lines.push([line.at(table, 0), line.at(table, 1), line.at(table, 2)]);
    }
    lines
}

#[test]
fn test_line() {
    let table = GeometryTable::new();
    let lines = all_lines(&table);
    for line in &lines {
        for point in line {
            assert!(point.0 < NUM_POINTS);
        }
        assert!(line[0] != line[1] && line[0] != line[2] && line[1] != line[2]);
    }
    for point0 in 0..NUM_POINTS {
        for point1 in 0..NUM_POINTS {
            if point0 == point1 {
                continue;
            }
            let mut count = 0;
            for line in &lines {
                let mut has0 = false;
                let mut has1 = false;
                for p in line {
                    if p.0 == point0 {
                        has0 = true;
                    }
                    if p.0 == point1 {
                        has1 = true;
                    }
                }
                if has0 && has1 {
                    count += 1;
                }
            }
            assert!(count == 1);
        }
    }
}

#[test]
fn table_has_1080_lines() {
    let table = GeometryTable::new();
    assert_eq!(table.len(), 1080);
    assert_eq!(NUM_LINES, 81 * 80 / 6);
}

fn points(table: &GeometryTable, k: usize) -> (usize, usize, usize) {
    let line = Line(k);
    (line.at(table, 0).0, line.at(table, 1).0, line.at(table, 2).0)
}

#[test]
fn known_lines() {
    let table = GeometryTable::new();
    assert_eq!(points(&table, 0), (0, 1, 2));
    assert_eq!(points(&table, 1), (3, 4, 5));
    assert_eq!(points(&table, 26), (78, 79, 80));
    assert_eq!(points(&table, 27), (0, 3, 6));
    assert_eq!(points(&table, 28), (1, 4, 7));
    assert_eq!(points(&table, 100), (55, 57, 62));
    assert_eq!(points(&table, 539), (26, 50, 74));
    assert_eq!(points(&table, 1053), (0, 53, 67));
    assert_eq!(points(&table, 1079), (26, 40, 54));
}

#[test]
fn point_at_agrees_with_line_at() {
    let table = GeometryTable::new();
    for k in 0..NUM_LINES {
        for i in 0..3 {
            assert_eq!(table.point_at(Line(k), i), Line(k).at(&table, i));
        }
    }
}

#[test]
fn each_class_partitions_the_points() {
    let table = GeometryTable::new();
    for class in 0..40 {
        let mut seen = [0usize; 81];
        for j in 0..27 {
            let (a, b, c) = points(&table, 27 * class + j);
            seen[a] += 1;
            seen[b] += 1;
            seen[c] += 1;
        }
        assert!(seen.iter().all(|&n| n == 1));
    }
}

#[test]
fn lines_of_a_class_share_their_direction() {
    let table = GeometryTable::new();
    for class in 0..40 {
        let (s, a, _) = points(&table, 27 * class);
        assert_eq!(s, 0);
        let dir = a;
        for j in 0..27 {
            let (p0, p1, p2) = points(&table, 27 * class + j);
            assert_eq!(step_point(p0, dir), p1);
            assert_eq!(step_point(p1, dir), p2);
            assert_eq!(step_point(p2, dir), p0);
            assert!(p0 < p1 && p0 < p2);
        }
    }
}

#[test]
fn step_point_adds_digits_modulo_three() {
    assert_eq!(step_point(0, 0), 0);
    assert_eq!(step_point(2, 1), 0);
    assert_eq!(step_point(80, 80), 40);
    assert_eq!(step_point(26, 53), 40);
    assert_eq!(step_point(40, 53), 54);
    assert_eq!(step_point(54, 53), 26);
    assert_eq!(step_point(5, 3), 8);
    assert_eq!(step_point(8, 3), 2);
}
