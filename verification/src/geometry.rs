//! The catalogue of the 1080 lines of AG(4,3).
//!
//! A line is a start point together with the two points reached by adding
//! a direction once and twice. The lines come in 40 classes of 27 parallel
//! lines, one class for each direction up to the scalar 2.

use vstd::prelude::*;

use crate::space::{
    digit, displacement, lemma_displacement, lemma_shift_cycle, lemma_shift_digits,
    lemma_shift_moves, lemma_unpack, shift, step_point, twice, NUM_POINTS,
};

verus! {

/// Number of lines of the geometry.
pub const NUM_LINES: usize = 1080;

/// Number of direction classes.
pub const NUM_CLASSES: usize = 40;

/// Number of lines in one direction class.
pub const CLASS_SIZE: usize = 27;

/// Whether `d` is the chosen representative of its direction class: a
/// non-zero vector whose highest non-zero digit is 1. Of a vector and its
/// double exactly one is such, and it is the smaller of the two.
pub open spec fn is_direction(d: int) -> bool {
    d == 1 || (3 <= d < 6) || (9 <= d < 18) || (27 <= d < 54)
}

/// How many direction representatives lie below `n`.
pub open spec fn directions_below(n: int) -> int {
    if n <= 1 {
        0
    } else if n <= 3 {
        1
    } else if n <= 6 {
        n - 2
    } else if n <= 9 {
        4
    } else if n <= 18 {
        n - 5
    } else if n <= 27 {
        13
    } else if n <= 54 {
        n - 14
    } else {
        40
    }
}

/// The representative of direction class `c`, classes counted from 0 in
/// increasing order of their representatives.
pub open spec fn direction_of_class(c: int) -> int {
    if c < 1 {
        1
    } else if c < 4 {
        c + 2
    } else if c < 13 {
        c + 5
    } else {
        c + 14
    }
}

/// The smallest point of the line through `v` with direction `d`.
pub open spec fn anchor(v: int, d: int) -> int {
    let a = shift(v, d);
    let b = shift(a, d);
    if v <= a && v <= b {
        v
    } else if a <= b {
        a
    } else {
        b
    }
}

/// The place of the highest non-zero digit of a representative `d`.
pub open spec fn top_place(d: int) -> int {
    if d < 3 {
        0
    } else if d < 9 {
        1
    } else if d < 27 {
        2
    } else {
        3
    }
}

/// Whether `s` is the smallest point of its line with direction `d`: its
/// digit at the place of the highest non-zero digit of `d` is 0.
pub open spec fn is_start(s: int, d: int) -> bool {
    digit(s, top_place(d)) == 0
}

/// The smaller of a vector and its double.
pub open spec fn representative(v: int) -> int {
    if v <= twice(v) {
        v
    } else {
        twice(v)
    }
}

/// How many line starts for the direction `d` lie below `m`.
pub open spec fn starts_below(m: int, d: int) -> int {
    if d < 3 {
        (m / 3) + (if m % 3 == 0 { 0int } else { 1int })
    } else if d < 9 {
        (m / 9) * 3 + (if m % 9 < 3 { m % 9 } else { 3int })
    } else if d < 27 {
        (m / 27) * 9 + (if m % 27 < 9 { m % 27 } else { 9int })
    } else {
        if m < 27 { m } else { 27int }
    }
}

/// The line start of rank `r` for the direction `d`, starts counted from 0
/// in increasing order.
pub open spec fn start_of_rank(r: int, d: int) -> int {
    if d < 3 {
        3 * r
    } else if d < 9 {
        (r / 3) * 9 + r % 3
    } else if d < 27 {
        (r / 9) * 27 + r % 9
    } else {
        r
    }
}

/// The three points of the line with index `k`, in the order in which the
/// line is walked: the start, then one and two steps along the direction of
/// the class `k / 27`.
pub open spec fn line_points(k: int) -> (int, int, int) {
    let d = direction_of_class(k / 27);
    let s = start_of_rank(k % 27, d);
    (s, shift(s, d), shift(shift(s, d), d))
}

/// Whether the point `p` is one of the three points of line `k`.
pub open spec fn on_line(k: int, p: int) -> bool {
    let t = line_points(k);
    t.0 == p || t.1 == p || t.2 == p
}

/// The index of the line through the two distinct points `p` and `q`.
pub open spec fn line_through(p: int, q: int) -> int {
    let d = representative(displacement(p, q));
    27 * directions_below(d) + starts_below(anchor(p, d), d)
}

/// Of a non-zero vector and its double, exactly one is a representative,
/// and it is the smaller of the two.
pub proof fn lemma_twice(d: int)
    requires
        0 < d < 81,
    ensures
        0 < twice(d) < 81,
        twice(twice(d)) == d,
        twice(d) != d,
        is_direction(d) <==> d < twice(d),
        is_direction(d) <==> !is_direction(twice(d)),
{
    let t = twice(d);
    lemma_shift_digits(d, d);
    lemma_shift_digits(t, t);
    lemma_unpack(d);
    lemma_unpack(t);
    lemma_unpack(twice(t));
}

/// Stepping `n` over a representative raises the count of representatives
/// below it by one, and that count is the representative's class.
pub proof fn lemma_direction_count(n: int)
    requires
        0 < n < 81,
    ensures
        0 <= directions_below(n) <= 40,
        is_direction(n) ==> directions_below(n + 1) == directions_below(n) + 1,
        is_direction(n) ==> directions_below(n) < 40,
        is_direction(n) ==> direction_of_class(directions_below(n)) == n,
        !is_direction(n) ==> directions_below(n + 1) == directions_below(n),
{
}

/// Stepping `m` over a line start raises the count of starts below it by
/// one, and that count is the start's rank.
pub proof fn lemma_start_count(m: int, d: int)
    requires
        0 <= m < 81,
        is_direction(d),
    ensures
        0 <= starts_below(m, d) <= 27,
        is_start(m, d) ==> starts_below(m + 1, d) == starts_below(m, d) + 1,
        is_start(m, d) ==> starts_below(m, d) < 27,
        is_start(m, d) ==> start_of_rank(starts_below(m, d), d) == m,
        !is_start(m, d) ==> starts_below(m + 1, d) == starts_below(m, d),
{
    reveal(digit);
}

/// A point is the smallest of its line exactly when it is a line start.
pub proof fn lemma_anchor_start(s: int, d: int)
    requires
        0 <= s < 81,
        is_direction(d),
    ensures
        is_start(s, d) <==> anchor(s, d) == s,
{
    let a = shift(s, d);
    let b = shift(a, d);
    lemma_shift_digits(s, d);
    lemma_shift_digits(a, d);
    lemma_unpack(s);
    lemma_unpack(d);
    lemma_unpack(a);
    lemma_unpack(b);
}

/// The three points of a line have the same smallest point, which is one
/// of them.
pub proof fn lemma_anchor(v: int, d: int)
    requires
        0 <= v < 81,
        0 <= d < 81,
    ensures
        0 <= anchor(v, d) < 81,
        anchor(v, d) == v || anchor(v, d) == shift(v, d) || anchor(v, d) == shift(shift(v, d), d),
        anchor(shift(v, d), d) == anchor(v, d),
        anchor(shift(shift(v, d), d), d) == anchor(v, d),
{
    lemma_shift_cycle(v, d);
}

/// Whether `w` lies on the line through `v` with direction `d`.
pub open spec fn in_coset(v: int, w: int, d: int) -> bool {
    w == v || w == shift(v, d) || w == shift(shift(v, d), d)
}

/// Two points on the line through `v` lie on the line through each other.
pub proof fn lemma_coset(v: int, w: int, u: int, d: int)
    requires
        0 <= v < 81,
        0 <= d < 81,
        in_coset(v, w, d),
        in_coset(v, u, d),
    ensures
        in_coset(w, u, d),
{
    lemma_shift_cycle(v, d);
}

/// The class of a representative and the rank of a line start invert the
/// two enumerations.
pub proof fn lemma_rank_inverse(c: int, r: int)
    requires
        0 <= c < 40,
        0 <= r < 27,
    ensures
        is_direction(direction_of_class(c)),
        0 < direction_of_class(c) < 81,
        directions_below(direction_of_class(c)) == c,
        0 <= start_of_rank(r, direction_of_class(c)) < 81,
        is_start(start_of_rank(r, direction_of_class(c)), direction_of_class(c)),
        starts_below(start_of_rank(r, direction_of_class(c)), direction_of_class(c)) == r,
{
    reveal(digit);
}

/// Line `k` is the line through its start along the representative of its
/// class: the start is a line start of rank `k % 27`, the representative
/// that of class `k / 27`.
pub proof fn lemma_line_shape(k: int)
    requires
        0 <= k < 1080,
    ensures
        is_direction(direction_of_class(k / 27)),
        0 < direction_of_class(k / 27) < 81,
        0 <= line_points(k).0 < 81,
        0 <= line_points(k).1 < 81,
        0 <= line_points(k).2 < 81,
        is_start(line_points(k).0, direction_of_class(k / 27)),
        line_points(k).1 == shift(line_points(k).0, direction_of_class(k / 27)),
        line_points(k).2 == shift(line_points(k).1, direction_of_class(k / 27)),
        forall|p: int|
            on_line(k, p) <==> in_coset(line_points(k).0, p, direction_of_class(k / 27)),
{
    lemma_rank_inverse(k / 27, k % 27);
    lemma_shift_cycle(line_points(k).0, direction_of_class(k / 27));
}

/// The three points of every line are points of the geometry and pairwise
/// distinct.
pub proof fn lemma_line_points_distinct(k: int)
    requires
        0 <= k < 1080,
    ensures
        0 <= line_points(k).0 < 81,
        0 <= line_points(k).1 < 81,
        0 <= line_points(k).2 < 81,
        line_points(k).0 != line_points(k).1,
        line_points(k).0 != line_points(k).2,
        line_points(k).1 != line_points(k).2,
{
    lemma_line_shape(k);
    lemma_shift_moves(line_points(k).0, direction_of_class(k / 27));
}

/// The catalogue has 1080 lines in 40 classes of 27: the classes have
/// pairwise inequivalent directions, and the 27 lines of a class, which
/// occupy the indices from `27 * c` on, partition the points: every point
/// lies on exactly one of them.
pub proof fn lemma_direction_classes(c: int, p: int)
    requires
        0 <= c < 40,
        0 <= p < 81,
    ensures
        catalogue().len() == 40 * 27,
        is_direction(direction_of_class(c)),
        forall|c2: int|
            0 <= c2 < 40 && c2 != c ==> direction_of_class(c2) != direction_of_class(c)
                && direction_of_class(c2) != twice(direction_of_class(c)),
        ({
            let d = direction_of_class(c);
            let k = 27 * c + starts_below(anchor(p, d), d);
            &&& 27 * c <= k < 27 * c + 27
            &&& on_line(k, p)
            &&& forall|k2: int| 27 * c <= k2 < 27 * c + 27 && on_line(k2, p) ==> k2 == k
        }),
{
    let d = direction_of_class(c);
    let s = anchor(p, d);
    lemma_rank_inverse(c, 0);
    lemma_twice(d);
    assert forall|c2: int| 0 <= c2 < 40 && c2 != c implies direction_of_class(c2)
        != direction_of_class(c) && direction_of_class(c2) != twice(direction_of_class(c)) by {
        lemma_rank_inverse(c2, 0);
    }
    lemma_anchor(p, d);
    lemma_shift_cycle(p, d);
    lemma_anchor(s, d);
    lemma_anchor_start(s, d);
    lemma_start_count(s, d);
    let k = 27 * c + starts_below(s, d);
    assert(k / 27 == c && k % 27 == starts_below(s, d));
    lemma_line_shape(k);
    assert(line_points(k).0 == s);
    lemma_coset(p, s, p, d);
    assert forall|k2: int| 27 * c <= k2 < 27 * c + 27 && on_line(k2, p) implies k2 == k by {
        lemma_line_shape(k2);
        assert(k2 / 27 == c);
        let s2 = line_points(k2).0;
        lemma_anchor(s2, d);
        lemma_anchor_start(s2, d);
        lemma_rank_inverse(c, k2 % 27);
        assert(anchor(p, d) == s2);
    }
}

/// For every pair of distinct points exactly one line contains both: the
/// line `line_through(p, q)` does, and no other.
pub proof fn lemma_unique_line(p: int, q: int)
    requires
        0 <= p < 81,
        0 <= q < 81,
        p != q,
    ensures
        0 <= line_through(p, q) < 1080,
        on_line(line_through(p, q), p),
        on_line(line_through(p, q), q),
        forall|k: int| 0 <= k < 1080 && on_line(k, p) && on_line(k, q) ==> k == line_through(p, q),
{
    let e = displacement(p, q);
    lemma_displacement(p, q, 0);
    lemma_twice(e);
    let d = representative(e);
    lemma_twice(d);
    lemma_direction_count(d);
    let c = directions_below(d);
    lemma_direction_classes(c, p);
    let k = line_through(p, q);
    lemma_line_shape(k);
    assert(k / 27 == c);
    let s = line_points(k).0;
    lemma_shift_cycle(p, d);
    assert(in_coset(p, q, d));
    lemma_coset(s, p, s, d);
    lemma_coset(p, s, q, d);
    assert forall|k2: int| 0 <= k2 < 1080 && on_line(k2, p) && on_line(k2, q) implies k2 == k by {
        lemma_line_shape(k2);
        let c2 = k2 / 27;
        let d2 = direction_of_class(c2);
        let s2 = line_points(k2).0;
        lemma_coset(s2, p, q, d2);
        lemma_shift_cycle(p, d2);
        lemma_displacement(p, q, d2);
        lemma_displacement(p, q, twice(d2));
        lemma_twice(d2);
        assert(e == d2 || e == twice(d2));
        assert(d == d2);
        lemma_rank_inverse(c2, k2 % 27);
        assert(c2 == c);
        lemma_direction_classes(c, p);
    }
}

/// The catalogue of all lines, by index.
pub open spec fn catalogue() -> Seq<(int, int, int)> {
    Seq::new(1080, |k: int| line_points(k))
}

/// A point, by its number below 81.
#[derive(Clone, Copy, Debug, PartialEq, Eq, Structural)]
pub struct Point(pub usize);

/// A line, by its index below 1080 in the catalogue.
#[derive(Clone, Copy, Debug, PartialEq, Eq, Structural)]
pub struct Line(pub usize);

/// The point of line `k` at position `i` of its walk.
pub open spec fn point_of(k: int, i: int) -> int {
    if i == 0 {
        line_points(k).0
    } else if i == 1 {
        line_points(k).1
    } else {
        line_points(k).2
    }
}

/// The three points of a stored line as integers.
pub open spec fn triple_view(t: (usize, usize, usize)) -> (int, int, int) {
    (t.0 as int, t.1 as int, t.2 as int)
}

/// The immutable table of the 1080 lines, each an ordered triple of points.
pub struct GeometryTable {
    lines: Vec<(usize, usize, usize)>,
}

/// A vector of 81 cleared marks, one for each point.
fn blank_marks() -> (marks: Vec<bool>)
    ensures
        marks@.len() == 81,
        forall|v: int| 0 <= v < 81 ==> !(#[trigger] marks@[v]),
{
    let mut marks: Vec<bool> = Vec::new();
    let mut i: usize = 0;
    while i < NUM_POINTS
        invariant
            i <= 81,
            marks@.len() == i,
            forall|v: int| 0 <= v < i ==> !(#[trigger] marks@[v]),
        decreases 81 - i,
    {
        marks.push(false);
        i += 1;
    }
    marks
}

impl GeometryTable {
    /// The lines of the table as triples of integers.
    pub closed spec fn view(&self) -> Seq<(int, int, int)> {
        Seq::new(self.lines@.len(), |k: int| triple_view(self.lines@[k]))
    }

    /// The table holds exactly the catalogue.
    pub open spec fn wf(&self) -> bool {
        self@ == catalogue()
    }

    /// The number of lines in the table.
    pub fn len(&self) -> (n: usize)
        requires
            self.wf(),
        ensures
            n == 1080,
    {
        proof {
            assert(self@.len() == self.lines@.len());
            assert(catalogue().len() == 1080);
        }
        self.lines.len()
    }

    /// The point of `line` at position `index` of its walk.
    pub fn point_at(&self, line: Line, index: usize) -> (p: Point)
        requires
            self.wf(),
            line.0 < 1080,
            index < 3,
        ensures
            p.0 as int == point_of(line.0 as int, index as int),
            p.0 < 81,
    {
        proof {
            lemma_line_points_distinct(line.0 as int);
            assert(self@.len() == self.lines@.len());
            assert(catalogue().len() == 1080);
            assert(catalogue()[line.0 as int] == line_points(line.0 as int));
            assert(self@[line.0 as int] == triple_view(self.lines@[line.0 as int]));
        }
        let t = self.lines[line.0];
        if index == 0 {
            Point(t.0)
        } else if index == 1 {
            Point(t.1)
        } else {
            Point(t.2)
        }
    }

    /// Builds the table: for each direction class in increasing order of its
    /// representative, the 27 parallel lines in increasing order of their
    /// smallest point, each walked from that point along the representative.
    pub fn new() -> (table: GeometryTable)
        ensures
            table.wf(),
    {
        let mut lines: Vec<(usize, usize, usize)> = Vec::new();
        let mut used_dir = blank_marks();
        let mut dir: usize = 1;
        proof {
            assert forall|v: int| 0 < v < 81 implies representative(v) >= 1 by {
                lemma_twice(v);
            }
        }
        while dir < NUM_POINTS
            invariant
                1 <= dir <= 81,
                used_dir@.len() == 81,
                forall|v: int|
                    0 <= v < 81 ==> (#[trigger] used_dir@[v]) == (v != 0 && representative(v)
                        < dir),
                lines@.len() == 27 * directions_below(dir as int),
                forall|k: int|
                    0 <= k < lines@.len() ==> triple_view(#[trigger] lines@[k]) == line_points(k),
            decreases 81 - dir,
        {
            proof {
                lemma_twice(dir as int);
                lemma_direction_count(dir as int);
            }
            let ghost marks_before = used_dir@;
            if !used_dir[dir] {
                let double = step_point(dir, dir);
                used_dir.set(dir, true);
                used_dir.set(double, true);
                let ghost base = lines@.len() as int;
                let mut used_start = blank_marks();
                let mut start: usize = 0;
                proof {
                    assert forall|v: int| 0 <= v < 81 implies anchor(v, dir as int) >= 0 by {
                        lemma_anchor(v, dir as int);
                    }
                }
                while start < NUM_POINTS
                    invariant
                        start <= 81,
                        1 <= dir < 81,
                        is_direction(dir as int),
                        used_start@.len() == 81,
                        forall|v: int|
                            0 <= v < 81 ==> (#[trigger] used_start@[v]) == (anchor(v, dir as int)
                                < start),
                        base == 27 * directions_below(dir as int),
                        0 <= directions_below(dir as int) < 40,
                        direction_of_class(directions_below(dir as int)) == dir,
                        lines@.len() == base + starts_below(start as int, dir as int),
                        forall|k: int|
                            0 <= k < lines@.len() ==> triple_view(#[trigger] lines@[k])
                                == line_points(k),
                    decreases 81 - start,
                {
                    proof {
                        lemma_start_count(start as int, dir as int);
                        lemma_anchor_start(start as int, dir as int);
                        lemma_anchor(start as int, dir as int);
                    }
                    let ghost starts_before = used_start@;
                    if !used_start[start] {
                        let second = step_point(start, dir);
                        let third = step_point(second, dir);
                        used_start.set(start, true);
                        used_start.set(second, true);
                        used_start.set(third, true);
                        let ghost k = lines@.len() as int;
                        lines.push((start, second, third));
                        proof {
                            assert(k / 27 == directions_below(dir as int));
                            assert(k % 27 == starts_below(start as int, dir as int));
                            assert(line_points(k) == (start as int, second as int, third as int));
                            assert forall|v: int| 0 <= v < 81 implies (#[trigger] used_start@[v])
                                == (anchor(v, dir as int) < start + 1) by {
                                lemma_shift_cycle(v, dir as int);
                                lemma_anchor(v, dir as int);
                            }
                        }
                    } else {
                        proof {
                            assert forall|v: int| 0 <= v < 81 implies (#[trigger] used_start@[v])
                                == (anchor(v, dir as int) < start + 1) by {
                                lemma_shift_cycle(v, dir as int);
                                lemma_anchor(v, dir as int);
                            }
                        }
                    }
                    start += 1;
                }
                proof {
                    assert(starts_below(81, dir as int) == 27);
                    assert forall|v: int| 0 <= v < 81 implies (#[trigger] used_dir@[v]) == (v != 0
                        && representative(v) < dir + 1) by {
                        if v != 0 {
                            lemma_twice(v);
                        }
                    }
                }
            } else {
                proof {
                    assert forall|v: int| 0 <= v < 81 implies (#[trigger] used_dir@[v]) == (v != 0
                        && representative(v) < dir + 1) by {
                        if v != 0 {
                            lemma_twice(v);
                        }
                    }
                }
            }
            dir += 1;
        }
        let table = GeometryTable { lines };
        proof {
            assert(table@ =~= catalogue());
        }
        table
    }
}

impl Line {
    /// The point of this line at position `index` of its walk.
    pub fn at(&self, table: &GeometryTable, index: usize) -> (p: Point)
        requires
            table.wf(),
            self.0 < 1080,
            index < 3,
        ensures
            p.0 as int == point_of(self.0 as int, index as int),
            p.0 < 81,
    {
        table.point_at(*self, index)
    }
}

} // verus!
