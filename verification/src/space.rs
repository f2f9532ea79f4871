//! The 81 points of AG(4,3) as vectors over the field of three elements.
//!
//! A point is an integer below 81, read as four base-3 digits. Adding two
//! points adds their digits modulo 3.

use vstd::prelude::*;

verus! {

/// Number of points of the geometry.
pub const NUM_POINTS: usize = 81;

/// The point with the given four base-3 digits, lowest first.
pub open spec fn pack(a: int, b: int, c: int, d: int) -> int {
    a + 3 * b + 9 * c + 27 * d
}

/// The base-3 digit of `v` at place `i`, for `v` below 81 and `i` below 4.
#[verifier::opaque]
pub open spec fn digit(v: int, i: int) -> int {
    if i == 0 {
        v % 3
    } else if i == 1 {
        (v / 3) % 3
    } else if i == 2 {
        (v / 9) % 3
    } else {
        v / 27
    }
}

/// Sum modulo 3 of two digits.
pub open spec fn add3(x: int, y: int) -> int {
    if x + y >= 3 {
        x + y - 3
    } else {
        x + y
    }
}

/// Digit-wise sum modulo 3 of two points.
#[verifier::opaque]
pub open spec fn shift(p: int, d: int) -> int {
    pack(
        add3(digit(p, 0), digit(d, 0)),
        add3(digit(p, 1), digit(d, 1)),
        add3(digit(p, 2), digit(d, 2)),
        add3(digit(p, 3), digit(d, 3)),
    )
}

/// The vector added to itself: its multiple by the scalar 2.
pub open spec fn twice(d: int) -> int {
    shift(d, d)
}

/// The difference `q - p` in the vector space.
pub open spec fn displacement(p: int, q: int) -> int {
    shift(q, twice(p))
}

/// The digits of a point below 81 are below 3 and give the point back.
pub proof fn lemma_unpack(v: int)
    requires
        0 <= v < 81,
    ensures
        0 <= digit(v, 0) < 3,
        0 <= digit(v, 1) < 3,
        0 <= digit(v, 2) < 3,
        0 <= digit(v, 3) < 3,
        pack(digit(v, 0), digit(v, 1), digit(v, 2), digit(v, 3)) == v,
{
    reveal(digit);
}

/// A point made of four digits is below 81 and has those digits.
pub proof fn lemma_pack(a: int, b: int, c: int, d: int)
    requires
        0 <= a < 3,
        0 <= b < 3,
        0 <= c < 3,
        0 <= d < 3,
    ensures
        0 <= pack(a, b, c, d) < 81,
        digit(pack(a, b, c, d), 0) == a,
        digit(pack(a, b, c, d), 1) == b,
        digit(pack(a, b, c, d), 2) == c,
        digit(pack(a, b, c, d), 3) == d,
{
    reveal(digit);
}

/// The digits of a sum of two points are the sums of their digits.
pub proof fn lemma_shift_digits(v: int, d: int)
    requires
        0 <= v < 81,
        0 <= d < 81,
    ensures
        0 <= shift(v, d) < 81,
        digit(shift(v, d), 0) == add3(digit(v, 0), digit(d, 0)),
        digit(shift(v, d), 1) == add3(digit(v, 1), digit(d, 1)),
        digit(shift(v, d), 2) == add3(digit(v, 2), digit(d, 2)),
        digit(shift(v, d), 3) == add3(digit(v, 3), digit(d, 3)),
{
    reveal(shift);
    lemma_unpack(v);
    lemma_unpack(d);
    lemma_pack(
        add3(digit(v, 0), digit(d, 0)),
        add3(digit(v, 1), digit(d, 1)),
        add3(digit(v, 2), digit(d, 2)),
        add3(digit(v, 3), digit(d, 3)),
    );
}

/// Two points below 81 with the same digits are the same point.
pub proof fn lemma_same_digits(v: int, w: int)
    requires
        0 <= v < 81,
        0 <= w < 81,
        digit(v, 0) == digit(w, 0),
        digit(v, 1) == digit(w, 1),
        digit(v, 2) == digit(w, 2),
        digit(v, 3) == digit(w, 3),
    ensures
        v == w,
{
    lemma_unpack(v);
    lemma_unpack(w);
}

/// A point below 81 other than 0 has a non-zero digit.
pub proof fn lemma_nonzero_digit(d: int)
    requires
        0 < d < 81,
    ensures
        digit(d, 0) != 0 || digit(d, 1) != 0 || digit(d, 2) != 0 || digit(d, 3) != 0,
{
    lemma_unpack(d);
}

/// Adding a vector three times returns to the start, and adding the double
/// is adding twice.
pub proof fn lemma_shift_cycle(v: int, d: int)
    requires
        0 <= v < 81,
        0 <= d < 81,
    ensures
        0 <= shift(v, d) < 81,
        0 <= shift(shift(v, d), d) < 81,
        0 <= twice(d) < 81,
        shift(shift(shift(v, d), d), d) == v,
        shift(v, twice(d)) == shift(shift(v, d), d),
{
    let a = shift(v, d);
    let b = shift(a, d);
    let c = shift(b, d);
    let t = twice(d);
    let u = shift(v, t);
    lemma_shift_digits(v, d);
    lemma_shift_digits(a, d);
    lemma_shift_digits(b, d);
    lemma_shift_digits(d, d);
    lemma_shift_digits(v, t);
    lemma_unpack(v);
    lemma_unpack(d);
    assert(digit(c, 0) == digit(v, 0));
    assert(digit(c, 1) == digit(v, 1));
    assert(digit(c, 2) == digit(v, 2));
    assert(digit(c, 3) == digit(v, 3));
    lemma_same_digits(c, v);
    assert(digit(u, 0) == digit(b, 0));
    assert(digit(u, 1) == digit(b, 1));
    assert(digit(u, 2) == digit(b, 2));
    assert(digit(u, 3) == digit(b, 3));
    lemma_same_digits(u, b);
}

/// The three points reached from `v` by adding a non-zero vector zero, one
/// and two times are pairwise distinct.
pub proof fn lemma_shift_moves(v: int, d: int)
    requires
        0 <= v < 81,
        0 < d < 81,
    ensures
        shift(v, d) != v,
        shift(shift(v, d), d) != v,
        shift(shift(v, d), d) != shift(v, d),
{
    let a = shift(v, d);
    let b = shift(a, d);
    lemma_shift_digits(v, d);
    lemma_shift_digits(a, d);
    lemma_unpack(v);
    lemma_unpack(d);
    lemma_nonzero_digit(d);
    if digit(d, 0) != 0 {
        assert(digit(a, 0) != digit(v, 0) && digit(b, 0) != digit(v, 0) && digit(b, 0) != digit(a, 0));
    } else if digit(d, 1) != 0 {
        assert(digit(a, 1) != digit(v, 1) && digit(b, 1) != digit(v, 1) && digit(b, 1) != digit(a, 1));
    } else if digit(d, 2) != 0 {
        assert(digit(a, 2) != digit(v, 2) && digit(b, 2) != digit(v, 2) && digit(b, 2) != digit(a, 2));
    } else {
        assert(digit(a, 3) != digit(v, 3) && digit(b, 3) != digit(v, 3) && digit(b, 3) != digit(a, 3));
    }
}

/// The displacement from `p` to `q` carries `p` to `q`, and the
/// displacement from `p` to `p + d` is `d`.
pub proof fn lemma_displacement(p: int, q: int, d: int)
    requires
        0 <= p < 81,
        0 <= q < 81,
        0 <= d < 81,
    ensures
        0 <= displacement(p, q) < 81,
        shift(p, displacement(p, q)) == q,
        displacement(p, shift(p, d)) == d,
        p != q ==> displacement(p, q) != 0,
{
    let t = twice(p);
    let e = displacement(p, q);
    let a = shift(p, d);
    lemma_shift_digits(p, p);
    lemma_shift_digits(q, t);
    lemma_shift_digits(p, e);
    lemma_shift_digits(p, d);
    lemma_shift_digits(a, t);
    lemma_unpack(p);
    lemma_unpack(q);
    lemma_unpack(d);
    let x = shift(p, e);
    assert(digit(x, 0) == digit(q, 0));
    assert(digit(x, 1) == digit(q, 1));
    assert(digit(x, 2) == digit(q, 2));
    assert(digit(x, 3) == digit(q, 3));
    lemma_same_digits(x, q);
    let y = displacement(p, a);
    assert(digit(y, 0) == digit(d, 0));
    assert(digit(y, 1) == digit(d, 1));
    assert(digit(y, 2) == digit(d, 2));
    assert(digit(y, 3) == digit(d, 3));
    lemma_same_digits(y, d);
    if e == 0 {
        lemma_unpack(e);
        assert(digit(e, 0) == 0 && digit(e, 1) == 0 && digit(e, 2) == 0 && digit(e, 3) == 0);
        lemma_same_digits(x, p);
    }
}

/// The sum modulo 3 of two digits.
fn add_digits(x: usize, y: usize) -> (r: usize)
    requires
        x < 3,
        y < 3,
    ensures
        r as int == add3(x as int, y as int),
        r < 3,
{
    (x + y) % 3
}

/// The digit-wise sum modulo 3 of a point and a vector.
pub fn step_point(p: usize, d: usize) -> (r: usize)
    requires
        p < 81,
        d < 81,
    ensures
        r as int == shift(p as int, d as int),
        r < 81,
{
    proof {
        reveal(digit);
    }
    let a = add_digits(p % 3, d % 3);
    let b = add_digits((p / 3) % 3, (d / 3) % 3);
    let c = add_digits((p / 9) % 3, (d / 9) % 3);
    let e = add_digits(p / 27, d / 27);
    proof {
        assert(a as int == add3(digit(p as int, 0), digit(d as int, 0)));
        assert(b as int == add3(digit(p as int, 1), digit(d as int, 1)));
        assert(c as int == add3(digit(p as int, 2), digit(d as int, 2)));
        assert(e as int == add3(digit(p as int, 3), digit(d as int, 3)));
        reveal(shift);
    }
    a + 3 * b + 9 * c + 27 * e
}

} // verus!
