//! Line drawing on the pixel grid.
//!
//! The line between two grid points is specified in closed form: along its
//! longer axis it visits every coordinate once, and on the shorter axis it
//! takes the nearest integer to the exact line, a half rounded away from the
//! start. The drawing loop is the classic error-accumulator walk, proved to
//! visit exactly these cells.

use vstd::prelude::*;
use vstd::arithmetic::div_mod::{lemma_fundamental_div_mod, lemma_fundamental_div_mod_converse, lemma_mod_bound};
use crate::framebuffer::{lemma_paint_nothing, lemma_paint_twice, Framebuffer};

verus! {

/// A grid position given by machine integers, as a pair of mathematical
/// integers.
pub open spec fn cell(p: (isize, isize)) -> (int, int) {
    (p.0 as int, p.1 as int)
}

/// The distance between two coordinates.
pub open spec fn span(from: int, to: int) -> int {
    if from <= to {
        to - from
    } else {
        from - to
    }
}

/// The coordinate `k` steps away from `from` in the direction of `to`.
pub open spec fn toward(from: int, to: int, k: int) -> int {
    if from < to {
        from + k
    } else {
        from - k
    }
}

/// The integer nearest to `num / den`, a half rounded up; 0 when `den` is 0.
pub open spec fn round_div(num: int, den: int) -> int {
    if den == 0 {
        0
    } else {
        (2 * num + den) / (2 * den)
    }
}

/// The number of steps a line takes: the larger of its two extents.
pub open spec fn line_steps(start: (int, int), end: (int, int)) -> int {
    let dx = span(start.0, end.0);
    let dy = span(start.1, end.1);
    if dx >= dy {
        dx
    } else {
        dy
    }
}

/// The cell a line reaches after `k` steps, for `0 <= k <= line_steps`.
pub open spec fn line_pixel(start: (int, int), end: (int, int), k: int) -> (int, int) {
    let dx = span(start.0, end.0);
    let dy = span(start.1, end.1);
    if dx >= dy {
        (toward(start.0, end.0, k), toward(start.1, end.1, round_div(dy * k, dx)))
    } else {
        (toward(start.0, end.0, round_div(dx * k, dy)), toward(start.1, end.1, k))
    }
}

/// The cells a line reaches in fewer than `n` steps.
pub open spec fn line_prefix(start: (int, int), end: (int, int), n: int) -> Set<(int, int)> {
    Set::new(|p: (int, int)| exists|k: int| 0 <= k < n && #[trigger] line_pixel(start, end, k) == p)
}

/// All cells of the line from `start` to `end`, both ends included.
pub open spec fn line_pixels(start: (int, int), end: (int, int)) -> Set<(int, int)> {
    line_prefix(start, end, line_steps(start, end) + 1)
}

/// `q` is the rounded quotient of `num` by `den` when twice the numerator
/// plus the denominator lies in the `q`-th interval of length `2 * den`.
/// The product `den * q` is passed as `dq`.
proof fn lemma_round_div_is(num: int, den: int, q: int, dq: int)
    requires
        den > 0,
        dq == den * q,
        2 * dq <= 2 * num + den < 2 * dq + 2 * den,
    ensures
        round_div(num, den) == q,
{
    assert(q * (2 * den) == 2 * dq) by (nonlinear_arith)
        requires
            dq == den * q,
    ;
    lemma_fundamental_div_mod_converse(2 * num + den, 2 * den, q, 2 * num + den - 2 * dq);
}

/// The rounded quotient `q` of `num` by a positive `den` is the one integer
/// with `2 * den * q <= 2 * num + den < 2 * den * (q + 1)`.
proof fn lemma_round_div_bounds(num: int, den: int)
    requires
        den > 0,
    ensures
        2 * (den * round_div(num, den)) <= 2 * num + den < 2 * (den * round_div(num, den)) + 2
            * den,
        2 * (den * round_div(num, den)) == 2 * num + den <==> (2 * num + den) % (2 * den) == 0,
{
    let t = 2 * num + den;
    let q = t / (2 * den);
    lemma_fundamental_div_mod(t, 2 * den);
    lemma_mod_bound(t, 2 * den);
    assert((2 * den) * q == 2 * (den * q)) by (nonlinear_arith);
}

/// The exact line passes midway between two cells after `k` steps, where
/// `major` is the longer and `minor` the shorter extent.
pub open spec fn tie_at(minor: int, major: int, k: int) -> bool {
    major > 0 && (2 * (minor * k) + major) % (2 * major) == 0
}

/// The line has a step at which it passes midway between two cells. There
/// the rounding depends on the direction of travel.
pub open spec fn line_ties(start: (int, int), end: (int, int)) -> bool {
    let dx = span(start.0, end.0);
    let dy = span(start.1, end.1);
    if dx >= dy {
        exists|k: int| 0 <= k <= dx && #[trigger] tie_at(dy, dx, k)
    } else {
        exists|k: int| 0 <= k <= dy && #[trigger] tie_at(dx, dy, k)
    }
}

/// On the shorter axis a line advances by `round_div(minor * k, major)`
/// after `k` steps: between 0 and `minor`, by at most one per step, and
/// mirrored from the other end except at a tie, where the two directions
/// differ by one.
proof fn lemma_minor_axis(minor: int, major: int, k: int)
    requires
        0 <= minor <= major,
        0 < major,
        0 <= k <= major,
    ensures
        0 <= round_div(minor * k, major) <= minor,
        k == 0 ==> round_div(minor * k, major) == 0,
        k == major ==> round_div(minor * k, major) == minor,
        k < major ==> round_div(minor * k, major) <= round_div(minor * (k + 1), major)
            <= round_div(minor * k, major) + 1,
        round_div(minor * k, major) + round_div(minor * (major - k), major) == minor + (if tie_at(
            minor,
            major,
            k,
        ) {
            1int
        } else {
            0int
        }),
{
    let mk = minor * k;
    let q = round_div(mk, major);
    let nq = major * q;
    let mn = minor * major;
    lemma_round_div_bounds(mk, major);
    assert(0 <= mk <= mn) by (nonlinear_arith)
        requires
            mk == minor * k,
            mn == minor * major,
            0 <= minor,
            0 <= k <= major,
    ;
    // 0 <= q <= minor
    assert(0 <= q <= minor) by (nonlinear_arith)
        requires
            nq == major * q,
            mn == minor * major,
            0 < major,
            0 <= mk <= mn,
            2 * nq <= 2 * mk + major < 2 * nq + 2 * major,
    ;
    if k == 0 {
        assert(minor * 0 == 0) by (nonlinear_arith);
        lemma_round_div_is(0, major, 0, 0);
    }
    if k == major {
        assert(major * minor == minor * major) by (nonlinear_arith);
        lemma_round_div_is(mn, major, minor, mn);
    }
    if k < major {
        let mk1 = minor * (k + 1);
        let q1 = round_div(mk1, major);
        let nq1 = major * q1;
        lemma_round_div_bounds(mk1, major);
        assert(mk1 == mk + minor) by (nonlinear_arith)
            requires
                mk1 == minor * (k + 1),
                mk == minor * k,
        ;
        assert(q <= q1 <= q + 1) by (nonlinear_arith)
            requires
                nq == major * q,
                nq1 == major * q1,
                0 < major,
                0 <= minor <= major,
                mk1 == mk + minor,
                2 * nq <= 2 * mk + major < 2 * nq + 2 * major,
                2 * nq1 <= 2 * mk1 + major < 2 * nq1 + 2 * major,
        ;
    }
    // The mirror image.
    let back = minor * (major - k);
    assert(back == mn - mk) by (nonlinear_arith)
        requires
            back == minor * (major - k),
            mn == minor * major,
            mk == minor * k,
    ;
    if tie_at(minor, major, k) {
        let qb = minor + 1 - q;
        assert(major * qb == mn + major - nq) by (nonlinear_arith)
            requires
                qb == minor + 1 - q,
                mn == minor * major,
                nq == major * q,
        ;
        lemma_round_div_is(back, major, qb, mn + major - nq);
    } else {
        let qb = minor - q;
        assert(major * qb == mn - nq) by (nonlinear_arith)
            requires
                qb == minor - q,
                mn == minor * major,
                nq == major * q,
        ;
        lemma_round_div_is(back, major, qb, mn - nq);
    }
}

/// A line starts at its start and ends at its end.
pub proof fn lemma_line_ends(start: (int, int), end: (int, int))
    ensures
        line_pixel(start, end, 0) == start,
        line_pixel(start, end, line_steps(start, end)) == end,
        line_pixels(start, end).contains(start),
        line_pixels(start, end).contains(end),
{
    let dx = span(start.0, end.0);
    let dy = span(start.1, end.1);
    let n = line_steps(start, end);
    if dx >= dy {
        if dx > 0 {
            lemma_minor_axis(dy, dx, 0);
            lemma_minor_axis(dy, dx, dx);
        } else {
            assert(dy * 0 == 0) by (nonlinear_arith);
        }
    } else {
        lemma_minor_axis(dx, dy, 0);
        lemma_minor_axis(dx, dy, dy);
    }
    assert(0 <= 0 < n + 1 && line_pixel(start, end, 0) == start);
    assert(0 <= n < n + 1 && line_pixel(start, end, n) == end);
}

/// A line never leaves the box spanned by its two ends.
pub proof fn lemma_line_in_box(start: (int, int), end: (int, int), k: int)
    requires
        0 <= k <= line_steps(start, end),
    ensures
        span(start.0, line_pixel(start, end, k).0) + span(line_pixel(start, end, k).0, end.0)
            == span(start.0, end.0),
        span(start.1, line_pixel(start, end, k).1) + span(line_pixel(start, end, k).1, end.1)
            == span(start.1, end.1),
{
    let dx = span(start.0, end.0);
    let dy = span(start.1, end.1);
    if dx >= dy {
        if dx > 0 {
            lemma_minor_axis(dy, dx, k);
        }
    } else {
        lemma_minor_axis(dx, dy, k);
    }
}

/// A line has no gaps: each step moves to one of the eight neighbours of
/// the cell before, and always along the longer axis.
pub proof fn lemma_line_connected(start: (int, int), end: (int, int), k: int)
    requires
        0 <= k < line_steps(start, end),
    ensures
        span(line_pixel(start, end, k).0, line_pixel(start, end, k + 1).0) <= 1,
        span(line_pixel(start, end, k).1, line_pixel(start, end, k + 1).1) <= 1,
        line_pixel(start, end, k) != line_pixel(start, end, k + 1),
{
    let dx = span(start.0, end.0);
    let dy = span(start.1, end.1);
    if dx >= dy {
        lemma_minor_axis(dy, dx, k);
    } else {
        lemma_minor_axis(dx, dy, k);
    }
}

/// Away from a tie, the cell reached after `k` steps is the cell that the
/// reversed line reaches `k` steps before its end.
proof fn lemma_line_mirror(start: (int, int), end: (int, int), k: int)
    requires
        0 <= k <= line_steps(start, end),
        !line_ties(start, end),
    ensures
        line_pixel(start, end, k) == line_pixel(end, start, line_steps(start, end) - k),
{
    let dx = span(start.0, end.0);
    let dy = span(start.1, end.1);
    if dx >= dy {
        if dx > 0 {
            lemma_minor_axis(dy, dx, k);
            assert(!tie_at(dy, dx, k));
        } else {
            assert(dy * 0 == 0) by (nonlinear_arith);
        }
    } else {
        lemma_minor_axis(dx, dy, k);
        assert(!tie_at(dx, dy, k));
    }
}

/// Drawing a line from either end gives the same cells, unless the line has
/// a tie.
pub proof fn lemma_line_symmetric(start: (int, int), end: (int, int))
    requires
        !line_ties(start, end),
    ensures
        line_pixels(start, end) == line_pixels(end, start),
{
    let n = line_steps(start, end);
    assert(n == line_steps(end, start));
    let there = line_pixels(start, end);
    let back = line_pixels(end, start);
    assert forall|p: (int, int)| there.contains(p) <==> back.contains(p) by {
        if there.contains(p) {
            let k = choose|k: int| 0 <= k < n + 1 && #[trigger] line_pixel(start, end, k) == p;
            lemma_line_mirror(start, end, k);
            assert(0 <= n - k < n + 1 && line_pixel(end, start, n - k) == p);
        }
        if back.contains(p) {
            let k = choose|k: int| 0 <= k < n + 1 && #[trigger] line_pixel(end, start, k) == p;
            lemma_line_mirror(start, end, n - k);
            assert(0 <= n - k < n + 1 && line_pixel(start, end, n - k) == p);
        }
    }
    assert(there =~= back);
}

/// A line with a tie is not symmetric: at the tie, each direction rounds
/// away from its own start, so the two lines take different cells there.
pub proof fn lemma_line_asymmetric(start: (int, int), end: (int, int))
    requires
        line_ties(start, end),
    ensures
        line_pixels(start, end) != line_pixels(end, start),
{
    let dx = span(start.0, end.0);
    let dy = span(start.1, end.1);
    let n = line_steps(start, end);
    assert(n == line_steps(end, start));
    let k = if dx >= dy {
        choose|k: int| 0 <= k <= dx && #[trigger] tie_at(dy, dx, k)
    } else {
        choose|k: int| 0 <= k <= dy && #[trigger] tie_at(dx, dy, k)
    };
    let p = line_pixel(start, end, k);
    assert(0 <= k < n + 1 && line_pixel(start, end, k) == p);
    assert(line_pixels(start, end).contains(p));
    if line_pixels(end, start).contains(p) {
        let m = choose|m: int| 0 <= m < n + 1 && #[trigger] line_pixel(end, start, m) == p;
        if dx >= dy {
            lemma_minor_axis(dy, dx, k);
            lemma_minor_axis(dy, dx, n - k);
            if dy == 0 {
                assert(dy * k == 0) by (nonlinear_arith)
                    requires
                        dy == 0,
                ;
                lemma_fundamental_div_mod_converse(dx, 2 * dx, 0, dx);
            }
            assert(m == n - k);
            assert(false);
        } else {
            lemma_minor_axis(dx, dy, k);
            lemma_minor_axis(dx, dy, n - k);
            if dx == 0 {
                assert(dx * k == 0) by (nonlinear_arith)
                    requires
                        dx == 0,
                ;
                lemma_fundamental_div_mod_converse(dy, 2 * dy, 0, dy);
            }
            assert(m == n - k);
            assert(false);
        }
    }
}

/// One more step extends a prefix of the line by one cell.
proof fn lemma_line_prefix_step(start: (int, int), end: (int, int), n: int)
    requires
        0 <= n,
    ensures
        line_prefix(start, end, n + 1) == line_prefix(start, end, n).union(
            set![line_pixel(start, end, n)],
        ),
        line_prefix(start, end, 0) == Set::<(int, int)>::empty(),
{
    let bigger = line_prefix(start, end, n + 1);
    let smaller = line_prefix(start, end, n);
    let last = line_pixel(start, end, n);
    assert forall|p: (int, int)| bigger.contains(p) <==> smaller.union(set![last]).contains(
        p,
    ) by {
        if bigger.contains(p) {
            let k = choose|k: int| 0 <= k < n + 1 && #[trigger] line_pixel(start, end, k) == p;
            if k < n {
                assert(smaller.contains(p));
            }
        }
        if smaller.contains(p) {
            let k = choose|k: int| 0 <= k < n && #[trigger] line_pixel(start, end, k) == p;
            assert(0 <= k < n + 1 && line_pixel(start, end, k) == p);
        }
        if p == last {
            assert(0 <= n < n + 1 && line_pixel(start, end, n) == p);
        }
    }
    assert(bigger =~= smaller.union(set![last]));
    assert(line_prefix(start, end, 0) =~= Set::<(int, int)>::empty());
}

/// Something that lines can be drawn on.
pub trait Line {
    /// Draws the line from `start` to `end`, both ends included.
    fn line(&mut self, start: (isize, isize), end: (isize, isize));
}

impl Line for Framebuffer {
    /// Paints exactly the cells of `line_pixels(start, end)` that lie on the
    /// grid, in the drawing colour.
    fn line(&mut self, start: (isize, isize), end: (isize, isize))
        ensures
            final(self)@ == old(self)@.paint(line_pixels(cell(start), cell(end))),
    {
        let (x1, y1) = start;
        let (x2, y2) = end;
        let mut x: isize = x1;
        let mut y: isize = y1;
        let dx: i128 = if x1 < x2 {
            x2 as i128 - x1 as i128
        } else {
            x1 as i128 - x2 as i128
        };
        let dy: i128 = if y1 < y2 {
            y1 as i128 - y2 as i128
        } else {
            y2 as i128 - y1 as i128
        };
        let sx: isize = if x1 < x2 {
            1
        } else {
            -1
        };
        let sy: isize = if y1 < y2 {
            1
        } else {
            -1
        };
        let mut err: i128 = dx + dy;

        let ghost a: int = dx as int;
        let ghost b: int = -(dy as int);
        let ghost from = cell(start);
        let ghost to = cell(end);
        // Steps taken so far along each axis, and their products with the
        // opposite extent.
        let ghost mut i: int = 0;
        let ghost mut j: int = 0;
        let ghost mut aj: int = 0;
        let ghost mut bi: int = 0;
        proof {
            lemma_line_prefix_step(from, to, 0);
            lemma_paint_nothing(old(self)@);
            assert(a * 0 == 0 && b * 0 == 0) by (nonlinear_arith);
        }
        loop
            invariant_except_break
                from == cell(start),
                to == cell(end),
                start == (x1, y1),
                end == (x2, y2),
                a == span(x1 as int, x2 as int),
                b == span(y1 as int, y2 as int),
                dx == a,
                dy == -b,
                sx == (if x1 < x2 { 1isize } else { -1isize }),
                sy == (if y1 < y2 { 1isize } else { -1isize }),
                0 <= i <= a,
                0 <= j <= b,
                aj == a * j,
                bi == b * i,
                x == toward(x1 as int, x2 as int, i),
                y == toward(y1 as int, y2 as int, j),
                err == aj + a - bi - b,
                a >= b ==> 2 * aj <= 2 * bi + a < 2 * aj + 2 * a || (a == 0 && i == 0 && j == 0),
                a < b ==> 2 * bi <= 2 * aj + b < 2 * bi + 2 * b,
                self@ == old(self)@.paint(line_prefix(from, to, if a >= b { i } else { j })),
            ensures
                self@ == old(self)@.paint(line_pixels(cell(start), cell(end))),
            decreases (a - i) + (b - j),
        {
            let ghost k = if a >= b { i } else { j };
            self.point(x, y);
            proof {
                // The point just drawn is the line's k-th cell.
                if a >= b {
                    if a > 0 {
                        lemma_round_div_is(bi, a, j, aj);
                    }
                } else {
                    lemma_round_div_is(aj, b, i, bi);
                }
                assert(line_pixel(from, to, k) == (x as int, y as int));
                lemma_line_prefix_step(from, to, k);
                lemma_paint_twice(old(self)@, line_prefix(from, to, k), set![(x as int, y as int)]);
                assert(self@ == old(self)@.paint(line_prefix(from, to, k + 1)));
            }
            if x == x2 && y == y2 {
                break;
            }
            let e2: i128 = 2 * err;
            proof {
                // An axis that has arrived is never stepped again.
                if i == a && j < b {
                    assert(a * (j + 1) <= a * b && a * (j + 1) == a * j + a && b * a == a * b)
                        by (nonlinear_arith)
                        requires
                            0 <= a,
                            0 <= j + 1 <= b,
                    ;
                    assert(e2 < dy);
                }
                if j == b && i < a {
                    assert(b * (i + 1) <= b * a && b * (i + 1) == b * i + b && b * a == a * b)
                        by (nonlinear_arith)
                        requires
                            0 <= b,
                            0 <= i + 1 <= a,
                    ;
                    assert(e2 > dx);
                }
            }
            if e2 >= dy {
                if x == x2 {
                    break;
                }
                err += dy;
                x += sx;
                proof {
                    assert(b * (i + 1) == b * i + b) by (nonlinear_arith);
                    i = i + 1;
                    bi = bi + b;
                }
            }
            if e2 <= dx {
                if y == y2 {
                    break;
                }
                err += dx;
                y += sy;
                proof {
                    assert(a * (j + 1) == a * j + a) by (nonlinear_arith);
                    j = j + 1;
                    aj = aj + a;
                }
            }
        }
    }
}

} // verus!
