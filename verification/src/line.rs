//! Discrete line rasterization.
//!
//! A line between two integer pixel endpoints is walked along its major axis
//! (the axis with the larger coordinate delta), one unit step at a time; the
//! minor-axis coordinate of the `k`-th pixel is obtained by proportional
//! integer scaling.  The spec functions below give that pixel in closed form,
//! and the executable walkers are proved to emit exactly those pixels.

use vstd::prelude::*;

verus! {

use vstd::arithmetic::div_mod::{
    lemma_div_is_ordered,
    lemma_div_multiples_vanish,
    lemma_div_of0,
    lemma_div_plus_one,
    lemma_div_pos_is_pos,
};
use vstd::arithmetic::mul::{lemma_mul_inequality, lemma_mul_nonnegative};

/// Largest coordinate magnitude the rasterizer accepts; keeps every
/// intermediate product of two coordinate deltas inside 63 bits.
pub const COORD_LIMIT: i32 = 0x4000_0000;

pub open spec fn coord_ok(c: int) -> bool {
    -(COORD_LIMIT as int) <= c <= COORD_LIMIT as int
}

pub open spec fn iabs(a: int) -> int {
    if a < 0 {
        -a
    } else {
        a
    }
}

pub open spec fn isgn(a: int) -> int {
    if a > 0 {
        1
    } else if a < 0 {
        -1
    } else {
        0
    }
}

pub open spec fn imin(a: int, b: int) -> int {
    if a < b {
        a
    } else {
        b
    }
}

pub open spec fn imax(a: int, b: int) -> int {
    if a < b {
        b
    } else {
        a
    }
}

/// Number of unit steps along the major axis; the line from `(x1, y1)` to
/// `(x2, y2)` consists of exactly `line_steps(...) + 1` pixels.
pub open spec fn line_steps(x1: int, y1: int, x2: int, y2: int) -> int {
    imax(iabs(x2 - x1), iabs(y2 - y1))
}

/// The x coordinate of the `k`-th pixel of the line.  On the major axis the
/// coordinate advances by one per step; on the minor axis it is scaled
/// proportionally, rounding the magnitude of the offset down.
pub open spec fn line_x(x1: int, y1: int, x2: int, y2: int, k: int) -> int {
    if iabs(x2 - x1) >= iabs(y2 - y1) {
        x1 + isgn(x2 - x1) * k
    } else {
        x1 + isgn(x2 - x1) * ((iabs(x2 - x1) * k) / iabs(y2 - y1))
    }
}

/// The y coordinate of the `k`-th pixel of the line.
pub open spec fn line_y(x1: int, y1: int, x2: int, y2: int, k: int) -> int {
    if iabs(y2 - y1) > iabs(x2 - x1) {
        y1 + isgn(y2 - y1) * k
    } else if iabs(x2 - x1) > 0 {
        y1 + isgn(y2 - y1) * ((iabs(y2 - y1) * k) / iabs(x2 - x1))
    } else {
        y1
    }
}

/// Whether pixel `(px, py)` lies on the discrete line from `(x1, y1)` to
/// `(x2, y2)`.
pub open spec fn on_line(x1: int, y1: int, x2: int, y2: int, px: int, py: int) -> bool {
    exists|k: int|
        0 <= k <= line_steps(x1, y1, x2, y2) && line_x(x1, y1, x2, y2, k) == px && line_y(
            x1,
            y1,
            x2,
            y2,
            k,
        ) == py
}

/// Whether the `k`-th pixel of the line lies on row `y1 + r` (rows are
/// counted from the first endpoint).
pub open spec fn hits_row(x1: int, y1: int, x2: int, y2: int, k: int, r: int) -> bool {
    0 <= k <= line_steps(x1, y1, x2, y2) && line_y(x1, y1, x2, y2, k) == y1 + r
}

/// Multiplying by a sign factor keeps a bounded magnitude bounded.
pub(crate) proof fn lemma_sgn_mul(s: int, q: int, b: int)
    requires
        -1 <= s <= 1,
        0 <= q <= b,
    ensures
        -b <= s * q <= b,
        s == 1 ==> s * q == q,
        s == -1 ==> s * q == -q,
        s == 0 ==> s * q == 0,
{
    if s == 1 {
        assert(s * q == q) by (nonlinear_arith)
            requires
                s == 1,
        ;
    } else if s == -1 {
        assert(s * q == -q) by (nonlinear_arith)
            requires
                s == -1,
        ;
    } else {
        assert(s * q == 0) by (nonlinear_arith)
            requires
                s == 0,
        ;
    }
}

/// The product of two values below a common bound stays below its square.
pub(crate) proof fn lemma_mul_le(a: int, k: int, b: int)
    requires
        0 <= a <= b,
        0 <= k <= b,
    ensures
        0 <= a * k <= b * b,
{
    lemma_mul_nonnegative(a, k);
    assert(a * k <= b * b) by (nonlinear_arith)
        requires
            0 <= a <= b,
            0 <= k <= b,
    ;
}

/// The scaled minor offset stays between 0 and the full minor delta.
pub(crate) proof fn lemma_mul_div_range(a: int, k: int, n: int)
    requires
        0 <= a,
        0 <= k <= n,
        0 < n,
    ensures
        0 <= (a * k) / n <= a,
{
    lemma_mul_nonnegative(a, k);
    lemma_div_pos_is_pos(a * k, n);
    lemma_mul_inequality(k, n, a);
    assert(k * a == a * k) by (nonlinear_arith);
    assert(n * a == a * n) by (nonlinear_arith);
    lemma_div_is_ordered(a * k, n * a, n);
    lemma_div_multiples_vanish(a, n);
}

/// One major-axis step moves the scaled minor offset by at most one.
proof fn lemma_mul_div_step(a: int, k: int, n: int)
    requires
        0 <= a <= n,
        0 <= k,
        0 < n,
    ensures
        (a * k) / n <= (a * (k + 1)) / n <= (a * k) / n + 1,
{
    assert(a * (k + 1) == a * k + a) by (nonlinear_arith);
    lemma_div_is_ordered(a * k, a * k + a, n);
    lemma_div_is_ordered(a * k + a, a * k + n, n);
    lemma_div_plus_one(a * k, n);
}

/// A discrete line contains both of its endpoints: pixel 0 is `(x1, y1)` and
/// the last pixel is `(x2, y2)`.
pub proof fn lemma_line_endpoints(x1: int, y1: int, x2: int, y2: int)
    ensures
        line_x(x1, y1, x2, y2, 0) == x1,
        line_y(x1, y1, x2, y2, 0) == y1,
        line_x(x1, y1, x2, y2, line_steps(x1, y1, x2, y2)) == x2,
        line_y(x1, y1, x2, y2, line_steps(x1, y1, x2, y2)) == y2,
{
    let dx = x2 - x1;
    let dy = y2 - y1;
    let adx = iabs(dx);
    let ady = iabs(dy);
    let n = line_steps(x1, y1, x2, y2);
    lemma_sgn_mul(isgn(dx), 0, 0);
    lemma_sgn_mul(isgn(dy), 0, 0);
    lemma_sgn_mul(isgn(dx), adx, adx);
    lemma_sgn_mul(isgn(dy), ady, ady);
    if adx >= ady {
        if adx > 0 {
            assert(ady * 0 == 0) by (nonlinear_arith);
            lemma_div_of0(adx);
            lemma_div_multiples_vanish(ady, adx);
            assert(ady * adx == adx * ady) by (nonlinear_arith);
            assert((ady * n) / adx == ady);
        }
    } else {
        assert(adx * 0 == 0) by (nonlinear_arith);
        lemma_div_of0(ady);
        lemma_div_multiples_vanish(adx, ady);
        assert(adx * ady == ady * adx) by (nonlinear_arith);
        assert((adx * n) / ady == adx);
    }
}

/// Each pixel coordinate stays between the two endpoint coordinates.
pub proof fn lemma_line_in_box(x1: int, y1: int, x2: int, y2: int, k: int)
    requires
        0 <= k <= line_steps(x1, y1, x2, y2),
    ensures
        imin(x1, x2) <= line_x(x1, y1, x2, y2, k) <= imax(x1, x2),
        imin(y1, y2) <= line_y(x1, y1, x2, y2, k) <= imax(y1, y2),
{
    let adx = iabs(x2 - x1);
    let ady = iabs(y2 - y1);
    let n = line_steps(x1, y1, x2, y2);
    if adx >= ady {
        if adx > 0 {
            lemma_mul_div_range(ady, k, adx);
        }
    } else {
        lemma_mul_div_range(adx, k, ady);
    }
}

/// Consecutive pixels of a line are distinct and 8-connected: each
/// coordinate changes by at most one per step, and the major-axis coordinate
/// changes by exactly one.
pub proof fn lemma_line_connected(x1: int, y1: int, x2: int, y2: int, k: int)
    requires
        0 <= k < line_steps(x1, y1, x2, y2),
    ensures
        iabs(line_x(x1, y1, x2, y2, k + 1) - line_x(x1, y1, x2, y2, k)) <= 1,
        iabs(line_y(x1, y1, x2, y2, k + 1) - line_y(x1, y1, x2, y2, k)) <= 1,
        !(line_x(x1, y1, x2, y2, k + 1) == line_x(x1, y1, x2, y2, k) && line_y(
            x1,
            y1,
            x2,
            y2,
            k + 1,
        ) == line_y(x1, y1, x2, y2, k)),
{
    let dx = x2 - x1;
    let dy = y2 - y1;
    let adx = iabs(dx);
    let ady = iabs(dy);
    if adx >= ady {
        assert(isgn(dx) * (k + 1) - isgn(dx) * k == isgn(dx)) by (nonlinear_arith);
        assert(adx > 0);
        let q0 = (ady * k) / adx;
        let q1 = (ady * (k + 1)) / adx;
        lemma_mul_div_step(ady, k, adx);
        assert(isgn(dy) * q1 - isgn(dy) * q0 == isgn(dy) * (q1 - q0)) by (nonlinear_arith);
        lemma_sgn_mul(isgn(dy), q1 - q0, 1);
    } else {
        assert(isgn(dy) * (k + 1) - isgn(dy) * k == isgn(dy)) by (nonlinear_arith);
        let q0 = (adx * k) / ady;
        let q1 = (adx * (k + 1)) / ady;
        lemma_mul_div_step(adx, k, ady);
        assert(isgn(dx) * q1 - isgn(dx) * q0 == isgn(dx) * (q1 - q0)) by (nonlinear_arith);
        lemma_sgn_mul(isgn(dx), q1 - q0, 1);
    }
}

/// Characterizes row `r` of the span table `w` after merging the first `m`
/// pixels of the line into the table `w0`: the recorded span `[lo, hi]`
/// covers every merged pixel on that row, is no tighter than the old span,
/// and each of its two bounds is either the old bound or an x actually
/// visited on that row (so it is exactly the min/max of old span and visits).
pub open spec fn row_state(
    w0: Seq<(i32, i32)>,
    w: Seq<(i32, i32)>,
    x1: int,
    y1: int,
    x2: int,
    y2: int,
    r: int,
    m: int,
) -> bool {
    &&& (forall|j: int|
        j < m && #[trigger] hits_row(x1, y1, x2, y2, j, r) ==> w[r].0 as int <= line_x(
            x1,
            y1,
            x2,
            y2,
            j,
        ) <= w[r].1 as int)
    &&& (r < w0.len() ==> w[r].0 <= w0[r].0 && w[r].1 >= w0[r].1)
    &&& ((r < w0.len() && w[r].0 == w0[r].0) || exists|j: int|
        j < m && #[trigger] hits_row(x1, y1, x2, y2, j, r) && line_x(x1, y1, x2, y2, j) == w[r].0 as int)
    &&& ((r < w0.len() && w[r].1 == w0[r].1) || exists|j: int|
        j < m && #[trigger] hits_row(x1, y1, x2, y2, j, r) && line_x(x1, y1, x2, y2, j) == w[r].1 as int)
}

/// Characterizes row `r` of the span table after a whole line was merged.
pub open spec fn row_merged(
    w0: Seq<(i32, i32)>,
    w: Seq<(i32, i32)>,
    x1: int,
    y1: int,
    x2: int,
    y2: int,
    r: int,
) -> bool {
    row_state(w0, w, x1, y1, x2, y2, r, line_steps(x1, y1, x2, y2) + 1)
}

/// On a line walked downwards (`y1 <= y2`) the row never decreases.
pub proof fn lemma_row_monotonic(x1: int, y1: int, x2: int, y2: int, j: int, k: int)
    requires
        y1 <= y2,
        0 <= j <= k <= line_steps(x1, y1, x2, y2),
    ensures
        line_y(x1, y1, x2, y2, j) <= line_y(x1, y1, x2, y2, k),
{
    let dx = x2 - x1;
    let dy = y2 - y1;
    let adx = iabs(dx);
    let ady = iabs(dy);
    if ady > adx {
        lemma_sgn_mul(isgn(dy), j, k);
        lemma_sgn_mul(isgn(dy), k, k);
    } else if adx > 0 {
        let qj = (ady * j) / adx;
        let qk = (ady * k) / adx;
        lemma_mul_nonnegative(ady, j);
        lemma_mul_inequality(j, k, ady);
        assert(ady * j == j * ady && ady * k == k * ady) by (nonlinear_arith);
        lemma_div_is_ordered(ady * j, ady * k, adx);
        lemma_div_pos_is_pos(ady * j, adx);
        lemma_sgn_mul(isgn(dy), qj, qk);
        lemma_sgn_mul(isgn(dy), qk, qk);
    }
}

/// On a line walked downwards, one step advances the row by zero or one.
pub proof fn lemma_row_step(x1: int, y1: int, x2: int, y2: int, k: int)
    requires
        y1 <= y2,
        0 <= k < line_steps(x1, y1, x2, y2),
    ensures
        line_y(x1, y1, x2, y2, k) <= line_y(x1, y1, x2, y2, k + 1) <= line_y(x1, y1, x2, y2, k)
            + 1,
{
    lemma_row_monotonic(x1, y1, x2, y2, k, k + 1);
    lemma_line_connected(x1, y1, x2, y2, k);
}

proof fn lemma_row_hit_below(x1: int, y1: int, x2: int, y2: int, r: int, k: int)
    requires
        y1 <= y2,
        0 <= k <= line_steps(x1, y1, x2, y2),
        0 <= r,
        y1 + r <= line_y(x1, y1, x2, y2, k),
    ensures
        exists|j: int| hits_row(x1, y1, x2, y2, j, r),
    decreases k,
{
    lemma_line_endpoints(x1, y1, x2, y2);
    if line_y(x1, y1, x2, y2, k) == y1 + r {
        assert(hits_row(x1, y1, x2, y2, k, r));
    } else {
        assert(k > 0);
        lemma_row_step(x1, y1, x2, y2, k - 1);
        lemma_row_hit_below(x1, y1, x2, y2, r, k - 1);
    }
}

/// A line walked downwards visits every row between its endpoints.
pub proof fn lemma_row_surjective(x1: int, y1: int, x2: int, y2: int, r: int)
    requires
        y1 <= y2,
        0 <= r <= y2 - y1,
    ensures
        exists|j: int| hits_row(x1, y1, x2, y2, j, r),
{
    lemma_line_endpoints(x1, y1, x2, y2);
    lemma_row_hit_below(x1, y1, x2, y2, r, line_steps(x1, y1, x2, y2));
}

/// Pixel `k` of the reversed line is pixel `steps - k` of the original, for
/// axis-aligned and exactly diagonal lines.
proof fn lemma_line_rev_pixel(x1: int, y1: int, x2: int, y2: int, k: int)
    requires
        x1 == x2 || y1 == y2 || iabs(x2 - x1) == iabs(y2 - y1),
        0 <= k <= line_steps(x1, y1, x2, y2),
    ensures
        line_steps(x2, y2, x1, y1) == line_steps(x1, y1, x2, y2),
        line_x(x2, y2, x1, y1, k) == line_x(x1, y1, x2, y2, line_steps(x1, y1, x2, y2) - k),
        line_y(x2, y2, x1, y1, k) == line_y(x1, y1, x2, y2, line_steps(x1, y1, x2, y2) - k),
{
    let dx = x2 - x1;
    let dy = y2 - y1;
    let n = line_steps(x1, y1, x2, y2);
    lemma_sgn_mul(isgn(dx), iabs(dx), iabs(dx));
    lemma_sgn_mul(isgn(dy), iabs(dy), iabs(dy));
    assert(isgn(dx) * (n - k) == isgn(dx) * n - isgn(dx) * k) by (nonlinear_arith);
    assert(isgn(dy) * (n - k) == isgn(dy) * n - isgn(dy) * k) by (nonlinear_arith);
    assert(isgn(-dx) * k == -(isgn(dx) * k)) by (nonlinear_arith);
    assert(isgn(-dy) * k == -(isgn(dy) * k)) by (nonlinear_arith);
    if x1 == x2 && y1 == y2 {
    } else if x1 == x2 || y1 == y2 {
        if iabs(dy) > 0 {
            assert(iabs(dx) * k == 0 && iabs(dx) * (n - k) == 0) by (nonlinear_arith)
                requires
                    iabs(dx) == 0,
            ;
            lemma_div_of0(iabs(dy));
            lemma_sgn_mul(isgn(dx), 0, 0);
            lemma_sgn_mul(isgn(-dx), 0, 0);
        } else {
            assert(iabs(dy) * k == 0 && iabs(dy) * (n - k) == 0) by (nonlinear_arith)
                requires
                    iabs(dy) == 0,
            ;
            lemma_div_of0(iabs(dx));
            lemma_sgn_mul(isgn(dy), 0, 0);
            lemma_sgn_mul(isgn(-dy), 0, 0);
        }
    } else {
        assert(iabs(dx) == iabs(dy) == n && n > 0);
        lemma_div_multiples_vanish(k, n);
        lemma_div_multiples_vanish(n - k, n);
        assert(iabs(dx) * k == n * k && iabs(dx) * (n - k) == n * (n - k)) by (nonlinear_arith)
            requires
                iabs(dx) == n,
        ;
        assert(iabs(dy) * k == n * k && iabs(dy) * (n - k) == n * (n - k)) by (nonlinear_arith)
            requires
                iabs(dy) == n,
        ;
    }
}

/// Rasterizing a line in the opposite direction visits the same set of
/// pixels, for horizontal, vertical and exactly diagonal lines.
pub proof fn lemma_line_direction_symmetric(x1: int, y1: int, x2: int, y2: int)
    requires
        x1 == x2 || y1 == y2 || iabs(x2 - x1) == iabs(y2 - y1),
    ensures
        forall|px: int, py: int|
            on_line(x1, y1, x2, y2, px, py) <==> on_line(x2, y2, x1, y1, px, py),
{
    let n = line_steps(x1, y1, x2, y2);
    lemma_line_rev_pixel(x1, y1, x2, y2, 0);
    assert forall|px: int, py: int|
        on_line(x1, y1, x2, y2, px, py) implies on_line(x2, y2, x1, y1, px, py) by {
        let k = choose|k: int|
            0 <= k <= n && line_x(x1, y1, x2, y2, k) == px && line_y(x1, y1, x2, y2, k) == py;
        lemma_line_rev_pixel(x1, y1, x2, y2, n - k);
        assert(line_x(x2, y2, x1, y1, n - k) == px && line_y(x2, y2, x1, y1, n - k) == py);
    }
    assert forall|px: int, py: int|
        on_line(x2, y2, x1, y1, px, py) implies on_line(x1, y1, x2, y2, px, py) by {
        let k = choose|k: int|
            0 <= k <= n && line_x(x2, y2, x1, y1, k) == px && line_y(x2, y2, x1, y1, k) == py;
        lemma_line_rev_pixel(x1, y1, x2, y2, k);
    }
}

/// A row whose span is untouched and that no merged pixel has hit satisfies
/// the row characterization trivially.
proof fn lemma_row_state_untouched(
    w0: Seq<(i32, i32)>,
    w: Seq<(i32, i32)>,
    x1: int,
    y1: int,
    x2: int,
    y2: int,
    r: int,
    m: int,
)
    requires
        0 <= r < w0.len(),
        w[r] == w0[r],
        forall|j: int| 0 <= j < m ==> line_y(x1, y1, x2, y2, j) != y1 + r,
    ensures
        row_state(w0, w, x1, y1, x2, y2, r, m),
{
    assert forall|j: int| j < m && #[trigger] hits_row(x1, y1, x2, y2, j, r) implies w[r].0 as int
        <= line_x(x1, y1, x2, y2, j) <= w[r].1 as int by {
        assert(line_y(x1, y1, x2, y2, j) == y1 + r);
        assert(false);
    }
}

/// The row characterization survives a step that neither hits the row nor
/// changes its span.
proof fn lemma_row_state_keep(
    w0: Seq<(i32, i32)>,
    w: Seq<(i32, i32)>,
    w2: Seq<(i32, i32)>,
    x1: int,
    y1: int,
    x2: int,
    y2: int,
    r: int,
    m: int,
)
    requires
        row_state(w0, w, x1, y1, x2, y2, r, m),
        w2[r] == w[r],
        !hits_row(x1, y1, x2, y2, m, r),
    ensures
        row_state(w0, w2, x1, y1, x2, y2, r, m + 1),
{
    if !(r < w0.len() && w[r].0 == w0[r].0) {
        let jw = choose|j: int|
            j < m && #[trigger] hits_row(x1, y1, x2, y2, j, r) && line_x(x1, y1, x2, y2, j)
                == w[r].0 as int;
        assert(jw < m + 1 && hits_row(x1, y1, x2, y2, jw, r) && line_x(x1, y1, x2, y2, jw)
            == w2[r].0 as int);
    }
    if !(r < w0.len() && w[r].1 == w0[r].1) {
        let jw = choose|j: int|
            j < m && #[trigger] hits_row(x1, y1, x2, y2, j, r) && line_x(x1, y1, x2, y2, j)
                == w[r].1 as int;
        assert(jw < m + 1 && hits_row(x1, y1, x2, y2, jw, r) && line_x(x1, y1, x2, y2, jw)
            == w2[r].1 as int);
    }
}

/// Recording the first pixel of a row that the table did not hold yet.
proof fn lemma_row_state_new(
    w0: Seq<(i32, i32)>,
    w2: Seq<(i32, i32)>,
    x1: int,
    y1: int,
    x2: int,
    y2: int,
    r: int,
    m: int,
)
    requires
        hits_row(x1, y1, x2, y2, m, r),
        forall|j: int| 0 <= j < m ==> line_y(x1, y1, x2, y2, j) != y1 + r,
        w2[r].0 as int == line_x(x1, y1, x2, y2, m),
        w2[r].1 as int == line_x(x1, y1, x2, y2, m),
        w0.len() <= r,
    ensures
        row_state(w0, w2, x1, y1, x2, y2, r, m + 1),
{
    assert forall|j: int| j < m + 1 && #[trigger] hits_row(x1, y1, x2, y2, j, r) implies w2[r].0
        as int <= line_x(x1, y1, x2, y2, j) <= w2[r].1 as int by {
        if j < m {
            assert(line_y(x1, y1, x2, y2, j) == y1 + r);
            assert(false);
        }
    }
    assert(m < m + 1 && hits_row(x1, y1, x2, y2, m, r) && line_x(x1, y1, x2, y2, m) == w2[r].0
        as int);
}

/// Widening a row's recorded span by one more pixel on that row.
proof fn lemma_row_state_merge(
    w0: Seq<(i32, i32)>,
    w: Seq<(i32, i32)>,
    w2: Seq<(i32, i32)>,
    x1: int,
    y1: int,
    x2: int,
    y2: int,
    r: int,
    m: int,
)
    requires
        row_state(w0, w, x1, y1, x2, y2, r, m),
        hits_row(x1, y1, x2, y2, m, r),
        w2[r].0 as int == imin(w[r].0 as int, line_x(x1, y1, x2, y2, m)),
        w2[r].1 as int == imax(w[r].1 as int, line_x(x1, y1, x2, y2, m)),
    ensures
        row_state(w0, w2, x1, y1, x2, y2, r, m + 1),
{
    let px = line_x(x1, y1, x2, y2, m);
    assert(m < m + 1 && hits_row(x1, y1, x2, y2, m, r) && line_x(x1, y1, x2, y2, m) == px);
    if w2[r].0 as int != px {
        assert(w2[r].0 == w[r].0);
        if !(r < w0.len() && w[r].0 == w0[r].0) {
            let jw = choose|j: int|
                j < m && #[trigger] hits_row(x1, y1, x2, y2, j, r) && line_x(x1, y1, x2, y2, j)
                    == w[r].0 as int;
            assert(jw < m + 1 && hits_row(x1, y1, x2, y2, jw, r) && line_x(x1, y1, x2, y2, jw)
                == w2[r].0 as int);
        }
    }
    if w2[r].1 as int != px {
        assert(w2[r].1 == w[r].1);
        if !(r < w0.len() && w[r].1 == w0[r].1) {
            let jw = choose|j: int|
                j < m && #[trigger] hits_row(x1, y1, x2, y2, j, r) && line_x(x1, y1, x2, y2, j)
                    == w[r].1 as int;
            assert(jw < m + 1 && hits_row(x1, y1, x2, y2, jw, r) && line_x(x1, y1, x2, y2, jw)
                == w2[r].1 as int);
        }
    }
}

/// Walks a line and returns its pixels in order, from `(x1, y1)` to
/// `(x2, y2)`; pixel `k` is exactly the closed-form pixel of the model.
pub fn draw_line(x1: i32, y1: i32, x2: i32, y2: i32) -> (pixels: Vec<(i32, i32)>)
    requires
        coord_ok(x1 as int),
        coord_ok(y1 as int),
        coord_ok(x2 as int),
        coord_ok(y2 as int),
    ensures
        pixels@.len() == line_steps(x1 as int, y1 as int, x2 as int, y2 as int) + 1,
        forall|k: int|
            0 <= k < pixels@.len() ==> (#[trigger] pixels@[k]).0 as int == line_x(
                x1 as int,
                y1 as int,
                x2 as int,
                y2 as int,
                k,
            ) && pixels@[k].1 as int == line_y(x1 as int, y1 as int, x2 as int, y2 as int, k),
        pixels@[0] == (x1, y1),
        pixels@[pixels@.len() - 1] == (x2, y2),
{
    let gx1 = x1 as i64;
    let gy1 = y1 as i64;
    let gx2 = x2 as i64;
    let gy2 = y2 as i64;
    let adx: u64 = if x2 >= x1 {
        (gx2 - gx1) as u64
    } else {
        (gx1 - gx2) as u64
    };
    let ady: u64 = if y2 >= y1 {
        (gy2 - gy1) as u64
    } else {
        (gy1 - gy2) as u64
    };
    let sx: i64 = if x1 < x2 {
        1
    } else if x1 > x2 {
        -1
    } else {
        0
    };
    let sy: i64 = if y1 < y2 {
        1
    } else if y1 > y2 {
        -1
    } else {
        0
    };
    let n: u64 = if adx >= ady {
        adx
    } else {
        ady
    };
    let mut pixels: Vec<(i32, i32)> = Vec::new();
    let mut k: u64 = 0;
    while k <= n
        invariant
            coord_ok(x1 as int),
            coord_ok(y1 as int),
            coord_ok(x2 as int),
            coord_ok(y2 as int),
            gx1 == x1 as i64,
            gy1 == y1 as i64,
            gx2 == x2 as i64,
            gy2 == y2 as i64,
            adx == iabs(x2 as int - x1 as int),
            ady == iabs(y2 as int - y1 as int),
            sx == isgn(x2 as int - x1 as int),
            sy == isgn(y2 as int - y1 as int),
            n == line_steps(x1 as int, y1 as int, x2 as int, y2 as int),
            0 <= k <= n + 1,
            pixels@.len() == k,
            forall|j: int|
                0 <= j < pixels@.len() ==> (#[trigger] pixels@[j]).0 as int == line_x(
                    x1 as int,
                    y1 as int,
                    x2 as int,
                    y2 as int,
                    j,
                ) && pixels@[j].1 as int == line_y(x1 as int, y1 as int, x2 as int, y2 as int, j),
        decreases n - k + 1,
    {
        let px: i64;
        let py: i64;
        proof {
            lemma_sgn_mul(sx as int, k as int, n as int);
            lemma_sgn_mul(sy as int, k as int, n as int);
        }
        if adx >= ady {
            px = gx1 + sx * (k as i64);
            if adx > 0 {
                proof {
                    lemma_mul_le(ady as int, k as int, 0x8000_0000);
                    lemma_mul_div_range(ady as int, k as int, adx as int);
                    lemma_sgn_mul(sy as int, (ady as int * k as int) / adx as int, ady as int);
                }
                let off = (ady * k) / adx;
                py = gy1 + sy * (off as i64);
            } else {
                py = gy1;
            }
        } else {
            py = gy1 + sy * (k as i64);
            proof {
                lemma_mul_le(adx as int, k as int, 0x8000_0000);
                lemma_mul_div_range(adx as int, k as int, ady as int);
                lemma_sgn_mul(sx as int, (adx as int * k as int) / ady as int, adx as int);
            }
            let off = (adx * k) / ady;
            px = gx1 + sx * (off as i64);
        }
        assert(px == line_x(x1 as int, y1 as int, x2 as int, y2 as int, k as int));
        assert(py == line_y(x1 as int, y1 as int, x2 as int, y2 as int, k as int));
        assert(i32::MIN <= px <= i32::MAX && i32::MIN <= py <= i32::MAX) by {
            lemma_line_in_box(x1 as int, y1 as int, x2 as int, y2 as int, k as int);
        }
        pixels.push((px as i32, py as i32));
        k = k + 1;
    }
    proof {
        lemma_line_endpoints(x1 as int, y1 as int, x2 as int, y2 as int);
    }
    pixels
}

/// Walks the line from `(x1, y1)` down to `(x2, y2)` and widens, per row,
/// the recorded `[min x, max x]` span in `width`.  Row `r` of the table
/// stands for pixel row `y1 + r`; a row first reached by the walk is
/// appended, a row already present is only ever widened.
pub fn pixel_line(width: &mut Vec<(i32, i32)>, x1: i32, y1: i32, x2: i32, y2: i32)
    requires
        y1 <= y2,
        coord_ok(x1 as int),
        coord_ok(y1 as int),
        coord_ok(x2 as int),
        coord_ok(y2 as int),
    ensures
        final(width)@.len() == imax(old(width)@.len() as int, y2 as int - y1 as int + 1),
        forall|r: int|
            (y2 as int - y1 as int) < r < final(width)@.len() ==> final(width)@[r] == old(
                width,
            )@[r],
        forall|r: int|
            0 <= r <= y2 as int - y1 as int ==> row_merged(
                old(width)@,
                final(width)@,
                x1 as int,
                y1 as int,
                x2 as int,
                y2 as int,
                r,
            ),
{
    let gx1 = x1 as i64;
    let gy1 = y1 as i64;
    let gx2 = x2 as i64;
    let gy2 = y2 as i64;
    let adx: u64 = if x2 >= x1 {
        (gx2 - gx1) as u64
    } else {
        (gx1 - gx2) as u64
    };
    let ady: u64 = (gy2 - gy1) as u64;
    let sx: i64 = if x1 < x2 {
        1
    } else if x1 > x2 {
        -1
    } else {
        0
    };
    let sy: i64 = if y1 < y2 {
        1
    } else {
        0
    };
    let n: u64 = if adx >= ady {
        adx
    } else {
        ady
    };
    let ghost w0 = width@;
    let mut k: u64 = 0;
    while k <= n
        invariant
            y1 <= y2,
            coord_ok(x1 as int),
            coord_ok(y1 as int),
            coord_ok(x2 as int),
            coord_ok(y2 as int),
            gx1 == x1 as i64,
            gy1 == y1 as i64,
            gx2 == x2 as i64,
            gy2 == y2 as i64,
            adx == iabs(x2 as int - x1 as int),
            ady == iabs(y2 as int - y1 as int),
            sx == isgn(x2 as int - x1 as int),
            sy == isgn(y2 as int - y1 as int),
            n == line_steps(x1 as int, y1 as int, x2 as int, y2 as int),
            0 <= k <= n + 1,
            k == 0 ==> width@ == w0,
            k > 0 ==> width@.len() == imax(
                w0.len() as int,
                line_y(x1 as int, y1 as int, x2 as int, y2 as int, k - 1) - y1 as int + 1,
            ),
            k > 0 ==> forall|r: int|
                (line_y(x1 as int, y1 as int, x2 as int, y2 as int, k - 1) - y1 as int) < r
                    < width@.len() ==> width@[r] == w0[r],
            k > 0 ==> forall|r: int|
                0 <= r <= line_y(x1 as int, y1 as int, x2 as int, y2 as int, k - 1) - y1 as int
                    ==> #[trigger] row_state(
                    w0,
                    width@,
                    x1 as int,
                    y1 as int,
                    x2 as int,
                    y2 as int,
                    r,
                    k as int,
                ),
        decreases n - k + 1,
    {
        let px: i64;
        let py: i64;
        proof {
            lemma_sgn_mul(sx as int, k as int, n as int);
            lemma_sgn_mul(sy as int, k as int, n as int);
        }
        if adx >= ady {
            px = gx1 + sx * (k as i64);
            if adx > 0 {
                proof {
                    lemma_mul_le(ady as int, k as int, 0x8000_0000);
                    lemma_mul_div_range(ady as int, k as int, adx as int);
                    lemma_sgn_mul(sy as int, (ady as int * k as int) / adx as int, ady as int);
                }
                let off = (ady * k) / adx;
                py = gy1 + sy * (off as i64);
            } else {
                py = gy1;
            }
        } else {
            py = gy1 + sy * (k as i64);
            proof {
                lemma_mul_le(adx as int, k as int, 0x8000_0000);
                lemma_mul_div_range(adx as int, k as int, ady as int);
                lemma_sgn_mul(sx as int, (adx as int * k as int) / ady as int, adx as int);
            }
            let off = (adx * k) / ady;
            px = gx1 + sx * (off as i64);
        }
        assert(px == line_x(x1 as int, y1 as int, x2 as int, y2 as int, k as int));
        assert(py == line_y(x1 as int, y1 as int, x2 as int, y2 as int, k as int));
        proof {
            lemma_line_in_box(x1 as int, y1 as int, x2 as int, y2 as int, k as int);
        }
        assert(gy1 <= py <= gy2);
        let ghost rcur = py as int - y1 as int;
        proof {
            lemma_line_endpoints(x1 as int, y1 as int, x2 as int, y2 as int);
            assert(hits_row(x1 as int, y1 as int, x2 as int, y2 as int, k as int, rcur));
            if k > 0 {
                lemma_row_step(x1 as int, y1 as int, x2 as int, y2 as int, k as int - 1);
                assert forall|j: int| 0 <= j < k as int implies #[trigger] line_y(
                    x1 as int,
                    y1 as int,
                    x2 as int,
                    y2 as int,
                    j,
                ) <= line_y(x1 as int, y1 as int, x2 as int, y2 as int, k as int - 1) by {
                    lemma_row_monotonic(x1 as int, y1 as int, x2 as int, y2 as int, j, k as int - 1);
                }
            }
        }
        let idx64: u64 = (py - gy1) as u64;
        let idx: usize = idx64 as usize;
        if width.len() <= idx {
            proof {
                assert(width@.len() == rcur);
                assert(w0.len() <= rcur);
            }
            let ghost wpre = width@;
            width.push((px as i32, px as i32));
            proof {
                assert forall|r: int| 0 <= r <= rcur implies #[trigger] row_state(
                    w0,
                    width@,
                    x1 as int,
                    y1 as int,
                    x2 as int,
                    y2 as int,
                    r,
                    k as int + 1,
                ) by {
                    if r < rcur {
                        assert(row_state(
                            w0,
                            wpre,
                            x1 as int,
                            y1 as int,
                            x2 as int,
                            y2 as int,
                            r,
                            k as int,
                        ));
                        assert(width@[r] == wpre[r]);
                        lemma_row_state_keep(
                            w0,
                            wpre,
                            width@,
                            x1 as int,
                            y1 as int,
                            x2 as int,
                            y2 as int,
                            r,
                            k as int,
                        );
                    } else {
                        assert(width@[rcur] == (px as i32, px as i32));
                        lemma_row_state_new(
                            w0,
                            width@,
                            x1 as int,
                            y1 as int,
                            x2 as int,
                            y2 as int,
                            rcur,
                            k as int,
                        );
                    }
                }
            }
        } else {
            proof {
                if k == 0 {
                    lemma_row_state_untouched(
                        w0,
                        width@,
                        x1 as int,
                        y1 as int,
                        x2 as int,
                        y2 as int,
                        rcur,
                        k as int,
                    );
                } else if rcur > line_y(x1 as int, y1 as int, x2 as int, y2 as int, k - 1) - y1
                    as int {
                    assert(width@[rcur] == w0[rcur]);
                    lemma_row_state_untouched(
                        w0,
                        width@,
                        x1 as int,
                        y1 as int,
                        x2 as int,
                        y2 as int,
                        rcur,
                        k as int,
                    );
                }
                assert(row_state(
                    w0,
                    width@,
                    x1 as int,
                    y1 as int,
                    x2 as int,
                    y2 as int,
                    rcur,
                    k as int,
                ));
            }
            let pxi = px as i32;
            let lohi = width[idx];
            let nlo = if pxi < lohi.0 {
                pxi
            } else {
                lohi.0
            };
            let nhi = if pxi > lohi.1 {
                pxi
            } else {
                lohi.1
            };
            let ghost wpre = width@;
            width[idx] = (nlo, nhi);
            proof {
                assert(width@ == wpre.update(rcur, (nlo, nhi)));
                assert forall|r: int| 0 <= r <= rcur implies #[trigger] row_state(
                    w0,
                    width@,
                    x1 as int,
                    y1 as int,
                    x2 as int,
                    y2 as int,
                    r,
                    k as int + 1,
                ) by {
                    if r < rcur {
                        assert(row_state(
                            w0,
                            wpre,
                            x1 as int,
                            y1 as int,
                            x2 as int,
                            y2 as int,
                            r,
                            k as int,
                        ));
                        assert(width@[r] == wpre[r]);
                        lemma_row_state_keep(
                            w0,
                            wpre,
                            width@,
                            x1 as int,
                            y1 as int,
                            x2 as int,
                            y2 as int,
                            r,
                            k as int,
                        );
                    } else {
                        lemma_row_state_merge(
                            w0,
                            wpre,
                            width@,
                            x1 as int,
                            y1 as int,
                            x2 as int,
                            y2 as int,
                            rcur,
                            k as int,
                        );
                    }
                }
            }
        }
        k = k + 1;
    }
    proof {
        lemma_line_endpoints(x1 as int, y1 as int, x2 as int, y2 as int);
    }
}

} // verus!
