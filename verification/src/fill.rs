//! Filled-triangle rasterization.
//!
//! A triangle is filled scanline by scanline.  The three vertices are sorted
//! by ascending y; a triangle with a horizontal top or bottom edge is filled
//! directly by walking its two bounding edges and recording, per row, the
//! least and greatest x either edge visits; any other triangle is split at
//! the middle vertex's row into a flat-bottom and a flat-top part that share
//! one edge, and the shared row is emitted exactly once.

use vstd::prelude::*;

verus! {

use vstd::arithmetic::div_mod::lemma_div_of0;

use crate::line::{
    coord_ok,
    hits_row,
    iabs,
    imax,
    imin,
    isgn,
    lemma_line_endpoints,
    lemma_line_in_box,
    lemma_mul_div_range,
    lemma_mul_le,
    lemma_sgn_mul,
    line_steps,
    line_x,
    line_y,
    pixel_line,
    row_merged,
    row_state,
};

/// The span `[lo, hi]` is exactly the range of x values that the two edge
/// lines visit on row `r`: it covers every visit, and each bound is itself a
/// visited x.
pub open spec fn row_ok(
    ax1: int,
    ay1: int,
    ax2: int,
    ay2: int,
    bx1: int,
    by1: int,
    bx2: int,
    by2: int,
    r: int,
    lo: int,
    hi: int,
) -> bool {
    &&& (forall|k: int|
        #[trigger] hits_row(ax1, ay1, ax2, ay2, k, r) ==> lo <= line_x(ax1, ay1, ax2, ay2, k)
            <= hi)
    &&& (forall|k: int|
        #[trigger] hits_row(bx1, by1, bx2, by2, k, r) ==> lo <= line_x(bx1, by1, bx2, by2, k)
            <= hi)
    &&& ((exists|k: int|
        #[trigger] hits_row(ax1, ay1, ax2, ay2, k, r) && line_x(ax1, ay1, ax2, ay2, k) == lo)
        || (exists|k: int|
        #[trigger] hits_row(bx1, by1, bx2, by2, k, r) && line_x(bx1, by1, bx2, by2, k) == lo))
    &&& ((exists|k: int|
        #[trigger] hits_row(ax1, ay1, ax2, ay2, k, r) && line_x(ax1, ay1, ax2, ay2, k) == hi)
        || (exists|k: int|
        #[trigger] hits_row(bx1, by1, bx2, by2, k, r) && line_x(bx1, by1, bx2, by2, k) == hi))
}

/// `s` is the span table of the flat-sided triangle bounded by the two edge
/// lines `a` and `b`, which run from a common top row down to a common
/// bottom row: one entry `(y, lo, hi)` per row, where `[lo, hi]` is exactly
/// the x range the two edges visit on that row.
pub open spec fn edges_ok(
    ax1: int,
    ay1: int,
    ax2: int,
    ay2: int,
    bx1: int,
    by1: int,
    bx2: int,
    by2: int,
    s: Seq<(i32, i32, i32)>,
) -> bool {
    &&& ay1 == by1
    &&& ay2 == by2
    &&& ay1 <= ay2
    &&& s.len() == ay2 - ay1 + 1
    &&& (forall|r: int|
        0 <= r < s.len() ==> (#[trigger] s[r]).0 as int == ay1 + r && row_ok(
            ax1,
            ay1,
            ax2,
            ay2,
            bx1,
            by1,
            bx2,
            by2,
            r,
            s[r].1 as int,
            s[r].2 as int,
        ))
}

/// Merging the pixels of edge `a` into an empty table and then the pixels
/// of edge `b` leaves, per row, exactly the combined span of the two edges.
proof fn lemma_two_merges_row_ok(
    wa: Seq<(i32, i32)>,
    wb: Seq<(i32, i32)>,
    ax1: int,
    ay1: int,
    ax2: int,
    ay2: int,
    bx1: int,
    by1: int,
    bx2: int,
    by2: int,
    r: int,
)
    requires
        ay1 == by1,
        ay2 == by2,
        ay1 <= ay2,
        0 <= r <= ay2 - ay1,
        r < wa.len(),
        r < wb.len(),
        row_merged(Seq::<(i32, i32)>::empty(), wa, ax1, ay1, ax2, ay2, r),
        row_merged(wa, wb, bx1, by1, bx2, by2, r),
    ensures
        row_ok(ax1, ay1, ax2, ay2, bx1, by1, bx2, by2, r, wb[r].0 as int, wb[r].1 as int),
{
    let sa = line_steps(ax1, ay1, ax2, ay2);
    let sb = line_steps(bx1, by1, bx2, by2);
    assert(row_state(Seq::<(i32, i32)>::empty(), wa, ax1, ay1, ax2, ay2, r, sa + 1));
    assert(row_state(wa, wb, bx1, by1, bx2, by2, r, sb + 1));
    assert forall|k: int| #[trigger] hits_row(ax1, ay1, ax2, ay2, k, r) implies wb[r].0 as int
        <= line_x(ax1, ay1, ax2, ay2, k) <= wb[r].1 as int by {
        assert(k < sa + 1);
    }
    assert forall|k: int| #[trigger] hits_row(bx1, by1, bx2, by2, k, r) implies wb[r].0 as int
        <= line_x(bx1, by1, bx2, by2, k) <= wb[r].1 as int by {
        assert(k < sb + 1);
    }
    if wb[r].0 == wa[r].0 {
        let j = choose|j: int|
            j < sa + 1 && #[trigger] hits_row(ax1, ay1, ax2, ay2, j, r) && line_x(
                ax1,
                ay1,
                ax2,
                ay2,
                j,
            ) == wa[r].0 as int;
        assert(hits_row(ax1, ay1, ax2, ay2, j, r) && line_x(ax1, ay1, ax2, ay2, j) == wb[r].0
            as int);
    } else {
        let j = choose|j: int|
            j < sb + 1 && #[trigger] hits_row(bx1, by1, bx2, by2, j, r) && line_x(
                bx1,
                by1,
                bx2,
                by2,
                j,
            ) == wb[r].0 as int;
        assert(hits_row(bx1, by1, bx2, by2, j, r) && line_x(bx1, by1, bx2, by2, j) == wb[r].0
            as int);
    }
    if wb[r].1 == wa[r].1 {
        let j = choose|j: int|
            j < sa + 1 && #[trigger] hits_row(ax1, ay1, ax2, ay2, j, r) && line_x(
                ax1,
                ay1,
                ax2,
                ay2,
                j,
            ) == wa[r].1 as int;
        assert(hits_row(ax1, ay1, ax2, ay2, j, r) && line_x(ax1, ay1, ax2, ay2, j) == wb[r].1
            as int);
    } else {
        let j = choose|j: int|
            j < sb + 1 && #[trigger] hits_row(bx1, by1, bx2, by2, j, r) && line_x(
                bx1,
                by1,
                bx2,
                by2,
                j,
            ) == wb[r].1 as int;
        assert(hits_row(bx1, by1, bx2, by2, j, r) && line_x(bx1, by1, bx2, by2, j) == wb[r].1
            as int);
    }
}

/// The x coordinate where the long edge of a split triangle (from the
/// lowest-y vertex `(x1, y1)` to the highest-y vertex `(x3, y3)`) crosses
/// the middle vertex's row `y2`, by proportional integer scaling.
pub open spec fn split_x(x1: int, y1: int, y2: int, x3: int, y3: int) -> int {
    x1 + isgn(x3 - x1) * ((iabs(x3 - x1) * (y2 - y1)) / (y3 - y1))
}

/// `s` is the span table of the triangle with y-sorted vertices
/// `(x1, y1), (x2, y2), (x3, y3)`: a flat-bottom or flat-top triangle is
/// bounded by two edges directly; any other triangle splits at row `y2`
/// into a flat-bottom part and a flat-top part that share the edge from
/// `(x2, y2)` to the split point, with the shared row emitted once.
pub open spec fn tri_ok(
    x1: int,
    y1: int,
    x2: int,
    y2: int,
    x3: int,
    y3: int,
    s: Seq<(i32, i32, i32)>,
) -> bool {
    if y2 == y3 {
        edges_ok(x1, y1, x2, y2, x1, y1, x3, y3, s)
    } else if y1 == y2 {
        edges_ok(x1, y1, x3, y3, x2, y2, x3, y3, s)
    } else {
        let x4 = split_x(x1, y1, y2, x3, y3);
        &&& s.len() == y3 - y1 + 1
        &&& edges_ok(x1, y1, x2, y2, x1, y1, x4, y2, s.take(y2 - y1 + 1))
        &&& (exists|t: Seq<(i32, i32, i32)>|
            #[trigger] edges_ok(x2, y2, x3, y3, x4, y2, x3, y3, t) && s.skip(y2 - y1 + 1)
                == t.skip(1))
    }
}

/// `s` is the span table of the triangle with vertices given in any order:
/// the vertices are sorted by ascending y and handed to `tri_ok`.
pub open spec fn fill_ok(
    x1: int,
    y1: int,
    x2: int,
    y2: int,
    x3: int,
    y3: int,
    s: Seq<(i32, i32, i32)>,
) -> bool {
    if y1 <= y2 && y2 <= y3 {
        tri_ok(x1, y1, x2, y2, x3, y3, s)
    } else if y1 <= y3 && y3 <= y2 {
        tri_ok(x1, y1, x3, y3, x2, y2, s)
    } else if y2 <= y1 && y1 <= y3 {
        tri_ok(x2, y2, x1, y1, x3, y3, s)
    } else if y2 <= y3 && y3 <= y1 {
        tri_ok(x2, y2, x3, y3, x1, y1, s)
    } else if y3 <= y1 && y1 <= y2 {
        tri_ok(x3, y3, x1, y1, x2, y2, s)
    } else {
        tri_ok(x3, y3, x2, y2, x1, y1, s)
    }
}

/// Builds the span table of a flat-sided triangle bounded by the edge lines
/// `(ax1, ty) -> (ax2, by)` and `(bx1, ty) -> (bx2, by)`.
fn spans_of_edges(ax1: i32, ax2: i32, bx1: i32, bx2: i32, ty: i32, by: i32) -> (spans: Vec<
    (i32, i32, i32),
>)
    requires
        ty <= by,
        coord_ok(ax1 as int),
        coord_ok(ax2 as int),
        coord_ok(bx1 as int),
        coord_ok(bx2 as int),
        coord_ok(ty as int),
        coord_ok(by as int),
    ensures
        edges_ok(
            ax1 as int,
            ty as int,
            ax2 as int,
            by as int,
            bx1 as int,
            ty as int,
            bx2 as int,
            by as int,
            spans@,
        ),
        forall|r: int| 0 <= r < spans@.len() ==> (#[trigger] spans@[r]).1 <= spans@[r].2,
{
    let mut w: Vec<(i32, i32)> = Vec::new();
    pixel_line(&mut w, ax1, ty, ax2, by);
    let ghost wa = w@;
    pixel_line(&mut w, bx1, ty, bx2, by);
    let mut spans: Vec<(i32, i32, i32)> = Vec::new();
    let mut r: usize = 0;
    while r < w.len()
        invariant
            ty <= by,
            w@.len() == by as int - ty as int + 1,
            r <= w@.len(),
            spans@.len() == r,
            forall|i: int|
                0 <= i < r ==> (#[trigger] spans@[i]).0 as int == ty as int + i && spans@[i].1
                    == w@[i].0 && spans@[i].2 == w@[i].1,
        decreases w@.len() - r,
    {
        let lohi = w[r];
        let y64: i64 = ty as i64 + r as i64;
        spans.push((y64 as i32, lohi.0, lohi.1));
        r = r + 1;
    }
    proof {
        assert forall|rr: int| 0 <= rr < spans@.len() implies (#[trigger] spans@[rr]).0 as int
            == ty as int + rr && row_ok(
            ax1 as int,
            ty as int,
            ax2 as int,
            by as int,
            bx1 as int,
            ty as int,
            bx2 as int,
            by as int,
            rr,
            spans@[rr].1 as int,
            spans@[rr].2 as int,
        ) by {
            lemma_two_merges_row_ok(
                wa,
                w@,
                ax1 as int,
                ty as int,
                ax2 as int,
                by as int,
                bx1 as int,
                ty as int,
                bx2 as int,
                by as int,
                rr,
            );
            lemma_row_ok_nonempty(
                ax1 as int,
                ty as int,
                ax2 as int,
                by as int,
                bx1 as int,
                ty as int,
                bx2 as int,
                by as int,
                rr,
                spans@[rr].1 as int,
                spans@[rr].2 as int,
            );
        }
    }
    spans
}

/// A row span is determined uniquely: two spans that both cover exactly the
/// x range visited by the same two edges are equal.
proof fn lemma_row_ok_unique(
    ax1: int,
    ay1: int,
    ax2: int,
    ay2: int,
    bx1: int,
    by1: int,
    bx2: int,
    by2: int,
    r: int,
    lo1: int,
    hi1: int,
    lo2: int,
    hi2: int,
)
    requires
        row_ok(ax1, ay1, ax2, ay2, bx1, by1, bx2, by2, r, lo1, hi1),
        row_ok(ax1, ay1, ax2, ay2, bx1, by1, bx2, by2, r, lo2, hi2),
    ensures
        lo1 == lo2,
        hi1 == hi2,
{
}

/// A row span is never empty: its lower bound is a visited x, which the
/// span also covers from above.
proof fn lemma_row_ok_nonempty(
    ax1: int,
    ay1: int,
    ax2: int,
    ay2: int,
    bx1: int,
    by1: int,
    bx2: int,
    by2: int,
    r: int,
    lo: int,
    hi: int,
)
    requires
        row_ok(ax1, ay1, ax2, ay2, bx1, by1, bx2, by2, r, lo, hi),
    ensures
        lo <= hi,
{
}

/// The span of a row does not depend on which of the two edges is walked
/// first.
proof fn lemma_row_ok_swap(
    ax1: int,
    ay1: int,
    ax2: int,
    ay2: int,
    bx1: int,
    by1: int,
    bx2: int,
    by2: int,
    r: int,
    lo: int,
    hi: int,
)
    requires
        row_ok(ax1, ay1, ax2, ay2, bx1, by1, bx2, by2, r, lo, hi),
    ensures
        row_ok(bx1, by1, bx2, by2, ax1, ay1, ax2, ay2, r, lo, hi),
{
}

/// The span table of a flat-sided triangle does not depend on the order of
/// its two bounding edges.
pub proof fn lemma_edges_ok_swap(
    ax1: int,
    ay1: int,
    ax2: int,
    ay2: int,
    bx1: int,
    by1: int,
    bx2: int,
    by2: int,
    s: Seq<(i32, i32, i32)>,
)
    requires
        edges_ok(ax1, ay1, ax2, ay2, bx1, by1, bx2, by2, s),
    ensures
        edges_ok(bx1, by1, bx2, by2, ax1, ay1, ax2, ay2, s),
{
    assert forall|r: int| 0 <= r < s.len() implies (#[trigger] s[r]).0 as int == by1 + r && row_ok(
        bx1,
        by1,
        bx2,
        by2,
        ax1,
        ay1,
        ax2,
        ay2,
        r,
        s[r].1 as int,
        s[r].2 as int,
    ) by {
        lemma_row_ok_swap(
            ax1,
            ay1,
            ax2,
            ay2,
            bx1,
            by1,
            bx2,
            by2,
            r,
            s[r].1 as int,
            s[r].2 as int,
        );
    }
}

/// Two span tables of the same pair of bounding edges are equal.
pub proof fn lemma_edges_ok_unique(
    ax1: int,
    ay1: int,
    ax2: int,
    ay2: int,
    bx1: int,
    by1: int,
    bx2: int,
    by2: int,
    s: Seq<(i32, i32, i32)>,
    t: Seq<(i32, i32, i32)>,
)
    requires
        edges_ok(ax1, ay1, ax2, ay2, bx1, by1, bx2, by2, s),
        edges_ok(ax1, ay1, ax2, ay2, bx1, by1, bx2, by2, t),
    ensures
        s == t,
{
    assert forall|r: int| 0 <= r < s.len() implies s[r] == t[r] by {
        lemma_row_ok_unique(
            ax1,
            ay1,
            ax2,
            ay2,
            bx1,
            by1,
            bx2,
            by2,
            r,
            s[r].1 as int,
            s[r].2 as int,
            t[r].1 as int,
            t[r].2 as int,
        );
        assert(s[r].0 == t[r].0);
    }
    assert(s =~= t);
}

/// A horizontal line from `(a, y)` to `(b, y)` visits, on its single row,
/// exactly the x values between its endpoints; `x` is one of them.
proof fn lemma_horiz_visit_x(a: int, y: int, b: int, x: int)
    requires
        imin(a, b) <= x <= imax(a, b),
    ensures
        exists|k: int|
            #[trigger] hits_row(a, y, b, y, k, 0) && line_x(a, y, b, y, k) == x,
{
    let n = line_steps(a, y, b, y);
    let k = iabs(x - a);
    assert(0 <= k <= n);
    lemma_sgn_mul(isgn(b - a), k, n);
    if n > 0 {
        assert(iabs(y - y) * k == 0) by (nonlinear_arith)
            requires
                iabs(y - y) == 0,
        ;
        lemma_div_of0(n);
        lemma_sgn_mul(isgn(y - y), 0, 0);
    }
    assert(line_y(a, y, b, y, k) == y);
    assert(line_x(a, y, b, y, k) == x);
    assert(hits_row(a, y, b, y, k, 0) && line_x(a, y, b, y, k) == x);
}

/// For a triangle whose three vertices share one row, the single recorded
/// span runs from the least to the greatest vertex x, whichever vertex the
/// two bounding edges start from.
proof fn lemma_edges_ok_horiz_swap(xa: int, xb: int, xc: int, y: int, s: Seq<(i32, i32, i32)>)
    requires
        edges_ok(xa, y, xb, y, xa, y, xc, y, s),
    ensures
        edges_ok(xb, y, xa, y, xb, y, xc, y, s),
{
    let lo = s[0].1 as int;
    let hi = s[0].2 as int;
    let m3 = imin(xa, imin(xb, xc));
    let w3 = imax(xa, imax(xb, xc));
    lemma_horiz_visit_x(xa, y, xb, xa);
    lemma_horiz_visit_x(xa, y, xb, xb);
    lemma_horiz_visit_x(xa, y, xc, xc);
    assert(lo <= xa && lo <= xb && hi >= xa && hi >= xb);
    assert(lo <= xc && hi >= xc);
    // the recorded bounds are themselves visited, so they stay inside the
    // hull of the three vertices
    if exists|k: int|
        #[trigger] hits_row(xa, y, xb, y, k, 0) && line_x(xa, y, xb, y, k) == lo {
        let k = choose|k: int|
            #[trigger] hits_row(xa, y, xb, y, k, 0) && line_x(xa, y, xb, y, k) == lo;
        lemma_line_in_box(xa, y, xb, y, k);
    } else {
        let k = choose|k: int|
            #[trigger] hits_row(xa, y, xc, y, k, 0) && line_x(xa, y, xc, y, k) == lo;
        lemma_line_in_box(xa, y, xc, y, k);
    }
    if exists|k: int|
        #[trigger] hits_row(xa, y, xb, y, k, 0) && line_x(xa, y, xb, y, k) == hi {
        let k = choose|k: int|
            #[trigger] hits_row(xa, y, xb, y, k, 0) && line_x(xa, y, xb, y, k) == hi;
        lemma_line_in_box(xa, y, xb, y, k);
    } else {
        let k = choose|k: int|
            #[trigger] hits_row(xa, y, xc, y, k, 0) && line_x(xa, y, xc, y, k) == hi;
        lemma_line_in_box(xa, y, xc, y, k);
    }
    assert(lo == m3 && hi == w3);
    // the same span is exact for the swapped pair of edges
    lemma_horiz_visit_x(xb, y, xa, xa);
    lemma_horiz_visit_x(xb, y, xa, xb);
    lemma_horiz_visit_x(xb, y, xc, xc);
    assert forall|r: int| 0 <= r < s.len() implies (#[trigger] s[r]).0 as int == y + r && row_ok(
        xb,
        y,
        xa,
        y,
        xb,
        y,
        xc,
        y,
        r,
        s[r].1 as int,
        s[r].2 as int,
    ) by {
        assert(r == 0);
        assert forall|k: int| #[trigger] hits_row(xb, y, xa, y, k, 0) implies lo <= line_x(
            xb,
            y,
            xa,
            y,
            k,
        ) <= hi by {
            lemma_line_in_box(xb, y, xa, y, k);
        }
        assert forall|k: int| #[trigger] hits_row(xb, y, xc, y, k, 0) implies lo <= line_x(
            xb,
            y,
            xc,
            y,
            k,
        ) <= hi by {
            lemma_line_in_box(xb, y, xc, y, k);
        }
    }
}

/// A triangle whose two lowest-y vertices share a row is filled the same
/// whichever of the two comes first.
proof fn lemma_tri_ok_tie_top(
    x1: int,
    y1: int,
    x2: int,
    y2: int,
    x3: int,
    y3: int,
    s: Seq<(i32, i32, i32)>,
)
    requires
        y1 == y2,
        y2 <= y3,
        tri_ok(x1, y1, x2, y2, x3, y3, s),
    ensures
        tri_ok(x2, y2, x1, y1, x3, y3, s),
{
    if y2 == y3 {
        lemma_edges_ok_horiz_swap(x1, x2, x3, y1, s);
    } else {
        lemma_edges_ok_swap(x1, y1, x3, y3, x2, y2, x3, y3, s);
    }
}

/// A triangle whose two highest-y vertices share a row is filled the same
/// whichever of the two comes last.
proof fn lemma_tri_ok_tie_bottom(
    x1: int,
    y1: int,
    x2: int,
    y2: int,
    x3: int,
    y3: int,
    s: Seq<(i32, i32, i32)>,
)
    requires
        y2 == y3,
        y1 <= y2,
        tri_ok(x1, y1, x2, y2, x3, y3, s),
    ensures
        tri_ok(x1, y1, x3, y3, x2, y2, s),
{
    lemma_edges_ok_swap(x1, y1, x2, y2, x1, y1, x3, y3, s);
}

/// The span table of a y-sorted triangle is determined uniquely.
proof fn lemma_tri_ok_unique(
    x1: int,
    y1: int,
    x2: int,
    y2: int,
    x3: int,
    y3: int,
    s: Seq<(i32, i32, i32)>,
    t: Seq<(i32, i32, i32)>,
)
    requires
        y1 <= y2 <= y3,
        tri_ok(x1, y1, x2, y2, x3, y3, s),
        tri_ok(x1, y1, x2, y2, x3, y3, t),
    ensures
        s == t,
{
    if y2 == y3 {
        lemma_edges_ok_unique(x1, y1, x2, y2, x1, y1, x3, y3, s, t);
    } else if y1 == y2 {
        lemma_edges_ok_unique(x1, y1, x3, y3, x2, y2, x3, y3, s, t);
    } else {
        let h1 = y2 - y1;
        let x4 = split_x(x1, y1, y2, x3, y3);
        lemma_edges_ok_unique(
            x1,
            y1,
            x2,
            y2,
            x1,
            y1,
            x4,
            y2,
            s.take(h1 + 1),
            t.take(h1 + 1),
        );
        let t1 = choose|tt: Seq<(i32, i32, i32)>|
            #[trigger] edges_ok(x2, y2, x3, y3, x4, y2, x3, y3, tt) && s.skip(h1 + 1) == tt.skip(
                1,
            );
        let t2 = choose|tt: Seq<(i32, i32, i32)>|
            #[trigger] edges_ok(x2, y2, x3, y3, x4, y2, x3, y3, tt) && t.skip(h1 + 1) == tt.skip(
                1,
            );
        lemma_edges_ok_unique(x2, y2, x3, y3, x4, y2, x3, y3, t1, t2);
        assert forall|i: int| 0 <= i < s.len() implies s[i] == t[i] by {
            if i <= h1 {
                assert(s.take(h1 + 1)[i] == s[i] && t.take(h1 + 1)[i] == t[i]);
            } else {
                assert(s.skip(h1 + 1)[i - (h1 + 1)] == s[i] && t.skip(h1 + 1)[i - (h1 + 1)]
                    == t[i]);
            }
        }
        assert(s =~= t);
    }
}

/// Exchanging the first two vertices of a triangle leaves any valid span
/// table valid: filling does not depend on the order of those vertices.
/// Together with the swap of the last two vertices and `lemma_fill_unique`,
/// every permutation of the three vertices fills the same pixels.
pub proof fn lemma_fill_swap_first(
    x1: int,
    y1: int,
    x2: int,
    y2: int,
    x3: int,
    y3: int,
    s: Seq<(i32, i32, i32)>,
)
    requires
        fill_ok(x1, y1, x2, y2, x3, y3, s),
    ensures
        fill_ok(x2, y2, x1, y1, x3, y3, s),
{
    if y1 <= y2 && y2 <= y3 {
        if y1 == y2 {
            lemma_tri_ok_tie_top(x1, y1, x2, y2, x3, y3, s);
        }
    } else if y1 <= y3 && y3 <= y2 {
    } else if y2 <= y1 && y1 <= y3 {
    } else if y2 <= y3 && y3 <= y1 {
    } else if y3 <= y1 && y1 <= y2 {
        if y1 == y2 {
            lemma_tri_ok_tie_bottom(x3, y3, x1, y1, x2, y2, s);
        } else if y3 == y1 {
            lemma_tri_ok_tie_top(x3, y3, x1, y1, x2, y2, s);
        }
    } else {
        if y2 == y3 {
            lemma_tri_ok_tie_top(x3, y3, x2, y2, x1, y1, s);
        }
    }
}

/// Exchanging the last two vertices of a triangle leaves any valid span
/// table valid.
pub proof fn lemma_fill_swap_last(
    x1: int,
    y1: int,
    x2: int,
    y2: int,
    x3: int,
    y3: int,
    s: Seq<(i32, i32, i32)>,
)
    requires
        fill_ok(x1, y1, x2, y2, x3, y3, s),
    ensures
        fill_ok(x1, y1, x3, y3, x2, y2, s),
{
    if y1 <= y2 && y2 <= y3 {
        if y2 == y3 {
            lemma_tri_ok_tie_bottom(x1, y1, x2, y2, x3, y3, s);
        }
    } else if y1 <= y3 && y3 <= y2 {
    } else if y2 <= y1 && y1 <= y3 {
    } else if y2 <= y3 && y3 <= y1 {
        if y3 == y1 {
            lemma_tri_ok_tie_bottom(x2, y2, x3, y3, x1, y1, s);
        } else if y2 == y3 {
            lemma_tri_ok_tie_top(x2, y2, x3, y3, x1, y1, s);
        }
    } else if y3 <= y1 && y1 <= y2 {
        if y1 == y3 {
            lemma_tri_ok_tie_top(x3, y3, x1, y1, x2, y2, s);
        }
    } else {
    }
}

/// The span table of a triangle is determined uniquely by its vertices:
/// `fill_ok` pins the output of filling down completely.
pub proof fn lemma_fill_unique(
    x1: int,
    y1: int,
    x2: int,
    y2: int,
    x3: int,
    y3: int,
    s: Seq<(i32, i32, i32)>,
    t: Seq<(i32, i32, i32)>,
)
    requires
        fill_ok(x1, y1, x2, y2, x3, y3, s),
        fill_ok(x1, y1, x2, y2, x3, y3, t),
    ensures
        s == t,
{
    if y1 <= y2 && y2 <= y3 {
        lemma_tri_ok_unique(x1, y1, x2, y2, x3, y3, s, t);
    } else if y1 <= y3 && y3 <= y2 {
        lemma_tri_ok_unique(x1, y1, x3, y3, x2, y2, s, t);
    } else if y2 <= y1 && y1 <= y3 {
        lemma_tri_ok_unique(x2, y2, x1, y1, x3, y3, s, t);
    } else if y2 <= y3 && y3 <= y1 {
        lemma_tri_ok_unique(x2, y2, x3, y3, x1, y1, s, t);
    } else if y3 <= y1 && y1 <= y2 {
        lemma_tri_ok_unique(x3, y3, x1, y1, x2, y2, s, t);
    } else {
        lemma_tri_ok_unique(x3, y3, x2, y2, x1, y1, s, t);
    }
}

/// A degenerate triangle whose three vertices coincide fills exactly one
/// pixel: its own.
pub proof fn lemma_fill_degenerate(x: i32, y: i32, s: Seq<(i32, i32, i32)>)
    requires
        fill_ok(x as int, y as int, x as int, y as int, x as int, y as int, s),
    ensures
        s.len() == 1,
        s[0] == (y, x, x),
{
    let xi = x as int;
    let yi = y as int;
    lemma_line_endpoints(xi, yi, xi, yi);
    assert(line_steps(xi, yi, xi, yi) == 0);
    let lo = s[0].1 as int;
    let hi = s[0].2 as int;
    let kl = choose|k: int|
        #[trigger] hits_row(xi, yi, xi, yi, k, 0) && line_x(xi, yi, xi, yi, k) == lo;
    assert(kl == 0);
    let kh = choose|k: int|
        #[trigger] hits_row(xi, yi, xi, yi, k, 0) && line_x(xi, yi, xi, yi, k) == hi;
    assert(kh == 0);
    assert(lo == xi && hi == xi);
}

/// Fills a triangle whose vertices are already sorted by ascending y.
fn fill_sorted(x1: i32, y1: i32, x2: i32, y2: i32, x3: i32, y3: i32) -> (spans: Vec<
    (i32, i32, i32),
>)
    requires
        y1 <= y2 <= y3,
        coord_ok(x1 as int),
        coord_ok(y1 as int),
        coord_ok(x2 as int),
        coord_ok(y2 as int),
        coord_ok(x3 as int),
        coord_ok(y3 as int),
    ensures
        tri_ok(x1 as int, y1 as int, x2 as int, y2 as int, x3 as int, y3 as int, spans@),
        spans@.len() == y3 as int - y1 as int + 1,
        forall|r: int| 0 <= r < spans@.len() ==> (#[trigger] spans@[r]).0 as int == y1 as int + r,
        forall|r: int| 0 <= r < spans@.len() ==> (#[trigger] spans@[r]).1 <= spans@[r].2,
{
    if y2 == y3 {
        spans_of_edges(x1, x2, x1, x3, y1, y2)
    } else if y1 == y2 {
        spans_of_edges(x1, x3, x2, x3, y1, y3)
    } else {
        let gx1 = x1 as i64;
        let gx3 = x3 as i64;
        let gy1 = y1 as i64;
        let gy2 = y2 as i64;
        let gy3 = y3 as i64;
        let adx13: u64 = if x3 >= x1 {
            (gx3 - gx1) as u64
        } else {
            (gx1 - gx3) as u64
        };
        let dy12: u64 = (gy2 - gy1) as u64;
        let dy13: u64 = (gy3 - gy1) as u64;
        proof {
            lemma_mul_le(adx13 as int, dy12 as int, 0x8000_0000);
            lemma_mul_div_range(adx13 as int, dy12 as int, dy13 as int);
            lemma_sgn_mul(
                isgn(x3 as int - x1 as int),
                (adx13 as int * dy12 as int) / dy13 as int,
                adx13 as int,
            );
        }
        let off: u64 = (adx13 * dy12) / dy13;
        let x4_64: i64 = if x3 >= x1 {
            gx1 + (off as i64)
        } else {
            gx1 - (off as i64)
        };
        let x4: i32 = x4_64 as i32;
        assert(x4 as int == split_x(x1 as int, y1 as int, y2 as int, x3 as int, y3 as int));
        assert(coord_ok(x4 as int));
        let bottom = spans_of_edges(x1, x2, x1, x4, y1, y2);
        let top = spans_of_edges(x2, x3, x4, x3, y2, y3);
        let ghost gbottom = bottom@;
        let ghost gtop = top@;
        let mut spans = bottom;
        let mut i: usize = 1;
        while i < top.len()
            invariant
                1 <= i <= gtop.len(),
                top@ == gtop,
                spans@ == gbottom + gtop.subrange(1, i as int),
            decreases gtop.len() - i,
        {
            let entry = top[i];
            spans.push(entry);
            proof {
                assert(spans@ =~= gbottom + gtop.subrange(1, i as int + 1));
            }
            i = i + 1;
        }
        proof {
            let h1 = y2 as int - y1 as int;
            assert(spans@ == gbottom + gtop.subrange(1, gtop.len() as int));
            assert(gtop.skip(1) =~= gtop.subrange(1, gtop.len() as int));
            assert(spans@.take(h1 + 1) =~= gbottom);
            assert(spans@.skip(h1 + 1) =~= gtop.skip(1));
            assert(edges_ok(
                x2 as int,
                y2 as int,
                x3 as int,
                y3 as int,
                x4 as int,
                y2 as int,
                x3 as int,
                y3 as int,
                gtop,
            ));
        }
        spans
    }
}

/// Fills the triangle with integer pixel vertices `(x1, y1)`, `(x2, y2)`,
/// `(x3, y3)`: returns one `(y, lo, hi)` span per scanline row the triangle
/// touches, top row first, where `[lo, hi]` is the inclusive x range to
/// shade on that row.
pub fn draw_fill_triangle(x1: i32, y1: i32, x2: i32, y2: i32, x3: i32, y3: i32) -> (spans: Vec<
    (i32, i32, i32),
>)
    requires
        coord_ok(x1 as int),
        coord_ok(y1 as int),
        coord_ok(x2 as int),
        coord_ok(y2 as int),
        coord_ok(x3 as int),
        coord_ok(y3 as int),
    ensures
        fill_ok(x1 as int, y1 as int, x2 as int, y2 as int, x3 as int, y3 as int, spans@),
        spans@.len() == imax(imax(y1 as int, y2 as int), y3 as int) - imin(
            imin(y1 as int, y2 as int),
            y3 as int,
        ) + 1,
        forall|r: int|
            0 <= r < spans@.len() ==> (#[trigger] spans@[r]).0 as int == imin(
                imin(y1 as int, y2 as int),
                y3 as int,
            ) + r,
        forall|r: int| 0 <= r < spans@.len() ==> (#[trigger] spans@[r]).1 <= spans@[r].2,
{
    if y1 <= y2 && y2 <= y3 {
        fill_sorted(x1, y1, x2, y2, x3, y3)
    } else if y1 <= y3 && y3 <= y2 {
        fill_sorted(x1, y1, x3, y3, x2, y2)
    } else if y2 <= y1 && y1 <= y3 {
        fill_sorted(x2, y2, x1, y1, x3, y3)
    } else if y2 <= y3 && y3 <= y1 {
        fill_sorted(x2, y2, x3, y3, x1, y1)
    } else if y3 <= y1 && y1 <= y2 {
        fill_sorted(x3, y3, x1, y1, x2, y2)
    } else {
        fill_sorted(x3, y3, x2, y2, x1, y1)
    }
}

} // verus!
