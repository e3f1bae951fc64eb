use vstd::prelude::*;
use crate::fill::{crosses, crossing_key, fill_paint, in_fill, key_leq, max_y, min_y, row_keys, sorted_keys};
use crate::framebuffer::Color;
use crate::geometry::Point;
use crate::line::{abs, line_point, line_steps, round_div};

verus! {

/// Filling a polygon a second time with the same color changes nothing:
/// the grid after two fills equals the grid after one.
pub proof fn lemma_fill_idempotent(buf: Seq<Color>, w: int, vs: Seq<Point>, c: Color)
    ensures
        fill_paint(fill_paint(buf, w, vs, c), w, vs, c) == fill_paint(buf, w, vs, c),
{
    assert(fill_paint(fill_paint(buf, w, vs, c), w, vs, c) =~= fill_paint(buf, w, vs, c));
}

/// Rounding `p / n` and `(p + q) / n` gives results at most one apart when
/// `q` is no larger than `n`.
proof fn lemma_round_step(p: int, q: int, n: int)
    requires
        n > 0,
        -n <= q <= n,
    ensures
        -1 <= round_div(p + q, n) - round_div(p, n) <= 1,
{
    let m = 2 * n;
    let a = 2 * p + n;
    let b = 2 * (p + q) + n;
    vstd::arithmetic::div_mod::lemma_fundamental_div_mod(a, m);
    vstd::arithmetic::div_mod::lemma_fundamental_div_mod(b, m);
    let qa = a / m;
    let qb = b / m;
    assert(-1 <= qb - qa <= 1) by (nonlinear_arith)
        requires
            a == m * qa + a % m,
            b == m * qb + b % m,
            0 <= a % m < m,
            0 <= b % m < m,
            b - a == 2 * q,
            m == 2 * n,
            -n <= q <= n,
            n > 0;
}

/// Rounding `t * d / n` is exact when `d` is `n` or `-n`.
proof fn lemma_round_exact(t: int, d: int, n: int)
    requires
        n > 0,
        d == n || d == -n,
    ensures
        round_div(t * d, n) == if d == n { t } else { -t },
{
    let r = if d == n { t } else { -t };
    assert(2 * (t * d) + n == (2 * n) * r + n) by (nonlinear_arith)
        requires d == n || d == -n, r == if d == n { t } else { -t };
    vstd::arithmetic::div_mod::lemma_fundamental_div_mod_converse(2 * (t * d) + n, 2 * n, r, n);
}

/// A stroked line has no gaps: it starts at `a`, ends at `b`, and each step
/// moves exactly one pixel along the dominant axis and at most one along the
/// other.
pub proof fn lemma_line_connected(a: Point, b: Point, t: int)
    requires
        0 <= t < line_steps(a, b),
    ensures
        line_point(a, b, 0) == (a.x as int, a.y as int),
        line_point(a, b, line_steps(a, b)) == (b.x as int, b.y as int),
        -1 <= line_point(a, b, t + 1).0 - line_point(a, b, t).0 <= 1,
        -1 <= line_point(a, b, t + 1).1 - line_point(a, b, t).1 <= 1,
        abs(b.x - a.x) >= abs(b.y - a.y) ==> abs(line_point(a, b, t + 1).0 - line_point(a, b, t).0) == 1,
        abs(b.x - a.x) < abs(b.y - a.y) ==> abs(line_point(a, b, t + 1).1 - line_point(a, b, t).1) == 1,
{
    let n = line_steps(a, b);
    let dx = b.x - a.x;
    let dy = b.y - a.y;
    assert(0 * dx == 0 && 0 * dy == 0);
    vstd::arithmetic::div_mod::lemma_fundamental_div_mod_converse(n, 2 * n, 0, n);
    assert((t + 1) * dx == t * dx + dx) by (nonlinear_arith);
    assert((t + 1) * dy == t * dy + dy) by (nonlinear_arith);
    lemma_round_step(t * dx, dx, n);
    lemma_round_step(t * dy, dy, n);
    if abs(dx) >= abs(dy) {
        lemma_round_exact(t, dx, n);
        lemma_round_exact(t + 1, dx, n);
    } else {
        lemma_round_exact(t, dy, n);
        lemma_round_exact(t + 1, dy, n);
    }
    lemma_round_end(dx, n);
    lemma_round_end(dy, n);
}

/// The last step lands on the end point.
proof fn lemma_round_end(d: int, n: int)
    requires
        n > 0,
    ensures
        round_div(n * d, n) == d,
{
    assert(2 * (n * d) + n == d * (2 * n) + n) by (nonlinear_arith);
    vstd::arithmetic::div_mod::lemma_fundamental_div_mod_converse(2 * (n * d) + n, 2 * n, d, n);
}

/// The key of the crossing of edge `e` of `vs` with scanline `y`, if any.
spec fn edge_keys(vs: Seq<Point>, y: int, e: int) -> Seq<int> {
    let a = vs[e];
    let b = vs[(e + 1) % (vs.len() as int)];
    if crosses(a, b, y) { seq![crossing_key(a, b, y)] } else { Seq::empty() }
}

/// The crossing keys of edges `lo..hi` of `vs` with scanline `y`.
spec fn keys_between(vs: Seq<Point>, y: int, lo: int, hi: int) -> Seq<int>
    decreases hi - lo,
{
    if hi <= lo {
        Seq::empty()
    } else {
        edge_keys(vs, y, lo) + keys_between(vs, y, lo + 1, hi)
    }
}

proof fn lemma_keys_between_push(vs: Seq<Point>, y: int, lo: int, hi: int)
    requires
        lo <= hi,
    ensures
        keys_between(vs, y, lo, hi + 1) == keys_between(vs, y, lo, hi) + edge_keys(vs, y, hi),
    decreases hi - lo,
{
    if lo < hi {
        lemma_keys_between_push(vs, y, lo + 1, hi);
        assert(keys_between(vs, y, lo, hi + 1) =~= keys_between(vs, y, lo, hi) + edge_keys(vs, y, hi));
    } else {
        assert(keys_between(vs, y, lo + 1, hi + 1) =~= Seq::<int>::empty());
        assert(keys_between(vs, y, lo, hi + 1) =~= keys_between(vs, y, lo, hi) + edge_keys(vs, y, hi));
    }
}

proof fn lemma_row_keys_between(vs: Seq<Point>, y: int, i: nat)
    requires
        vs.len() >= 1,
    ensures
        row_keys(vs, y, i) == keys_between(vs, y, 0, i as int),
    decreases i,
{
    if i > 0 {
        lemma_row_keys_between(vs, y, (i - 1) as nat);
        lemma_keys_between_push(vs, y, 0, i - 1);
        assert(row_keys(vs, y, i) =~= keys_between(vs, y, 0, i as int));
    }
}

/// An edge crosses a scanline at the same key in either direction.
proof fn lemma_edge_symmetric(a: Point, b: Point, y: int)
    ensures
        crosses(a, b, y) == crosses(b, a, y),
        crosses(a, b, y) ==> crossing_key(a, b, y) == crossing_key(b, a, y),
{
    let d = b.y - a.y;
    let n1 = a.x * d + (y - a.y) * (b.x - a.x);
    let n2 = b.x * (-d) + (y - b.y) * (a.x - b.x);
    assert(n2 == -n1) by (nonlinear_arith)
        requires d == b.y - a.y, n1 == a.x * d + (y - a.y) * (b.x - a.x), n2 == b.x * (-d) + (y - b.y) * (a.x - b.x);
}

proof fn lemma_reverse_row_keys(vs: Seq<Point>, y: int, j: int)
    requires
        vs.len() >= 2,
        0 <= j <= vs.len() - 1,
    ensures
        row_keys(vs.reverse(), y, j as nat) == keys_between(vs, y, vs.len() - 1 - j, vs.len() - 1).reverse(),
    decreases j,
{
    let n = vs.len() as int;
    let r = vs.reverse();
    if j > 0 {
        lemma_reverse_row_keys(vs, y, j - 1);
        let e = n - 1 - j;
        assert(r[j - 1] == vs[e + 1]);
        vstd::arithmetic::div_mod::lemma_small_mod(j as nat, n as nat);
        vstd::arithmetic::div_mod::lemma_small_mod((e + 1) as nat, n as nat);
        assert(r[j % n] == vs[e]);
        lemma_edge_symmetric(vs[e], vs[e + 1], y);
        assert(edge_keys(r, y, j - 1) =~= edge_keys(vs, y, e));
        let a = edge_keys(vs, y, e);
        let b = keys_between(vs, y, e + 1, n - 1);
        assert((a + b).reverse() =~= b.reverse() + a);
        assert(row_keys(r, y, j as nat) =~= row_keys(r, y, (j - 1) as nat) + edge_keys(r, y, j - 1));
    } else {
        assert(keys_between(vs, y, n - 1, n - 1).reverse() =~= Seq::<int>::empty());
    }
}

proof fn lemma_min_max_y(vs: Seq<Point>, i: nat)
    requires
        1 <= i <= vs.len(),
    ensures
        forall|j: int| 0 <= j < i ==> min_y(vs, i) <= #[trigger] vs[j].y <= max_y(vs, i),
        exists|j: int| 0 <= j < i && min_y(vs, i) == #[trigger] vs[j].y,
        exists|j: int| 0 <= j < i && max_y(vs, i) == #[trigger] vs[j].y,
    decreases i,
{
    if i > 1 {
        lemma_min_max_y(vs, (i - 1) as nat);
        let jmin = choose|j: int| 0 <= j < i - 1 && min_y(vs, (i - 1) as nat) == #[trigger] vs[j].y;
        let jmax = choose|j: int| 0 <= j < i - 1 && max_y(vs, (i - 1) as nat) == #[trigger] vs[j].y;
        if (vs[i - 1].y as int) < min_y(vs, (i - 1) as nat) {
            assert(min_y(vs, i) == vs[i - 1].y);
        } else {
            assert(min_y(vs, i) == vs[jmin].y);
        }
        if (vs[i - 1].y as int) > max_y(vs, (i - 1) as nat) {
            assert(max_y(vs, i) == vs[i - 1].y);
        } else {
            assert(max_y(vs, i) == vs[jmax].y);
        }
    } else {
        assert(min_y(vs, i) == vs[0].y);
        assert(max_y(vs, i) == vs[0].y);
    }
}

/// Reversing the order of the vertices, and so the winding, leaves the
/// filled pixel set as it was.
pub proof fn lemma_fill_reverse(vs: Seq<Point>, x: int, y: int)
    requires
        vs.len() >= 3,
    ensures
        in_fill(vs.reverse(), x, y) == in_fill(vs, x, y),
{
    let n = vs.len() as int;
    let r = vs.reverse();
    // Same vertical extent.
    lemma_min_max_y(vs, n as nat);
    lemma_min_max_y(r, n as nat);
    let j1 = choose|j: int| 0 <= j < n && min_y(vs, n as nat) == #[trigger] vs[j].y;
    let j2 = choose|j: int| 0 <= j < n && min_y(r, n as nat) == #[trigger] r[j].y;
    let j3 = choose|j: int| 0 <= j < n && max_y(vs, n as nat) == #[trigger] vs[j].y;
    let j4 = choose|j: int| 0 <= j < n && max_y(r, n as nat) == #[trigger] r[j].y;
    assert(r[n - 1 - j1] == vs[j1]);
    assert(r[n - 1 - j3] == vs[j3]);
    assert(r[j2].y == vs[n - 1 - j2].y);
    assert(r[j4].y == vs[n - 1 - j4].y);
    assert(min_y(r, n as nat) == min_y(vs, n as nat));
    assert(max_y(r, n as nat) == max_y(vs, n as nat));
    // Same crossing keys, in another order.
    let inner = keys_between(vs, y, 0, n - 1);
    let last = edge_keys(vs, y, n - 1);
    lemma_reverse_row_keys(vs, y, n - 1);
    lemma_row_keys_between(vs, y, (n - 1) as nat);
    vstd::arithmetic::div_mod::lemma_mod_self_0(n);
    assert(r[n - 1] == vs[0] && r[0] == vs[n - 1]);
    lemma_edge_symmetric(vs[n - 1], vs[0], y);
    assert(edge_keys(r, y, n - 1) =~= last);
    assert(row_keys(r, y, n as nat) =~= inner.reverse() + last);
    assert(row_keys(vs, y, n as nat) =~= inner + last);
    vstd::seq_lib::lemma_multiset_commutative(inner.reverse(), last);
    vstd::seq_lib::lemma_multiset_commutative(inner, last);
    inner.lemma_reverse_to_multiset();
    let kr = row_keys(r, y, n as nat);
    let kv = row_keys(vs, y, n as nat);
    assert(kr.to_multiset() == kv.to_multiset());
    // Sorting equal multisets gives equal sequences.
    assert(vstd::relations::total_ordering(key_leq()));
    kr.lemma_sort_by_ensures(key_leq());
    kv.lemma_sort_by_ensures(key_leq());
    vstd::seq_lib::lemma_sorted_unique(kr.sort_by(key_leq()), kv.sort_by(key_leq()), key_leq());
    assert(sorted_keys(r, y) == sorted_keys(vs, y));
}

/// Filling the reversed vertex list paints the same grid.
pub proof fn lemma_fill_paint_reverse(buf: Seq<Color>, w: int, vs: Seq<Point>, c: Color)
    requires
        vs.len() >= 3,
    ensures
        fill_paint(buf, w, vs.reverse(), c) == fill_paint(buf, w, vs, c),
{
    assert forall|i: int| 0 <= i < buf.len() implies #[trigger] in_fill(vs.reverse(), i % w, i / w) == in_fill(vs, i % w, i / w) by {
        lemma_fill_reverse(vs, i % w, i / w);
    }
    assert(fill_paint(buf, w, vs.reverse(), c) =~= fill_paint(buf, w, vs, c));
}

} // verus!
