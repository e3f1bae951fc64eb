use vstd::prelude::*;
use vstd::relations::{sorted_by, total_ordering};
use crate::framebuffer::{Color, DrawError, Framebuffer};
use crate::geometry::{Point, floor_div};

verus! {

broadcast use vstd::seq_lib::group_to_multiset_ensures;

/// The edge from `a` to `b` meets scanline `y` under the half-open rule: an
/// endpoint on the line counts for the edge only where the edge leaves it
/// upward in `y`, and a horizontal edge never counts.
pub open spec fn crosses(a: Point, b: Point, y: int) -> bool {
    (a.y <= y && y < b.y) || (b.y <= y && y < a.y)
}

/// Where the edge from `a` to `b` meets scanline `y`, as `floor(x) + ceil(x)`
/// of the exact intersection `x`: twice `x` when `x` is a whole column, and
/// the odd number between the two columns around it otherwise. These keys
/// order crossings as their exact positions do, up to crossings that fall in
/// the same gap between two columns, whose order decides no pixel.
pub open spec fn crossing_key(a: Point, b: Point, y: int) -> int {
    let d = b.y - a.y;
    let n = a.x * d + (y - a.y) * (b.x - a.x);
    let nn = if d < 0 { -n } else { n };
    let dd = if d < 0 { -d } else { d };
    nn / dd - (-nn) / dd
}

/// The keys of the crossings of scanline `y` by the first `i` edges, where
/// edge `j` runs from vertex `j` to vertex `j + 1`, wrapping to vertex 0.
pub open spec fn row_keys(vs: Seq<Point>, y: int, i: nat) -> Seq<int>
    decreases i,
{
    if i == 0 {
        Seq::empty()
    } else {
        let prev = row_keys(vs, y, (i - 1) as nat);
        let a = vs[i - 1];
        let b = vs[(i % vs.len()) as int];
        if crosses(a, b, y) {
            prev.push(crossing_key(a, b, y))
        } else {
            prev
        }
    }
}

/// The order in which crossing keys are sorted.
pub open spec fn key_leq() -> spec_fn(int, int) -> bool {
    |a: int, b: int| a <= b
}

/// The crossing keys of scanline `y`, in ascending order.
pub open spec fn sorted_keys(vs: Seq<Point>, y: int) -> Seq<int> {
    row_keys(vs, y, vs.len()).sort_by(key_leq())
}

/// Column `x` lies in one of the first `p` spans of the sorted keys `s`, the
/// spans being `s[0]..s[1]`, `s[2]..s[3]` and so on; an unpaired last key
/// opens no span.
pub open spec fn in_spans(s: Seq<int>, p: int, x: int) -> bool {
    exists|k: int| 0 <= k < p && 2 * k + 1 < s.len() && #[trigger] s[2 * k] <= 2 * x && 2 * x <= s[2 * k + 1]
}

/// The lowest `y` among the first `i` vertices (the first one for `i <= 1`).
pub open spec fn min_y(vs: Seq<Point>, i: nat) -> int
    decreases i,
{
    if i <= 1 {
        vs[0].y as int
    } else {
        let m = min_y(vs, (i - 1) as nat);
        if (vs[i - 1].y as int) < m { vs[i - 1].y as int } else { m }
    }
}

/// The highest `y` among the first `i` vertices (the first one for `i <= 1`).
pub open spec fn max_y(vs: Seq<Point>, i: nat) -> int
    decreases i,
{
    if i <= 1 {
        vs[0].y as int
    } else {
        let m = max_y(vs, (i - 1) as nat);
        if (vs[i - 1].y as int) > m { vs[i - 1].y as int } else { m }
    }
}

/// Pixel `(x, y)` is inside the polygon `vs` by the even-odd scanline rule:
/// `y` lies between the lowest and the highest vertex, and `x` in a span
/// between paired crossings of that scanline.
pub open spec fn in_fill(vs: Seq<Point>, x: int, y: int) -> bool {
    &&& min_y(vs, vs.len()) <= y <= max_y(vs, vs.len())
    &&& in_spans(sorted_keys(vs, y), sorted_keys(vs, y).len() as int, x)
}

/// The samples `buf` of a grid `w` wide after filling the polygon `vs` with `c`.
pub open spec fn fill_paint(buf: Seq<Color>, w: int, vs: Seq<Point>, c: Color) -> Seq<Color> {
    Seq::new(buf.len(), |i: int| if in_fill(vs, i % w, i / w) { c } else { buf[i] })
}

/// Machine keys as mathematical integers.
pub open spec fn ints(s: Seq<i128>) -> Seq<int> {
    s.map_values(|k: i128| k as int)
}

/// Sample `i` of a grid `w` wide is the pixel at column `x` of row `y`.
pub proof fn lemma_index(w: int, x: int, y: int, i: int)
    requires
        w > 0,
        0 <= x < w,
        0 <= i,
    ensures
        (i == y * w + x) <==> (i / w == y && i % w == x),
{
    vstd::arithmetic::div_mod::lemma_fundamental_div_mod(i, w);
    if i == y * w + x {
        vstd::arithmetic::div_mod::lemma_fundamental_div_mod_converse(i, w, y, x);
    }
    assert(w * (i / w) == (i / w) * w) by (nonlinear_arith);

}

/// A sample of a `w` by `h` grid lies in a row of it.
pub proof fn lemma_row_bound(w: int, h: int, i: int)
    requires
        w > 0,
        0 <= i < w * h,
    ensures
        0 <= i / w < h,
        0 <= i % w < w,
{
    vstd::arithmetic::div_mod::lemma_fundamental_div_mod(i, w);
    assert(0 <= i / w < h) by (nonlinear_arith)
        requires i == w * (i / w) + i % w, 0 <= i % w < w, 0 <= i < w * h, w > 0;
}

proof fn lemma_key_leq_total()
    ensures
        total_ordering(key_leq()),
{
}

fn crossing_key_exec(a: Point, b: Point, y: i128) -> (k: i128)
    requires
        crosses(a, b, y as int),
        y < 0x1_0000_0000,
        y > -0x1_0000_0000,
    ensures
        k == crossing_key(a, b, y as int),
        -0x1000_0000_0000_0000_0000 < k < 0x1000_0000_0000_0000_0000,
{
    let d: i128 = b.y as i128 - a.y as i128;
    let dx: i128 = b.x as i128 - a.x as i128;
    let ty: i128 = y - a.y as i128;
    proof {
        assert(-0x1_0000_0000_0000_0000 < a.x * d < 0x1_0000_0000_0000_0000) by (nonlinear_arith)
            requires -0x8000_0000 <= a.x < 0x8000_0000, -0x1_0000_0000 < d < 0x1_0000_0000;
        assert(-0x10_0000_0000_0000_0000 < ty * dx < 0x10_0000_0000_0000_0000) by (nonlinear_arith)
            requires -0x3_0000_0000 < ty < 0x3_0000_0000, -0x1_0000_0000 < dx < 0x1_0000_0000;
    }
    let n: i128 = (a.x as i128) * d + ty * dx;
    let nn: i128 = if d < 0 { -n } else { n };
    let dd: i128 = if d < 0 { -d } else { d };
    let lo = floor_div(nn, dd);
    let hi = floor_div(-nn, dd);
    lo - hi
}

/// The crossing keys of scanline `y`, in the order of the edges.
fn row_crossings(vs: &[Point], y: i128) -> (keys: Vec<i128>)
    requires
        vs@.len() >= 1,
        y < 0x1_0000_0000,
        y > -0x1_0000_0000,
    ensures
        ints(keys@) == row_keys(vs@, y as int, vs@.len()),
        forall|j: int| 0 <= j < keys@.len() ==> -0x1000_0000_0000_0000_0000 < #[trigger] keys@[j] < 0x1000_0000_0000_0000_0000,
{
    let n = vs.len();
    let mut keys: Vec<i128> = Vec::new();
    let mut i: usize = 0;
    while i < n
        invariant
            n == vs@.len(),
            n >= 1,
            i <= n,
            y < 0x1_0000_0000,
            y > -0x1_0000_0000,
            ints(keys@) == row_keys(vs@, y as int, i as nat),
            forall|j: int| 0 <= j < keys@.len() ==> -0x1000_0000_0000_0000_0000 < #[trigger] keys@[j] < 0x1000_0000_0000_0000_0000,
        decreases n - i,
    {
        let a = vs[i];
        let b = vs[(i + 1) % n];
        let ay = a.y as i128;
        let by = b.y as i128;
        if (ay <= y && y < by) || (by <= y && y < ay) {
            let k = crossing_key_exec(a, b, y);
            keys.push(k);
        }
        proof {
            assert(ints(keys@) =~= row_keys(vs@, y as int, (i + 1) as nat));
        }
        i = i + 1;
    }
    keys
}

/// The keys in ascending order, by insertion.
fn sort_keys(keys: &Vec<i128>) -> (out: Vec<i128>)
    requires
        forall|j: int| 0 <= j < keys@.len() ==> -0x1000_0000_0000_0000_0000 < #[trigger] keys@[j] < 0x1000_0000_0000_0000_0000,
    ensures
        forall|j: int| 0 <= j < out@.len() ==> -0x1000_0000_0000_0000_0000 < #[trigger] out@[j] < 0x1000_0000_0000_0000_0000,
        ints(out@) == ints(keys@).sort_by(key_leq()),
        out@.to_multiset() == keys@.to_multiset(),
{
    let mut out: Vec<i128> = Vec::new();
    let mut i: usize = 0;
    while i < keys.len()
        invariant
            i <= keys@.len(),
            sorted_by(ints(out@), key_leq()),
            forall|j: int| 0 <= j < keys@.len() ==> -0x1000_0000_0000_0000_0000 < #[trigger] keys@[j] < 0x1000_0000_0000_0000_0000,
            forall|j: int| 0 <= j < out@.len() ==> -0x1000_0000_0000_0000_0000 < #[trigger] out@[j] < 0x1000_0000_0000_0000_0000,
            out@.to_multiset() == keys@.take(i as int).to_multiset(),
            ints(out@).to_multiset() == ints(keys@).take(i as int).to_multiset(),
        decreases keys@.len() - i,
    {
        let k = keys[i];
        let mut pos: usize = 0;
        while pos < out.len() && out[pos] <= k
            invariant
                pos <= out@.len(),
                forall|j: int| 0 <= j < pos ==> out@[j] <= k,
            decreases out@.len() - pos,
        {
            pos = pos + 1;
        }
        proof {
            assert(forall|j: int| pos <= j < out@.len() ==> out@[j] > k) by {
                if pos < out@.len() {
                    assert forall|j: int| pos <= j < out@.len() implies out@[j] > k by {
                        if j > pos {
                            assert(key_leq()(ints(out@)[pos as int], ints(out@)[j]));
                        }
                    }
                }
            }
        }
        let ghost prev = out@;
        out.insert(pos, k);
        proof {
            assert(ints(out@) =~= ints(prev).insert(pos as int, k as int));
            assert forall|j: int| 0 <= j < out@.len() implies -0x1000_0000_0000_0000_0000 < #[trigger] out@[j] < 0x1000_0000_0000_0000_0000 by {
                if j > pos {
                    assert(out@[j] == prev[j - 1]);
                }
            }
            assert(keys@.take(i + 1) =~= keys@.take(i as int).push(k));
            assert(ints(keys@).take(i + 1) =~= ints(keys@).take(i as int).push(k as int));
            assert forall|a: int, b: int| 0 <= a < b < out@.len() implies #[trigger] key_leq()(ints(out@)[a], ints(out@)[b]) by {
                if b < pos {
                    assert(key_leq()(ints(prev)[a], ints(prev)[b]));
                } else if a > pos {
                    assert(key_leq()(ints(prev)[a - 1], ints(prev)[b - 1]));
                } else if a < pos && b > pos {
                    assert(prev[b - 1] > k);
                }
            }
        }
        i = i + 1;
    }
    proof {
        assert(keys@.take(keys@.len() as int) =~= keys@);
        assert(ints(keys@).take(keys@.len() as int) =~= ints(keys@));
        lemma_key_leq_total();
        ints(keys@).lemma_sort_by_ensures(key_leq());
        vstd::seq_lib::lemma_sorted_unique(ints(out@), ints(keys@).sort_by(key_leq()), key_leq());
    }
    out
}

/// Column `x` is in span `k` exactly when it lies between the half keys.
proof fn lemma_half(lo: int, hi: int, x: int)
    ensures
        (-((-lo) / 2) <= x) <==> (lo <= 2 * x),
        (x <= hi / 2) <==> (2 * x <= hi),
{
    vstd::arithmetic::div_mod::lemma_fundamental_div_mod(-lo, 2);
    vstd::arithmetic::div_mod::lemma_fundamental_div_mod(hi, 2);
}

proof fn lemma_in_spans_step(s: Seq<int>, p: int, x: int)
    requires
        0 <= p,
        2 * p + 1 < s.len(),
    ensures
        in_spans(s, p + 1, x) == (in_spans(s, p, x) || (s[2 * p] <= 2 * x && 2 * x <= s[2 * p + 1])),
{
    if in_spans(s, p + 1, x) {
        let k = choose|k: int| 0 <= k < p + 1 && 2 * k + 1 < s.len() && #[trigger] s[2 * k] <= 2 * x && 2 * x <= s[2 * k + 1];
        if k < p {
            assert(s[2 * k] <= 2 * x);
        }
    }
    if in_spans(s, p, x) {
        let k = choose|k: int| 0 <= k < p && 2 * k + 1 < s.len() && #[trigger] s[2 * k] <= 2 * x && 2 * x <= s[2 * k + 1];
        assert(s[2 * k] <= 2 * x);
    }
    if s[2 * p] <= 2 * x && 2 * x <= s[2 * p + 1] {
        assert(s[2 * p] <= 2 * x);
    }
}

proof fn lemma_in_spans_done(s: Seq<int>, p: int, x: int)
    requires
        0 <= p,
        2 * p + 1 >= s.len(),
    ensures
        in_spans(s, p, x) == in_spans(s, s.len() as int, x),
{
    if in_spans(s, s.len() as int, x) {
        let k = choose|k: int| 0 <= k < s.len() && 2 * k + 1 < s.len() && #[trigger] s[2 * k] <= 2 * x && 2 * x <= s[2 * k + 1];
        assert(s[2 * k] <= 2 * x);
    }
    if in_spans(s, p, x) {
        let k = choose|k: int| 0 <= k < p && 2 * k + 1 < s.len() && #[trigger] s[2 * k] <= 2 * x && 2 * x <= s[2 * k + 1];
        assert(s[2 * k] <= 2 * x);
    }
}

impl Framebuffer {
    /// Writes `current_color` on row `y` at every column from `x0` to `x1`
    /// that lies inside the grid.
    fn fill_span(&mut self, y: u32, x0: i128, x1: i128)
        requires
            old(self).wf(),
            y < old(self).height,
        ensures
            final(self).wf(),
            final(self).same_setup(old(self)),
            final(self).color_buffer@ == Seq::new(
                old(self).color_buffer@.len(),
                |i: int|
                    if i / (old(self).width as int) == y && x0 <= i % (old(self).width as int) <= x1 {
                        old(self).current_color
                    } else {
                        old(self).color_buffer@[i]
                    },
            ),
    {
        let ghost orig = self.color_buffer@;
        let ghost w = self.width as int;
        let ghost h = self.height as int;
        let ghost c = self.current_color;
        let lo: i128 = if x0 < 0 { 0 } else { x0 };
        let hi: i128 = if x1 >= self.width as i128 { self.width as i128 - 1 } else { x1 };
        let mut x: i128 = lo;
        while x <= hi
            invariant
                self.wf(),
                self.same_setup(old(self)),
                w == self.width,
                h == self.height,
                y < h,
                c == self.current_color,
                0 <= lo <= x,
                hi < w,
                x <= hi + 1 || x == lo,
                self.color_buffer@.len() == orig.len(),
                forall|i: int|
                    0 <= i < orig.len() ==> #[trigger] self.color_buffer@[i] == if i / w == y && lo <= i % w < x {
                        c
                    } else {
                        orig[i]
                    },
            decreases hi + 1 - x,
        {
            let ghost prev = self.color_buffer@;
            self.set_pixel(x as u32, y);
            proof {
                assert(0 <= y * w + x < w * h) by (nonlinear_arith)
                    requires 0 <= x < w, 0 <= y < h;
                assert forall|i: int| 0 <= i < orig.len() implies #[trigger] self.color_buffer@[i] == if i / w == y && lo <= i % w < x + 1 {
                    c
                } else {
                    orig[i]
                } by {
                    lemma_index(w, x as int, y as int, i);
                    assert(self.color_buffer@[i] == if i == y * w + x { c } else { prev[i] });
                }
            }
            x = x + 1;
        }
        proof {
            assert forall|i: int| 0 <= i < orig.len() implies #[trigger] self.color_buffer@[i] == if i / w == y && x0 <= i % w <= x1 {
                c
            } else {
                orig[i]
            } by {
                lemma_row_bound(w, h, i);
            }
            assert(self.color_buffer@ =~= Seq::new(
                orig.len(),
                |i: int| if i / w == y && x0 <= i % w <= x1 { c } else { orig[i] },
            ));
        }
    }

    /// Fills the spans of scanline `y` of the polygon `vs`.
    fn fill_row(&mut self, vs: &[Point], y: u32)
        requires
            old(self).wf(),
            y < old(self).height,
            vs@.len() >= 1,
        ensures
            final(self).wf(),
            final(self).same_setup(old(self)),
            final(self).color_buffer@ == Seq::new(
                old(self).color_buffer@.len(),
                |i: int|
                    if i / (old(self).width as int) == y && in_spans(
                        sorted_keys(vs@, y as int),
                        sorted_keys(vs@, y as int).len() as int,
                        i % (old(self).width as int),
                    ) {
                        old(self).current_color
                    } else {
                        old(self).color_buffer@[i]
                    },
            ),
    {
        let ghost orig = self.color_buffer@;
        let ghost w = self.width as int;
        let ghost c = self.current_color;
        let keys = row_crossings(vs, y as i128);
        let sorted = sort_keys(&keys);
        let ghost ss = ints(sorted@);
        assert(ss == sorted_keys(vs@, y as int));
        let mut j: usize = 0;
        while j + 1 < sorted.len()
            invariant
                self.wf(),
                self.same_setup(old(self)),
                w == self.width,
                c == self.current_color,
                y < self.height,
                j % 2 == 0,
                j <= sorted@.len(),
                ss == ints(sorted@),
                forall|k: int| 0 <= k < sorted@.len() ==> -0x1000_0000_0000_0000_0000 < #[trigger] sorted@[k] < 0x1000_0000_0000_0000_0000,
                self.color_buffer@.len() == orig.len(),
                forall|i: int|
                    0 <= i < orig.len() ==> #[trigger] self.color_buffer@[i] == if i / w == y && in_spans(ss, j as int / 2, i % w) {
                        c
                    } else {
                        orig[i]
                    },
            decreases sorted@.len() - j,
        {
            let x0: i128 = -floor_div(-sorted[j], 2);
            let x1: i128 = floor_div(sorted[j + 1], 2);
            let ghost prev = self.color_buffer@;
            self.fill_span(y, x0, x1);
            proof {
                assert forall|i: int| 0 <= i < orig.len() implies #[trigger] self.color_buffer@[i] == if i / w == y && in_spans(ss, (j + 2) as int / 2, i % w) {
                    c
                } else {
                    orig[i]
                } by {
                    lemma_in_spans_step(ss, j as int / 2, i % w);
                    lemma_half(ss[j as int], ss[j + 1], i % w);
                    assert(self.color_buffer@[i] == if i / w == y && x0 <= i % w <= x1 { c } else { prev[i] });
                }
            }
            j = j + 2;
        }
        proof {
            assert forall|i: int| 0 <= i < orig.len() implies #[trigger] self.color_buffer@[i] == if i / w == y && in_spans(ss, ss.len() as int, i % w) {
                c
            } else {
                orig[i]
            } by {
                lemma_in_spans_done(ss, j as int / 2, i % w);
            }
            assert(self.color_buffer@ =~= Seq::new(
                orig.len(),
                |i: int| if i / w == y && in_spans(ss, ss.len() as int, i % w) { c } else { orig[i] },
            ));
        }
    }

    /// Fills the polygon with `current_color` by the even-odd scanline rule
    /// (see `in_fill`). Fewer than three vertices are rejected and leave the
    /// grid as it was.
    pub fn fill_polygon(&mut self, vertices: &[Point]) -> (r: Result<(), DrawError>)
        requires
            old(self).wf(),
        ensures
            final(self).wf(),
            final(self).same_setup(old(self)),
            vertices@.len() < 3 ==> r == Err::<(), DrawError>(DrawError::DegeneratePolygon),
            vertices@.len() < 3 ==> final(self).color_buffer@ == old(self).color_buffer@,
            vertices@.len() >= 3 ==> r is Ok,
            vertices@.len() >= 3 ==> final(self).color_buffer@ == fill_paint(
                old(self).color_buffer@,
                old(self).width as int,
                vertices@,
                old(self).current_color,
            ),
    {
        let n = vertices.len();
        if n < 3 {
            return Err(DrawError::DegeneratePolygon);
        }
        let ghost vs = vertices@;
        let ghost orig = self.color_buffer@;
        let ghost w = self.width as int;
        let ghost h = self.height as int;
        let ghost c = self.current_color;
        let mut y_min: i32 = vertices[0].y;
        let mut y_max: i32 = vertices[0].y;
        let mut i: usize = 1;
        while i < n
            invariant
                vs == vertices@,
                n == vs.len(),
                1 <= i <= n,
                y_min == min_y(vs, i as nat),
                y_max == max_y(vs, i as nat),
            decreases n - i,
        {
            let vy = vertices[i].y;
            if vy < y_min {
                y_min = vy;
            }
            if vy > y_max {
                y_max = vy;
            }
            i = i + 1;
        }
        let lo: i64 = if y_min < 0 { 0 } else { y_min as i64 };
        let hi: i64 = if y_max as i64 >= self.height as i64 { self.height as i64 - 1 } else { y_max as i64 };
        let mut y: i64 = lo;
        while y <= hi
            invariant
                self.wf(),
                self.same_setup(old(self)),
                vs == vertices@,
                vs.len() >= 3,
                w == self.width,
                h == self.height,
                c == self.current_color,
                y_min == min_y(vs, vs.len()),
                y_max == max_y(vs, vs.len()),
                lo == if y_min < 0 { 0 } else { y_min as int },
                hi == if y_max >= h { h - 1 } else { y_max as int },
                lo <= y,
                y <= hi + 1 || y == lo,
                self.color_buffer@.len() == orig.len(),
                forall|i: int|
                    0 <= i < orig.len() ==> #[trigger] self.color_buffer@[i] == if lo <= i / w < y && in_fill(vs, i % w, i / w) {
                        c
                    } else {
                        orig[i]
                    },
            decreases hi + 1 - y,
        {
            self.fill_row(vertices, y as u32);
            y = y + 1;
        }
        proof {
            assert forall|i: int| 0 <= i < orig.len() implies #[trigger] self.color_buffer@[i] == if in_fill(vs, i % w, i / w) {
                c
            } else {
                orig[i]
            } by {
                lemma_row_bound(w, h, i);
            }
            assert(self.color_buffer@ =~= fill_paint(orig, w, vs, c));
        }
        Ok(())
    }
}

} // verus!
