use vstd::prelude::*;
use crate::fill::{lemma_index, lemma_row_bound};
use crate::framebuffer::{Color, DrawError, Framebuffer};
use crate::geometry::{Point, floor_div};

verus! {

pub open spec fn abs(v: int) -> int {
    if v < 0 { -v } else { v }
}

/// The number of steps from `a` to `b`: the length along the dominant axis.
pub open spec fn line_steps(a: Point, b: Point) -> int {
    let dx = abs(b.x - a.x);
    let dy = abs(b.y - a.y);
    if dx >= dy { dx } else { dy }
}

/// `p / n` rounded to the nearest integer, halves rounded up.
pub open spec fn round_div(p: int, n: int) -> int {
    (2 * p + n) / (2 * n)
}

/// Step `t` of the line from `a` to `b`: the point `a + t * (b - a) / n`
/// with each coordinate rounded to the nearest pixel, `n` being the number
/// of steps.
pub open spec fn line_point(a: Point, b: Point, t: int) -> (int, int) {
    let n = line_steps(a, b);
    if n == 0 {
        (a.x as int, a.y as int)
    } else {
        (a.x + round_div(t * (b.x - a.x), n), a.y + round_div(t * (b.y - a.y), n))
    }
}

/// Pixel `(x, y)` is one of the steps `0..=n` of the line from `a` to `b`.
pub open spec fn on_line(a: Point, b: Point, x: int, y: int) -> bool {
    exists|t: int| 0 <= t <= line_steps(a, b) && #[trigger] line_point(a, b, t) == (x, y)
}

/// The samples `buf` of a grid `w` wide after stroking the line from `a` to `b` with `c`.
pub open spec fn line_paint(buf: Seq<Color>, w: int, a: Point, b: Point, c: Color) -> Seq<Color> {
    Seq::new(buf.len(), |i: int| if on_line(a, b, i % w, i / w) { c } else { buf[i] })
}

/// Pixel `(x, y)` lies on one of the first `k` edges of the closed loop `vs`.
pub open spec fn on_outline_upto(vs: Seq<Point>, k: int, x: int, y: int) -> bool {
    exists|e: int| 0 <= e < k && #[trigger] on_line(vs[e], vs[(e + 1) % (vs.len() as int)], x, y)
}

/// Pixel `(x, y)` lies on an edge of the closed loop `vs`.
pub open spec fn on_outline(vs: Seq<Point>, x: int, y: int) -> bool {
    on_outline_upto(vs, vs.len() as int, x, y)
}

/// The samples `buf` of a grid `w` wide after stroking every edge of `vs` with `c`.
pub open spec fn outline_paint(buf: Seq<Color>, w: int, vs: Seq<Point>, c: Color) -> Seq<Color> {
    Seq::new(buf.len(), |i: int| if on_outline(vs, i % w, i / w) { c } else { buf[i] })
}

fn abs_exec(v: i128) -> (r: i128)
    requires
        v > i128::MIN,
    ensures
        r == abs(v as int),
{
    if v < 0 { -v } else { v }
}

impl Framebuffer {
    /// Writes `current_color` at every step of the line from `start` to
    /// `end` that lies inside the grid.
    pub fn draw_line(&mut self, start: Point, end: Point)
        requires
            old(self).wf(),
        ensures
            final(self).wf(),
            final(self).same_setup(old(self)),
            final(self).color_buffer@ == line_paint(
                old(self).color_buffer@,
                old(self).width as int,
                start,
                end,
                old(self).current_color,
            ),
    {
        let ghost orig = self.color_buffer@;
        let ghost w = self.width as int;
        let ghost h = self.height as int;
        let ghost c = self.current_color;
        let dx: i128 = end.x as i128 - start.x as i128;
        let dy: i128 = end.y as i128 - start.y as i128;
        let adx = abs_exec(dx);
        let ady = abs_exec(dy);
        let n: i128 = if adx >= ady { adx } else { ady };
        let mut t: i128 = 0;
        while t <= n
            invariant
                self.wf(),
                self.same_setup(old(self)),
                w == self.width,
                h == self.height,
                c == self.current_color,
                dx == end.x - start.x,
                dy == end.y - start.y,
                n == line_steps(start, end),
                0 <= n < 0x1_0000_0000,
                0 <= t <= n + 1,
                self.color_buffer@.len() == orig.len(),
                forall|i: int|
                    0 <= i < orig.len() ==> #[trigger] self.color_buffer@[i] == if exists|s: int|
                        0 <= s < t && #[trigger] line_point(start, end, s) == (i % w, i / w) {
                        c
                    } else {
                        orig[i]
                    },
            decreases n + 1 - t,
        {
            let mut px: i128 = start.x as i128;
            let mut py: i128 = start.y as i128;
            if n > 0 {
                proof {
                    assert(-0x1_0000_0000_0000_0000 < t * dx < 0x1_0000_0000_0000_0000) by (nonlinear_arith)
                        requires 0 <= t <= n, n < 0x1_0000_0000, -0x1_0000_0000 < dx < 0x1_0000_0000;
                    assert(-0x1_0000_0000_0000_0000 < t * dy < 0x1_0000_0000_0000_0000) by (nonlinear_arith)
                        requires 0 <= t <= n, n < 0x1_0000_0000, -0x1_0000_0000 < dy < 0x1_0000_0000;
                }
                px = px + floor_div(2 * (t * dx) + n, 2 * n);
                py = py + floor_div(2 * (t * dy) + n, 2 * n);
            }
            assert((px as int, py as int) == line_point(start, end, t as int));
            let ghost prev = self.color_buffer@;
            if 0 <= px && px < self.width as i128 && 0 <= py && py < self.height as i128 {
                self.set_pixel(px as u32, py as u32);
                proof {
                    assert(0 <= py * w + px < w * h) by (nonlinear_arith)
                        requires 0 <= px < w, 0 <= py < h;
                }
            }
            proof {
                assert forall|i: int| 0 <= i < orig.len() implies #[trigger] self.color_buffer@[i] == if exists|s: int|
                    0 <= s < t + 1 && #[trigger] line_point(start, end, s) == (i % w, i / w) {
                    c
                } else {
                    orig[i]
                } by {
                    lemma_row_bound(w, h, i);
                    if 0 <= px < w && 0 <= py < h {
                        lemma_index(w, px as int, py as int, i);
                    }
                    let hit = line_point(start, end, t as int) == (i % w, i / w);
                    if hit {
                        assert(self.color_buffer@[i] == c);
                    } else {
                        assert(self.color_buffer@[i] == prev[i]);
                        if exists|s: int| 0 <= s < t + 1 && #[trigger] line_point(start, end, s) == (i % w, i / w) {
                            let s = choose|s: int| 0 <= s < t + 1 && #[trigger] line_point(start, end, s) == (i % w, i / w);
                            assert(s < t);
                        }
                    }
                }
            }
            t = t + 1;
        }
        proof {
            assert(self.color_buffer@ =~= line_paint(orig, w, start, end, c));
        }
    }

    /// Strokes every edge of the closed loop `vertices`, the last vertex
    /// joined back to the first. Fewer than two vertices are rejected and
    /// leave the grid as it was.
    pub fn draw_polygon(&mut self, vertices: &[Point]) -> (r: Result<(), DrawError>)
        requires
            old(self).wf(),
        ensures
            final(self).wf(),
            final(self).same_setup(old(self)),
            vertices@.len() < 2 ==> r == Err::<(), DrawError>(DrawError::DegeneratePolygon),
            vertices@.len() < 2 ==> final(self).color_buffer@ == old(self).color_buffer@,
            vertices@.len() >= 2 ==> r is Ok,
            vertices@.len() >= 2 ==> final(self).color_buffer@ == outline_paint(
                old(self).color_buffer@,
                old(self).width as int,
                vertices@,
                old(self).current_color,
            ),
    {
        let n = vertices.len();
        if n < 2 {
            return Err(DrawError::DegeneratePolygon);
        }
        let ghost vs = vertices@;
        let ghost orig = self.color_buffer@;
        let ghost w = self.width as int;
        let ghost c = self.current_color;
        let mut k: usize = 0;
        while k < n
            invariant
                self.wf(),
                self.same_setup(old(self)),
                vs == vertices@,
                n == vs.len(),
                n >= 2,
                k <= n,
                w == self.width,
                c == self.current_color,
                self.color_buffer@.len() == orig.len(),
                forall|i: int|
                    0 <= i < orig.len() ==> #[trigger] self.color_buffer@[i] == if on_outline_upto(vs, k as int, i % w, i / w) {
                        c
                    } else {
                        orig[i]
                    },
            decreases n - k,
        {
            let a = vertices[k];
            let b = vertices[(k + 1) % n];
            let ghost prev = self.color_buffer@;
            self.draw_line(a, b);
            proof {
                assert forall|i: int| 0 <= i < orig.len() implies #[trigger] self.color_buffer@[i] == if on_outline_upto(vs, k + 1, i % w, i / w) {
                    c
                } else {
                    orig[i]
                } by {
                    let x = i % w;
                    let y = i / w;
                    assert(self.color_buffer@[i] == if on_line(a, b, x, y) { c } else { prev[i] });
                    if on_line(a, b, x, y) {
                        assert(on_line(vs[k as int], vs[(k + 1) % (vs.len() as int)], x, y));
                    }
                    if on_outline_upto(vs, k + 1, x, y) && !on_line(a, b, x, y) {
                        let e = choose|e: int| 0 <= e < k + 1 && #[trigger] on_line(vs[e], vs[(e + 1) % (vs.len() as int)], x, y);
                        assert(e < k);
                    }
                    if on_outline_upto(vs, k as int, x, y) {
                        let e = choose|e: int| 0 <= e < k && #[trigger] on_line(vs[e], vs[(e + 1) % (vs.len() as int)], x, y);
                        assert(on_line(vs[e], vs[(e + 1) % (vs.len() as int)], x, y));
                    }
                }
            }
            k = k + 1;
        }
        proof {
            assert(self.color_buffer@ =~= outline_paint(orig, w, vs, c));
        }
        Ok(())
    }
}

} // verus!
