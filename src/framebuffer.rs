use vstd::prelude::*;

verus! {

/// An RGBA color, eight bits per channel.
#[derive(Clone, Copy, PartialEq, Eq, Structural, Debug)]
pub struct Color {
    pub r: u8,
    pub g: u8,
    pub b: u8,
    pub a: u8,
}

impl Color {
    pub fn new(r: u8, g: u8, b: u8, a: u8) -> (c: Color)
        ensures
            c == (Color { r, g, b, a }),
    {
        Color { r, g, b, a }
    }

    pub fn white() -> (c: Color)
        ensures
            c == (Color { r: 255, g: 255, b: 255, a: 255 }),
    {
        Color { r: 255, g: 255, b: 255, a: 255 }
    }

    pub fn black() -> (c: Color)
        ensures
            c == (Color { r: 0, g: 0, b: 0, a: 255 }),
    {
        Color { r: 0, g: 0, b: 0, a: 255 }
    }
}

/// Why a framebuffer could not be made or a drawing call was rejected.
#[derive(Clone, Copy, PartialEq, Eq, Structural, Debug)]
pub enum DrawError {
    /// A width or a height of zero.
    InvalidDimensions,
    /// Too few vertices for the operation.
    DegeneratePolygon,
}

/// A `width` by `height` grid of colors, stored row by row from the top-left
/// corner, with the color that `clear` restores and the color of the next write.
pub struct Framebuffer {
    pub width: u32,
    pub height: u32,
    pub color_buffer: Vec<Color>,
    pub background_color: Color,
    pub current_color: Color,
}

/// The buffer `buf` of a grid `w` wide after writing `c` at pixel `(x, y)`;
/// a pixel outside the grid leaves it unchanged.
pub open spec fn paint_pixel(buf: Seq<Color>, w: int, h: int, x: int, y: int, c: Color) -> Seq<Color> {
    if 0 <= x < w && 0 <= y < h {
        buf.update(y * w + x, c)
    } else {
        buf
    }
}

impl Framebuffer {
    /// The grid holds exactly `width * height` samples.
    pub open spec fn wf(&self) -> bool {
        &&& self.width > 0
        &&& self.height > 0
        &&& self.width * self.height <= usize::MAX
        &&& self.color_buffer@.len() == self.width * self.height
    }

    /// The sample at column `x` of row `y`.
    pub open spec fn pixel(&self, x: int, y: int) -> Color {
        self.color_buffer@[y * self.width + x]
    }

    /// Everything but the samples is as in `other`.
    pub open spec fn same_setup(&self, other: &Framebuffer) -> bool {
        &&& self.width == other.width
        &&& self.height == other.height
        &&& self.background_color == other.background_color
        &&& self.current_color == other.current_color
    }

    /// A grid of the given size filled with `background_color`, drawing in white.
    pub fn new(width: u32, height: u32, background_color: Color) -> (r: Result<Framebuffer, DrawError>)
        requires
            width * height <= usize::MAX,
        ensures
            (width == 0 || height == 0) <==> r is Err,
            r is Err ==> r == Err::<Framebuffer, DrawError>(DrawError::InvalidDimensions),
            r matches Ok(fb) ==> {
                &&& fb.wf()
                &&& fb.width == width
                &&& fb.height == height
                &&& fb.background_color == background_color
                &&& fb.current_color == (Color { r: 255, g: 255, b: 255, a: 255 })
                &&& forall|i: int| 0 <= i < fb.color_buffer@.len() ==> fb.color_buffer@[i] == background_color
            },
    {
        if width == 0 || height == 0 {
            return Err(DrawError::InvalidDimensions);
        }
        let n: usize = (width as usize) * (height as usize);
        let mut color_buffer: Vec<Color> = Vec::with_capacity(n);
        let mut i: usize = 0;
        while i < n
            invariant
                i <= n,
                color_buffer@.len() == i,
                forall|j: int| 0 <= j < i ==> color_buffer@[j] == background_color,
            decreases n - i,
        {
            color_buffer.push(background_color);
            i = i + 1;
        }
        Ok(Framebuffer { width, height, color_buffer, background_color, current_color: Color::white() })
    }

    /// Sets every sample to `background_color`.
    pub fn clear(&mut self)
        requires
            old(self).wf(),
        ensures
            final(self).wf(),
            final(self).same_setup(old(self)),
            final(self).color_buffer@.len() == old(self).color_buffer@.len(),
            forall|x: int, y: int|
                0 <= x < final(self).width && 0 <= y < final(self).height
                    ==> #[trigger] final(self).pixel(x, y) == final(self).background_color,
    {
        let n: usize = self.color_buffer.len();
        let bg = self.background_color;
        let mut i: usize = 0;
        while i < n
            invariant
                i <= n,
                n == self.color_buffer@.len(),
                self.wf(),
                self.same_setup(old(self)),
                bg == self.background_color,
                forall|j: int| 0 <= j < i ==> self.color_buffer@[j] == bg,
            decreases n - i,
        {
            self.color_buffer.set(i, bg);
            i = i + 1;
        }
        assert forall|x: int, y: int|
            0 <= x < self.width && 0 <= y < self.height implies #[trigger] self.pixel(x, y) == self.background_color by {
            let w = self.width as int;
            assert(0 <= y * w + x < w * self.height) by (nonlinear_arith)
                requires 0 <= x < w, 0 <= y < self.height;
        }
    }

    /// Writes `current_color` at `(x, y)` when it lies inside the grid; does
    /// nothing otherwise.
    pub fn set_pixel(&mut self, x: u32, y: u32)
        requires
            old(self).wf(),
        ensures
            final(self).wf(),
            final(self).same_setup(old(self)),
            final(self).color_buffer@ == paint_pixel(
                old(self).color_buffer@,
                old(self).width as int,
                old(self).height as int,
                x as int,
                y as int,
                old(self).current_color,
            ),
    {
        if x < self.width && y < self.height {
            proof {
                let w = self.width as int;
                assert(0 <= y * w + x < w * self.height) by (nonlinear_arith)
                    requires 0 <= x < w, 0 <= y < self.height;
            }
            let i: usize = (y as usize) * (self.width as usize) + (x as usize);
            let c = self.current_color;
            self.color_buffer.set(i, c);
        }
    }

    /// Sets the color of the writes that follow.
    pub fn set_current_color(&mut self, color: Color)
        ensures
            final(self).current_color == color,
            final(self).width == old(self).width,
            final(self).height == old(self).height,
            final(self).background_color == old(self).background_color,
            final(self).color_buffer@ == old(self).color_buffer@,
    {
        self.current_color = color;
    }

    /// The sample at `(x, y)`, or `None` outside the grid.
    pub fn get_pixel(&self, x: u32, y: u32) -> (r: Option<Color>)
        requires
            self.wf(),
        ensures
            (x < self.width && y < self.height) ==> r == Some(self.pixel(x as int, y as int)),
            !(x < self.width && y < self.height) ==> r is None,
    {
        if x < self.width && y < self.height {
            proof {
                let w = self.width as int;
                assert(0 <= y * w + x < w * self.height) by (nonlinear_arith)
                    requires 0 <= x < w, 0 <= y < self.height;
            }
            Some(self.color_buffer[(y as usize) * (self.width as usize) + (x as usize)])
        } else {
            None
        }
    }
}

} // verus!
