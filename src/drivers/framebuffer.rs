use vstd::prelude::*;

verus! {

/// Packs three channels as `0RGB`.
pub open spec fn rgb_value(r: int, g: int, b: int) -> int {
    r * 65536 + g * 256 + b
}

/// One channel of `fg` laid over `bg` with opacity `alpha` out of 255.
pub open spec fn blend(fg: int, bg: int, alpha: int) -> int {
    (fg * alpha + (255 - alpha) * bg) / 255
}

/// A color in `0RGB` layout.
#[derive(PartialEq, Eq, Structural, Clone, Copy, Debug)]
pub struct RGB(pub u32);

impl RGB {
    pub fn new(r: u8, g: u8, b: u8) -> (c: Self)
        ensures
            c.0 == rgb_value(r as int, g as int, b as int),
    {
        let v = (r as u32) << 16 | (g as u32) << 8 | b as u32;
        assert(((r as u32) << 16 | (g as u32) << 8 | b as u32) == (r as u32) * 65536 + (g as u32)
            * 256 + (b as u32)) by (bit_vector)
            requires
                r <= 255 && g <= 255 && b <= 255,
        ;
        RGB(v)
    }

    pub fn from_hex(hex: u32) -> (c: Self)
        requires
            hex <= 0xFFFFFF,
        ensures
            c.0 == hex,
    {
        RGB(hex)
    }

    pub fn red(&self) -> (r: u8)
        ensures
            r == (self.0 / 65536) % 256,
    {
        let v = self.0;
        assert((v >> 16 & 0xFF) == (v / 65536) % 256) by (bit_vector);
        (v >> 16 & 0xFF) as u8
    }

    pub fn green(&self) -> (r: u8)
        ensures
            r == (self.0 / 256) % 256,
    {
        let v = self.0;
        assert(((v >> 8) & 0xFF) == (v / 256) % 256) by (bit_vector);
        ((v >> 8) & 0xFF) as u8
    }

    pub fn blue(&self) -> (r: u8)
        ensures
            r == self.0 % 256,
    {
        let v = self.0;
        assert((v & 0xFF) == v % 256) by (bit_vector);
        (v & 0xFF) as u8
    }

    /// `fg` laid over `bg`, channel by channel, with opacity `alpha`.
    pub fn alpha_blend(fg: RGB, bg: RGB, alpha: u8) -> (c: RGB)
        ensures
            c.0 == rgb_value(
                blend(((fg.0 / 65536) % 256) as int, ((bg.0 / 65536) % 256) as int, alpha as int),
                blend(((fg.0 / 256) % 256) as int, ((bg.0 / 256) % 256) as int, alpha as int),
                blend((fg.0 % 256) as int, (bg.0 % 256) as int, alpha as int),
            ),
    {
        let red = Self::blend_channel(fg.red(), bg.red(), alpha);
        let green = Self::blend_channel(fg.green(), bg.green(), alpha);
        let blue = Self::blend_channel(fg.blue(), bg.blue(), alpha);
        RGB::new(red, green, blue)
    }

    fn blend_channel(f: u8, b: u8, alpha: u8) -> (r: u8)
        ensures
            r == blend(f as int, b as int, alpha as int),
    {
        let a = alpha as u64;
        proof {
            assert(f as u64 * a + (255 - a) * b as u64 <= 255 * 255) by (nonlinear_arith)
                requires
                    f <= 255,
                    b <= 255,
                    a <= 255,
            ;
        }
        let v = (f as u64 * a + (255 - a) * b as u64) / 255;
        v as u8
    }

    /// The packed `0RGB` value.
    pub fn value(&self) -> (r: u32)
        ensures
            r == self.0,
    {
        self.0
    }
}

impl From<RGB> for u32 {
    fn from(value: RGB) -> (r: u32) {
        value.0
    }
}

impl vstd::std_specs::convert::FromSpecImpl<RGB> for u32 {
    open spec fn obeys_from_spec() -> bool {
        true
    }

    open spec fn from_spec(v: RGB) -> u32 {
        v.0
    }
}

impl From<u32> for RGB {
    fn from(value: u32) -> (r: RGB) {
        RGB(value)
    }
}

impl vstd::std_specs::convert::FromSpecImpl<u32> for RGB {
    open spec fn obeys_from_spec() -> bool {
        true
    }

    open spec fn from_spec(v: u32) -> RGB {
        RGB(v)
    }
}

/// What the bootloader reports of a framebuffer, as plain values.
#[derive(PartialEq, Eq, Structural, Clone, Copy, Debug)]
pub struct FramebufferDescription {
    pub width: u64,
    pub height: u64,
    pub pitch: u64,
    pub bpp: u16,
    pub rgb_memory_model: bool,
    pub red_mask_size: u8,
    pub red_mask_shift: u8,
    pub green_mask_size: u8,
    pub green_mask_shift: u8,
    pub blue_mask_size: u8,
    pub blue_mask_shift: u8,
}

/// Geometry of a 32-bit `0RGB` framebuffer, in pixels.
#[derive(PartialEq, Eq, Structural, Clone, Copy, Debug)]
pub struct FramebufferInfo {
    pub pitch: usize,
    pub width: usize,
    pub height: usize,
}

/// Whether the framebuffer `d` stores pixels as 4-byte `0RGB` words with whole-pixel padding.
pub open spec fn supported(d: FramebufferDescription) -> bool {
    let bytes = (d.bpp + 7) / 8;
    &&& d.rgb_memory_model
    &&& bytes == 4
    &&& d.red_mask_size == 8 && d.green_mask_size == 8 && d.blue_mask_size == 8
    &&& d.red_mask_shift == 16 && d.green_mask_shift == 8 && d.blue_mask_shift == 0
    &&& d.pitch % 4 == 0
}

impl FramebufferInfo {
    /// The geometry of `buffer` when its pixel layout is supported.
    pub fn from(buffer: FramebufferDescription) -> (r: Option<Self>)
        requires
            buffer.pitch <= usize::MAX,
            buffer.width <= usize::MAX,
            buffer.height <= usize::MAX,
        ensures
            !supported(buffer) ==> r is None,
            supported(buffer) ==> r == Some(
                FramebufferInfo {
                    pitch: (buffer.pitch / 4) as usize,
                    width: buffer.width as usize,
                    height: buffer.height as usize,
                },
            ),
    {
        let bits = crate::memory::align_up(buffer.bpp as usize, 8);
        let bytes_per_pixel = bits / 8;
        proof {
            let b = buffer.bpp as int;
            assert(bytes_per_pixel == (b + 7) / 8) by (nonlinear_arith)
                requires
                    bits % 8 == 0,
                    b <= bits < b + 8,
                    bytes_per_pixel == bits / 8,
            ;
        }
        if !buffer.rgb_memory_model || bytes_per_pixel != 4 {
            return None;
        }
        let masks = [buffer.red_mask_size, buffer.green_mask_size, buffer.blue_mask_size];
        let mut i: usize = 0;
        while i < 3
            invariant
                i <= 3,
                masks@ == seq![buffer.red_mask_size, buffer.green_mask_size, buffer.blue_mask_size],
                forall|j: int| 0 <= j < i ==> masks@[j] == 8,
            decreases 3 - i,
        {
            if masks[i] != 8 {
                return None;
            }
            i = i + 1;
        }
        if buffer.red_mask_shift != 16 || buffer.green_mask_shift != 8 || buffer.blue_mask_shift
            != 0 {
            return None;
        }
        if buffer.pitch % (bytes_per_pixel as u64) != 0 {
            return None;
        }
        Some(
            FramebufferInfo {
                pitch: buffer.pitch as usize / bytes_per_pixel,
                width: buffer.width as usize,
                height: buffer.height as usize,
            },
        )
    }
}

/// Whether `(x, y)` is a visible pixel of a framebuffer of geometry `g`.
pub open spec fn on_screen(g: FramebufferInfo, x: int, y: int) -> bool {
    0 <= x < g.width && 0 <= y < g.height
}

/// A framebuffer as a grid of `0RGB` words, `pitch` words per row.
pub struct Framebuffer {
    info: FramebufferInfo,
    buffer: Vec<u32>,
}

impl Framebuffer {
    pub closed spec fn geometry(&self) -> FramebufferInfo {
        self.info
    }

    pub closed spec fn pixels(&self) -> Seq<u32> {
        self.buffer@
    }

    pub open spec fn wf(&self) -> bool {
        &&& self.pixels().len() == self.geometry().pitch * self.geometry().height
        &&& self.geometry().width <= self.geometry().pitch
    }

    /// The pixel in column `x` of row `y`.
    pub open spec fn pixel(&self, x: int, y: int) -> u32 {
        self.pixels()[x + y * self.geometry().pitch]
    }


    proof fn lemma_index(&self, x1: int, y1: int, x2: int, y2: int)
        requires
            self.wf(),
            on_screen(self.geometry(), x1, y1),
            on_screen(self.geometry(), x2, y2),
        ensures
            0 <= x1 + y1 * self.geometry().pitch < self.pixels().len(),
            (x1 + y1 * self.geometry().pitch == x2 + y2 * self.geometry().pitch) ==> x1 == x2 && y1 == y2,
    {
        let p = self.geometry().pitch as int;
        let h = self.geometry().height as int;
        assert(0 <= x1 + y1 * p < p * h) by (nonlinear_arith)
            requires
                0 <= x1 < p,
                0 <= y1 < h,
        ;
        if x1 + y1 * p == x2 + y2 * p {
            assert(x1 == x2 && y1 == y2) by (nonlinear_arith)
                requires
                    0 <= x1 < p,
                    0 <= x2 < p,
                    0 <= y1,
                    0 <= y2,
                    x1 + y1 * p == x2 + y2 * p,
            ;
        }
    }

    /// A framebuffer of the given geometry, all black.
    pub fn new(info: FramebufferInfo) -> (r: Self)
        requires
            info.pitch * info.height <= usize::MAX,
            info.width <= info.pitch,
        ensures
            r.wf(),
            r.geometry() == info,
            forall|i: int| 0 <= i < r.pixels().len() ==> r.pixels()[i] == 0,
    {
        let len = info.pitch * info.height;
        let mut buffer: Vec<u32> = Vec::new();
        while buffer.len() < len
            invariant
                buffer@.len() <= len,
                forall|i: int| 0 <= i < buffer@.len() ==> buffer@[i] == 0,
            decreases len - buffer@.len(),
        {
            buffer.push(0);
        }
        Framebuffer { info, buffer }
    }

    pub fn set_pixel_value(&mut self, x: usize, y: usize, color: RGB)
        requires
            old(self).wf(),
            x + y * old(self).geometry().pitch < old(self).pixels().len(),
        ensures
            final(self).wf(),
            final(self).geometry() == old(self).geometry(),
            final(self).pixels() == old(self).pixels().update(
                x + y * old(self).geometry().pitch,
                color.0,
            ),
            on_screen(old(self).geometry(), x as int, y as int) ==> forall|a: int, b: int|
                #[trigger] on_screen(old(self).geometry(), a, b) ==> final(self).pixel(a, b) == if a == x && b == y {
                    color.0
                } else {
                    old(self).pixel(a, b)
                },
    {
        let len = self.buffer.len();
        let pitch = self.info.pitch;
        assert(x + y * pitch < len);
        assert(y * pitch <= x + y * pitch);
        let idx = x + y * pitch;
        self.buffer.set(idx, color.0);
        proof {
            if on_screen(old(self).geometry(), x as int, y as int) {
                assert forall|a: int, b: int| #[trigger] on_screen(old(self).geometry(), a, b) implies self.pixel(a, b)
                    == if a == x && b == y {
                    color.0
                } else {
                    old(self).pixel(a, b)
                } by {
                    old(self).lemma_index(a, b, x as int, y as int);
                }
            }
        }
    }

    /// Sets the visible pixels of rows `[y0, y0 + n)` to `color`.
    pub fn fill_rows(&mut self, y0: usize, n: usize, color: RGB)
        requires
            old(self).wf(),
        ensures
            final(self).wf(),
            final(self).geometry() == old(self).geometry(),
            forall|a: int, b: int|
                #[trigger] on_screen(old(self).geometry(), a, b) ==> final(self).pixel(a, b) == if y0 <= b < y0 + n {
                    color.0
                } else {
                    old(self).pixel(a, b)
                },
    {
        let height = self.info.height;
        let width = self.info.width;
        let end = if n > height || y0 > height - n {
            height
        } else {
            y0 + n
        };
        let mut y = y0;
        while y < end
            invariant
                self.wf(),
                self.geometry() == old(self).geometry(),
                y0 <= y,
                y == y0 || y <= end,
                end <= self.geometry().height,
                width == self.geometry().width,
                end == self.geometry().height || end == y0 + n,
                forall|a: int, b: int|
                    #[trigger] on_screen(old(self).geometry(), a, b) ==> self.pixel(a, b) == if y0 <= b < y {
                        color.0
                    } else {
                        old(self).pixel(a, b)
                    },
            decreases end - y,
        {
            let mut x: usize = 0;
            while x < width
                invariant
                    self.wf(),
                    self.geometry() == old(self).geometry(),
                    y0 <= y < end <= self.geometry().height,
                    x <= width == self.geometry().width,
                    forall|a: int, b: int|
                        #[trigger] on_screen(old(self).geometry(), a, b) ==> self.pixel(a, b) == if y0 <= b < y || (b
                            == y && a < x) {
                            color.0
                        } else {
                            old(self).pixel(a, b)
                        },
                decreases width - x,
            {
                proof {
                    self.lemma_index(x as int, y as int, x as int, y as int);
                }
                self.set_pixel_value(x, y, color);
                x = x + 1;
            }
            y = y + 1;
        }
    }

    /// Moves the visible rows `[dst + shift, end)` up by `shift` rows, to `[dst, end - shift)`.
    pub fn copy_rows_up(&mut self, dst: usize, shift: usize, end: usize)
        requires
            old(self).wf(),
            dst + shift <= end <= old(self).geometry().height,
        ensures
            final(self).wf(),
            final(self).geometry() == old(self).geometry(),
            forall|a: int, b: int|
                #[trigger] on_screen(old(self).geometry(), a, b) ==> final(self).pixel(a, b) == if dst <= b
                    < end - shift {
                    old(self).pixel(a, b + shift)
                } else {
                    old(self).pixel(a, b)
                },
    {
        let width = self.info.width;
        let mut y = dst;
        while y < end - shift
            invariant
                self.wf(),
                self.geometry() == old(self).geometry(),
                dst <= y <= end - shift,
                dst + shift <= end <= self.geometry().height,
                width == self.geometry().width,
                forall|a: int, b: int|
                    #[trigger] on_screen(old(self).geometry(), a, b) ==> self.pixel(a, b) == if dst <= b < y {
                        old(self).pixel(a, b + shift)
                    } else {
                        old(self).pixel(a, b)
                    },
            decreases end - shift - y,
        {
            let mut x: usize = 0;
            while x < width
                invariant
                    self.wf(),
                    self.geometry() == old(self).geometry(),
                    dst <= y < end - shift,
                    dst + shift <= end <= self.geometry().height,
                    x <= width == self.geometry().width,
                    forall|a: int, b: int|
                        #[trigger] on_screen(old(self).geometry(), a, b) ==> self.pixel(a, b) == if dst <= b
                            < y || (b == y && a < x) {
                            old(self).pixel(a, b + shift)
                        } else {
                            old(self).pixel(a, b)
                        },
                decreases width - x,
            {
                proof {
                    self.lemma_index(x as int, (y + shift) as int, x as int, (y + shift) as int);
                    assert(on_screen(old(self).geometry(), x as int, (y + shift) as int));
                }
                let len = self.buffer.len();
                let pitch = self.info.pitch;
                let row = y + shift;
                assert(x + row * pitch < len);
                assert(row * pitch <= x + row * pitch);
                let v = self.buffer[x + row * pitch];
                proof {
                    self.lemma_index(x as int, y as int, x as int, y as int);
                }
                self.set_pixel_value(x, y, RGB(v));
                x = x + 1;
            }
            y = y + 1;
        }
    }

    /// Copies `rows` with its top-left corner at `(x0, y0)`, clipped to the screen.
    pub fn draw_pixels(&mut self, x0: usize, y0: usize, rows: &Vec<Vec<RGB>>)
        requires
            old(self).wf(),
        ensures
            final(self).wf(),
            final(self).geometry() == old(self).geometry(),
            forall|a: int, b: int|
                #[trigger] on_screen(old(self).geometry(), a, b) ==> final(self).pixel(a, b) == if y0 <= b < y0
                    + rows@.len() && x0 <= a < x0 + rows@[b - y0]@.len() {
                    rows@[b - y0]@[a - x0].0
                } else {
                    old(self).pixel(a, b)
                },
    {
        let height = self.info.height;
        let width = self.info.width;
        let mut i: usize = 0;
        while i < rows.len()
            invariant
                self.wf(),
                self.geometry() == old(self).geometry(),
                i <= rows@.len(),
                height == self.geometry().height,
                width == self.geometry().width,
                forall|a: int, b: int|
                    #[trigger] on_screen(old(self).geometry(), a, b) ==> self.pixel(a, b) == if y0 <= b < y0 + i && x0
                        <= a < x0 + rows@[b - y0]@.len() {
                        rows@[b - y0]@[a - x0].0
                    } else {
                        old(self).pixel(a, b)
                    },
            decreases rows@.len() - i,
        {
            let row = &rows[i];
            if y0 < height && i < height - y0 {
                let y = y0 + i;
                let mut j: usize = 0;
                while j < row.len()
                    invariant
                        self.wf(),
                        self.geometry() == old(self).geometry(),
                        i < rows@.len(),
                        row@ == rows@[i as int]@,
                        j <= row@.len(),
                        y == y0 + i,
                        y < height == self.geometry().height,
                        width == self.geometry().width,
                        forall|a: int, b: int|
                            #[trigger] on_screen(old(self).geometry(), a, b) ==> self.pixel(a, b) == if (y0 <= b < y0 + i
                                && x0 <= a < x0 + rows@[b - y0]@.len()) || (b == y && x0 <= a < x0 + j) {
                                rows@[b - y0]@[a - x0].0
                            } else {
                                old(self).pixel(a, b)
                            },
                    decreases row@.len() - j,
                {
                    if x0 < width && j < width - x0 {
                        proof {
                            self.lemma_index((x0 + j) as int, y as int, (x0 + j) as int, y as int);
                        }
                        self.set_pixel_value(x0 + j, y, row[j]);
                    }
                    j = j + 1;
                }
            }
            i = i + 1;
        }
    }

    pub fn fill(&mut self, color: RGB)
        requires
            old(self).wf(),
        ensures
            final(self).wf(),
            final(self).geometry() == old(self).geometry(),
            final(self).pixels().len() == old(self).pixels().len(),
            forall|i: int| 0 <= i < final(self).pixels().len() ==> final(self).pixels()[i] == color.0,
            forall|a: int, b: int| #[trigger] on_screen(old(self).geometry(), a, b) ==> final(self).pixel(a, b) == color.0,
    {
        let mut i: usize = 0;
        while i < self.buffer.len()
            invariant
                self.wf(),
                self.geometry() == old(self).geometry(),
                self.pixels().len() == old(self).pixels().len(),
                forall|j: int| 0 <= j < i ==> self.pixels()[j] == color.0,
            decreases self.pixels().len() - i,
        {
            self.buffer.set(i, color.0);
            i = i + 1;
        }
        proof {
            assert forall|a: int, b: int| #[trigger] on_screen(old(self).geometry(), a, b) implies self.pixel(a, b)
                == color.0 by {
                self.lemma_index(a, b, a, b);
            }
        }
    }

    pub fn update_from_slice(&mut self, slice: &[u32])
        requires
            old(self).wf(),
            slice@.len() == old(self).pixels().len(),
        ensures
            final(self).wf(),
            final(self).geometry() == old(self).geometry(),
            final(self).pixels() == slice@,
    {
        self.update_range_from_slice(0, slice.len(), slice);
        assert(self.pixels() =~= slice@);
    }

    pub fn update_range_from_slice(&mut self, start: usize, end: usize, slice: &[u32])
        requires
            old(self).wf(),
            start <= end <= old(self).pixels().len(),
            slice@.len() == end - start,
        ensures
            final(self).wf(),
            final(self).geometry() == old(self).geometry(),
            final(self).pixels().len() == old(self).pixels().len(),
            forall|i: int|
                0 <= i < final(self).pixels().len() ==> final(self).pixels()[i] == if start <= i < end {
                    slice@[i - start]
                } else {
                    old(self).pixels()[i]
                },
    {
        let mut i: usize = start;
        while i < end
            invariant
                self.wf(),
                start <= i <= end <= self.pixels().len(),
                slice@.len() == end - start,
                self.geometry() == old(self).geometry(),
                self.pixels().len() == old(self).pixels().len(),
                forall|j: int|
                    0 <= j < self.pixels().len() ==> self.pixels()[j] == if start <= j < i {
                        slice@[j - start]
                    } else {
                        old(self).pixels()[j]
                    },
            decreases end - i,
        {
            self.buffer.set(i, slice[i - start]);
            i = i + 1;
        }
    }

    pub fn width(&self) -> (r: usize)
        ensures
            r == self.geometry().width,
    {
        self.info.width
    }

    pub fn height(&self) -> (r: usize)
        ensures
            r == self.geometry().height,
    {
        self.info.height
    }

    pub fn pitch(&self) -> (r: usize)
        ensures
            r == self.geometry().pitch,
    {
        self.info.pitch
    }

    pub fn buffer_len(&self) -> (r: usize)
        requires
            self.wf(),
        ensures
            r == self.geometry().height * self.geometry().pitch,
    {
        assert(self.geometry().height * self.geometry().pitch == self.geometry().pitch
            * self.geometry().height) by (nonlinear_arith);
        self.buffer.len()
    }

    /// The pixels, row after row.
    pub fn pixels_slice(&self) -> (r: &[u32])
        ensures
            r@ == self.pixels(),
    {
        self.buffer.as_slice()
    }
}

} // verus!
