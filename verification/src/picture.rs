use vstd::prelude::*;

verus! {

/// One pixel of the output format: four channels of eight bits, laid out in
/// memory as red, green, blue, alpha.
#[derive(Debug, Copy, Clone, PartialEq, Eq, Structural)]
pub struct RGBA8 {
    r: u8,
    g: u8,
    b: u8,
    a: u8,
}

impl View for RGBA8 {
    type V = (u8, u8, u8, u8);

    /// The channels as (red, green, blue, alpha).
    closed spec fn view(&self) -> (u8, u8, u8, u8) {
        (self.r, self.g, self.b, self.a)
    }
}

impl Default for RGBA8 {
    /// Transparent black.
    fn default() -> (pixel: RGBA8)
        ensures
            pixel@ == (0u8, 0u8, 0u8, 0u8),
    {
        RGBA8 { r: 0, g: 0, b: 0, a: 0 }
    }
}

impl RGBA8 {
    pub fn new(r: u8, g: u8, b: u8, a: u8) -> (pixel: RGBA8)
        ensures
            pixel@ == (r, g, b, a),
    {
        RGBA8 { r, g, b, a }
    }

    /// Reads a pixel from the number `0xRRGGBBAA`: the channels are its four
    /// base-256 digits, red being the most significant.
    pub fn new_hex(rgba: u32) -> (pixel: RGBA8)
        ensures
            pixel@.0 * 0x100_0000 + pixel@.1 * 0x1_0000 + pixel@.2 * 0x100 + pixel@.3 == rgba,
    {
        let r: u8 = ((rgba & 0xff00_0000) >> 24) as u8;
        let g: u8 = ((rgba & 0x00ff_0000) >> 16) as u8;
        let b: u8 = ((rgba & 0x0000_ff00) >> 8) as u8;
        let a: u8 = (rgba & 0x0000_00ff) as u8;
        assert(r * 0x100_0000 + g * 0x1_0000 + b * 0x100 + a == rgba) by (bit_vector)
            requires
                r == ((rgba & 0xff00_0000) >> 24) as u8,
                g == ((rgba & 0x00ff_0000) >> 16) as u8,
                b == ((rgba & 0x0000_ff00) >> 8) as u8,
                a == (rgba & 0x0000_00ff) as u8,
        ;
        RGBA8 { r, g, b, a }
    }

    /// The channels in memory order: red, green, blue, alpha.
    pub fn channels(&self) -> (channels: (u8, u8, u8, u8))
        ensures
            channels == self@,
    {
        (self.r, self.g, self.b, self.a)
    }
}

/// A pixel is nothing but its channels: two pixels with the same channels are
/// the same pixel.
pub proof fn lemma_pixel_by_channels(a: RGBA8, b: RGBA8)
    requires
        a@ == b@,
    ensures
        a == b,
{
}

/// Position of the pixel in column `x` of row `y` in a row-major buffer whose
/// rows hold `width` pixels.
pub open spec fn flat_index(x: int, y: int, width: int) -> int {
    y * width + x
}

/// A row-major index is never negative and splits into its row part and its
/// column; the row part computed in `usize` cannot overflow while the index
/// stays within a buffer's length.
pub proof fn lemma_flat_index_fits(x: u32, y: u32, width: u32, bound: usize)
    requires
        flat_index(x as int, y as int, width as int) <= bound,
    ensures
        0 <= y * width <= flat_index(x as int, y as int, width as int),
        (y as usize) * (width as usize) == y * width,
{
    assert(0 <= y * width) by (nonlinear_arith);
}

/// A rectangular view onto pixel storage `P`: `size` is (width, height), and
/// the pixels lie row after row, the first row first.
pub struct Picture<P> {
    pixels: P,
    size: (u32, u32),
}

impl<P> Picture<P> {
    /// The storage this picture looks at.
    pub closed spec fn pixels(&self) -> P {
        self.pixels
    }

    /// (width, height), in pixels.
    pub closed spec fn size(&self) -> (u32, u32) {
        self.size
    }

    pub open spec fn spec_width(&self) -> u32 {
        self.size().0
    }

    pub open spec fn spec_height(&self) -> u32 {
        self.size().1
    }

    /// Wraps `pixels` without looking at it: nothing ties its length to
    /// `size`, and every accessor states the bound it needs.
    pub fn new(pixels: P, size: (u32, u32)) -> (picture: Self)
        ensures
            picture.pixels() == pixels,
            picture.size() == size,
    {
        Picture { pixels, size }
    }

    #[verifier::when_used_as_spec(spec_width)]
    pub fn width(&self) -> (width: u32)
        ensures
            width == self.size().0,
    {
        self.size.0
    }

    #[verifier::when_used_as_spec(spec_height)]
    pub fn height(&self) -> (height: u32)
        ensures
            height == self.size().1,
    {
        self.size.1
    }

    fn to_index(&self, x: u32, y: u32) -> (index: usize)
        requires
            flat_index(x as int, y as int, self.width() as int) <= usize::MAX,
        ensures
            index == flat_index(x as int, y as int, self.width() as int),
    {
        proof {
            lemma_flat_index_fits(x, y, self.size.0, usize::MAX);
        }
        y as usize * self.width() as usize + x as usize
    }
}

impl<'a, T> Picture<&'a [T]> {
    /// The pixel in column `x` of row `y`.
    pub fn pixel(&self, x: u32, y: u32) -> (pixel: &T)
        requires
            flat_index(x as int, y as int, self.width() as int) < self.pixels()@.len(),
        ensures
            *pixel == self.pixels()@[flat_index(x as int, y as int, self.width() as int)],
    {
        assert(self.pixels.len() == self.pixels@.len());
        &self.pixels[self.to_index(x, y)]
    }
}

/// Once a picture over borrowed storage is no longer used, neither is the
/// borrow it holds: what the picture shows last is what the storage keeps.
///
/// Every method that writes through a picture says, besides what the pixels
/// become, that the picture goes on holding the same borrow (the clause on
/// `final(final(self).pixels())`); with this lemma that lets a caller read
/// the result back from the storage it lent.
pub proof fn lemma_picture_resolved<T>(picture: Picture<&mut [T]>)
    requires
        has_resolved(picture),
    ensures
        has_resolved(picture.pixels()),
{
}

impl<'a, T> Picture<&'a mut [T]> {
    /// The pixel in column `x` of row `y`, for writing. Only that pixel can
    /// change through the reference.
    pub fn pixel_mut(&mut self, x: u32, y: u32) -> (pixel: &mut T)
        requires
            flat_index(x as int, y as int, old(self).width() as int) < old(self).pixels()@.len(),
        ensures
            *pixel == old(self).pixels()@[flat_index(x as int, y as int, old(self).width() as int)],
            final(self).size() == old(self).size(),
            final(self).pixels()@ == old(self).pixels()@.update(
                flat_index(x as int, y as int, old(self).width() as int),
                *final(pixel),
            ),
            final(final(self).pixels())@ == final(old(self).pixels())@,
    {
        assert(self.pixels.len() == self.pixels@.len());
        let index = self.to_index(x, y);
        &mut self.pixels[index]
    }

    /// The run of `len` pixels that starts in column `x` of row `y` and goes
    /// on in row-major order, for writing. Pixels outside the run keep their
    /// values.
    pub fn slice_mut(&mut self, x: u32, y: u32, len: usize) -> (run: &mut [T])
        requires
            flat_index(x as int, y as int, old(self).width() as int) + len <= old(
                self,
            ).pixels()@.len(),
        ensures
            run@ == old(self).pixels()@.subrange(
                flat_index(x as int, y as int, old(self).width() as int),
                flat_index(x as int, y as int, old(self).width() as int) + len,
            ),
            final(self).size() == old(self).size(),
            final(self).pixels()@ == old(self).pixels()@.subrange(
                0,
                flat_index(x as int, y as int, old(self).width() as int),
            ) + final(run)@ + old(self).pixels()@.subrange(
                flat_index(x as int, y as int, old(self).width() as int) + len,
                old(self).pixels()@.len() as int,
            ),
            final(final(self).pixels())@ == final(old(self).pixels())@,
    {
        assert(self.pixels.len() == self.pixels@.len());
        let from = self.to_index(x, y);
        let (_, tail) = self.pixels.split_at_mut(from);
        let (run, _) = tail.split_at_mut(len);
        run
    }

    /// The whole storage, for writing.
    pub fn buffer_mut(&mut self) -> (buffer: &mut [T])
        ensures
            buffer@ == old(self).pixels()@,
            final(self).size() == old(self).size(),
            final(self).pixels()@ == final(buffer)@,
            final(final(self).pixels())@ == final(old(self).pixels())@,
    {
        self.pixels
    }
}

/// What the test image puts at storage position `i`: in column `x` of row `y`
/// the red channel is `reds[y]`, the green channel `greens[x]`, and blue and
/// alpha are full.
pub open spec fn gradient_at(i: int, width: int, reds: Seq<u8>, greens: Seq<u8>) -> (
    u8,
    u8,
    u8,
    u8,
) {
    (reds[i / width], greens[i % width], 255u8, 255u8)
}

/// `after` is `before` with the test image painted over its first
/// `width * height` pixels; storage past the last row is left alone.
pub open spec fn is_gradient(
    after: Seq<RGBA8>,
    before: Seq<RGBA8>,
    width: int,
    height: int,
    reds: Seq<u8>,
    greens: Seq<u8>,
) -> bool {
    &&& after.len() == before.len()
    &&& forall|i: int|
        0 <= i < width * height && i < after.len() ==> (#[trigger] after[i])@ == gradient_at(
            i,
            width,
            reds,
            greens,
        )
    &&& forall|i: int| width * height <= i < after.len() ==> #[trigger] after[i] == before[i]
}

impl<'a> Picture<&'a mut [RGBA8]> {
    /// Paints the test image: `reds` gives each row its red level and
    /// `greens` each column its green level.
    pub fn fill_gradient(&mut self, reds: &[u8], greens: &[u8])
        requires
            reds@.len() == old(self).height(),
            greens@.len() == old(self).width(),
            old(self).width() * old(self).height() <= old(self).pixels()@.len(),
        ensures
            final(self).size() == old(self).size(),
            is_gradient(
                final(self).pixels()@,
                old(self).pixels()@,
                old(self).width() as int,
                old(self).height() as int,
                reds@,
                greens@,
            ),
            final(final(self).pixels())@ == final(old(self).pixels())@,
    {
        let (width, height) = self.size;
        let ghost before = self.pixels@;
        let ghost w = width as int;
        let mut y: u32 = 0;
        while y < height
            invariant
                y <= height,
                self.size == (width, height),
                w == width,
                reds@.len() == height,
                greens@.len() == width,
                w * height <= before.len(),
                self.pixels@.len() == before.len(),
                forall|i: int|
                    0 <= i < w * y ==> (#[trigger] self.pixels@[i])@ == gradient_at(
                        i,
                        w,
                        reds@,
                        greens@,
                    ),
                forall|i: int| w * y <= i < before.len() ==> #[trigger] self.pixels@[i] == before[i],
                final(self.pixels)@ == final(old(self).pixels)@,
            decreases height - y,
        {
            let red = reds[y as usize];
            let mut x: u32 = 0;
            while x < width
                invariant
                    x <= width,
                    y < height,
                    self.size == (width, height),
                    w == width,
                    red == reds@[y as int],
                    greens@.len() == width,
                    w * height <= before.len(),
                    self.pixels@.len() == before.len(),
                    forall|i: int|
                        0 <= i < w * y + x ==> (#[trigger] self.pixels@[i])@ == gradient_at(
                            i,
                            w,
                            reds@,
                            greens@,
                        ),
                    forall|i: int|
                        w * y + x <= i < before.len() ==> #[trigger] self.pixels@[i] == before[i],
                    final(self.pixels)@ == final(old(self).pixels)@,
                decreases width - x,
            {
                proof {
                    lemma_row_major_position(x as int, y as int, w, height as int);
                }
                let pixel = self.pixel_mut(x, y);
                *pixel = RGBA8::new(red, greens[x as usize], 255, 255);
                x += 1;
            }
            proof {
                assert(w * y + w == w * (y + 1)) by (nonlinear_arith);
            }
            y += 1;
        }
    }

    /// Sets every pixel of the storage to `color`.
    pub fn clear(&mut self, color: RGBA8)
        ensures
            final(self).size() == old(self).size(),
            final(self).pixels()@ == Seq::new(old(self).pixels()@.len(), |i: int| color),
            final(final(self).pixels())@ == final(old(self).pixels())@,
    {
        let n = self.pixels.len();
        let mut i: usize = 0;
        while i < n
            invariant
                i <= n,
                n == self.pixels@.len(),
                n == old(self).pixels@.len(),
                self.size == old(self).size,
                forall|j: int| 0 <= j < i ==> self.pixels@[j] == color,
                final(self.pixels)@ == final(old(self).pixels)@,
            decreases n - i,
        {
            self.pixels[i] = color;
            i += 1;
        }
    }
}

/// Inside a `width` by `height` image, the row-major index of column `x` in
/// row `y` lies within the image, and row and column are read back from it by
/// division and remainder.
pub proof fn lemma_row_major_position(x: int, y: int, width: int, height: int)
    requires
        0 <= x < width,
        0 <= y < height,
    ensures
        0 <= flat_index(x, y, width) < width * height,
        flat_index(x, y, width) == width * y + x,
        flat_index(x, y, width) / width == y,
        flat_index(x, y, width) % width == x,
{
    assert(y * width == width * y) by (nonlinear_arith);
    assert(0 <= width * y) by (nonlinear_arith)
        requires
            0 <= y,
            0 < width,
    ;
    assert(width * y + width <= width * height) by (nonlinear_arith)
        requires
            y + 1 <= height,
            0 < width,
    ;
    vstd::arithmetic::div_mod::lemma_fundamental_div_mod_converse(width * y + x, width, y, x);
}

} // verus!
