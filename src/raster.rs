use vstd::prelude::*;

verus! {

/// An RGBA color, one byte per channel.
#[derive(Clone, Copy, Debug, PartialEq, Eq, Structural)]
pub struct Color {
    pub r: u8,
    pub g: u8,
    pub b: u8,
    pub a: u8,
}

impl Color {
    pub fn rgba(r: u8, g: u8, b: u8, a: u8) -> (c: Color)
        ensures
            c == (Color { r, g, b, a }),
    {
        Color { r, g, b, a }
    }
}

/// Why a raster could not be built or read.
#[derive(Clone, Copy, Debug, PartialEq, Eq, Structural)]
pub enum RasterError {
    /// The pixel buffer does not hold exactly `width * height` entries.
    WrongPixelCount,
    /// A pixel refers to a palette entry that does not exist.
    ColorIndexOutOfRange,
    /// A coordinate or flat offset lies outside the raster.
    OutOfBounds,
}

/// The mathematical value of a raster.
pub struct RasterModel {
    pub width: nat,
    pub height: nat,
    pub palette: Seq<Color>,
    pub pixels: Seq<u8>,
}

/// Every entry of `pixels` names an entry of a palette of `n` colors.
pub open spec fn indices_below(pixels: Seq<u8>, n: nat) -> bool {
    forall|i: int| 0 <= i < pixels.len() ==> (#[trigger] pixels[i]) < n
}

impl RasterModel {
    pub open spec fn wf(self) -> bool {
        &&& self.width <= 255
        &&& self.height <= 255
        &&& self.pixels.len() == self.width * self.height
        &&& indices_below(self.pixels, self.palette.len())
    }

    pub proof fn lemma_area_fits(self)
        requires
            self.wf(),
        ensures
            self.pixels.len() <= 255 * 255,
    {
        assert(self.width * self.height <= 255 * 255) by (nonlinear_arith)
            requires
                self.width <= 255,
                self.height <= 255,
        ;
    }

    /// The flat offset of the pixel at column `x`, row `y`.
    pub open spec fn offset(self, x: int, y: int) -> int {
        x + y * self.width
    }

    pub open spec fn with_pixels(self, pixels: Seq<u8>) -> RasterModel {
        RasterModel { pixels, ..self }
    }

    pub open spec fn with_palette(self, palette: Seq<Color>) -> RasterModel {
        RasterModel { palette, ..self }
    }
}

/// A grid of palette indices together with its palette.
#[derive(Clone, Debug, PartialEq, Eq)]
pub struct Raster {
    width: u8,
    height: u8,
    palette: Vec<Color>,
    pixels: Vec<u8>,
}

impl View for Raster {
    type V = RasterModel;

    closed spec fn view(&self) -> RasterModel {
        RasterModel {
            width: self.width as nat,
            height: self.height as nat,
            palette: self.palette@,
            pixels: self.pixels@,
        }
    }
}

pub fn all_below_slice(pixels: &[u8], n: usize) -> (r: bool)
    ensures
        r == indices_below(pixels@, n as nat),
{
    let mut i: usize = 0;
    while i < pixels.len()
        invariant
            i <= pixels.len(),
            forall|j: int| 0 <= j < i ==> (#[trigger] pixels@[j]) < n,
        decreases pixels.len() - i,
    {
        if pixels[i] as usize >= n {
            return false;
        }
        i += 1;
    }
    true
}

pub fn copy_colors(colors: &[Color]) -> (r: Vec<Color>)
    ensures
        r@ == colors@,
{
    let mut out: Vec<Color> = Vec::new();
    let mut i: usize = 0;
    while i < colors.len()
        invariant
            i <= colors.len(),
            out@ == colors@.take(i as int),
        decreases colors.len() - i,
    {
        out.push(colors[i]);
        i += 1;
        assert(out@ =~= colors@.take(i as int));
    }
    assert(colors@.take(colors@.len() as int) =~= colors@);
    out
}

pub fn copy_bytes(bytes: &[u8]) -> (r: Vec<u8>)
    ensures
        r@ == bytes@,
{
    let mut out: Vec<u8> = Vec::new();
    let mut i: usize = 0;
    while i < bytes.len()
        invariant
            i <= bytes.len(),
            out@ == bytes@.take(i as int),
        decreases bytes.len() - i,
    {
        out.push(bytes[i]);
        i += 1;
        assert(out@ =~= bytes@.take(i as int));
    }
    assert(bytes@.take(bytes@.len() as int) =~= bytes@);
    out
}

/// Whether two palettes hold the same colors in the same order.
pub fn same_colors(a: &[Color], b: &[Color]) -> (r: bool)
    ensures
        r == (a@ == b@),
{
    if a.len() != b.len() {
        return false;
    }
    let mut i: usize = 0;
    while i < a.len()
        invariant
            a.len() == b.len(),
            i <= a.len(),
            forall|j: int| 0 <= j < i ==> a@[j] == b@[j],
        decreases a.len() - i,
    {
        if a[i] != b[i] {
            return false;
        }
        i += 1;
    }
    assert(a@ =~= b@);
    true
}

impl Raster {
    pub open spec fn wf(&self) -> bool {
        self@.wf()
    }

    /// Builds a raster; the buffer must hold `width * height` indices, each
    /// naming an entry of `palette`.
    pub fn new(width: u8, height: u8, palette: Vec<Color>, pixels: Vec<u8>) -> (r: Result<
        Raster,
        RasterError,
    >)
        ensures
            pixels@.len() != width * height ==> r == Err::<Raster, RasterError>(
                RasterError::WrongPixelCount,
            ),
            pixels@.len() == width * height && !indices_below(pixels@, palette@.len())
                ==> r == Err::<Raster, RasterError>(RasterError::ColorIndexOutOfRange),
            pixels@.len() == width * height && indices_below(pixels@, palette@.len())
                ==> r is Ok,
            r matches Ok(img) ==> img@ == (RasterModel {
                width: width as nat,
                height: height as nat,
                palette: palette@,
                pixels: pixels@,
            }) && img.wf(),
    {
        let size = area(width, height);
        if pixels.len() != size {
            return Err(RasterError::WrongPixelCount);
        }
        if !all_below_slice(pixels.as_slice(), palette.len()) {
            return Err(RasterError::ColorIndexOutOfRange);
        }
        Ok(Raster { width, height, palette, pixels })
    }

    /// A raster of `width * height` pixels, all set to palette entry 0.
    pub fn blank(width: u8, height: u8, palette: Vec<Color>) -> (r: Raster)
        requires
            palette@.len() > 0,
        ensures
            r.wf(),
            r@.width == width,
            r@.height == height,
            r@.palette == palette@,
            r@.pixels == Seq::new((width * height) as nat, |i: int| 0u8),
    {
        let size = area(width, height);
        let pixels = zeroes(size);
        Raster { width, height, palette, pixels }
    }

    pub fn width(&self) -> (r: u8)
        ensures
            r == self@.width,
    {
        self.width
    }

    pub fn height(&self) -> (r: u8)
        ensures
            r == self@.height,
    {
        self.height
    }

    pub fn get_palette(&self) -> (r: &[Color])
        ensures
            r@ == self@.palette,
    {
        self.palette.as_slice()
    }

    pub fn get_pixels(&self) -> (r: &[u8])
        ensures
            r@ == self@.pixels,
    {
        self.pixels.as_slice()
    }

    /// The flat offset of column `x`, row `y`, or `OutOfBounds` when the
    /// point lies outside the raster.
    pub fn get_pixel_index(&self, x: u8, y: u8) -> (r: Result<usize, RasterError>)
        ensures
            (x < self@.width && y < self@.height) ==> r == Ok::<usize, RasterError>(
                self@.offset(x as int, y as int) as usize,
            ),
            !(x < self@.width && y < self@.height) ==> r == Err::<usize, RasterError>(
                RasterError::OutOfBounds,
            ),
    {
        if x < self.width && y < self.height {
            Ok(flat_index(x, y, self.width))
        } else {
            Err(RasterError::OutOfBounds)
        }
    }

    /// The palette index stored at flat offset `i`.
    pub fn get_pixel(&self, i: usize) -> (r: Result<u8, RasterError>)
        ensures
            i < self@.pixels.len() ==> r == Ok::<u8, RasterError>(self@.pixels[i as int]),
            i >= self@.pixels.len() ==> r == Err::<u8, RasterError>(RasterError::OutOfBounds),
    {
        if i < self.pixels.len() {
            Ok(self.pixels[i])
        } else {
            Err(RasterError::OutOfBounds)
        }
    }

    /// The palette entry `idx`.
    pub fn get_color(&self, idx: u8) -> (r: Result<Color, RasterError>)
        ensures
            idx < self@.palette.len() ==> r == Ok::<Color, RasterError>(
                self@.palette[idx as int],
            ),
            idx >= self@.palette.len() ==> r == Err::<Color, RasterError>(
                RasterError::ColorIndexOutOfRange,
            ),
    {
        if (idx as usize) < self.palette.len() {
            Ok(self.palette[idx as usize])
        } else {
            Err(RasterError::ColorIndexOutOfRange)
        }
    }

    pub fn duplicate(&self) -> (r: Raster)
        ensures
            r@ == self@,
    {
        Raster {
            width: self.width,
            height: self.height,
            palette: copy_colors(self.palette.as_slice()),
            pixels: copy_bytes(self.pixels.as_slice()),
        }
    }

    pub(crate) fn set_pixel(&mut self, i: usize, color: u8)
        requires
            i < old(self)@.pixels.len(),
        ensures
            final(self)@ == old(self)@.with_pixels(old(self)@.pixels.update(i as int, color)),
    {
        self.pixels.set(i, color);
    }

    pub(crate) fn replace_pixels(&mut self, pixels: Vec<u8>)
        ensures
            final(self)@ == old(self)@.with_pixels(pixels@),
    {
        self.pixels = pixels;
    }

    pub(crate) fn replace_palette(&mut self, palette: Vec<Color>)
        ensures
            final(self)@ == old(self)@.with_palette(palette@),
    {
        self.palette = palette;
    }
}

/// A point inside a `width` by `height` grid has an offset inside its buffer.
pub proof fn lemma_offset_in_range(width: int, height: int, x: int, y: int)
    requires
        0 <= x < width,
        0 <= y < height,
    ensures
        0 <= x + y * width < width * height,
{
    assert(0 <= x + y * width < width * height) by (nonlinear_arith)
        requires
            0 <= x < width,
            0 <= y < height,
    ;
}

/// `width * height`, the number of pixels of a raster.
pub fn area(width: u8, height: u8) -> (r: usize)
    ensures
        r == width * height,
{
    proof {
        assert(width as int * height as int <= 255 * 255) by (nonlinear_arith)
            requires width <= 255, height <= 255;
    }
    width as usize * height as usize
}

/// The flat offset `x + y * width`.
pub fn flat_index(x: u8, y: u8, width: u8) -> (r: usize)
    ensures
        r == x as int + y as int * width as int,
{
    proof {
        assert(y as int * width as int <= 255 * 255) by (nonlinear_arith)
            requires y <= 255, width <= 255;
    }
    x as usize + y as usize * width as usize
}

/// A buffer of `n` zero entries.
pub fn zeroes(n: usize) -> (r: Vec<u8>)
    ensures
        r@ == Seq::new(n as nat, |i: int| 0u8),
{
    let mut v: Vec<u8> = Vec::new();
    let mut i: usize = 0;
    while i < n
        invariant
            i <= n,
            v@ == Seq::new(i as nat, |j: int| 0u8),
        decreases n - i,
    {
        v.push(0);
        i += 1;
        assert(v@ =~= Seq::new(i as nat, |j: int| 0u8));
    }
    v
}

} // verus!
