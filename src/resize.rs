use crate::raster::{Raster, RasterError, RasterModel, copy_colors};
use vstd::prelude::*;

verus! {

/// Which corner of the raster stays put when it is resized.
#[derive(Clone, Copy, Debug, PartialEq, Eq, Structural)]
pub enum ResizeAnchor {
    /// Rows and columns are taken or given alternately at both sides.
    Center,
    TopLeft,
    TopRight,
    BottomLeft,
    BottomRight,
}

impl ResizeAnchor {
    pub open spec fn left(self) -> bool {
        self == ResizeAnchor::TopLeft || self == ResizeAnchor::BottomLeft
    }

    pub open spec fn right(self) -> bool {
        self == ResizeAnchor::TopRight || self == ResizeAnchor::BottomRight
    }

    pub open spec fn top(self) -> bool {
        self == ResizeAnchor::TopLeft || self == ResizeAnchor::TopRight
    }

    pub open spec fn bottom(self) -> bool {
        self == ResizeAnchor::BottomLeft || self == ResizeAnchor::BottomRight
    }

    pub fn is_left(&self) -> (r: bool)
        ensures
            r == self.left(),
    {
        matches!(self, ResizeAnchor::TopLeft | ResizeAnchor::BottomLeft)
    }

    pub fn is_right(&self) -> (r: bool)
        ensures
            r == self.right(),
    {
        matches!(self, ResizeAnchor::TopRight | ResizeAnchor::BottomRight)
    }

    pub fn is_top(&self) -> (r: bool)
        ensures
            r == self.top(),
    {
        matches!(self, ResizeAnchor::TopLeft | ResizeAnchor::TopRight)
    }

    pub fn is_bottom(&self) -> (r: bool)
        ensures
            r == self.bottom(),
    {
        matches!(self, ResizeAnchor::BottomLeft | ResizeAnchor::BottomRight)
    }
}

/// `out`, a `nw` by `nh` raster, shows `input`, a `w` by `h` raster, moved so
/// that column `x`, row `y` of `out` is column `x + dx`, row `y + dy` of
/// `input`; what falls outside `input` is palette entry 0.
pub open spec fn is_reframed(
    input: Seq<u8>,
    w: int,
    h: int,
    out: Seq<u8>,
    nw: int,
    nh: int,
    dx: int,
    dy: int,
) -> bool {
    &&& out.len() == nw * nh
    &&& forall|x: int, y: int|
        0 <= x < nw && 0 <= y < nh ==> #[trigger] out[x + y * nw] == if 0 <= x + dx < w && 0 <= y
            + dy < h {
            input[(x + dx) + (y + dy) * w]
        } else {
            0u8
        }
}

proof fn lemma_row_before(w: int, y: int, y2: int, x2: int)
    requires
        0 <= x2 < w,
        0 <= y2 < y,
    ensures
        0 <= x2 + y2 * w < y * w,
{
    assert(0 <= x2 + y2 * w < y * w) by (nonlinear_arith)
        requires
            0 <= x2 < w,
            0 <= y2 < y,
    ;
}

/// The pixels of `img` moved by (`dx`, `dy`) into a `nw` by `nh` frame.
pub fn reframe(img: &Raster, dx: i32, dy: i32, nw: u8, nh: u8) -> (r: Vec<u8>)
    requires
        img.wf(),
    ensures
        is_reframed(
            img@.pixels,
            img@.width as int,
            img@.height as int,
            r@,
            nw as int,
            nh as int,
            dx as int,
            dy as int,
        ),
{
    let w = img.width();
    let h = img.height();
    let px = img.get_pixels();
    let ghost wi = w as int;
    let ghost hi = h as int;
    let ghost nwi = nw as int;
    let mut out: Vec<u8> = Vec::new();
    let mut y: u8 = 0;
    while y < nh
        invariant
            y <= nh,
            wi == img@.width,
            hi == img@.height,
            w == img@.width,
            h == img@.height,
            nwi == nw,
            px@ == img@.pixels,
            img@.wf(),
            -2147483648 <= dx <= 2147483647,
            out@.len() == y * nwi,
            forall|x2: int, y2: int|
                0 <= x2 < nwi && 0 <= y2 < y ==> #[trigger] out@[x2 + y2 * nwi] == if 0 <= x2 + dx
                    < wi && 0 <= y2 + dy < hi {
                    img@.pixels[(x2 + dx) + (y2 + dy) * wi]
                } else {
                    0u8
                },
        decreases nh - y,
    {
        let ghost row = out@;
        let mut x: u8 = 0;
        while x < nw
            invariant
                x <= nw,
                y < nh,
                wi == img@.width,
                hi == img@.height,
                w == img@.width,
                h == img@.height,
                nwi == nw,
                px@ == img@.pixels,
                img@.wf(),
                row.len() == y * nwi,
                out@.len() == y * nwi + x,
                out@.subrange(0, y * nwi) == row,
                forall|x2: int, y2: int|
                    0 <= x2 < nwi && 0 <= y2 < y ==> #[trigger] row[x2 + y2 * nwi] == if 0 <= x2
                        + dx < wi && 0 <= y2 + dy < hi {
                        img@.pixels[(x2 + dx) + (y2 + dy) * wi]
                    } else {
                        0u8
                    },
                forall|x2: int|
                    0 <= x2 < x ==> #[trigger] out@[x2 + y * nwi] == if 0 <= x2 + dx < wi && 0 <= y
                        + dy < hi {
                        img@.pixels[(x2 + dx) + (y + dy) * wi]
                    } else {
                        0u8
                    },
            decreases nw - x,
        {
            let sx: i64 = x as i64 + dx as i64;
            let sy: i64 = y as i64 + dy as i64;
            let v = if 0 <= sx && sx < w as i64 && 0 <= sy && sy < h as i64 {
                proof {
                    crate::raster::lemma_offset_in_range(wi, hi, sx as int, sy as int);
                }
                px[crate::raster::flat_index(sx as u8, sy as u8, w)]
            } else {
                0u8
            };
            let ghost before = out@;
            out.push(v);
            proof {
                assert(out@.subrange(0, y * nwi) =~= before.subrange(0, y * nwi));
            }
            x += 1;
        }
        proof {
            assert(y * nwi + nwi == (y + 1) * nwi) by (nonlinear_arith);
            assert forall|x2: int, y2: int|
                0 <= x2 < nwi && 0 <= y2 < y + 1 implies #[trigger] out@[x2 + y2 * nwi] == if 0 <= x2
                    + dx < wi && 0 <= y2 + dy < hi {
                    img@.pixels[(x2 + dx) + (y2 + dy) * wi]
                } else {
                    0u8
                } by {
                if y2 < y {
                    lemma_row_before(nwi, y as int, y2, x2);
                    assert(out@.subrange(0, y * nwi)[x2 + y2 * nwi] == row[x2 + y2 * nwi]);
                }
            }
        }
        y += 1;
    }
    proof {
        assert(y * nwi == nwi * nh) by (nonlinear_arith)
            requires
                y == nh,
        ;
    }
    out
}

/// How many of `n` alternating steps fall on the first side, when the
/// first step does exactly when `first_leads`.
pub open spec fn first_side(n: int, first_leads: bool) -> int {
    if first_leads {
        (n + 1) / 2
    } else {
        n / 2
    }
}

pub open spec fn gap(a: int, b: int) -> int {
    if a >= b {
        a - b
    } else {
        b - a
    }
}

/// The column of the old raster that column 0 of the resized one shows.
/// Columns are taken or given one at a time: at the right with a left
/// anchor, at the left with a right anchor, and alternately, left first,
/// from the centre; rows taken before columns are given come first.
pub open spec fn col_shift(anchor: ResizeAnchor, w: int, h: int, nw: int, nh: int) -> int {
    let n = gap(w, nw);
    let leads = if nw > w && nh < h {
        gap(h, nh) % 2 == 0
    } else {
        true
    };
    let k = if anchor.left() {
        0
    } else if anchor.right() {
        n
    } else {
        first_side(n, leads)
    };
    if nw < w {
        k
    } else {
        -k
    }
}

/// The row of the old raster that row 0 of the resized one shows; rows go
/// at the bottom with a top anchor, at the top with a bottom anchor, and
/// alternately from the centre, continuing the alternation of the columns
/// handled before them.
pub open spec fn row_shift(anchor: ResizeAnchor, w: int, h: int, nw: int, nh: int) -> int {
    let n = gap(h, nh);
    let leads = if nw > w && nh < h {
        true
    } else {
        gap(w, nw) % 2 == 0
    };
    let k = if anchor.top() {
        0
    } else if anchor.bottom() {
        n
    } else {
        first_side(n, leads)
    };
    if nh < h {
        k
    } else {
        -k
    }
}

/// The raster `img` resized to `w` by `h`, kept in place at `anchor`; new
/// pixels are palette entry 0. Refused when new pixels are needed and the
/// palette is empty.
pub fn resize(w: u8, h: u8, resize_anchor: ResizeAnchor, img: &Raster) -> (r: Result<Raster, RasterError>)
    requires
        img.wf(),
    ensures
        ({
            let dx = col_shift(resize_anchor, img@.width as int, img@.height as int, w as int, h as int);
            let dy = row_shift(resize_anchor, img@.width as int, img@.height as int, w as int, h as int);
            &&& r matches Ok(out) ==> out.wf() && out@.width == w && out@.height == h
                && out@.palette == img@.palette && is_reframed(
                img@.pixels,
                img@.width as int,
                img@.height as int,
                out@.pixels,
                w as int,
                h as int,
                dx,
                dy,
            )
            &&& r is Err ==> r == Err::<Raster, RasterError>(RasterError::ColorIndexOutOfRange)
                && img@.palette.len() == 0
        }),
{
    let ow = img.width();
    let oh = img.height();
    let nc: i32 = if ow >= w { (ow - w) as i32 } else { (w - ow) as i32 };
    let nr: i32 = if oh >= h { (oh - h) as i32 } else { (h - oh) as i32 };
    let col_leads = if w > ow && h < oh { nr % 2 == 0 } else { true };
    let row_leads = if w > ow && h < oh { true } else { nc % 2 == 0 };
    let ck: i32 = if resize_anchor.is_left() {
        0
    } else if resize_anchor.is_right() {
        nc
    } else if col_leads {
        (nc + 1) / 2
    } else {
        nc / 2
    };
    let rk: i32 = if resize_anchor.is_top() {
        0
    } else if resize_anchor.is_bottom() {
        nr
    } else if row_leads {
        (nr + 1) / 2
    } else {
        nr / 2
    };
    let dx: i32 = if w < ow { ck } else { -ck };
    let dy: i32 = if h < oh { rk } else { -rk };
    let pixels = reframe(img, dx, dy, w, h);
    let palette = copy_colors(img.get_palette());
    let r = Raster::new(w, h, palette, pixels);
    proof {
        if r is Err {
            assert(pixels@.len() == w * h);
            if img@.palette.len() > 0 {
                assert(crate::raster::indices_below(pixels@, palette@.len())) by {
                    assert forall|i: int| 0 <= i < pixels@.len() implies (#[trigger] pixels@[i])
                        < palette@.len() by {
                        let wi = w as int;
                        vstd::arithmetic::div_mod::lemma_fundamental_div_mod(i, wi);
                        let x = i % wi;
                        let y = i / wi;
                        assert(0 <= y < h) by (nonlinear_arith)
                            requires
                                i == wi * y + x,
                                0 <= x < wi,
                                0 <= i < wi * h,
                                wi > 0,
                        ;
                        assert(i == x + y * wi) by (nonlinear_arith)
                            requires
                                i == wi * y + x,
                        ;
                        if 0 <= x + dx < img@.width && 0 <= y + dy < img@.height {
                            crate::raster::lemma_offset_in_range(
                                img@.width as int,
                                img@.height as int,
                                x + dx,
                                y + dy,
                            );
                        }
                    }
                }
            }
        }
    }
    r
}

/// Palette entry `v` exists and is fully transparent.
pub open spec fn is_clear(r: RasterModel, v: u8) -> bool {
    v < r.palette.len() && r.palette[v as int].a == 0
}

/// Every pixel of row `y` is transparent.
pub open spec fn row_clear(r: RasterModel, y: int) -> bool {
    forall|x: int| 0 <= x < r.width ==> is_clear(r, #[trigger] r.pixels[x + y * r.width])
}

/// Every pixel of column `x` is transparent.
pub open spec fn col_clear(r: RasterModel, x: int) -> bool {
    forall|y: int| 0 <= y < r.height ==> is_clear(r, #[trigger] r.pixels[x + y * r.width])
}

/// The bounds of what is not transparent: rows `top ..= bottom` and
/// columns `left ..= right` hold every pixel that is not, and each edge
/// row or column holds one.
pub open spec fn content_bounds(r: RasterModel, top: int, bottom: int, left: int, right: int) -> bool {
    &&& 0 <= top <= bottom < r.height
    &&& 0 <= left <= right < r.width
    &&& !row_clear(r, top) && !row_clear(r, bottom)
    &&& !col_clear(r, left) && !col_clear(r, right)
    &&& forall|y: int| 0 <= y < top ==> #[trigger] row_clear(r, y)
    &&& forall|y: int| bottom < y < r.height ==> #[trigger] row_clear(r, y)
    &&& forall|x: int| 0 <= x < left ==> #[trigger] col_clear(r, x)
    &&& forall|x: int| right < x < r.width ==> #[trigger] col_clear(r, x)
}

fn is_clear_index(img: &Raster, v: u8) -> (r: bool)
    ensures
        r == is_clear(img@, v),
{
    let pal = img.get_palette();
    (v as usize) < pal.len() && pal[v as usize].a == 0
}

fn is_row_blank(img: &Raster, y: u8) -> (r: bool)
    requires
        img.wf(),
        y < img@.height,
    ensures
        r == row_clear(img@, y as int),
{
    let w = img.width();
    let mut x: u8 = 0;
    while x < w
        invariant
            x <= w,
            w == img@.width,
            y < img@.height,
            img.wf(),
            forall|x2: int| 0 <= x2 < x ==> is_clear(img@, #[trigger] img@.pixels[x2 + y * img@.width]),
        decreases w - x,
    {
        proof {
            crate::raster::lemma_offset_in_range(w as int, img@.height as int, x as int, y as int);
        }
        let v = img.get_pixels()[crate::raster::flat_index(x, y, w)];
        if !is_clear_index(img, v) {
            return false;
        }
        x += 1;
    }
    true
}

fn is_col_blank(img: &Raster, x: u8) -> (r: bool)
    requires
        img.wf(),
        x < img@.width,
    ensures
        r == col_clear(img@, x as int),
{
    let h = img.height();
    let mut y: u8 = 0;
    while y < h
        invariant
            y <= h,
            h == img@.height,
            x < img@.width,
            img.wf(),
            forall|y2: int| 0 <= y2 < y ==> is_clear(img@, #[trigger] img@.pixels[x + y2 * img@.width]),
        decreases h - y,
    {
        proof {
            crate::raster::lemma_offset_in_range(img@.width as int, h as int, x as int, y as int);
        }
        let v = img.get_pixels()[crate::raster::flat_index(x, y, img.width())];
        if !is_clear_index(img, v) {
            return false;
        }
        y += 1;
    }
    true
}

/// A pixel that is not transparent lies in a row and a column that are not.
proof fn lemma_pixel_row_col(r: RasterModel, i: int)
    requires
        r.wf(),
        0 <= i < r.pixels.len(),
        !is_clear(r, r.pixels[i]),
    ensures
        r.width > 0,
        !row_clear(r, i / (r.width as int)),
        !col_clear(r, i % (r.width as int)),
        0 <= i / (r.width as int) < r.height,
        0 <= i % (r.width as int) < r.width,
{
    let w = r.width as int;
    assert(w > 0) by (nonlinear_arith)
        requires
            0 <= i < r.width * r.height,
            w == r.width,
    ;
    vstd::arithmetic::div_mod::lemma_fundamental_div_mod(i, w);
    let x = i % w;
    let y = i / w;
    assert(0 <= y < r.height) by (nonlinear_arith)
        requires
            i == w * y + x,
            0 <= x < w,
            0 <= i < w * r.height,
            w > 0,
    ;
    assert(i == x + y * w) by (nonlinear_arith)
        requires
            i == w * y + x,
    ;
}

/// The offset of the first pixel that is not transparent.
fn first_opaque(image: &Raster) -> (r: Option<usize>)
    ensures
        r is None ==> forall|i: int|
            0 <= i < image@.pixels.len() ==> is_clear(image@, #[trigger] image@.pixels[i]),
        r matches Some(k) ==> k < image@.pixels.len() && !is_clear(image@, image@.pixels[k as int]),
{
    let n = image.get_pixels().len();
    let mut k: usize = 0;
    while k < n
        invariant
            k <= n,
            n == image@.pixels.len(),
            forall|i: int| 0 <= i < k ==> is_clear(image@, #[trigger] image@.pixels[i]),
        decreases n - k,
    {
        if !is_clear_index(image, image.get_pixels()[k]) {
            return Some(k);
        }
        k += 1;
    }
    None
}

/// `img` cropped to what is not transparent; unchanged when its palette
/// has no transparent entry or when every pixel is transparent.
pub fn remove_blanks(image: Raster) -> (r: Raster)
    requires
        image.wf(),
    ensures
        r.wf(),
        (forall|i: int| 0 <= i < image@.pixels.len() ==> is_clear(image@, #[trigger] image@.pixels[i]))
            ==> r@ == image@,
        (exists|i: int| 0 <= i < image@.pixels.len() && !is_clear(image@, #[trigger] image@.pixels[i]))
            ==> exists|top: int, bottom: int, left: int, right: int|
            #[trigger] content_bounds(image@, top, bottom, left, right) && r@.palette == image@.palette
                && r@.width == right - left + 1 && r@.height == bottom - top + 1 && is_reframed(
                image@.pixels,
                image@.width as int,
                image@.height as int,
                r@.pixels,
                right - left + 1,
                bottom - top + 1,
                left,
                top,
            ),
{
    let k = match first_opaque(&image) {
        Some(k) => k,
        None => {
            return image;
        },
    };
    assert(!is_clear(image@, image@.pixels[k as int]));
    proof {
        lemma_pixel_row_col(image@, k as int);
    }
    let ghost kr = k as int / image@.width as int;
    let ghost kc = k as int % image@.width as int;
    let w = image.width();
    let h = image.height();
    let mut top: u8 = 0;
    while is_row_blank(&image, top)
        invariant
            image.wf(),
            h == image@.height,
            0 <= kr < h,
            !row_clear(image@, kr),
            top <= kr,
            forall|y: int| 0 <= y < top ==> #[trigger] row_clear(image@, y),
        decreases kr - top,
    {
        top += 1;
    }
    let mut bottom: u8 = h - 1;
    while is_row_blank(&image, bottom)
        invariant
            image.wf(),
            h == image@.height,
            0 <= kr < h,
            !row_clear(image@, kr),
            kr <= bottom < h,
            forall|y: int| bottom < y < h ==> #[trigger] row_clear(image@, y),
        decreases bottom - kr,
    {
        bottom -= 1;
    }
    let mut left: u8 = 0;
    while is_col_blank(&image, left)
        invariant
            image.wf(),
            w == image@.width,
            0 <= kc < w,
            !col_clear(image@, kc),
            left <= kc,
            forall|x: int| 0 <= x < left ==> #[trigger] col_clear(image@, x),
        decreases kc - left,
    {
        left += 1;
    }
    let mut right: u8 = w - 1;
    while is_col_blank(&image, right)
        invariant
            image.wf(),
            w == image@.width,
            0 <= kc < w,
            !col_clear(image@, kc),
            kc <= right < w,
            forall|x: int| right < x < w ==> #[trigger] col_clear(image@, x),
        decreases right - kc,
    {
        right -= 1;
    }
    proof {
        if top > bottom {
            assert(row_clear(image@, kr));
        }
        if left > right {
            assert(col_clear(image@, kc));
        }
    }
    let nw = right - left + 1;
    let nh = bottom - top + 1;
    let pixels = reframe(&image, left as i32, top as i32, nw, nh);
    let ghost wi = image@.width as int;
    let ghost hi = image@.height as int;
    proof {
        assert(crate::raster::indices_below(pixels@, image@.palette.len())) by {
            assert forall|i: int| 0 <= i < pixels@.len() implies (#[trigger] pixels@[i]) < image@.palette.len() by {
                let nwi = nw as int;
                vstd::arithmetic::div_mod::lemma_fundamental_div_mod(i, nwi);
                let x = i % nwi;
                let y = i / nwi;
                assert(0 <= y < nh) by (nonlinear_arith)
                    requires
                        i == nwi * y + x,
                        0 <= x < nwi,
                        0 <= i < nwi * nh,
                        nwi > 0,
                ;
                assert(i == x + y * nwi) by (nonlinear_arith)
                    requires
                        i == nwi * y + x,
                ;
                crate::raster::lemma_offset_in_range(wi, hi, x + left, y + top);
            }
        }
        assert(content_bounds(image@, top as int, bottom as int, left as int, right as int));
    }
    let palette = copy_colors(image.get_palette());
    let r = Raster::new(nw, nh, palette, pixels);
    match r {
        Ok(out) => out,
        Err(_) => image,
    }
}

} // verus!
