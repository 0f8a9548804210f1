use vstd::prelude::*;

verus! {

/// A whole-image rearrangement of pixels.
#[derive(Clone, Copy, Debug, PartialEq, Eq, Structural)]
pub enum Transform {
    /// Mirror left to right.
    FlipH,
    /// Mirror top to bottom.
    FlipV,
    /// Quarter turn clockwise; needs a square raster.
    RotateCw,
    /// Quarter turn counter-clockwise; needs a square raster.
    RotateCcw,
    /// Every row moves up one; the top row wraps to the bottom.
    ShiftUp,
    /// Every row moves down one; the bottom row wraps to the top.
    ShiftDown,
    /// Every column moves left one; the left column wraps to the right.
    ShiftLeft,
    /// Every column moves right one; the right column wraps to the left.
    ShiftRight,
}

/// Where the pixel that lands on column `x`, row `y` comes from.
pub open spec fn source(t: Transform, w: int, h: int, x: int, y: int) -> (int, int) {
    match t {
        Transform::FlipH => (w - 1 - x, y),
        Transform::FlipV => (x, h - 1 - y),
        Transform::RotateCw => (y, w - 1 - x),
        Transform::RotateCcw => (h - 1 - y, x),
        Transform::ShiftUp => (x, if y + 1 == h { 0 } else { y + 1 }),
        Transform::ShiftDown => (x, if y == 0 { h - 1 } else { y - 1 }),
        Transform::ShiftLeft => (if x + 1 == w { 0 } else { x + 1 }, y),
        Transform::ShiftRight => (if x == 0 { w - 1 } else { x - 1 }, y),
    }
}

/// `out` is `input`, a `w` by `h` raster, rearranged by `t`.
pub open spec fn is_transformed(input: Seq<u8>, out: Seq<u8>, w: int, h: int, t: Transform) -> bool {
    &&& out.len() == input.len()
    &&& forall|x: int, y: int|
        0 <= x < w && 0 <= y < h ==> #[trigger] out[x + y * w] == input[source(t, w, h, x, y).0
            + source(t, w, h, x, y).1 * w]
}

/// Rotations only keep a square raster within its bounds.
pub open spec fn fits(t: Transform, w: int, h: int) -> bool {
    (t == Transform::RotateCw || t == Transform::RotateCcw) ==> w == h
}

fn source_of(t: Transform, w: u8, h: u8, x: u8, y: u8) -> (r: (u8, u8))
    requires
        x < w,
        y < h,
        fits(t, w as int, h as int),
    ensures
        r.0 == source(t, w as int, h as int, x as int, y as int).0,
        r.1 == source(t, w as int, h as int, x as int, y as int).1,
        r.0 < w,
        r.1 < h,
{
    match t {
        Transform::FlipH => (w - 1 - x, y),
        Transform::FlipV => (x, h - 1 - y),
        Transform::RotateCw => (y, w - 1 - x),
        Transform::RotateCcw => (h - 1 - y, x),
        Transform::ShiftUp => (x, if y + 1 == h { 0 } else { y + 1 }),
        Transform::ShiftDown => (x, if y == 0 { h - 1 } else { y - 1 }),
        Transform::ShiftLeft => (if x + 1 == w { 0 } else { x + 1 }, y),
        Transform::ShiftRight => (if x == 0 { w - 1 } else { x - 1 }, y),
    }
}

proof fn lemma_row_start(w: int, y: int, y2: int, x2: int)
    requires
        0 <= x2 < w,
        0 <= y2 < y,
    ensures
        0 <= x2 + y2 * w < y * w,
{
    assert(0 <= x2 + y2 * w < y * w) by (nonlinear_arith)
        requires
            0 <= x2 < w,
            0 <= y2 < y,
    ;
}

/// The pixels of the `w` by `h` raster `pixels` rearranged by `t`.
pub fn transform(pixels: &[u8], w: u8, h: u8, t: Transform) -> (r: Vec<u8>)
    requires
        pixels@.len() == w * h,
        fits(t, w as int, h as int),
    ensures
        is_transformed(pixels@, r@, w as int, h as int, t),
        forall|i: int| 0 <= i < r@.len() ==> pixels@.contains(#[trigger] r@[i]),
{
    let mut out: Vec<u8> = Vec::new();
    let mut y: u8 = 0;
    let ghost wi = w as int;
    let ghost hi = h as int;
    while y < h
        invariant
            y <= h,
            wi == w,
            hi == h,
            pixels@.len() == wi * hi,
            fits(t, wi, hi),
            out@.len() == y * wi,
            forall|x2: int, y2: int|
                0 <= x2 < wi && 0 <= y2 < y ==> #[trigger] out@[x2 + y2 * wi] == pixels@[source(
                    t,
                    wi,
                    hi,
                    x2,
                    y2,
                ).0 + source(t, wi, hi, x2, y2).1 * wi],
            forall|i: int| 0 <= i < out@.len() ==> pixels@.contains(#[trigger] out@[i]),
        decreases h - y,
    {
        let mut x: u8 = 0;
        let ghost row = out@;
        while x < w
            invariant
                x <= w,
                y < h,
                wi == w,
                hi == h,
                pixels@.len() == wi * hi,
                fits(t, wi, hi),
                row.len() == y * wi,
                out@.len() == y * wi + x,
                out@.subrange(0, y * wi) == row,
                forall|x2: int, y2: int|
                    0 <= x2 < wi && 0 <= y2 < y ==> #[trigger] row[x2 + y2 * wi] == pixels@[source(
                        t,
                        wi,
                        hi,
                        x2,
                        y2,
                    ).0 + source(t, wi, hi, x2, y2).1 * wi],
                forall|x2: int|
                    0 <= x2 < x ==> #[trigger] out@[x2 + y * wi] == pixels@[source(
                        t,
                        wi,
                        hi,
                        x2,
                        y as int,
                    ).0 + source(t, wi, hi, x2, y as int).1 * wi],
                forall|i: int| 0 <= i < out@.len() ==> pixels@.contains(#[trigger] out@[i]),
            decreases w - x,
        {
            let (sx, sy) = source_of(t, w, h, x, y);
            proof {
                crate::raster::lemma_offset_in_range(wi, hi, sx as int, sy as int);
            }
            let v = pixels[crate::raster::flat_index(sx, sy, w)];
            let ghost before = out@;
            out.push(v);
            proof {
                assert(out@.subrange(0, y * wi) =~= before.subrange(0, y * wi));
                assert(pixels@.contains(v)) by {
                    assert(pixels@[sx as int + sy as int * wi] == v);
                }
                assert forall|i: int| 0 <= i < out@.len() implies pixels@.contains(#[trigger] out@[i]) by {
                    if i < before.len() {
                        assert(out@[i] == before[i]);
                    }
                }
            }
            x += 1;
        }
        proof {
            assert(y * wi + wi == (y + 1) * wi) by (nonlinear_arith);
            assert forall|x2: int, y2: int|
                0 <= x2 < wi && 0 <= y2 < y + 1 implies #[trigger] out@[x2 + y2 * wi] == pixels@[source(
                    t,
                    wi,
                    hi,
                    x2,
                    y2,
                ).0 + source(t, wi, hi, x2, y2).1 * wi] by {
                if y2 < y {
                    lemma_row_start(wi, y as int, y2, x2);
                    assert(out@.subrange(0, y * wi)[x2 + y2 * wi] == row[x2 + y2 * wi]);
                }
            }
        }
        y += 1;
    }
    proof {
        assert(y * wi == wi * hi) by (nonlinear_arith)
            requires
                y == hi,
        ;
    }
    out
}

} // verus!
