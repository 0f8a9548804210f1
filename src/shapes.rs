use crate::offset_set::{new_offset_set, offset_set_insert};
use crate::raster::lemma_offset_in_range;
use fnv::FnvHashSet;
use graphics_shapes::prelude::{Circle, Coord, Ellipse, Line, Rect};
use graphics_shapes::Shape;
use vstd::prelude::*;

verus! {

/// The points that graphics-shapes draws for the line from `start` to `end`.
pub uninterp spec fn line_outline(start: (u8, u8), end: (u8, u8)) -> Seq<(isize, isize)>;

/// The points that graphics-shapes draws for the circle of `radius` around `center`.
pub uninterp spec fn circle_outline(center: (u8, u8), radius: usize) -> Set<(isize, isize)>;

/// The squared distance between two points.
pub open spec fn sq_dist(a: (u8, u8), b: (u8, u8)) -> int {
    (a.0 - b.0) * (a.0 - b.0) + (a.1 - b.1) * (a.1 - b.1)
}

/// `r` is the square root of `d` rounded to the nearest integer.
pub open spec fn rounds_root(d: int, r: int) -> bool {
    &&& 4 * d < (2 * r + 1) * (2 * r + 1)
    &&& (r == 0 || (2 * r - 1) * (2 * r - 1) < 4 * d)
}

/// `ps` runs from one end to the other, each point at most one column and
/// one row from the one before it.
pub open spec fn is_line_path(ps: Seq<(isize, isize)>, start: (u8, u8), end: (u8, u8)) -> bool {
    let s = (start.0 as isize, start.1 as isize);
    let e = (end.0 as isize, end.1 as isize);
    &&& ps.len() >= 1
    &&& (ps[0] == s && ps.last() == e) || (ps[0] == e && ps.last() == s)
    &&& forall|i: int|
        #![trigger ps[i]]
        0 <= i < ps.len() - 1 ==> crate::fill::dist(ps[i].0 as int, ps[i + 1].0 as int) <= 1
            && crate::fill::dist(ps[i].1 as int, ps[i + 1].1 as int) <= 1
}

/// The points that graphics-shapes draws for the circle inscribed in the box
/// with corners `a` and `b`.
pub uninterp spec fn inner_circle_outline(a: (u8, u8), b: (u8, u8)) -> Set<(isize, isize)>;

/// The points that graphics-shapes draws for the ellipse around `center`
/// built from `width` and `height`.
pub uninterp spec fn ellipse_outline(center: (u8, u8), width: usize, height: usize) -> Set<
    (isize, isize),
>;

/// The points that graphics-shapes draws for the ellipse around the box with
/// corners `a` and `b`.
pub uninterp spec fn outer_ellipse_outline(a: (u8, u8), b: (u8, u8)) -> Set<(isize, isize)>;

/// Relies on graphics-shapes' `Line::new(start, end).outline_pixels()`: the
/// points depend on the two ends alone; they start at one end, finish at
/// the other, and step at most one column and one row at a time.
#[verifier::external_body]
pub(crate) fn line_points(start: (u8, u8), end: (u8, u8)) -> (r: Vec<(isize, isize)>)
    ensures
        r@ == line_outline(start, end),
        is_line_path(r@, start, end),
{
    Line::new(start, end).outline_pixels().iter().map(|c: &Coord| (c.x, c.y)).collect()
}

/// Relies on graphics-shapes' `Circle::new(center, radius).outline_pixels()`:
/// the points, each once, collected from a set.
#[verifier::external_body]
pub(crate) fn circle_points(center: (u8, u8), radius: usize) -> (r: Vec<(isize, isize)>)
    requires
        radius <= 361,
    ensures
        r@.to_set() == circle_outline(center, radius),
{
    Circle::new(center, radius).outline_pixels().iter().map(|c: &Coord| (c.x, c.y)).collect()
}

/// Relies on graphics-shapes' `Coord::distance`: the distance between the
/// two points rounded to the nearest integer, at most 361 for byte
/// coordinates.
#[verifier::external_body]
pub(crate) fn distance(a: (u8, u8), b: (u8, u8)) -> (r: usize)
    ensures
        rounds_root(sq_dist(a, b), r as int),
        r <= 361,
{
    Coord::from(a).distance(b)
}

/// Relies on graphics-shapes' `Rect::new(a, b).as_inner_circle().outline_pixels()`.
#[verifier::external_body]
pub(crate) fn inner_circle_points(a: (u8, u8), b: (u8, u8)) -> (r: Vec<(isize, isize)>)
    ensures
        r@.to_set() == inner_circle_outline(a, b),
{
    Rect::new(a, b).as_inner_circle().outline_pixels().iter().map(|c: &Coord| (c.x, c.y)).collect()
}

/// Relies on graphics-shapes' `Ellipse::new(center, width, height).outline_pixels()`.
#[verifier::external_body]
pub(crate) fn ellipse_points(center: (u8, u8), width: usize, height: usize) -> (r: Vec<(isize, isize)>)
    requires
        width <= 255,
        height <= 255,
    ensures
        r@.to_set() == ellipse_outline(center, width, height),
{
    Ellipse::new(center, width, height).outline_pixels().iter().map(|c: &Coord| (c.x, c.y)).collect()
}

/// Relies on graphics-shapes' `Rect::new(a, b).as_outer_ellipse().outline_pixels()`.
#[verifier::external_body]
pub(crate) fn outer_ellipse_points(a: (u8, u8), b: (u8, u8)) -> (r: Vec<(isize, isize)>)
    ensures
        r@.to_set() == outer_ellipse_outline(a, b),
{
    Rect::new(a, b).as_outer_ellipse().outline_pixels().iter().map(|c: &Coord| (c.x, c.y)).collect()
}

/// Point `p` lies on a `w` by `h` grid.
pub open spec fn in_grid(p: (isize, isize), w: nat, h: nat) -> bool {
    0 <= p.0 < w && 0 <= p.1 < h
}

/// The offsets of the points of `ps` that lie on a `w` by `h` grid, in order.
pub open spec fn offsets_of(ps: Seq<(isize, isize)>, w: nat, h: nat) -> Seq<usize>
    decreases ps.len(),
{
    if ps.len() == 0 {
        Seq::empty()
    } else {
        let rest = offsets_of(ps.drop_last(), w, h);
        let p = ps.last();
        if in_grid(p, w, h) {
            rest.push((p.0 + p.1 * w) as usize)
        } else {
            rest
        }
    }
}

/// The offsets of the points that lie on a `width` by `height` grid; the
/// others are dropped.
pub fn points_to_offsets(points: &Vec<(isize, isize)>, width: u8, height: u8) -> (r: Vec<usize>)
    ensures
        r@ == offsets_of(points@, width as nat, height as nat),
        forall|k: int| 0 <= k < r@.len() ==> (#[trigger] r@[k]) < width * height,
{
    let mut out: Vec<usize> = Vec::new();
    let mut i: usize = 0;
    while i < points.len()
        invariant
            i <= points@.len(),
            out@ == offsets_of(points@.take(i as int), width as nat, height as nat),
            forall|k: int| 0 <= k < out@.len() ==> (#[trigger] out@[k]) < width * height,
        decreases points.len() - i,
    {
        let p = points[i];
        assert(points@.take(i + 1).drop_last() =~= points@.take(i as int));
        if 0 <= p.0 && p.0 < width as isize && 0 <= p.1 && p.1 < height as isize {
            proof {
                lemma_offset_in_range(width as int, height as int, p.0 as int, p.1 as int);
            }
            out.push(crate::raster::flat_index(p.0 as u8, p.1 as u8, width));
        }
        i += 1;
    }
    assert(points@.take(points@.len() as int) =~= points@);
    out
}

pub open spec fn min_u8(a: u8, b: u8) -> u8 {
    if a <= b {
        a
    } else {
        b
    }
}

pub open spec fn max_u8(a: u8, b: u8) -> u8 {
    if a >= b {
        a
    } else {
        b
    }
}

/// Column `x`, row `y` lies on the edge of the box with corners `a` and `b`.
pub open spec fn on_rect_outline(a: (u8, u8), b: (u8, u8), x: int, y: int) -> bool {
    let (l, r) = (min_u8(a.0, b.0) as int, max_u8(a.0, b.0) as int);
    let (t, btm) = (min_u8(a.1, b.1) as int, max_u8(a.1, b.1) as int);
    &&& l <= x <= r
    &&& t <= y <= btm
    &&& (x == l || x == r || y == t || y == btm)
}

/// The offsets of a `w` by `h` grid whose pixels lie on the edge of the box
/// with corners `a` and `b`.
pub open spec fn rect_offsets(a: (u8, u8), b: (u8, u8), w: nat, h: nat) -> Set<usize> {
    Set::new(|i: usize| i < w * h && on_rect_outline(a, b, i as int % w as int, i as int / w as int))
}

/// The pixels of the top and bottom edges left of column `x_end`.
pub open spec fn rows_done(l: int, t: int, btm: int, x_end: int, x: int, y: int) -> bool {
    l <= x < x_end && (y == t || y == btm)
}

/// The pixels of the left and right edges above row `y_end`.
pub open spec fn cols_done(l: int, rt: int, t: int, y_end: int, x: int, y: int) -> bool {
    t <= y < y_end && (x == l || x == rt)
}

/// The column and row of an offset built from them.
pub(crate) proof fn lemma_offset_coords(w: int, x: int, y: int)
    requires
        0 <= x < w,
        0 <= y,
    ensures
        (x + y * w) % w == x,
        (x + y * w) / w == y,
{
    vstd::arithmetic::div_mod::lemma_fundamental_div_mod_converse(x + y * w, w, y, x);
}

/// Adds the offset of column `x`, row `y` to the result when it lies on the grid.
fn add_point(
    x: u8,
    y: u8,
    w: u8,
    h: u8,
    seen: &mut FnvHashSet<usize>,
    out: &mut Vec<usize>,
)
    requires
        old(seen)@ == old(out)@.to_set(),
        old(out)@.no_duplicates(),
    ensures
        final(seen)@ == final(out)@.to_set(),
        final(out)@.no_duplicates(),
        x < w && y < h ==> final(seen)@ == old(seen)@.insert((x + y * w) as usize),
        !(x < w && y < h) ==> final(seen)@ == old(seen)@,
{
    if x < w && y < h {
        let o = crate::raster::flat_index(x, y, w);
        if offset_set_insert(seen, o) {
            let ghost before = out@;
            out.push(o);
            assert(out@.to_set() =~= before.to_set().insert(o)) by {
                assert forall|v: usize| out@.to_set().contains(v) <==> before.to_set().insert(
                    o,
                ).contains(v) by {
                    if out@.contains(v) && v != o {
                        let k = choose|k: int| 0 <= k < out@.len() && out@[k] == v;
                        assert(before[k] == v);
                    }
                    if before.contains(v) {
                        let k = choose|k: int| 0 <= k < before.len() && before[k] == v;
                        assert(out@[k] == v);
                    }
                    if v == o {
                        assert(out@[out@.len() - 1] == o);
                    }
                }
            }
        }
    }
}

/// The offsets of the pixels on the edge of the box with corners `a` and
/// `b`, each once; corners off the grid are dropped.
pub fn rect_outline_offsets(a: (u8, u8), b: (u8, u8), w: u8, h: u8) -> (r: Vec<usize>)
    requires
        w > 0,
    ensures
        r@.no_duplicates(),
        r@.to_set() == rect_offsets(a, b, w as nat, h as nat),
{
    let l = if a.0 <= b.0 { a.0 } else { b.0 };
    let rt = if a.0 >= b.0 { a.0 } else { b.0 };
    let t = if a.1 <= b.1 { a.1 } else { b.1 };
    let btm = if a.1 >= b.1 { a.1 } else { b.1 };
    let ghost wi = w as int;
    let ghost hi = h as int;
    let mut seen = new_offset_set();
    let mut out: Vec<usize> = Vec::new();
    assert(out@.to_set() =~= Set::<usize>::empty());
    let mut x: u8 = l;
    while x < rt
        invariant
            l <= x <= rt,
            w > 0,
            wi == w as int,
            hi == h as int,
            l == min_u8(a.0, b.0),
            rt == max_u8(a.0, b.0),
            t == min_u8(a.1, b.1),
            btm == max_u8(a.1, b.1),
            seen@ == out@.to_set(),
            out@.no_duplicates(),
            forall|i: usize|
                #[trigger] seen@.contains(i) <==> (i < wi * hi && rows_done(
                    l as int,
                    t as int,
                    btm as int,
                    x as int,
                    i as int % wi,
                    i as int / wi,
                )),
        decreases rt - x,
    {
        let ghost before = seen@;
        add_point(x, t, w, h, &mut seen, &mut out);
        let ghost mid = seen@;
        add_point(x, btm, w, h, &mut seen, &mut out);
        proof {
            let o1 = x as int + t as int * wi;
            let o2 = x as int + btm as int * wi;
            assert(0 <= t as int * wi <= 255 * 255) by (nonlinear_arith)
                requires
                    0 <= t <= 255,
                    0 <= wi <= 255,
            ;
            assert(0 <= btm as int * wi <= 255 * 255) by (nonlinear_arith)
                requires
                    0 <= btm <= 255,
                    0 <= wi <= 255,
            ;
            if x < w && t < h {
                lemma_offset_coords(wi, x as int, t as int);
                lemma_offset_in_range(wi, hi, x as int, t as int);
            }
            if x < w && btm < h {
                lemma_offset_coords(wi, x as int, btm as int);
                lemma_offset_in_range(wi, hi, x as int, btm as int);
            }
            assert forall|i: usize|
                #[trigger] seen@.contains(i) <==> (i < wi * hi && rows_done(
                    l as int,
                    t as int,
                    btm as int,
                    x + 1,
                    i as int % wi,
                    i as int / wi,
                )) by {
                assert(before.contains(i) <==> (i < wi * hi && rows_done(
                    l as int,
                    t as int,
                    btm as int,
                    x as int,
                    i as int % wi,
                    i as int / wi,
                )));
                if seen@.contains(i) && !before.contains(i) {
                    if mid.contains(i) {
                        assert(i as int == o1);
                    } else {
                        assert(i as int == o2);
                    }
                }
                if i < wi * hi && i as int % wi == x && (i as int / wi == t || i as int / wi == btm) {
                    lemma_coords_in_grid(wi, hi, i as int);
                    lemma_split(wi, i as int);
                    if i as int / wi == t {
                        assert(i as int == o1);
                        assert(mid.contains(i));
                    } else {
                        assert(i as int == o2);
                    }
                }
            }
        }
        x += 1;
    }
    let mut y: u16 = t as u16;
    while y <= btm as u16
        invariant
            t <= y <= btm as u16 + 1,
            w > 0,
            wi == w as int,
            hi == h as int,
            l == min_u8(a.0, b.0),
            rt == max_u8(a.0, b.0),
            t == min_u8(a.1, b.1),
            btm == max_u8(a.1, b.1),
            seen@ == out@.to_set(),
            out@.no_duplicates(),
            forall|i: usize|
                #[trigger] seen@.contains(i) <==> (i < wi * hi && (rows_done(
                    l as int,
                    t as int,
                    btm as int,
                    rt as int,
                    i as int % wi,
                    i as int / wi,
                ) || cols_done(l as int, rt as int, t as int, y as int, i as int % wi, i as int / wi))),
        decreases btm as u16 + 1 - y,
    {
        let yy = y as u8;
        let ghost before = seen@;
        add_point(l, yy, w, h, &mut seen, &mut out);
        let ghost mid = seen@;
        add_point(rt, yy, w, h, &mut seen, &mut out);
        proof {
            let o1 = l as int + yy as int * wi;
            let o2 = rt as int + yy as int * wi;
            assert(0 <= yy as int * wi <= 255 * 255) by (nonlinear_arith)
                requires
                    0 <= yy <= 255,
                    0 <= wi <= 255,
            ;
            if l < w && yy < h {
                lemma_offset_coords(wi, l as int, yy as int);
                lemma_offset_in_range(wi, hi, l as int, yy as int);
            }
            if rt < w && yy < h {
                lemma_offset_coords(wi, rt as int, yy as int);
                lemma_offset_in_range(wi, hi, rt as int, yy as int);
            }
            assert forall|i: usize|
                #[trigger] seen@.contains(i) <==> (i < wi * hi && (rows_done(
                    l as int,
                    t as int,
                    btm as int,
                    rt as int,
                    i as int % wi,
                    i as int / wi,
                ) || cols_done(l as int, rt as int, t as int, y + 1, i as int % wi, i as int / wi)))
                by {
                assert(before.contains(i) <==> (i < wi * hi && (rows_done(
                    l as int,
                    t as int,
                    btm as int,
                    rt as int,
                    i as int % wi,
                    i as int / wi,
                ) || cols_done(l as int, rt as int, t as int, y as int, i as int % wi, i as int / wi))));
                if seen@.contains(i) && !before.contains(i) {
                    if mid.contains(i) {
                        assert(i as int == o1);
                    } else {
                        assert(i as int == o2);
                    }
                }
                if i < wi * hi && i as int / wi == y && (i as int % wi == l || i as int % wi == rt) {
                    lemma_coords_in_grid(wi, hi, i as int);
                    lemma_split(wi, i as int);
                    if i as int % wi == l {
                        assert(i as int == o1);
                        assert(mid.contains(i));
                    } else {
                        assert(i as int == o2);
                    }
                }
            }
        }
        y += 1;
    }
    assert(y == btm as u16 + 1);
    assert(seen@ =~= rect_offsets(a, b, w as nat, h as nat)) by {
        assert forall|i: usize| seen@.contains(i) implies rect_offsets(a, b, w as nat, h as nat).contains(i) by {
            assert(i as int % wi == i as int % (w as nat) as int);
            assert(i < wi * hi);
            lemma_coords_in_grid(wi, hi, i as int);
        }
        assert forall|i: usize| rect_offsets(a, b, w as nat, h as nat).contains(i) implies seen@.contains(i) by {
            assert(i as int % wi == i as int % (w as nat) as int);
            assert(i < wi * hi);
            lemma_coords_in_grid(wi, hi, i as int);
        }
    }
    out
}

/// An offset is its column plus its row times the width.
pub(crate) proof fn lemma_split(w: int, i: int)
    requires
        w > 0,
    ensures
        i == i % w + (i / w) * w,
{
    vstd::arithmetic::div_mod::lemma_fundamental_div_mod(i, w);
    assert(w * (i / w) == (i / w) * w) by (nonlinear_arith);
}

/// The column and row of an offset lie on the grid.
pub(crate) proof fn lemma_coords_in_grid(w: int, h: int, i: int)
    requires
        w > 0,
        0 <= i < w * h,
    ensures
        0 <= i % w < w,
        0 <= i / w < h,
{
    vstd::arithmetic::div_mod::lemma_fundamental_div_mod(i, w);
    assert(0 <= i / w < h) by (nonlinear_arith)
        requires
            i == w * (i / w) + i % w,
            0 <= i % w < w,
            0 <= i < w * h,
            w > 0,
    ;
}

} // verus!
