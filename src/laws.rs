use crate::event::{EventModel, apply, event_valid, lemma_apply_wf};
use crate::history::{
    HistoryModel, condensable, condense, joins, lemma_condense, lemma_log_valid_prefix,
    lemma_log_valid_push, lemma_replay_step, lemma_replay_wf, lemma_take_all, redo,
    replay, submit, undo,
};
use crate::fill::{adjacent, fill_closed, fill_step, has_like_neighbour, is_region, lemma_neighbours};
use crate::raster::{Color, RasterModel, lemma_offset_in_range};
use crate::shapes::{lemma_coords_in_grid, lemma_offset_coords, lemma_split};
use vstd::prelude::*;

verus! {

/// The session after `n` undos.
pub open spec fn undo_times(h: HistoryModel, n: nat) -> HistoryModel
    decreases n,
{
    if n == 0 {
        h
    } else {
        undo(undo_times(h, (n - 1) as nat))
    }
}

/// The session after `n` redos.
pub open spec fn redo_times(h: HistoryModel, n: nat) -> HistoryModel
    decreases n,
{
    if n == 0 {
        h
    } else {
        redo(redo_times(h, (n - 1) as nat))
    }
}

/// `h` with the first `i` events applied.
pub open spec fn at_index(h: HistoryModel, i: int) -> HistoryModel {
    HistoryModel { index: i, frames: replay(h.base, h.events.take(i)), ..h }
}

proof fn lemma_undo_times(h: HistoryModel, n: nat)
    requires
        h.wf(),
    ensures
        undo_times(h, n) == at_index(h, if h.index >= n { h.index - n } else { 0 }),
    decreases n,
{
    if n == 0 {
        assert(at_index(h, h.index) == h);
    } else {
        lemma_undo_times(h, (n - 1) as nat);
    }
}

proof fn lemma_redo_times(h: HistoryModel, i: int, n: nat)
    requires
        h.wf(),
        0 <= i <= h.events.len(),
    ensures
        redo_times(at_index(h, i), n) == at_index(
            h,
            if i + n <= h.events.len() { i + n } else { h.events.len() as int },
        ),
    decreases n,
{
    if n > 0 {
        lemma_redo_times(h, i, (n - 1) as nat);
        let j = if i + n - 1 <= h.events.len() { i + n - 1 } else { h.events.len() as int };
        if j < h.events.len() {
            lemma_replay_step(h.base, h.events, j);
        }
    }
}

/// Round trip: from a session with every recorded event applied, undoing
/// `n` times and then redoing `n` times gives back the same session, frames
/// included, pixel for pixel.
pub proof fn lemma_round_trip(h: HistoryModel, n: nat)
    requires
        h.wf(),
        h.index == h.events.len(),
    ensures
        redo_times(undo_times(h, n), n) == h,
{
    lemma_undo_times(h, n);
    let i = if h.index >= n { h.index - n } else { 0 };
    lemma_redo_times(h, i, n);
    assert(at_index(h, h.events.len() as int) == h);
}

/// Submitting a valid event keeps a session well formed, and leaves every
/// recorded event applied.
pub proof fn lemma_submit_wf(h: HistoryModel, e: EventModel)
    requires
        h.wf(),
        event_valid(h.frames, e),
    ensures
        submit(h, e).wf(),
        submit(h, e).index == submit(h, e).events.len(),
{
    lemma_replay_wf(h.base, h.events, h.index);
    lemma_log_valid_prefix(h.base, h.events, h.index);
    lemma_take_all(h.events.take(h.index));
    lemma_log_valid_push(h.base, h.events.take(h.index), e);
    let pushed = h.events.take(h.index).push(e);
    lemma_condense(h.base, pushed);
    lemma_take_all(condense(pushed));
}

/// Branch cut: after one undo and a new submitted event, redo changes
/// nothing; when the new event is not a single-pixel change, the log holds
/// the events it held before the undo, less those discarded, plus one.
pub proof fn lemma_branch_cut(h: HistoryModel, e: EventModel)
    requires
        h.wf(),
        event_valid(undo(h).frames, e),
    ensures
        redo(submit(undo(h), e)) == submit(undo(h), e),
        !e.is_single_pixel() ==> submit(undo(h), e).events.len() == h.events.len() - (
        h.events.len() - undo(h).index) + 1,
{
    let u = undo(h);
    if h.index > 0 {
        lemma_log_valid_prefix(h.base, h.events, h.index - 1);
    }
    assert(u.wf());
    lemma_submit_wf(u, e);
    let pushed = u.events.take(u.index).push(e);
    if !e.is_single_pixel() {
        assert(!condensable(pushed)) by {
            if pushed.len() >= 5 {
                assert(!joins(pushed[pushed.len() - 1], pushed.last()));
            }
        }
    }
}

/// A single-pixel change does not disturb the validity of another one.
proof fn lemma_pixels_keep_valid(s: crate::event::Frames, a: EventModel, b: EventModel)
    requires
        s.wf(),
        a is PixelsChange,
        b is PixelsChange,
        event_valid(s, a),
        event_valid(s, b),
    ensures
        event_valid(apply(s, a), b),
        apply(s, a).wf(),
{
    lemma_apply_wf(s, a);
    let t = apply(s, a);
    assert(t.rasters.len() == s.rasters.len());
    assert(t.rasters[0].palette == s.rasters[0].palette);
    assert(t.rasters[b->PixelsChange_frame].pixels.len() == s.rasters[b->PixelsChange_frame].pixels.len());
}

/// Condensation: from a session with every recorded event applied whose log
/// does not end in a single-pixel change, five single-pixel changes of one
/// frame with one color add exactly one event to the log, which sets their
/// five pixels; a sixth such change is then recorded as an event of its own.
pub proof fn lemma_condensation(h: HistoryModel, es: Seq<EventModel>)
    requires
        h.wf(),
        h.index == h.events.len(),
        h.events.len() == 0 || !h.events.last().is_single_pixel(),
        es.len() == 6,
        forall|k: int| 0 <= k < 6 ==> joins(#[trigger] es[k], es[0]),
        forall|k: int| 0 <= k < 6 ==> event_valid(h.frames, #[trigger] es[k]),
    ensures
        ({
            let s1 = submit(h, es[0]);
            let s2 = submit(s1, es[1]);
            let s3 = submit(s2, es[2]);
            let s4 = submit(s3, es[3]);
            let s5 = submit(s4, es[4]);
            let s6 = submit(s5, es[5]);
            &&& s5.events.len() == h.events.len() + 1
            &&& s5.index == s5.events.len()
            &&& s5.events.last()->PixelsChange_pixels =~= seq![
                es[4]->PixelsChange_pixels[0],
                es[3]->PixelsChange_pixels[0],
                es[2]->PixelsChange_pixels[0],
                es[1]->PixelsChange_pixels[0],
                es[0]->PixelsChange_pixels[0],
            ]
            &&& s5.events.last() == (EventModel::PixelsChange {
                frame: es[0]->PixelsChange_frame,
                pixels: seq![
                    es[4]->PixelsChange_pixels[0],
                    es[3]->PixelsChange_pixels[0],
                    es[2]->PixelsChange_pixels[0],
                    es[1]->PixelsChange_pixels[0],
                    es[0]->PixelsChange_pixels[0],
                ],
                color: es[0]->PixelsChange_color,
            })
            &&& s6.events.len() == h.events.len() + 2
            &&& s6.index == s6.events.len()
            &&& s6.events.last() == es[5]
        }),
{
    let n = h.events.len();
    lemma_replay_wf(h.base, h.events, h.index);
    let s1 = submit(h, es[0]);
    let s2 = submit(s1, es[1]);
    let s3 = submit(s2, es[2]);
    let s4 = submit(s3, es[3]);
    let s5 = submit(s4, es[4]);
    let s6 = submit(s5, es[5]);
    assert(joins(es[0], es[0]));
    assert(joins(es[1], es[0]));
    assert(joins(es[2], es[0]));
    assert(joins(es[3], es[0]));
    assert(joins(es[4], es[0]));
    assert(joins(es[5], es[0]));
    assert(event_valid(h.frames, es[0]));
    assert(event_valid(h.frames, es[1]));
    assert(event_valid(h.frames, es[2]));
    assert(event_valid(h.frames, es[3]));
    assert(event_valid(h.frames, es[4]));
    assert(event_valid(h.frames, es[5]));
    // First submit: the log had no single-pixel tail.
    lemma_submit_wf(h, es[0]);
    let log1 = h.events.take(n as int).push(es[0]);
    lemma_take_all(h.events);
    assert(!condensable(log1)) by {
        if log1.len() >= 5 {
            assert(!joins(log1[log1.len() - 2], log1.last()));
        }
    }
    assert(s1.events == log1);
    lemma_pixels_keep_valid(h.frames, es[0], es[1]);
    lemma_pixels_keep_valid(h.frames, es[0], es[2]);
    lemma_pixels_keep_valid(h.frames, es[0], es[3]);
    lemma_pixels_keep_valid(h.frames, es[0], es[4]);
    lemma_pixels_keep_valid(h.frames, es[0], es[5]);
    // Second.
    lemma_submit_wf(s1, es[1]);
    lemma_take_all(s1.events);
    let log2 = log1.push(es[1]);
    assert(!condensable(log2)) by {
        if log2.len() >= 5 {
            assert(!joins(log2[log2.len() - 3], log2.last()));
        }
    }
    assert(s2.events == log2);
    lemma_pixels_keep_valid(s1.frames, es[1], es[2]);
    lemma_pixels_keep_valid(s1.frames, es[1], es[3]);
    lemma_pixels_keep_valid(s1.frames, es[1], es[4]);
    lemma_pixels_keep_valid(s1.frames, es[1], es[5]);
    // Third.
    lemma_submit_wf(s2, es[2]);
    lemma_take_all(s2.events);
    let log3 = log2.push(es[2]);
    assert(!condensable(log3)) by {
        if log3.len() >= 5 {
            assert(!joins(log3[log3.len() - 4], log3.last()));
        }
    }
    assert(s3.events == log3);
    lemma_pixels_keep_valid(s2.frames, es[2], es[3]);
    lemma_pixels_keep_valid(s2.frames, es[2], es[4]);
    lemma_pixels_keep_valid(s2.frames, es[2], es[5]);
    // Fourth.
    lemma_submit_wf(s3, es[3]);
    lemma_take_all(s3.events);
    let log4 = log3.push(es[3]);
    assert(!condensable(log4)) by {
        if log4.len() >= 5 {
            assert(log4[log4.len() - 5] == h.events.last());
            assert(!joins(log4[log4.len() - 5], log4.last()));
        }
    }
    assert(s4.events == log4);
    lemma_pixels_keep_valid(s3.frames, es[3], es[4]);
    lemma_pixels_keep_valid(s3.frames, es[3], es[5]);
    // Fifth: the five single-pixel changes merge.
    lemma_submit_wf(s4, es[4]);
    lemma_take_all(s4.events);
    let log5 = log4.push(es[4]);
    assert(condensable(log5)) by {
        assert forall|j: int| log5.len() - 5 <= j < log5.len() implies joins(
            #[trigger] log5[j],
            log5.last(),
        ) by {
            assert(log5[j] == es[j - n]);
        }
    }
    assert(s5.events == log5.take(log5.len() - 5).push(crate::history::merged(log5)));
    assert(log5[log5.len() - 1] == es[4]);
    assert(log5[log5.len() - 2] == es[3]);
    assert(log5[log5.len() - 3] == es[2]);
    assert(log5[log5.len() - 4] == es[1]);
    assert(log5[log5.len() - 5] == es[0]);
    assert(s5.events.last()->PixelsChange_pixels =~= seq![
        es[4]->PixelsChange_pixels[0],
        es[3]->PixelsChange_pixels[0],
        es[2]->PixelsChange_pixels[0],
        es[1]->PixelsChange_pixels[0],
        es[0]->PixelsChange_pixels[0],
    ]);
    lemma_pixels_keep_valid(s4.frames, es[4], es[5]);
    // Sixth: the merged change ends the log and is not single-pixel.
    lemma_submit_wf(s5, es[5]);
    lemma_take_all(s5.events);
    let log6 = s5.events.push(es[5]);
    assert(!condensable(log6)) by {
        if log6.len() >= 5 {
            assert(!joins(log6[log6.len() - 2], log6.last()));
        }
    }
}

/// Condensation from a fresh session: five single-pixel changes of one
/// frame with one color leave exactly one event in the log, applied, that
/// sets their five pixels with that color.
pub proof fn lemma_condensation_fresh(h: HistoryModel, es: Seq<EventModel>)
    requires
        h.wf(),
        h.events.len() == 0,
        es.len() == 5,
        forall|k: int| 0 <= k < 5 ==> joins(#[trigger] es[k], es[0]),
        forall|k: int| 0 <= k < 5 ==> event_valid(h.frames, #[trigger] es[k]),
    ensures
        ({
            let s5 = submit(submit(submit(submit(submit(h, es[0]), es[1]), es[2]), es[3]), es[4]);
            &&& s5.events.len() == 1
            &&& s5.index == 1
            &&& s5.events[0] == (EventModel::PixelsChange {
                frame: es[0]->PixelsChange_frame,
                pixels: seq![
                    es[4]->PixelsChange_pixels[0],
                    es[3]->PixelsChange_pixels[0],
                    es[2]->PixelsChange_pixels[0],
                    es[1]->PixelsChange_pixels[0],
                    es[0]->PixelsChange_pixels[0],
                ],
                color: es[0]->PixelsChange_color,
            })
        }),
{
    let six = es.push(es[0]);
    assert forall|k: int| 0 <= k < 6 implies joins(#[trigger] six[k], six[0]) by {
        assert(joins(es[0], es[0]));
    }
    assert forall|k: int| 0 <= k < 6 implies event_valid(h.frames, #[trigger] six[k]) by {}
    lemma_condensation(h, six);
    assert(six[0] == es[0] && six[1] == es[1] && six[2] == es[2] && six[3] == es[3] && six[4] == es[4]);
}

/// Palette propagation: a palette change gives every frame the new palette
/// and leaves every pixel as it was; undoing it restores every frame,
/// palette included.
pub proof fn lemma_palette_propagation(h: HistoryModel, colors: Seq<Color>)
    requires
        h.wf(),
        event_valid(h.frames, EventModel::PaletteChange { colors }),
    ensures
        ({
            let h2 = submit(h, EventModel::PaletteChange { colors });
            &&& h2.frames.rasters.len() == h.frames.rasters.len()
            &&& forall|i: int|
                0 <= i < h.frames.rasters.len() ==> (#[trigger] h2.frames.rasters[i]).palette == colors
                    && h2.frames.rasters[i].pixels == h.frames.rasters[i].pixels
                    && h2.frames.rasters[i].width == h.frames.rasters[i].width
                    && h2.frames.rasters[i].height == h.frames.rasters[i].height
            &&& undo(h2).frames == h.frames
        }),
{
    let e = EventModel::PaletteChange { colors };
    let pushed = h.events.take(h.index).push(e);
    assert(!condensable(pushed)) by {
        if pushed.len() >= 5 {
            assert(!joins(pushed[pushed.len() - 1], pushed.last()));
        }
    }
    lemma_submit_wf(h, e);
    let h2 = submit(h, e);
    assert(h2.events.take(h2.index - 1) =~= h.events.take(h.index));
}

/// One step between edge-sharing pixels of a one-color raster stays inside
/// a closed set.
proof fn lemma_fill_step(r: RasterModel, c: u8, s: Set<usize>, x: int, y: int, x2: int, y2: int)
    requires
        r.wf(),
        forall|i: int| 0 <= i < r.pixels.len() ==> #[trigger] r.pixels[i] == c,
        fill_closed(r, c, s),
        0 <= x < r.width && 0 <= y < r.height,
        0 <= x2 < r.width && 0 <= y2 < r.height,
        crate::fill::dist(x, x2) + crate::fill::dist(y, y2) == 1,
        s.contains((x + y * r.width) as usize),
    ensures
        s.contains((x2 + y2 * r.width) as usize),
{
    let w = r.width as int;
    let h = r.height as int;
    lemma_offset_coords(w, x, y);
    lemma_offset_coords(w, x2, y2);
    lemma_offset_in_range(w, h, x, y);
    lemma_offset_in_range(w, h, x2, y2);
    r.lemma_area_fits();
    let i = (x + y * w) as usize;
    let j = (x2 + y2 * w) as usize;
    assert(adjacent(w, h, i as int, j as int));
    assert(fill_step(r, c, i, j));
}

/// Along the row of a member of a closed set, a one-color raster's pixels
/// all belong to the set.
proof fn lemma_fill_row(r: RasterModel, c: u8, s: Set<usize>, x0: int, y: int, x: int)
    requires
        r.wf(),
        forall|i: int| 0 <= i < r.pixels.len() ==> #[trigger] r.pixels[i] == c,
        fill_closed(r, c, s),
        0 <= x0 < r.width && 0 <= y < r.height,
        0 <= x < r.width,
        s.contains((x0 + y * r.width) as usize),
    ensures
        s.contains((x + y * r.width) as usize),
    decreases crate::fill::dist(x, x0),
{
    if x < x0 {
        lemma_fill_row(r, c, s, x0, y, x + 1);
        lemma_fill_step(r, c, s, x + 1, y, x, y);
    } else if x > x0 {
        lemma_fill_row(r, c, s, x0, y, x - 1);
        lemma_fill_step(r, c, s, x - 1, y, x, y);
    }
}

/// Along the column of a member of a closed set, a one-color raster's
/// pixels all belong to the set.
proof fn lemma_fill_col(r: RasterModel, c: u8, s: Set<usize>, x: int, y0: int, y: int)
    requires
        r.wf(),
        forall|i: int| 0 <= i < r.pixels.len() ==> #[trigger] r.pixels[i] == c,
        fill_closed(r, c, s),
        0 <= x < r.width && 0 <= y0 < r.height,
        0 <= y < r.height,
        s.contains((x + y0 * r.width) as usize),
    ensures
        s.contains((x + y * r.width) as usize),
    decreases crate::fill::dist(y, y0),
{
    if y < y0 {
        lemma_fill_col(r, c, s, x, y0, y + 1);
        lemma_fill_step(r, c, s, x, y + 1, x, y);
    } else if y > y0 {
        lemma_fill_col(r, c, s, x, y0, y - 1);
        lemma_fill_step(r, c, s, x, y - 1, x, y);
    }
}

/// Flood fill on one color: when every pixel has the seed's color, the
/// region of the seed is every pixel of the raster.
pub proof fn lemma_uniform_region(r: RasterModel, seed: usize, s: Set<usize>)
    requires
        r.wf(),
        seed < r.pixels.len(),
        forall|i: int| 0 <= i < r.pixels.len() ==> #[trigger] r.pixels[i] == r.pixels[seed as int],
        is_region(r, seed, s),
    ensures
        s == Set::new(|i: usize| i < r.pixels.len()),
{
    let c = r.pixels[seed as int];
    let w = r.width as int;
    let h = r.height as int;
    assert(w > 0) by (nonlinear_arith)
        requires
            0 <= seed < w * h,
            w >= 0,
            h >= 0,
    ;
    lemma_coords_in_grid(w, h, seed as int);
    lemma_split(w, seed as int);
    let x0 = seed as int % w;
    let y0 = seed as int / w;
    assert(s.contains((x0 + y0 * w) as usize));
    assert forall|i: usize| i < r.pixels.len() implies #[trigger] s.contains(i) by {
        lemma_coords_in_grid(w, h, i as int);
        lemma_split(w, i as int);
        let x = i as int % w;
        let y = i as int / w;
        lemma_fill_row(r, c, s, x0, y0, x);
        lemma_fill_col(r, c, s, x, y0, y);
    }
    assert(s =~= Set::new(|i: usize| i < r.pixels.len()));
}

/// Painting pixels with the color they already hold, as a second fill of a
/// filled region does, leaves every frame as it was.
pub proof fn lemma_repaint_unchanged(s: crate::event::Frames, frame: int, pixels: Seq<usize>, color: u8)
    requires
        s.wf(),
        event_valid(s, EventModel::PixelsChange { frame, pixels, color }),
        forall|k: int|
            0 <= k < pixels.len() ==> s.rasters[frame].pixels[#[trigger] pixels[k] as int] == color,
    ensures
        apply(s, EventModel::PixelsChange { frame, pixels, color }) == s,
{
    let px = s.rasters[frame].pixels;
    let painted = crate::event::paint(px, pixels, color);
    assert forall|i: int| 0 <= i < px.len() implies painted[i] == px[i] by {
        if pixels.contains(i as usize) {
            let k = choose|k: int| 0 <= k < pixels.len() && pixels[k] == i as usize;
            s.rasters[frame].lemma_area_fits();
            assert(pixels[k] as int == i);
        }
    }
    assert(painted =~= px);
    assert(s.rasters[frame].with_pixels(px) == s.rasters[frame]);
    assert(s.rasters.update(frame, s.rasters[frame]) =~= s.rasters);
}

/// The offsets below `n` number `n`.
proof fn lemma_offsets_below(n: nat)
    requires
        n <= usize::MAX + 1,
    ensures
        Set::new(|i: usize| i < n).finite(),
        Set::new(|i: usize| i < n).len() == n,
    decreases n,
{
    if n == 0 {
        assert(Set::new(|i: usize| i < n) =~= Set::<usize>::empty());
    } else {
        lemma_offsets_below((n - 1) as nat);
        let last = (n - 1) as usize;
        assert(Set::new(|i: usize| i < n) =~= Set::new(|i: usize| i < (n - 1) as nat).insert(last));
    }
}

/// Flood fill of a one-color raster of two or more pixels, as `fill_pixels`
/// returns it: every offset of the raster, each exactly once.
pub proof fn lemma_uniform_fill(r: RasterModel, seed: usize, v: Seq<usize>)
    requires
        r.wf(),
        seed < r.pixels.len(),
        r.pixels.len() >= 2,
        forall|i: int| 0 <= i < r.pixels.len() ==> #[trigger] r.pixels[i] == r.pixels[seed as int],
        v.no_duplicates(),
        has_like_neighbour(r, seed) ==> is_region(r, seed, v.to_set()),
        !has_like_neighbour(r, seed) ==> v.len() == 0,
    ensures
        v.to_set() == Set::new(|i: usize| i < r.pixels.len()),
        v.len() == r.pixels.len(),
{
    let w = r.width as int;
    let h = r.height as int;
    let c = r.pixels[seed as int];
    r.lemma_area_fits();
    assert(w > 0) by (nonlinear_arith)
        requires
            0 <= seed < w * h,
            w >= 0,
            h >= 0,
    ;
    lemma_neighbours(w, h, seed as int);
    let x = seed as int % w;
    let y = seed as int / w;
    let j: int = if x > 0 {
        seed - 1
    } else if x + 1 < w {
        seed + 1
    } else if y > 0 {
        seed - w
    } else {
        seed + w
    };
    assert(x > 0 || x + 1 < w || y > 0 || y + 1 < h) by {
        if !(x > 0 || x + 1 < w) {
            assert(w == 1);
            assert(h >= 2) by (nonlinear_arith)
                requires
                    w == 1,
                    w * h >= 2,
            ;
        }
    }
    assert(adjacent(w, h, seed as int, j));
    assert(fill_step(r, c, seed, j as usize));
    assert(has_like_neighbour(r, seed));
    lemma_uniform_region(r, seed, v.to_set());
    v.unique_seq_to_set();
    lemma_offsets_below(r.pixels.len());
}

/// A second fill with the same color: submitting a change of frame `f`'s
/// pixels to the color that every one of them already holds records the
/// event and leaves every frame as it was.
pub proof fn lemma_refill_unchanged(h: HistoryModel, f: int, pixels: Seq<usize>, color: u8)
    requires
        h.wf(),
        event_valid(h.frames, EventModel::PixelsChange { frame: f, pixels, color }),
        forall|i: int|
            0 <= i < h.frames.rasters[f].pixels.len() ==> #[trigger] h.frames.rasters[f].pixels[i]
                == color,
    ensures
        submit(h, EventModel::PixelsChange { frame: f, pixels, color }).frames == h.frames,
        submit(h, EventModel::PixelsChange { frame: f, pixels, color }).wf(),
{
    lemma_replay_wf(h.base, h.events, h.index);
    lemma_submit_wf(h, EventModel::PixelsChange { frame: f, pixels, color });
    assert forall|k: int| 0 <= k < pixels.len() implies h.frames.rasters[f].pixels[#[trigger] pixels[k] as int]
        == color by {
        assert(pixels[k] < h.frames.rasters[f].pixels.len());
    }
    lemma_repaint_unchanged(h.frames, f, pixels, color);
}

} // verus!
