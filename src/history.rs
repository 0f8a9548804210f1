use crate::event::{
    EditEvent, EventModel, Frames, apply, apply_event, event_valid, frames_of, lemma_apply_wf,
    paint,
};
use crate::transform::{Transform, fits, is_transformed, transform};
use crate::fill::{fill_pixels, fill_step, has_like_neighbour, is_region, fill_closed};
use crate::shapes::{
    circle_outline, inner_circle_outline, ellipse_outline, outer_ellipse_outline, line_outline,
    offsets_of, rect_offsets, rounds_root, sq_dist, is_line_path,
};
use crate::raster::{
    Color, Raster, RasterModel, all_below_slice, area, copy_bytes, copy_colors, indices_below,
    lemma_offset_in_range, same_colors, zeroes,
};
use vstd::prelude::*;

verus! {

/// The frames obtained by applying `es`, in order, to the frames `base`
/// with the first one active.
pub open spec fn replay(base: Seq<RasterModel>, es: Seq<EventModel>) -> Frames
    decreases es.len(),
{
    if es.len() == 0 {
        Frames { rasters: base, active: 0 }
    } else {
        apply(replay(base, es.drop_last()), es.last())
    }
}

/// Each event of `es` is valid on the frames that the events before it
/// produce.
pub open spec fn log_valid(base: Seq<RasterModel>, es: Seq<EventModel>) -> bool {
    forall|i: int| 0 <= i < es.len() ==> event_valid(#[trigger] replay(base, es.take(i)), es[i])
}

/// Two single-pixel changes of one frame with one color.
pub open spec fn joins(a: EventModel, b: EventModel) -> bool {
    &&& a.is_single_pixel()
    &&& b.is_single_pixel()
    &&& a->PixelsChange_frame == b->PixelsChange_frame
    &&& a->PixelsChange_color == b->PixelsChange_color
}

/// The last five events are single-pixel changes of one frame with one color.
pub open spec fn condensable(es: Seq<EventModel>) -> bool {
    &&& es.len() >= 5
    &&& forall|j: int| es.len() - 5 <= j < es.len() ==> joins(#[trigger] es[j], es.last())
}

/// The pixel of the single-pixel change `es[j]`.
pub open spec fn pixel_at(es: Seq<EventModel>, j: int) -> usize {
    es[j]->PixelsChange_pixels[0]
}

/// One change that sets the pixels of the last five events, newest first.
pub open spec fn merged(es: Seq<EventModel>) -> EventModel {
    let n = es.len() as int;
    EventModel::PixelsChange {
        frame: es.last()->PixelsChange_frame,
        pixels: seq![
            pixel_at(es, n - 1),
            pixel_at(es, n - 2),
            pixel_at(es, n - 3),
            pixel_at(es, n - 4),
            pixel_at(es, n - 5),
        ],
        color: es.last()->PixelsChange_color,
    }
}

/// The log after compaction: five trailing single-pixel changes of one
/// frame and color become one change.
pub open spec fn condense(es: Seq<EventModel>) -> Seq<EventModel> {
    if condensable(es) {
        es.take(es.len() - 5).push(merged(es))
    } else {
        es
    }
}

/// The state of an editing session.
pub struct HistoryModel {
    /// The frames the session started from.
    pub base: Seq<RasterModel>,
    /// Every recorded event, applied or undone.
    pub events: Seq<EventModel>,
    /// How many events, from the start, are applied.
    pub index: int,
    /// The frames as they stand now.
    pub frames: Frames,
}

impl HistoryModel {
    pub open spec fn wf(self) -> bool {
        &&& (Frames { rasters: self.base, active: 0 }).wf()
        &&& 0 <= self.index <= self.events.len()
        &&& log_valid(self.base, self.events)
        &&& self.frames == replay(self.base, self.events.take(self.index))
    }
}

/// The session after `e` is submitted: the undone events are dropped, `e`
/// is applied and recorded, and the log is compacted.
pub open spec fn submit(h: HistoryModel, e: EventModel) -> HistoryModel {
    let es = condense(h.events.take(h.index).push(e));
    HistoryModel { base: h.base, events: es, index: es.len() as int, frames: apply(h.frames, e) }
}

/// `h2` is `h` after the active frame was rearranged by `t` and the result
/// recorded as a whole-image change.
pub open spec fn transform_step(h: HistoryModel, h2: HistoryModel, t: Transform) -> bool {
    let cur = h.frames.rasters[h.frames.active];
    exists|out: Seq<u8>|
        #[trigger] is_transformed(cur.pixels, out, cur.width as int, cur.height as int, t) && h2
            == submit(h, EventModel::Full { frame: h.frames.active, pixels: out })
}

/// The active frame is square.
pub open spec fn is_square(h: HistoryModel) -> bool {
    h.frames.rasters[0].width == h.frames.rasters[0].height
}

/// The session after one undo.
pub open spec fn undo(h: HistoryModel) -> HistoryModel {
    if h.index == 0 {
        h
    } else {
        HistoryModel {
            index: h.index - 1,
            frames: replay(h.base, h.events.take(h.index - 1)),
            ..h
        }
    }
}

/// The session after one redo.
pub open spec fn redo(h: HistoryModel) -> HistoryModel {
    if h.index >= h.events.len() {
        h
    } else {
        HistoryModel { index: h.index + 1, frames: apply(h.frames, h.events[h.index]), ..h }
    }
}

pub proof fn lemma_replay_step(base: Seq<RasterModel>, es: Seq<EventModel>, k: int)
    requires
        0 <= k < es.len(),
    ensures
        replay(base, es.take(k + 1)) == apply(replay(base, es.take(k)), es[k]),
{
    assert(es.take(k + 1).drop_last() =~= es.take(k));
}

pub proof fn lemma_replay_wf(base: Seq<RasterModel>, es: Seq<EventModel>, k: int)
    requires
        (Frames { rasters: base, active: 0 }).wf(),
        log_valid(base, es),
        0 <= k <= es.len(),
    ensures
        replay(base, es.take(k)).wf(),
    decreases k,
{
    if k == 0 {
        assert(es.take(0) =~= Seq::<EventModel>::empty());
    } else {
        lemma_replay_wf(base, es, k - 1);
        lemma_replay_step(base, es, k - 1);
        assert(event_valid(replay(base, es.take(k - 1)), es[k - 1]));
        lemma_apply_wf(replay(base, es.take(k - 1)), es[k - 1]);
    }
}

pub proof fn lemma_take_all(es: Seq<EventModel>)
    ensures
        es.take(es.len() as int) == es,
{
    assert(es.take(es.len() as int) =~= es);
}

pub proof fn lemma_log_valid_prefix(base: Seq<RasterModel>, es: Seq<EventModel>, n: int)
    requires
        log_valid(base, es),
        0 <= n <= es.len(),
    ensures
        log_valid(base, es.take(n)),
{
    assert forall|i: int| 0 <= i < es.take(n).len() implies event_valid(
        #[trigger] replay(base, es.take(n).take(i)),
        es.take(n)[i],
    ) by {
        assert(es.take(n).take(i) =~= es.take(i));
        assert(event_valid(replay(base, es.take(i)), es[i]));
    }
}

/// Recording `e` after the applied prefix keeps the log valid.
pub proof fn lemma_log_valid_push(base: Seq<RasterModel>, es: Seq<EventModel>, e: EventModel)
    requires
        log_valid(base, es),
        event_valid(replay(base, es), e),
    ensures
        log_valid(base, es.push(e)),
        replay(base, es.push(e)) == apply(replay(base, es), e),
{
    let p = es.push(e);
    assert forall|i: int| 0 <= i < p.len() implies event_valid(
        #[trigger] replay(base, p.take(i)),
        p[i],
    ) by {
        if i < es.len() {
            assert(p.take(i) =~= es.take(i));
            assert(event_valid(replay(base, es.take(i)), es[i]));
        } else {
            assert(p.take(i) =~= es);
        }
    }
    assert(p.drop_last() =~= es);
}

proof fn lemma_paint_single(pixels: Seq<u8>, a: Seq<usize>, p: usize, color: u8)
    requires
        p < pixels.len(),
        pixels.len() <= usize::MAX,
    ensures
        paint(paint(pixels, a, color), seq![p], color) == paint(pixels, a.push(p), color),
{
    let l = paint(paint(pixels, a, color), seq![p], color);
    let r = paint(pixels, a.push(p), color);
    assert forall|i: int| 0 <= i < pixels.len() implies l[i] == r[i] by {
        assert((i as usize) as int == i);
        if a.contains(i as usize) {
            let j = choose|j: int| 0 <= j < a.len() && a[j] == i as usize;
            assert(a.push(p)[j] == i as usize);
        }
        if a.push(p).contains(i as usize) {
            let j = choose|j: int| 0 <= j < a.len() + 1 && a.push(p)[j] == i as usize;
            if j < a.len() {
                assert(a[j] == i as usize);
            }
        }
        if i == p as int {
            assert(a.push(p)[a.len() as int] == p);
            assert(seq![p][0] == p);
        }
    }
    assert(l =~= r);
}

/// The first `k` of five condensable single-pixel events paint their pixels
/// onto the frames before them.
proof fn lemma_condense_walk(base: Seq<RasterModel>, es: Seq<EventModel>, k: int)
    requires
        (Frames { rasters: base, active: 0 }).wf(),
        log_valid(base, es),
        condensable(es),
        0 <= k <= 5,
    ensures
        ({
            let n = es.len() as int;
            let s0 = replay(base, es.take(n - 5));
            let f = es.last()->PixelsChange_frame;
            let c = es.last()->PixelsChange_color;
            let acc = Seq::new(k as nat, |j: int| pixel_at(es, n - 5 + j));
            &&& 0 <= f < s0.rasters.len()
            &&& forall|j: int| 0 <= j < k ==> #[trigger] acc[j] < s0.rasters[f].pixels.len()
            &&& replay(base, es.take(n - 5 + k)) == (Frames {
                rasters: s0.rasters.update(
                    f,
                    s0.rasters[f].with_pixels(paint(s0.rasters[f].pixels, acc, c)),
                ),
                active: s0.active,
            })
        }),
    decreases k,
{
    let n = es.len() as int;
    let s0 = replay(base, es.take(n - 5));
    let f = es.last()->PixelsChange_frame;
    let c = es.last()->PixelsChange_color;
    lemma_replay_wf(base, es, n - 5);
    assert(joins(es[n - 5], es.last()));
    assert(event_valid(s0, es[n - 5]));
    if k == 0 {
        let acc = Seq::new(0, |j: int| pixel_at(es, n - 5 + j));
        assert(paint(s0.rasters[f].pixels, acc, c) =~= s0.rasters[f].pixels);
        assert(s0.rasters.update(f, s0.rasters[f].with_pixels(s0.rasters[f].pixels))
            =~= s0.rasters);
    } else {
        lemma_condense_walk(base, es, k - 1);
        let prev = Seq::new((k - 1) as nat, |j: int| pixel_at(es, n - 5 + j));
        let acc = Seq::new(k as nat, |j: int| pixel_at(es, n - 5 + j));
        let cur = replay(base, es.take(n - 5 + k - 1));
        let e = es[n - 5 + k - 1];
        assert(joins(e, es.last()));
        assert(event_valid(cur, e));
        lemma_replay_step(base, es, n - 5 + k - 1);
        lemma_replay_wf(base, es, n - 5);
        let p = pixel_at(es, n - 5 + k - 1);
        assert(e->PixelsChange_pixels =~= seq![p]);
        assert(cur.rasters[f].pixels.len() == s0.rasters[f].pixels.len());
        assert(s0.rasters[f].wf());
        s0.rasters[f].lemma_area_fits();
        lemma_paint_single(s0.rasters[f].pixels, prev, p, c);
        assert(prev.push(p) =~= acc);
        assert(replay(base, es.take(n - 5 + k)).rasters =~= s0.rasters.update(
            f,
            s0.rasters[f].with_pixels(paint(s0.rasters[f].pixels, acc, c)),
        ));
    }
}

/// Replaying the compacted log gives the same frames, and the compacted log
/// stays valid.
pub proof fn lemma_condense(base: Seq<RasterModel>, es: Seq<EventModel>)
    requires
        (Frames { rasters: base, active: 0 }).wf(),
        log_valid(base, es),
    ensures
        log_valid(base, condense(es)),
        replay(base, condense(es)) == replay(base, es),
{
    if condensable(es) {
        let n = es.len() as int;
        let m = merged(es);
        let f = es.last()->PixelsChange_frame;
        let c = es.last()->PixelsChange_color;
        let s0 = replay(base, es.take(n - 5));
        lemma_replay_wf(base, es, n - 5);
        lemma_condense_walk(base, es, 5);
        let acc = Seq::new(5, |j: int| pixel_at(es, n - 5 + j));
        lemma_take_all(es);
        let painted = paint(s0.rasters[f].pixels, acc, c);
        let mp = m->PixelsChange_pixels;
        assert(paint(s0.rasters[f].pixels, mp, c) =~= painted) by {
            assert forall|i: int| 0 <= i < s0.rasters[f].pixels.len() implies #[trigger] acc.contains(
                i as usize,
            ) == mp.contains(i as usize) by {
                if acc.contains(i as usize) {
                    let j = choose|j: int| 0 <= j < 5 && acc[j] == i as usize;
                    assert(mp[4 - j] == acc[j]);
                }
                if mp.contains(i as usize) {
                    let j = choose|j: int| 0 <= j < 5 && mp[j] == i as usize;
                    assert(mp[j] == acc[4 - j]);
                }
            }
        }
        let ces = condense(es);
        assert(ces.take(n - 5) =~= es.take(n - 5));
        assert(event_valid(s0, m)) by {
            assert forall|k2: int| 0 <= k2 < mp.len() implies (#[trigger] mp[k2])
                < s0.rasters[f].pixels.len() by {
                assert(mp[k2] == acc[4 - k2]);
            }
            assert(joins(es[n - 1], es.last()));
            assert(event_valid(replay(base, es.take(n - 1)), es[n - 1]));
            lemma_replay_wf(base, es, n - 1);
        }
        lemma_log_valid_prefix(base, es, n - 5);
        lemma_log_valid_push(base, es.take(n - 5), m);
        assert(apply(s0, m).rasters =~= replay(base, es).rasters);
    }
}

/// Why an edit could not be made.
#[derive(Clone, Copy, Debug, PartialEq, Eq, Structural)]
pub enum EditError {
    /// A coordinate lies outside the raster.
    OutOfBounds,
    /// A color index or palette does not fit the frames' palette.
    ColorIndexOutOfRange,
    /// The operation needs a square raster.
    NotSquare,
    /// A pixel buffer does not hold one entry per pixel.
    WrongPixelCount,
}

/// The undo/redo engine of an editing session.
#[derive(Debug)]
pub struct EditHistory {
    base_images: Vec<Raster>,
    edited_images: Vec<Raster>,
    events: Vec<EditEvent>,
    index: usize,
    active_frame: usize,
}

pub open spec fn views(rs: Seq<Raster>) -> Seq<RasterModel> {
    rs.map_values(|r: Raster| r@)
}

pub open spec fn event_views(es: Seq<EditEvent>) -> Seq<EventModel> {
    es.map_values(|e: EditEvent| e@)
}

impl View for EditHistory {
    type V = HistoryModel;

    closed spec fn view(&self) -> HistoryModel {
        HistoryModel {
            base: views(self.base_images@),
            events: event_views(self.events@),
            index: self.index as int,
            frames: frames_of(self.edited_images@, self.active_frame),
        }
    }
}

/// A frame set that a session can start from: at least one frame, all of
/// one size and one non-empty palette.
pub open spec fn frame_set_valid(images: Seq<RasterModel>) -> bool {
    (Frames { rasters: images, active: 0 }).wf()
}

fn copy_rasters(v: &Vec<Raster>) -> (r: Vec<Raster>)
    ensures
        views(r@) == views(v@),
{
    let mut out: Vec<Raster> = Vec::new();
    let mut i: usize = 0;
    while i < v.len()
        invariant
            i <= v@.len(),
            out@.len() == i,
            forall|j: int| 0 <= j < i ==> (#[trigger] out@[j])@ == v@[j]@,
        decreases v.len() - i,
    {
        out.push(v[i].duplicate());
        i += 1;
    }
    assert(views(out@) =~= views(v@));
    out
}

/// Whether `images` can start a session.
pub fn is_valid_frame_set(images: &Vec<Raster>) -> (r: bool)
    ensures
        r == frame_set_valid(views(images@)),
{
    let ghost vs = views(images@);
    if images.len() == 0 {
        return false;
    }
    let first = &images[0];
    assert(vs[0] == first@);
    if first.get_palette().len() == 0 {
        return false;
    }
    let mut i: usize = 0;
    while i < images.len()
        invariant
            0 < images@.len(),
            i <= images@.len(),
            vs == views(images@),
            first@ == vs[0],
            first@.palette.len() > 0,
            forall|j: int|
                0 <= j < i ==> {
                    &&& (#[trigger] vs[j]).wf()
                    &&& vs[j].width == first@.width
                    &&& vs[j].height == first@.height
                    &&& vs[j].palette == first@.palette
                },
        decreases images.len() - i,
    {
        let img = &images[i];
        assert(vs[i as int] == img@);
        if img.width() != first.width() || img.height() != first.height() {
            return false;
        }
        if !crate::raster::same_colors(img.get_palette(), first.get_palette()) {
            return false;
        }
        if img.get_pixels().len() != crate::raster::area(img.width(), img.height()) {
            return false;
        }
        let pixels = img.get_pixels();
        if !crate::raster::all_below_slice(pixels, img.get_palette().len()) {
            return false;
        }
        i += 1;
    }
    true
}

impl EditHistory {
    pub open spec fn wf(&self) -> bool {
        self@.wf()
    }

    /// Starts a session on `base_images`, the first frame active and no
    /// events recorded.
    pub fn new(base_images: Vec<Raster>) -> (r: EditHistory)
        requires
            frame_set_valid(views(base_images@)),
        ensures
            r.wf(),
            r@.base == views(base_images@),
            r@.events.len() == 0,
            r@.index == 0,
            r@.frames == (Frames { rasters: views(base_images@), active: 0 }),
    {
        let edited_images = copy_rasters(&base_images);
        let r = EditHistory {
            base_images,
            edited_images,
            events: Vec::new(),
            index: 0,
            active_frame: 0,
        };
        assert(r@.events.take(0) =~= Seq::<EventModel>::empty());
        r
    }

    /// Replays the applied events on a fresh copy of the base frames.
    fn rebuild_current_image(&mut self)
        requires
            (Frames { rasters: views(old(self).base_images@), active: 0 }).wf(),
            log_valid(views(old(self).base_images@), event_views(old(self).events@)),
            old(self).index <= old(self).events@.len(),
        ensures
            final(self)@ == (HistoryModel {
                frames: replay(old(self)@.base, old(self)@.events.take(old(self)@.index)),
                ..old(self)@
            }),
    {
        self.edited_images = copy_rasters(&self.base_images);
        self.active_frame = 0;
        let ghost base = views(self.base_images@);
        let ghost es = event_views(self.events@);
        assert(es.take(0) =~= Seq::<EventModel>::empty());
        let mut k: usize = 0;
        while k < self.index
            invariant
                k <= self.index,
                self.index == old(self).index,
                self.index <= self.events@.len(),
                self.base_images == old(self).base_images,
                self.events == old(self).events,
                base == views(self.base_images@),
                es == event_views(self.events@),
                (Frames { rasters: base, active: 0 }).wf(),
                log_valid(base, es),
                frames_of(self.edited_images@, self.active_frame) == replay(
                    base,
                    es.take(k as int),
                ),
            decreases self.index - k,
        {
            proof {
                lemma_replay_wf(base, es, k as int);
                assert(event_valid(replay(base, es.take(k as int)), es[k as int]));
                lemma_replay_step(base, es, k as int);
            }
            apply_event(&mut self.edited_images, &mut self.active_frame, &self.events[k]);
            k += 1;
        }
    }

    /// Steps back one event; a no-op when nothing is applied.
    pub fn undo(&mut self) -> (r: Result<(), EditError>)
        requires
            old(self).wf(),
        ensures
            r is Ok,
            final(self).wf(),
            final(self)@ == undo(old(self)@),
    {
        if self.index >= 1 {
            self.index -= 1;
            proof {
                lemma_log_valid_prefix(self@.base, self@.events, self@.index);
            }
            self.rebuild_current_image();
        }
        Ok(())
    }

    /// Reapplies the next undone event; a no-op when there is none.
    pub fn redo(&mut self) -> (r: Result<(), EditError>)
        requires
            old(self).wf(),
        ensures
            r is Ok,
            final(self).wf(),
            final(self)@ == redo(old(self)@),
    {
        if self.index < self.events.len() {
            let ghost h = self@;
            proof {
                lemma_replay_wf(h.base, h.events, h.index);
                assert(event_valid(replay(h.base, h.events.take(h.index)), h.events[h.index]));
                lemma_replay_step(h.base, h.events, h.index);
            }
            apply_event(&mut self.edited_images, &mut self.active_frame, &self.events[self.index]);
            self.index += 1;
        }
        Ok(())
    }

    /// Records and applies `event`: undone events are dropped first, and
    /// the log is compacted afterwards.
    pub fn add_event(&mut self, event: EditEvent)
        requires
            old(self).wf(),
            event_valid(old(self)@.frames, event@),
        ensures
            final(self).wf(),
            final(self)@ == submit(old(self)@, event@),
    {
        let ghost h = self@;
        if self.index < self.events.len() {
            self.events.truncate(self.index);
        }
        assert(event_views(self.events@) =~= h.events.take(h.index));
        proof {
            lemma_replay_wf(h.base, h.events, h.index);
            lemma_log_valid_prefix(h.base, h.events, h.index);
            lemma_take_all(h.events.take(h.index));
            lemma_log_valid_push(h.base, h.events.take(h.index), event@);
        }
        apply_event(&mut self.edited_images, &mut self.active_frame, &event);
        self.events.push(event);
        let ghost pushed = h.events.take(h.index).push(event@);
        assert(event_views(self.events@) =~= pushed);
        condense_pencil_events(&mut self.events);
        proof {
            lemma_condense(h.base, pushed);
            lemma_take_all(condense(pushed));
        }
        self.index = self.events.len();
    }
}

/// The offsets `0 .. n`, in order.
fn all_offsets(n: usize) -> (r: Vec<usize>)
    ensures
        r@ == Seq::new(n as nat, |i: int| i as usize),
{
    let mut v: Vec<usize> = Vec::new();
    let mut i: usize = 0;
    while i < n
        invariant
            i <= n,
            v@ == Seq::new(i as nat, |j: int| j as usize),
        decreases n - i,
    {
        v.push(i);
        i += 1;
        assert(v@ =~= Seq::new(i as nat, |j: int| j as usize));
    }
    v
}

/// The frame, pixel and color of a single-pixel change.
fn single_pixel(e: &EditEvent) -> (r: Option<(usize, usize, u8)>)
    ensures
        r is Some <==> e@.is_single_pixel(),
        r matches Some((f, p, c)) ==> f == e@->PixelsChange_frame && p
            == e@->PixelsChange_pixels[0] && c == e@->PixelsChange_color,
{
    match e {
        EditEvent::PixelsChange { frame, pixel_idxs, color_idx } => {
            if pixel_idxs.len() == 1 {
                Some((*frame, pixel_idxs[0], *color_idx))
            } else {
                None
            }
        },
        _ => None,
    }
}

/// Merges the last five events when they are single-pixel changes of one
/// frame with one color.
fn condense_pencil_events(events: &mut Vec<EditEvent>)
    ensures
        event_views(final(events)@) == condense(event_views(old(events)@)),
{
    let ghost es = event_views(events@);
    let n = events.len();
    if n < 5 {
        return;
    }
    let last = single_pixel(&events[n - 1]);
    let (f, c) = match last {
        Some((f, _, c)) => (f, c),
        None => {
            assert(!joins(es[n - 1], es.last()));
            return;
        },
    };
    let mut pixels: Vec<usize> = Vec::new();
    let mut j: usize = n;
    while j > n - 5
        invariant
            n == events@.len(),
            n >= 5,
            es == event_views(events@),
            n - 5 <= j <= n,
            es.last().is_single_pixel(),
            f == es.last()->PixelsChange_frame,
            c == es.last()->PixelsChange_color,
            forall|i: int| j <= i < n ==> joins(#[trigger] es[i], es.last()),
            pixels@.len() == n - j,
            forall|i: int| 0 <= i < n - j ==> #[trigger] pixels@[i] == pixel_at(es, n - 1 - i),
        decreases j,
    {
        match single_pixel(&events[j - 1]) {
            Some((f2, p, c2)) => {
                if f2 != f || c2 != c {
                    assert(!joins(es[j - 1], es.last()));
                    return;
                }
                pixels.push(p);
            },
            None => {
                assert(!joins(es[j - 1], es.last()));
                return;
            },
        }
        j -= 1;
    }
    assert(condensable(es));
    let merged_event = EditEvent::PixelsChange { frame: f, pixel_idxs: pixels, color_idx: c };
    assert(merged_event@ == merged(es)) by {
        assert(pixels@ =~= merged(es)->PixelsChange_pixels);
    }
    events.truncate(n - 5);
    events.push(merged_event);
    assert(event_views(events@) =~= condense(es));
}

impl EditHistory {
    /// The frame being edited.
    pub fn get_current_image(&self) -> (r: &Raster)
        requires
            self.wf(),
        ensures
            r@ == self@.frames.rasters[self@.frames.active],
    {
        proof {
            lemma_replay_wf(self@.base, self@.events, self@.index);
        }
        &self.edited_images[self.active_frame]
    }

    /// Frame `idx`.
    pub fn get_image(&self, idx: usize) -> (r: &Raster)
        requires
            self.wf(),
            idx < self@.frames.rasters.len(),
        ensures
            r@ == self@.frames.rasters[idx as int],
    {
        &self.edited_images[idx]
    }

    /// Whether no event has been recorded.
    pub fn is_empty(&self) -> (r: bool)
        ensures
            r == (self@.events.len() == 0),
    {
        self.events.len() == 0
    }

    /// A copy of every frame.
    pub fn get_images(&self) -> (r: Vec<Raster>)
        ensures
            views(r@) == self@.frames.rasters,
    {
        copy_rasters(&self.edited_images)
    }

    pub fn active_frame(&self) -> (r: usize)
        ensures
            r == self@.frames.active,
    {
        self.active_frame
    }

    pub fn frame_count(&self) -> (r: usize)
        ensures
            r == self@.frames.rasters.len(),
    {
        self.edited_images.len()
    }

    /// How many events, from the start, are applied.
    pub fn index(&self) -> (r: usize)
        ensures
            r == self@.index,
    {
        self.index
    }

    /// Every recorded event, applied or undone.
    pub fn events(&self) -> (r: &[EditEvent])
        ensures
            event_views(r@) == self@.events,
    {
        self.events.as_slice()
    }

    /// The frames the session started from.
    pub fn base_images(&self) -> (r: &[Raster])
        ensures
            views(r@) == self@.base,
    {
        self.base_images.as_slice()
    }

    /// The frames as they stand now.
    pub fn edited_images(&self) -> (r: &[Raster])
        ensures
            views(r@) == self@.frames.rasters,
    {
        self.edited_images.as_slice()
    }

    /// The color of the one pixel that the only recorded event sets, when
    /// the log holds a single one-pixel change.
    pub fn is_first_event(&self) -> (r: Option<Color>)
        requires
            self.wf(),
        ensures
            r == (if self@.events.len() == 1 && self@.events[0].is_single_pixel() {
                Some(self@.frames.palette()[self@.events[0]->PixelsChange_color as int])
            } else {
                None::<Color>
            }),
    {
        if self.events.len() == 1 {
            if let Some((_, _, c)) = single_pixel(&self.events[0]) {
                let ghost h = self@;
                proof {
                    assert(h.events.take(0) =~= Seq::<EventModel>::empty());
                    assert(event_valid(replay(h.base, h.events.take(0)), h.events[0]));
                    lemma_replay_wf(h.base, h.events, h.index);
                    if h.index == 1 {
                        lemma_replay_step(h.base, h.events, 0);
                    }
                    assert(h.frames.palette() == h.base[0].palette);
                }
                let img = &self.edited_images[0];
                assert(img@ == self@.frames.rasters[0]);
                let color = img.get_palette()[c as usize];
                return Some(color);
            }
        }
        None
    }

    /// Sets the pixel at `xy` of the active frame to `color`; a no-op when
    /// it already has that color.
    pub fn add_pencil(&mut self, xy: (u8, u8), color: u8) -> (r: Result<(), EditError>)
        requires
            old(self).wf(),
        ensures
            final(self).wf(),
            ({
                let h = old(self)@;
                let cur = h.frames.rasters[h.frames.active];
                let inside = xy.0 < cur.width && xy.1 < cur.height;
                let off = cur.offset(xy.0 as int, xy.1 as int);
                &&& !inside ==> r == Err::<(), EditError>(EditError::OutOfBounds)
                    && final(self)@ == h
                &&& inside && cur.pixels[off] == color ==> r is Ok && final(self)@ == h
                &&& inside && cur.pixels[off] != color && color >= h.frames.palette().len()
                    ==> r == Err::<(), EditError>(EditError::ColorIndexOutOfRange)
                    && final(self)@ == h
                &&& inside && cur.pixels[off] != color && color < h.frames.palette().len()
                    ==> r is Ok && final(self)@ == submit(
                    h,
                    EventModel::PixelsChange {
                        frame: h.frames.active,
                        pixels: seq![off as usize],
                        color,
                    },
                )
            }),
    {
        let ghost h = self@;
        proof {
            lemma_replay_wf(h.base, h.events, h.index);
        }
        let img = &self.edited_images[self.active_frame];
        assert(img@ == h.frames.rasters[h.frames.active]);
        let i = match img.get_pixel_index(xy.0, xy.1) {
            Ok(i) => i,
            Err(_) => {
                return Err(EditError::OutOfBounds);
            },
        };
        proof {
            lemma_offset_in_range(img@.width as int, img@.height as int, xy.0 as int, xy.1 as int);
        }
        if img.get_pixels()[i] == color {
            return Ok(());
        }
        if color as usize >= img.get_palette().len() {
            return Err(EditError::ColorIndexOutOfRange);
        }
        let mut pixel_idxs: Vec<usize> = Vec::new();
        pixel_idxs.push(i);
        let event = EditEvent::PixelsChange { frame: self.active_frame, pixel_idxs, color_idx: color };
        assert(event@.is_single_pixel());
        assert(event@ == EventModel::PixelsChange {
            frame: h.frames.active,
            pixels: seq![i],
            color,
        }) by {
            assert(pixel_idxs@ =~= seq![i]);
        }
        self.add_event(event);
        Ok(())
    }

    /// Sets every pixel of the active frame to palette entry 0.
    pub fn add_clear(&mut self) -> (r: Result<(), EditError>)
        requires
            old(self).wf(),
        ensures
            final(self).wf(),
            r is Ok,
            final(self)@ == submit(
                old(self)@,
                EventModel::PixelsChange {
                    frame: old(self)@.frames.active,
                    pixels: Seq::new(old(self)@.frames.area(), |i: int| i as usize),
                    color: 0,
                },
            ),
    {
        let ghost h = self@;
        proof {
            lemma_replay_wf(h.base, h.events, h.index);
        }
        let img = &self.edited_images[0];
        assert(img@ == h.frames.rasters[0]);
        let size = area(img.width(), img.height());
        let pixel_idxs = all_offsets(size);
        let event = EditEvent::PixelsChange { frame: self.active_frame, pixel_idxs, color_idx: 0 };
        self.add_event(event);
        Ok(())
    }

    /// Gives every frame the palette `colors`; a no-op when it already is
    /// the palette. Refused when some pixel would name a missing entry.
    pub fn add_palette_change(&mut self, colors: &[Color]) -> (r: Result<(), EditError>)
        requires
            old(self).wf(),
        ensures
            final(self).wf(),
            ({
                let h = old(self)@;
                let fits = colors@.len() > 0 && forall|i: int|
                    0 <= i < h.frames.rasters.len() ==> indices_below(
                        #[trigger] h.frames.rasters[i].pixels,
                        colors@.len(),
                    );
                &&& colors@ == h.frames.palette() ==> r is Ok && final(self)@ == h
                &&& colors@ != h.frames.palette() && !fits ==> r == Err::<(), EditError>(
                    EditError::ColorIndexOutOfRange,
                ) && final(self)@ == h
                &&& colors@ != h.frames.palette() && fits ==> r is Ok && final(self)@ == submit(
                    h,
                    EventModel::PaletteChange { colors: colors@ },
                )
            }),
    {
        let ghost h = self@;
        proof {
            lemma_replay_wf(h.base, h.events, h.index);
        }
        assert(self.edited_images@[0]@ == h.frames.rasters[0]);
        if same_colors(self.edited_images[0].get_palette(), colors) {
            return Ok(());
        }
        if colors.len() == 0 {
            return Err(EditError::ColorIndexOutOfRange);
        }
        let n = self.edited_images.len();
        let mut i: usize = 0;
        while i < n
            invariant
                self@ == h,
                h.wf(),
                colors@ != h.frames.palette(),
                colors@.len() > 0,
                n == h.frames.rasters.len(),
                i <= n,
                forall|j: int|
                    0 <= j < i ==> indices_below(
                        #[trigger] h.frames.rasters[j].pixels,
                        colors@.len(),
                    ),
            decreases n - i,
        {
            let img = &self.edited_images[i];
            assert(img@ == h.frames.rasters[i as int]);
            if !all_below_slice(img.get_pixels(), colors.len()) {
                return Err(EditError::ColorIndexOutOfRange);
            }
            i += 1;
        }
        let event = EditEvent::PaletteChange(copy_colors(colors));
        self.add_event(event);
        Ok(())
    }

    /// Inserts a frame of palette entry 0 after the active one and makes it
    /// active.
    pub fn add_blank_frame(&mut self) -> (r: Result<(), EditError>)
        requires
            old(self).wf(),
        ensures
            final(self).wf(),
            r is Ok,
            final(self)@ == submit(
                old(self)@,
                EventModel::FrameAdd {
                    idx: old(self)@.frames.active,
                    content: Seq::new(old(self)@.frames.area(), |i: int| 0u8),
                },
            ),
    {
        let ghost h = self@;
        proof {
            lemma_replay_wf(h.base, h.events, h.index);
        }
        let img = &self.edited_images[0];
        assert(img@ == h.frames.rasters[0]);
        let content = zeroes(area(img.width(), img.height()));
        let event = EditEvent::FrameAdd { idx: self.active_frame, content };
        self.add_event(event);
        Ok(())
    }

    /// Inserts a copy of the active frame after it and makes the copy active.
    pub fn add_duplicate_frame(&mut self) -> (r: Result<(), EditError>)
        requires
            old(self).wf(),
        ensures
            final(self).wf(),
            r is Ok,
            final(self)@ == submit(
                old(self)@,
                EventModel::FrameAdd {
                    idx: old(self)@.frames.active,
                    content: old(self)@.frames.rasters[old(self)@.frames.active].pixels,
                },
            ),
    {
        let ghost h = self@;
        proof {
            lemma_replay_wf(h.base, h.events, h.index);
        }
        let img = &self.edited_images[self.active_frame];
        assert(img@ == h.frames.rasters[h.frames.active]);
        let content = copy_bytes(img.get_pixels());
        let event = EditEvent::FrameAdd { idx: self.active_frame, content };
        self.add_event(event);
        Ok(())
    }

    /// Deletes the active frame; a no-op when it is the only one.
    pub fn remove_frame(&mut self) -> (r: Result<(), EditError>)
        requires
            old(self).wf(),
        ensures
            final(self).wf(),
            r is Ok,
            old(self)@.frames.rasters.len() == 1 ==> final(self)@ == old(self)@,
            old(self)@.frames.rasters.len() > 1 ==> final(self)@ == submit(
                old(self)@,
                EventModel::FrameRemove { idx: old(self)@.frames.active },
            ),
    {
        let ghost h = self@;
        proof {
            lemma_replay_wf(h.base, h.events, h.index);
        }
        if self.edited_images.len() <= 1 {
            return Ok(());
        }
        self.add_event(EditEvent::FrameRemove(self.active_frame));
        Ok(())
    }

    /// Makes frame `idx` active; a no-op when it already is.
    pub fn add_frame_select(&mut self, idx: usize) -> (r: Result<(), EditError>)
        requires
            old(self).wf(),
        ensures
            final(self).wf(),
            idx == old(self)@.frames.active ==> r is Ok && final(self)@ == old(self)@,
            idx != old(self)@.frames.active && idx >= old(self)@.frames.rasters.len() ==> r
                == Err::<(), EditError>(EditError::OutOfBounds) && final(self)@ == old(self)@,
            idx != old(self)@.frames.active && idx < old(self)@.frames.rasters.len() ==> r is Ok
                && final(self)@ == submit(old(self)@, EventModel::FrameSelect { idx: idx as int }),
    {
        let ghost h = self@;
        proof {
            lemma_replay_wf(h.base, h.events, h.index);
        }
        if self.active_frame == idx {
            return Ok(());
        }
        if idx >= self.edited_images.len() {
            return Err(EditError::OutOfBounds);
        }
        self.add_event(EditEvent::FrameSelect(idx));
        Ok(())
    }

    /// Replaces the pixels of the active frame wholesale.
    pub fn add_full(&mut self, pixels: Vec<u8>) -> (r: Result<(), EditError>)
        requires
            old(self).wf(),
        ensures
            final(self).wf(),
            ({
                let h = old(self)@;
                &&& pixels@.len() != h.frames.area() ==> r == Err::<(), EditError>(
                    EditError::WrongPixelCount,
                ) && final(self)@ == h
                &&& pixels@.len() == h.frames.area() && !indices_below(
                    pixels@,
                    h.frames.palette().len(),
                ) ==> r == Err::<(), EditError>(EditError::ColorIndexOutOfRange) && final(self)@
                    == h
                &&& pixels@.len() == h.frames.area() && indices_below(
                    pixels@,
                    h.frames.palette().len(),
                ) ==> r is Ok && final(self)@ == submit(
                    h,
                    EventModel::Full { frame: h.frames.active, pixels: pixels@ },
                )
            }),
    {
        let ghost h = self@;
        proof {
            lemma_replay_wf(h.base, h.events, h.index);
        }
        let img = &self.edited_images[0];
        assert(img@ == h.frames.rasters[0]);
        if pixels.len() != area(img.width(), img.height()) {
            return Err(EditError::WrongPixelCount);
        }
        if !all_below_slice(pixels.as_slice(), img.get_palette().len()) {
            return Err(EditError::ColorIndexOutOfRange);
        }
        self.add_event(EditEvent::Full { frame: self.active_frame, pixels });
        Ok(())
    }
}

impl EditHistory {
    /// Records a change of the listed pixels of the active frame to `color`.
    fn submit_pixels(&mut self, pixels: Vec<usize>, color: u8) -> (r: Result<(), EditError>)
        requires
            old(self).wf(),
            forall|k: int| 0 <= k < pixels@.len() ==> (#[trigger] pixels@[k]) < old(self)@.frames.area(),
        ensures
            final(self).wf(),
            color >= old(self)@.frames.palette().len() ==> r == Err::<(), EditError>(
                EditError::ColorIndexOutOfRange,
            ) && final(self)@ == old(self)@,
            color < old(self)@.frames.palette().len() ==> r is Ok && final(self)@ == submit(
                old(self)@,
                EventModel::PixelsChange {
                    frame: old(self)@.frames.active,
                    pixels: pixels@,
                    color,
                },
            ),
    {
        let ghost h = self@;
        proof {
            lemma_replay_wf(h.base, h.events, h.index);
            assert(h.frames.rasters[h.frames.active].wf());
        }
        let img = &self.edited_images[0];
        assert(img@ == h.frames.rasters[0]);
        if color as usize >= img.get_palette().len() {
            return Err(EditError::ColorIndexOutOfRange);
        }
        let event = EditEvent::PixelsChange { frame: self.active_frame, pixel_idxs: pixels, color_idx: color };
        self.add_event(event);
        Ok(())
    }

    /// The width and height shared by all frames.
    fn size(&self) -> (r: (u8, u8))
        requires
            self.wf(),
        ensures
            r.0 == self@.frames.rasters[0].width,
            r.1 == self@.frames.rasters[0].height,
            self@.frames.wf(),
    {
        proof {
            lemma_replay_wf(self@.base, self@.events, self@.index);
        }
        let img = &self.edited_images[0];
        assert(img@ == self@.frames.rasters[0]);
        (img.width(), img.height())
    }

    /// Draws the line from `start` to `end` on the active frame: a path that
    /// joins the two ends without gaps. Points off the raster are dropped.
    pub fn add_line(&mut self, start: (u8, u8), end: (u8, u8), color: u8) -> (r: Result<(), EditError>)
        requires
            old(self).wf(),
        ensures
            final(self).wf(),
            is_line_path(line_outline(start, end), start, end),
            color >= old(self)@.frames.palette().len() ==> r == Err::<(), EditError>(
                EditError::ColorIndexOutOfRange,
            ) && final(self)@ == old(self)@,
            color < old(self)@.frames.palette().len() ==> r is Ok && final(self)@ == submit(
                old(self)@,
                EventModel::PixelsChange {
                    frame: old(self)@.frames.active,
                    pixels: offsets_of(
                        line_outline(start, end),
                        old(self)@.frames.rasters[0].width,
                        old(self)@.frames.rasters[0].height,
                    ),
                    color,
                },
            ),
    {
        let (w, h) = self.size();
        let points = crate::shapes::line_points(start, end);
        let pixels = crate::shapes::points_to_offsets(&points, w, h);
        self.submit_pixels(pixels, color)
    }

    /// Draws a circle on the active frame: with `shift_held`, around `start`
    /// through `end`; otherwise inscribed in the box with corners `start` and
    /// `end`. Points off the raster are dropped.
    pub fn add_circle(&mut self, start: (u8, u8), end: (u8, u8), shift_held: bool, color: u8) -> (r:
        Result<(), EditError>)
        requires
            old(self).wf(),
        ensures
            final(self).wf(),
            color >= old(self)@.frames.palette().len() ==> r == Err::<(), EditError>(
                EditError::ColorIndexOutOfRange,
            ) && final(self)@ == old(self)@,
            color < old(self)@.frames.palette().len() ==> r is Ok && exists|
                pts: Seq<(isize, isize)>,
                radius: usize,
            |
                #![trigger pts.to_set(), circle_outline(start, radius)]
                (shift_held ==> rounds_root(sq_dist(start, end), radius as int)
                    && pts.to_set() == circle_outline(start, radius)) && (!shift_held
                    ==> pts.to_set() == inner_circle_outline(start, end)) && final(self)@ == submit(
                    old(self)@,
                    EventModel::PixelsChange {
                        frame: old(self)@.frames.active,
                        pixels: offsets_of(
                            pts,
                            old(self)@.frames.rasters[0].width,
                            old(self)@.frames.rasters[0].height,
                        ),
                        color,
                    },
                ),
    {
        let (w, h) = self.size();
        let radius = crate::shapes::distance(start, end);
        let points = if shift_held {
            crate::shapes::circle_points(start, radius)
        } else {
            crate::shapes::inner_circle_points(start, end)
        };
        let pixels = crate::shapes::points_to_offsets(&points, w, h);
        let r = self.submit_pixels(pixels, color);
        // Names the radius that the outline was drawn with.
        assert(circle_outline(start, radius) == circle_outline(start, radius));
        r
    }

    /// Draws an ellipse on the active frame: with `shift_held`, around
    /// `start` with radii half the distances to `end` along each axis
    /// (graphics-shapes builds the ellipse from its full width and height);
    /// otherwise
    /// around the box with corners `start` and `end`. Points off the raster
    /// are dropped.
    pub fn add_ellipse(&mut self, start: (u8, u8), end: (u8, u8), shift_held: bool, color: u8) -> (r:
        Result<(), EditError>)
        requires
            old(self).wf(),
        ensures
            final(self).wf(),
            color >= old(self)@.frames.palette().len() ==> r == Err::<(), EditError>(
                EditError::ColorIndexOutOfRange,
            ) && final(self)@ == old(self)@,
            color < old(self)@.frames.palette().len() ==> r is Ok && exists|pts: Seq<(isize, isize)>|
                #[trigger] pts.to_set() == (if shift_held {
                    ellipse_outline(
                        start,
                        crate::fill::dist(start.0 as int, end.0 as int) as usize,
                        crate::fill::dist(start.1 as int, end.1 as int) as usize,
                    )
                } else {
                    outer_ellipse_outline(start, end)
                }) && final(self)@ == submit(
                    old(self)@,
                    EventModel::PixelsChange {
                        frame: old(self)@.frames.active,
                        pixels: offsets_of(
                            pts,
                            old(self)@.frames.rasters[0].width,
                            old(self)@.frames.rasters[0].height,
                        ),
                        color,
                    },
                ),
    {
        let (w, h) = self.size();
        let points = if shift_held {
            let dx = if start.0 >= end.0 { start.0 - end.0 } else { end.0 - start.0 };
            let dy = if start.1 >= end.1 { start.1 - end.1 } else { end.1 - start.1 };
            crate::shapes::ellipse_points(start, dx as usize, dy as usize)
        } else {
            crate::shapes::outer_ellipse_points(start, end)
        };
        let pixels = crate::shapes::points_to_offsets(&points, w, h);
        let r = self.submit_pixels(pixels, color);
        r
    }

    /// Draws the edges of the box with corners `start` and `end` on the
    /// active frame; pixels off the raster are dropped.
    pub fn add_rect(&mut self, start: (u8, u8), end: (u8, u8), color: u8) -> (r: Result<(), EditError>)
        requires
            old(self).wf(),
        ensures
            final(self).wf(),
            color >= old(self)@.frames.palette().len() ==> r == Err::<(), EditError>(
                EditError::ColorIndexOutOfRange,
            ) && final(self)@ == old(self)@,
            color < old(self)@.frames.palette().len() ==> r is Ok && exists|px: Seq<usize>|
                #[trigger] px.to_set() == rect_offsets(
                    start,
                    end,
                    old(self)@.frames.rasters[0].width,
                    old(self)@.frames.rasters[0].height,
                ) && px.no_duplicates() && final(self)@ == submit(
                    old(self)@,
                    EventModel::PixelsChange { frame: old(self)@.frames.active, pixels: px, color },
                ),
    {
        let (w, h) = self.size();
        if w == 0 {
            assert(rect_offsets(start, end, 0, h as nat) =~= Set::<usize>::empty());
            let pixels: Vec<usize> = Vec::new();
            assert(pixels@.to_set() =~= Set::<usize>::empty());
            return self.submit_pixels(pixels, color);
        }
        let pixels = crate::shapes::rect_outline_offsets(start, end, w, h);
        assert forall|k: int| 0 <= k < pixels@.len() implies (#[trigger] pixels@[k]) < self@.frames.area() by {
            assert(pixels@.to_set().contains(pixels@[k]));
        }
        let ghost px = pixels@;
        let r = self.submit_pixels(pixels, color);
        r
    }

    /// Fills the 4-connected region of the color at `xy` on the active
    /// frame with `color`; the pixel at `xy` is always part of the change.
    pub fn add_fill(&mut self, xy: (u8, u8), color: u8) -> (r: Result<(), EditError>)
        requires
            old(self).wf(),
        ensures
            final(self).wf(),
            ({
                let h = old(self)@;
                let cur = h.frames.rasters[h.frames.active];
                let inside = xy.0 < cur.width && xy.1 < cur.height;
                let seed = cur.offset(xy.0 as int, xy.1 as int) as usize;
                &&& !inside ==> r == Err::<(), EditError>(EditError::OutOfBounds) && final(self)@
                    == h
                &&& inside && color >= h.frames.palette().len() ==> r == Err::<(), EditError>(
                    EditError::ColorIndexOutOfRange,
                ) && final(self)@ == h
                &&& inside && color < h.frames.palette().len() ==> r is Ok && exists|px: Seq<usize>|
                    #[trigger] is_region(cur, seed, px.to_set()) && px.no_duplicates() && final(self)@
                        == submit(
                        h,
                        EventModel::PixelsChange { frame: h.frames.active, pixels: px, color },
                    )
            }),
    {
        let ghost h = self@;
        proof {
            lemma_replay_wf(h.base, h.events, h.index);
        }
        let img = &self.edited_images[self.active_frame];
        let ghost cur = img@;
        assert(cur == h.frames.rasters[h.frames.active]);
        let mut pixels = match fill_pixels(img, xy) {
            Ok(p) => p,
            Err(_) => {
                return Err(EditError::OutOfBounds);
            },
        };
        let ghost seed = cur.offset(xy.0 as int, xy.1 as int) as usize;
        proof {
            lemma_offset_in_range(cur.width as int, cur.height as int, xy.0 as int, xy.1 as int);
        }
        if pixels.len() == 0 {
            let i = crate::raster::flat_index(xy.0, xy.1, img.width());
            pixels.push(i);
            proof {
                let one = set![seed];
                let c = cur.pixels[seed as int];
                assert(pixels@.to_set() =~= one) by {
                    assert(pixels@[0] == seed);
                }
                assert(fill_closed(cur, c, one)) by {
                    assert forall|i: usize, j: usize|
                        #![trigger one.contains(i), fill_step(cur, c, i, j)]
                        one.contains(i) && fill_step(cur, c, i, j) implies one.contains(j) by {
                        assert(i == seed);
                        assert(!has_like_neighbour(cur, seed));
                        if fill_step(cur, c, i, j) {
                            assert(fill_step(cur, cur.pixels[seed as int], seed, j));
                        }
                    }
                }
                assert forall|t: Set<usize>| fill_closed(cur, c, t) && t.contains(seed)
                    implies #[trigger] one.subset_of(t) by {}
            }
        }
        assert forall|k: int| 0 <= k < pixels@.len() implies (#[trigger] pixels@[k]) < h.frames.area() by {
            assert(pixels@.to_set().contains(pixels@[k]));
        }
        let ghost px = pixels@;
        let r = self.submit_pixels(pixels, color);
        assert(is_region(cur, seed, px.to_set()));
        r
    }
}

impl EditHistory {
    /// Rearranges the active frame by `t` and records the result.
    fn apply_transform(&mut self, t: Transform) -> (r: Result<(), EditError>)
        requires
            old(self).wf(),
        ensures
            final(self).wf(),
            !fits(t, old(self)@.frames.rasters[0].width as int, old(self)@.frames.rasters[0].height as int)
                ==> r == Err::<(), EditError>(EditError::NotSquare) && final(self)@ == old(self)@,
            fits(t, old(self)@.frames.rasters[0].width as int, old(self)@.frames.rasters[0].height as int)
                ==> r is Ok && transform_step(old(self)@, final(self)@, t),
            final(self)@.frames.rasters[0].width == old(self)@.frames.rasters[0].width,
            final(self)@.frames.rasters[0].height == old(self)@.frames.rasters[0].height,
    {
        let ghost h = self@;
        proof {
            lemma_replay_wf(h.base, h.events, h.index);
        }
        let img = &self.edited_images[self.active_frame];
        let ghost cur = img@;
        assert(cur == h.frames.rasters[h.frames.active]);
        let w = img.width();
        let hh = img.height();
        if (t == Transform::RotateCw || t == Transform::RotateCcw) && w != hh {
            return Err(EditError::NotSquare);
        }
        let out = transform(img.get_pixels(), w, hh, t);
        assert(indices_below(out@, h.frames.palette().len())) by {
            assert forall|i: int| 0 <= i < out@.len() implies (#[trigger] out@[i]) < h.frames.palette().len() by {
                assert(cur.pixels.contains(out@[i]));
                let j = choose|j: int| 0 <= j < cur.pixels.len() && cur.pixels[j] == out@[i];
            }
        }
        let ghost px = out@;
        self.add_event(EditEvent::Full { frame: self.active_frame, pixels: out });
        assert(is_transformed(cur.pixels, px, cur.width as int, cur.height as int, t));
        assert(self@.frames.rasters[0].width == h.frames.rasters[0].width);
        Ok(())
    }

    /// Mirrors the active frame left to right.
    pub fn flip_h(&mut self) -> (r: Result<(), EditError>)
        requires
            old(self).wf(),
        ensures
            final(self).wf(),
            r is Ok,
            transform_step(old(self)@, final(self)@, Transform::FlipH),
    {
        self.apply_transform(Transform::FlipH)
    }

    /// Mirrors the active frame top to bottom.
    pub fn flip_v(&mut self) -> (r: Result<(), EditError>)
        requires
            old(self).wf(),
        ensures
            final(self).wf(),
            r is Ok,
            transform_step(old(self)@, final(self)@, Transform::FlipV),
    {
        self.apply_transform(Transform::FlipV)
    }

    fn rot_cw(&mut self) -> (r: Result<(), EditError>)
        requires
            old(self).wf(),
        ensures
            final(self).wf(),
            !is_square(old(self)@) ==> r == Err::<(), EditError>(EditError::NotSquare) && final(self)@
                == old(self)@,
            is_square(old(self)@) ==> r is Ok && transform_step(old(self)@, final(self)@, Transform::RotateCw)
                && is_square(final(self)@),
    {
        let r = self.apply_transform(Transform::RotateCw);
        proof {
            lemma_replay_wf(self@.base, self@.events, self@.index);
        }
        r
    }

    fn rot_ccw(&mut self) -> (r: Result<(), EditError>)
        requires
            old(self).wf(),
        ensures
            final(self).wf(),
            !is_square(old(self)@) ==> r == Err::<(), EditError>(EditError::NotSquare) && final(self)@
                == old(self)@,
            is_square(old(self)@) ==> r is Ok && transform_step(old(self)@, final(self)@, Transform::RotateCcw)
                && is_square(final(self)@),
    {
        let r = self.apply_transform(Transform::RotateCcw);
        proof {
            lemma_replay_wf(self@.base, self@.events, self@.index);
        }
        r
    }

    /// Turns the active frame a quarter clockwise; square rasters only.
    pub fn rotate_cw_90(&mut self) -> (r: Result<(), EditError>)
        requires
            old(self).wf(),
        ensures
            final(self).wf(),
            !is_square(old(self)@) ==> r == Err::<(), EditError>(EditError::NotSquare) && final(self)@
                == old(self)@,
            is_square(old(self)@) ==> r is Ok && transform_step(old(self)@, final(self)@, Transform::RotateCw),
    {
        self.rot_cw()
    }

    /// Turns the active frame half around, as two recorded quarter turns;
    /// square rasters only.
    pub fn rotate_cw_180(&mut self) -> (r: Result<(), EditError>)
        requires
            old(self).wf(),
        ensures
            final(self).wf(),
            !is_square(old(self)@) ==> r == Err::<(), EditError>(EditError::NotSquare) && final(self)@
                == old(self)@,
            is_square(old(self)@) ==> r is Ok && exists|m: HistoryModel|
                #[trigger] transform_step(old(self)@, m, Transform::RotateCw) && transform_step(
                    m,
                    final(self)@,
                    Transform::RotateCw,
                ),
    {
        let r = self.rot_cw();
        if r.is_err() {
            return r;
        }
        let ghost m = self@;
        let r = self.rot_cw();
        assert(transform_step(m, self@, Transform::RotateCw));
        r
    }

    /// Turns the active frame three quarters clockwise, as three recorded
    /// quarter turns; square rasters only.
    pub fn rotate_cw_270(&mut self) -> (r: Result<(), EditError>)
        requires
            old(self).wf(),
        ensures
            final(self).wf(),
            !is_square(old(self)@) ==> r == Err::<(), EditError>(EditError::NotSquare) && final(self)@
                == old(self)@,
            is_square(old(self)@) ==> r is Ok && exists|m1: HistoryModel, m2: HistoryModel|
                #[trigger] transform_step(old(self)@, m1, Transform::RotateCw) && #[trigger] transform_step(
                    m1,
                    m2,
                    Transform::RotateCw,
                ) && transform_step(m2, final(self)@, Transform::RotateCw),
    {
        let r = self.rot_cw();
        if r.is_err() {
            return r;
        }
        let ghost m1 = self@;
        self.rot_cw();
        let ghost m2 = self@;
        let r = self.rot_cw();
        assert(transform_step(m1, m2, Transform::RotateCw));
        r
    }

    /// Turns the active frame a quarter counter-clockwise; square rasters only.
    pub fn rotate_ccw_90(&mut self) -> (r: Result<(), EditError>)
        requires
            old(self).wf(),
        ensures
            final(self).wf(),
            !is_square(old(self)@) ==> r == Err::<(), EditError>(EditError::NotSquare) && final(self)@
                == old(self)@,
            is_square(old(self)@) ==> r is Ok && transform_step(old(self)@, final(self)@, Transform::RotateCcw),
    {
        self.rot_ccw()
    }

    /// Turns the active frame half around, as two recorded counter-clockwise
    /// quarter turns; square rasters only.
    pub fn rotate_ccw_180(&mut self) -> (r: Result<(), EditError>)
        requires
            old(self).wf(),
        ensures
            final(self).wf(),
            !is_square(old(self)@) ==> r == Err::<(), EditError>(EditError::NotSquare) && final(self)@
                == old(self)@,
            is_square(old(self)@) ==> r is Ok && exists|m: HistoryModel|
                #[trigger] transform_step(old(self)@, m, Transform::RotateCcw) && transform_step(
                    m,
                    final(self)@,
                    Transform::RotateCcw,
                ),
    {
        let r = self.rot_ccw();
        if r.is_err() {
            return r;
        }
        let ghost m = self@;
        let r = self.rot_ccw();
        assert(transform_step(m, self@, Transform::RotateCcw));
        r
    }

    /// Turns the active frame three quarters counter-clockwise, as three
    /// recorded quarter turns; square rasters only.
    pub fn rotate_ccw_270(&mut self) -> (r: Result<(), EditError>)
        requires
            old(self).wf(),
        ensures
            final(self).wf(),
            !is_square(old(self)@) ==> r == Err::<(), EditError>(EditError::NotSquare) && final(self)@
                == old(self)@,
            is_square(old(self)@) ==> r is Ok && exists|m1: HistoryModel, m2: HistoryModel|
                #[trigger] transform_step(old(self)@, m1, Transform::RotateCcw) && #[trigger] transform_step(
                    m1,
                    m2,
                    Transform::RotateCcw,
                ) && transform_step(m2, final(self)@, Transform::RotateCcw),
    {
        let r = self.rot_ccw();
        if r.is_err() {
            return r;
        }
        let ghost m1 = self@;
        self.rot_ccw();
        let ghost m2 = self@;
        let r = self.rot_ccw();
        assert(transform_step(m1, m2, Transform::RotateCcw));
        r
    }

    /// Moves every row of the active frame up one, the top row to the bottom.
    pub fn move_up(&mut self) -> (r: Result<(), EditError>)
        requires
            old(self).wf(),
        ensures
            final(self).wf(),
            r is Ok,
            transform_step(old(self)@, final(self)@, Transform::ShiftUp),
    {
        self.apply_transform(Transform::ShiftUp)
    }

    /// Moves every row of the active frame down one, the bottom row to the top.
    pub fn move_down(&mut self) -> (r: Result<(), EditError>)
        requires
            old(self).wf(),
        ensures
            final(self).wf(),
            r is Ok,
            transform_step(old(self)@, final(self)@, Transform::ShiftDown),
    {
        self.apply_transform(Transform::ShiftDown)
    }

    /// Moves every column of the active frame left one, the left column to
    /// the right.
    pub fn move_left(&mut self) -> (r: Result<(), EditError>)
        requires
            old(self).wf(),
        ensures
            final(self).wf(),
            r is Ok,
            transform_step(old(self)@, final(self)@, Transform::ShiftLeft),
    {
        self.apply_transform(Transform::ShiftLeft)
    }

    /// Moves every column of the active frame right one, the right column to
    /// the left.
    pub fn move_right(&mut self) -> (r: Result<(), EditError>)
        requires
            old(self).wf(),
        ensures
            final(self).wf(),
            r is Ok,
            transform_step(old(self)@, final(self)@, Transform::ShiftRight),
    {
        self.apply_transform(Transform::ShiftRight)
    }
}

impl EditHistory {
    /// Whether `event` can be submitted: it names existing frames and
    /// pixels, and leaves every pixel with an existing palette entry.
    pub fn can_submit(&self, event: &EditEvent) -> (r: bool)
        requires
            self.wf(),
        ensures
            r == event_valid(self@.frames, event@),
    {
        let ghost h = self@;
        proof {
            lemma_replay_wf(h.base, h.events, h.index);
        }
        let n = self.edited_images.len();
        let first = &self.edited_images[0];
        assert(first@ == h.frames.rasters[0]);
        let size = area(first.width(), first.height());
        let colors = first.get_palette().len();
        match event {
            EditEvent::PixelsChange { frame, pixel_idxs, color_idx } => {
                if *frame >= n || *color_idx as usize >= colors {
                    return false;
                }
                let img = &self.edited_images[*frame];
                assert(img@ == h.frames.rasters[*frame as int]);
                let len = img.get_pixels().len();
                let mut k: usize = 0;
                while k < pixel_idxs.len()
                    invariant
                        k <= pixel_idxs@.len(),
                        self@ == h,
                        *frame < n,
                        n == h.frames.rasters.len(),
                        event@ == (EventModel::PixelsChange {
                            frame: *frame as int,
                            pixels: pixel_idxs@,
                            color: *color_idx,
                        }),
                        len == h.frames.rasters[*frame as int].pixels.len(),
                        forall|j: int| 0 <= j < k ==> (#[trigger] pixel_idxs@[j]) < len,
                    decreases pixel_idxs.len() - k,
                {
                    if pixel_idxs[k] >= len {
                        assert(event@->PixelsChange_pixels[k as int] >= len);
                        return false;
                    }
                    k += 1;
                }
                true
            },
            EditEvent::Full { frame, pixels } => {
                *frame < n && pixels.len() == size && all_below_slice(pixels.as_slice(), colors)
            },
            EditEvent::FrameAdd { idx, content } => {
                *idx < n && content.len() == size && all_below_slice(content.as_slice(), colors)
            },
            EditEvent::FrameRemove(idx) => *idx < n && n > 1,
            EditEvent::FrameSelect(idx) => *idx < n,
            EditEvent::PaletteChange(new_colors) => {
                if new_colors.len() == 0 {
                    return false;
                }
                let mut i: usize = 0;
                while i < n
                    invariant
                        self@ == h,
                        h.wf(),
                        h.frames.wf(),
                        event@ == (EventModel::PaletteChange { colors: new_colors@ }),
                        new_colors@.len() > 0,
                        n == h.frames.rasters.len(),
                        i <= n,
                        forall|j: int|
                            0 <= j < i ==> crate::raster::indices_below(
                                #[trigger] h.frames.rasters[j].pixels,
                                new_colors@.len(),
                            ),
                    decreases n - i,
                {
                    let img = &self.edited_images[i];
                    assert(img@ == h.frames.rasters[i as int]);
                    if !all_below_slice(img.get_pixels(), new_colors.len()) {
                        return false;
                    }
                    i += 1;
                }
                true
            },
        }
    }

    /// Inserts a frame holding `content` after the active one and makes it
    /// active. Refused when `content` is not one entry per pixel, or names
    /// a missing palette entry.
    pub fn insert_frame(&mut self, content: Vec<u8>) -> (r: Result<(), EditError>)
        requires
            old(self).wf(),
        ensures
            final(self).wf(),
            ({
                let h = old(self)@;
                &&& content@.len() != h.frames.area() ==> r == Err::<(), EditError>(
                    EditError::WrongPixelCount,
                ) && final(self)@ == h
                &&& content@.len() == h.frames.area() && !indices_below(
                    content@,
                    h.frames.palette().len(),
                ) ==> r == Err::<(), EditError>(EditError::ColorIndexOutOfRange) && final(self)@
                    == h
                &&& content@.len() == h.frames.area() && indices_below(
                    content@,
                    h.frames.palette().len(),
                ) ==> r is Ok && final(self)@ == submit(
                    h,
                    EventModel::FrameAdd { idx: h.frames.active, content: content@ },
                )
            }),
    {
        let ghost h = self@;
        proof {
            lemma_replay_wf(h.base, h.events, h.index);
        }
        let img = &self.edited_images[0];
        assert(img@ == h.frames.rasters[0]);
        if content.len() != area(img.width(), img.height()) {
            return Err(EditError::WrongPixelCount);
        }
        if !all_below_slice(content.as_slice(), img.get_palette().len()) {
            return Err(EditError::ColorIndexOutOfRange);
        }
        self.add_event(EditEvent::FrameAdd { idx: self.active_frame, content });
        Ok(())
    }
}

} // verus!
