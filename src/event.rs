use crate::raster::{Color, Raster, RasterModel, indices_below, copy_bytes, copy_colors};
use vstd::prelude::*;

verus! {

/// One replayable edit.
#[derive(Clone, Debug, PartialEq, Eq)]
pub enum EditEvent {
    /// Every listed offset of frame `frame` is set to `color_idx`.
    PixelsChange { frame: usize, pixel_idxs: Vec<usize>, color_idx: u8 },
    /// Frame `frame` gets a whole new pixel buffer (flip, rotate, shift).
    Full { frame: usize, pixels: Vec<u8> },
    /// A frame holding `content` is inserted after frame `idx` and becomes active.
    FrameAdd { idx: usize, content: Vec<u8> },
    /// Frame `idx` is deleted.
    FrameRemove(usize),
    /// Frame `idx` becomes the active one.
    FrameSelect(usize),
    /// Every frame gets this palette.
    PaletteChange(Vec<Color>),
}

/// The mathematical value of an edit.
pub enum EventModel {
    PixelsChange { frame: int, pixels: Seq<usize>, color: u8 },
    Full { frame: int, pixels: Seq<u8> },
    FrameAdd { idx: int, content: Seq<u8> },
    FrameRemove { idx: int },
    FrameSelect { idx: int },
    PaletteChange { colors: Seq<Color> },
}

impl View for EditEvent {
    type V = EventModel;

    open spec fn view(&self) -> EventModel {
        match self {
            EditEvent::PixelsChange { frame, pixel_idxs, color_idx } => EventModel::PixelsChange {
                frame: *frame as int,
                pixels: pixel_idxs@,
                color: *color_idx,
            },
            EditEvent::Full { frame, pixels } => EventModel::Full {
                frame: *frame as int,
                pixels: pixels@,
            },
            EditEvent::FrameAdd { idx, content } => EventModel::FrameAdd {
                idx: *idx as int,
                content: content@,
            },
            EditEvent::FrameRemove(idx) => EventModel::FrameRemove { idx: *idx as int },
            EditEvent::FrameSelect(idx) => EventModel::FrameSelect { idx: *idx as int },
            EditEvent::PaletteChange(colors) => EventModel::PaletteChange { colors: colors@ },
        }
    }
}

impl EventModel {
    /// A change of exactly one pixel.
    pub open spec fn is_single_pixel(self) -> bool {
        self matches EventModel::PixelsChange { pixels, .. } && pixels.len() == 1
    }
}

/// The frames of a session and which of them is being edited.
pub struct Frames {
    pub rasters: Seq<RasterModel>,
    pub active: int,
}

impl Frames {
    /// At least one frame, a valid active index, and every frame a valid
    /// raster of the first frame's size and palette.
    pub open spec fn wf(self) -> bool {
        &&& self.rasters.len() > 0
        &&& self.rasters[0].palette.len() > 0
        &&& 0 <= self.active < self.rasters.len()
        &&& forall|i: int|
            0 <= i < self.rasters.len() ==> {
                &&& (#[trigger] self.rasters[i]).wf()
                &&& self.rasters[i].width == self.rasters[0].width
                &&& self.rasters[i].height == self.rasters[0].height
                &&& self.rasters[i].palette == self.rasters[0].palette
            }
    }

    pub open spec fn palette(self) -> Seq<Color> {
        self.rasters[0].palette
    }

    pub open spec fn area(self) -> nat {
        self.rasters[0].width * self.rasters[0].height
    }
}

/// `pixels` with every offset listed in `idxs` set to `color`.
pub open spec fn paint(pixels: Seq<u8>, idxs: Seq<usize>, color: u8) -> Seq<u8> {
    Seq::new(
        pixels.len(),
        |i: int| if idxs.contains(i as usize) { color } else { pixels[i] },
    )
}

/// Whether `e` can be applied to `s` and leave valid frames behind.
pub open spec fn event_valid(s: Frames, e: EventModel) -> bool {
    match e {
        EventModel::PixelsChange { frame, pixels, color } => {
            &&& 0 <= frame < s.rasters.len()
            &&& forall|k: int|
                0 <= k < pixels.len() ==> (#[trigger] pixels[k]) < s.rasters[frame].pixels.len()
            &&& color < s.palette().len()
        },
        EventModel::Full { frame, pixels } => {
            &&& 0 <= frame < s.rasters.len()
            &&& pixels.len() == s.area()
            &&& indices_below(pixels, s.palette().len())
        },
        EventModel::FrameAdd { idx, content } => {
            &&& 0 <= idx < s.rasters.len()
            &&& content.len() == s.area()
            &&& indices_below(content, s.palette().len())
        },
        EventModel::FrameRemove { idx } => 0 <= idx < s.rasters.len() && s.rasters.len() > 1,
        EventModel::FrameSelect { idx } => 0 <= idx < s.rasters.len(),
        EventModel::PaletteChange { colors } => {
            &&& colors.len() > 0
            &&& forall|i: int|
                0 <= i < s.rasters.len() ==> indices_below(
                    (#[trigger] s.rasters[i]).pixels,
                    colors.len(),
                )
        },
    }
}

/// The frames after `e` has been applied to `s`.
pub open spec fn apply(s: Frames, e: EventModel) -> Frames {
    match e {
        EventModel::PixelsChange { frame, pixels, color } => Frames {
            rasters: s.rasters.update(
                frame,
                s.rasters[frame].with_pixels(paint(s.rasters[frame].pixels, pixels, color)),
            ),
            active: s.active,
        },
        EventModel::Full { frame, pixels } => Frames {
            rasters: s.rasters.update(frame, s.rasters[frame].with_pixels(pixels)),
            active: s.active,
        },
        EventModel::FrameAdd { idx, content } => Frames {
            rasters: s.rasters.insert(idx + 1, s.rasters[0].with_pixels(content)),
            active: idx + 1,
        },
        EventModel::FrameRemove { idx } => Frames {
            rasters: s.rasters.remove(idx),
            active: if s.active >= s.rasters.len() - 1 {
                s.rasters.len() - 2
            } else {
                s.active
            },
        },
        EventModel::FrameSelect { idx } => Frames { rasters: s.rasters, active: idx },
        EventModel::PaletteChange { colors } => Frames {
            rasters: s.rasters.map_values(|r: RasterModel| r.with_palette(colors)),
            active: s.active,
        },
    }
}

pub proof fn lemma_apply_wf(s: Frames, e: EventModel)
    requires
        s.wf(),
        event_valid(s, e),
    ensures
        apply(s, e).wf(),
{
    let t = apply(s, e);
    match e {
        EventModel::PixelsChange { frame, pixels, color } => {
            let p = paint(s.rasters[frame].pixels, pixels, color);
            assert(indices_below(p, s.palette().len()));
            assert(t.rasters[0].palette == s.palette());
        },
        EventModel::Full { frame, pixels } => {
            assert(t.rasters[0].palette == s.palette());
            assert(t.rasters[0].width == s.rasters[0].width);
        },
        EventModel::FrameAdd { idx, content } => {
            assert(t.rasters[0] == s.rasters[0]);
            assert forall|i: int| 0 <= i < t.rasters.len() implies {
                &&& (#[trigger] t.rasters[i]).wf()
                &&& t.rasters[i].width == t.rasters[0].width
                &&& t.rasters[i].height == t.rasters[0].height
                &&& t.rasters[i].palette == t.rasters[0].palette
            } by {
                if i < idx + 1 {
                    assert(t.rasters[i] == s.rasters[i]);
                } else if i > idx + 1 {
                    assert(t.rasters[i] == s.rasters[i - 1]);
                }
            }
        },
        EventModel::FrameRemove { idx } => {
            assert forall|i: int| 0 <= i < t.rasters.len() implies {
                &&& (#[trigger] t.rasters[i]).wf()
                &&& t.rasters[i].width == t.rasters[0].width
                &&& t.rasters[i].height == t.rasters[0].height
                &&& t.rasters[i].palette == t.rasters[0].palette
            } by {
                if i < idx {
                    assert(t.rasters[i] == s.rasters[i]);
                } else {
                    assert(t.rasters[i] == s.rasters[i + 1]);
                }
                if idx == 0 {
                    assert(t.rasters[0] == s.rasters[1]);
                } else {
                    assert(t.rasters[0] == s.rasters[0]);
                }
            }
        },
        EventModel::FrameSelect { idx } => {},
        EventModel::PaletteChange { colors } => {
            assert forall|i: int| 0 <= i < t.rasters.len() implies {
                &&& (#[trigger] t.rasters[i]).wf()
                &&& t.rasters[i].width == t.rasters[0].width
                &&& t.rasters[i].height == t.rasters[0].height
                &&& t.rasters[i].palette == t.rasters[0].palette
            } by {
                assert(s.rasters[i].wf());
                assert(indices_below(s.rasters[i].pixels, colors.len()));
            }
        },
    }
}

/// The frames as exec values.
pub open spec fn frames_of(rasters: Seq<Raster>, active: usize) -> Frames {
    Frames { rasters: rasters.map_values(|r: Raster| r@), active: active as int }
}

proof fn lemma_paint_push(pixels: Seq<u8>, idxs: Seq<usize>, p: usize, color: u8)
    requires
        p < pixels.len(),
        pixels.len() <= usize::MAX,
    ensures
        paint(pixels, idxs.push(p), color) == paint(pixels, idxs, color).update(p as int, color),
{
    let a = paint(pixels, idxs.push(p), color);
    let b = paint(pixels, idxs, color).update(p as int, color);
    assert forall|i: int| 0 <= i < pixels.len() implies a[i] == b[i] by {
        if idxs.contains(i as usize) {
            let j = choose|j: int| 0 <= j < idxs.len() && idxs[j] == i as usize;
            assert(idxs.push(p)[j] == i as usize);
        }
        if idxs.push(p).contains(i as usize) {
            let j = choose|j: int| 0 <= j < idxs.len() + 1 && idxs.push(p)[j] == i as usize;
            if j < idxs.len() {
                assert(idxs[j] == i as usize);
            }
        }
        if i == p as int {
            assert(idxs.push(p)[idxs.len() as int] == p);
        } else {
            assert((i as usize) as int == i);
        }
    }
    assert(a =~= b);
}

/// Sets the listed offsets of `img` to `color`.
fn paint_raster(img: &mut Raster, idxs: &Vec<usize>, color: u8)
    requires
        forall|k: int| 0 <= k < idxs@.len() ==> (#[trigger] idxs@[k]) < old(img)@.pixels.len(),
    ensures
        final(img)@ == old(img)@.with_pixels(paint(old(img)@.pixels, idxs@, color)),
{
    let ghost orig = img@;
    let len = img.get_pixels().len();
    let mut k: usize = 0;
    assert(orig.with_pixels(paint(orig.pixels, idxs@.take(0), color)) =~= orig) by {
        assert(paint(orig.pixels, idxs@.take(0), color) =~= orig.pixels);
    }
    while k < idxs.len()
        invariant
            k <= idxs@.len(),
            len == orig.pixels.len(),
            forall|j: int| 0 <= j < idxs@.len() ==> (#[trigger] idxs@[j]) < orig.pixels.len(),
            img@ == orig.with_pixels(paint(orig.pixels, idxs@.take(k as int), color)),
        decreases idxs.len() - k,
    {
        let ghost before = img@.pixels;
        img.set_pixel(idxs[k], color);
        k += 1;
        proof {
            assert(idxs@.take(k as int) =~= idxs@.take(k - 1).push(idxs@[k - 1]));
            lemma_paint_push(orig.pixels, idxs@.take(k - 1), idxs@[k - 1], color);
        }
    }
    assert(idxs@.take(k as int) =~= idxs@);
}

/// Applies `e` to the frames `rasters`, of which `*active` is being edited.
pub fn apply_event(rasters: &mut Vec<Raster>, active: &mut usize, e: &EditEvent)
    requires
        frames_of(old(rasters)@, *old(active)).wf(),
        event_valid(frames_of(old(rasters)@, *old(active)), e@),
    ensures
        frames_of(final(rasters)@, *final(active)) == apply(
            frames_of(old(rasters)@, *old(active)),
            e@,
        ),
        frames_of(final(rasters)@, *final(active)).wf(),
{
    let ghost s = frames_of(rasters@, *active);
    proof {
        lemma_apply_wf(s, e@);
    }
    match e {
        EditEvent::PixelsChange { frame, pixel_idxs, color_idx } => {
            let mut img = rasters.remove(*frame);
            assert(img@ == s.rasters[*frame as int]);
            paint_raster(&mut img, pixel_idxs, *color_idx);
            rasters.insert(*frame, img);
            assert(frames_of(rasters@, *active).rasters =~= apply(s, e@).rasters);
        },
        EditEvent::Full { frame, pixels } => {
            let mut img = rasters.remove(*frame);
            img.replace_pixels(copy_bytes(pixels.as_slice()));
            rasters.insert(*frame, img);
            assert(frames_of(rasters@, *active).rasters =~= apply(s, e@).rasters);
        },
        EditEvent::FrameAdd { idx, content } => {
            let n = rasters.len();
            assert(*idx < n);
            let first = &rasters[0];
            let mut img = first.duplicate();
            img.replace_pixels(copy_bytes(content.as_slice()));
            rasters.insert(*idx + 1, img);
            *active = *idx + 1;
            assert(frames_of(rasters@, *active).rasters =~= apply(s, e@).rasters);
        },
        EditEvent::FrameRemove(idx) => {
            rasters.remove(*idx);
            if *active >= rasters.len() {
                *active = rasters.len() - 1;
            }
            assert(frames_of(rasters@, *active).rasters =~= apply(s, e@).rasters);
        },
        EditEvent::FrameSelect(idx) => {
            *active = *idx;
        },
        EditEvent::PaletteChange(colors) => {
            let n = rasters.len();
            let mut i: usize = 0;
            while i < n
                invariant
                    n == s.rasters.len(),
                    rasters@.len() == n,
                    i <= n,
                    *active == s.active,
                    forall|j: int|
                        0 <= j < n ==> (#[trigger] rasters@[j])@ == if j < i {
                            s.rasters[j].with_palette(colors@)
                        } else {
                            s.rasters[j]
                        },
                decreases n - i,
            {
                let mut img = rasters.remove(i);
                img.replace_palette(copy_colors(colors.as_slice()));
                rasters.insert(i, img);
                i += 1;
            }
            assert(frames_of(rasters@, *active).rasters =~= apply(s, e@).rasters);
        },
    }
}

} // verus!
