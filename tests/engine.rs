use pixel_editor::event::EditEvent;
use pixel_editor::fill::fill_pixels;
use pixel_editor::history::{is_valid_frame_set, EditError, EditHistory};
use pixel_editor::raster::{area, flat_index, Color, Raster, RasterError};
use pixel_editor::shapes::{points_to_offsets, rect_outline_offsets};
use pixel_editor::resize::{remove_blanks, resize, ResizeAnchor};
use pixel_editor::transform::{transform, Transform};

const TRANSPARENT: Color = Color { r: 0, g: 0, b: 0, a: 0 };
const RED: Color = Color { r: 255, g: 0, b: 0, a: 255 };
const BLUE: Color = Color { r: 0, g: 0, b: 255, a: 255 };
const GREEN: Color = Color { r: 0, g: 255, b: 0, a: 255 };

fn blank(w: u8, h: u8) -> Raster {
    Raster::new(w, h, vec![TRANSPARENT, RED, BLUE], vec![0; w as usize * h as usize]).unwrap()
}

fn sorted(mut v: Vec<usize>) -> Vec<usize> {
    v.sort();
    v
}

#[test]
fn round_trip_undo_redo_restores_all_edits() {
    let mut history = EditHistory::new(vec![blank(4, 4)]);
    history.add_line((0, 0), (3, 0), 1).unwrap();
    history.add_pencil((2, 2), 2).unwrap();
    history.add_rect((0, 1), (2, 3), 2).unwrap();
    history.add_fill((3, 3), 1).unwrap();
    history.flip_h().unwrap();
    let expected = history.get_current_image().clone();
    let n = 5;
    for _ in 0..n {
        history.undo().unwrap();
    }
    assert_eq!(history.index(), 0);
    assert_eq!(history.get_current_image(), &blank(4, 4));
    for _ in 0..n {
        history.redo().unwrap();
    }
    assert_eq!(history.get_current_image(), &expected);
    assert_eq!(history.index(), history.events().len());
}

#[test]
fn branch_cut_discards_redo() {
    let mut history = EditHistory::new(vec![blank(4, 4)]);
    history.add_line((0, 0), (3, 0), 1).unwrap();
    history.add_line((0, 1), (3, 1), 1).unwrap();
    history.add_line((0, 2), (3, 2), 1).unwrap();
    assert_eq!(history.events().len(), 3);
    history.undo().unwrap();
    history.add_line((0, 3), (3, 3), 2).unwrap();
    assert_eq!(history.events().len(), 3 - 1 + 1);
    let before = history.get_current_image().clone();
    let index = history.index();
    history.redo().unwrap();
    assert_eq!(history.get_current_image(), &before);
    assert_eq!(history.index(), index);
    assert_eq!(history.get_current_image().get_pixel(8).unwrap(), 0);
    assert_eq!(history.get_current_image().get_pixel(12).unwrap(), 2);
}

#[test]
fn condensation_five_then_sixth() {
    let mut history = EditHistory::new(vec![blank(4, 4)]);
    for x in 0..5u8 {
        history.add_pencil((x % 4, x / 4), 1).unwrap();
    }
    assert_eq!(history.events().len(), 1);
    assert_eq!(history.index(), 1);
    history.add_pencil((1, 1), 1).unwrap();
    assert_eq!(history.events().len(), 2);
    assert_eq!(
        history.events()[1],
        EditEvent::PixelsChange { frame: 0, pixel_idxs: vec![5], color_idx: 1 }
    );
}

#[test]
fn condensation_needs_one_color() {
    let mut history = EditHistory::new(vec![blank(4, 4)]);
    for x in 0..4u8 {
        history.add_pencil((x, 0), 1).unwrap();
    }
    history.add_pencil((0, 1), 2).unwrap();
    assert_eq!(history.events().len(), 5);
}

#[test]
fn flood_fill_uniform_canvas() {
    let img = blank(8, 8);
    let region = fill_pixels(&img, (3, 4)).unwrap();
    assert_eq!(region.len(), 64);
    assert_eq!(sorted(region), (0..64).collect::<Vec<usize>>());
    let mut history = EditHistory::new(vec![img]);
    history.add_fill((3, 4), 1).unwrap();
    assert!(history.get_current_image().get_pixels().iter().all(|p| *p == 1));
    history.add_fill((0, 0), 1).unwrap();
    assert_eq!(history.events().len(), 2);
    match &history.events()[1] {
        EditEvent::PixelsChange { pixel_idxs, color_idx, .. } => {
            assert_eq!(pixel_idxs.len(), 64);
            assert_eq!(*color_idx, 1);
        }
        other => panic!("unexpected event {other:?}"),
    }
    assert!(history.get_current_image().get_pixels().iter().all(|p| *p == 1));
}

#[test]
fn flood_fill_stops_at_other_colors() {
    // A vertical wall of color 2 in column 2 of a 5x3 raster.
    let mut pixels = vec![0u8; 15];
    for y in 0..3 {
        pixels[2 + y * 5] = 2;
    }
    let img = Raster::new(5, 3, vec![TRANSPARENT, RED, BLUE], pixels).unwrap();
    let region = sorted(fill_pixels(&img, (0, 0)).unwrap());
    assert_eq!(region, vec![0, 1, 5, 6, 10, 11]);
    let wall = sorted(fill_pixels(&img, (2, 1)).unwrap());
    assert_eq!(wall, vec![2, 7, 12]);
}

#[test]
fn flood_fill_isolated_seed() {
    let mut pixels = vec![0u8; 9];
    pixels[4] = 1;
    let img = Raster::new(3, 3, vec![TRANSPARENT, RED, BLUE], pixels).unwrap();
    assert!(fill_pixels(&img, (1, 1)).unwrap().is_empty());
    let mut history = EditHistory::new(vec![img]);
    history.add_fill((1, 1), 2).unwrap();
    assert_eq!(history.get_current_image().get_pixel(4).unwrap(), 2);
    assert_eq!(history.get_current_image().get_pixel(0).unwrap(), 0);
}

#[test]
fn flood_fill_out_of_bounds() {
    let img = blank(3, 3);
    assert_eq!(fill_pixels(&img, (3, 0)), Err(RasterError::OutOfBounds));
    let mut history = EditHistory::new(vec![img]);
    assert_eq!(history.add_fill((0, 5), 1), Err(EditError::OutOfBounds));
    assert!(history.is_empty());
}

#[test]
fn remove_only_frame_is_noop() {
    let mut history = EditHistory::new(vec![blank(2, 2)]);
    history.remove_frame().unwrap();
    assert_eq!(history.frame_count(), 1);
    assert!(history.is_empty());
    assert_eq!(history.index(), 0);
}

#[test]
fn palette_change_on_three_frames_and_undo() {
    let palette = vec![TRANSPARENT, BLUE];
    let img = Raster::new(2, 2, palette.clone(), vec![0, 1, 1, 0]).unwrap();
    let mut history = EditHistory::new(vec![img.clone(), img.clone(), img.clone()]);
    let new_palette = vec![GREEN, RED];
    history.add_palette_change(&new_palette).unwrap();
    for i in 0..3 {
        assert_eq!(history.get_image(i).get_palette(), new_palette.as_slice());
        assert_eq!(history.get_image(i).get_pixels(), img.get_pixels());
    }
    history.undo().unwrap();
    for i in 0..3 {
        assert_eq!(history.get_image(i).get_palette(), palette.as_slice());
        assert_eq!(history.get_image(i), &img);
    }
}

#[test]
fn palette_change_same_palette_is_noop() {
    let mut history = EditHistory::new(vec![blank(2, 2)]);
    history
        .add_palette_change(&[TRANSPARENT, RED, BLUE])
        .unwrap();
    assert!(history.is_empty());
}

#[test]
fn palette_change_too_short_is_refused() {
    let img = Raster::new(2, 1, vec![TRANSPARENT, RED, BLUE], vec![0, 2]).unwrap();
    let mut history = EditHistory::new(vec![img]);
    assert_eq!(
        history.add_palette_change(&[TRANSPARENT, RED]),
        Err(EditError::ColorIndexOutOfRange)
    );
    assert_eq!(history.add_palette_change(&[]), Err(EditError::ColorIndexOutOfRange));
    assert!(history.is_empty());
}

#[test]
fn concrete_fill_undo_redo_scenario() {
    let img = Raster::new(4, 4, vec![TRANSPARENT, RED], vec![0; 16]).unwrap();
    let mut history = EditHistory::new(vec![img]);
    history.add_fill((0, 0), 1).unwrap();
    assert_eq!(history.get_current_image().get_pixels(), &[1u8; 16]);
    history.undo().unwrap();
    assert_eq!(history.get_current_image().get_pixels(), &[0u8; 16]);
    history.redo().unwrap();
    assert_eq!(history.get_current_image().get_pixels(), &[1u8; 16]);
}

#[test]
fn pencil_same_color_is_noop() {
    let mut history = EditHistory::new(vec![blank(2, 2)]);
    history.add_pencil((1, 1), 0).unwrap();
    assert!(history.is_empty());
}

#[test]
fn pencil_errors() {
    let mut history = EditHistory::new(vec![blank(2, 2)]);
    assert_eq!(history.add_pencil((2, 0), 1), Err(EditError::OutOfBounds));
    assert_eq!(history.add_pencil((0, 0), 7), Err(EditError::ColorIndexOutOfRange));
    assert!(history.is_empty());
}

#[test]
fn drawing_color_out_of_range() {
    let mut history = EditHistory::new(vec![blank(3, 3)]);
    assert_eq!(history.add_line((0, 0), (2, 2), 3), Err(EditError::ColorIndexOutOfRange));
    assert_eq!(history.add_rect((0, 0), (2, 2), 3), Err(EditError::ColorIndexOutOfRange));
    assert_eq!(history.add_fill((0, 0), 3), Err(EditError::ColorIndexOutOfRange));
    assert_eq!(
        history.add_circle((1, 1), (2, 2), true, 3),
        Err(EditError::ColorIndexOutOfRange)
    );
    assert!(history.is_empty());
}

#[test]
fn frame_select_out_of_range_and_same() {
    let mut history = EditHistory::new(vec![blank(2, 2), blank(2, 2)]);
    assert_eq!(history.add_frame_select(2), Err(EditError::OutOfBounds));
    history.add_frame_select(0).unwrap();
    assert!(history.is_empty());
    history.add_frame_select(1).unwrap();
    assert_eq!(history.active_frame(), 1);
}

#[test]
fn edits_bind_to_frame_of_creation() {
    let mut history = EditHistory::new(vec![blank(2, 2), blank(2, 2)]);
    history.add_frame_select(1).unwrap();
    history.add_line((0, 0), (1, 0), 1).unwrap();
    history.add_frame_select(0).unwrap();
    history.undo().unwrap();
    history.undo().unwrap();
    history.redo().unwrap();
    history.redo().unwrap();
    assert_eq!(history.active_frame(), 0);
    assert_eq!(history.get_image(1).get_pixels(), &[1, 1, 0, 0]);
    assert_eq!(history.get_image(0).get_pixels(), &[0, 0, 0, 0]);
}

#[test]
fn clear_resets_to_zero() {
    let img = Raster::new(2, 2, vec![TRANSPARENT, RED], vec![1, 1, 0, 1]).unwrap();
    let mut history = EditHistory::new(vec![img]);
    history.add_clear().unwrap();
    assert_eq!(history.get_current_image().get_pixels(), &[0, 0, 0, 0]);
    assert_eq!(
        history.events(),
        &[EditEvent::PixelsChange { frame: 0, pixel_idxs: vec![0, 1, 2, 3], color_idx: 0 }]
    );
}

#[test]
fn full_replace_checks() {
    let mut history = EditHistory::new(vec![blank(2, 2)]);
    assert_eq!(history.add_full(vec![0, 1, 2]), Err(EditError::WrongPixelCount));
    assert_eq!(history.add_full(vec![0, 1, 2, 3]), Err(EditError::ColorIndexOutOfRange));
    history.add_full(vec![2, 1, 0, 1]).unwrap();
    assert_eq!(history.get_current_image().get_pixels(), &[2, 1, 0, 1]);
}

#[test]
fn line_wrapper_gives_points_between_ends() {
    let mut history = EditHistory::new(vec![blank(4, 4)]);
    history.add_line((0, 1), (3, 1), 1).unwrap();
    assert_eq!(history.get_current_image().get_pixels(), &[0, 0, 0, 0, 1, 1, 1, 1, 0, 0, 0, 0, 0, 0, 0, 0]);
    history.add_line((0, 0), (3, 3), 2).unwrap();
    for i in [0usize, 5, 10, 15] {
        assert_eq!(history.get_current_image().get_pixel(i).unwrap(), 2);
    }
}

#[test]
fn circle_and_ellipse_wrappers_draw() {
    let mut history = EditHistory::new(vec![blank(9, 9)]);
    history.add_circle((4, 4), (4, 6), true, 1).unwrap();
    let img = history.get_current_image();
    // Radius two around the center: the four axis points are on the outline.
    for (x, y) in [(4u8, 2u8), (4, 6), (2, 4), (6, 4)] {
        assert_eq!(img.get_pixel(flat_index(x, y, 9)).unwrap(), 1);
    }
    assert_eq!(img.get_pixel(flat_index(4, 4, 9)).unwrap(), 0);
    history.add_circle((0, 0), (8, 8), false, 2).unwrap();
    assert!(history.get_current_image().get_pixels().iter().any(|p| *p == 2));
    let mut fresh = EditHistory::new(vec![blank(9, 9)]);
    fresh.add_ellipse((4, 4), (8, 8), true, 1).unwrap();
    let drawn = fresh.get_current_image().get_pixels().iter().filter(|p| **p == 1).count();
    assert!(drawn > 0);
    assert_eq!(fresh.get_current_image().get_pixel(flat_index(4, 4, 9)).unwrap(), 0);
    fresh.add_ellipse((1, 1), (7, 5), false, 2).unwrap();
    assert!(fresh.get_current_image().get_pixels().iter().any(|p| *p == 2));
    assert_eq!(fresh.events().len(), 2);
}

#[test]
fn rect_outline_exact() {
    let r = sorted(rect_outline_offsets((3, 3), (1, 1), 5, 5));
    assert_eq!(r, vec![6, 7, 8, 11, 13, 16, 17, 18]);
    let clipped = sorted(rect_outline_offsets((1, 1), (6, 2), 3, 3));
    assert_eq!(clipped, vec![4, 5, 7, 8]);
    let single = rect_outline_offsets((2, 2), (2, 2), 5, 5);
    assert_eq!(single, vec![12]);
}

#[test]
fn offsets_drop_points_off_grid() {
    let pts = vec![(0isize, 0isize), (-1, 0), (2, 1), (3, 0), (1, 2)];
    assert_eq!(points_to_offsets(&pts, 3, 2), vec![0, 5]);
}

#[test]
fn transforms_exact() {
    let px = [1u8, 2, 3, 4];
    assert_eq!(transform(&px, 2, 2, Transform::FlipH), vec![2, 1, 4, 3]);
    assert_eq!(transform(&px, 2, 2, Transform::FlipV), vec![3, 4, 1, 2]);
    assert_eq!(transform(&px, 2, 2, Transform::RotateCw), vec![3, 1, 4, 2]);
    assert_eq!(transform(&px, 2, 2, Transform::RotateCcw), vec![2, 4, 1, 3]);
    assert_eq!(transform(&px, 2, 2, Transform::ShiftUp), vec![3, 4, 1, 2]);
    assert_eq!(transform(&px, 2, 2, Transform::ShiftDown), vec![3, 4, 1, 2]);
    let row = [1u8, 2, 3];
    assert_eq!(transform(&row, 3, 1, Transform::ShiftLeft), vec![2, 3, 1]);
    assert_eq!(transform(&row, 3, 1, Transform::ShiftRight), vec![3, 1, 2]);
    let col = [1u8, 2, 3];
    assert_eq!(transform(&col, 1, 3, Transform::ShiftUp), vec![2, 3, 1]);
    assert_eq!(transform(&col, 1, 3, Transform::ShiftDown), vec![3, 1, 2]);
}

#[test]
fn history_transforms() {
    let img = Raster::new(2, 2, vec![TRANSPARENT, RED, BLUE, GREEN], vec![0, 1, 2, 3]).unwrap();
    let mut history = EditHistory::new(vec![img]);
    history.flip_h().unwrap();
    assert_eq!(history.get_current_image().get_pixels(), &[1, 0, 3, 2]);
    history.flip_v().unwrap();
    assert_eq!(history.get_current_image().get_pixels(), &[3, 2, 1, 0]);
    history.rotate_cw_180().unwrap();
    assert_eq!(history.get_current_image().get_pixels(), &[0, 1, 2, 3]);
    history.rotate_cw_90().unwrap();
    assert_eq!(history.get_current_image().get_pixels(), &[2, 0, 3, 1]);
    history.rotate_ccw_90().unwrap();
    assert_eq!(history.get_current_image().get_pixels(), &[0, 1, 2, 3]);
    history.rotate_cw_270().unwrap();
    history.rotate_ccw_270().unwrap();
    history.rotate_ccw_180().unwrap();
    assert_eq!(history.get_current_image().get_pixels(), &[3, 2, 1, 0]);
    history.move_up().unwrap();
    assert_eq!(history.get_current_image().get_pixels(), &[1, 0, 3, 2]);
    history.move_down().unwrap();
    history.move_left().unwrap();
    assert_eq!(history.get_current_image().get_pixels(), &[2, 3, 0, 1]);
    history.move_right().unwrap();
    assert_eq!(history.get_current_image().get_pixels(), &[3, 2, 1, 0]);
}

#[test]
fn rotation_needs_square() {
    let mut history = EditHistory::new(vec![blank(3, 2)]);
    assert_eq!(history.rotate_cw_90(), Err(EditError::NotSquare));
    assert_eq!(history.rotate_ccw_270(), Err(EditError::NotSquare));
    assert!(history.is_empty());
}

#[test]
fn raster_construction_errors() {
    assert_eq!(
        Raster::new(2, 2, vec![TRANSPARENT], vec![0, 0, 0]),
        Err(RasterError::WrongPixelCount)
    );
    assert_eq!(
        Raster::new(2, 1, vec![TRANSPARENT], vec![0, 1]),
        Err(RasterError::ColorIndexOutOfRange)
    );
    let img = blank(3, 2);
    assert_eq!(img.get_pixel_index(2, 1), Ok(5));
    assert_eq!(img.get_pixel_index(3, 0), Err(RasterError::OutOfBounds));
    assert_eq!(img.get_pixel(6), Err(RasterError::OutOfBounds));
    assert_eq!(img.get_color(3), Err(RasterError::ColorIndexOutOfRange));
    assert_eq!(area(3, 2), 6);
    assert_eq!(Raster::blank(2, 2, vec![RED]).get_pixels(), &[0, 0, 0, 0]);
}

#[test]
fn frame_set_validity() {
    assert!(is_valid_frame_set(&vec![blank(2, 2), blank(2, 2)]));
    assert!(!is_valid_frame_set(&vec![]));
    assert!(!is_valid_frame_set(&vec![blank(2, 2), blank(2, 3)]));
    let other = Raster::new(2, 2, vec![RED], vec![0; 4]).unwrap();
    assert!(!is_valid_frame_set(&vec![blank(2, 2), other]));
    let empty_palette = Raster::new(0, 0, vec![], vec![]).unwrap();
    assert!(!is_valid_frame_set(&vec![empty_palette]));
}

#[test]
fn first_event_color() {
    let mut history = EditHistory::new(vec![blank(2, 2)]);
    assert_eq!(history.is_first_event(), None);
    history.add_pencil((0, 0), 2).unwrap();
    assert_eq!(history.is_first_event(), Some(BLUE));
    history.add_pencil((1, 0), 2).unwrap();
    assert_eq!(history.is_first_event(), None);
}

#[test]
fn duplicate_then_undo_restores_single_frame() {
    let mut history = EditHistory::new(vec![blank(2, 2)]);
    history.add_pencil((0, 0), 1).unwrap();
    history.add_duplicate_frame().unwrap();
    assert_eq!(history.frame_count(), 2);
    assert_eq!(history.get_images()[1].get_pixels(), &[1, 0, 0, 0]);
    history.undo().unwrap();
    assert_eq!(history.frame_count(), 1);
    assert_eq!(history.active_frame(), 0);
}

fn numbered(w: u8, h: u8) -> Raster {
    let n = w as usize * h as usize;
    let palette: Vec<Color> = (0..n).map(|i| Color { r: i as u8, g: 0, b: 0, a: 255 }).collect();
    Raster::new(w, h, palette, (0..n as u8).collect()).unwrap()
}

#[test]
fn resize_shrink_from_centre_alternates() {
    let img = numbered(3, 3);
    let out = resize(2, 2, ResizeAnchor::Center, &img).unwrap();
    assert_eq!(out.width(), 2);
    assert_eq!(out.height(), 2);
    assert_eq!(out.get_pixels(), &[1, 2, 4, 5]);
    assert_eq!(out.get_palette(), img.get_palette());
}

#[test]
fn resize_grow_with_corners() {
    let img = numbered(2, 2);
    let tl = resize(4, 3, ResizeAnchor::TopLeft, &img).unwrap();
    assert_eq!(tl.get_pixels(), &[0, 1, 0, 0, 2, 3, 0, 0, 0, 0, 0, 0]);
    let br = resize(3, 3, ResizeAnchor::BottomRight, &img).unwrap();
    assert_eq!(br.get_pixels(), &[0, 0, 0, 0, 0, 1, 0, 2, 3]);
    let shrink = resize(1, 2, ResizeAnchor::TopRight, &img).unwrap();
    assert_eq!(shrink.get_pixels(), &[1, 3]);
}

#[test]
fn resize_grow_width_shrink_height_from_centre() {
    // Rows are taken first (the top one), then one column is given, at the
    // right since the alternation has moved on.
    let img = numbered(2, 2);
    let out = resize(3, 1, ResizeAnchor::Center, &img).unwrap();
    assert_eq!(out.get_pixels(), &[2, 3, 0]);
}

#[test]
fn resize_anchor_sides() {
    assert!(ResizeAnchor::TopLeft.is_left() && ResizeAnchor::TopLeft.is_top());
    assert!(ResizeAnchor::BottomRight.is_right() && ResizeAnchor::BottomRight.is_bottom());
    let c = ResizeAnchor::Center;
    assert!(!c.is_left() && !c.is_right() && !c.is_top() && !c.is_bottom());
}

#[test]
fn remove_blanks_crops_to_content() {
    let mut pixels = vec![0u8; 16];
    pixels[5] = 1;
    pixels[10] = 2;
    let img = Raster::new(4, 4, vec![TRANSPARENT, RED, BLUE], pixels).unwrap();
    let out = remove_blanks(img);
    assert_eq!(out.width(), 2);
    assert_eq!(out.height(), 2);
    assert_eq!(out.get_pixels(), &[1, 0, 0, 2]);
}

#[test]
fn remove_blanks_leaves_blank_or_opaque_images() {
    let all_clear = blank(3, 3);
    assert_eq!(remove_blanks(all_clear.clone()), all_clear);
    let opaque = Raster::new(2, 2, vec![RED, BLUE], vec![0, 1, 1, 0]).unwrap();
    assert_eq!(remove_blanks(opaque.clone()), opaque);
}

#[test]
fn submit_checks_and_records_events() {
    let mut history = EditHistory::new(vec![blank(2, 2), blank(2, 2)]);
    let bad_pixel = EditEvent::PixelsChange { frame: 0, pixel_idxs: vec![4], color_idx: 1 };
    let bad_frame = EditEvent::PixelsChange { frame: 2, pixel_idxs: vec![0], color_idx: 1 };
    let bad_color = EditEvent::PixelsChange { frame: 0, pixel_idxs: vec![0], color_idx: 3 };
    let bad_full = EditEvent::Full { frame: 0, pixels: vec![0; 3] };
    let bad_palette = EditEvent::PaletteChange(vec![]);
    for e in [&bad_pixel, &bad_frame, &bad_color, &bad_full, &bad_palette] {
        assert!(!history.can_submit(e));
    }
    let good = EditEvent::PixelsChange { frame: 1, pixel_idxs: vec![0, 3], color_idx: 2 };
    assert!(history.can_submit(&good));
    assert!(history.can_submit(&EditEvent::FrameRemove(1)));
    assert!(!history.can_submit(&EditEvent::FrameSelect(2)));
    history.add_event(good.clone());
    assert_eq!(history.events(), &[good]);
    assert_eq!(history.get_image(1).get_pixels(), &[2, 0, 0, 2]);
    assert_eq!(history.get_image(0).get_pixels(), &[0, 0, 0, 0]);
}

#[test]
fn insert_frame_with_content() {
    let mut history = EditHistory::new(vec![blank(2, 2)]);
    assert_eq!(history.insert_frame(vec![1, 1]), Err(EditError::WrongPixelCount));
    assert_eq!(history.insert_frame(vec![1, 1, 1, 9]), Err(EditError::ColorIndexOutOfRange));
    history.insert_frame(vec![1, 2, 1, 2]).unwrap();
    assert_eq!(history.frame_count(), 2);
    assert_eq!(history.active_frame(), 1);
    assert_eq!(history.get_current_image().get_pixels(), &[1, 2, 1, 2]);
    assert_eq!(history.events(), &[EditEvent::FrameAdd { idx: 0, content: vec![1, 2, 1, 2] }]);
}

#[test]
fn angled_line_joins_both_ends() {
    let mut history = EditHistory::new(vec![blank(4, 4)]);
    history.add_line((3, 1), (0, 0), 1).unwrap();
    let img = history.get_current_image();
    assert_eq!(img.get_pixel(0).unwrap(), 1);
    assert_eq!(img.get_pixel(7).unwrap(), 1);
    assert_eq!(img.get_pixels().iter().filter(|p| **p == 1).count(), 4);
}
