use pixel_editor::event::EditEvent;
use pixel_editor::event::EditEvent::{FrameAdd, FrameRemove, FrameSelect, PixelsChange};
use pixel_editor::history::EditHistory;
use pixel_editor::raster::{Color, Raster};

const TRANSPARENT: Color = Color { r: 0, g: 0, b: 0, a: 0 };
const BLUE: Color = Color { r: 0, g: 0, b: 255, a: 255 };
const RED: Color = Color { r: 255, g: 0, b: 0, a: 255 };
const GREEN: Color = Color { r: 0, g: 255, b: 0, a: 255 };

fn q_pc(idx: usize, color: u8) -> EditEvent {
    PixelsChange {
        frame: 0,
        pixel_idxs: vec![idx],
        color_idx: color,
    }
}

fn q_mpc(idx: &[usize], color: u8) -> EditEvent {
    PixelsChange {
        frame: 0,
        pixel_idxs: idx.to_vec(),
        color_idx: color,
    }
}

fn q_ai(idx: usize, image: &Raster) -> EditEvent {
    FrameAdd {
        idx,
        content: image.get_pixels().to_vec(),
    }
}

#[test]
fn init_state() {
    let original_image = Raster::new(3, 3, vec![TRANSPARENT, BLUE], vec![0; 3 * 3]).unwrap();
    let history = EditHistory::new(vec![original_image.clone()]);
    assert_eq!(history.active_frame(), 0);
    assert_eq!(history.events(), &[] as &[EditEvent]);
    assert_eq!(history.base_images(), history.edited_images());
    assert_eq!(history.base_images()[0], history.get_current_image().clone());
    assert_eq!(history.get_current_image(), &original_image);
    assert_eq!(history.index(), 0);
}

#[test]
fn condensing() {
    let original_image = Raster::new(3, 3, vec![TRANSPARENT, BLUE], vec![0; 3 * 3]).unwrap();
    let mut history = EditHistory::new(vec![original_image]);
    history.add_pencil((0, 0), 1).unwrap();
    assert_eq!(history.events(), &[q_pc(0, 1)]);
    assert_eq!(history.index(), 1);
    history.add_pencil((1, 0), 1).unwrap();
    assert_eq!(history.events(), &[q_pc(0, 1), q_pc(1, 1)]);
    assert_eq!(history.index(), 2);
    history.add_pencil((2, 0), 1).unwrap();
    assert_eq!(history.events(), &[q_pc(0, 1), q_pc(1, 1), q_pc(2, 1)]);
    assert_eq!(history.index(), 3);
    history.add_pencil((0, 1), 1).unwrap();
    assert_eq!(
        history.events(),
        &[q_pc(0, 1), q_pc(1, 1), q_pc(2, 1), q_pc(3, 1)]
    );
    assert_eq!(history.index(), 4);
    history.add_pencil((1, 1), 1).unwrap();
    assert_eq!(history.events(), &[q_mpc(&[4, 3, 2, 1, 0], 1)]);
    assert_eq!(history.index(), 1);
    history.add_pencil((2, 1), 1).unwrap();
    assert_eq!(history.events(), &[q_mpc(&[4, 3, 2, 1, 0], 1), q_pc(5, 1)]);
    assert_eq!(history.index(), 2);
}

#[test]
fn undo_redo_single_frame() {
    let original_image = Raster::new(3, 3, vec![TRANSPARENT, BLUE], vec![0; 3 * 3]).unwrap();
    let mut history = EditHistory::new(vec![original_image]);
    assert_eq!(history.get_current_image().get_pixel(0).unwrap(), 0);
    assert_eq!(history.get_current_image().get_pixel(4).unwrap(), 0);
    history.add_pencil((0, 0), 1).unwrap();
    history.add_pencil((1, 1), 1).unwrap();
    assert_eq!(history.events(), &[q_pc(0, 1), q_pc(4, 1)]);
    assert_eq!(history.index(), 2);
    assert_eq!(history.get_current_image().get_pixel(0).unwrap(), 1);
    assert_eq!(history.get_current_image().get_pixel(4).unwrap(), 1);
    history.undo().unwrap();
    assert_eq!(history.events(), &[q_pc(0, 1), q_pc(4, 1)]);
    assert_eq!(history.index(), 1);
    assert_eq!(history.get_current_image().get_pixel(0).unwrap(), 1);
    assert_eq!(history.get_current_image().get_pixel(4).unwrap(), 0);
    history.redo().unwrap();
    assert_eq!(history.events(), &[q_pc(0, 1), q_pc(4, 1)]);
    assert_eq!(history.index(), 2);
    assert_eq!(history.get_current_image().get_pixel(0).unwrap(), 1);
    assert_eq!(history.get_current_image().get_pixel(4).unwrap(), 1);
}

#[test]
fn remove_first_of_three_frames() {
    let palette = vec![TRANSPARENT, BLUE, RED, GREEN];
    let image1 = Raster::new(3, 3, palette.clone(), vec![1; 9]).unwrap();
    let image2 = Raster::new(3, 3, palette.clone(), vec![2; 9]).unwrap();
    let image3 = Raster::new(3, 3, palette, vec![3; 9]).unwrap();
    let mut history = EditHistory::new(vec![image1.clone(), image2.clone(), image3.clone()]);
    assert_eq!(history.active_frame(), 0);
    assert_eq!(
        history.edited_images(),
        &[image1.clone(), image2.clone(), image3.clone()]
    );
    assert_eq!(
        history.base_images(),
        &[image1.clone(), image2.clone(), image3.clone()]
    );
    assert_eq!(history.events(), &[] as &[EditEvent]);
    assert_eq!(history.index(), 0);
    history.remove_frame().unwrap();
    assert_eq!(history.active_frame(), 0);
    assert_eq!(history.edited_images(), &[image2.clone(), image3.clone()]);
    assert_eq!(history.base_images(), &[image1, image2, image3]);
    assert_eq!(history.events(), &[FrameRemove(0)]);
    assert_eq!(history.index(), 1);
}

#[test]
fn remove_second_of_three_frames() {
    let palette = vec![TRANSPARENT, BLUE, RED, GREEN];
    let image1 = Raster::new(3, 3, palette.clone(), vec![1; 9]).unwrap();
    let image2 = Raster::new(3, 3, palette.clone(), vec![2; 9]).unwrap();
    let image3 = Raster::new(3, 3, palette, vec![3; 9]).unwrap();
    let mut history = EditHistory::new(vec![image1.clone(), image2.clone(), image3.clone()]);
    assert_eq!(history.active_frame(), 0);
    assert_eq!(
        history.edited_images(),
        &[image1.clone(), image2.clone(), image3.clone()]
    );
    assert_eq!(
        history.base_images(),
        &[image1.clone(), image2.clone(), image3.clone()]
    );
    assert_eq!(history.events(), &[] as &[EditEvent]);
    assert_eq!(history.index(), 0);
    history.add_frame_select(1).unwrap();
    assert_eq!(history.active_frame(), 1);
    assert_eq!(
        history.edited_images(),
        &[image1.clone(), image2.clone(), image3.clone()]
    );
    assert_eq!(
        history.base_images(),
        &[image1.clone(), image2.clone(), image3.clone()]
    );
    assert_eq!(history.events(), &[FrameSelect(1)]);
    assert_eq!(history.index(), 1);
    history.remove_frame().unwrap();
    assert_eq!(history.active_frame(), 1);
    assert_eq!(history.edited_images(), &[image1.clone(), image3.clone()]);
    assert_eq!(history.base_images(), &[image1, image2, image3]);
    assert_eq!(history.events(), &[FrameSelect(1), FrameRemove(1)]);
    assert_eq!(history.index(), 2);
}

#[test]
fn remove_third_of_three_frames() {
    let palette = vec![TRANSPARENT, BLUE, RED, GREEN];
    let image1 = Raster::new(3, 3, palette.clone(), vec![1; 9]).unwrap();
    let image2 = Raster::new(3, 3, palette.clone(), vec![2; 9]).unwrap();
    let image3 = Raster::new(3, 3, palette, vec![3; 9]).unwrap();
    let mut history = EditHistory::new(vec![image1.clone(), image2.clone(), image3.clone()]);
    assert_eq!(history.active_frame(), 0);
    assert_eq!(
        history.edited_images(),
        &[image1.clone(), image2.clone(), image3.clone()]
    );
    assert_eq!(
        history.base_images(),
        &[image1.clone(), image2.clone(), image3.clone()]
    );
    assert_eq!(history.events(), &[] as &[EditEvent]);
    assert_eq!(history.index(), 0);
    history.add_frame_select(2).unwrap();
    assert_eq!(history.active_frame(), 2);
    assert_eq!(
        history.edited_images(),
        &[image1.clone(), image2.clone(), image3.clone()]
    );
    assert_eq!(
        history.base_images(),
        &[image1.clone(), image2.clone(), image3.clone()]
    );
    assert_eq!(history.events(), &[FrameSelect(2)]);
    assert_eq!(history.index(), 1);
    history.remove_frame().unwrap();
    assert_eq!(history.active_frame(), 1);
    assert_eq!(history.edited_images(), &[image1.clone(), image2.clone()]);
    assert_eq!(history.base_images(), &[image1, image2, image3]);
    assert_eq!(history.events(), &[FrameSelect(2), FrameRemove(2)]);
    assert_eq!(history.index(), 2);
}

#[test]
fn add_blank_frame() {
    let palette = vec![TRANSPARENT, BLUE, RED, GREEN];
    let image1 = Raster::new(3, 3, palette.clone(), vec![1; 9]).unwrap();
    let image2 = Raster::new(3, 3, palette, vec![0; 9]).unwrap();
    let mut history = EditHistory::new(vec![image1.clone()]);
    history.add_blank_frame().unwrap();
    assert_eq!(history.active_frame(), 1);
    assert_eq!(history.edited_images(), &[image1.clone(), image2.clone()]);
    assert_eq!(history.base_images(), &[image1]);
    assert_eq!(history.events(), &[q_ai(0, &image2)]);
    assert_eq!(history.index(), 1);
    assert_eq!(history.get_current_image(), &image2)
}

#[test]
fn add_duplicate_frame() {
    let palette = vec![TRANSPARENT, BLUE, RED, GREEN];
    let image1 = Raster::new(3, 3, palette, vec![1; 9]).unwrap();
    let mut history = EditHistory::new(vec![image1.clone()]);
    history.add_duplicate_frame().unwrap();
    assert_eq!(history.active_frame(), 1);
    assert_eq!(history.edited_images(), &[image1.clone(), image1.clone()]);
    assert_eq!(history.base_images(), &[image1.clone()]);
    assert_eq!(history.events(), &[q_ai(0, &image1)]);
    assert_eq!(history.index(), 1);
    assert_eq!(history.get_current_image(), &image1)
}

#[test]
fn palette_swap() {
    let orig_palette = vec![TRANSPARENT, BLUE];
    let new_palette = vec![TRANSPARENT, RED];
    let image1 = Raster::new(3, 3, orig_palette, vec![1; 9]).unwrap();
    let mut history = EditHistory::new(vec![image1.clone(), image1]);
    assert_eq!(history.edited_images()[0].get_color(1).unwrap(), BLUE);
    assert_eq!(history.edited_images()[1].get_color(1).unwrap(), BLUE);
    history.add_palette_change(&new_palette).unwrap();
    assert_eq!(history.edited_images()[0].get_color(1).unwrap(), RED);
    assert_eq!(history.edited_images()[1].get_color(1).unwrap(), RED);
}
