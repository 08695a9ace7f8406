use pixel_paint_rs::icon::{app_icon, draw_line, fill_rect as icon_fill_rect, fill_round_rect, put_pixel};
use pixel_paint_rs::ui::export_png::{fill_circle, fill_rect, Raster};

const RED: [u8; 4] = [255, 0, 0, 255];
const BG: [u8; 4] = [1, 2, 3, 4];

fn pixel(img: &Raster, x: u32, y: u32) -> [u8; 4] {
    let i = ((y * img.width + x) * 4) as usize;
    [img.rgba[i], img.rgba[i + 1], img.rgba[i + 2], img.rgba[i + 3]]
}

fn painted(img: &Raster) -> Vec<(u32, u32)> {
    let mut out = Vec::new();
    for y in 0..img.height {
        for x in 0..img.width {
            if pixel(img, x, y) == RED {
                out.push((x, y));
            }
        }
    }
    out
}

#[test]
fn filled_raster_has_every_pixel() {
    let img = Raster::filled(3, 2, BG);
    assert_eq!(img.rgba.len(), 24);
    assert!((0..2).all(|y| (0..3).all(|x| pixel(&img, x, y) == BG)));
}

#[test]
fn fill_rect_is_clipped_to_the_picture() {
    let mut img = Raster::filled(4, 3, BG);
    fill_rect(&mut img, -1, -1, 2, 2, RED);
    assert_eq!(painted(&img), vec![(0, 0)]);
    fill_rect(&mut img, 3, 2, 5, 5, RED);
    assert_eq!(painted(&img), vec![(0, 0), (3, 2)]);
    fill_rect(&mut img, 1, 1, 0, 3, RED);
    assert_eq!(painted(&img).len(), 2);
}

#[test]
fn fill_circle_paints_the_disc() {
    let mut img = Raster::filled(5, 5, BG);
    fill_circle(&mut img, 2, 2, 1, RED);
    assert_eq!(painted(&img), vec![(2, 1), (1, 2), (2, 2), (3, 2), (2, 3)]);
}

#[test]
fn fill_circle_is_clipped_and_ignores_negative_radius() {
    let mut img = Raster::filled(3, 3, BG);
    fill_circle(&mut img, 0, 0, 1, RED);
    assert_eq!(painted(&img), vec![(0, 0), (1, 0), (0, 1)]);
    let mut img2 = Raster::filled(3, 3, BG);
    fill_circle(&mut img2, 1, 1, -1, RED);
    assert!(painted(&img2).is_empty());
    fill_circle(&mut img2, 1, 1, 0, RED);
    assert_eq!(painted(&img2), vec![(1, 1)]);
}

#[test]
fn icon_put_pixel_and_rect() {
    let mut buf = vec![0u8; 4 * 4 * 4];
    put_pixel(&mut buf, 4, 1, 2, RED);
    assert_eq!(&buf[(2 * 4 + 1) * 4..(2 * 4 + 1) * 4 + 4], &RED);
    // outside the buffer: nothing happens
    put_pixel(&mut buf, 4, 3, 9, RED);
    assert_eq!(buf.iter().filter(|b| **b == 255).count(), 2);
    let mut buf2 = vec![0u8; 4 * 4 * 4];
    icon_fill_rect(&mut buf2, 4, 1, 1, 2, 2, RED);
    let count = buf2.chunks(4).filter(|p| *p == RED).count();
    assert_eq!(count, 4);
}

#[test]
fn icon_round_rect_leaves_corners() {
    let mut buf = vec![0u8; 8 * 8 * 4];
    fill_round_rect(&mut buf, 8, 0, 0, 8, 8, 3, RED);
    let at = |x: usize, y: usize| &buf[(y * 8 + x) * 4..(y * 8 + x) * 4 + 4] == &RED;
    assert!(!at(0, 0));
    assert!(!at(7, 7));
    assert!(at(3, 3));
    assert!(at(0, 4));
}

#[test]
fn icon_line_is_drawn_end_to_end() {
    let mut buf = vec![0u8; 5 * 5 * 4];
    draw_line(&mut buf, 5, 0, 0, 4, 4, RED);
    let count = buf.chunks(4).filter(|p| *p == RED).count();
    assert_eq!(count, 5);
    for i in 0..5usize {
        assert_eq!(&buf[(i * 5 + i) * 4..(i * 5 + i) * 4 + 4], &RED);
    }
}

#[test]
fn app_icon_is_64_square() {
    let icon = app_icon();
    assert_eq!(icon.width, 64);
    assert_eq!(icon.height, 64);
    assert_eq!(icon.rgba.len(), 16384);
    assert_eq!(&icon.rgba[0..4], &[33, 37, 43, 255]);
}

#[test]
fn fill_circle_with_a_huge_radius_covers_a_small_picture() {
    let mut img = Raster::filled(3, 2, BG);
    fill_circle(&mut img, 1, 1, 40000, RED);
    assert_eq!(painted(&img).len(), 6);
    let mut img2 = Raster::filled(3, 2, BG);
    fill_circle(&mut img2, 1, 1, -40000, RED);
    assert!(painted(&img2).is_empty());
}

#[test]
fn round_fill_stays_within_rect_fill() {
    let base = vec![0u8; 6 * 6 * 4];
    let mut round = base.clone();
    let mut rect = base.clone();
    fill_round_rect(&mut round, 6, 0, 0, 6, 6, 2, RED);
    icon_fill_rect(&mut rect, 6, 0, 0, 6, 6, RED);
    for j in 0..base.len() {
        if round[j] != base[j] {
            assert_eq!(round[j], rect[j]);
        }
    }
    let mut round0 = base.clone();
    fill_round_rect(&mut round0, 6, 1, 1, 4, 3, 0, RED);
    let mut rect0 = base.clone();
    icon_fill_rect(&mut rect0, 6, 1, 1, 4, 3, RED);
    assert_eq!(round0, rect0);
}
