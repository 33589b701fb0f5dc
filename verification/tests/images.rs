use lcd_effects::image::{gradient, ImageBuffer512, ImageBuffer8k, LoadedImage, MyImage};

fn px(x: usize, y: usize) -> u16 {
    ((x * 251 + y * 241 + 3) % 65536) as u16
}

fn asset(w: u8, h: u8) -> LoadedImage {
    let mut data: Vec<u8> = vec![w, h];
    for y in 0..h as usize {
        for x in 0..w as usize {
            let v = px(x, y);
            data.push((v % 256) as u8);
            data.push((v / 256) as u8);
        }
    }
    LoadedImage::from_bytes(data).unwrap()
}

#[test]
fn arena_8k_clamps_height_to_fit() {
    // 100 * 100 * 2 bytes would overflow the 8192-byte arena:
    // the height shrinks to 8192 / 100 / 2 = 40, not an error.
    let img = ImageBuffer8k::new(100, 100);
    assert_eq!(img.width(), 100);
    assert_eq!(img.height(), 40);
    assert_eq!(img.buffer().len(), 2 * 100 * 40);
}

#[test]
fn arena_8k_keeps_fitting_dimensions() {
    let img = ImageBuffer8k::new(64, 64);
    assert_eq!(img.width(), 64);
    assert_eq!(img.height(), 64);
    assert_eq!(img.buffer().len(), 8192);
}

#[test]
fn arena_512_clamps_pixel_count() {
    let img = ImageBuffer512::new(16, 16);
    assert_eq!(img.width(), 16);
    assert_eq!(img.height(), 255 / 16);
    let img = ImageBuffer512::new(4, 4);
    assert_eq!(img.height(), 4);
}

#[test]
fn pixel_roundtrip() {
    let mut img = ImageBuffer8k::new(8, 8);
    assert_eq!(img.get_pixel_u16(3, 2), 0);
    img.set_pixel_b(3, 2, [0x34, 0x12]).unwrap();
    assert_eq!(img.get_pixel_u16(3, 2), 0x1234);
    assert_eq!(img.get_pixel_b(3, 2), [0x34, 0x12]);
    // little-endian pair at the row-major offset
    assert_eq!(img.buffer()[2 * (2 * 8 + 3)], 0x34);
    assert_eq!(img.buffer()[2 * (2 * 8 + 3) + 1], 0x12);
}

#[test]
fn loaded_image_decodes_header_and_pixels() {
    let img = asset(5, 3);
    assert_eq!(img.width(), 5);
    assert_eq!(img.height(), 3);
    assert_eq!(img.buffer().len(), 2 * 5 * 3);
    for y in 0..3 {
        for x in 0..5 {
            assert_eq!(img.get_pixel_u16(x, y), px(x as usize, y as usize));
        }
    }
}

#[test]
fn loaded_image_rejects_mutation() {
    let mut img = asset(4, 4);
    assert!(img.set_pixel_b(0, 0, [1, 2]).is_err());
    // nothing changed
    assert_eq!(img.get_pixel_u16(0, 0), px(0, 0));
}

#[test]
fn loaded_image_rejects_bad_blob() {
    assert!(LoadedImage::from_bytes(vec![]).is_err());
    assert!(LoadedImage::from_bytes(vec![2]).is_err());
    // header says 2x2 but only one pixel follows
    assert!(LoadedImage::from_bytes(vec![2, 2, 0, 0]).is_err());
    // exact length is accepted
    assert!(LoadedImage::from_bytes(vec![1, 1, 0xAB, 0xCD]).is_ok());
}

#[test]
fn swap_xy_swaps_dimensions_only() {
    let mut img = ImageBuffer8k::new(8, 4);
    img.set_pixel_b(5, 1, [0x11, 0x22]).unwrap();
    let before: Vec<u8> = img.buffer().to_vec();
    img.swap_xy();
    assert_eq!(img.width(), 4);
    assert_eq!(img.height(), 8);
    assert_eq!(img.buffer(), &before[..]);
}

#[test]
fn gradient_uniform_source_gives_uniform_row() {
    // a 4x4 image holding 0x1234 everywhere: the sampled gradient is a
    // 4-pixel row of 0x1234 regardless of the interpolation path
    let mut img = ImageBuffer8k::new(4, 4);
    for y in 0..4 {
        for x in 0..4 {
            img.set_pixel_b(x, y, [0x34, 0x12]).unwrap();
        }
    }
    let g = gradient(&img, 0, 0, 3, 3, 4);
    assert_eq!(g.width(), 4);
    assert_eq!(g.height(), 1);
    for i in 0..4 {
        assert_eq!(g.get_pixel_u16(i, 0), 0x1234);
    }
}

#[test]
fn gradient_samples_truncated_line() {
    let img = asset(4, 4);
    let g = gradient(&img, 0, 0, 3, 3, 4);
    // sample i sits at (3*i/4, 3*i/4): (0,0), (0,0), (1,1), (2,2)
    assert_eq!(g.get_pixel_u16(0, 0), px(0, 0));
    assert_eq!(g.get_pixel_u16(1, 0), px(0, 0));
    assert_eq!(g.get_pixel_u16(2, 0), px(1, 1));
    assert_eq!(g.get_pixel_u16(3, 0), px(2, 2));
}

#[test]
fn gradient_descending_line_truncates_toward_zero() {
    let img = asset(8, 8);
    let g = gradient(&img, 6, 0, 0, 0, 4);
    // dx = -6: sample i sits at 6 - 6*i/4: 6, 5, 3, 2
    assert_eq!(g.get_pixel_u16(0, 0), px(6, 0));
    assert_eq!(g.get_pixel_u16(1, 0), px(5, 0));
    assert_eq!(g.get_pixel_u16(2, 0), px(3, 0));
    assert_eq!(g.get_pixel_u16(3, 0), px(2, 0));
}

#[test]
fn mirror_reverses_with_documented_offset() {
    let img = asset(3, 3);
    let g = gradient(&img, 0, 0, 2, 2, 9);
    let m = g.mirror_gradient();
    // entry i of the mirror holds source entry count - i; entry 0, whose
    // source index would be one past the end, is zero
    assert_eq!(m.get_pixel_u16(0, 0), 0);
    for i in 1..9u8 {
        assert_eq!(m.get_pixel_u16(i, 0), g.get_pixel_u16(9 - i, 0));
    }
}

#[test]
fn mirror_twice_is_near_involution() {
    let img = asset(3, 3);
    let g = gradient(&img, 0, 0, 2, 2, 9);
    let mm = g.mirror_gradient().mirror_gradient();
    // mirroring twice restores every pixel except the boundary pixel 0
    assert_eq!(mm.get_pixel_u16(0, 0), 0);
    for i in 1..9u8 {
        assert_eq!(mm.get_pixel_u16(i, 0), g.get_pixel_u16(i, 0));
    }
}
