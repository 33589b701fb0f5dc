use lcd_effects::image::{LoadedImage, MyImage};
use lcd_effects::lcd::{Lcd, NoDelay};
use lcd_effects::rng::Random;
use lcd_effects::sim::SimDisplay;

fn px(x: usize, y: usize) -> u16 {
    ((x * 251 + y * 241 + 3) % 65536) as u16
}

fn asset(w: u8, h: u8) -> LoadedImage {
    let mut data: Vec<u8> = vec![w, h];
    for y in 0..h as usize {
        for x in 0..w as usize {
            let v = px(x, y);
            data.push((v % 256) as u8);
            data.push((v / 256) as u8);
        }
    }
    LoadedImage::from_bytes(data).unwrap()
}

#[test]
fn set_windows_transmits_inclusive_ends() {
    // for all valid windows, the transmitted end values are x1-1 and y1-1
    let mut lcd = Lcd(SimDisplay::new());
    for x1 in 1..=240u16 {
        let x1 = x1 as u8;
        let x0 = x1 - 1;
        let y1 = 241 - x1 as u16;
        let y1 = y1 as u8;
        let y0 = y1 / 2;
        let base = lcd.0.log.len();
        lcd.set_windows(x0, y0, x1, y1).unwrap();
        assert_eq!(lcd.0.log.len(), base + 5);
        assert_eq!(lcd.0.log[base], (true, vec![0x2A]));
        assert_eq!(lcd.0.log[base + 1], (false, vec![0x00, x0, 0x00, x1 - 1]));
        assert_eq!(lcd.0.log[base + 2], (true, vec![0x2B]));
        assert_eq!(lcd.0.log[base + 3], (false, vec![0x00, y0, 0x00, y1 - 1]));
        assert_eq!(lcd.0.log[base + 4], (true, vec![0x2C]));
    }
}

#[test]
fn init_reproduces_vendor_script() {
    let mut lcd = Lcd(SimDisplay::new());
    let mut delay = NoDelay;
    lcd.init(&mut delay).unwrap();
    // 45 command/parameter pairs, then sleep-out, display-on, inversion-on
    assert_eq!(lcd.0.log.len(), 93);
    assert_eq!(lcd.0.log[0], (true, vec![0x36]));
    assert_eq!(lcd.0.log[1], (false, vec![0xC8]));
    assert_eq!(lcd.0.log[2], (true, vec![0xEF, 0xEB]));
    assert_eq!(lcd.0.log[3], (false, vec![0x14]));
    assert_eq!(lcd.0.log[4], (true, vec![0xFE, 0xEF, 0xEB]));
    assert_eq!(lcd.0.log[90], (true, vec![0x11]));
    assert_eq!(lcd.0.log[91], (true, vec![0x29]));
    assert_eq!(lcd.0.log[92], (true, vec![0x21]));
}

#[test]
fn raw_rectangle_fills_window_only() {
    let mut lcd = Lcd(SimDisplay::new());
    lcd.raw_rectangle(10, 20, 30, 25, 0xBEEF).unwrap();
    let fb = lcd.0.framebuffer();
    for y in 0..240usize {
        for x in 0..240usize {
            let expect = if (10..30).contains(&x) && (20..25).contains(&y) {
                0xBEEF
            } else {
                0
            };
            assert_eq!(fb[y * 240 + x], expect);
        }
    }
}

#[test]
fn noise_rectangle_is_reproducible_per_seed() {
    let mut a = Lcd(SimDisplay::new());
    let mut b = Lcd(SimDisplay::new());
    let mut ra = Random::new();
    let mut rb = Random::new();
    a.noise_rectangle(5, 5, 50, 40, &mut ra).unwrap();
    b.noise_rectangle(5, 5, 50, 40, &mut rb).unwrap();
    assert_eq!(ra.0, rb.0);
    let fa = a.0.framebuffer();
    let fbb = b.0.framebuffer();
    assert_eq!(fa, fbb);
    // the window holds the generator's draws, row-major
    let mut r = Random::new();
    for y in 5..40usize {
        for x in 5..50usize {
            assert_eq!(fa[y * 240 + x], r.get_u16());
        }
    }
    // outside the window nothing was touched
    assert_eq!(fa[0], 0);
    assert_eq!(fa[239 * 240 + 239], 0);
}

#[test]
fn show_image_places_at_origin_offset() {
    let img = asset(6, 5);
    let mut lcd = Lcd(SimDisplay::new());
    lcd.show_image(100, 50, &img).unwrap();
    let fb = lcd.0.framebuffer();
    for y in 0..240usize {
        for x in 0..240usize {
            let expect = if (100..106).contains(&x) && (50..55).contains(&y) {
                px(x - 100, y - 50)
            } else {
                0
            };
            assert_eq!(fb[y * 240 + x], expect);
        }
    }
}

#[test]
fn show_image_clamped_draws_top_rows() {
    let img = asset(6, 5);
    let mut lcd = Lcd(SimDisplay::new());
    lcd.show_image_clamped(10, 10, &img, 2).unwrap();
    let fb = lcd.0.framebuffer();
    for y in 0..240usize {
        for x in 0..240usize {
            let expect = if (10..16).contains(&x) && (10..12).contains(&y) {
                px(x - 10, y - 10)
            } else {
                0
            };
            assert_eq!(fb[y * 240 + x], expect);
        }
    }
    // a clamp beyond the height draws the whole image
    let mut lcd = Lcd(SimDisplay::new());
    lcd.show_image_clamped(10, 10, &img, 99).unwrap();
    let fb = lcd.0.framebuffer();
    assert_eq!(fb[14 * 240 + 15], px(5, 4));
}

#[test]
fn put_pixel_writes_one_cell() {
    let mut lcd = Lcd(SimDisplay::new());
    lcd.put_pixel(7, 11, 0x0F0F).unwrap();
    let fb = lcd.0.framebuffer();
    for y in 0..240usize {
        for x in 0..240usize {
            let expect = if x == 7 && y == 11 { 0x0F0F } else { 0 };
            assert_eq!(fb[y * 240 + x], expect);
        }
    }
}

#[test]
fn pixels_travel_big_endian() {
    let mut lcd = Lcd(SimDisplay::new());
    lcd.put_pixel(0, 0, 0x1234).unwrap();
    // window setup is five transmissions; the payload follows, high byte first
    assert_eq!(lcd.0.log[5], (false, vec![0x12, 0x34]));
}
