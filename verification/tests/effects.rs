use lcd_effects::image::{LoadedImage, MyImage};
use lcd_effects::lcd::Lcd;
use lcd_effects::rng::Random;
use lcd_effects::sim::SimDisplay;

fn px(x: usize, y: usize) -> u16 {
    ((x * 251 + y * 241 + 3) % 65536) as u16
}

fn asset_full() -> LoadedImage {
    let mut data: Vec<u8> = vec![240, 240];
    for y in 0..240usize {
        for x in 0..240usize {
            let v = px(x, y);
            data.push((v % 256) as u8);
            data.push((v / 256) as u8);
        }
    }
    LoadedImage::from_bytes(data).unwrap()
}

fn assert_shows_source(lcd: &Lcd<SimDisplay>) {
    let fb = lcd.0.framebuffer();
    assert_eq!(fb.len(), 57600);
    for y in 0..240usize {
        for x in 0..240usize {
            assert_eq!(fb[y * 240 + x], px(x, y));
        }
    }
}

#[test]
fn full_image_shows_source() {
    let img = asset_full();
    let mut lcd = Lcd(SimDisplay::new());
    lcd.full_image(&img).unwrap();
    assert_shows_source(&lcd);
}

#[test]
fn noisy1_final_frame_equals_source() {
    let img = asset_full();
    let mut lcd = Lcd(SimDisplay::new());
    let mut rand = Random::new();
    lcd.full_image_noisy1(&img, &mut rand).unwrap();
    assert_shows_source(&lcd);
}

#[test]
fn noisy20_final_frame_equals_source() {
    let img = asset_full();
    let mut lcd = Lcd(SimDisplay::new());
    let mut rand = Random::new();
    lcd.full_image_noisy20(&img, &mut rand).unwrap();
    assert_shows_source(&lcd);
}

#[test]
fn noisy_final_frame_equals_source() {
    let img = asset_full();
    let mut lcd = Lcd(SimDisplay::new());
    let mut rand = Random::new();
    lcd.full_image_noisy(&img, &mut rand).unwrap();
    assert_shows_source(&lcd);
}

#[test]
fn noisy_variants_leave_generator_reproducible() {
    let img = asset_full();
    let mut a = Lcd(SimDisplay::new());
    let mut b = Lcd(SimDisplay::new());
    let mut ra = Random::new();
    let mut rb = Random::new();
    a.full_image_noisy20(&img, &mut ra).unwrap();
    b.full_image_noisy20(&img, &mut rb).unwrap();
    assert_eq!(ra.0, rb.0);
    assert_eq!(a.0.framebuffer(), b.0.framebuffer());
}

#[test]
fn interlaced_final_frame_equals_source() {
    let img = asset_full();
    let mut lcd = Lcd(SimDisplay::new());
    lcd.full_image_interlaced(&img).unwrap();
    assert_shows_source(&lcd);
}

#[test]
fn horizontal_shift_rotates_each_row() {
    let img = asset_full();
    for offset in [0u8, 3, 120, 239, 240] {
        let mut lcd = Lcd(SimDisplay::new());
        lcd.full_image_horizontal_shift(&img, offset).unwrap();
        let fb = lcd.0.framebuffer();
        for y in 0..240usize {
            for x in 0..240usize {
                assert_eq!(fb[y * 240 + x], px((x + offset as usize) % 240, y));
            }
        }
    }
}

#[test]
fn tri_final_frame_equals_source() {
    let img = asset_full();
    let mut lcd = Lcd(SimDisplay::new());
    lcd.full_image_tri(&img).unwrap();
    assert_shows_source(&lcd);
}

#[test]
fn logic_final_frame_equals_source() {
    let img = asset_full();
    let mut lcd = Lcd(SimDisplay::new());
    lcd.full_image_logic(&img).unwrap();
    assert_shows_source(&lcd);
}

#[test]
fn logictri_final_frame_equals_source() {
    let img = asset_full();
    let mut lcd = Lcd(SimDisplay::new());
    lcd.full_image_logictri(&img).unwrap();
    assert_shows_source(&lcd);
}

#[test]
fn wave_final_frame_equals_source() {
    let img = asset_full();
    let mut lcd = Lcd(SimDisplay::new());
    lcd.full_image_wave(&img).unwrap();
    assert_shows_source(&lcd);
}

#[test]
fn wave1_final_frame_equals_source() {
    let img = asset_full();
    let mut lcd = Lcd(SimDisplay::new());
    lcd.full_image_wave1(&img).unwrap();
    assert_shows_source(&lcd);
}

#[test]
fn rot_final_frame_equals_source() {
    let img = asset_full();
    let mut lcd = Lcd(SimDisplay::new());
    lcd.full_image_rot(&img).unwrap();
    assert_shows_source(&lcd);
}
