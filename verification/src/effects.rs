//! Transition effect engine.
//!
//! Each effect takes borrowed access to one 240x240 source image and
//! exclusive access to the display, and streams a deterministic sequence of
//! windowed writes. Every effect runs to completion and leaves the display
//! showing its final frame; the randomized and partial effects end with a
//! full blit of the source, so their contract — like that of every
//! full-frame effect — is that on success the modelled framebuffer equals
//! the source image exactly. The distortion and noise effects also pin
//! their whole transmission trace: per-pixel spec functions give every
//! intermediate frame's formula, and each effect's `ensures` states the
//! exact event sequence sent — frame count, row order, windows and wire
//! bytes — as a pure function of the source image (and, for the noise
//! reveals, the generator's starting state). A transport fault aborts the
//! effect at the current write; nothing is promised of the failed send
//! itself, so the contracts speak of the success path alone.

use vstd::prelude::*;
use crate::device::{be_bytes, lemma_grid_to_flat, lemma_interpret_fb_len, TxEvent};
use crate::image::{ImgView, MyImage};
use crate::lcd::{image_rect_pixels, window_events, Lcd, Transport, TransportFault};
use crate::rng::{lcg_iter, lcg_next, lcg_u8, lemma_lcg_iter_add, Random};
use crate::wave::{spec_wave, wave};
use vstd::arithmetic::div_mod::{
    lemma_div_basics, lemma_div_is_ordered, lemma_div_is_ordered_by_denominator, lemma_div_of0,
    lemma_mod_add_multiples_vanish, lemma_mod_bound, lemma_small_mod,
};

verus! {

/// The transmissions of one full-row write: the window protocol for row `y`
/// and the row's 240 pixels in wire order.
pub open spec fn row_events(y: u8, row: Seq<u16>) -> Seq<TxEvent> {
    window_events(0, y, 240, (y + 1) as u8).push(TxEvent::Data(be_bytes(row)))
}

impl<T: Transport> Lcd<T> {
    /// Streams one full 240-pixel row into row `y`.
    fn write_row(&mut self, y: u8, row: &Vec<u16>) -> (r: Result<(), TransportFault>)
        requires
            y < 240,
            row@.len() == 240,
        ensures
            r is Ok ==> final(self).events() == old(self).events() + row_events(y, row@),
            r is Ok ==> ({
                let fb0 = old(self).device().fb;
                let fb1 = final(self).device().fb;
                &&& fb1.len() == 57600
                &&& forall|sx: int, sy: int|
                    0 <= sx < 240 && 0 <= sy < 240 ==> #[trigger] fb1[sy * 240 + sx] == (if sy
                        == y {
                        row@[sx]
                    } else {
                        fb0[sy * 240 + sx]
                    })
            }),
    {
        self.write_window(0, y, 240, y + 1, row)
    }

    /// Full blit: one window covering the whole 240x240 surface, the source
    /// streamed unmodified — exactly the window protocol for the full screen
    /// followed by one data transmission holding every source pixel in wire
    /// order. On success the displayed framebuffer equals the source image,
    /// whatever was shown before.
    pub fn full_image<I: MyImage>(&mut self, img: &I) -> (r: Result<(), TransportFault>)
        requires
            img.inv(),
            img.img().w == 240,
            img.img().h == 240,
        ensures
            r is Ok ==> final(self).device().fb == img.img().pixels,
            r is Ok ==> final(self).events() == old(self).events() + window_events(
                0,
                0,
                240,
                240,
            ).push(TxEvent::Data(be_bytes(img.img().pixels))),
    {
        proof {
            img.lemma_view_wf();
        }
        let pix = image_rect_pixels(img, 0, 0, 240, 240);
        let res = self.write_window(0, 0, 240, 240, &pix);
        proof {
            if res is Ok {
                let fb1 = final(self).device().fb;
                assert forall|x: int, y: int| 0 <= x < 240 && 0 <= y < 240 implies #[trigger] fb1[y
                    * 240 + x] == img.img().pixels[y * 240 + x] by {
                    assert(pix@[y * 240 + x] == img.img().pixel(x, y));
                }
                lemma_grid_to_flat(fb1, img.img().pixels);
                assert forall|x: int, y: int| 0 <= x < 240 && 0 <= y < 240 implies #[trigger] pix@[y
                    * 240 + x] == img.img().pixels[y * 240 + x] by {}
                lemma_grid_to_flat(pix@, img.img().pixels);
            }
        }
        res
    }

    /// Windowed noise reveal, single pixels: 400000 random single-pixel
    /// windows copied from the source, then the mandatory terminal full
    /// blit, which guarantees the final frame regardless of the random
    /// placements. The generator advances by exactly two draws per tile.
    /// One tile of the single-pixel noise reveal: two draws pick a cell and
    /// its source pixel is streamed into a 1x1 window there.
    fn noisy1_tile<I: MyImage>(&mut self, img: &I, random: &mut Random) -> (r: Result<
        (),
        TransportFault,
    >)
        requires
            img.inv(),
            img.img().w == 240,
            img.img().h == 240,
        ensures
            r is Ok ==> final(random).0 == lcg_iter(old(random).0, 2),
            r is Ok ==> final(self).events() == old(self).events() + noisy1_tile_events(
                img.img(),
                old(random).0,
            ),
    {
        let ghost s0 = random.0;
        proof {
            assert(lcg_iter(s0, 1) == lcg_next(lcg_iter(s0, 0)));
            assert(lcg_iter(s0, 2) == lcg_next(lcg_iter(s0, 1)));
        }
        let rx = random.get_u8();
        let ry = random.get_u8();
        proof {
            lemma_mod_bound(rx as int, 240);
            lemma_mod_bound(ry as int, 240);
        }
        let x = rx % 240;
        let y = ry % 240;
        let pix = image_rect_pixels(img, x, y, 1, 1);
        let res = self.write_window(x, y, x + 1, y + 1, &pix);
        proof {
            if res is Ok {
                assert(pix@[0 * (1 as int) + 0] == img.img().pixel(x as int + 0, y as int + 0));
                assert(pix@ =~= seq![img.img().pixel(x as int, y as int)]);
                assert(final(self).events() =~= old(self).events() + noisy1_tile_events(
                    img.img(),
                    s0,
                ));
            }
        }
        res
    }

    /// Windowed noise reveal, single pixels: 400000 random single-pixel
    /// windows copied from the source, then the mandatory terminal full
    /// blit, which guarantees the final frame regardless of the random
    /// placements. The whole transmission trace is a function of the image
    /// and the generator's starting state alone, and the generator advances
    /// by exactly two draws per tile.
    pub fn full_image_noisy1<I: MyImage>(&mut self, img: &I, random: &mut Random) -> (r: Result<
        (),
        TransportFault,
    >)
        requires
            img.inv(),
            img.img().w == 240,
            img.img().h == 240,
        ensures
            r is Ok ==> final(self).device().fb == img.img().pixels,
            r is Ok ==> final(random).0 == lcg_iter(old(random).0, 800000),
            r is Ok ==> final(self).events() == old(self).events() + noisy1_trace(
                img.img(),
                old(random).0,
                400000,
            ) + window_events(0, 0, 240, 240).push(TxEvent::Data(be_bytes(img.img().pixels))),
    {
        let ghost s0 = random.0;
        proof {
            assert(self.events() =~= old(self).events() + noisy1_trace(img.img(), s0, 0));
        }
        let mut i: u32 = 0;
        while i < 400000
            invariant
                img.inv(),
                img.img().w == 240,
                img.img().h == 240,
                i <= 400000,
                random.0 == lcg_iter(s0, (2 * i) as nat),
                self.events() == old(self).events() + noisy1_trace(img.img(), s0, i as int),
            decreases 400000 - i,
        {
            proof {
                lemma_lcg_iter_add(s0, (2 * i) as nat, 2);
            }
            self.noisy1_tile(img, random)?;
            proof {
                assert(noisy1_trace(img.img(), s0, i + 1) == noisy1_trace(img.img(), s0, i as int)
                    + noisy1_tile_events(img.img(), lcg_iter(s0, (2 * i) as nat)));
                assert(self.events() =~= old(self).events() + noisy1_trace(img.img(), s0, i + 1));
            }
            i = i + 1;
        }
        let res = self.full_image(img);
        proof {
            if res is Ok {
                assert(final(self).events() =~= old(self).events() + noisy1_trace(
                    img.img(),
                    s0,
                    400000,
                ) + window_events(0, 0, 240, 240).push(TxEvent::Data(be_bytes(img.img().pixels))));
            }
        }
        res
    }

    /// One tile of the 20-pixel noise reveal: two draws pick a cell and the
    /// source row segment there is streamed into a 20x1 window.
    fn noisy20_tile<I: MyImage>(&mut self, img: &I, random: &mut Random) -> (r: Result<
        (),
        TransportFault,
    >)
        requires
            img.inv(),
            img.img().w == 240,
            img.img().h == 240,
        ensures
            r is Ok ==> final(random).0 == lcg_iter(old(random).0, 2),
            r is Ok ==> final(self).events() == old(self).events() + noisy20_tile_events(
                img.img(),
                old(random).0,
            ),
    {
        let ghost s0 = random.0;
        proof {
            assert(lcg_iter(s0, 1) == lcg_next(lcg_iter(s0, 0)));
            assert(lcg_iter(s0, 2) == lcg_next(lcg_iter(s0, 1)));
        }
        let rx = random.get_u8();
        let ry = random.get_u8();
        proof {
            lemma_mod_bound(rx as int, 220);
            lemma_mod_bound(ry as int, 240);
        }
        let x = rx % 220;
        let y = ry % 240;
        let pix = image_rect_pixels(img, x, y, 20, 1);
        let res = self.write_window(x, y, x + 20, y + 1, &pix);
        proof {
            if res is Ok {
                assert forall|k: int| 0 <= k < 20 implies #[trigger] pix@[k] == img.img().pixel(
                    x as int + k,
                    y as int,
                ) by {
                    assert(pix@[0 * (20 as int) + k] == img.img().pixel(
                        x as int + k,
                        y as int + 0,
                    ));
                }
                assert(pix@ =~= Seq::new(20, |k: int| img.img().pixel(x + k, y as int)));
                assert(final(self).events() =~= old(self).events() + noisy20_tile_events(
                    img.img(),
                    s0,
                ));
            }
        }
        res
    }

    /// Windowed noise reveal, 20-pixel tiles: 10000 random one-row tiles
    /// copied from the source, then the mandatory terminal full blit. The
    /// whole transmission trace is a function of the image and the
    /// generator's starting state alone.
    pub fn full_image_noisy20<I: MyImage>(&mut self, img: &I, random: &mut Random) -> (r: Result<
        (),
        TransportFault,
    >)
        requires
            img.inv(),
            img.img().w == 240,
            img.img().h == 240,
        ensures
            r is Ok ==> final(self).device().fb == img.img().pixels,
            r is Ok ==> final(random).0 == lcg_iter(old(random).0, 20000),
            r is Ok ==> final(self).events() == old(self).events() + noisy20_trace(
                img.img(),
                old(random).0,
                10000,
            ) + window_events(0, 0, 240, 240).push(TxEvent::Data(be_bytes(img.img().pixels))),
    {
        let ghost s0 = random.0;
        proof {
            assert(self.events() =~= old(self).events() + noisy20_trace(img.img(), s0, 0));
        }
        let mut i: u32 = 0;
        while i < 10000
            invariant
                img.inv(),
                img.img().w == 240,
                img.img().h == 240,
                i <= 10000,
                random.0 == lcg_iter(s0, (2 * i) as nat),
                self.events() == old(self).events() + noisy20_trace(img.img(), s0, i as int),
            decreases 10000 - i,
        {
            proof {
                lemma_lcg_iter_add(s0, (2 * i) as nat, 2);
            }
            self.noisy20_tile(img, random)?;
            proof {
                assert(noisy20_trace(img.img(), s0, i + 1) == noisy20_trace(
                    img.img(),
                    s0,
                    i as int,
                ) + noisy20_tile_events(img.img(), lcg_iter(s0, (2 * i) as nat)));
                assert(self.events() =~= old(self).events() + noisy20_trace(img.img(), s0, i + 1));
            }
            i = i + 1;
        }
        let res = self.full_image(img);
        proof {
            if res is Ok {
                assert(final(self).events() =~= old(self).events() + noisy20_trace(
                    img.img(),
                    s0,
                    10000,
                ) + window_events(0, 0, 240, 240).push(TxEvent::Data(be_bytes(img.img().pixels))));
            }
        }
        res
    }

    /// One 11-pixel tile of the jittered noise reveal: the tile is read at a
    /// random position but placed at a nearby random offset below `d`, which
    /// is the effect's smearing radius. The generator advances by exactly
    /// four draws.
    fn noisy_tile<I: MyImage>(&mut self, img: &I, random: &mut Random, d: u8) -> (r: Result<
        (),
        TransportFault,
    >)
        requires
            img.inv(),
            img.img().w == 240,
            img.img().h == 240,
            1 <= d <= 10,
        ensures
            r is Ok ==> final(random).0 == lcg_iter(old(random).0, 4),
            r is Ok ==> final(self).events() == old(self).events() + noisy_tile_events(
                img.img(),
                old(random).0,
                d,
            ),
            r is Ok ==> final(self).device().fb.len() == 57600,
    {
        let ghost s0 = random.0;
        proof {
            assert(lcg_iter(s0, 1) == lcg_next(lcg_iter(s0, 0)));
            assert(lcg_iter(s0, 2) == lcg_next(lcg_iter(s0, 1)));
            assert(lcg_iter(s0, 3) == lcg_next(lcg_iter(s0, 2)));
            assert(lcg_iter(s0, 4) == lcg_next(lcg_iter(s0, 3)));
        }
        let rx = random.get_u8();
        let ry = random.get_u8();
        let rox = random.get_u8();
        let roy = random.get_u8();
        proof {
            lemma_mod_bound(rx as int, (229 - d) as int);
            lemma_mod_bound(ry as int, (240 - d) as int);
            lemma_mod_bound(rox as int, d as int);
            lemma_mod_bound(roy as int, d as int);
        }
        let x = rx % (229 - d);
        let y = ry % (240 - d);
        let ox = rox % d;
        let oy = roy % d;
        let pix = image_rect_pixels(img, x, y, 11, 1);
        let res = self.write_window(x + ox, y + oy, x + ox + 11, y + oy + 1, &pix);
        proof {
            if res is Ok {
                lemma_interpret_fb_len(final(self).events());
                assert forall|k: int| 0 <= k < 11 implies #[trigger] pix@[k] == img.img().pixel(
                    x as int + k,
                    y as int,
                ) by {
                    assert(pix@[0 * (11 as int) + k] == img.img().pixel(
                        x as int + k,
                        y as int + 0,
                    ));
                }
                assert(pix@ =~= Seq::new(11, |k: int| img.img().pixel(x + k, y as int)));
                assert(final(self).events() =~= old(self).events() + noisy_tile_events(
                    img.img(),
                    s0,
                    d,
                ));
            }
        }
        match res {
            Ok(()) => Ok(()),
            Err(e) => Err(e),
        }
    }

    /// Windowed noise reveal, 11-pixel jittered tiles in three passes of
    /// shrinking smear radius, then the mandatory terminal full blit. The
    /// whole transmission trace is a pure function of the image and the
    /// generator's starting state: two runs with an equal seed and image
    /// transmit identical bytes.
    pub fn full_image_noisy<I: MyImage>(&mut self, img: &I, random: &mut Random) -> (r: Result<
        (),
        TransportFault,
    >)
        requires
            img.inv(),
            img.img().w == 240,
            img.img().h == 240,
        ensures
            r is Ok ==> final(self).device().fb == img.img().pixels,
            r is Ok ==> final(random).0 == lcg_iter(old(random).0, 240000),
            r is Ok ==> final(self).events() == old(self).events() + noisy_trace(
                img.img(),
                old(random).0,
            ) + window_events(0, 0, 240, 240).push(TxEvent::Data(be_bytes(img.img().pixels))),
    {
        let ghost s0 = random.0;
        proof {
            assert(self.events() =~= old(self).events() + noisy_pass_trace(img.img(), s0, 10, 0));
        }
        let mut i: u32 = 0;
        while i < 20000
            invariant
                img.inv(),
                img.img().w == 240,
                img.img().h == 240,
                i <= 20000,
                random.0 == lcg_iter(s0, (4 * i) as nat),
                self.events() == old(self).events() + noisy_pass_trace(
                    img.img(),
                    s0,
                    10,
                    i as int,
                ),
            decreases 20000 - i,
        {
            proof {
                lemma_lcg_iter_add(s0, (4 * i) as nat, 4);
            }
            self.noisy_tile(img, random, 10)?;
            proof {
                assert(noisy_pass_trace(img.img(), s0, 10, i + 1) == noisy_pass_trace(
                    img.img(),
                    s0,
                    10,
                    i as int,
                ) + noisy_tile_events(img.img(), lcg_iter(s0, (4 * i) as nat), 10));
                assert(self.events() =~= old(self).events() + noisy_pass_trace(
                    img.img(),
                    s0,
                    10,
                    i + 1,
                ));
            }
            i = i + 1;
        }
        let ghost s1 = lcg_iter(s0, 80000);
        proof {
            assert(self.events() =~= old(self).events() + noisy_pass_trace(img.img(), s0, 10, 20000)
                + noisy_pass_trace(img.img(), s1, 5, 0));
        }
        let mut i: u32 = 0;
        while i < 20000
            invariant
                img.inv(),
                img.img().w == 240,
                img.img().h == 240,
                i <= 20000,
                s1 == lcg_iter(s0, 80000),
                random.0 == lcg_iter(s0, (80000 + 4 * i) as nat),
                self.events() == old(self).events() + noisy_pass_trace(img.img(), s0, 10, 20000)
                    + noisy_pass_trace(img.img(), s1, 5, i as int),
            decreases 20000 - i,
        {
            proof {
                lemma_lcg_iter_add(s0, (80000 + 4 * i) as nat, 4);
                lemma_lcg_iter_add(s0, 80000, (4 * i) as nat);
            }
            self.noisy_tile(img, random, 5)?;
            proof {
                assert(noisy_pass_trace(img.img(), s1, 5, i + 1) == noisy_pass_trace(
                    img.img(),
                    s1,
                    5,
                    i as int,
                ) + noisy_tile_events(img.img(), lcg_iter(s1, (4 * i) as nat), 5));
                assert(self.events() =~= old(self).events() + noisy_pass_trace(
                    img.img(),
                    s0,
                    10,
                    20000,
                ) + noisy_pass_trace(img.img(), s1, 5, i + 1));
            }
            i = i + 1;
        }
        let ghost s2 = lcg_iter(s0, 160000);
        proof {
            assert(self.events() =~= old(self).events() + (noisy_pass_trace(
                img.img(),
                s0,
                10,
                20000,
            ) + noisy_pass_trace(img.img(), s1, 5, 20000)) + noisy_pass_trace(
                img.img(),
                s2,
                2,
                0,
            ));
        }
        let mut i: u32 = 0;
        while i < 20000
            invariant
                img.inv(),
                img.img().w == 240,
                img.img().h == 240,
                i <= 20000,
                s1 == lcg_iter(s0, 80000),
                s2 == lcg_iter(s0, 160000),
                random.0 == lcg_iter(s0, (160000 + 4 * i) as nat),
                self.events() == old(self).events() + (noisy_pass_trace(img.img(), s0, 10, 20000)
                    + noisy_pass_trace(img.img(), s1, 5, 20000)) + noisy_pass_trace(
                    img.img(),
                    s2,
                    2,
                    i as int,
                ),
            decreases 20000 - i,
        {
            proof {
                lemma_lcg_iter_add(s0, (160000 + 4 * i) as nat, 4);
                lemma_lcg_iter_add(s0, 160000, (4 * i) as nat);
            }
            self.noisy_tile(img, random, 2)?;
            proof {
                assert(noisy_pass_trace(img.img(), s2, 2, i + 1) == noisy_pass_trace(
                    img.img(),
                    s2,
                    2,
                    i as int,
                ) + noisy_tile_events(img.img(), lcg_iter(s2, (4 * i) as nat), 2));
                assert(self.events() =~= old(self).events() + (noisy_pass_trace(
                    img.img(),
                    s0,
                    10,
                    20000,
                ) + noisy_pass_trace(img.img(), s1, 5, 20000)) + noisy_pass_trace(
                    img.img(),
                    s2,
                    2,
                    i + 1,
                ));
            }
            i = i + 1;
        }
        let res = self.full_image(img);
        proof {
            if res is Ok {
                assert(final(self).events() =~= old(self).events() + noisy_trace(img.img(), s0)
                    + window_events(0, 0, 240, 240).push(TxEvent::Data(be_bytes(img.img().pixels))));
            }
        }
        res
    }

    /// One interlaced sweep pass: every fourth row from `oy` receives a
    /// partial row shifted in by `ox`, doubled onto the row below. The
    /// sweep's exact schedule is aesthetic — only the terminal full blit of
    /// the enclosing effect fixes the final frame — but the transmissions of
    /// each pass are pinned exactly.
    fn interlace_pass<I: MyImage>(&mut self, img: &I, ox: u8, oy: u8) -> (r: Result<
        (),
        TransportFault,
    >)
        requires
            img.inv(),
            img.img().w == 240,
            img.img().h == 240,
            ox <= 15,
            oy <= 2,
        ensures
            r is Ok ==> final(self).events() == old(self).events() + interlace_pass_events(
                img.img(),
                ox,
                oy,
                56,
            ),
    {
        proof {
            img.lemma_view_wf();
            assert(self.events() =~= old(self).events() + interlace_pass_events(
                img.img(),
                ox,
                oy,
                0,
            ));
        }
        let mut i: u8 = 0;
        while i < 56
            invariant
                img.inv(),
                img.img().w == 240,
                img.img().h == 240,
                ox <= 15,
                oy <= 2,
                i <= 56,
                self.events() == old(self).events() + interlace_pass_events(
                    img.img(),
                    ox,
                    oy,
                    i as int,
                ),
            decreases 56 - i,
        {
            let y = oy + i * 4;
            let pix = image_rect_pixels(img, 0, y, 240 - ox, 1);
            self.write_window(ox, y, 240, y + 1, &pix)?;
            self.write_window(0, y + 1, 240 - ox, y + 2, &pix)?;
            proof {
                assert forall|k: int| 0 <= k < 240 - ox implies #[trigger] pix@[k]
                    == img.img().pixel(k, y as int) by {
                    assert(pix@[0 * (240 - ox as int) + k] == img.img().pixel(
                        0 + k,
                        y as int + 0,
                    ));
                }
                assert(pix@ =~= Seq::new((240 - ox) as nat, |k: int| img.img().pixel(k, y as int)));
                assert(interlace_pass_events(img.img(), ox, oy, i + 1) == interlace_pass_events(
                    img.img(),
                    ox,
                    oy,
                    i as int,
                ) + interlace_row_events(img.img(), ox, y));
                assert(self.events() =~= old(self).events() + interlace_pass_events(
                    img.img(),
                    ox,
                    oy,
                    i + 1,
                ));
            }
            i = i + 1;
        }
        Ok(())
    }

    /// Interlaced reveal: four scripted passes of partial-row writes
    /// sweeping column offsets in from both edges across row pairs, then the
    /// mandatory terminal full blit that fixes the final frame.
    pub fn full_image_interlaced<I: MyImage>(&mut self, img: &I) -> (r: Result<
        (),
        TransportFault,
    >)
        requires
            img.inv(),
            img.img().w == 240,
            img.img().h == 240,
        ensures
            r is Ok ==> final(self).device().fb == img.img().pixels,
    {
        let mut j: u8 = 0;
        while j < 16
            invariant
                img.inv(),
                img.img().w == 240,
                img.img().h == 240,
                j <= 16,
            decreases 16 - j,
        {
            self.interlace_pass(img, 15 - j, 0)?;
            j = j + 1;
        }
        self.interlace_pass(img, 0, 2)?;
        let mut j: u8 = 0;
        while j < 16
            invariant
                img.inv(),
                img.img().w == 240,
                img.img().h == 240,
                j <= 16,
            decreases 16 - j,
        {
            self.interlace_pass(img, j, 0)?;
            self.interlace_pass(img, 15 - j, 2)?;
            j = j + 1;
        }
        self.interlace_pass(img, 0, 0)?;
        let mut j: u8 = 0;
        while j < 16
            invariant
                img.inv(),
                img.img().w == 240,
                img.img().h == 240,
                j <= 16,
            decreases 16 - j,
        {
            self.interlace_pass(img, 15 - j, 0)?;
            self.interlace_pass(img, j, 2)?;
            j = j + 1;
        }
        self.interlace_pass(img, 0, 0)?;
        let mut j: u8 = 0;
        while j < 16
            invariant
                img.inv(),
                img.img().w == 240,
                img.img().h == 240,
                j <= 16,
            decreases 16 - j,
        {
            self.interlace_pass(img, 15 - j, 0)?;
            self.interlace_pass(img, 15 - j, 2)?;
            j = j + 1;
        }
        self.full_image(img)
    }

    /// Horizontal circular shift: each row is split at `offset` and written
    /// as two windowed segments, so the displayed row `y` holds
    /// `source[y][(x + offset) mod 240]`; `offset` 0 (or 240) is the
    /// identity.
    pub fn full_image_horizontal_shift<I: MyImage>(&mut self, img: &I, offset: u8) -> (r: Result<
        (),
        TransportFault,
    >)
        requires
            img.inv(),
            img.img().w == 240,
            img.img().h == 240,
            offset <= 240,
        ensures
            r is Ok ==> ({
                let fb1 = final(self).device().fb;
                &&& fb1.len() == 57600
                &&& forall|x: int, y: int|
                    0 <= x < 240 && 0 <= y < 240 ==> #[trigger] fb1[y * 240 + x]
                        == img.img().pixels[y * 240 + ((x + offset) % 240)]
            }),
    {
        proof {
            img.lemma_view_wf();
            lemma_interpret_fb_len(self.0.events());
        }
        let mut y: u8 = 0;
        while y < 240
            invariant
                img.inv(),
                img.img().w == 240,
                img.img().h == 240,
                offset <= 240,
                y <= 240,
                self.device().fb.len() == 57600,
                forall|sx: int, sy: int|
                    0 <= sx < 240 && 0 <= sy < y ==> #[trigger] self.device().fb[sy * 240 + sx]
                        == img.img().pixels[sy * 240 + ((sx + offset) % 240)],
            decreases 240 - y,
        {
            if offset < 240 {
                let pixr = image_rect_pixels(img, offset, y, 240 - offset, 1);
                self.write_window(0, y, 240 - offset, y + 1, &pixr)?;
            }
            if offset > 0 {
                let pixl = image_rect_pixels(img, 0, y, offset, 1);
                self.write_window(240 - offset, y, 240, y + 1, &pixl)?;
            }
            proof {
                assert forall|sx: int| 0 <= sx < 240 implies #[trigger] self.device().fb[(
                y as int) * 240 + sx] == img.img().pixels[(y as int) * 240 + ((sx + offset)
                    % 240)] by {
                    if sx < 240 - offset {
                        lemma_small_mod((sx + offset) as nat, 240);
                    } else {
                        lemma_mod_add_multiples_vanish(sx + offset - 240, 240);
                        lemma_small_mod((sx + offset - 240) as nat, 240);
                    }
                }
            }
            y = y + 1;
        }
        Ok(())
    }

    /// Bitwise neighborhood composition, OR with an AND of two shifted
    /// samples, sweeping the offset from 30 to 0; at offset 0 every sample
    /// is the pixel itself, so the final frame equals the source. Rows keep
    /// their stale tail beyond the shrinking sweep width, exactly as drawn.
    pub fn full_image_tri<I: MyImage>(&mut self, img: &I) -> (r: Result<(), TransportFault>)
        requires
            img.inv(),
            img.img().w == 240,
            img.img().h == 240,
        ensures
            r is Ok ==> final(self).device().fb == img.img().pixels,
    {
        proof {
            img.lemma_view_wf();
            lemma_interpret_fb_len(self.0.events());
        }
        let mut row: Vec<u16> = Vec::new();
        let mut k: u8 = 0;
        while k < 240
            invariant
                k <= 240,
                row@.len() == k,
            decreases 240 - k,
        {
            row.push(0);
            k = k + 1;
        }
        let mut t: u8 = 0;
        while t <= 30
            invariant
                img.inv(),
                img.img().w == 240,
                img.img().h == 240,
                t <= 31,
                row@.len() == 240,
                self.device().fb.len() == 57600,
                t == 31 ==> forall|sx: int, sy: int|
                    0 <= sx < 240 && 0 <= sy < 240 ==> #[trigger] self.device().fb[sy * 240 + sx]
                        == img.img().pixels[sy * 240 + sx],
            decreases 31 - t,
        {
            let tt: u8 = 30 - t;
            let mut y: u8 = 0;
            while y < 240 - tt
                invariant
                    img.inv(),
                    img.img().w == 240,
                    img.img().h == 240,
                    tt == 30 - t,
                    t <= 30,
                    y <= 240 - tt,
                    row@.len() == 240,
                    self.device().fb.len() == 57600,
                    tt == 0 ==> forall|sx: int, sy: int|
                        0 <= sx < 240 && 0 <= sy < y ==> #[trigger] self.device().fb[sy * 240 + sx]
                            == img.img().pixels[sy * 240 + sx],
                decreases 240 - tt - y,
            {
                tri_fill_row(img, y, t, &mut row);
                self.write_row(y, &row)?;
                y = y + 1;
            }
            t = t + 1;
        }
        proof {
            lemma_grid_to_flat(self.device().fb, img.img().pixels);
        }
        Ok(())
    }

    /// Bitwise neighborhood composition, OR of four samples offset by the
    /// shrinking `tt` along both axes; out-of-range samples produce a white
    /// fill. At `tt` 0 the four samples coincide with the pixel, so the
    /// final frame equals the source.
    pub fn full_image_logic<I: MyImage>(&mut self, img: &I) -> (r: Result<(), TransportFault>)
        requires
            img.inv(),
            img.img().w == 240,
            img.img().h == 240,
        ensures
            r is Ok ==> final(self).device().fb == img.img().pixels,
            r is Ok ==> final(self).events() == old(self).events() + logic_trace(img.img(), 51),
    {
        proof {
            img.lemma_view_wf();
            lemma_interpret_fb_len(self.0.events());
            assert(self.events() =~= old(self).events() + logic_trace(img.img(), 0));
        }
        let mut t: u8 = 0;
        while t <= 50
            invariant
                img.inv(),
                img.img().w == 240,
                img.img().h == 240,
                t <= 51,
                self.device().fb.len() == 57600,
                self.events() == old(self).events() + logic_trace(img.img(), t as int),
                t == 51 ==> forall|sx: int, sy: int|
                    0 <= sx < 240 && 0 <= sy < 240 ==> #[trigger] self.device().fb[sy * 240 + sx]
                        == img.img().pixels[sy * 240 + sx],
            decreases 51 - t,
        {
            proof {
                assert(self.events() =~= old(self).events() + logic_trace(img.img(), t as int) + logic_frame_events(
                    img.img(),
                    t as int,
                    0,
                ));
            }
            let tt: i32 = 50 - t as i32;
            let mut y: u8 = 0;
            while y < 240
                invariant
                    img.inv(),
                    img.img().w == 240,
                    img.img().h == 240,
                    tt == 50 - t,
                    t <= 50,
                    y <= 240,
                    self.device().fb.len() == 57600,
                    self.events() == old(self).events() + logic_trace(img.img(), t as int) + logic_frame_events(
                        img.img(),
                        t as int,
                        y as int,
                    ),
                    tt == 0 ==> forall|sx: int, sy: int|
                        0 <= sx < 240 && 0 <= sy < y ==> #[trigger] self.device().fb[sy * 240 + sx]
                            == img.img().pixels[sy * 240 + sx],
                decreases 240 - y,
            {
                let row = logic_row(img, y, t);
                self.write_row(y, &row)?;
                proof {
                    assert(logic_frame_events(img.img(), t as int, y + 1) == logic_frame_events(img.img(), t as int, y as int)
                        + row_events(y, logic_row_spec(img.img(), y as int, t as int)));
                    assert(self.events() =~= old(self).events() + logic_trace(img.img(), t as int)
                        + logic_frame_events(img.img(), t as int, y + 1));
                }
                y = y + 1;
            }
            proof {
                assert(logic_trace(img.img(), t + 1) == logic_trace(img.img(), t as int) + logic_frame_events(
                    img.img(),
                    t as int,
                    240,
                ));
            }
            t = t + 1;
        }
        proof {
            lemma_grid_to_flat(self.device().fb, img.img().pixels);
        }
        Ok(())
    }

    /// Bitwise neighborhood composition, AND of three samples offset by the
    /// shrinking `tt`; out-of-range samples produce a black fill. At `tt` 0
    /// the samples coincide with the pixel, so the final frame equals the
    /// source.
    pub fn full_image_logictri<I: MyImage>(&mut self, img: &I) -> (r: Result<(), TransportFault>)
        requires
            img.inv(),
            img.img().w == 240,
            img.img().h == 240,
        ensures
            r is Ok ==> final(self).device().fb == img.img().pixels,
            r is Ok ==> final(self).events() == old(self).events() + logictri_trace(img.img(), 51),
    {
        proof {
            img.lemma_view_wf();
            lemma_interpret_fb_len(self.0.events());
            assert(self.events() =~= old(self).events() + logictri_trace(img.img(), 0));
        }
        let mut t: u8 = 0;
        while t <= 50
            invariant
                img.inv(),
                img.img().w == 240,
                img.img().h == 240,
                t <= 51,
                self.device().fb.len() == 57600,
                self.events() == old(self).events() + logictri_trace(img.img(), t as int),
                t == 51 ==> forall|sx: int, sy: int|
                    0 <= sx < 240 && 0 <= sy < 240 ==> #[trigger] self.device().fb[sy * 240 + sx]
                        == img.img().pixels[sy * 240 + sx],
            decreases 51 - t,
        {
            proof {
                assert(self.events() =~= old(self).events() + logictri_trace(img.img(), t as int) + logictri_frame_events(
                    img.img(),
                    t as int,
                    0,
                ));
            }
            let tt: i32 = 50 - t as i32;
            let mut y: u8 = 0;
            while y < 240
                invariant
                    img.inv(),
                    img.img().w == 240,
                    img.img().h == 240,
                    tt == 50 - t,
                    t <= 50,
                    y <= 240,
                    self.device().fb.len() == 57600,
                    self.events() == old(self).events() + logictri_trace(img.img(), t as int) + logictri_frame_events(
                        img.img(),
                        t as int,
                        y as int,
                    ),
                    tt == 0 ==> forall|sx: int, sy: int|
                        0 <= sx < 240 && 0 <= sy < y ==> #[trigger] self.device().fb[sy * 240 + sx]
                            == img.img().pixels[sy * 240 + sx],
                decreases 240 - y,
            {
                let row = logictri_row(img, y, t);
                self.write_row(y, &row)?;
                proof {
                    assert(logictri_frame_events(img.img(), t as int, y + 1) == logictri_frame_events(img.img(), t as int, y as int)
                        + row_events(y, logictri_row_spec(img.img(), y as int, t as int)));
                    assert(self.events() =~= old(self).events() + logictri_trace(img.img(), t as int)
                        + logictri_frame_events(img.img(), t as int, y + 1));
                }
                y = y + 1;
            }
            proof {
                assert(logictri_trace(img.img(), t + 1) == logictri_trace(img.img(), t as int) + logictri_frame_events(
                    img.img(),
                    t as int,
                    240,
                ));
            }
            t = t + 1;
        }
        proof {
            lemma_grid_to_flat(self.device().fb, img.img().pixels);
        }
        Ok(())
    }
}

/// A non-negative value shrinks (weakly) under division by a positive one.
proof fn lemma_div_le(x: int, d: int)
    requires
        0 <= x,
        1 <= d,
    ensures
        0 <= x / d <= x,
{
    lemma_div_is_ordered_by_denominator(x, 1, d);
    lemma_div_basics(x);
    lemma_div_is_ordered(0, x, d);
    lemma_div_of0(d);
}

/// Integer division truncating toward zero, the rounding the original
/// distortion arithmetic uses (machine signed division).
pub open spec fn trunc_div(a: int, d: int) -> int {
    if a >= 0 {
        a / d
    } else {
        -((-a) / d)
    }
}

/// Division truncating toward zero, as the distortion arithmetic uses it.
fn div_trunc(a: i32, d: u32) -> (r: i32)
    requires
        1 <= d <= 1000,
        -100000 <= a <= 100000,
    ensures
        r == trunc_div(a as int, d as int),
        a == 0 ==> r == 0,
        -100000 <= r <= 100000,
{
    if a >= 0 {
        proof {
            lemma_div_le(a as int, d as int);
        }
        ((a as u32) / d) as i32
    } else {
        proof {
            lemma_div_le(-(a as int), d as int);
        }
        -((((-a) as u32) / d) as i32)
    }
}

/// Distance of a coordinate from the screen center's column or row.
fn center_dist(c: u8, center: u8) -> (r: u32)
    requires
        c < 240,
        center <= 122,
    ensures
        r == (if c >= center {
            c - center
        } else {
            center - c
        }),
        r <= 240,
{
    if c >= center {
        (c - center) as u32
    } else {
        (center - c) as u32
    }
}

/// One full row of the OR-composition frame at progress `t`, pixel by pixel
/// the composition formula; on the last frame the row equals the source row.
fn logic_row<I: MyImage>(img: &I, y: u8, t: u8) -> (row: Vec<u16>)
    requires
        img.inv(),
        img.img().w == 240,
        img.img().h == 240,
        y < 240,
        t <= 50,
    ensures
        row@ == logic_row_spec(img.img(), y as int, t as int),
        row@.len() == 240,
        forall|q: int|
            0 <= q < 240 ==> #[trigger] row@[q] == logic_pixel(img.img(), q, y as int, t as int),
        t == 50 ==> forall|q: int|
            0 <= q < 240 ==> #[trigger] row@[q] == img.img().pixels[(y as int) * 240 + q],
{
    let tt: i32 = 50 - t as i32;
    let mut row: Vec<u16> = Vec::new();
    let mut x: u8 = 0;
    while x < 240
        invariant
            img.inv(),
            img.img().w == 240,
            img.img().h == 240,
            tt == 50 - t,
            t <= 50,
            y < 240,
            x <= 240,
            row@.len() == x,
            forall|q: int|
                0 <= q < x ==> #[trigger] row@[q] == logic_pixel(img.img(), q, y as int, t as int),
            t == 50 ==> forall|q: int|
                0 <= q < x ==> #[trigger] row@[q] == img.img().pixels[(y as int) * 240 + q],
        decreases 240 - x,
    {
        let x1 = x as i32 - tt;
        let x2 = x as i32 + tt;
        let y1 = y as i32 - tt;
        let y2 = y as i32 + tt;
        let v: u16 = if x1 >= 0 && x1 < 240 && x2 >= 0 && x2 < 240 && y1 >= 0 && y1 < 240 && y2
            >= 0 && y2 < 240 {
            let pa = img.get_pixel_u16(x1 as u8, y);
            let pb = img.get_pixel_u16(x2 as u8, y);
            let pc = img.get_pixel_u16(x, y1 as u8);
            let pd = img.get_pixel_u16(x, y2 as u8);
            let o = pa | pb | pc | pd;
            proof {
                if tt == 0 {
                    assert(o == pa) by (bit_vector)
                        requires
                            o == pa | pb | pc | pd,
                            pb == pa,
                            pc == pa,
                            pd == pa,
                    ;
                }
            }
            o
        } else {
            0xFFFF
        };
        row.push(v);
        x = x + 1;
    }
    proof {
        assert(row@ =~= logic_row_spec(img.img(), y as int, t as int));
    }
    row
}

/// One full row of the AND-composition frame at progress `t`, pixel by
/// pixel the composition formula; on the last frame the row equals the
/// source row.
fn logictri_row<I: MyImage>(img: &I, y: u8, t: u8) -> (row: Vec<u16>)
    requires
        img.inv(),
        img.img().w == 240,
        img.img().h == 240,
        y < 240,
        t <= 50,
    ensures
        row@ == logictri_row_spec(img.img(), y as int, t as int),
        row@.len() == 240,
        forall|q: int|
            0 <= q < 240 ==> #[trigger] row@[q] == logictri_pixel(
                img.img(),
                q,
                y as int,
                t as int,
            ),
        t == 50 ==> forall|q: int|
            0 <= q < 240 ==> #[trigger] row@[q] == img.img().pixels[(y as int) * 240 + q],
{
    let tt: i32 = 50 - t as i32;
    let mut row: Vec<u16> = Vec::new();
    let mut x: u8 = 0;
    while x < 240
        invariant
            img.inv(),
            img.img().w == 240,
            img.img().h == 240,
            tt == 50 - t,
            t <= 50,
            y < 240,
            x <= 240,
            row@.len() == x,
            forall|q: int|
                0 <= q < x ==> #[trigger] row@[q] == logictri_pixel(
                    img.img(),
                    q,
                    y as int,
                    t as int,
                ),
            t == 50 ==> forall|q: int|
                0 <= q < x ==> #[trigger] row@[q] == img.img().pixels[(y as int) * 240 + q],
        decreases 240 - x,
    {
        let x1 = x as i32 - tt;
        let x2 = x as i32 + tt;
        let y1 = y as i32 - tt;
        let y2 = y as i32 + tt;
        let v: u16 = if x1 >= 0 && x1 < 240 && x2 >= 0 && x2 < 240 && y1 >= 0 && y1 < 240 && y2
            >= 0 && y2 < 240 {
            let pa = img.get_pixel_u16(x1 as u8, y);
            let pb = img.get_pixel_u16(x2 as u8, y);
            let pc = img.get_pixel_u16(x, y1 as u8);
            let o = pa & pb & pc;
            proof {
                if tt == 0 {
                    assert(o == pa) by (bit_vector)
                        requires
                            o == pa & pb & pc,
                            pb == pa,
                            pc == pa,
                    ;
                }
            }
            o
        } else {
            0
        };
        row.push(v);
        x = x + 1;
    }
    proof {
        assert(row@ =~= logictri_row_spec(img.img(), y as int, t as int));
    }
    row
}

/// Fills the leading `240 - tt` entries of the reused row buffer with the
/// mixed OR/AND composition at pass `t` and leaves the tail entries exactly
/// as they were — the stale values of earlier rows, streamed as drawn; on
/// the last pass every entry is the source pixel.
fn tri_fill_row<I: MyImage>(img: &I, y: u8, t: u8, row: &mut Vec<u16>)
    requires
        img.inv(),
        img.img().w == 240,
        img.img().h == 240,
        t <= 30,
        y < 240 - (30 - t),
        old(row)@.len() == 240,
    ensures
        final(row)@.len() == 240,
        forall|q: int|
            0 <= q < 240 - (30 - t as int) ==> #[trigger] final(row)@[q] == tri_pixel(
                img.img(),
                q,
                y as int,
                t as int,
            ),
        forall|q: int|
            240 - (30 - t as int) <= q < 240 ==> #[trigger] final(row)@[q] == old(row)@[q],
        t == 30 ==> forall|q: int|
            0 <= q < 240 ==> #[trigger] final(row)@[q] == img.img().pixels[(y as int) * 240 + q],
{
    let tt: u8 = 30 - t;
    let mut x: u8 = 0;
    while x < 240 - tt
        invariant
            img.inv(),
            img.img().w == 240,
            img.img().h == 240,
            tt == 30 - t,
            t <= 30,
            y < 240 - tt,
            x <= 240 - tt,
            row@.len() == 240,
            forall|q: int|
                0 <= q < x ==> #[trigger] row@[q] == tri_pixel(img.img(), q, y as int, t as int),
            forall|q: int| x <= q < 240 ==> #[trigger] row@[q] == old(row)@[q],
            t == 30 ==> forall|q: int|
                0 <= q < x ==> #[trigger] row@[q] == img.img().pixels[(y as int) * 240 + q],
        decreases 240 - tt - x,
    {
        let a = img.get_pixel_u16(x, y);
        let b = img.get_pixel_u16(x + tt, y);
        let c = img.get_pixel_u16(x, y + tt);
        let v = a | b & c;
        row.set(x as usize, v);
        proof {
            if tt == 0 {
                assert(v == a) by (bit_vector)
                    requires
                        v == a | b & c,
                        b == a,
                        c == a,
                ;
            }
        }
        x = x + 1;
    }
}

/// The transmissions of one single-pixel noise tile drawn from generator
/// state `s`: two draws pick the cell, whose source pixel is streamed into
/// a 1x1 window there.
pub open spec fn noisy1_tile_events(img: ImgView, s: u32) -> Seq<TxEvent> {
    let x: u8 = lcg_u8(s) % 240;
    let y: u8 = lcg_u8(lcg_next(s)) % 240;
    window_events(x, y, (x + 1) as u8, (y + 1) as u8).push(
        TxEvent::Data(be_bytes(seq![img.pixel(x as int, y as int)])),
    )
}

/// The transmissions of the first `n` single-pixel noise tiles.
pub open spec fn noisy1_trace(img: ImgView, s0: u32, n: int) -> Seq<TxEvent>
    decreases n,
{
    if n <= 0 {
        Seq::empty()
    } else {
        noisy1_trace(img, s0, n - 1) + noisy1_tile_events(img, lcg_iter(s0, (2 * (n - 1)) as nat))
    }
}

/// The transmissions of one 20-pixel noise tile drawn from generator state
/// `s`: two draws pick the cell, whose source row segment is streamed into
/// a 20x1 window there.
pub open spec fn noisy20_tile_events(img: ImgView, s: u32) -> Seq<TxEvent> {
    let x: u8 = lcg_u8(s) % 220;
    let y: u8 = lcg_u8(lcg_next(s)) % 240;
    window_events(x, y, (x + 20) as u8, (y + 1) as u8).push(
        TxEvent::Data(be_bytes(Seq::new(20, |k: int| img.pixel(x + k, y as int)))),
    )
}

/// The transmissions of the first `n` 20-pixel noise tiles.
pub open spec fn noisy20_trace(img: ImgView, s0: u32, n: int) -> Seq<TxEvent>
    decreases n,
{
    if n <= 0 {
        Seq::empty()
    } else {
        noisy20_trace(img, s0, n - 1) + noisy20_tile_events(img, lcg_iter(s0, (2 * (n - 1)) as nat))
    }
}

/// The transmissions of one jittered 11-pixel noise tile with smear radius
/// `d`, drawn from generator state `s`: four draws pick the source cell and
/// a nearby placement, and the source row segment is streamed there.
pub open spec fn noisy_tile_events(img: ImgView, s: u32, d: u8) -> Seq<TxEvent> {
    let x: u8 = lcg_u8(s) % ((229 - d) as u8);
    let y: u8 = lcg_u8(lcg_iter(s, 1)) % ((240 - d) as u8);
    let ox: u8 = lcg_u8(lcg_iter(s, 2)) % d;
    let oy: u8 = lcg_u8(lcg_iter(s, 3)) % d;
    window_events((x + ox) as u8, (y + oy) as u8, (x + ox + 11) as u8, (y + oy + 1) as u8).push(
        TxEvent::Data(be_bytes(Seq::new(11, |k: int| img.pixel(x + k, y as int)))),
    )
}

/// The transmissions of the first `n` jittered tiles of one pass of smear
/// radius `d`.
pub open spec fn noisy_pass_trace(img: ImgView, s0: u32, d: u8, n: int) -> Seq<TxEvent>
    decreases n,
{
    if n <= 0 {
        Seq::empty()
    } else {
        noisy_pass_trace(img, s0, d, n - 1) + noisy_tile_events(
            img,
            lcg_iter(s0, (4 * (n - 1)) as nat),
            d,
        )
    }
}

/// The whole jittered-reveal trace: three 20000-tile passes of shrinking
/// smear radius, a pure function of the image and the starting generator
/// state.
pub open spec fn noisy_trace(img: ImgView, s0: u32) -> Seq<TxEvent> {
    noisy_pass_trace(img, s0, 10, 20000) + noisy_pass_trace(img, lcg_iter(s0, 80000), 5, 20000)
        + noisy_pass_trace(img, lcg_iter(s0, 160000), 2, 20000)
}

/// The transmissions of one interlaced sweep step at row `y` with column
/// offset `ox`: the first `240 - ox` pixels of source row `y` are streamed
/// into a window starting at column `ox`, then doubled into a left-aligned
/// window on the row below.
pub open spec fn interlace_row_events(img: ImgView, ox: u8, y: u8) -> Seq<TxEvent> {
    let seg = Seq::new((240 - ox) as nat, |k: int| img.pixel(k, y as int));
    window_events(ox, y, 240, (y + 1) as u8).push(TxEvent::Data(be_bytes(seg))) + window_events(
        0,
        (y + 1) as u8,
        (240 - ox) as u8,
        (y + 2) as u8,
    ).push(TxEvent::Data(be_bytes(seg)))
}

/// The transmissions of the first `n` steps of one interlaced sweep pass:
/// every fourth row from `oy`.
pub open spec fn interlace_pass_events(img: ImgView, ox: u8, oy: u8, n: int) -> Seq<TxEvent>
    decreases n,
{
    if n <= 0 {
        Seq::empty()
    } else {
        interlace_pass_events(img, ox, oy, n - 1) + interlace_row_events(
            img,
            ox,
            (oy + 4 * (n - 1)) as u8,
        )
    }
}

/// Pixel `(x, y)` of the OR-composition frame at progress `t`: the OR of
/// four samples offset by the shrinking `tt` along both axes, operating on
/// the packed color as a whole; when any sample leaves the screen the cell
/// is filled white.
pub open spec fn logic_pixel(img: ImgView, x: int, y: int, t: int) -> u16 {
    let tt = 50 - t;
    if 0 <= x - tt && x - tt < 240 && 0 <= x + tt && x + tt < 240 && 0 <= y - tt && y - tt < 240
        && 0 <= y + tt && y + tt < 240 {
        img.pixel(x - tt, y) | img.pixel(x + tt, y) | img.pixel(x, y - tt) | img.pixel(x, y + tt)
    } else {
        0xFFFFu16
    }
}

/// Pixel `(x, y)` of the AND-composition frame at progress `t`: the AND of
/// three offset samples (the guard still checks all four offsets); when the
/// guard fails the cell is filled black.
pub open spec fn logictri_pixel(img: ImgView, x: int, y: int, t: int) -> u16 {
    let tt = 50 - t;
    if 0 <= x - tt && x - tt < 240 && 0 <= x + tt && x + tt < 240 && 0 <= y - tt && y - tt < 240
        && 0 <= y + tt && y + tt < 240 {
        img.pixel(x - tt, y) & img.pixel(x + tt, y) & img.pixel(x, y - tt)
    } else {
        0u16
    }
}

/// Pixel `(x, y)` of the mixed OR/AND frame at pass `t`: the source pixel
/// OR the AND of its two forward-offset neighbors. Defined for coordinates
/// at least `tt` away from the right and bottom edges, the only ones the
/// pass computes.
pub open spec fn tri_pixel(img: ImgView, x: int, y: int, t: int) -> u16 {
    let tt = 30 - t;
    img.pixel(x, y) | (img.pixel(x + tt, y) & img.pixel(x, y + tt))
}

/// The damped radius term of the wave distortion at progress `t`:
/// the squared distance from the screen center, shrunk as `t` grows.
pub open spec fn wave_r2(x: int, y: int, t: int) -> int {
    ((x - 120) * (x - 120) + (y - 120) * (y - 120)) / (10 + t)
}

/// The horizontal sampling offset of the wave distortion at progress `t`.
pub open spec fn wave_dx(x: int, y: int, t: int) -> int {
    spec_wave(x + 5 * t + wave_r2(x, y, t), 30 + t / 2, 150 - t)
}

/// The vertical sampling offset of the wave distortion at progress `t`.
pub open spec fn wave_dy(x: int, y: int, t: int) -> int {
    spec_wave(x + wave_r2(x, y, t) / 2, 20 + t, 2 * (150 - t))
}

/// Pixel `(x, y)` of the wave-distorted frame at progress `t`: the source
/// sampled at the position displaced by the two wave offsets, or black when
/// the displaced position leaves the screen.
pub open spec fn wave_pixel(img: ImgView, x: int, y: int, t: int) -> u16 {
    let xx = x + wave_dx(x, y, t);
    let yy = y + wave_dy(x, y, t);
    if 0 <= xx < 240 && 0 <= yy < 240 {
        img.pixel(xx, yy)
    } else {
        0u16
    }
}

/// The 240 pixels of row `y` of the wave-distorted frame at progress `t`.
pub open spec fn wave_row_spec(img: ImgView, y: int, t: int) -> Seq<u16> {
    Seq::new(240, |q: int| wave_pixel(img, q, y, t))
}

/// The transmissions of the first `n` rows of one phase of an interlaced
/// wave frame: rows `parity`, `parity + 2`, ... in order, each a full-row
/// write.
pub open spec fn wave_phase_events(img: ImgView, t: int, parity: int, n: int) -> Seq<TxEvent>
    decreases n,
{
    if n <= 0 {
        Seq::empty()
    } else {
        wave_phase_events(img, t, parity, n - 1) + row_events(
            (2 * (n - 1) + parity) as u8,
            wave_row_spec(img, 2 * (n - 1) + parity, t),
        )
    }
}

/// The transmissions of one whole interlaced wave frame: the 120 even rows
/// top to bottom, then the 120 odd rows.
pub open spec fn wave_frame_events(img: ImgView, t: int) -> Seq<TxEvent> {
    wave_phase_events(img, t, 0, 120) + wave_phase_events(img, t, 1, 120)
}

/// The transmissions of the first `n` interlaced wave frames, at progress
/// 0, 1, ....
pub open spec fn wave_trace(img: ImgView, n: int) -> Seq<TxEvent>
    decreases n,
{
    if n <= 0 {
        Seq::empty()
    } else {
        wave_trace(img, n - 1) + wave_frame_events(img, n - 1)
    }
}

/// The transmissions of the first `n` rows of one top-to-bottom wave frame.
pub open spec fn wave1_frame_events(img: ImgView, t: int, n: int) -> Seq<TxEvent>
    decreases n,
{
    if n <= 0 {
        Seq::empty()
    } else {
        wave1_frame_events(img, t, n - 1) + row_events(
            (n - 1) as u8,
            wave_row_spec(img, n - 1, t),
        )
    }
}

/// The transmissions of the first `n` top-to-bottom wave frames.
pub open spec fn wave1_trace(img: ImgView, n: int) -> Seq<TxEvent>
    decreases n,
{
    if n <= 0 {
        Seq::empty()
    } else {
        wave1_trace(img, n - 1) + wave1_frame_events(img, n - 1, 240)
    }
}

/// The 240 pixels of row `y` of the OR-composition frame at progress `t`.
pub open spec fn logic_row_spec(img: ImgView, y: int, t: int) -> Seq<u16> {
    Seq::new(240, |q: int| logic_pixel(img, q, y, t))
}

/// The transmissions of the first `n` rows of one OR-composition frame.
pub open spec fn logic_frame_events(img: ImgView, t: int, n: int) -> Seq<TxEvent>
    decreases n,
{
    if n <= 0 {
        Seq::empty()
    } else {
        logic_frame_events(img, t, n - 1) + row_events(
            (n - 1) as u8,
            logic_row_spec(img, n - 1, t),
        )
    }
}

/// The transmissions of the first `n` OR-composition frames.
pub open spec fn logic_trace(img: ImgView, n: int) -> Seq<TxEvent>
    decreases n,
{
    if n <= 0 {
        Seq::empty()
    } else {
        logic_trace(img, n - 1) + logic_frame_events(img, n - 1, 240)
    }
}

/// The 240 pixels of row `y` of the AND-composition frame at progress `t`.
pub open spec fn logictri_row_spec(img: ImgView, y: int, t: int) -> Seq<u16> {
    Seq::new(240, |q: int| logictri_pixel(img, q, y, t))
}

/// The transmissions of the first `n` rows of one AND-composition frame.
pub open spec fn logictri_frame_events(img: ImgView, t: int, n: int) -> Seq<TxEvent>
    decreases n,
{
    if n <= 0 {
        Seq::empty()
    } else {
        logictri_frame_events(img, t, n - 1) + row_events(
            (n - 1) as u8,
            logictri_row_spec(img, n - 1, t),
        )
    }
}

/// The transmissions of the first `n` AND-composition frames.
pub open spec fn logictri_trace(img: ImgView, n: int) -> Seq<TxEvent>
    decreases n,
{
    if n <= 0 {
        Seq::empty()
    } else {
        logictri_trace(img, n - 1) + logictri_frame_events(img, n - 1, 240)
    }
}

/// The synthetic fill of the rotation distortion at progress `t`: the OR of
/// three overlapping damped radius terms (the third one's numerator can be
/// -1, on which the truncating division already yields 0).
pub open spec fn rot_fill(x: int, y: int, t: int) -> u16 {
    let r2 = ((x - 120) * (x - 120) + (y - 120) * (y - 120)) / (1 + 5 * t);
    let r3 = ((x - 119) * (x - 119) + (y - 120) * (y - 120)) / (1 + t);
    let n4 = (x - 122) * (x - 120) + (y - 120) * (y - 120);
    let r4 = if n4 <= 0 {
        0
    } else {
        n4 / (10 + 10 * t)
    };
    (r2 as u16) | (r3 as u16) | (r4 as u16)
}

/// Pixel `(x, y)` of the rotation-distorted frame at progress `t`: the
/// source sampled at the position rotated about the screen center by an
/// amount proportional to the remaining progress, or the synthetic fill
/// when the rotated position leaves the screen.
pub open spec fn rot_pixel(img: ImgView, x: int, y: int, t: int) -> u16 {
    let xx = x + trunc_div((120 - y) * (200 - t), 50);
    let yy = y - trunc_div((120 - x) * (200 - t), 50);
    if 0 <= xx < 240 && 0 <= yy < 240 {
        img.pixel(xx, yy)
    } else {
        rot_fill(x, y, t)
    }
}

/// The 240 pixels of row `y` of the rotation-distorted frame at progress
/// `t`.
pub open spec fn rot_row_spec(img: ImgView, y: int, t: int) -> Seq<u16> {
    Seq::new(240, |q: int| rot_pixel(img, q, y, t))
}

/// The transmissions of the first `n` rows of one phase of an interlaced
/// rotation frame: rows `parity`, `parity + 2`, ... in order.
pub open spec fn rot_phase_events(img: ImgView, t: int, parity: int, n: int) -> Seq<TxEvent>
    decreases n,
{
    if n <= 0 {
        Seq::empty()
    } else {
        rot_phase_events(img, t, parity, n - 1) + row_events(
            (2 * (n - 1) + parity) as u8,
            rot_row_spec(img, 2 * (n - 1) + parity, t),
        )
    }
}

/// The transmissions of one whole interlaced rotation frame: the 120 even
/// rows top to bottom, then the 120 odd rows.
pub open spec fn rot_frame_events(img: ImgView, t: int) -> Seq<TxEvent> {
    rot_phase_events(img, t, 0, 120) + rot_phase_events(img, t, 1, 120)
}

/// The transmissions of the first `n` interlaced rotation frames.
pub open spec fn rot_trace(img: ImgView, n: int) -> Seq<TxEvent>
    decreases n,
{
    if n <= 0 {
        Seq::empty()
    } else {
        rot_trace(img, n - 1) + rot_frame_events(img, n - 1)
    }
}

impl<T: Transport> Lcd<T> {
    /// One pixel of the wave-distorted frame at progress `t`: the source is
    /// sampled at the pixel's position displaced by two triangle-wave
    /// offsets driven by a damped radius term; out-of-bounds samples are
    /// black. At the final progress value both offsets are exactly zero, so
    /// the frame equals the source.
    fn wave_sample<I: MyImage>(&self, img: &I, x: u8, y: u8, t: u32) -> (v: u16)
        requires
            img.inv(),
            img.img().w == 240,
            img.img().h == 240,
            x < 240,
            y < 240,
            t <= 150,
        ensures
            v == wave_pixel(img.img(), x as int, y as int, t as int),
            t == 150 ==> v == img.img().pixels[(y as int) * 240 + x as int],
    {
        let tt: u32 = 150 - t;
        let dxa = center_dist(x, 120);
        let dya = center_dist(y, 120);
        proof {
            assert(dxa * dxa <= 57600 && dya * dya <= 57600) by (nonlinear_arith)
                requires
                    dxa <= 240,
                    dya <= 240,
            ;
            assert(dxa * dxa == (x as int - 120) * (x as int - 120)) by (nonlinear_arith)
                requires
                    dxa == x as int - 120 || dxa == 120 - x as int,
            ;
            assert(dya * dya == (y as int - 120) * (y as int - 120)) by (nonlinear_arith)
                requires
                    dya == y as int - 120 || dya == 120 - y as int,
            ;
            lemma_div_le((dxa * dxa + dya * dya) as int, (10 + t) as int);
        }
        let r2: u32 = (dxa * dxa + dya * dya) / (10 + t);
        proof {
            assert(r2 == wave_r2(x as int, y as int, t as int));
        }
        let w1 = wave(x as i32 + 5 * (t as i32) + r2 as i32, 30 + (t / 2) as i32, tt as i32);
        let w2 = wave(x as i32 + (r2 / 2) as i32, 20 + t as i32, 2 * (tt as i32));
        proof {
            lemma_div_le(r2 as int, 2);
            assert(w1 == wave_dx(x as int, y as int, t as int));
            assert(w2 == wave_dy(x as int, y as int, t as int));
        }
        let xx = x as i32 + w1;
        let yy = y as i32 + w2;
        if xx >= 0 && xx < 240 && yy >= 0 && yy < 240 {
            img.get_pixel_u16(xx as u8, yy as u8)
        } else {
            0
        }
    }

    /// Periodic wave distortion, rows streamed top to bottom; the final
    /// frame is exactly the source.
    pub fn full_image_wave1<I: MyImage>(&mut self, img: &I) -> (r: Result<(), TransportFault>)
        requires
            img.inv(),
            img.img().w == 240,
            img.img().h == 240,
        ensures
            r is Ok ==> final(self).device().fb == img.img().pixels,
            r is Ok ==> final(self).events() == old(self).events() + wave1_trace(img.img(), 151),
    {
        proof {
            img.lemma_view_wf();
            lemma_interpret_fb_len(self.0.events());
            assert(self.events() =~= old(self).events() + wave1_trace(img.img(), 0));
        }
        let mut t: u32 = 0;
        while t <= 150
            invariant
                img.inv(),
                img.img().w == 240,
                img.img().h == 240,
                t <= 151,
                self.device().fb.len() == 57600,
                self.events() == old(self).events() + wave1_trace(img.img(), t as int),
                t == 151 ==> forall|sx: int, sy: int|
                    0 <= sx < 240 && 0 <= sy < 240 ==> #[trigger] self.device().fb[sy * 240 + sx]
                        == img.img().pixels[sy * 240 + sx],
            decreases 151 - t,
        {
            proof {
                assert(self.events() =~= old(self).events() + wave1_trace(img.img(), t as int)
                    + wave1_frame_events(img.img(), t as int, 0));
            }
            let mut y: u8 = 0;
            while y < 240
                invariant
                    img.inv(),
                    img.img().w == 240,
                    img.img().h == 240,
                    t <= 150,
                    y <= 240,
                    self.device().fb.len() == 57600,
                    self.events() == old(self).events() + wave1_trace(img.img(), t as int)
                        + wave1_frame_events(img.img(), t as int, y as int),
                    t == 150 ==> forall|sx: int, sy: int|
                        0 <= sx < 240 && 0 <= sy < y ==> #[trigger] self.device().fb[sy * 240 + sx]
                            == img.img().pixels[sy * 240 + sx],
                decreases 240 - y,
            {
                let row = self.wave_row(img, y, t);
                self.write_row(y, &row)?;
                proof {
                    assert(wave1_frame_events(img.img(), t as int, y + 1) == wave1_frame_events(
                        img.img(),
                        t as int,
                        y as int,
                    ) + row_events(y, wave_row_spec(img.img(), y as int, t as int)));
                    assert(self.events() =~= old(self).events() + wave1_trace(img.img(), t as int)
                        + wave1_frame_events(img.img(), t as int, y + 1));
                }
                y = y + 1;
            }
            proof {
                assert(wave1_trace(img.img(), t + 1) == wave1_trace(img.img(), t as int)
                    + wave1_frame_events(img.img(), t as int, 240));
            }
            t = t + 1;
        }
        proof {
            lemma_grid_to_flat(self.device().fb, img.img().pixels);
        }
        Ok(())
    }

    /// Periodic wave distortion with interlaced row order: each frame
    /// streams the even rows, then the odd rows. The final frame is exactly
    /// the source.
    pub fn full_image_wave<I: MyImage>(&mut self, img: &I) -> (r: Result<(), TransportFault>)
        requires
            img.inv(),
            img.img().w == 240,
            img.img().h == 240,
        ensures
            r is Ok ==> final(self).device().fb == img.img().pixels,
            r is Ok ==> final(self).events() == old(self).events() + wave_trace(img.img(), 151),
    {
        proof {
            img.lemma_view_wf();
            lemma_interpret_fb_len(self.0.events());
            assert(self.events() =~= old(self).events() + wave_trace(img.img(), 0));
        }
        let mut t: u32 = 0;
        while t <= 150
            invariant
                img.inv(),
                img.img().w == 240,
                img.img().h == 240,
                t <= 151,
                self.device().fb.len() == 57600,
                self.events() == old(self).events() + wave_trace(img.img(), t as int),
                t == 151 ==> forall|sx: int, sy: int|
                    0 <= sx < 240 && 0 <= sy < 240 ==> #[trigger] self.device().fb[sy * 240 + sx]
                        == img.img().pixels[sy * 240 + sx],
            decreases 151 - t,
        {
            proof {
                assert(self.events() =~= old(self).events() + wave_trace(img.img(), t as int)
                    + wave_phase_events(img.img(), t as int, 0, 0));
            }
            let mut yi: u8 = 0;
            while yi < 120
                invariant
                    img.inv(),
                    img.img().w == 240,
                    img.img().h == 240,
                    t <= 150,
                    yi <= 120,
                    self.device().fb.len() == 57600,
                    self.events() == old(self).events() + wave_trace(img.img(), t as int)
                        + wave_phase_events(img.img(), t as int, 0, yi as int),
                    t == 150 ==> forall|sx: int, sy: int|
                        0 <= sx < 240 && 0 <= sy < 240 && sy % 2 == 0 && sy < 2 * yi
                            ==> #[trigger] self.device().fb[sy * 240 + sx] == img.img().pixels[sy
                            * 240 + sx],
                decreases 120 - yi,
            {
                let y: u8 = 2 * yi;
                let row = self.wave_row(img, y, t);
                self.write_row(y, &row)?;
                proof {
                    assert(wave_phase_events(img.img(), t as int, 0, yi + 1) == wave_phase_events(
                        img.img(),
                        t as int,
                        0,
                        yi as int,
                    ) + row_events(y, wave_row_spec(img.img(), y as int, t as int)));
                    assert(self.events() =~= old(self).events() + wave_trace(img.img(), t as int)
                        + wave_phase_events(img.img(), t as int, 0, yi + 1));
                }
                yi = yi + 1;
            }
            proof {
                assert(self.events() =~= old(self).events() + (wave_trace(img.img(), t as int)
                    + wave_phase_events(img.img(), t as int, 0, 120)) + wave_phase_events(
                    img.img(),
                    t as int,
                    1,
                    0,
                ));
            }
            let mut yi: u8 = 0;
            while yi < 120
                invariant
                    img.inv(),
                    img.img().w == 240,
                    img.img().h == 240,
                    t <= 150,
                    yi <= 120,
                    self.device().fb.len() == 57600,
                    self.events() == old(self).events() + (wave_trace(img.img(), t as int)
                        + wave_phase_events(img.img(), t as int, 0, 120)) + wave_phase_events(
                        img.img(),
                        t as int,
                        1,
                        yi as int,
                    ),
                    t == 150 ==> forall|sx: int, sy: int|
                        0 <= sx < 240 && 0 <= sy < 240 && sy % 2 == 0 ==> #[trigger] self.device().fb[
                            sy * 240 + sx
                        ] == img.img().pixels[sy * 240 + sx],
                    t == 150 ==> forall|sx: int, sy: int|
                        0 <= sx < 240 && 0 <= sy < 240 && sy % 2 == 1 && sy < 2 * yi
                            ==> #[trigger] self.device().fb[sy * 240 + sx] == img.img().pixels[sy
                            * 240 + sx],
                decreases 120 - yi,
            {
                let y: u8 = 2 * yi + 1;
                let row = self.wave_row(img, y, t);
                self.write_row(y, &row)?;
                proof {
                    assert(wave_phase_events(img.img(), t as int, 1, yi + 1) == wave_phase_events(
                        img.img(),
                        t as int,
                        1,
                        yi as int,
                    ) + row_events(y, wave_row_spec(img.img(), y as int, t as int)));
                    assert(self.events() =~= old(self).events() + (wave_trace(img.img(), t as int)
                        + wave_phase_events(img.img(), t as int, 0, 120)) + wave_phase_events(
                        img.img(),
                        t as int,
                        1,
                        yi + 1,
                    ));
                }
                yi = yi + 1;
            }
            proof {
                assert(wave_trace(img.img(), t + 1) == wave_trace(img.img(), t as int)
                    + wave_frame_events(img.img(), t as int));
                assert(self.events() =~= old(self).events() + wave_trace(img.img(), t + 1));
                if t == 150 {
                    assert forall|sx: int, sy: int| 0 <= sx < 240 && 0 <= sy < 240 implies
                        #[trigger] self.device().fb[sy * 240 + sx] == img.img().pixels[sy * 240
                        + sx] by {
                        lemma_mod_bound(sy, 2);
                    }
                }
            }
            t = t + 1;
        }
        proof {
            lemma_grid_to_flat(self.device().fb, img.img().pixels);
        }
        Ok(())
    }

    /// One full wave-distorted row at progress `t`, pixel by pixel the
    /// distortion formula.
    fn wave_row<I: MyImage>(&self, img: &I, y: u8, t: u32) -> (row: Vec<u16>)
        requires
            img.inv(),
            img.img().w == 240,
            img.img().h == 240,
            y < 240,
            t <= 150,
        ensures
            row@ == wave_row_spec(img.img(), y as int, t as int),
            row@.len() == 240,
            forall|q: int|
                0 <= q < 240 ==> #[trigger] row@[q] == wave_pixel(
                    img.img(),
                    q,
                    y as int,
                    t as int,
                ),
            t == 150 ==> forall|q: int|
                0 <= q < 240 ==> #[trigger] row@[q] == img.img().pixels[(y as int) * 240 + q],
    {
        let mut row: Vec<u16> = Vec::new();
        let mut x: u8 = 0;
        while x < 240
            invariant
                img.inv(),
                img.img().w == 240,
                img.img().h == 240,
                t <= 150,
                y < 240,
                x <= 240,
                row@.len() == x,
                forall|q: int|
                    0 <= q < x ==> #[trigger] row@[q] == wave_pixel(
                        img.img(),
                        q,
                        y as int,
                        t as int,
                    ),
                t == 150 ==> forall|q: int|
                    0 <= q < x ==> #[trigger] row@[q] == img.img().pixels[(y as int) * 240 + q],
            decreases 240 - x,
        {
            let v = self.wave_sample(img, x, y, t);
            row.push(v);
            x = x + 1;
        }
        proof {
            assert(row@ =~= wave_row_spec(img.img(), y as int, t as int));
        }
        row
    }

    /// One pixel of the rotation-distorted frame at progress `t`: the source
    /// is sampled at the pixel rotated about the screen center by an amount
    /// proportional to the remaining progress; out-of-bounds samples fall
    /// back to a synthetic fill derived from three overlapping radius terms.
    /// At the final progress value the rotation is zero, so the frame equals
    /// the source.
    fn rot_sample<I: MyImage>(&self, img: &I, x: u8, y: u8, t: u32) -> (v: u16)
        requires
            img.inv(),
            img.img().w == 240,
            img.img().h == 240,
            x < 240,
            y < 240,
            t <= 200,
        ensures
            v == rot_pixel(img.img(), x as int, y as int, t as int),
            t == 200 ==> v == img.img().pixels[(y as int) * 240 + x as int],
    {
        let tt: u32 = 200 - t;
        let dxa = center_dist(x, 120);
        let dya = center_dist(y, 120);
        let dxb = center_dist(x, 119);
        proof {
            assert(dxa * dxa <= 57600 && dya * dya <= 57600 && dxb * dxb <= 57600)
                by (nonlinear_arith)
                requires
                    dxa <= 240,
                    dya <= 240,
                    dxb <= 240,
            ;
            assert(dxa * dxa == (x as int - 120) * (x as int - 120)) by (nonlinear_arith)
                requires
                    dxa == x as int - 120 || dxa == 120 - x as int,
            ;
            assert(dya * dya == (y as int - 120) * (y as int - 120)) by (nonlinear_arith)
                requires
                    dya == y as int - 120 || dya == 120 - y as int,
            ;
            assert(dxb * dxb == (x as int - 119) * (x as int - 119)) by (nonlinear_arith)
                requires
                    dxb == x as int - 119 || dxb == 119 - x as int,
            ;
            lemma_div_le((dxa * dxa + dya * dya) as int, (1 + 5 * t) as int);
            lemma_div_le((dxb * dxb + dya * dya) as int, (1 + t) as int);
        }
        let r2: u32 = (dxa * dxa + dya * dya) / (1 + 5 * t);
        let r3: u32 = (dxb * dxb + dya * dya) / (1 + t);
        let a4: i32 = x as i32 - 122;
        let b4: i32 = x as i32 - 120;
        proof {
            assert(-14640 <= a4 * b4 <= 14640) by (nonlinear_arith)
                requires
                    -122 <= a4 <= 117,
                    -120 <= b4 <= 119,
            ;
        }
        let num: i32 = a4 * b4 + (dya * dya) as i32;
        let r4: u32 = if num <= 0 {
            0
        } else {
            proof {
                lemma_div_le(num as int, (10 + 10 * t) as int);
            }
            (num as u32) / (10 + 10 * t)
        };
        proof {
            assert((r2 as u16) | (r3 as u16) | (r4 as u16) == rot_fill(
                x as int,
                y as int,
                t as int,
            ));
        }
        let dx = 120 - x as i32;
        let dy = 120 - y as i32;
        proof {
            assert(-28800 <= dy * (tt as i32) <= 28800 && -28800 <= dx * (tt as i32) <= 28800)
                by (nonlinear_arith)
                requires
                    -120 <= dx <= 120,
                    -120 <= dy <= 120,
                    0 <= tt <= 200,
            ;
            if t == 200 {
                assert(dy * (tt as i32) == 0 && dx * (tt as i32) == 0) by (nonlinear_arith)
                    requires
                        tt == 0,
                ;
            }
        }
        let ox = div_trunc(dy * tt as i32, 50);
        let oy = div_trunc(dx * tt as i32, 50);
        proof {
            assert(ox == trunc_div((120 - y as int) * (200 - t as int), 50));
            assert(oy == trunc_div((120 - x as int) * (200 - t as int), 50));
        }
        let xx = x as i32 + ox;
        let yy = y as i32 - oy;
        if xx >= 0 && xx < 240 && yy >= 0 && yy < 240 {
            img.get_pixel_u16(xx as u8, yy as u8)
        } else {
            (r2 as u16) | (r3 as u16) | (r4 as u16)
        }
    }

    /// Rotation distortion with interlaced row order, converging to the
    /// unrotated source on the final frame.
    #[verifier::rlimit(60)]
    pub fn full_image_rot<I: MyImage>(&mut self, img: &I) -> (r: Result<(), TransportFault>)
        requires
            img.inv(),
            img.img().w == 240,
            img.img().h == 240,
        ensures
            r is Ok ==> final(self).device().fb == img.img().pixels,
            r is Ok ==> final(self).events() == old(self).events() + rot_trace(img.img(), 201),
    {
        proof {
            img.lemma_view_wf();
            lemma_interpret_fb_len(self.0.events());
            assert(self.events() =~= old(self).events() + rot_trace(img.img(), 0));
        }
        let mut t: u32 = 0;
        while t <= 200
            invariant
                img.inv(),
                img.img().w == 240,
                img.img().h == 240,
                t <= 201,
                self.device().fb.len() == 57600,
                self.events() == old(self).events() + rot_trace(img.img(), t as int),
                t == 201 ==> forall|sx: int, sy: int|
                    0 <= sx < 240 && 0 <= sy < 240 ==> #[trigger] self.device().fb[sy * 240 + sx]
                        == img.img().pixels[sy * 240 + sx],
            decreases 201 - t,
        {
            proof {
                assert(self.events() =~= old(self).events() + rot_trace(img.img(), t as int)
                    + rot_phase_events(img.img(), t as int, 0, 0));
            }
            let mut yi: u8 = 0;
            while yi < 120
                invariant
                    img.inv(),
                    img.img().w == 240,
                    img.img().h == 240,
                    t <= 200,
                    yi <= 120,
                    self.device().fb.len() == 57600,
                    self.events() == old(self).events() + rot_trace(img.img(), t as int)
                        + rot_phase_events(img.img(), t as int, 0, yi as int),
                    t == 200 ==> forall|sx: int, sy: int|
                        0 <= sx < 240 && 0 <= sy < 240 && sy % 2 == 0 && sy < 2 * yi
                            ==> #[trigger] self.device().fb[sy * 240 + sx] == img.img().pixels[sy
                            * 240 + sx],
                decreases 120 - yi,
            {
                let y: u8 = 2 * yi;
                let row = self.rot_row(img, y, t);
                self.write_row(y, &row)?;
                proof {
                    assert(rot_phase_events(img.img(), t as int, 0, yi + 1) == rot_phase_events(
                        img.img(),
                        t as int,
                        0,
                        yi as int,
                    ) + row_events(y, rot_row_spec(img.img(), y as int, t as int)));
                    assert(self.events() =~= old(self).events() + rot_trace(img.img(), t as int)
                        + rot_phase_events(img.img(), t as int, 0, yi + 1));
                }
                yi = yi + 1;
            }
            proof {
                assert(self.events() =~= old(self).events() + (rot_trace(img.img(), t as int)
                    + rot_phase_events(img.img(), t as int, 0, 120)) + rot_phase_events(
                    img.img(),
                    t as int,
                    1,
                    0,
                ));
            }
            let mut yi: u8 = 0;
            while yi < 120
                invariant
                    img.inv(),
                    img.img().w == 240,
                    img.img().h == 240,
                    t <= 200,
                    yi <= 120,
                    self.device().fb.len() == 57600,
                    self.events() == old(self).events() + (rot_trace(img.img(), t as int)
                        + rot_phase_events(img.img(), t as int, 0, 120)) + rot_phase_events(
                        img.img(),
                        t as int,
                        1,
                        yi as int,
                    ),
                    t == 200 ==> forall|sx: int, sy: int|
                        0 <= sx < 240 && 0 <= sy < 240 && sy % 2 == 0 ==> #[trigger] self.device().fb[
                            sy * 240 + sx
                        ] == img.img().pixels[sy * 240 + sx],
                    t == 200 ==> forall|sx: int, sy: int|
                        0 <= sx < 240 && 0 <= sy < 240 && sy % 2 == 1 && sy < 2 * yi
                            ==> #[trigger] self.device().fb[sy * 240 + sx] == img.img().pixels[sy
                            * 240 + sx],
                decreases 120 - yi,
            {
                let y: u8 = 2 * yi + 1;
                let row = self.rot_row(img, y, t);
                self.write_row(y, &row)?;
                proof {
                    assert(rot_phase_events(img.img(), t as int, 1, yi + 1) == rot_phase_events(
                        img.img(),
                        t as int,
                        1,
                        yi as int,
                    ) + row_events(y, rot_row_spec(img.img(), y as int, t as int)));
                    assert(self.events() =~= old(self).events() + (rot_trace(img.img(), t as int)
                        + rot_phase_events(img.img(), t as int, 0, 120)) + rot_phase_events(
                        img.img(),
                        t as int,
                        1,
                        yi + 1,
                    ));
                }
                yi = yi + 1;
            }
            proof {
                assert(rot_trace(img.img(), t + 1) == rot_trace(img.img(), t as int)
                    + rot_frame_events(img.img(), t as int));
                assert(self.events() =~= old(self).events() + rot_trace(img.img(), t + 1));
                if t == 200 {
                    assert forall|sx: int, sy: int| 0 <= sx < 240 && 0 <= sy < 240 implies
                        #[trigger] self.device().fb[sy * 240 + sx] == img.img().pixels[sy * 240
                        + sx] by {
                        lemma_mod_bound(sy, 2);
                    }
                }
            }
            t = t + 1;
        }
        proof {
            lemma_grid_to_flat(self.device().fb, img.img().pixels);
        }
        Ok(())
    }

    /// One full rotation-distorted row at progress `t`, pixel by pixel the
    /// rotation formula.
    fn rot_row<I: MyImage>(&self, img: &I, y: u8, t: u32) -> (row: Vec<u16>)
        requires
            img.inv(),
            img.img().w == 240,
            img.img().h == 240,
            y < 240,
            t <= 200,
        ensures
            row@ == rot_row_spec(img.img(), y as int, t as int),
            row@.len() == 240,
            forall|q: int|
                0 <= q < 240 ==> #[trigger] row@[q] == rot_pixel(img.img(), q, y as int, t as int),
            t == 200 ==> forall|q: int|
                0 <= q < 240 ==> #[trigger] row@[q] == img.img().pixels[(y as int) * 240 + q],
    {
        let mut row: Vec<u16> = Vec::new();
        let mut x: u8 = 0;
        while x < 240
            invariant
                img.inv(),
                img.img().w == 240,
                img.img().h == 240,
                t <= 200,
                y < 240,
                x <= 240,
                row@.len() == x,
                forall|q: int|
                    0 <= q < x ==> #[trigger] row@[q] == rot_pixel(img.img(), q, y as int, t as int),
                t == 200 ==> forall|q: int|
                    0 <= q < x ==> #[trigger] row@[q] == img.img().pixels[(y as int) * 240 + q],
            decreases 240 - x,
        {
            let v = self.rot_sample(img, x, y, t);
            row.push(v);
            x = x + 1;
        }
        proof {
            assert(row@ =~= rot_row_spec(img.img(), y as int, t as int));
        }
        row
    }
}

} // verus!
