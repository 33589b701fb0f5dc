//! Image and framebuffer data model.
//!
//! An image is a rectangular grid of 16-bit packed colors with a top-left
//! origin, stored as little-endian byte pairs in row-major order. Three
//! variants share one capability interface: two mutable fixed-capacity
//! arenas (8192 and 512 bytes) whose logical dimensions may be adjusted
//! after construction but never exceed the arena, and an immutable asset
//! blob whose first two bytes encode its width and height. Writing to the
//! immutable variant is a checked invalid operation, never a silent success.
//!
//! The fixed arenas are modelled as owned byte vectors that each type's
//! invariant pins to the arena's exact capacity; a bare-metal host would
//! place the same bytes in static memory, which nothing here depends on.

use vstd::prelude::*;
use vstd::arithmetic::div_mod::{
    lemma_div_is_ordered, lemma_div_is_ordered_by_denominator, lemma_div_multiples_vanish,
    lemma_fundamental_div_mod, lemma_fundamental_div_mod_converse, lemma_mod_bound,
};
use vstd::arithmetic::mul::lemma_mul_is_commutative;
use vstd::slice::slice_subrange;

verus! {

/// Attempt to perform an operation the target does not support, such as
/// writing a pixel of an immutable asset image.
#[derive(Debug, PartialEq, Eq)]
pub struct InvalidOperation;

/// Mathematical view of an image: logical width and height, and the packed
/// 16-bit pixel values in row-major order (`pixels.len() == w * h`).
pub ghost struct ImgView {
    pub w: nat,
    pub h: nat,
    pub pixels: Seq<u16>,
}

impl ImgView {
    /// The packed color at column `x` of row `y`.
    pub open spec fn pixel(self, x: int, y: int) -> u16 {
        self.pixels[y * self.w + x]
    }
}

/// The `n` packed colors encoded by a little-endian byte buffer:
/// pixel `i` is `bytes[2*i] + bytes[2*i + 1] * 256`.
pub open spec fn pixels_of_bytes(bytes: Seq<u8>, n: nat) -> Seq<u16> {
    Seq::new(n as nat, |i: int| (bytes[2 * i] + bytes[2 * i + 1] * 256) as u16)
}

/// A row-major cell index is within the pixel count.
pub proof fn lemma_rowmajor_index(x: int, y: int, w: int, h: int)
    requires
        0 <= x < w,
        0 <= y < h,
    ensures
        0 <= y * w + x < w * h,
{
    assert(0 <= y * w + x < w * h) by (nonlinear_arith)
        requires
            0 <= x < w,
            0 <= y < h,
    ;
}

/// The product of two byte-range values stays within `255 * 255`.
pub proof fn lemma_u8_mul_bound(a: int, b: int)
    requires
        0 <= a <= 255,
        0 <= b <= 255,
    ensures
        0 <= a * b <= 65025,
{
    assert(0 <= a * b <= 65025) by (nonlinear_arith)
        requires
            0 <= a <= 255,
            0 <= b <= 255,
    ;
}

/// Updating the two bytes of pixel `k` updates exactly entry `k` of the
/// decoded pixel sequence.
proof fn lemma_pixel_write(bytes0: Seq<u8>, bytes1: Seq<u8>, n: nat, k: int, c0: u8, c1: u8)
    requires
        0 <= k < n,
        2 * n <= bytes0.len(),
        bytes1 == bytes0.update(2 * k, c0).update(2 * k + 1, c1),
    ensures
        pixels_of_bytes(bytes1, n) == pixels_of_bytes(bytes0, n).update(k, (c0 + c1 * 256) as u16),
{
    assert(pixels_of_bytes(bytes1, n) =~= pixels_of_bytes(bytes0, n).update(
        k,
        (c0 + c1 * 256) as u16,
    ));
}

/// Writes past the decoded range (at byte offset `2*n` or later) leave the
/// decoded pixel sequence untouched.
proof fn lemma_write_past_pixels(bytes0: Seq<u8>, bytes1: Seq<u8>, n: nat, j: int, c0: u8, c1: u8)
    requires
        2 * n <= j,
        j + 1 < bytes0.len(),
        bytes1 == bytes0.update(j, c0).update(j + 1, c1),
    ensures
        pixels_of_bytes(bytes1, n) == pixels_of_bytes(bytes0, n),
{
    assert forall|i: int| 0 <= i < n implies pixels_of_bytes(bytes1, n)[i] == pixels_of_bytes(
        bytes0,
        n,
    )[i] by {
        assert(bytes1[2 * i] == bytes0[2 * i]);
        assert(bytes1[2 * i + 1] == bytes0[2 * i + 1]);
    }
    assert(pixels_of_bytes(bytes1, n) =~= pixels_of_bytes(bytes0, n));
}

/// Shared read interface of every image variant, plus checked pixel writes.
pub trait MyImage: Sized {
    /// The in-memory representation is internally consistent.
    spec fn inv(&self) -> bool;

    /// The image's mathematical view.
    spec fn img(&self) -> ImgView;

    /// Whether pixel writes are supported.
    spec fn mutable(&self) -> bool;

    /// The view always matches the representation's dimensions.
    proof fn lemma_view_wf(&self)
        requires
            self.inv(),
        ensures
            self.img().pixels.len() == self.img().w * self.img().h,
            self.img().w <= 255,
            self.img().h <= 255,
    ;

    /// Logical width in pixels.
    fn width(&self) -> (r: u8)
        requires
            self.inv(),
        ensures
            r as nat == self.img().w,
    ;

    /// Logical height in pixels.
    fn height(&self) -> (r: u8)
        requires
            self.inv(),
        ensures
            r as nat == self.img().h,
    ;

    /// The pixel buffer: `2 * w * h` bytes, two per pixel, little-endian,
    /// row-major.
    fn buffer(&self) -> (r: &[u8])
        requires
            self.inv(),
        ensures
            r@.len() == 2 * (self.img().w * self.img().h),
            pixels_of_bytes(r@, (self.img().w * self.img().h) as nat) == self.img().pixels,
    ;

    /// The two raw bytes of the pixel at `(x, y)`, low byte first.
    fn get_pixel_b(&self, x: u8, y: u8) -> (r: [u8; 2])
        requires
            self.inv(),
            x < self.img().w,
            y < self.img().h,
        ensures
            self.img().pixel(x as int, y as int) == r[0] + r[1] * 256,
    ;

    /// The packed color of the pixel at `(x, y)`, computed from its two
    /// buffer bytes as `low + high * 256`.
    fn get_pixel_u16(&self, x: u8, y: u8) -> (r: u16)
        requires
            self.inv(),
            x < self.img().w,
            y < self.img().h,
        ensures
            r == self.img().pixel(x as int, y as int),
    ;

    /// Writes the two raw bytes of the pixel at `(x, y)`, low byte first.
    /// Succeeds exactly on the mutable variants; on an immutable image it
    /// changes nothing and reports an invalid operation.
    fn set_pixel_b(&mut self, x: u8, y: u8, c: [u8; 2]) -> (r: Result<(), InvalidOperation>)
        requires
            old(self).inv(),
            x < old(self).img().w,
            y < old(self).img().h,
        ensures
            final(self).inv(),
            r is Ok <==> old(self).mutable(),
            final(self).mutable() == old(self).mutable(),
            final(self).img().w == old(self).img().w,
            final(self).img().h == old(self).img().h,
            r is Ok ==> final(self).img().pixels == old(self).img().pixels.update(
                (y as int) * (old(self).img().w as int) + x as int,
                (c[0] + c[1] * 256) as u16,
            ),
            r is Err ==> final(self).img().pixels == old(self).img().pixels,
    ;
}

/// A vector of `n` zero bytes.
fn zero_vec(n: usize) -> (r: Vec<u8>)
    ensures
        r@.len() == n,
        forall|i: int| 0 <= i < n ==> r@[i] == 0u8,
{
    let mut v: Vec<u8> = Vec::new();
    let mut i: usize = 0;
    while i < n
        invariant
            i <= n,
            v@.len() == i,
            forall|j: int| 0 <= j < i ==> v@[j] == 0u8,
        decreases n - i,
    {
        v.push(0u8);
        i = i + 1;
    }
    v
}

/// All pixels decoded from an all-zero buffer are zero.
proof fn lemma_zero_bytes_zero_pixels(bytes: Seq<u8>, n: nat)
    requires
        2 * n <= bytes.len(),
        forall|i: int| 0 <= i < bytes.len() ==> bytes[i] == 0u8,
    ensures
        forall|i: int| 0 <= i < n ==> pixels_of_bytes(bytes, n)[i] == 0u16,
{
    assert forall|i: int| 0 <= i < n implies pixels_of_bytes(bytes, n)[i] == 0u16 by {
        assert(bytes[2 * i] == 0u8);
        assert(bytes[2 * i + 1] == 0u8);
    }
}

/// Byte offset of pixel `(x, y)` in a `w`-wide image, with the bounds proof
/// shared by every accessor.
fn pixel_offset(x: u8, y: u8, w: u8, h: u8) -> (r: usize)
    requires
        x < w,
        y < h,
    ensures
        r == 2 * ((y as int) * (w as int) + (x as int)),
        r + 1 < 2 * ((w as int) * (h as int)),
{
    proof {
        lemma_rowmajor_index(x as int, y as int, w as int, h as int);
        lemma_u8_mul_bound(y as int, w as int);
        lemma_u8_mul_bound(w as int, h as int);
    }
    2 * ((x as usize) + (y as usize) * (w as usize))
}

/// Mutable image backed by a fixed 8192-byte arena. The logical dimensions
/// never let `width * height * 2` exceed the arena.
pub struct ImageBuffer8k {
    w: u8,
    h: u8,
    buffer: Vec<u8>,
}

/// Mutable image backed by a fixed 512-byte arena.
pub struct ImageBuffer512 {
    w: u8,
    h: u8,
    buffer: Vec<u8>,
}

/// Immutable compiled-in asset image: byte 0 is the width, byte 1 the
/// height, and the remainder the `width * height * 2` pixel bytes.
pub struct LoadedImage {
    data: Vec<u8>,
}

impl MyImage for ImageBuffer8k {
    closed spec fn inv(&self) -> bool {
        &&& self.buffer@.len() == 8192
        &&& 2 * ((self.w as int) * (self.h as int)) <= 8192
    }

    closed spec fn img(&self) -> ImgView {
        ImgView {
            w: self.w as nat,
            h: self.h as nat,
            pixels: pixels_of_bytes(self.buffer@, (self.w as nat) * (self.h as nat)),
        }
    }

    closed spec fn mutable(&self) -> bool {
        true
    }

    proof fn lemma_view_wf(&self) {
    }

    fn width(&self) -> (r: u8) {
        self.w
    }

    fn height(&self) -> (r: u8) {
        self.h
    }

    fn buffer(&self) -> (r: &[u8]) {
        proof {
            lemma_buffer_prefix_pixels(self.buffer@, (self.w as nat) * (self.h as nat));
            lemma_u8_mul_bound(self.w as int, self.h as int);
        }
        let len: usize = 2 * ((self.w as usize) * (self.h as usize));
        slice_subrange(self.buffer.as_slice(), 0, len)
    }

    fn get_pixel_b(&self, x: u8, y: u8) -> (r: [u8; 2]) {
        let offset: usize = pixel_offset(x, y, self.w, self.h);
        [self.buffer[offset], self.buffer[offset + 1]]
    }

    fn get_pixel_u16(&self, x: u8, y: u8) -> (r: u16) {
        let offset: usize = pixel_offset(x, y, self.w, self.h);
        self.buffer[offset] as u16 + self.buffer[offset + 1] as u16 * 256
    }

    fn set_pixel_b(&mut self, x: u8, y: u8, c: [u8; 2]) -> (r: Result<(), InvalidOperation>) {
        let offset: usize = pixel_offset(x, y, self.w, self.h);
        let ghost bytes0 = self.buffer@;
        self.buffer.set(offset, c[0]);
        self.buffer.set(offset + 1, c[1]);
        proof {
            lemma_pixel_write(
                bytes0,
                self.buffer@,
                (self.w as nat) * (self.h as nat),
                (y as int) * (self.w as int) + x as int,
                c[0],
                c[1],
            );
        }
        Ok(())
    }
}

impl MyImage for ImageBuffer512 {
    closed spec fn inv(&self) -> bool {
        &&& self.buffer@.len() == 512
        &&& 2 * ((self.w as int) * (self.h as int)) <= 512
    }

    closed spec fn img(&self) -> ImgView {
        ImgView {
            w: self.w as nat,
            h: self.h as nat,
            pixels: pixels_of_bytes(self.buffer@, (self.w as nat) * (self.h as nat)),
        }
    }

    closed spec fn mutable(&self) -> bool {
        true
    }

    proof fn lemma_view_wf(&self) {
    }

    fn width(&self) -> (r: u8) {
        self.w
    }

    fn height(&self) -> (r: u8) {
        self.h
    }

    fn buffer(&self) -> (r: &[u8]) {
        proof {
            lemma_buffer_prefix_pixels(self.buffer@, (self.w as nat) * (self.h as nat));
            lemma_u8_mul_bound(self.w as int, self.h as int);
        }
        let len: usize = 2 * ((self.w as usize) * (self.h as usize));
        slice_subrange(self.buffer.as_slice(), 0, len)
    }

    fn get_pixel_b(&self, x: u8, y: u8) -> (r: [u8; 2]) {
        let offset: usize = pixel_offset(x, y, self.w, self.h);
        [self.buffer[offset], self.buffer[offset + 1]]
    }

    fn get_pixel_u16(&self, x: u8, y: u8) -> (r: u16) {
        let offset: usize = pixel_offset(x, y, self.w, self.h);
        self.buffer[offset] as u16 + self.buffer[offset + 1] as u16 * 256
    }

    fn set_pixel_b(&mut self, x: u8, y: u8, c: [u8; 2]) -> (r: Result<(), InvalidOperation>) {
        let offset: usize = pixel_offset(x, y, self.w, self.h);
        let ghost bytes0 = self.buffer@;
        self.buffer.set(offset, c[0]);
        self.buffer.set(offset + 1, c[1]);
        proof {
            lemma_pixel_write(
                bytes0,
                self.buffer@,
                (self.w as nat) * (self.h as nat),
                (y as int) * (self.w as int) + x as int,
                c[0],
                c[1],
            );
        }
        Ok(())
    }
}

impl MyImage for LoadedImage {
    closed spec fn inv(&self) -> bool {
        &&& self.data@.len() >= 2
        &&& self.data@.len() == 2 + 2 * ((self.data@[0] as int) * (self.data@[1] as int))
    }

    closed spec fn img(&self) -> ImgView {
        ImgView {
            w: self.data@[0] as nat,
            h: self.data@[1] as nat,
            pixels: pixels_of_bytes(
                self.data@.subrange(2, self.data@.len() as int),
                (self.data@[0] as nat) * (self.data@[1] as nat),
            ),
        }
    }

    closed spec fn mutable(&self) -> bool {
        false
    }

    proof fn lemma_view_wf(&self) {
    }

    fn width(&self) -> (r: u8) {
        self.data[0]
    }

    fn height(&self) -> (r: u8) {
        self.data[1]
    }

    fn buffer(&self) -> (r: &[u8]) {
        slice_subrange(self.data.as_slice(), 2, self.data.len())
    }

    fn get_pixel_b(&self, x: u8, y: u8) -> (r: [u8; 2]) {
        let w: u8 = self.data[0];
        let h: u8 = self.data[1];
        proof {
            lemma_rowmajor_index(x as int, y as int, w as int, h as int);
            lemma_u8_mul_bound(y as int, w as int);
            lemma_u8_mul_bound(w as int, h as int);
        }
        let offset: usize = 2 + 2 * ((x as usize) + (y as usize) * (w as usize));
        [self.data[offset], self.data[offset + 1]]
    }

    fn get_pixel_u16(&self, x: u8, y: u8) -> (r: u16) {
        let w: u8 = self.data[0];
        let h: u8 = self.data[1];
        proof {
            lemma_rowmajor_index(x as int, y as int, w as int, h as int);
            lemma_u8_mul_bound(y as int, w as int);
            lemma_u8_mul_bound(w as int, h as int);
        }
        let offset: usize = 2 + 2 * ((x as usize) + (y as usize) * (w as usize));
        self.data[offset] as u16 + self.data[offset + 1] as u16 * 256
    }

    fn set_pixel_b(&mut self, x: u8, y: u8, c: [u8; 2]) -> (r: Result<(), InvalidOperation>) {
        Err(InvalidOperation)
    }
}

/// The first `2*n` bytes of a buffer decode to the same `n` pixels as the
/// whole buffer.
proof fn lemma_buffer_prefix_pixels(bytes: Seq<u8>, n: nat)
    requires
        2 * n <= bytes.len(),
    ensures
        pixels_of_bytes(bytes.subrange(0, 2 * n as int), n) == pixels_of_bytes(bytes, n),
{
    assert(pixels_of_bytes(bytes.subrange(0, 2 * n as int), n) =~= pixels_of_bytes(bytes, n));
}

impl ImageBuffer8k {
    /// A zeroed 8192-byte image. If `width * height * 2` would exceed the
    /// arena the height is silently shrunk to the largest fitting value
    /// (`8192 / width / 2`), not reported as an error.
    pub fn new(w: u8, h: u8) -> (r: Self)
        ensures
            r.inv(),
            r.mutable(),
            r.img().w == w as nat,
            r.img().h as int == if 2 * ((w as int) * (h as int)) > 8192 {
                8192int / (2 * w as int)
            } else {
                h as int
            },
            r.img().pixels.len() == r.img().w * r.img().h,
            forall|i: int| 0 <= i < r.img().pixels.len() ==> r.img().pixels[i] == 0u16,
    {
        proof {
            lemma_u8_mul_bound(w as int, h as int);
        }
        let clamped: u8 = if 2 * ((w as u32) * (h as u32)) > 8192 {
            proof {
                assert(510 * (w as int) >= 2 * ((w as int) * (h as int))) by (nonlinear_arith)
                    requires
                        h <= 255,
                        w >= 0,
                ;
                assert(w >= 17);
                lemma_fundamental_div_mod_converse(8192, 34, 240, 32);
                lemma_div_is_ordered_by_denominator(8192, 34, 2 * (w as int));
                lemma_fundamental_div_mod(8192, 2 * (w as int));
                lemma_mod_bound(8192, 2 * (w as int));
            }
            (8192u32 / (2 * (w as u32))) as u8
        } else {
            h
        };
        proof {
            if 2 * ((w as int) * (h as int)) > 8192 {
                assert(2 * ((w as int) * (clamped as int)) <= 8192) by (nonlinear_arith)
                    requires
                        w >= 17,
                        clamped as int == 8192int / (2 * w as int),
                        (2 * w as int) * (8192int / (2 * w as int)) + 8192int % (2 * w as int)
                            == 8192,
                        8192int % (2 * w as int) >= 0,
                ;
            }
        }
        let buffer = zero_vec(8192);
        proof {
            lemma_zero_bytes_zero_pixels(buffer@, (w as nat) * (clamped as nat));
            assert(2 * ((w as nat) * (clamped as nat)) <= 8192) by (nonlinear_arith)
                requires
                    2 * ((w as int) * (clamped as int)) <= 8192,
            ;
        }
        ImageBuffer8k { w, h: clamped, buffer }
    }

    /// Reinterprets the buffer with width and height swapped; the pixel
    /// sequence itself is untouched.
    pub fn swap_xy(&mut self)
        requires
            old(self).inv(),
        ensures
            final(self).inv(),
            final(self).mutable(),
            final(self).img().w == old(self).img().h,
            final(self).img().h == old(self).img().w,
            final(self).img().pixels == old(self).img().pixels,
    {
        proof {
            lemma_mul_is_commutative(self.w as int, self.h as int);
            lemma_mul_is_commutative(self.w as nat as int, self.h as nat as int);
        }
        let w: u8 = self.w;
        self.w = self.h;
        self.h = w;
    }
}

impl ImageBuffer512 {
    /// A zeroed 512-byte image. If the pixel count would reach 256 the
    /// height is silently shrunk to `255 / width`, so the pixel count stays
    /// at most 255; not reported as an error.
    pub fn new(w: u8, h: u8) -> (r: Self)
        ensures
            r.inv(),
            r.mutable(),
            r.img().w == w as nat,
            r.img().h as int == if (w as int) * (h as int) >= 256 {
                255int / (w as int)
            } else {
                h as int
            },
            r.img().w * r.img().h <= 255,
            r.img().pixels.len() == r.img().w * r.img().h,
            forall|i: int| 0 <= i < r.img().pixels.len() ==> r.img().pixels[i] == 0u16,
    {
        proof {
            assert((w as int) * (h as int) >= 256 ==> w >= 1) by (nonlinear_arith);
            lemma_u8_mul_bound(w as int, h as int);
        }
        let clamped: u8 = if (w as u16) * (h as u16) >= 256 {
            255 / w
        } else {
            h
        };
        proof {
            if (w as int) * (h as int) >= 256 {
                lemma_fundamental_div_mod(255, w as int);
                lemma_mod_bound(255, w as int);
                assert((w as int) * (clamped as int) <= 255) by (nonlinear_arith)
                    requires
                        w >= 1,
                        clamped as int == 255int / (w as int),
                        (w as int) * (255int / (w as int)) + 255int % (w as int) == 255,
                        255int % (w as int) >= 0,
                ;
            } else {
                assert((w as int) * (clamped as int) <= 255);
            }
            lemma_mul_is_commutative(w as int, clamped as int);
        }
        let buffer = zero_vec(512);
        proof {
            lemma_zero_bytes_zero_pixels(buffer@, (w as nat) * (clamped as nat));
        }
        ImageBuffer512 { w, h: clamped, buffer }
    }

    /// Reinterprets the buffer with width and height swapped; the pixel
    /// sequence itself is untouched.
    pub fn swap_xy(&mut self)
        requires
            old(self).inv(),
        ensures
            final(self).inv(),
            final(self).mutable(),
            final(self).img().w == old(self).img().h,
            final(self).img().h == old(self).img().w,
            final(self).img().pixels == old(self).img().pixels,
    {
        proof {
            lemma_mul_is_commutative(self.w as int, self.h as int);
            lemma_mul_is_commutative(self.w as nat as int, self.h as nat as int);
        }
        let w: u8 = self.w;
        self.w = self.h;
        self.h = w;
    }

    /// A copy whose pixel order is reversed end-to-start. The reversal index
    /// is `count - i` — one past the true mirror point — so pixel 0 of the
    /// copy is left at zero and the extreme pixels are not swapped
    /// symmetrically; the write for the first source pixel lands on the two
    /// arena bytes just past the pixel area, which is why the pixel count
    /// must stay below the arena's half capacity.
    pub fn mirror_gradient(&self) -> (r: Self)
        requires
            self.inv(),
            self.img().w * self.img().h <= 255,
        ensures
            r.inv(),
            r.mutable(),
            r.img().w == self.img().w,
            r.img().h == self.img().h,
            r.img().pixels == mirror_spec(self.img().pixels),
    {
        let mut g = ImageBuffer512::new(self.w, self.h);
        proof {
            lemma_mul_is_commutative(self.w as int, self.h as int);
            lemma_u8_mul_bound(self.w as int, self.h as int);
        }
        let count: usize = (self.w as usize) * (self.h as usize);
        let mut i: usize = 0;
        while i < count
            invariant
                g.inv(),
                g.buffer@.len() == 512,
                g.w == self.w,
                g.h == self.h,
                self.inv(),
                count == (self.w as int) * (self.h as int),
                count <= 255,
                i <= count,
                g.img().pixels.len() == count,
                self.img().pixels.len() == count,
                count > 0 ==> g.img().pixels[0] == 0u16,
                forall|j: int|
                    1 <= j < i ==> g.img().pixels[count - j] == self.img().pixels[j],
            decreases count - i,
        {
            let ghost bytes0 = g.buffer@;
            let ghost pixels0 = g.img().pixels;
            let c0: u8 = self.buffer[2 * i];
            let c1: u8 = self.buffer[2 * i + 1];
            g.buffer.set(2 * (count - i), c0);
            g.buffer.set(2 * (count - i) + 1, c1);
            proof {
                if i == 0 {
                    lemma_write_past_pixels(
                        bytes0,
                        g.buffer@,
                        count as nat,
                        2 * (count - i),
                        c0,
                        c1,
                    );
                } else {
                    lemma_pixel_write(
                        bytes0,
                        g.buffer@,
                        count as nat,
                        count - i,
                        c0,
                        c1,
                    );
                    assert(self.img().pixels[i as int] == (c0 + c1 * 256) as u16);
                }
            }
            i = i + 1;
        }
        proof {
            assert(g.img().pixels =~= mirror_spec(self.img().pixels));
        }
        g
    }
}

/// The mirrored pixel sequence: entry `i` holds source entry `count - i`;
/// entry 0, whose source index would be one past the end, is zero.
pub open spec fn mirror_spec(s: Seq<u16>) -> Seq<u16> {
    Seq::new(
        s.len(),
        |i: int|
            if i == 0 {
                0u16
            } else {
                s[s.len() - i]
            },
    )
}

/// Law: mirroring is a near-involution. Mirroring twice restores every pixel
/// except the boundary pixel 0, which the documented `count - i` reversal
/// index (one past the true mirror point) leaves at zero.
pub proof fn lemma_mirror_near_involution(s: Seq<u16>)
    ensures
        mirror_spec(mirror_spec(s)).len() == s.len(),
        forall|i: int| 1 <= i < s.len() ==> mirror_spec(mirror_spec(s))[i] == s[i],
        s.len() > 0 ==> mirror_spec(mirror_spec(s))[0] == 0u16,
{
    let m = mirror_spec(s);
    let mm = mirror_spec(m);
    assert forall|i: int| 1 <= i < s.len() implies mm[i] == s[i] by {
        assert(mm[i] == m[s.len() - i]);
        assert(m[s.len() - i] == s[i]);
    }
}

impl LoadedImage {
    /// Wraps an asset blob, checking that its length matches the dimensions
    /// its first two bytes encode; a blob of any other shape is rejected.
    pub fn from_bytes(data: Vec<u8>) -> (r: Result<LoadedImage, InvalidOperation>)
        ensures
            r is Ok <==> data@.len() >= 2 && data@.len() == 2 + 2 * ((data@[0] as int) * (
            data@[1] as int)),
            r matches Ok(img) ==> {
                &&& img.inv()
                &&& !img.mutable()
                &&& img.img().w == data@[0] as nat
                &&& img.img().h == data@[1] as nat
                &&& img.img().pixels == pixels_of_bytes(
                    data@.subrange(2, data@.len() as int),
                    (data@[0] as nat) * (data@[1] as nat),
                )
            },
    {
        if data.len() < 2 {
            return Err(InvalidOperation);
        }
        let w: u8 = data[0];
        let h: u8 = data[1];
        proof {
            lemma_u8_mul_bound(w as int, h as int);
        }
        let expect: usize = 2 + 2 * ((w as usize) * (h as usize));
        if data.len() != expect {
            return Err(InvalidOperation);
        }
        Ok(LoadedImage { data })
    }
}

/// The integer-interpolated sample coordinate: endpoint `a0` plus `i/n` of
/// the way toward `a1`, with the division truncating toward zero.
pub open spec fn lerp(a0: int, a1: int, i: int, n: int) -> int {
    if a1 >= a0 {
        a0 + (a1 - a0) * i / n
    } else {
        a0 - (a0 - a1) * i / n
    }
}

/// The interpolated coordinate, evaluated in machine integers; the result
/// always lies between the two endpoints.
fn lerp_coord(a0: u8, a1: u8, i: u8, n: u8) -> (r: u8)
    requires
        i < n,
    ensures
        r as int == lerp(a0 as int, a1 as int, i as int, n as int),
        a1 >= a0 ==> a0 <= r <= a1,
        a1 < a0 ==> a1 <= r <= a0,
{
    let d: u32 = if a1 >= a0 {
        (a1 - a0) as u32
    } else {
        (a0 - a1) as u32
    };
    proof {
        lemma_u8_mul_bound(d as int, i as int);
        assert(d * i <= d * n) by (nonlinear_arith)
            requires
                0 <= d,
                0 <= i <= n,
        ;
    }
    let q: u32 = d * (i as u32) / (n as u32);
    proof {
        lemma_div_is_ordered(d as int * i as int, d as int * n as int, n as int);
        lemma_mul_is_commutative(d as int, n as int);
        lemma_div_multiples_vanish(d as int, n as int);
        lemma_div_is_ordered(0, d as int * i as int, n as int);
        assert(0 * (n as int) == 0);
        lemma_div_multiples_vanish(0, n as int);
        assert(0 <= q <= d);
    }
    if a1 >= a0 {
        a0 + (q as u8)
    } else {
        a0 - (q as u8)
    }
}

/// A 1-row image of `count` pixels sampled from `src` along the
/// integer-interpolated line between `(x0, y0)` and `(x1, y1)`
/// (nearest-neighbor, truncating division).
pub fn gradient<T: MyImage>(src: &T, x0: u8, y0: u8, x1: u8, y1: u8, count: u8) -> (r:
    ImageBuffer512)
    requires
        src.inv(),
        x0 < src.img().w,
        x1 < src.img().w,
        y0 < src.img().h,
        y1 < src.img().h,
    ensures
        r.inv(),
        r.mutable(),
        r.img().w == count as nat,
        r.img().h == 1,
        r.img().pixels.len() == count,
        forall|i: int|
            0 <= i < count ==> r.img().pixels[i] == src.img().pixel(
                lerp(x0 as int, x1 as int, i, count as int),
                lerp(y0 as int, y1 as int, i, count as int),
            ),
{
    let mut img = ImageBuffer512::new(count, 1);
    let mut i: u8 = 0;
    while i < count
        invariant
            src.inv(),
            x0 < src.img().w,
            x1 < src.img().w,
            y0 < src.img().h,
            y1 < src.img().h,
            img.inv(),
            img.mutable(),
            img.img().w == count as nat,
            img.img().h == 1,
            img.img().pixels.len() == count,
            i <= count,
            forall|j: int|
                0 <= j < i ==> img.img().pixels[j] == src.img().pixel(
                    lerp(x0 as int, x1 as int, j, count as int),
                    lerp(y0 as int, y1 as int, j, count as int),
                ),
        decreases count - i,
    {
        let xi: u8 = lerp_coord(x0, x1, i, count);
        let yi: u8 = lerp_coord(y0, y1, i, count);
        let c: [u8; 2] = src.get_pixel_b(xi, yi);
        let res = img.set_pixel_b(i, 0, c);
        proof {
            assert(res is Ok);
            assert(img.img().pixels[i as int] == (c[0] + c[1] * 256) as u16);
        }
        i = i + 1;
    }
    img
}

} // verus!
