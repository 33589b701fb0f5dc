//! Specification-level model of the display device.
//!
//! The device consumes a stream of command and data transmissions. The model
//! keeps the addressable window (start/end column and row, inclusive), a
//! write cursor, which register the next data transmission feeds, a pending
//! high byte for a half-received pixel, and the 240x240 framebuffer of
//! 16-bit packed colors. Pixels arrive big-endian on the wire and fill the
//! window in row-major order, the cursor auto-advancing row by row and
//! wrapping to the window start when the window is full. `interpret` folds a
//! whole event stream into the device state; it is the reference against
//! which the transport layer's contracts are stated.

use vstd::prelude::*;
use vstd::arithmetic::div_mod::{
    lemma_fundamental_div_mod, lemma_fundamental_div_mod_converse, lemma_mod_bound,
};

verus! {

/// One transmission on the command/data transport.
#[verifier::ext_equal]
pub ghost enum TxEvent {
    /// A command byte sequence.
    Command(Seq<u8>),
    /// A data byte sequence.
    Data(Seq<u8>),
}

/// What the device does with the next data transmission, decided by the most
/// recent command byte.
pub ghost enum RegTarget {
    /// Data sets the column address window.
    Cols,
    /// Data sets the row address window.
    Rows,
    /// Data streams pixels into memory at the cursor.
    Ram,
    /// Data feeds some other register and does not touch the model.
    Other,
}

/// The modelled device state.
pub ghost struct DeviceState {
    /// Window start and end column, inclusive.
    pub xs: int,
    pub xe: int,
    /// Window start and end row, inclusive.
    pub ys: int,
    pub ye: int,
    /// Write cursor.
    pub cx: int,
    pub cy: int,
    /// Destination of the next data transmission.
    pub target: RegTarget,
    /// High byte of a half-received pixel.
    pub half: Option<u8>,
    /// The 240x240 framebuffer, row-major.
    pub fb: Seq<u16>,
}

/// Power-on state: full-screen window, cursor at the origin, zeroed
/// framebuffer.
pub open spec fn init_device() -> DeviceState {
    DeviceState {
        xs: 0,
        xe: 239,
        ys: 0,
        ye: 239,
        cx: 0,
        cy: 0,
        target: RegTarget::Other,
        half: None,
        fb: Seq::new(57600, |i: int| 0u16),
    }
}

/// Window width in columns.
pub open spec fn win_w(st: DeviceState) -> int {
    st.xe - st.xs + 1
}

/// Window height in rows.
pub open spec fn win_h(st: DeviceState) -> int {
    st.ye - st.ys + 1
}

/// Number of cells in the window.
pub open spec fn win_area(st: DeviceState) -> int {
    win_w(st) * win_h(st)
}

/// The window lies within the 240x240 screen.
pub open spec fn win_wf(st: DeviceState) -> bool {
    &&& 0 <= st.xs <= st.xe <= 239
    &&& 0 <= st.ys <= st.ye <= 239
}

/// Cursor advance after one pixel: across the row, then to the next row,
/// wrapping to the window start once the window is full.
pub open spec fn advance_cursor(st: DeviceState) -> DeviceState {
    if st.cx >= st.xe {
        if st.cy >= st.ye {
            DeviceState { cx: st.xs, cy: st.ys, ..st }
        } else {
            DeviceState { cx: st.xs, cy: st.cy + 1, ..st }
        }
    } else {
        DeviceState { cx: st.cx + 1, ..st }
    }
}

/// One complete pixel lands at the cursor (if the cursor addresses the
/// screen) and the cursor advances.
pub open spec fn write_pixel(st: DeviceState, p: u16) -> DeviceState {
    let fb = if 0 <= st.cx < 240 && 0 <= st.cy < 240 {
        st.fb.update(st.cy * 240 + st.cx, p)
    } else {
        st.fb
    };
    advance_cursor(DeviceState { fb, ..st })
}

/// One data byte in pixel-stream mode: the first byte of a pixel is held as
/// its high (wire-order) byte, the second completes the pixel.
pub open spec fn write_byte(st: DeviceState, b: u8) -> DeviceState {
    match st.half {
        None => DeviceState { half: Some(b), ..st },
        Some(hi) => write_pixel(
            DeviceState { half: None, ..st },
            (hi * 256 + b) as u16,
        ),
    }
}

/// A whole data transmission in pixel-stream mode, byte by byte.
pub open spec fn write_bytes(st: DeviceState, bytes: Seq<u8>) -> DeviceState
    decreases bytes.len(),
{
    if bytes.len() == 0 {
        st
    } else {
        write_bytes(write_byte(st, bytes[0]), bytes.drop_first())
    }
}

/// A command transmission: the last command byte selects what the following
/// data feeds; the pixel-stream command also homes the cursor to the window
/// start. Any command drops a half-received pixel.
pub open spec fn apply_command(st: DeviceState, bytes: Seq<u8>) -> DeviceState {
    if bytes.len() == 0 {
        DeviceState { half: None, target: RegTarget::Other, ..st }
    } else if bytes.last() == 0x2A {
        DeviceState { half: None, target: RegTarget::Cols, ..st }
    } else if bytes.last() == 0x2B {
        DeviceState { half: None, target: RegTarget::Rows, ..st }
    } else if bytes.last() == 0x2C {
        DeviceState { half: None, target: RegTarget::Ram, cx: st.xs, cy: st.ys, ..st }
    } else {
        DeviceState { half: None, target: RegTarget::Other, ..st }
    }
}

/// A data transmission, interpreted according to the selected register:
/// a four-byte address payload sets the window bounds (16-bit big-endian
/// pairs), pixel-stream data goes to memory, anything else is ignored.
pub open spec fn apply_data(st: DeviceState, bytes: Seq<u8>) -> DeviceState {
    match st.target {
        RegTarget::Cols => if bytes.len() == 4 {
            DeviceState {
                xs: bytes[0] * 256 + bytes[1],
                xe: bytes[2] * 256 + bytes[3],
                ..st
            }
        } else {
            st
        },
        RegTarget::Rows => if bytes.len() == 4 {
            DeviceState {
                ys: bytes[0] * 256 + bytes[1],
                ye: bytes[2] * 256 + bytes[3],
                ..st
            }
        } else {
            st
        },
        RegTarget::Ram => write_bytes(st, bytes),
        RegTarget::Other => st,
    }
}

/// One transmission.
pub open spec fn step(st: DeviceState, ev: TxEvent) -> DeviceState {
    match ev {
        TxEvent::Command(bytes) => apply_command(st, bytes),
        TxEvent::Data(bytes) => apply_data(st, bytes),
    }
}

/// The device state after a whole event stream, from power-on.
pub open spec fn interpret(events: Seq<TxEvent>) -> DeviceState
    decreases events.len(),
{
    if events.len() == 0 {
        init_device()
    } else {
        step(interpret(events.drop_last()), events.last())
    }
}

/// The displayed framebuffer after a whole event stream.
pub open spec fn screen(events: Seq<TxEvent>) -> Seq<u16> {
    interpret(events).fb
}

/// Two framebuffers that agree on every screen coordinate are equal.
pub proof fn lemma_grid_to_flat(a: Seq<u16>, b: Seq<u16>)
    requires
        a.len() == 57600,
        b.len() == 57600,
        forall|x: int, y: int|
            0 <= x < 240 && 0 <= y < 240 ==> #[trigger] a[y * 240 + x] == b[y * 240 + x],
    ensures
        a == b,
{
    assert forall|i: int| 0 <= i < 57600 implies a[i] == b[i] by {
        lemma_fundamental_div_mod(i, 240);
        lemma_mod_bound(i, 240);
        let q = i / 240;
        let r = i % 240;
        assert(0 <= q < 240) by (nonlinear_arith)
            requires
                i == 240 * q + r,
                0 <= r < 240,
                0 <= i < 57600,
        ;
        assert(a[q * 240 + r] == b[q * 240 + r]);
        assert(q * 240 + r == i) by (nonlinear_arith)
            requires
                i == 240 * q + r,
        ;
    }
    assert(a =~= b);
}

/// Appending one event steps the interpretation once.
pub proof fn lemma_interpret_push(events: Seq<TxEvent>, ev: TxEvent)
    ensures
        interpret(events.push(ev)) == step(interpret(events), ev),
{
    assert(events.push(ev).drop_last() =~= events);
    assert(events.push(ev).last() == ev);
}

/// Pixel-stream writes preserve the framebuffer's size.
proof fn lemma_write_bytes_fb_len(st: DeviceState, bytes: Seq<u8>)
    requires
        st.fb.len() == 57600,
    ensures
        write_bytes(st, bytes).fb.len() == 57600,
    decreases bytes.len(),
{
    if bytes.len() > 0 {
        let st1 = write_byte(st, bytes[0]);
        assert(st1.fb.len() == 57600) by {
            match st.half {
                None => {},
                Some(hi) => {
                    assert(st1 == write_pixel(DeviceState { half: None, ..st }, (hi * 256
                        + bytes[0]) as u16));
                },
            }
        };
        lemma_write_bytes_fb_len(st1, bytes.drop_first());
    }
}

/// The framebuffer always holds exactly the screen's 57600 cells.
pub proof fn lemma_interpret_fb_len(events: Seq<TxEvent>)
    ensures
        interpret(events).fb.len() == 57600,
    decreases events.len(),
{
    if events.len() > 0 {
        lemma_interpret_fb_len(events.drop_last());
        let st = interpret(events.drop_last());
        match events.last() {
            TxEvent::Command(bytes) => {},
            TxEvent::Data(bytes) => {
                if st.target is Ram {
                    lemma_write_bytes_fb_len(st, bytes);
                }
            },
        }
    }
}

/// Consuming one more byte at the tail steps the byte interpreter once.
pub proof fn lemma_write_bytes_push(st: DeviceState, bytes: Seq<u8>, b: u8)
    ensures
        write_bytes(st, bytes.push(b)) == write_byte(write_bytes(st, bytes), b),
    decreases bytes.len(),
{
    if bytes.len() == 0 {
        assert(bytes.push(b)[0] == b);
        assert(bytes.push(b).drop_first() =~= Seq::<u8>::empty());
        assert(write_bytes(st, bytes.push(b)) == write_bytes(
            write_byte(st, b),
            bytes.push(b).drop_first(),
        ));
        assert(write_bytes(write_byte(st, b), Seq::<u8>::empty()) == write_byte(st, b));
    } else {
        assert(bytes.push(b)[0] == bytes[0]);
        assert(bytes.push(b).drop_first() =~= bytes.drop_first().push(b));
        lemma_write_bytes_push(write_byte(st, bytes[0]), bytes.drop_first(), b);
        assert(write_bytes(st, bytes.push(b)) == write_bytes(
            write_byte(st, bytes[0]),
            bytes.drop_first().push(b),
        ));
        assert(write_bytes(st, bytes) == write_bytes(write_byte(st, bytes[0]), bytes.drop_first()));
    }
}

/// The big-endian wire encoding of a pixel sequence: high byte, then low
/// byte, pixel after pixel.
pub open spec fn be_bytes(pix: Seq<u16>) -> Seq<u8>
    decreases pix.len(),
{
    if pix.len() == 0 {
        Seq::empty()
    } else {
        seq![(pix[0] / 256) as u8, (pix[0] % 256) as u8] + be_bytes(pix.drop_first())
    }
}

/// The wire encoding is two bytes per pixel.
pub proof fn lemma_be_bytes_len(pix: Seq<u16>)
    ensures
        be_bytes(pix).len() == 2 * pix.len(),
    decreases pix.len(),
{
    if pix.len() > 0 {
        lemma_be_bytes_len(pix.drop_first());
    }
}

/// The wire encoding grows at the tail as pixels are appended.
pub proof fn lemma_be_bytes_push(pix: Seq<u16>, p: u16)
    ensures
        be_bytes(pix.push(p)) == be_bytes(pix) + seq![(p / 256) as u8, (p % 256) as u8],
    decreases pix.len(),
{
    let tail = seq![(p / 256) as u8, (p % 256) as u8];
    if pix.len() == 0 {
        assert(pix.push(p)[0] == p);
        assert(pix.push(p).drop_first() =~= Seq::<u16>::empty());
        assert(be_bytes(pix.push(p).drop_first()) == Seq::<u8>::empty());
        assert(be_bytes(pix) == Seq::<u8>::empty());
        assert(be_bytes(pix.push(p)) =~= be_bytes(pix) + tail);
    } else {
        assert(pix.push(p)[0] == pix[0]);
        assert(pix.push(p).drop_first() =~= pix.drop_first().push(p));
        lemma_be_bytes_push(pix.drop_first(), p);
        let head = seq![(pix[0] / 256) as u8, (pix[0] % 256) as u8];
        assert(be_bytes(pix.push(p)) == head + (be_bytes(pix.drop_first()) + tail));
        assert(be_bytes(pix) == head + be_bytes(pix.drop_first()));
        assert(head + (be_bytes(pix.drop_first()) + tail) =~= (head + be_bytes(
            pix.drop_first(),
        )) + tail);
    }
}

/// Streaming a pixel sequence into a well-formed window, with the cursor at
/// cell `k` (row-major within the window) and the stream fitting the
/// remaining cells, overwrites exactly the cells `k ..` with the pixels, in
/// row-major order, and touches nothing else.
pub proof fn lemma_stream_pixels(st: DeviceState, pix: Seq<u16>, k: int)
    requires
        st.target is Ram,
        st.half is None,
        win_wf(st),
        st.fb.len() == 57600,
        0 <= k,
        k + pix.len() <= win_area(st),
        pix.len() > 0 ==> st.cx == st.xs + k % win_w(st) && st.cy == st.ys + k / win_w(st),
    ensures
        ({
            let st2 = write_bytes(st, be_bytes(pix));
            &&& st2.target is Ram
            &&& st2.half is None
            &&& st2.xs == st.xs
            &&& st2.xe == st.xe
            &&& st2.ys == st.ys
            &&& st2.ye == st.ye
            &&& st2.fb.len() == 57600
            &&& forall|x: int, y: int|
                0 <= x < 240 && 0 <= y < 240 ==> #[trigger] st2.fb[y * 240 + x] == (if st.xs <= x
                    <= st.xe
                    && st.ys <= y <= st.ye && k <= (y - st.ys) * win_w(st) + (x - st.xs) < k
                    + pix.len() {
                    pix[(y - st.ys) * win_w(st) + (x - st.xs) - k]
                } else {
                    st.fb[y * 240 + x]
                })
        }),
    decreases pix.len(),
{
    let w = win_w(st);
    let h = win_h(st);
    if pix.len() == 0 {
        assert(write_bytes(st, be_bytes(pix)) == st);
    } else {
        let p = pix[0];
        let hi = (p / 256) as u8;
        let lo = (p % 256) as u8;
        let b = be_bytes(pix);
        lemma_be_bytes_len(pix.drop_first());
        assert(b == seq![hi, lo] + be_bytes(pix.drop_first()));
        assert(b[0] == hi);
        assert(b.drop_first()[0] == lo);
        assert(b.drop_first().drop_first() =~= be_bytes(pix.drop_first()));

        lemma_mod_bound(k, w);
        lemma_fundamental_div_mod(k, w);
        let q = k / w;
        let r = k % w;
        assert(q < h) by (nonlinear_arith)
            requires
                k == w * q + r,
                0 <= r < w,
                k < w * h,
                w >= 1,
                h >= 1,
                q >= 0,
        ;
        assert(0 <= q) by (nonlinear_arith)
            requires
                k == w * q + r,
                0 <= r < w,
                0 <= k,
                w >= 1,
        ;

        // The two bytes of the first pixel land it at the cursor.
        let stA = write_byte(st, hi);
        assert(stA == DeviceState { half: Some(hi), ..st });
        lemma_fundamental_div_mod(p as int, 256);
        assert((hi * 256 + lo) as u16 == p);
        let cell = st.cy * 240 + st.cx;
        let stB = write_byte(stA, lo);
        assert(stB == write_pixel(DeviceState { half: None, ..stA }, p));
        assert(0 <= st.cx < 240 && 0 <= st.cy < 240);
        assert(stB.fb == st.fb.update(cell, p));

        // The cursor ends up at cell k + 1 (unless the window just filled,
        // in which case the stream is over).
        if pix.len() > 1 {
            assert(k + 1 < win_area(st));
            if r == w - 1 {
                assert(st.cx == st.xe);
                assert(k + 1 == (q + 1) * w + 0) by (nonlinear_arith)
                    requires
                        k == w * q + r,
                        r == w - 1,
                ;
                lemma_fundamental_div_mod_converse(k + 1, w, q + 1, 0);
                assert(q + 1 < h) by (nonlinear_arith)
                    requires
                        k + 1 == w * (q + 1),
                        k + 1 < w * h,
                        w >= 1,
                        h >= 1,
                        q + 1 >= 0,
                ;
                assert(st.cy < st.ye);
                assert(stB.cx == st.xs + (k + 1) % w);
                assert(stB.cy == st.ys + (k + 1) / w);
            } else {
                assert(k + 1 == q * w + (r + 1)) by (nonlinear_arith)
                    requires
                        k == w * q + r,
                ;
                lemma_fundamental_div_mod_converse(k + 1, w, q, r + 1);
                assert(st.cx < st.xe);
                assert(stB.cx == st.xs + (k + 1) % w);
                assert(stB.cy == st.ys + (k + 1) / w);
            }
        }

        lemma_stream_pixels(stB, pix.drop_first(), k + 1);
        let st2 = write_bytes(stB, be_bytes(pix.drop_first()));
        assert(b.len() == 2 + be_bytes(pix.drop_first()).len());
        assert(write_bytes(st, b) == write_bytes(stA, b.drop_first()));
        assert(write_bytes(stA, b.drop_first()) == write_bytes(
            stB,
            b.drop_first().drop_first(),
        ));
        assert(write_bytes(st, b) == st2);

        // Combine the first write with the rest of the stream, cell by cell.
        assert forall|x: int, y: int| 0 <= x < 240 && 0 <= y < 240 implies #[trigger] write_bytes(
            st,
            b,
        ).fb[y * 240 + x] == (if st.xs <= x <= st.xe && st.ys <= y <= st.ye && k <= (y - st.ys) * w
            + (x - st.xs) < k + pix.len() {
            pix[(y - st.ys) * w + (x - st.xs) - k]
        } else {
            st.fb[y * 240 + x]
        }) by {
            if st.xs <= x <= st.xe && st.ys <= y <= st.ye {
                let c = (y - st.ys) * w + (x - st.xs);
                assert(0 <= c < win_area(st)) by (nonlinear_arith)
                    requires
                        c == (y - st.ys) * w + (x - st.xs),
                        0 <= x - st.xs < w,
                        0 <= y - st.ys < h,
                        win_area(st) == w * h,
                ;
                if c == k {
                    assert(k == (y - st.ys) * w + (x - st.xs));
                    lemma_fundamental_div_mod_converse(k, w, y - st.ys, x - st.xs);
                    assert(x == st.cx && y == st.cy);
                    assert(st2.fb[y * 240 + x] == stB.fb[y * 240 + x]);
                    assert(stB.fb[y * 240 + x] == p);
                } else if k < c {
                    assert(st2.fb[y * 240 + x] == (if k + 1 <= c < k + pix.len() {
                        pix.drop_first()[c - k - 1]
                    } else {
                        stB.fb[y * 240 + x]
                    }));
                    if k + 1 <= c < k + pix.len() {
                        assert(pix.drop_first()[c - k - 1] == pix[c - k]);
                    } else {
                        assert(y * 240 + x != cell);
                    }
                } else {
                    // c < k: never in this stream's range; also not cell k.
                    assert(y * 240 + x != cell);
                }
            } else {
                assert(y * 240 + x != cell) by {
                    if y * 240 + x == cell {
                        assert(x == st.cx && y == st.cy);
                        assert(st.xs <= st.cx <= st.xe && st.ys <= st.cy <= st.ye);
                    }
                };
                assert(st2.fb[y * 240 + x] == stB.fb[y * 240 + x]);
            }
        }
    }
}

} // verus!
