//! Display transport and window layer.
//!
//! The display is driven through the [`Transport`] capability: a blocking
//! command/data byte channel that a host supplies (an in-memory verified
//! implementation lives in [`crate::sim`]). This layer issues the device's
//! addressing protocol — window setup followed by a big-endian pixel stream
//! whose length exactly matches the window area — and its contracts state
//! the effect on the modelled device of [`crate::device`]: which framebuffer
//! cells change and to what. A transport fault aborts the operation at once;
//! every contract speaks of the success path alone.

use vstd::prelude::*;
use crate::device::{
    be_bytes, interpret, lemma_be_bytes_push, lemma_interpret_fb_len, lemma_interpret_push,
    lemma_stream_pixels, win_area, win_w, DeviceState, RegTarget, TxEvent,
};
use crate::image::{lemma_rowmajor_index, lemma_u8_mul_bound, MyImage};
use crate::rng::{lcg_iter, lcg_u16, Random};

verus! {

/// Failure of the underlying blocking command/data write. Fatal to the
/// in-progress operation: no retries, no partial-frame recovery.
#[derive(Debug, PartialEq, Eq)]
pub struct TransportFault;

/// The blocking command/data channel the display is reached through. Every
/// implementation exposes the sequence of transmissions it has carried; a
/// successful send appends exactly one transmission. Nothing is promised of
/// a failed send.
pub trait Transport: Sized {
    /// The transmissions carried so far. A successful send must extend this
    /// history by exactly the transmission, so a verified implementation
    /// that ever returns `Ok` must keep its own account and override the
    /// default (an empty history cannot equal its own extension); the
    /// default suits only an implementation outside verification, or one
    /// that never reports success.
    open spec fn events(&self) -> Seq<TxEvent> {
        Seq::empty()
    }

    /// Transmits one command byte sequence.
    fn send_command(&mut self, bytes: &[u8]) -> (r: Result<(), TransportFault>)
        ensures
            r is Ok ==> final(self).events() == old(self).events().push(
                TxEvent::Command(bytes@),
            ),
    ;

    /// Transmits one data byte sequence.
    fn send_data(&mut self, bytes: &[u8]) -> (r: Result<(), TransportFault>)
        ensures
            r is Ok ==> final(self).events() == old(self).events().push(TxEvent::Data(bytes@)),
    ;
}

/// Blocking millisecond delay, consumed by [`Lcd::init`] for the device's
/// settle times. A host supplies its timer; tests may pass [`NoDelay`].
pub trait DelayProvider {
    /// Blocks for `ms` milliseconds.
    fn delay_ms(&mut self, ms: u32);
}

/// A delay provider that does not wait; the device model needs no settling.
pub struct NoDelay;

impl DelayProvider for NoDelay {
    fn delay_ms(&mut self, ms: u32) {
    }
}

/// The display, wrapping the transport it exclusively owns.
pub struct Lcd<T: Transport>(pub T);

/// One block of the vendor register script, as transmitted.
pub open spec fn init_events_a() -> Seq<TxEvent> {
    seq![
        TxEvent::Command(seq![0x36u8]),
        TxEvent::Data(seq![0xC8u8]),
        TxEvent::Command(seq![0xEFu8, 0xEBu8]),
        TxEvent::Data(seq![0x14u8]),
        TxEvent::Command(seq![0xFEu8, 0xEFu8, 0xEBu8]),
        TxEvent::Data(seq![0x14u8]),
        TxEvent::Command(seq![0x84u8]),
        TxEvent::Data(seq![0x40u8]),
        TxEvent::Command(seq![0x85u8]),
        TxEvent::Data(seq![0xFFu8]),
        TxEvent::Command(seq![0x86u8]),
        TxEvent::Data(seq![0xFFu8]),
        TxEvent::Command(seq![0x87u8]),
        TxEvent::Data(seq![0xFFu8]),
        TxEvent::Command(seq![0x88u8]),
        TxEvent::Data(seq![0x0Au8]),
        TxEvent::Command(seq![0x89u8]),
        TxEvent::Data(seq![0x21u8]),
        TxEvent::Command(seq![0x8Au8]),
        TxEvent::Data(seq![0x00u8]),
        TxEvent::Command(seq![0x8Bu8]),
        TxEvent::Data(seq![0x80u8]),
        TxEvent::Command(seq![0x8Cu8]),
        TxEvent::Data(seq![0x01u8]),
    ]
}

/// One block of the vendor register script, as transmitted.
pub open spec fn init_events_b() -> Seq<TxEvent> {
    seq![
        TxEvent::Command(seq![0x8Du8]),
        TxEvent::Data(seq![0x01u8]),
        TxEvent::Command(seq![0x8Eu8]),
        TxEvent::Data(seq![0xFFu8]),
        TxEvent::Command(seq![0x8Fu8]),
        TxEvent::Data(seq![0xFFu8]),
        TxEvent::Command(seq![0xB6u8]),
        TxEvent::Data(seq![0x00u8, 0x20u8]),
        TxEvent::Command(seq![0x36u8]),
        TxEvent::Data(seq![0x08u8]),
        TxEvent::Command(seq![0x3Au8]),
        TxEvent::Data(seq![0x05u8]),
        TxEvent::Command(seq![0x90u8]),
        TxEvent::Data(seq![0x08u8, 0x08u8, 0x08u8, 0x08u8]),
        TxEvent::Command(seq![0xBDu8]),
        TxEvent::Data(seq![0x06u8]),
        TxEvent::Command(seq![0xBCu8]),
        TxEvent::Data(seq![0x00u8]),
        TxEvent::Command(seq![0xFFu8]),
        TxEvent::Data(seq![0x60u8, 0x01u8, 0x04u8]),
        TxEvent::Command(seq![0xC3u8]),
        TxEvent::Data(seq![0x13u8]),
        TxEvent::Command(seq![0xC4u8]),
        TxEvent::Data(seq![0x13u8]),
    ]
}

/// One block of the vendor register script, as transmitted.
pub open spec fn init_events_c() -> Seq<TxEvent> {
    seq![
        TxEvent::Command(seq![0xC9u8]),
        TxEvent::Data(seq![0x22u8]),
        TxEvent::Command(seq![0xBEu8]),
        TxEvent::Data(seq![0x11u8]),
        TxEvent::Command(seq![0xE1u8]),
        TxEvent::Data(seq![0x10u8, 0x0Eu8]),
        TxEvent::Command(seq![0xDFu8]),
        TxEvent::Data(seq![0x21u8, 0x0Cu8, 0x02u8]),
        TxEvent::Command(seq![0xF0u8]),
        TxEvent::Data(seq![0x45u8, 0x09u8, 0x08u8, 0x08u8, 0x26u8, 0x2Au8]),
        TxEvent::Command(seq![0xF1u8]),
        TxEvent::Data(seq![0x43u8, 0x70u8, 0x72u8, 0x36u8, 0x37u8, 0x6Fu8]),
        TxEvent::Command(seq![0xF2u8]),
        TxEvent::Data(seq![0x45u8, 0x09u8, 0x08u8, 0x08u8, 0x26u8, 0x2Au8]),
        TxEvent::Command(seq![0xF3u8]),
        TxEvent::Data(seq![0x43u8, 0x70u8, 0x72u8, 0x36u8, 0x37u8, 0x6Fu8]),
        TxEvent::Command(seq![0xEDu8]),
        TxEvent::Data(seq![0x1Bu8, 0x0Bu8]),
        TxEvent::Command(seq![0xAEu8]),
        TxEvent::Data(seq![0x77u8]),
        TxEvent::Command(seq![0xCDu8]),
        TxEvent::Data(seq![0x63u8]),
        TxEvent::Command(seq![0x70u8]),
        TxEvent::Data(seq![0x07u8, 0x07u8, 0x04u8, 0x0Eu8, 0x0Fu8, 0x09u8, 0x07u8, 0x08u8, 0x03u8]),
    ]
}

/// One block of the vendor register script, as transmitted.
pub open spec fn init_events_d() -> Seq<TxEvent> {
    seq![
        TxEvent::Command(seq![0xE8u8]),
        TxEvent::Data(seq![0x34u8]),
        TxEvent::Command(seq![0x62u8]),
        TxEvent::Data(seq![0x18u8, 0x0Du8, 0x71u8, 0xEDu8, 0x70u8, 0x70u8, 0x18u8, 0x0Fu8, 0x71u8, 0xEFu8, 0x70u8, 0x70u8]),
        TxEvent::Command(seq![0x63u8]),
        TxEvent::Data(seq![0x18u8, 0x11u8, 0x71u8, 0xF1u8, 0x70u8, 0x70u8, 0x18u8, 0x13u8, 0x71u8, 0xF3u8, 0x70u8, 0x70u8]),
        TxEvent::Command(seq![0x64u8]),
        TxEvent::Data(seq![0x28u8, 0x29u8, 0xF1u8, 0x01u8, 0xF1u8, 0x00u8, 0x07u8]),
        TxEvent::Command(seq![0x66u8]),
        TxEvent::Data(seq![0x3Cu8, 0x00u8, 0xCDu8, 0x67u8, 0x45u8, 0x45u8, 0x10u8, 0x00u8, 0x00u8, 0x00u8]),
        TxEvent::Command(seq![0x67u8]),
        TxEvent::Data(seq![0x00u8, 0x3Cu8, 0x00u8, 0x00u8, 0x00u8, 0x01u8, 0x54u8, 0x10u8, 0x32u8, 0x98u8]),
        TxEvent::Command(seq![0x74u8]),
        TxEvent::Data(seq![0x10u8, 0x85u8, 0x80u8, 0x00u8, 0x00u8, 0x4Eu8, 0x00u8]),
        TxEvent::Command(seq![0x98u8]),
        TxEvent::Data(seq![0x3Eu8, 0x07u8]),
        TxEvent::Command(seq![0x35u8]),
        TxEvent::Data(seq![0x21u8]),
    ]
}

/// The three commands that wake the panel after the register script:
/// sleep-out, display-on, inversion-on; the settle delays sit between them.
pub open spec fn init_events_tail() -> Seq<TxEvent> {
    seq![
        TxEvent::Command(seq![0x11u8]),
        TxEvent::Command(seq![0x29u8]),
        TxEvent::Command(seq![0x21u8]),
    ]
}

/// The complete one-time register-configuration sequence, in transmission
/// order.
pub open spec fn init_events() -> Seq<TxEvent> {
    init_events_a() + init_events_b() + init_events_c() + init_events_d() + init_events_tail()
}

/// The five transmissions that program the addressable rectangle
/// `[x0, x1) x [y0, y1)`: column addresses, row addresses (each end sent as
/// the inclusive `end - 1`), then the pixel-stream command.
pub open spec fn window_events(x0: u8, y0: u8, x1: u8, y1: u8) -> Seq<TxEvent> {
    seq![
        TxEvent::Command(seq![0x2Au8]),
        TxEvent::Data(seq![0u8, x0, 0u8, (x1 - 1) as u8]),
        TxEvent::Command(seq![0x2Bu8]),
        TxEvent::Data(seq![0u8, y0, 0u8, (y1 - 1) as u8]),
        TxEvent::Command(seq![0x2Cu8]),
    ]
}

impl<T: Transport> Lcd<T> {
    /// The transmissions sent so far.
    pub open spec fn events(&self) -> Seq<TxEvent> {
        self.0.events()
    }

    /// The modelled device state those transmissions produce.
    pub open spec fn device(&self) -> DeviceState {
        interpret(self.0.events())
    }

    /// Transmits one command byte sequence.
    fn send_cmds<const N: usize>(&mut self, c: [u8; N]) -> (r: Result<(), TransportFault>)
        ensures
            r is Ok ==> final(self).events() == old(self).events().push(TxEvent::Command(c@)),
    {
        self.0.send_command(c.as_slice())
    }

    /// Transmits one data byte sequence.
    fn send_datas<const N: usize>(&mut self, d: [u8; N]) -> (r: Result<(), TransportFault>)
        ensures
            r is Ok ==> final(self).events() == old(self).events().push(TxEvent::Data(d@)),
    {
        self.0.send_data(d.as_slice())
    }

    /// Transmits a single-byte command followed by its parameter payload.
    fn cmd_data<const N: usize>(&mut self, c: u8, d: [u8; N]) -> (r: Result<(), TransportFault>)
        ensures
            r is Ok ==> final(self).events() == old(self).events() + seq![
                TxEvent::Command(seq![c]),
                TxEvent::Data(d@),
            ],
    {
        let cb: [u8; 1] = [c];
        self.0.send_command(cb.as_slice())?;
        self.0.send_data(d.as_slice())?;
        proof {
            assert(cb@ =~= seq![c]);
            assert(self.0.events() =~~= old(self).events() + seq![
                TxEvent::Command(seq![c]),
                TxEvent::Data(d@),
            ]);
        }
        Ok(())
    }

    /// One block of the device's one-time register configuration,
    /// reproduced byte for byte.
    fn init_regs_a(&mut self) -> (r: Result<(), TransportFault>)
        ensures
            r is Ok ==> final(self).events() == old(self).events() + init_events_a(),
    {
        self.cmd_data(0x36u8, [0xC8u8])?;
        self.send_cmds([0xEFu8, 0xEBu8])?;
        self.send_datas([0x14u8])?;
        self.send_cmds([0xFEu8, 0xEFu8, 0xEBu8])?;
        self.send_datas([0x14u8])?;
        self.cmd_data(0x84u8, [0x40u8])?;
        self.cmd_data(0x85u8, [0xFFu8])?;
        self.cmd_data(0x86u8, [0xFFu8])?;
        self.cmd_data(0x87u8, [0xFFu8])?;
        self.cmd_data(0x88u8, [0x0Au8])?;
        self.cmd_data(0x89u8, [0x21u8])?;
        self.cmd_data(0x8Au8, [0x00u8])?;
        self.cmd_data(0x8Bu8, [0x80u8])?;
        self.cmd_data(0x8Cu8, [0x01u8])?;
        proof {
            assert(self.0.events() =~~= old(self).events() + init_events_a());
        }
        Ok(())
    }

    /// One block of the device's one-time register configuration,
    /// reproduced byte for byte.
    fn init_regs_b(&mut self) -> (r: Result<(), TransportFault>)
        ensures
            r is Ok ==> final(self).events() == old(self).events() + init_events_b(),
    {
        self.cmd_data(0x8Du8, [0x01u8])?;
        self.cmd_data(0x8Eu8, [0xFFu8])?;
        self.cmd_data(0x8Fu8, [0xFFu8])?;
        self.cmd_data(0xB6u8, [0x00u8, 0x20u8])?;
        self.cmd_data(0x36u8, [0x08u8])?;
        self.cmd_data(0x3Au8, [0x05u8])?;
        self.cmd_data(0x90u8, [0x08u8, 0x08u8, 0x08u8, 0x08u8])?;
        self.cmd_data(0xBDu8, [0x06u8])?;
        self.cmd_data(0xBCu8, [0x00u8])?;
        self.cmd_data(0xFFu8, [0x60u8, 0x01u8, 0x04u8])?;
        self.cmd_data(0xC3u8, [0x13u8])?;
        self.cmd_data(0xC4u8, [0x13u8])?;
        proof {
            assert(self.0.events() =~~= old(self).events() + init_events_b());
        }
        Ok(())
    }

    /// One block of the device's one-time register configuration,
    /// reproduced byte for byte.
    fn init_regs_c(&mut self) -> (r: Result<(), TransportFault>)
        ensures
            r is Ok ==> final(self).events() == old(self).events() + init_events_c(),
    {
        self.cmd_data(0xC9u8, [0x22u8])?;
        self.cmd_data(0xBEu8, [0x11u8])?;
        self.cmd_data(0xE1u8, [0x10u8, 0x0Eu8])?;
        self.cmd_data(0xDFu8, [0x21u8, 0x0Cu8, 0x02u8])?;
        self.cmd_data(0xF0u8, [0x45u8, 0x09u8, 0x08u8, 0x08u8, 0x26u8, 0x2Au8])?;
        self.cmd_data(0xF1u8, [0x43u8, 0x70u8, 0x72u8, 0x36u8, 0x37u8, 0x6Fu8])?;
        self.cmd_data(0xF2u8, [0x45u8, 0x09u8, 0x08u8, 0x08u8, 0x26u8, 0x2Au8])?;
        self.cmd_data(0xF3u8, [0x43u8, 0x70u8, 0x72u8, 0x36u8, 0x37u8, 0x6Fu8])?;
        self.cmd_data(0xEDu8, [0x1Bu8, 0x0Bu8])?;
        self.cmd_data(0xAEu8, [0x77u8])?;
        self.cmd_data(0xCDu8, [0x63u8])?;
        self.cmd_data(0x70u8, [0x07u8, 0x07u8, 0x04u8, 0x0Eu8, 0x0Fu8, 0x09u8, 0x07u8, 0x08u8, 0x03u8])?;
        proof {
            assert(self.0.events() =~~= old(self).events() + init_events_c());
        }
        Ok(())
    }

    /// One block of the device's one-time register configuration,
    /// reproduced byte for byte.
    fn init_regs_d(&mut self) -> (r: Result<(), TransportFault>)
        ensures
            r is Ok ==> final(self).events() == old(self).events() + init_events_d(),
    {
        self.cmd_data(0xE8u8, [0x34u8])?;
        self.cmd_data(0x62u8, [0x18u8, 0x0Du8, 0x71u8, 0xEDu8, 0x70u8, 0x70u8, 0x18u8, 0x0Fu8, 0x71u8, 0xEFu8, 0x70u8, 0x70u8])?;
        self.cmd_data(0x63u8, [0x18u8, 0x11u8, 0x71u8, 0xF1u8, 0x70u8, 0x70u8, 0x18u8, 0x13u8, 0x71u8, 0xF3u8, 0x70u8, 0x70u8])?;
        self.cmd_data(0x64u8, [0x28u8, 0x29u8, 0xF1u8, 0x01u8, 0xF1u8, 0x00u8, 0x07u8])?;
        self.cmd_data(0x66u8, [0x3Cu8, 0x00u8, 0xCDu8, 0x67u8, 0x45u8, 0x45u8, 0x10u8, 0x00u8, 0x00u8, 0x00u8])?;
        self.cmd_data(0x67u8, [0x00u8, 0x3Cu8, 0x00u8, 0x00u8, 0x00u8, 0x01u8, 0x54u8, 0x10u8, 0x32u8, 0x98u8])?;
        self.cmd_data(0x74u8, [0x10u8, 0x85u8, 0x80u8, 0x00u8, 0x00u8, 0x4Eu8, 0x00u8])?;
        self.cmd_data(0x98u8, [0x3Eu8, 0x07u8])?;
        self.cmd_data(0x35u8, [0x21u8])?;
        proof {
            assert(self.0.events() =~~= old(self).events() + init_events_d());
        }
        Ok(())
    }

    /// Runs the device's fixed, vendor-specific one-time register
    /// configuration — scan direction, color format, gamma and voltage
    /// tables — byte for byte, then wakes the panel with its two settle
    /// delays. Must run exactly once before any drawing call; any transport
    /// failure propagates at once.
    pub fn init<D: DelayProvider>(&mut self, delay: &mut D) -> (r: Result<(), TransportFault>)
        ensures
            r is Ok ==> final(self).events() == old(self).events() + init_events(),
    {
        self.init_regs_a()?;
        self.init_regs_b()?;
        self.init_regs_c()?;
        self.init_regs_d()?;
        self.send_cmds([0x11u8])?;
        delay.delay_ms(120);
        self.send_cmds([0x29u8])?;
        delay.delay_ms(20);
        self.send_cmds([0x21u8])?;
        proof {
            assert(self.0.events() =~~= old(self).events() + init_events());
        }
        Ok(())
    }

    /// Programs the device's addressable rectangle to `[x_start, x_end) x
    /// [y_start, y_end)` and selects pixel streaming. The end coordinates
    /// are transmitted as the inclusive `x_end - 1` and `y_end - 1`, which
    /// is why a zero end coordinate must never be constructed — the bounds
    /// are a hard precondition, not a runtime check.
    pub fn set_windows(&mut self, x_start: u8, y_start: u8, x_end: u8, y_end: u8) -> (r: Result<
        (),
        TransportFault,
    >)
        requires
            x_start < x_end,
            x_end <= 240,
            y_start < y_end,
            y_end <= 240,
        ensures
            r is Ok ==> final(self).events() == old(self).events() + window_events(
                x_start,
                y_start,
                x_end,
                y_end,
            ),
            r is Ok ==> ({
                let d1 = final(self).device();
                &&& d1.target is Ram
                &&& d1.half is None
                &&& d1.xs == x_start
                &&& d1.xe == x_end - 1
                &&& d1.ys == y_start
                &&& d1.ye == y_end - 1
                &&& d1.cx == x_start
                &&& d1.cy == y_start
                &&& d1.fb == old(self).device().fb
            }),
    {
        let ghost ev0 = self.0.events();
        let ca: [u8; 1] = [0x2A];
        self.0.send_command(ca.as_slice())?;
        let xd: [u8; 4] = [0x00, x_start, 0x00, x_end - 1];
        self.0.send_data(xd.as_slice())?;
        let cb: [u8; 1] = [0x2B];
        self.0.send_command(cb.as_slice())?;
        let yd: [u8; 4] = [0x00, y_start, 0x00, y_end - 1];
        self.0.send_data(yd.as_slice())?;
        let cc: [u8; 1] = [0x2C];
        self.0.send_command(cc.as_slice())?;
        proof {
            let e1 = TxEvent::Command(ca@);
            let e2 = TxEvent::Data(xd@);
            let e3 = TxEvent::Command(cb@);
            let e4 = TxEvent::Data(yd@);
            let e5 = TxEvent::Command(cc@);
            lemma_interpret_push(ev0, e1);
            lemma_interpret_push(ev0.push(e1), e2);
            lemma_interpret_push(ev0.push(e1).push(e2), e3);
            lemma_interpret_push(ev0.push(e1).push(e2).push(e3), e4);
            lemma_interpret_push(ev0.push(e1).push(e2).push(e3).push(e4), e5);
            assert(ca@ =~= seq![0x2Au8]);
            assert(xd@ =~= seq![0u8, x_start, 0u8, (x_end - 1) as u8]);
            assert(cb@ =~= seq![0x2Bu8]);
            assert(yd@ =~= seq![0u8, y_start, 0u8, (y_end - 1) as u8]);
            assert(cc@ =~= seq![0x2Cu8]);
            assert(self.0.events() =~= ev0 + window_events(x_start, y_start, x_end, y_end));
        }
        Ok(())
    }

    /// Sets the window `[x0, x1) x [y0, y1)` and streams exactly its area in
    /// pixels, row-major, big-endian on the wire. On success every cell of
    /// the window holds its streamed pixel and every other cell is
    /// untouched.
    pub fn write_window(&mut self, x0: u8, y0: u8, x1: u8, y1: u8, pix: &Vec<u16>) -> (r: Result<
        (),
        TransportFault,
    >)
        requires
            x0 < x1,
            x1 <= 240,
            y0 < y1,
            y1 <= 240,
            pix@.len() == ((x1 - x0) as int) * ((y1 - y0) as int),
        ensures
            r is Ok ==> final(self).events() == old(self).events() + window_events(
                x0,
                y0,
                x1,
                y1,
            ).push(TxEvent::Data(be_bytes(pix@))),
            r is Ok ==> ({
                let fb0 = old(self).device().fb;
                let fb1 = final(self).device().fb;
                &&& fb1.len() == 57600
                &&& forall|x: int, y: int|
                    0 <= x < 240 && 0 <= y < 240 ==> #[trigger] fb1[y * 240 + x] == (if x0 <= x
                        < x1 && y0 <= y < y1 {
                        pix@[(y - y0) * ((x1 - x0) as int) + (x - x0)]
                    } else {
                        fb0[y * 240 + x]
                    })
            }),
    {
        proof {
            lemma_interpret_fb_len(self.0.events());
        }
        self.set_windows(x0, y0, x1, y1)?;
        let mut bytes: Vec<u8> = Vec::new();
        let mut i: usize = 0;
        proof {
            assert(pix@.take(0) =~= Seq::<u16>::empty());
        }
        let n = pix.len();
        while i < n
            invariant
                n == pix@.len(),
                i <= n,
                bytes@ == be_bytes(pix@.take(i as int)),
                bytes@.len() == 2 * i,
            decreases n - i,
        {
            let p = pix[i];
            bytes.push((p / 256) as u8);
            bytes.push((p % 256) as u8);
            proof {
                assert(pix@.take(i + 1) =~= pix@.take(i as int).push(p));
                lemma_be_bytes_push(pix@.take(i as int), p);
            }
            i = i + 1;
        }
        proof {
            assert(pix@.take(n as int) =~= pix@);
        }
        let ghost ev1 = self.0.events();
        let ghost st1 = interpret(ev1);
        self.0.send_data(bytes.as_slice())?;
        proof {
            lemma_interpret_push(ev1, TxEvent::Data(bytes@));
            let w = win_w(st1);
            assert(w == x1 - x0);
            assert(win_area(st1) == ((x1 - x0) as int) * ((y1 - y0) as int));
            vstd::arithmetic::div_mod::lemma_small_mod(0nat, w as nat);
            vstd::arithmetic::div_mod::lemma_div_of0(w);
            assert(0int % w == 0 && 0int / w == 0);
            lemma_stream_pixels(st1, pix@, 0);
            let st2 = final(self).device();
            assert(st2 == crate::device::write_bytes(st1, be_bytes(pix@)));
            assert forall|x: int, y: int| 0 <= x < 240 && 0 <= y < 240 implies #[trigger] st2.fb[y
                * 240 + x] == (if x0 <= x < x1 && y0 <= y < y1 {
                pix@[(y - y0) * ((x1 - x0) as int) + (x - x0)]
            } else {
                old(self).device().fb[y * 240 + x]
            }) by {
                if x0 <= x < x1 && y0 <= y < y1 {
                    lemma_rowmajor_index(x - x0, y - y0, (x1 - x0) as int, (y1 - y0) as int);
                }
            }
            assert(self.0.events() =~= old(self).events() + window_events(x0, y0, x1, y1).push(
                TxEvent::Data(be_bytes(pix@)),
            ));
        }
        Ok(())
    }

    /// Fills the window `[x0, x1) x [y0, y1)` with one solid color.
    pub fn raw_rectangle(&mut self, x_start: u8, y_start: u8, x_end: u8, y_end: u8, color: u16) -> (
    r: Result<(), TransportFault>)
        requires
            x_start < x_end,
            x_end <= 240,
            y_start < y_end,
            y_end <= 240,
        ensures
            r is Ok ==> ({
                let fb0 = old(self).device().fb;
                let fb1 = final(self).device().fb;
                &&& fb1.len() == 57600
                &&& forall|x: int, y: int|
                    0 <= x < 240 && 0 <= y < 240 ==> #[trigger] fb1[y * 240 + x] == (if x_start
                        <= x < x_end && y_start <= y < y_end {
                        color
                    } else {
                        fb0[y * 240 + x]
                    })
            }),
    {
        proof {
            lemma_u8_mul_bound((x_end - x_start) as int, (y_end - y_start) as int);
        }
        let area: usize = ((x_end - x_start) as usize) * ((y_end - y_start) as usize);
        let mut pix: Vec<u16> = Vec::new();
        let mut i: usize = 0;
        while i < area
            invariant
                i <= area,
                pix@.len() == i,
                forall|j: int| 0 <= j < i ==> pix@[j] == color,
            decreases area - i,
        {
            pix.push(color);
            i = i + 1;
        }
        let res = self.write_window(x_start, y_start, x_end, y_end, &pix);
        proof {
            if res is Ok {
                assert forall|x: int, y: int|
                    0 <= x < 240 && 0 <= y < 240 && x_start <= x < x_end && y_start <= y
                        < y_end implies #[trigger] pix@[(y - y_start) * ((x_end
                    - x_start) as int) + (x - x_start)] == color by {
                    lemma_rowmajor_index(
                        x - x_start,
                        y - y_start,
                        (x_end - x_start) as int,
                        (y_end - y_start) as int,
                    );
                }
            }
        }
        res
    }

    /// Fills the window `[x0, x1) x [y0, y1)` with the generator's 16-bit
    /// draws, row-major: cell `j` of the window receives draw `j`, and the
    /// generator ends exactly `area` steps ahead.
    pub fn noise_rectangle(
        &mut self,
        x_start: u8,
        y_start: u8,
        x_end: u8,
        y_end: u8,
        rand: &mut Random,
    ) -> (r: Result<(), TransportFault>)
        requires
            x_start < x_end,
            x_end <= 240,
            y_start < y_end,
            y_end <= 240,
        ensures
            r is Ok ==> ({
                let fb0 = old(self).device().fb;
                let fb1 = final(self).device().fb;
                let s0 = old(rand).0;
                &&& fb1.len() == 57600
                &&& final(rand).0 == lcg_iter(
                    s0,
                    (((x_end - x_start) as int) * ((y_end - y_start) as int)) as nat,
                )
                &&& forall|x: int, y: int|
                    0 <= x < 240 && 0 <= y < 240 ==> #[trigger] fb1[y * 240 + x] == (if x_start
                        <= x < x_end && y_start <= y < y_end {
                        lcg_u16(
                            lcg_iter(
                                s0,
                                ((y - y_start) * ((x_end - x_start) as int) + (x
                                    - x_start)) as nat,
                            ),
                        )
                    } else {
                        fb0[y * 240 + x]
                    })
            }),
    {
        proof {
            lemma_u8_mul_bound((x_end - x_start) as int, (y_end - y_start) as int);
        }
        let ghost s0 = rand.0;
        let area: usize = ((x_end - x_start) as usize) * ((y_end - y_start) as usize);
        let mut pix: Vec<u16> = Vec::new();
        let mut i: usize = 0;
        while i < area
            invariant
                i <= area,
                pix@.len() == i,
                rand.0 == lcg_iter(s0, i as nat),
                forall|j: int| 0 <= j < i ==> #[trigger] pix@[j] == lcg_u16(lcg_iter(s0, j as nat)),
            decreases area - i,
        {
            proof {
                assert(lcg_iter(s0, (i + 1) as nat) == crate::rng::lcg_next(
                    lcg_iter(s0, i as nat),
                ));
            }
            let v = rand.get_u16();
            pix.push(v);
            i = i + 1;
        }
        let res = self.write_window(x_start, y_start, x_end, y_end, &pix);
        proof {
            if res is Ok {
                assert forall|x: int, y: int|
                    0 <= x < 240 && 0 <= y < 240 && x_start <= x < x_end && y_start <= y
                        < y_end implies #[trigger] pix@[(y - y_start) * ((x_end
                    - x_start) as int) + (x - x_start)] == lcg_u16(
                    lcg_iter(
                        s0,
                        ((y - y_start) * ((x_end - x_start) as int) + (x - x_start)) as nat,
                    ),
                ) by {
                    lemma_rowmajor_index(
                        x - x_start,
                        y - y_start,
                        (x_end - x_start) as int,
                        (y_end - y_start) as int,
                    );
                }
            }
        }
        res
    }

    /// Draws the whole image with its top-left corner at `(x, y)`.
    pub fn show_image<I: MyImage>(&mut self, x: u8, y: u8, img: &I) -> (r: Result<
        (),
        TransportFault,
    >)
        requires
            img.inv(),
            1 <= img.img().w,
            1 <= img.img().h,
            x + img.img().w <= 240,
            y + img.img().h <= 240,
        ensures
            r is Ok ==> ({
                let fb0 = old(self).device().fb;
                let fb1 = final(self).device().fb;
                let w = img.img().w as int;
                let h = img.img().h as int;
                &&& fb1.len() == 57600
                &&& forall|sx: int, sy: int|
                    0 <= sx < 240 && 0 <= sy < 240 ==> #[trigger] fb1[sy * 240 + sx] == (if x <= sx
                        < x + w && y <= sy < y + h {
                        img.img().pixels[(sy - y) * w + (sx - x)]
                    } else {
                        fb0[sy * 240 + sx]
                    })
            }),
    {
        proof {
            img.lemma_view_wf();
        }
        let w = img.width();
        let h = img.height();
        let pix = image_rect_pixels(img, 0, 0, w, h);
        self.write_window(x, y, x + w, y + h, &pix)
    }

    /// Draws the top rows of the image at `(x, y)`, the row count clamped to
    /// `clamp`: exactly `min(clamp, height)` rows are streamed, so the
    /// window area and the streamed pixel count always agree.
    pub fn show_image_clamped<I: MyImage>(&mut self, x: u8, y: u8, img: &I, clamp: u8) -> (r:
        Result<(), TransportFault>)
        requires
            img.inv(),
            1 <= img.img().w,
            1 <= img.img().h,
            1 <= clamp,
            x + img.img().w <= 240,
            y + vstd::math::min(clamp as int, img.img().h as int) <= 240,
        ensures
            r is Ok ==> ({
                let fb0 = old(self).device().fb;
                let fb1 = final(self).device().fb;
                let w = img.img().w as int;
                let h = vstd::math::min(clamp as int, img.img().h as int);
                &&& fb1.len() == 57600
                &&& forall|sx: int, sy: int|
                    0 <= sx < 240 && 0 <= sy < 240 ==> #[trigger] fb1[sy * 240 + sx] == (if x <= sx
                        < x + w && y <= sy < y + h {
                        img.img().pixels[(sy - y) * w + (sx - x)]
                    } else {
                        fb0[sy * 240 + sx]
                    })
            }),
    {
        proof {
            img.lemma_view_wf();
        }
        let w = img.width();
        let h = img.height();
        let hh = if clamp < h {
            clamp
        } else {
            h
        };
        let pix = image_rect_pixels(img, 0, 0, w, hh);
        self.write_window(x, y, x + w, y + hh, &pix)
    }

    /// Writes one pixel at `(x, y)`.
    pub fn put_pixel(&mut self, x: u8, y: u8, color: u16) -> (r: Result<(), TransportFault>)
        requires
            x < 240,
            y < 240,
        ensures
            r is Ok ==> ({
                let fb0 = old(self).device().fb;
                let fb1 = final(self).device().fb;
                &&& fb1.len() == 57600
                &&& forall|sx: int, sy: int|
                    0 <= sx < 240 && 0 <= sy < 240 ==> #[trigger] fb1[sy * 240 + sx] == (if sx == x
                        && sy == y {
                        color
                    } else {
                        fb0[sy * 240 + sx]
                    })
            }),
    {
        let mut pix: Vec<u16> = Vec::new();
        pix.push(color);
        let x1 = x + 1;
        let y1 = y + 1;
        proof {
            assert(((x1 - x) as int) * ((y1 - y) as int) == 1) by (nonlinear_arith)
                requires
                    x1 == x + 1,
                    y1 == y + 1,
            ;
        }
        self.write_window(x, y, x1, y1, &pix)
    }
}

/// The pixels of the rectangle `[x0, x0 + wr) x [y0, y0 + hr)` of an image,
/// row-major.
pub fn image_rect_pixels<I: MyImage>(img: &I, x0: u8, y0: u8, wr: u8, hr: u8) -> (r: Vec<u16>)
    requires
        img.inv(),
        x0 + wr <= img.img().w,
        y0 + hr <= img.img().h,
    ensures
        r@.len() == (wr as int) * (hr as int),
        forall|dx: int, dy: int|
            0 <= dx < wr && 0 <= dy < hr ==> #[trigger] r@[dy * (wr as int) + dx]
                == img.img().pixel(x0 + dx, y0 + dy),
{
    let mut r: Vec<u16> = Vec::new();
    let mut dy: u8 = 0;
    while dy < hr
        invariant
            img.inv(),
            x0 + wr <= img.img().w,
            y0 + hr <= img.img().h,
            dy <= hr,
            r@.len() == (dy as int) * (wr as int),
            forall|qx: int, qy: int|
                0 <= qx < wr && 0 <= qy < dy ==> #[trigger] r@[qy * (wr as int) + qx]
                    == img.img().pixel(x0 + qx, y0 + qy),
        decreases hr - dy,
    {
        let mut dx: u8 = 0;
        while dx < wr
            invariant
                img.inv(),
                x0 + wr <= img.img().w,
                y0 + hr <= img.img().h,
                dy < hr,
                dx <= wr,
                r@.len() == (dy as int) * (wr as int) + dx as int,
                forall|qx: int, qy: int|
                    0 <= qx < wr && 0 <= qy < dy ==> #[trigger] r@[qy * (wr as int) + qx]
                        == img.img().pixel(x0 + qx, y0 + qy),
                forall|qx: int|
                    0 <= qx < dx ==> #[trigger] r@[dy as int * (wr as int) + qx]
                        == img.img().pixel(x0 + qx, y0 + dy as int),
            decreases wr - dx,
        {
            proof {
                img.lemma_view_wf();
            }
            let v = img.get_pixel_u16(x0 + dx, y0 + dy);
            r.push(v);
            proof {
                assert forall|qx: int, qy: int| 0 <= qx < wr && 0 <= qy < dy implies #[trigger] r@[
                    qy * (wr as int) + qx
                ] == img.img().pixel(x0 + qx, y0 + qy) by {
                    assert(0 <= qy * (wr as int) + qx < (dy as int) * (wr as int))
                        by (nonlinear_arith)
                        requires
                            0 <= qx < wr,
                            0 <= qy < dy,
                    ;
                }
            }
            dx = dx + 1;
        }
        proof {
            assert((dy as int) * (wr as int) + wr as int == (dy as int + 1) * (wr as int))
                by (nonlinear_arith);
        }
        dy = dy + 1;
    }
    r
}

} // verus!