//! Verified in-memory display.
//!
//! [`SimDisplay`] records every transmission byte for byte — its public log
//! lets a test inspect the raw protocol — and [`SimDisplay::framebuffer`]
//! replays the log through an executable copy of the device model, proved to
//! return exactly the framebuffer that [`crate::device::interpret`] assigns
//! to the recorded events. A test that runs an effect against a `SimDisplay`
//! therefore observes precisely the framebuffer the effect's contract speaks
//! of.

use vstd::prelude::*;
use crate::device::{
    init_device, interpret, lemma_interpret_push, lemma_write_bytes_push, step, write_byte,
    write_bytes, DeviceState, RegTarget, TxEvent,
};
use crate::lcd::{Transport, TransportFault};

verus! {

/// Executable mirror of the model's register target.
#[derive(Clone, Copy)]
enum SimTarget {
    Cols,
    Rows,
    Ram,
    Other,
}

/// The model target a mirror value denotes.
spec fn target_view(t: SimTarget) -> RegTarget {
    match t {
        SimTarget::Cols => RegTarget::Cols,
        SimTarget::Rows => RegTarget::Rows,
        SimTarget::Ram => RegTarget::Ram,
        SimTarget::Other => RegTarget::Other,
    }
}

/// The model state a set of replay registers denotes.
spec fn sim_state(
    xs: u16,
    xe: u16,
    ys: u16,
    ye: u16,
    cx: u16,
    cy: u16,
    target: SimTarget,
    half: Option<u8>,
    fb: Seq<u16>,
) -> DeviceState {
    DeviceState {
        xs: xs as int,
        xe: xe as int,
        ys: ys as int,
        ye: ye as int,
        cx: cx as int,
        cy: cy as int,
        target: target_view(target),
        half,
        fb,
    }
}

/// A display that records every transmission it is sent.
pub struct SimDisplay {
    /// The log: one entry per transmission, `true` for a command, with the
    /// transmitted bytes.
    pub log: Vec<(bool, Vec<u8>)>,
}

/// The event a log entry denotes.
pub open spec fn log_event(entry: (bool, Vec<u8>)) -> TxEvent {
    if entry.0 {
        TxEvent::Command(entry.1@)
    } else {
        TxEvent::Data(entry.1@)
    }
}

impl SimDisplay {
    /// A display with nothing sent yet.
    pub fn new() -> (r: SimDisplay)
        ensures
            r.events() == Seq::<TxEvent>::empty(),
    {
        let r = SimDisplay { log: Vec::new() };
        proof {
            assert(r.events() =~= Seq::<TxEvent>::empty());
        }
        r
    }

    /// Replays the recorded transmissions through the device model and
    /// returns the framebuffer the device shows: 57600 packed colors,
    /// row-major over the 240x240 screen.
    pub fn framebuffer(&self) -> (fb: Vec<u16>)
        ensures
            fb@ == interpret(self.events()).fb,
    {
        let mut xs: u16 = 0;
        let mut xe: u16 = 239;
        let mut ys: u16 = 0;
        let mut ye: u16 = 239;
        let mut cx: u16 = 0;
        let mut cy: u16 = 0;
        let mut target: SimTarget = SimTarget::Other;
        let mut half: Option<u8> = None;
        let mut fb: Vec<u16> = Vec::new();
        let mut k: usize = 0;
        while k < 57600
            invariant
                k <= 57600,
                fb@.len() == k,
                forall|j: int| 0 <= j < k ==> fb@[j] == 0u16,
            decreases 57600 - k,
        {
            fb.push(0);
            k = k + 1;
        }
        proof {
            assert(fb@ =~= init_device().fb);
            assert(self.events().take(0) =~= Seq::<TxEvent>::empty());
            assert(sim_state(xs, xe, ys, ye, cx, cy, target, half, fb@) == interpret(
                self.events().take(0),
            ));
        }
        let n = self.log.len();
        let mut i: usize = 0;
        while i < n
            invariant
                n == self.log@.len(),
                n == self.events().len(),
                i <= n,
                sim_state(xs, xe, ys, ye, cx, cy, target, half, fb@) == interpret(
                    self.events().take(i as int),
                ),
                fb@.len() == 57600,
            decreases n - i,
        {
            let ghost st0 = sim_state(xs, xe, ys, ye, cx, cy, target, half, fb@);
            let ghost ev = log_event(self.log@[i as int]);
            let entry = &self.log[i];
            let bytes: &Vec<u8> = &entry.1;
            if entry.0 {
                half = None;
                let m = bytes.len();
                if m == 0 {
                    target = SimTarget::Other;
                } else {
                    let c = bytes[m - 1];
                    proof {
                        assert(bytes@.last() == bytes@[m - 1]);
                    }
                    if c == 0x2A {
                        target = SimTarget::Cols;
                    } else if c == 0x2B {
                        target = SimTarget::Rows;
                    } else if c == 0x2C {
                        target = SimTarget::Ram;
                        cx = xs;
                        cy = ys;
                    } else {
                        target = SimTarget::Other;
                    }
                }
            } else {
                match target {
                    SimTarget::Cols => {
                        if bytes.len() == 4 {
                            xs = (bytes[0] as u16) * 256 + (bytes[1] as u16);
                            xe = (bytes[2] as u16) * 256 + (bytes[3] as u16);
                        }
                    },
                    SimTarget::Rows => {
                        if bytes.len() == 4 {
                            ys = (bytes[0] as u16) * 256 + (bytes[1] as u16);
                            ye = (bytes[2] as u16) * 256 + (bytes[3] as u16);
                        }
                    },
                    SimTarget::Ram => {
                        let m = bytes.len();
                        let mut j: usize = 0;
                        proof {
                            assert(bytes@.take(0) =~= Seq::<u8>::empty());
                        }
                        while j < m
                            invariant
                                m == bytes@.len(),
                                j <= m,
                                write_bytes(st0, bytes@.take(j as int)) == sim_state(
                                    xs,
                                    xe,
                                    ys,
                                    ye,
                                    cx,
                                    cy,
                                    target,
                                    half,
                                    fb@,
                                ),
                                st0.fb.len() == 57600,
                                fb@.len() == 57600,
                            decreases m - j,
                        {
                            let ghost stp = write_bytes(st0, bytes@.take(j as int));
                            let b = bytes[j];
                            match half {
                                None => {
                                    half = Some(b);
                                },
                                Some(hi) => {
                                    half = None;
                                    if cx < 240 && cy < 240 {
                                        let idx: usize = (cy as usize) * 240 + (cx as usize);
                                        fb.set(idx, (hi as u16) * 256 + (b as u16));
                                    }
                                    if cx >= xe {
                                        cx = xs;
                                        if cy >= ye {
                                            cy = ys;
                                        } else {
                                            cy = cy + 1;
                                        }
                                    } else {
                                        cx = cx + 1;
                                    }
                                },
                            }
                            proof {
                                assert(sim_state(xs, xe, ys, ye, cx, cy, target, half, fb@)
                                    == write_byte(stp, b));
                                assert(bytes@.take(j + 1) =~= bytes@.take(j as int).push(b));
                                lemma_write_bytes_push(st0, bytes@.take(j as int), b);
                            }
                            j = j + 1;
                        }
                        proof {
                            assert(bytes@.take(m as int) =~= bytes@);
                        }
                    },
                    SimTarget::Other => {},
                }
            }
            proof {
                assert(sim_state(xs, xe, ys, ye, cx, cy, target, half, fb@) == step(st0, ev));
                assert(self.events().take(i + 1) =~= self.events().take(i as int).push(ev));
                lemma_interpret_push(self.events().take(i as int), ev);
            }
            i = i + 1;
        }
        proof {
            assert(self.events().take(n as int) =~= self.events());
        }
        fb
    }
}

impl Transport for SimDisplay {
    open spec fn events(&self) -> Seq<TxEvent> {
        Seq::new(self.log@.len(), |i: int| log_event(self.log@[i]))
    }

    fn send_command(&mut self, bytes: &[u8]) -> (r: Result<(), TransportFault>) {
        let v = vstd::slice::slice_to_vec(bytes);
        self.log.push((true, v));
        proof {
            assert(self.events() =~= old(self).events().push(TxEvent::Command(bytes@)));
        }
        Ok(())
    }

    fn send_data(&mut self, bytes: &[u8]) -> (r: Result<(), TransportFault>) {
        let v = vstd::slice::slice_to_vec(bytes);
        self.log.push((false, v));
        proof {
            assert(self.events() =~= old(self).events().push(TxEvent::Data(bytes@)));
        }
        Ok(())
    }
}

} // verus!
