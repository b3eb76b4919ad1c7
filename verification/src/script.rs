//! Verified in-memory transport doubles.
//!
//! `ScriptedPort` plays back a fixed sequence of inbound bytes and records
//! every outbound byte, so that whole command exchanges can be driven and
//! their wire traffic inspected without a device. `CountingDelay` sleeps by
//! counting, so timeout budgets can be observed.

use vstd::prelude::*;

use crate::transport::Delay;
use crate::transport::Line;
use crate::transport::NbError;
use crate::transport::SerialPort;

verus! {

/// A serial port whose inbound bytes are scripted in advance.
///
/// Bytes written through it are appended to `sent`; reads deliver the bytes
/// of `script` in order and report "would block" once the script is
/// exhausted.
pub struct ScriptedPort {
    /// The inbound bytes this port will deliver, in order.
    pub script: Vec<u8>,
    /// How many script bytes have been delivered so far.
    pub delivered: usize,
    /// Every byte written through the port, oldest first.
    pub sent: Vec<u8>,
    /// Current RTS line level.
    pub rts_line: bool,
    /// Current DTR line level.
    pub dtr_line: bool,
    /// Every modem-control transition driven through the port, in order.
    pub line_events: Vec<(Line, bool)>,
}

impl ScriptedPort {
    /// A port that will deliver exactly the bytes of `script`.
    pub fn new(script: Vec<u8>) -> (r: ScriptedPort)
        ensures
            r.script == script,
            r.delivered == 0,
            r.sent@ == Seq::<u8>::empty(),
            r.rts_line == false,
            r.dtr_line == false,
            r.line_events@ == Seq::<(Line, bool)>::empty(),
    {
        ScriptedPort {
            script,
            delivered: 0,
            sent: Vec::new(),
            rts_line: false,
            dtr_line: false,
            line_events: Vec::new(),
        }
    }
}

impl SerialPort<()> for ScriptedPort {
    open spec fn tx(&self) -> Seq<u8> {
        self.sent@
    }

    open spec fn rx(&self) -> Seq<u8> {
        self.script@.take(self.delivered as int)
    }

    open spec fn rts(&self) -> bool {
        self.rts_line
    }

    open spec fn dtr(&self) -> bool {
        self.dtr_line
    }

    open spec fn line_log(&self) -> Seq<(Line, bool)> {
        self.line_events@
    }

    fn write_byte(&mut self, byte: u8) -> (r: Result<(), ()>) {
        self.sent.push(byte);
        Ok(())
    }

    fn flush(&mut self) -> (r: Result<(), ()>) {
        Ok(())
    }

    fn read_nb(&mut self) -> (r: Result<u8, NbError<()>>) {
        if self.delivered < self.script.len() {
            let b = self.script[self.delivered];
            self.delivered = self.delivered + 1;
            proof {
                assert(self.script@.take(self.delivered as int)
                    =~= self.script@.take(self.delivered - 1).push(b));
            }
            Ok(b)
        } else {
            Err(NbError::WouldBlock)
        }
    }

    fn set_rts(&mut self, level: bool) -> (r: Result<(), ()>) {
        self.rts_line = level;
        self.line_events.push((Line::Rts, level));
        Ok(())
    }

    fn set_dtr(&mut self, level: bool) -> (r: Result<(), ()>) {
        self.dtr_line = level;
        self.line_events.push((Line::Dtr, level));
        Ok(())
    }
}

/// A delay source that sleeps by counting milliseconds.
pub struct CountingDelay {
    /// Total milliseconds slept, saturating at `u64::MAX`.
    pub slept_ms: u64,
    /// Total milliseconds slept, unbounded.
    pub total: Ghost<nat>,
}

impl CountingDelay {
    /// A delay source that has not slept yet.
    pub fn new() -> (r: CountingDelay)
        ensures
            r.elapsed() == 0,
            r.slept_ms == 0,
    {
        CountingDelay { slept_ms: 0, total: Ghost(0) }
    }
}

impl Delay for CountingDelay {
    open spec fn elapsed(&self) -> nat {
        self.total@
    }

    fn delay_ms(&mut self, ms: u32) {
        self.slept_ms = self.slept_ms.saturating_add(ms as u64);
        proof {
            self.total@ = self.total@ + ms as nat;
        }
    }
}

} // verus!
