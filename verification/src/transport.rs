//! The serial transport and delay contracts the protocol engine runs on.
//!
//! The engine is polymorphic over a duplex byte channel with a non-blocking
//! read, a blocking write, a flush, and the two modem-control lines that
//! drive the target's reset and boot-select pins, plus a millisecond sleep
//! primitive.
//!
//! Each trait carries ghost views of the single execution it mediates: `tx`
//! is the log of every byte written so far, `rx` the log of every byte the
//! channel has delivered so far, `rts`/`dtr` the current line levels, and
//! `line_log` the history of every modem-control transition, in order. All
//! wire-level contracts of the engine are stated over these views.

use vstd::prelude::*;

verus! {

/// Error of a non-blocking read: either no byte has arrived yet, or the
/// transport itself failed.
#[derive(Debug, Clone, PartialEq)]
pub enum NbError<E> {
    WouldBlock,
    Other(E),
}

/// A modem-control line.
#[derive(Debug, Clone, Copy, PartialEq, Eq, Structural)]
pub enum Line {
    Rts,
    Dtr,
}

/// A duplex byte channel with RTS/DTR level control.
///
/// `E` is the transport-defined error type.
pub trait SerialPort<E>: Sized {
    /// Every byte written to the channel so far, oldest first.
    spec fn tx(&self) -> Seq<u8>;

    /// Every byte the channel has delivered so far, oldest first.
    spec fn rx(&self) -> Seq<u8>;

    /// Current level of the RTS line.
    spec fn rts(&self) -> bool;

    /// Current level of the DTR line.
    spec fn dtr(&self) -> bool;

    /// Every modem-control transition driven so far, oldest first: which
    /// line, and the level it was set to.
    spec fn line_log(&self) -> Seq<(Line, bool)>;

    /// Queue one byte for transmission, blocking until it is accepted. On
    /// failure at most the one byte has gone out.
    fn write_byte(&mut self, byte: u8) -> (r: Result<(), E>)
        ensures
            final(self).rx() == old(self).rx(),
            final(self).rts() == old(self).rts(),
            final(self).dtr() == old(self).dtr(),
            final(self).line_log() == old(self).line_log(),
            r is Ok ==> final(self).tx() == old(self).tx().push(byte),
            r is Err ==> final(self).tx() == old(self).tx()
                || final(self).tx() == old(self).tx().push(byte),
    ;

    /// Hand all queued bytes to the device.
    fn flush(&mut self) -> (r: Result<(), E>)
        ensures
            final(self).tx() == old(self).tx(),
            final(self).rx() == old(self).rx(),
            final(self).rts() == old(self).rts(),
            final(self).dtr() == old(self).dtr(),
            final(self).line_log() == old(self).line_log(),
    ;

    /// Try to read one byte without blocking.
    fn read_nb(&mut self) -> (r: Result<u8, NbError<E>>)
        ensures
            final(self).tx() == old(self).tx(),
            final(self).rts() == old(self).rts(),
            final(self).dtr() == old(self).dtr(),
            final(self).line_log() == old(self).line_log(),
            match r {
                Ok(b) => final(self).rx() == old(self).rx().push(b),
                Err(_) => final(self).rx() == old(self).rx(),
            },
    ;

    /// Set the RTS line level.
    fn set_rts(&mut self, level: bool) -> (r: Result<(), E>)
        ensures
            final(self).tx() == old(self).tx(),
            final(self).rx() == old(self).rx(),
            final(self).dtr() == old(self).dtr(),
            r is Ok ==> final(self).rts() == level
                && final(self).line_log() == old(self).line_log().push((Line::Rts, level)),
    ;

    /// Set the DTR line level.
    fn set_dtr(&mut self, level: bool) -> (r: Result<(), E>)
        ensures
            final(self).tx() == old(self).tx(),
            final(self).rx() == old(self).rx(),
            final(self).rts() == old(self).rts(),
            r is Ok ==> final(self).dtr() == level
                && final(self).line_log() == old(self).line_log().push((Line::Dtr, level)),
    ;
}

/// A millisecond sleep primitive.
pub trait Delay: Sized {
    /// Total milliseconds slept through this source so far.
    spec fn elapsed(&self) -> nat;

    /// Sleep for `ms` milliseconds.
    fn delay_ms(&mut self, ms: u32)
        ensures
            final(self).elapsed() == old(self).elapsed() + ms,
    ;
}

} // verus!
