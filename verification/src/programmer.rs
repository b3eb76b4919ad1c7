//! The bootloader protocol engine.
//!
//! A [`Programmer`] owns a serial transport and a delay source and runs the
//! AN3155 request/response exchanges over them. Every contract is stated
//! over the transport's ghost views: `tx` (bytes written so far), `rx`
//! (bytes delivered so far) and the RTS/DTR line levels, plus the delay
//! source's total sleep time.

use core::marker::PhantomData;

use vstd::prelude::*;

use crate::protocol::Command;
use crate::protocol::MAX_CHUNK;
use crate::protocol::UART_ACK;
use crate::protocol::UART_DISC;
use crate::protocol::UART_NACK;
use crate::transport::Delay;
use crate::transport::Line;
use crate::transport::NbError;
use crate::transport::SerialPort;
use crate::wire::acks;
use crate::wire::addr_bytes;
use crate::wire::addr_frame;
use crate::wire::be16;
use crate::wire::cmd_frame;
use crate::wire::concat_txns;
use crate::wire::csum_frame;
use crate::wire::emitted_prefix;
use crate::wire::ext_pages_bytes;
use crate::wire::lemma_emitted_exact;
use crate::wire::lemma_emitted_stage;
use crate::wire::lemma_concat_cons;
use crate::wire::lemma_read_resp_len;
use crate::wire::lemma_read_resp_snoc;
use crate::wire::page_list;
use crate::wire::read_block_tx;
use crate::wire::read_resp;
use crate::wire::read_txns;
use crate::wire::write_block_tx;
use crate::wire::write_txns;
use crate::wire::xor_all;
use crate::wire::CHUNK_SIZE;

verus! {

/// Session configuration. Immutable for the life of a session.
#[derive(Debug, Clone, PartialEq, Eq, Structural)]
pub struct Options {
    /// Do not reset the device on connection.
    pub no_reset: bool,
    /// Upper bound, in milliseconds, on polling for a single inbound byte.
    pub response_timeout_ms: u32,
    /// Sleep between non-blocking read attempts, in milliseconds.
    pub poll_delay_ms: u32,
    /// Delay after de-asserting reset, giving the bootloader time to boot
    /// and autobaud, in milliseconds.
    pub init_delay_ms: u32,
}

impl Default for Options {
    /// The default configuration: reset on connect, 100 ms response
    /// timeout, 10 ms poll delay, 100 ms init delay.
    fn default() -> (r: Options)
        ensures
            r == (Options {
                no_reset: false,
                response_timeout_ms: 100u32,
                poll_delay_ms: 10u32,
                init_delay_ms: 100u32,
            }),
    {
        Options { no_reset: false, response_timeout_ms: 100, poll_delay_ms: 10, init_delay_ms: 100 }
    }
}

/// Length of the receive buffer for the bootloader info payload: enough for
/// the version byte and the eleven command opcodes of a full command set.
pub const INFO_BUF_LEN: usize = 12;

/// Why an operation failed.
#[derive(Debug, Clone, PartialEq)]
pub enum Error<E> {
    /// Transport-layer failure, propagated unchanged.
    Serial(E),
    /// The bootloader refused a command or argument.
    Nack,
    /// Reserved for future distinction; currently not produced.
    NoAck,
    /// No byte arrived within the response timeout.
    Timeout,
    /// A byte other than ACK or NACK arrived where one was expected.
    InvalidResponse,
    /// The receive buffer is too short for the declared payload.
    BufferLength,
}

/// A session with the bootloader of one attached target.
pub struct Programmer<P, D, E> {
    /// Session configuration.
    pub options: Options,
    /// The serial transport, exclusively owned for the session.
    pub port: P,
    /// The delay source.
    pub delay: D,
    /// Carrier for the transport error type.
    pub _err: PhantomData<E>,
}

impl<P: SerialPort<E>, D: Delay, E> Programmer<P, D, E> {
    /// Create a programmer and connect to the attached bootloader: reset
    /// into the bootloader (unless `no_reset` is set), send the
    /// synchronisation byte, absorb the discovery acknowledgement, and
    /// probe liveness with the info command.
    pub fn new(port: P, delay: D, options: Options) -> (r: Result<Self, Error<E>>)
        requires
            options.poll_delay_ms >= 1,
        ensures
            match r {
                Ok(s) => s.options == options
                    && port.rx().is_prefix_of(s.rx())
                    && s.tx() == port.tx() + seq![UART_DISC] + cmd_frame(Command::Get)
                    && (options.no_reset ==> s.line_log() == port.line_log())
                    && (!options.no_reset ==> s.port.rts() == false
                        && s.port.dtr() == false
                        && s.line_log() == port.line_log() + seq![
                            (Line::Rts, true),
                            (Line::Dtr, true),
                            (Line::Rts, false),
                            (Line::Dtr, false),
                        ]),
                Err(e) => !(e is NoAck),
            },
    {
        let mut s = Self { options, port, delay, _err: PhantomData };

        if let Err(e) = s.init() {
            return Err(e);
        }

        Ok(s)
    }

    /// Initialise the programmer and the bootloader: reset, discovery,
    /// then the info command as the real liveness probe. A failure of the
    /// discovery acknowledgement itself is absorbed.
    fn init(&mut self) -> (r: Result<(), Error<E>>)
        requires
            old(self).polls(),
        ensures
            final(self).options == old(self).options,
            old(self).rx().is_prefix_of(final(self).rx()),
            match r {
                Ok(()) => final(self).tx() == old(self).tx() + seq![UART_DISC]
                        + cmd_frame(Command::Get)
                    && (old(self).options.no_reset
                        ==> final(self).line_log() == old(self).line_log())
                    && (!old(self).options.no_reset ==> final(self).port.rts() == false
                        && final(self).port.dtr() == false
                        && final(self).line_log() == old(self).line_log() + seq![
                            (Line::Rts, true),
                            (Line::Dtr, true),
                            (Line::Rts, false),
                            (Line::Dtr, false),
                        ]),
                Err(e) => !(e is NoAck)
                    && emitted_prefix(old(self).tx(), final(self).tx(),
                        seq![UART_DISC] + cmd_frame(Command::Get))
                    && (e is Nack ==> final(self).rx().len() > old(self).rx().len()
                        && final(self).rx().last() == UART_NACK)
                    && (e is InvalidResponse ==> final(self).rx().len() > old(self).rx().len()
                        && final(self).rx().last() != UART_ACK
                        && final(self).rx().last() != UART_NACK),
            },
    {
        if !self.options.no_reset {
            if let Err(e) = self.reset(true) {
                proof {
                    assert(old(self).rx()
                        =~= self.rx().subrange(0, old(self).rx().len() as int));
                    let plan = seq![UART_DISC] + cmd_frame(Command::Get);
                    lemma_emitted_exact(old(self).tx(), plan, 0);
                    assert(old(self).tx() + plan.take(0) =~= old(self).tx());
                }
                return Err(e);
            }
        }

        if let Err(e) = self.port.write_byte(UART_DISC) {
            proof {
                assert(old(self).rx() =~= self.rx().subrange(0, old(self).rx().len() as int));
                let plan = seq![UART_DISC] + cmd_frame(Command::Get);
                if self.tx() == old(self).tx() {
                    lemma_emitted_exact(old(self).tx(), plan, 0);
                    assert(old(self).tx() + plan.take(0) =~= self.tx());
                } else {
                    lemma_emitted_exact(old(self).tx(), plan, 1);
                    assert(old(self).tx() + plan.take(1) =~= self.tx());
                }
            }
            return Err(Error::Serial(e));
        }
        if let Err(e) = self.port.flush() {
            proof {
                assert(old(self).rx() =~= self.rx().subrange(0, old(self).rx().len() as int));
                let plan = seq![UART_DISC] + cmd_frame(Command::Get);
                lemma_emitted_exact(old(self).tx(), plan, 1);
                assert(old(self).tx() + plan.take(1) =~= self.tx());
            }
            return Err(Error::Serial(e));
        }

        // The discovery acknowledgement is absorbed: the info command below
        // is the real liveness check.
        match self.await_ack() {
            Ok(()) => {},
            Err(_) => {},
        }

        self.delay.delay_ms(100u32);

        let ghost mid = *self;
        proof {
            assert(old(self).rx() =~= mid.rx().subrange(0, old(self).rx().len() as int));
        }

        match self.info() {
            Ok(_) => {},
            Err(e) => {
                proof {
                    assert(old(self).rx()
                        =~= self.rx().subrange(0, old(self).rx().len() as int));
                    assert(old(self).tx() + seq![UART_DISC] =~= mid.tx());
                    lemma_emitted_stage(old(self).tx(), self.tx(), seq![UART_DISC],
                        cmd_frame(Command::Get), Seq::<u8>::empty());
                    assert(seq![UART_DISC] + cmd_frame(Command::Get) + Seq::<u8>::empty()
                        =~= seq![UART_DISC] + cmd_frame(Command::Get));
                }
                return Err(e);
            },
        }

        self.delay.delay_ms(100u32);

        proof {
            assert(old(self).tx().push(UART_DISC) + cmd_frame(Command::Get)
                =~= old(self).tx() + seq![UART_DISC] + cmd_frame(Command::Get));
            assert(old(self).rx() =~= self.rx().subrange(0, old(self).rx().len() as int));
        }
        Ok(())
    }

    /// Every byte this session has written to the wire, oldest first.
    pub open spec fn tx(&self) -> Seq<u8> {
        self.port.tx()
    }

    /// Every byte the wire has delivered to this session, oldest first.
    pub open spec fn rx(&self) -> Seq<u8> {
        self.port.rx()
    }

    /// Total milliseconds this session has slept.
    pub open spec fn elapsed(&self) -> nat {
        self.delay.elapsed()
    }

    /// Every modem-control transition this session has driven, in order.
    pub open spec fn line_log(&self) -> Seq<(Line, bool)> {
        self.port.line_log()
    }

    /// Neither configuration, line levels, nor line history changed
    /// between `pre` and `post`: commands never touch the pins.
    pub open spec fn frame_step(pre: Self, post: Self) -> bool {
        &&& post.options == pre.options
        &&& post.port.rts() == pre.port.rts()
        &&& post.port.dtr() == pre.port.dtr()
        &&& post.port.line_log() == pre.port.line_log()
    }

    /// Write a bootloader command preamble: the opcode and its complement.
    pub fn write_cmd(&mut self, command: Command) -> (r: Result<(), Error<E>>)
        ensures
            Self::frame_step(*old(self), *final(self)),
            final(self).rx() == old(self).rx(),
            final(self).elapsed() == old(self).elapsed(),
            match r {
                Ok(()) => final(self).tx() == old(self).tx() + cmd_frame(command),
                Err(e) => e is Serial
                    && emitted_prefix(old(self).tx(), final(self).tx(), cmd_frame(command)),
            },
    {
        let c1 = command.opcode();
        let c2 = !c1;

        if let Err(e) = self.port.write_byte(c1) {
            proof {
                let plan = cmd_frame(command);
                if self.tx() == old(self).tx() {
                    lemma_emitted_exact(old(self).tx(), plan, 0);
                    assert(old(self).tx() + plan.take(0) =~= self.tx());
                } else {
                    lemma_emitted_exact(old(self).tx(), plan, 1);
                    assert(old(self).tx() + plan.take(1) =~= self.tx());
                }
            }
            return Err(Error::Serial(e));
        }
        if let Err(e) = self.port.write_byte(c2) {
            proof {
                let plan = cmd_frame(command);
                if self.tx() == old(self).tx().push(c1) {
                    lemma_emitted_exact(old(self).tx(), plan, 1);
                    assert(old(self).tx() + plan.take(1) =~= self.tx());
                } else {
                    lemma_emitted_exact(old(self).tx(), plan, 2);
                    assert(old(self).tx() + plan.take(2) =~= self.tx());
                }
            }
            return Err(Error::Serial(e));
        }
        if let Err(e) = self.port.flush() {
            proof {
                let plan = cmd_frame(command);
                lemma_emitted_exact(old(self).tx(), plan, 2);
                assert(old(self).tx() + plan.take(2) =~= self.tx());
            }
            return Err(Error::Serial(e));
        }

        proof {
            assert(old(self).tx().push(c1).push(c2) =~= old(self).tx() + cmd_frame(command));
        }
        Ok(())
    }

    /// Write a run of bytes in order, then flush.
    pub fn write_bytes(&mut self, data: &[u8]) -> (r: Result<(), Error<E>>)
        ensures
            Self::frame_step(*old(self), *final(self)),
            final(self).rx() == old(self).rx(),
            final(self).elapsed() == old(self).elapsed(),
            match r {
                Ok(()) => final(self).tx() == old(self).tx() + data@,
                Err(e) => e is Serial
                    && emitted_prefix(old(self).tx(), final(self).tx(), data@),
            },
    {
        let mut i: usize = 0;
        while i < data.len()
            invariant
                i <= data@.len(),
                Self::frame_step(*old(self), *self),
                self.rx() == old(self).rx(),
                self.elapsed() == old(self).elapsed(),
                self.tx() == old(self).tx() + data@.take(i as int),
            decreases data@.len() - i,
        {
            if let Err(e) = self.port.write_byte(data[i]) {
                proof {
                    if self.tx() == old(self).tx() + data@.take(i as int) {
                        lemma_emitted_exact(old(self).tx(), data@, i as int);
                    } else {
                        lemma_emitted_exact(old(self).tx(), data@, i + 1);
                        assert(old(self).tx() + data@.take(i + 1)
                            =~= (old(self).tx() + data@.take(i as int)).push(data@[i as int]));
                    }
                }
                return Err(Error::Serial(e));
            }
            proof {
                assert(data@.take(i as int).push(data@[i as int]) =~= data@.take(i + 1));
            }
            i = i + 1;
        }
        proof {
            assert(data@.take(data@.len() as int) =~= data@);
        }
        if let Err(e) = self.port.flush() {
            proof {
                lemma_emitted_exact(old(self).tx(), data@, data@.len() as int);
            }
            return Err(Error::Serial(e));
        }
        Ok(())
    }

    /// Write a run of bytes, then the XOR checksum over all of them, then
    /// flush.
    pub fn write_bytes_csum(&mut self, data: &[u8]) -> (r: Result<(), Error<E>>)
        ensures
            Self::frame_step(*old(self), *final(self)),
            final(self).rx() == old(self).rx(),
            final(self).elapsed() == old(self).elapsed(),
            match r {
                Ok(()) => final(self).tx() == old(self).tx() + csum_frame(data@),
                Err(e) => e is Serial
                    && emitted_prefix(old(self).tx(), final(self).tx(), csum_frame(data@)),
            },
    {
        let mut csum: u8 = 0;
        let mut i: usize = 0;
        while i < data.len()
            invariant
                i <= data@.len(),
                csum == xor_all(data@.take(i as int)),
            decreases data@.len() - i,
        {
            proof {
                assert(data@.take(i + 1).drop_last() =~= data@.take(i as int));
            }
            csum = csum ^ data[i];
            i = i + 1;
        }
        proof {
            assert(data@.take(data@.len() as int) =~= data@);
        }

        let mut j: usize = 0;
        while j < data.len()
            invariant
                j <= data@.len(),
                csum == xor_all(data@),
                Self::frame_step(*old(self), *self),
                self.rx() == old(self).rx(),
                self.elapsed() == old(self).elapsed(),
                self.tx() == old(self).tx() + data@.take(j as int),
            decreases data@.len() - j,
        {
            if let Err(e) = self.port.write_byte(data[j]) {
                proof {
                    let plan = csum_frame(data@);
                    assert(plan.take(j as int) =~= data@.take(j as int));
                    assert(plan.take(j + 1) =~= data@.take(j + 1));
                    if self.tx() == old(self).tx() + data@.take(j as int) {
                        lemma_emitted_exact(old(self).tx(), plan, j as int);
                        assert(old(self).tx() + plan.take(j as int) =~= self.tx());
                    } else {
                        lemma_emitted_exact(old(self).tx(), plan, j + 1);
                        assert(old(self).tx() + plan.take(j + 1)
                            =~= (old(self).tx() + data@.take(j as int)).push(data@[j as int]));
                    }
                }
                return Err(Error::Serial(e));
            }
            proof {
                assert(data@.take(j as int).push(data@[j as int]) =~= data@.take(j + 1));
            }
            j = j + 1;
        }

        proof {
            assert(data@.take(data@.len() as int) =~= data@);
        }
        if let Err(e) = self.port.write_byte(csum) {
            proof {
                let plan = csum_frame(data@);
                let dlen = data@.len() as int;
                assert(plan.take(dlen) =~= data@);
                if self.tx() == old(self).tx() + data@.take(dlen) {
                    lemma_emitted_exact(old(self).tx(), plan, dlen);
                    assert(old(self).tx() + plan.take(dlen) =~= self.tx());
                } else {
                    lemma_emitted_exact(old(self).tx(), plan, dlen + 1);
                    assert(plan.take(dlen + 1) =~= plan);
                    assert(old(self).tx() + plan
                        =~= (old(self).tx() + data@.take(dlen)).push(csum));
                }
            }
            return Err(Error::Serial(e));
        }
        if let Err(e) = self.port.flush() {
            proof {
                let plan = csum_frame(data@);
                lemma_emitted_exact(old(self).tx(), plan, plan.len() as int);
                assert(plan.take(plan.len() as int) =~= plan);
                assert(old(self).tx() + plan
                    =~= (old(self).tx() + data@.take(data@.len() as int)).push(csum));
            }
            return Err(Error::Serial(e));
        }
        proof {
            assert(old(self).tx() + data@.take(data@.len() as int) + seq![xor_all(data@)]
                =~= old(self).tx() + csum_frame(data@));
        }
        Ok(())
    }

    /// The configured poll delay makes progress towards the timeout bound.
    pub open spec fn polls(&self) -> bool {
        self.options.poll_delay_ms >= 1
    }

    /// Poll the transport for one byte, sleeping `poll_delay_ms` between
    /// attempts, until the byte arrives or more than `response_timeout_ms`
    /// of sleep has accumulated.
    #[verifier::loop_isolation(false)]
    pub fn read_char(&mut self) -> (r: Result<u8, Error<E>>)
        requires
            old(self).polls(),
        ensures
            Self::frame_step(*old(self), *final(self)),
            final(self).tx() == old(self).tx(),
            final(self).elapsed()
                <= old(self).elapsed() + old(self).options.response_timeout_ms
                    + old(self).options.poll_delay_ms,
            match r {
                Ok(b) => final(self).rx() == old(self).rx().push(b)
                    && final(self).elapsed()
                        <= old(self).elapsed() + old(self).options.response_timeout_ms,
                Err(e) => match e {
                    Error::Timeout => final(self).rx() == old(self).rx()
                        && final(self).elapsed()
                            > old(self).elapsed() + old(self).options.response_timeout_ms,
                    Error::Serial(_) => final(self).rx() == old(self).rx(),
                    _ => false,
                },
            },
    {
        let mut t: u64 = 0;

        loop
            invariant
                Self::frame_step(*old(self), *self),
                self.tx() == old(self).tx(),
                self.rx() == old(self).rx(),
                self.elapsed() == old(self).elapsed() + t,
                t <= self.options.response_timeout_ms,
            decreases self.options.response_timeout_ms as int - t,
        {
            match self.port.read_nb() {
                Ok(v) => {
                    return Ok(v);
                },
                Err(NbError::WouldBlock) => {},
                Err(NbError::Other(e)) => {
                    return Err(Error::Serial(e));
                },
            };

            self.delay.delay_ms(self.options.poll_delay_ms);
            t = t + self.options.poll_delay_ms as u64;

            if t > self.options.response_timeout_ms as u64 {
                return Err(Error::Timeout);
            }
        }
    }

    /// Read one byte and arbitrate it: ACK succeeds, NACK refuses, anything
    /// else is an invalid response.
    pub fn await_ack(&mut self) -> (r: Result<(), Error<E>>)
        requires
            old(self).polls(),
        ensures
            Self::frame_step(*old(self), *final(self)),
            final(self).tx() == old(self).tx(),
            final(self).elapsed()
                <= old(self).elapsed() + old(self).options.response_timeout_ms
                    + old(self).options.poll_delay_ms,
            match r {
                Ok(()) => final(self).rx() == old(self).rx().push(UART_ACK),
                Err(e) => match e {
                    Error::Nack => final(self).rx() == old(self).rx().push(UART_NACK),
                    Error::InvalidResponse => final(self).rx().len() == old(self).rx().len() + 1
                        && final(self).rx().drop_last() == old(self).rx()
                        && final(self).rx().last() != UART_ACK
                        && final(self).rx().last() != UART_NACK,
                    Error::Timeout => final(self).rx() == old(self).rx()
                        && final(self).elapsed()
                            > old(self).elapsed() + old(self).options.response_timeout_ms,
                    Error::Serial(_) => final(self).rx() == old(self).rx(),
                    _ => false,
                },
            },
    {
        let v = match self.read_char() {
            Ok(v) => v,
            Err(e) => {
                return Err(e);
            },
        };
        if v == UART_ACK {
            Ok(())
        } else if v == UART_NACK {
            Err(Error::Nack)
        } else {
            proof {
                assert(old(self).rx().push(v).drop_last() =~= old(self).rx());
            }
            Err(Error::InvalidResponse)
        }
    }

    /// What a failed exchange with plan `planned` leaves behind: the
    /// exchange aborted at the point of detection, so nothing beyond a
    /// prefix of its planned request bytes went out; configuration and
    /// line levels are kept; the response log has only grown, and a
    /// refusal or an unexpected byte is visible as the last delivered
    /// byte.
    pub open spec fn err_step(pre: Self, post: Self, e: Error<E>, planned: Seq<u8>) -> bool {
        &&& Self::frame_step(pre, post)
        &&& pre.rx().is_prefix_of(post.rx())
        &&& emitted_prefix(pre.tx(), post.tx(), planned)
        &&& (e is Nack ==> post.rx().len() > pre.rx().len() && post.rx().last() == UART_NACK)
        &&& (e is InvalidResponse ==> post.rx().len() > pre.rx().len()
            && post.rx().last() != UART_ACK && post.rx().last() != UART_NACK)
        &&& !(e is NoAck)
    }

    /// Write the four big-endian address bytes followed by their XOR
    /// checksum, then flush.
    pub fn write_addr_csum(&mut self, addr: u32) -> (r: Result<(), Error<E>>)
        ensures
            Self::frame_step(*old(self), *final(self)),
            final(self).rx() == old(self).rx(),
            final(self).elapsed() == old(self).elapsed(),
            match r {
                Ok(()) => final(self).tx() == old(self).tx() + addr_frame(addr),
                Err(e) => e is Serial
                    && emitted_prefix(old(self).tx(), final(self).tx(), addr_frame(addr)),
            },
    {
        let b0 = ((addr >> 24) & 0xFF) as u8;
        let b1 = ((addr >> 16) & 0xFF) as u8;
        let b2 = ((addr >> 8) & 0xFF) as u8;
        let b3 = (addr & 0xFF) as u8;
        let csum = b0 ^ b1 ^ b2 ^ b3;
        let body: [u8; 5] = [b0, b1, b2, b3, csum];

        proof {
            let ab = addr_bytes(addr);
            assert(ab =~= seq![b0, b1, b2, b3]);
            crate::wire::lemma_xor4(b0, b1, b2, b3);
            assert(xor_all(ab) == csum);
            assert(body@ =~= addr_frame(addr));
        }

        self.write_bytes(body.as_slice())
    }

    /// Drive the RTS/DTR pattern that resets the target into its bootloader
    /// (`bootloader` set) or into the application (`bootloader` clear).
    pub fn reset(&mut self, bootloader: bool) -> (r: Result<(), Error<E>>)
        ensures
            final(self).options == old(self).options,
            final(self).tx() == old(self).tx(),
            final(self).rx() == old(self).rx(),
            match r {
                Ok(()) => final(self).port.rts() == false
                    && (bootloader ==> final(self).port.dtr() == false
                        && final(self).line_log() == old(self).line_log() + seq![
                            (Line::Rts, true),
                            (Line::Dtr, true),
                            (Line::Rts, false),
                            (Line::Dtr, false),
                        ])
                    && (!bootloader ==> final(self).port.dtr() == old(self).port.dtr()
                        && final(self).line_log() == old(self).line_log() + seq![
                            (Line::Rts, true),
                            (Line::Rts, false),
                        ])
                    && final(self).elapsed() == old(self).elapsed() + 10
                        + old(self).options.init_delay_ms,
                Err(e) => e is Serial,
            },
    {
        if let Err(e) = self.port.set_rts(true) {
            return Err(Error::Serial(e));
        }

        self.delay.delay_ms(10u32);

        if bootloader {
            if let Err(e) = self.port.set_dtr(true) {
                return Err(Error::Serial(e));
            }
        }

        if let Err(e) = self.port.set_rts(false) {
            return Err(Error::Serial(e));
        }

        self.delay.delay_ms(self.options.init_delay_ms);

        if bootloader {
            if let Err(e) = self.port.set_dtr(false) {
                return Err(Error::Serial(e));
            }
        }

        proof {
            if bootloader {
                assert(old(self).line_log().push((Line::Rts, true)).push((Line::Dtr, true))
                    .push((Line::Rts, false)).push((Line::Dtr, false))
                    =~= old(self).line_log() + seq![
                        (Line::Rts, true),
                        (Line::Dtr, true),
                        (Line::Rts, false),
                        (Line::Dtr, false),
                    ]);
            } else {
                assert(old(self).line_log().push((Line::Rts, true)).push((Line::Rts, false))
                    =~= old(self).line_log() + seq![(Line::Rts, true), (Line::Rts, false)]);
            }
        }
        Ok(())
    }

    /// Erase the entire flash: the erase preamble, then the mass-erase pair
    /// `0xFF, 0x00`, each step acknowledged.
    pub fn erase_all(&mut self) -> (r: Result<(), Error<E>>)
        requires
            old(self).polls(),
        ensures
            match r {
                Ok(()) => Self::frame_step(*old(self), *final(self))
                    && final(self).tx() == old(self).tx() + cmd_frame(Command::Erase)
                        + seq![0xFFu8, 0x00u8]
                    && final(self).rx() == old(self).rx() + acks(2),
                Err(e) => Self::err_step(*old(self), *final(self), e,
                        cmd_frame(Command::Erase) + seq![0xFFu8, 0x00u8]) && !(e is BufferLength),
            },
    {
        if let Err(e) = self.write_cmd(Command::Erase) {
            return Err(e);
        }
        if let Err(e) = self.await_ack() {
            proof {
                assert(old(self).rx() =~= self.rx().subrange(0, old(self).rx().len() as int));
            }
            return Err(e);
        }

        let body: [u8; 2] = [0xFF, 0x00];
        if let Err(e) = self.write_bytes(body.as_slice()) {
            proof {
                assert(old(self).rx() =~= self.rx().subrange(0, old(self).rx().len() as int));
            }
            return Err(e);
        }
        if let Err(e) = self.await_ack() {
            proof {
                assert(old(self).rx() =~= self.rx().subrange(0, old(self).rx().len() as int));
            }
            return Err(e);
        }

        proof {
            assert(body@ =~= seq![0xFFu8, 0x00u8]);
            assert(old(self).rx().push(UART_ACK).push(UART_ACK) =~= old(self).rx() + acks(2));
        }
        Ok(())
    }

    /// Selective erase by page number: the erase preamble, the count byte
    /// `N - 1`, then the page list with its XOR checksum, each stage
    /// acknowledged.
    pub fn erase_pages(&mut self, pages: &[u8]) -> (r: Result<(), Error<E>>)
        requires
            old(self).polls(),
            1 <= pages@.len() <= 256,
        ensures
            match r {
                Ok(()) => Self::frame_step(*old(self), *final(self))
                    && final(self).tx() == old(self).tx() + cmd_frame(Command::Erase)
                        + seq![(pages@.len() - 1) as u8] + csum_frame(pages@)
                    && final(self).rx() == old(self).rx() + acks(2),
                Err(e) => Self::err_step(*old(self), *final(self), e,
                        cmd_frame(Command::Erase) + seq![(pages@.len() - 1) as u8]
                        + csum_frame(pages@)) && !(e is BufferLength),
            },
    {
        if let Err(e) = self.write_cmd(Command::Erase) {
            return Err(e);
        }
        if let Err(e) = self.await_ack() {
            proof {
                assert(old(self).rx() =~= self.rx().subrange(0, old(self).rx().len() as int));
            }
            return Err(e);
        }

        let count = (pages.len() - 1) as u8;
        if let Err(e) = self.port.write_byte(count) {
            proof {
                assert(old(self).rx() =~= self.rx().subrange(0, old(self).rx().len() as int));
            }
            return Err(Error::Serial(e));
        }
        if let Err(e) = self.write_bytes_csum(pages) {
            proof {
                assert(old(self).rx() =~= self.rx().subrange(0, old(self).rx().len() as int));
            }
            return Err(e);
        }
        if let Err(e) = self.await_ack() {
            proof {
                assert(old(self).rx() =~= self.rx().subrange(0, old(self).rx().len() as int));
            }
            return Err(e);
        }

        proof {
            assert((old(self).tx() + cmd_frame(Command::Erase)).push(count) + csum_frame(pages@)
                =~= old(self).tx() + cmd_frame(Command::Erase) + seq![count] + csum_frame(pages@));
            assert(old(self).rx().push(UART_ACK).push(UART_ACK) =~= old(self).rx() + acks(2));
        }
        Ok(())
    }

    /// Erase the `page_count` pages of the half-open range
    /// `[page_offset, page_offset + page_count)`.
    pub fn erase(&mut self, page_offset: u8, page_count: u8) -> (r: Result<(), Error<E>>)
        requires
            old(self).polls(),
            1 <= page_count,
            page_offset + page_count <= 256,
        ensures
            match r {
                Ok(()) => Self::frame_step(*old(self), *final(self))
                    && final(self).tx() == old(self).tx() + cmd_frame(Command::Erase)
                        + seq![(page_count - 1) as u8]
                        + csum_frame(page_list(page_offset, page_count))
                    && final(self).rx() == old(self).rx() + acks(2),
                Err(e) => Self::err_step(*old(self), *final(self), e,
                        cmd_frame(Command::Erase) + seq![(page_count - 1) as u8]
                        + csum_frame(page_list(page_offset, page_count))) && !(e is BufferLength),
            },
    {
        let mut pages: Vec<u8> = Vec::new();
        let mut i: usize = 0;
        while i < page_count as usize
            invariant
                i <= page_count,
                page_offset + page_count <= 256,
                pages@ == page_list(page_offset, page_count).take(i as int),
            decreases page_count - i,
        {
            pages.push((page_offset as usize + i) as u8);
            proof {
                assert(pages@ =~= page_list(page_offset, page_count).take(i + 1));
            }
            i = i + 1;
        }
        proof {
            assert(pages@ =~= page_list(page_offset, page_count));
        }

        self.erase_pages(pages.as_slice())
    }

    /// Selective erase in two-byte addressing mode, for bootloaders of
    /// protocol version 3.0 and above: the extended-erase preamble, then
    /// the two-byte count `N - 1` and the two-byte page indices under one
    /// XOR checksum, each stage acknowledged. The counts at the top of the
    /// two-byte range are reserved for the special erase codes.
    pub fn extended_erase_pages(&mut self, pages: &[u16]) -> (r: Result<(), Error<E>>)
        requires
            old(self).polls(),
            1 <= pages@.len() <= 0xFFF0,
        ensures
            match r {
                Ok(()) => Self::frame_step(*old(self), *final(self))
                    && final(self).tx() == old(self).tx() + cmd_frame(Command::ExtendedErase)
                        + csum_frame(be16((pages@.len() - 1) as u16) + ext_pages_bytes(pages@))
                    && final(self).rx() == old(self).rx() + acks(2),
                Err(e) => Self::err_step(*old(self), *final(self), e,
                        cmd_frame(Command::ExtendedErase)
                        + csum_frame(be16((pages@.len() - 1) as u16) + ext_pages_bytes(pages@))) && !(e is BufferLength),
            },
    {
        let count = (pages.len() - 1) as u16;
        let mut body: Vec<u8> = Vec::new();
        body.push(((count >> 8) & 0xFF) as u8);
        body.push((count & 0xFF) as u8);
        proof {
            assert(body@ =~= be16(count));
            assert(ext_pages_bytes(pages@.take(0)) == Seq::<u8>::empty());
            assert(body@ =~= be16(count) + ext_pages_bytes(pages@.take(0)));
        }

        let mut i: usize = 0;
        while i < pages.len()
            invariant
                i <= pages@.len(),
                body@ == be16(count) + ext_pages_bytes(pages@.take(i as int)),
            decreases pages@.len() - i,
        {
            let page = pages[i];
            body.push(((page >> 8) & 0xFF) as u8);
            body.push((page & 0xFF) as u8);
            proof {
                assert(pages@.take(i + 1).drop_last() =~= pages@.take(i as int));
                assert(pages@.take(i + 1).last() == pages@[i as int]);
                assert((be16(count) + ext_pages_bytes(pages@.take(i as int)))
                    .push(((page >> 8) & 0xFF) as u8).push((page & 0xFF) as u8)
                    =~= be16(count) + ext_pages_bytes(pages@.take(i + 1)));
            }
            i = i + 1;
        }
        proof {
            assert(pages@.take(pages@.len() as int) =~= pages@);
        }

        if let Err(e) = self.write_cmd(Command::ExtendedErase) {
            return Err(e);
        }
        if let Err(e) = self.await_ack() {
            proof {
                assert(old(self).rx() =~= self.rx().subrange(0, old(self).rx().len() as int));
            }
            return Err(e);
        }
        if let Err(e) = self.write_bytes_csum(body.as_slice()) {
            proof {
                assert(old(self).rx() =~= self.rx().subrange(0, old(self).rx().len() as int));
            }
            return Err(e);
        }
        if let Err(e) = self.await_ack() {
            proof {
                assert(old(self).rx() =~= self.rx().subrange(0, old(self).rx().len() as int));
            }
            return Err(e);
        }

        proof {
            assert(old(self).rx().push(UART_ACK).push(UART_ACK) =~= old(self).rx() + acks(2));
        }
        Ok(())
    }

    /// Mass erase in two-byte addressing mode, for bootloaders of protocol
    /// version 3.0 and above: the special code `0xFFFF` with its checksum.
    pub fn extended_erase_all(&mut self) -> (r: Result<(), Error<E>>)
        requires
            old(self).polls(),
        ensures
            match r {
                Ok(()) => Self::frame_step(*old(self), *final(self))
                    && final(self).tx() == old(self).tx() + cmd_frame(Command::ExtendedErase)
                        + csum_frame(seq![0xFFu8, 0xFFu8])
                    && final(self).rx() == old(self).rx() + acks(2),
                Err(e) => Self::err_step(*old(self), *final(self), e,
                        cmd_frame(Command::ExtendedErase) + csum_frame(seq![0xFFu8, 0xFFu8])) && !(e is BufferLength),
            },
    {
        if let Err(e) = self.write_cmd(Command::ExtendedErase) {
            return Err(e);
        }
        if let Err(e) = self.await_ack() {
            proof {
                assert(old(self).rx() =~= self.rx().subrange(0, old(self).rx().len() as int));
            }
            return Err(e);
        }

        let body: [u8; 2] = [0xFF, 0xFF];
        if let Err(e) = self.write_bytes_csum(body.as_slice()) {
            proof {
                assert(old(self).rx() =~= self.rx().subrange(0, old(self).rx().len() as int));
            }
            return Err(e);
        }
        if let Err(e) = self.await_ack() {
            proof {
                assert(old(self).rx() =~= self.rx().subrange(0, old(self).rx().len() as int));
            }
            return Err(e);
        }

        proof {
            assert(body@ =~= seq![0xFFu8, 0xFFu8]);
            assert(old(self).rx().push(UART_ACK).push(UART_ACK) =~= old(self).rx() + acks(2));
        }
        Ok(())
    }

    /// Jump to the application at `addr`: preamble, then the address with
    /// its checksum, each acknowledged. On success the bootloader has left
    /// command mode; a new reset is needed before further commands.
    pub fn go(&mut self, addr: u32) -> (r: Result<(), Error<E>>)
        requires
            old(self).polls(),
        ensures
            match r {
                Ok(()) => Self::frame_step(*old(self), *final(self))
                    && final(self).tx() == old(self).tx() + cmd_frame(Command::Go)
                        + addr_frame(addr)
                    && final(self).rx() == old(self).rx() + acks(2),
                Err(e) => Self::err_step(*old(self), *final(self), e,
                        cmd_frame(Command::Go) + addr_frame(addr)) && !(e is BufferLength),
            },
    {
        if let Err(e) = self.write_cmd(Command::Go) {
            return Err(e);
        }
        if let Err(e) = self.await_ack() {
            proof {
                assert(old(self).rx() =~= self.rx().subrange(0, old(self).rx().len() as int));
            }
            return Err(e);
        }
        if let Err(e) = self.write_addr_csum(addr) {
            proof {
                assert(old(self).rx() =~= self.rx().subrange(0, old(self).rx().len() as int));
            }
            return Err(e);
        }
        if let Err(e) = self.await_ack() {
            proof {
                assert(old(self).rx() =~= self.rx().subrange(0, old(self).rx().len() as int));
            }
            return Err(e);
        }
        proof {
            assert(old(self).rx().push(UART_ACK).push(UART_ACK) =~= old(self).rx() + acks(2));
        }
        Ok(())
    }

    /// A command with no payload and two acknowledgements: acceptance, then
    /// completion.
    fn cmd_two_acks(&mut self, command: Command) -> (r: Result<(), Error<E>>)
        requires
            old(self).polls(),
        ensures
            match r {
                Ok(()) => Self::frame_step(*old(self), *final(self))
                    && final(self).tx() == old(self).tx() + cmd_frame(command)
                    && final(self).rx() == old(self).rx() + acks(2),
                Err(e) => Self::err_step(*old(self), *final(self), e,
                        cmd_frame(command)) && !(e is BufferLength),
            },
    {
        if let Err(e) = self.write_cmd(command) {
            return Err(e);
        }
        if let Err(e) = self.await_ack() {
            proof {
                assert(old(self).rx() =~= self.rx().subrange(0, old(self).rx().len() as int));
            }
            return Err(e);
        }
        if let Err(e) = self.await_ack() {
            proof {
                assert(old(self).rx() =~= self.rx().subrange(0, old(self).rx().len() as int));
            }
            return Err(e);
        }
        proof {
            assert(old(self).rx().push(UART_ACK).push(UART_ACK) =~= old(self).rx() + acks(2));
        }
        Ok(())
    }

    /// Enable write protection for some sectors. The target may self-reset
    /// afterwards; treat the session as requiring re-discovery.
    pub fn write_protect(&mut self) -> (r: Result<(), Error<E>>)
        requires
            old(self).polls(),
        ensures
            match r {
                Ok(()) => Self::frame_step(*old(self), *final(self))
                    && final(self).tx() == old(self).tx() + cmd_frame(Command::WriteProtect)
                    && final(self).rx() == old(self).rx() + acks(2),
                Err(e) => Self::err_step(*old(self), *final(self), e,
                        cmd_frame(Command::WriteProtect)) && !(e is BufferLength),
            },
    {
        self.cmd_two_acks(Command::WriteProtect)
    }

    /// Disable write protection for all flash sectors. The target may
    /// self-reset afterwards; treat the session as requiring re-discovery.
    pub fn write_unprotect(&mut self) -> (r: Result<(), Error<E>>)
        requires
            old(self).polls(),
        ensures
            match r {
                Ok(()) => Self::frame_step(*old(self), *final(self))
                    && final(self).tx() == old(self).tx() + cmd_frame(Command::WriteUnprotect)
                    && final(self).rx() == old(self).rx() + acks(2),
                Err(e) => Self::err_step(*old(self), *final(self), e,
                        cmd_frame(Command::WriteUnprotect)) && !(e is BufferLength),
            },
    {
        self.cmd_two_acks(Command::WriteUnprotect)
    }

    /// Enable readout protection. The target may self-reset afterwards;
    /// treat the session as requiring re-discovery.
    pub fn readout_protect(&mut self) -> (r: Result<(), Error<E>>)
        requires
            old(self).polls(),
        ensures
            match r {
                Ok(()) => Self::frame_step(*old(self), *final(self))
                    && final(self).tx() == old(self).tx() + cmd_frame(Command::ReadoutProtect)
                    && final(self).rx() == old(self).rx() + acks(2),
                Err(e) => Self::err_step(*old(self), *final(self), e,
                        cmd_frame(Command::ReadoutProtect)) && !(e is BufferLength),
            },
    {
        self.cmd_two_acks(Command::ReadoutProtect)
    }

    /// Disable readout protection. The target may self-reset afterwards;
    /// treat the session as requiring re-discovery.
    pub fn readout_unprotect(&mut self) -> (r: Result<(), Error<E>>)
        requires
            old(self).polls(),
        ensures
            match r {
                Ok(()) => Self::frame_step(*old(self), *final(self))
                    && final(self).tx() == old(self).tx() + cmd_frame(Command::ReadoutUnprotect)
                    && final(self).rx() == old(self).rx() + acks(2),
                Err(e) => Self::err_step(*old(self), *final(self), e,
                        cmd_frame(Command::ReadoutUnprotect)) && !(e is BufferLength),
            },
    {
        self.cmd_two_acks(Command::ReadoutUnprotect)
    }

    /// Fetch the bootloader info block and return the protocol version
    /// byte. The bootloader declares a payload of `N + 1` bytes: the
    /// version followed by the supported command opcodes. A declared
    /// payload beyond the receive buffer fails with `BufferLength` before
    /// any payload byte is consumed.
    pub fn info(&mut self) -> (r: Result<u8, Error<E>>)
        requires
            old(self).polls(),
        ensures
            old(self).rx().is_prefix_of(final(self).rx()),
            match r {
                Ok(v) => ({
                    let resp = final(self).rx().skip(old(self).rx().len() as int);
                    &&& Self::frame_step(*old(self), *final(self))
                    &&& final(self).tx() == old(self).tx() + cmd_frame(Command::Get)
                    &&& resp.len() == resp[1] + 4
                    &&& resp[0] == UART_ACK
                    &&& resp.last() == UART_ACK
                    &&& resp[1] + 1 <= INFO_BUF_LEN
                    &&& v == resp[2]
                }),
                Err(e) => Self::err_step(*old(self), *final(self), e,
                        cmd_frame(Command::Get))
                    && (e is BufferLength ==> ({
                        let resp = final(self).rx().skip(old(self).rx().len() as int);
                        &&& final(self).tx() == old(self).tx() + cmd_frame(Command::Get)
                        &&& resp.len() == 2
                        &&& resp[0] == UART_ACK
                        &&& resp[1] + 1 > INFO_BUF_LEN
                    })),
            },
    {
        if let Err(e) = self.write_cmd(Command::Get) {
            return Err(e);
        }
        if let Err(e) = self.await_ack() {
            proof {
                assert(old(self).rx() =~= self.rx().subrange(0, old(self).rx().len() as int));
            }
            return Err(e);
        }

        let n = match self.read_char() {
            Ok(b) => b,
            Err(e) => {
                proof {
                    assert(old(self).rx() =~= self.rx().subrange(0, old(self).rx().len() as int));
                }
                return Err(e);
            },
        };
        let count = n as usize + 1;

        if INFO_BUF_LEN < count {
            proof {
                assert(old(self).rx() =~= self.rx().subrange(0, old(self).rx().len() as int));
                assert(self.rx().skip(old(self).rx().len() as int) =~= seq![UART_ACK, n]);
            }
            return Err(Error::BufferLength);
        }

        let mut data: Vec<u8> = Vec::new();
        let mut i: usize = 0;
        while i < count
            invariant
                i <= count,
                count == n + 1,
                old(self).polls(),
                Self::frame_step(*old(self), *self),
                self.tx() == old(self).tx() + cmd_frame(Command::Get),
                self.rx() == old(self).rx() + seq![UART_ACK, n] + data@,
                data@.len() == i,
            decreases count - i,
        {
            let b = match self.read_char() {
                Ok(b) => b,
                Err(e) => {
                    proof {
                        assert(old(self).rx()
                            =~= self.rx().subrange(0, old(self).rx().len() as int));
                    }
                    return Err(e);
                },
            };
            data.push(b);
            proof {
                assert((old(self).rx() + seq![UART_ACK, n] + data@.drop_last()).push(b)
                    =~= old(self).rx() + seq![UART_ACK, n] + data@);
            }
            i = i + 1;
        }

        if let Err(e) = self.await_ack() {
            proof {
                assert(old(self).rx() =~= self.rx().subrange(0, old(self).rx().len() as int));
            }
            return Err(e);
        }

        let version = data[0];
        proof {
            let resp = self.rx().skip(old(self).rx().len() as int);
            assert(resp =~= seq![UART_ACK, n] + data@ + seq![UART_ACK]);
            assert(old(self).rx() =~= self.rx().subrange(0, old(self).rx().len() as int));
        }
        Ok(version)
    }

    /// Fetch the chip ID, assembled little-endian from the first payload
    /// bytes (two on common parts). Any further declared payload bytes are
    /// consumed but do not contribute.
    pub fn chip_id(&mut self) -> (r: Result<u16, Error<E>>)
        requires
            old(self).polls(),
        ensures
            old(self).rx().is_prefix_of(final(self).rx()),
            match r {
                Ok(v) => ({
                    let resp = final(self).rx().skip(old(self).rx().len() as int);
                    &&& Self::frame_step(*old(self), *final(self))
                    &&& final(self).tx() == old(self).tx() + cmd_frame(Command::GetId)
                    &&& resp.len() == resp[1] + 4
                    &&& resp[0] == UART_ACK
                    &&& resp.last() == UART_ACK
                    &&& v == resp[2] + (if resp[1] >= 1 { 256 * resp[3] } else { 0int })
                }),
                Err(e) => Self::err_step(*old(self), *final(self), e,
                        cmd_frame(Command::GetId)) && !(e is BufferLength),
            },
    {
        if let Err(e) = self.write_cmd(Command::GetId) {
            return Err(e);
        }
        if let Err(e) = self.await_ack() {
            proof {
                assert(old(self).rx() =~= self.rx().subrange(0, old(self).rx().len() as int));
            }
            return Err(e);
        }

        let n = match self.read_char() {
            Ok(b) => b,
            Err(e) => {
                proof {
                    assert(old(self).rx() =~= self.rx().subrange(0, old(self).rx().len() as int));
                }
                return Err(e);
            },
        };
        let count = n as usize + 1;

        let mut data: Vec<u8> = Vec::new();
        let mut i: usize = 0;
        while i < count
            invariant
                i <= count,
                count == n + 1,
                old(self).polls(),
                Self::frame_step(*old(self), *self),
                self.tx() == old(self).tx() + cmd_frame(Command::GetId),
                self.rx() == old(self).rx() + seq![UART_ACK, n] + data@,
                data@.len() == i,
            decreases count - i,
        {
            let b = match self.read_char() {
                Ok(b) => b,
                Err(e) => {
                    proof {
                        assert(old(self).rx()
                            =~= self.rx().subrange(0, old(self).rx().len() as int));
                    }
                    return Err(e);
                },
            };
            data.push(b);
            proof {
                assert((old(self).rx() + seq![UART_ACK, n] + data@.drop_last()).push(b)
                    =~= old(self).rx() + seq![UART_ACK, n] + data@);
            }
            i = i + 1;
        }

        if let Err(e) = self.await_ack() {
            proof {
                assert(old(self).rx() =~= self.rx().subrange(0, old(self).rx().len() as int));
            }
            return Err(e);
        }

        let v: u16 = if data.len() >= 2 {
            data[0] as u16 + data[1] as u16 * 256
        } else {
            data[0] as u16
        };
        proof {
            let resp = self.rx().skip(old(self).rx().len() as int);
            assert(resp =~= seq![UART_ACK, n] + data@ + seq![UART_ACK]);
            assert(old(self).rx() =~= self.rx().subrange(0, old(self).rx().len() as int));
        }
        Ok(v)
    }

    /// Write one memory block of up to 256 bytes at `addr`: preamble,
    /// address frame, then `|data| - 1` and the data under one XOR
    /// checksum, each stage acknowledged.
    pub fn write_mem_block(&mut self, addr: u32, data: &[u8]) -> (r: Result<(), Error<E>>)
        requires
            old(self).polls(),
            1 <= data@.len() <= MAX_CHUNK,
        ensures
            match r {
                Ok(()) => Self::frame_step(*old(self), *final(self))
                    && final(self).tx() == old(self).tx() + write_block_tx(addr, data@)
                    && final(self).rx() == old(self).rx() + acks(3),
                Err(e) => Self::err_step(*old(self), *final(self), e,
                        write_block_tx(addr, data@)) && !(e is BufferLength),
            },
    {
        if let Err(e) = self.write_cmd(Command::WriteMemory) {
            return Err(e);
        }
        if let Err(e) = self.await_ack() {
            proof {
                assert(old(self).rx() =~= self.rx().subrange(0, old(self).rx().len() as int));
            }
            return Err(e);
        }
        if let Err(e) = self.write_addr_csum(addr) {
            proof {
                assert(old(self).rx() =~= self.rx().subrange(0, old(self).rx().len() as int));
            }
            return Err(e);
        }
        if let Err(e) = self.await_ack() {
            proof {
                assert(old(self).rx() =~= self.rx().subrange(0, old(self).rx().len() as int));
            }
            return Err(e);
        }

        let count = (data.len() - 1) as u8;
        let mut csum: u8 = count;
        proof {
            reveal_with_fuel(xor_all, 3);
            assert((seq![count] + data@).take(1) =~= seq![count]);
            assert(seq![count].drop_last() =~= Seq::<u8>::empty());
            assert(seq![count].last() == count);
            assert(0u8 ^ count == count) by (bit_vector);
            assert(csum == xor_all((seq![count] + data@).take(1)));
        }

        if let Err(e) = self.port.write_byte(count) {
            proof {
                assert(old(self).rx() =~= self.rx().subrange(0, old(self).rx().len() as int));
            }
            return Err(Error::Serial(e));
        }

        let mut i: usize = 0;
        proof {
            assert(csum_frame(seq![count] + data@)
                =~= seq![count] + data@ + seq![xor_all(seq![count] + data@)]);
            assert(write_block_tx(addr, data@)
                =~= cmd_frame(Command::WriteMemory) + addr_frame(addr) + seq![count] + data@
                    + seq![xor_all(seq![count] + data@)]);
        }
        while i < data.len()
            invariant
                i <= data@.len(),
                old(self).polls(),
                Self::frame_step(*old(self), *self),
                csum == xor_all((seq![count] + data@).take(1 + i)),
                write_block_tx(addr, data@) == cmd_frame(Command::WriteMemory)
                    + addr_frame(addr) + seq![count] + data@
                    + seq![xor_all(seq![count] + data@)],
                self.rx() == old(self).rx() + acks(2),
                self.tx() == old(self).tx() + cmd_frame(Command::WriteMemory)
                    + addr_frame(addr) + seq![count] + data@.take(i as int),
            decreases data@.len() - i,
        {
            proof {
                assert((seq![count] + data@).take(1 + i + 1).drop_last()
                    =~= (seq![count] + data@).take(1 + i));
                assert((seq![count] + data@).take(1 + i + 1).last() == data@[i as int]);
            }
            csum = csum ^ data[i];
            if let Err(e) = self.port.write_byte(data[i]) {
                proof {
                    assert(old(self).rx()
                        =~= self.rx().subrange(0, old(self).rx().len() as int));
                    let plan = write_block_tx(addr, data@);
                    let mid = old(self).tx() + cmd_frame(Command::WriteMemory)
                        + addr_frame(addr) + seq![count] + data@.take(i as int);
                    if self.tx() == mid {
                        lemma_emitted_exact(old(self).tx(), plan, 8 + i);
                        assert(old(self).tx() + plan.take(8 + i) =~= mid);
                    } else {
                        lemma_emitted_exact(old(self).tx(), plan, 8 + i + 1);
                        assert(old(self).tx() + plan.take(8 + i + 1)
                            =~= mid.push(data@[i as int]));
                    }
                }
                return Err(Error::Serial(e));
            }
            proof {
                assert((old(self).tx() + cmd_frame(Command::WriteMemory) + addr_frame(addr)
                    + seq![count] + data@.take(i as int)).push(data@[i as int])
                    =~= old(self).tx() + cmd_frame(Command::WriteMemory) + addr_frame(addr)
                        + seq![count] + data@.take(i + 1));
            }
            i = i + 1;
        }

        proof {
            assert((seq![count] + data@).take(1 + data@.len() as int) =~= seq![count] + data@);
            assert(data@.take(data@.len() as int) =~= data@);
        }
        if let Err(e) = self.port.write_byte(csum) {
            proof {
                assert(old(self).rx() =~= self.rx().subrange(0, old(self).rx().len() as int));
                let plan = write_block_tx(addr, data@);
                let dlen = data@.len() as int;
                let mid = old(self).tx() + cmd_frame(Command::WriteMemory)
                    + addr_frame(addr) + seq![count] + data@.take(dlen);
                if self.tx() == mid {
                    lemma_emitted_exact(old(self).tx(), plan, 8 + dlen);
                    assert(old(self).tx() + plan.take(8 + dlen) =~= mid);
                } else {
                    lemma_emitted_exact(old(self).tx(), plan, 9 + dlen);
                    assert(plan.take(9 + dlen) =~= plan);
                    assert(old(self).tx() + plan =~= mid.push(csum));
                }
            }
            return Err(Error::Serial(e));
        }
        if let Err(e) = self.port.flush() {
            proof {
                assert(old(self).rx() =~= self.rx().subrange(0, old(self).rx().len() as int));
                let plan = write_block_tx(addr, data@);
                let dlen = data@.len() as int;
                lemma_emitted_exact(old(self).tx(), plan, 9 + dlen);
                assert(plan.take(9 + dlen) =~= plan);
                assert(old(self).tx() + plan
                    =~= (old(self).tx() + cmd_frame(Command::WriteMemory) + addr_frame(addr)
                        + seq![count] + data@.take(dlen)).push(csum));
            }
            return Err(Error::Serial(e));
        }
        if let Err(e) = self.await_ack() {
            proof {
                assert(old(self).rx() =~= self.rx().subrange(0, old(self).rx().len() as int));
                let plan = write_block_tx(addr, data@);
                let dlen = data@.len() as int;
                lemma_emitted_exact(old(self).tx(), plan, 9 + dlen);
                assert(plan.take(9 + dlen) =~= plan);
                assert(old(self).tx() + plan
                    =~= (old(self).tx() + cmd_frame(Command::WriteMemory) + addr_frame(addr)
                        + seq![count] + data@.take(dlen)).push(csum));
            }
            return Err(e);
        }

        proof {
            assert(data@.take(data@.len() as int) =~= data@);
            assert((old(self).tx() + cmd_frame(Command::WriteMemory) + addr_frame(addr)
                + seq![count] + data@).push(xor_all(seq![count] + data@))
                =~= old(self).tx() + write_block_tx(addr, data@));
            assert((old(self).rx() + acks(2)).push(UART_ACK) =~= old(self).rx() + acks(3));
        }
        Ok(())
    }

    /// Read one memory block of up to 256 bytes at `addr` into
    /// `data[offset .. offset + count]`: preamble, address frame, then
    /// `count - 1` and its complement, each acknowledged; the payload
    /// itself is not followed by an acknowledgement. A refused or invalid
    /// exchange leaves the buffer untouched.
    pub fn read_mem_block(
        &mut self,
        addr: u32,
        data: &mut Vec<u8>,
        offset: usize,
        count: usize,
    ) -> (r: Result<(), Error<E>>)
        requires
            old(self).polls(),
            1 <= count <= MAX_CHUNK,
            offset + count <= old(data)@.len(),
        ensures
            final(data)@.len() == old(data)@.len(),
            final(data)@.take(offset as int) == old(data)@.take(offset as int),
            final(data)@.skip((offset + count) as int)
                == old(data)@.skip((offset + count) as int),
            match r {
                Ok(()) => Self::frame_step(*old(self), *final(self))
                    && final(self).tx() == old(self).tx() + read_block_tx(addr, count as nat)
                    && final(self).rx() == old(self).rx() + acks(3)
                        + final(data)@.subrange(offset as int, (offset + count) as int),
                Err(e) => Self::err_step(*old(self), *final(self), e,
                        read_block_tx(addr, count as nat)) && !(e is BufferLength)
                    && ((e is Nack || e is InvalidResponse) ==> final(data)@ == old(data)@),
            },
    {
        if let Err(e) = self.write_cmd(Command::ReadMemory) {
            return Err(e);
        }
        if let Err(e) = self.await_ack() {
            proof {
                assert(old(self).rx() =~= self.rx().subrange(0, old(self).rx().len() as int));
            }
            return Err(e);
        }
        if let Err(e) = self.write_addr_csum(addr) {
            proof {
                assert(old(self).rx() =~= self.rx().subrange(0, old(self).rx().len() as int));
            }
            return Err(e);
        }
        if let Err(e) = self.await_ack() {
            proof {
                assert(old(self).rx() =~= self.rx().subrange(0, old(self).rx().len() as int));
            }
            return Err(e);
        }

        let len_byte = (count - 1) as u8;
        let body: [u8; 2] = [len_byte, !len_byte];
        if let Err(e) = self.write_bytes(body.as_slice()) {
            proof {
                assert(old(self).rx() =~= self.rx().subrange(0, old(self).rx().len() as int));
            }
            return Err(e);
        }
        if let Err(e) = self.await_ack() {
            proof {
                assert(old(self).rx() =~= self.rx().subrange(0, old(self).rx().len() as int));
            }
            return Err(e);
        }

        proof {
            assert(body@ =~= seq![(count - 1) as u8, !((count - 1) as u8)]);
            assert(old(self).tx() + cmd_frame(Command::ReadMemory) + addr_frame(addr) + body@
                =~= old(self).tx() + read_block_tx(addr, count as nat));
            assert(old(self).rx().push(UART_ACK).push(UART_ACK).push(UART_ACK)
                =~= old(self).rx() + acks(3));
            assert(old(self).rx() + acks(3) + data@.subrange(offset as int, offset as int)
                =~= old(self).rx() + acks(3));
        }

        let dlen = data.len();
        let mut i: usize = 0;
        while i < count
            invariant
                i <= count,
                offset + count <= dlen,
                dlen == data@.len(),
                data@.len() == old(data)@.len(),
                old(self).polls(),
                Self::frame_step(*old(self), *self),
                self.tx() == old(self).tx() + read_block_tx(addr, count as nat),
                self.rx() == old(self).rx() + acks(3)
                    + data@.subrange(offset as int, offset + i),
                data@.take(offset as int) == old(data)@.take(offset as int),
                data@.skip((offset + count) as int) == old(data)@.skip((offset + count) as int),
            decreases count - i,
        {
            let b = match self.read_char() {
                Ok(b) => b,
                Err(e) => {
                    proof {
                        assert(old(self).rx()
                            =~= self.rx().subrange(0, old(self).rx().len() as int));
                    }
                    return Err(e);
                },
            };
            let ghost pre_data = data@;
            data[offset + i] = b;
            proof {
                assert(data@.take(offset as int) =~= pre_data.take(offset as int));
                assert(data@.skip((offset + count) as int)
                    =~= pre_data.skip((offset + count) as int));
                assert((old(self).rx() + acks(3)
                    + pre_data.subrange(offset as int, offset + i)).push(b)
                    =~= old(self).rx() + acks(3) + data@.subrange(offset as int, offset + i + 1));
            }
            i = i + 1;
        }

        Ok(())
    }

    /// Read a memory range starting at `addr` into `data`, replacing its
    /// contents: the range is chunked into blocks of `CHUNK_SIZE` bytes,
    /// each issued at its running address. A refusal or an invalid
    /// response on a single-block range leaves the buffer untouched.
    pub fn read(&mut self, addr: u32, data: &mut Vec<u8>) -> (r: Result<(), Error<E>>)
        requires
            old(self).polls(),
            addr + old(data)@.len() <= 0x1_0000_0000,
        ensures
            final(data)@.len() == old(data)@.len(),
            match r {
                Ok(()) => Self::frame_step(*old(self), *final(self))
                    && final(self).tx() == old(self).tx()
                        + concat_txns(read_txns(addr, old(data)@.len() as nat))
                    && final(self).rx() == old(self).rx() + read_resp(final(data)@),
                Err(e) => Self::err_step(*old(self), *final(self), e,
                        concat_txns(read_txns(addr, old(data)@.len() as nat)))
                    && !(e is BufferLength)
                    && ((e is Nack || e is InvalidResponse)
                        && final(self).rx().len() <= old(self).rx().len() + 3
                        ==> final(data)@ == old(data)@),
            },
    {
        let total = data.len();
        let mut index: usize = 0;

        while index < total
            invariant
                total == data@.len(),
                data@.len() == old(data)@.len(),
                index <= total,
                index % CHUNK_SIZE == 0 || index == total,
                addr + total <= 0x1_0000_0000,
                old(self).polls(),
                Self::frame_step(*old(self), *self),
                old(self).tx().len() <= self.tx().len(),
                old(self).tx() + concat_txns(read_txns(addr, total as nat))
                    == self.tx()
                        + concat_txns(read_txns((addr + index) as u32, (total - index) as nat)),
                self.rx() == old(self).rx() + read_resp(data@.take(index as int)),
                data@.skip(index as int) == old(data)@.skip(index as int),
            decreases total - index,
        {
            let c = if total - index < CHUNK_SIZE {
                total - index
            } else {
                CHUNK_SIZE
            };
            let a = addr + index as u32;
            let ghost entry = *self;
            let ghost entry_data = data@;

            match self.read_mem_block(a, data, index, c) {
                Ok(()) => {},
                Err(e) => {
                    proof {
                        assert(entry.rx() =~= self.rx().subrange(0, entry.rx().len() as int));
                        assert(old(self).rx()
                            =~= self.rx().subrange(0, old(self).rx().len() as int));

                        let plan = concat_txns(read_txns(addr, total as nat));
                        let rem = (total - index) as nat;
                        let block = read_block_tx(a, c as nat);
                        assert(read_txns(a, rem)
                            =~= seq![block] + read_txns(((a + c) as u32), (rem - c) as nat));
                        lemma_concat_cons(block, read_txns(((a + c) as u32), (rem - c) as nat));
                        let remcat = concat_txns(read_txns(a, rem));
                        assert forall|k: int| 0 <= k < self.tx().len() implies
                            #[trigger] self.tx()[k] == (old(self).tx() + plan)[k] by {
                            assert(self.tx()[k] == (entry.tx() + block)[k]);
                            assert(old(self).tx() + plan == entry.tx() + remcat);
                            if k < entry.tx().len() {
                                assert((entry.tx() + remcat)[k] == entry.tx()[k]);
                            } else {
                                assert((entry.tx() + remcat)[k]
                                    == remcat[k - entry.tx().len() as int]);
                            }
                        };
                        assert(a == (addr + index) as u32);
                        assert(old(self).tx() + plan == entry.tx() + remcat);
                        assert((old(self).tx() + plan).len()
                            == old(self).tx().len() + plan.len());
                        assert((entry.tx() + remcat).len()
                            == entry.tx().len() + remcat.len());
                        assert(old(self).tx().len() + plan.len()
                            == entry.tx().len() + remcat.len());
                        assert(remcat.len() >= block.len());
                        assert(self.tx().len() <= old(self).tx().len() + plan.len());
                        assert(emitted_prefix(old(self).tx(), self.tx(), plan));

                        if e is Nack || e is InvalidResponse {
                            if index == 0 {
                                assert(entry_data.skip(0int) =~= entry_data);
                                assert(old(data)@.skip(0int) =~= old(data)@);
                                assert(data@ =~= old(data)@);
                            } else {
                                lemma_read_resp_len(entry_data.take(index as int));
                                assert(self.rx().len() > old(self).rx().len() + 3);
                            }
                        }
                    }
                    return Err(e);
                },
            }

            proof {
                let rem = (total - index) as nat;
                let block = read_block_tx(a, c as nat);
                assert(read_txns(a, rem)
                    =~= seq![block] + read_txns((a + c) as u32, (rem - c) as nat));
                lemma_concat_cons(block, read_txns((a + c) as u32, (rem - c) as nat));
                assert(self.tx() + concat_txns(read_txns((a + c) as u32, (rem - c) as nat))
                    =~= entry.tx() + concat_txns(read_txns(a, rem)));

                assert(data@.take(index as int) =~= entry_data.take(index as int));
                lemma_read_resp_snoc(data@, index as int);
                assert(old(self).rx() + read_resp(data@.take(index as int))
                    + seq![UART_ACK, UART_ACK, UART_ACK]
                    + data@.subrange(index as int, index + c)
                    =~= old(self).rx() + read_resp(data@.take(index + c)));
                assert(self.rx() =~= old(self).rx() + read_resp(data@.take(index + c)));

                assert forall|j: int| 0 <= j < data@.len() - (index + c) implies
                    #[trigger] entry_data.skip((index + c) as int)[j]
                        == old(data)@.skip((index + c) as int)[j] by {
                    assert(entry_data.skip(index as int)[j + c]
                        == old(data)@.skip(index as int)[j + c]);
                };
                assert(entry_data.skip((index + c) as int)
                    =~= old(data)@.skip((index + c) as int));
                assert(data@.skip((index + c) as int) =~= old(data)@.skip((index + c) as int));
            }
            index = index + c;
        }

        proof {
            assert(data@.take(total as int) =~= data@);
            assert(concat_txns(read_txns((addr + total) as u32, 0)) == Seq::<u8>::empty());
            assert(self.tx() + Seq::<u8>::empty() =~= self.tx());
        }
        Ok(())
    }

    /// Write a memory range starting at `addr` from `data`: the range is
    /// chunked into blocks of `CHUNK_SIZE` bytes, each issued at its
    /// running address and individually acknowledged.
    pub fn write(&mut self, addr: u32, data: &[u8]) -> (r: Result<(), Error<E>>)
        requires
            old(self).polls(),
            addr + data@.len() <= 0x1_0000_0000,
        ensures
            match r {
                Ok(()) => Self::frame_step(*old(self), *final(self))
                    && final(self).tx() == old(self).tx() + concat_txns(write_txns(addr, data@))
                    && final(self).rx() == old(self).rx()
                        + acks(3 * write_txns(addr, data@).len()),
                Err(e) => Self::err_step(*old(self), *final(self), e,
                        concat_txns(write_txns(addr, data@))) && !(e is BufferLength),
            },
    {
        let total = data.len();
        let mut index: usize = 0;
        let ghost mut done: nat = 0nat;

        proof {
            assert(data@.skip(0int) =~= data@);
            assert(acks(0) =~= Seq::<u8>::empty());
            assert(old(self).rx() + acks(0) =~= old(self).rx());
        }

        while index < total
            invariant
                total == data@.len(),
                index <= total,
                index % CHUNK_SIZE == 0 || index == total,
                addr + total <= 0x1_0000_0000,
                old(self).polls(),
                Self::frame_step(*old(self), *self),
                old(self).tx().len() <= self.tx().len(),
                old(self).tx() + concat_txns(write_txns(addr, data@))
                    == self.tx()
                        + concat_txns(write_txns((addr + index) as u32, data@.skip(index as int))),
                write_txns(addr, data@).len()
                    == done + write_txns((addr + index) as u32, data@.skip(index as int)).len(),
                self.rx() == old(self).rx() + acks(3 * done),
            decreases total - index,
        {
            let c = if total - index < CHUNK_SIZE {
                total - index
            } else {
                CHUNK_SIZE
            };
            let a = addr + index as u32;
            let ghost entry = *self;
            let chunk = &data[index..index + c];

            match self.write_mem_block(a, chunk) {
                Ok(()) => {},
                Err(e) => {
                    proof {
                        assert(entry.rx() =~= self.rx().subrange(0, entry.rx().len() as int));
                        assert(old(self).rx()
                            =~= self.rx().subrange(0, old(self).rx().len() as int));

                        let plan = concat_txns(write_txns(addr, data@));
                        let rem = data@.skip(index as int);
                        let block = write_block_tx(a, chunk@);
                        assert(chunk@ =~= rem.take(c as int));
                        if rem.len() <= CHUNK_SIZE {
                            assert(chunk@ =~= rem);
                        }
                        assert(data@.skip(index + c) =~= rem.skip(c as int));
                        assert(write_txns(a, rem)
                            =~= seq![block]
                                + write_txns(((a + c) as u32), data@.skip(index + c)));
                        lemma_concat_cons(block, write_txns(((a + c) as u32), data@.skip(index + c)));
                        let remcat = concat_txns(write_txns(a, rem));
                        assert forall|k: int| 0 <= k < self.tx().len() implies
                            #[trigger] self.tx()[k] == (old(self).tx() + plan)[k] by {
                            assert(self.tx()[k] == (entry.tx() + block)[k]);
                            assert(old(self).tx() + plan == entry.tx() + remcat);
                            if k < entry.tx().len() {
                                assert((entry.tx() + remcat)[k] == entry.tx()[k]);
                            } else {
                                assert((entry.tx() + remcat)[k]
                                    == remcat[k - entry.tx().len() as int]);
                            }
                        };
                        assert(a == (addr + index) as u32);
                        assert(old(self).tx() + plan == entry.tx() + remcat);
                        assert((old(self).tx() + plan).len()
                            == old(self).tx().len() + plan.len());
                        assert((entry.tx() + remcat).len()
                            == entry.tx().len() + remcat.len());
                        assert(old(self).tx().len() + plan.len()
                            == entry.tx().len() + remcat.len());
                        assert(remcat.len() >= block.len());
                        assert(self.tx().len() <= old(self).tx().len() + plan.len());
                        assert(emitted_prefix(old(self).tx(), self.tx(), plan));
                    }
                    return Err(e);
                },
            }

            proof {
                let rem = data@.skip(index as int);
                let block = write_block_tx(a, chunk@);
                assert(chunk@ =~= rem.take(c as int));
                if rem.len() <= CHUNK_SIZE {
                    assert(chunk@ =~= rem);
                }
                assert(data@.skip(index + c) =~= rem.skip(c as int));
                assert(write_txns(a, rem)
                    =~= seq![block] + write_txns((a + c) as u32, data@.skip(index + c)));
                lemma_concat_cons(block, write_txns((a + c) as u32, data@.skip(index + c)));
                assert(self.tx() + concat_txns(write_txns((a + c) as u32, data@.skip(index + c)))
                    =~= entry.tx() + concat_txns(write_txns(a, rem)));
                assert((old(self).rx() + acks(3 * done)) + acks(3)
                    =~= old(self).rx() + acks(3 * (done + 1)));
                done = done + 1;
            }
            index = index + c;
        }

        proof {
            assert(data@.skip(total as int) =~= Seq::<u8>::empty());
            assert(write_txns((addr + total) as u32, Seq::<u8>::empty()).len() == 0);
            assert(concat_txns(write_txns((addr + total) as u32, Seq::<u8>::empty()))
                == Seq::<u8>::empty());
            assert(self.tx() + Seq::<u8>::empty() =~= self.tx());
        }
        Ok(())
    }
}

} // verus!
