//! End-to-end scenarios against a faithful in-memory bootloader simulator.
//!
//! The simulator implements the library's serial-port contract in plain
//! Rust: it parses each flushed request, keeps a flash image, and answers
//! as an AN3155 bootloader would.

use stm32_uart_loader::CountingDelay;
use stm32_uart_loader::Error;
use stm32_uart_loader::Line;
use stm32_uart_loader::NbError;
use stm32_uart_loader::Options;
use stm32_uart_loader::Programmer;
use stm32_uart_loader::SerialPort;

const ACK: u8 = 0x79;
const NACK: u8 = 0x1F;
const GET_PAYLOAD: [u8; 12] = [
    0x31, 0x00, 0x01, 0x02, 0x11, 0x21, 0x31, 0x43, 0x63, 0x73, 0x82, 0x92,
];

#[derive(Clone, Copy, PartialEq)]
enum SimState {
    Idle,
    ReadAddr,
    ReadLen(u32),
    WriteAddr,
    WriteData(u32),
    EraseBody,
}

struct SimPort {
    base: u32,
    flash: Vec<u8>,
    state: SimState,
    pending: Vec<u8>,
    inbox: Vec<u8>,
    cursor: usize,
    protected: bool,
    discovery_reply: Option<u8>,
}

impl SimPort {
    fn new(base: u32, size: usize) -> SimPort {
        SimPort {
            base,
            flash: vec![0xFF; size],
            state: SimState::Idle,
            pending: Vec::new(),
            inbox: Vec::new(),
            cursor: 0,
            protected: false,
            discovery_reply: Some(ACK),
        }
    }

    fn reply(&mut self, bytes: &[u8]) {
        self.inbox.extend_from_slice(bytes);
    }

    fn addr_of(frame: &[u8]) -> Option<u32> {
        if frame.len() != 5 {
            return None;
        }
        let csum = frame[0] ^ frame[1] ^ frame[2] ^ frame[3];
        if csum != frame[4] {
            return None;
        }
        Some(u32::from_be_bytes([frame[0], frame[1], frame[2], frame[3]]))
    }

    fn process(&mut self) {
        let frame = std::mem::take(&mut self.pending);
        if frame.is_empty() {
            return;
        }
        match self.state {
            SimState::Idle => {
                if frame == [0x7F] {
                    if let Some(b) = self.discovery_reply {
                        self.reply(&[b]);
                    }
                } else if frame.len() == 2 && frame[1] == !frame[0] {
                    match frame[0] {
                        0x00 => {
                            self.reply(&[ACK, (GET_PAYLOAD.len() - 1) as u8]);
                            self.reply(&GET_PAYLOAD);
                            self.reply(&[ACK]);
                        }
                        0x02 => {
                            self.reply(&[ACK, 0x01, 0x10, 0x04, ACK]);
                        }
                        0x11 => {
                            if self.protected {
                                self.reply(&[NACK]);
                            } else {
                                self.reply(&[ACK]);
                                self.state = SimState::ReadAddr;
                            }
                        }
                        0x31 => {
                            self.reply(&[ACK]);
                            self.state = SimState::WriteAddr;
                        }
                        0x43 => {
                            self.reply(&[ACK]);
                            self.state = SimState::EraseBody;
                        }
                        _ => {
                            self.reply(&[NACK]);
                        }
                    }
                } else {
                    self.reply(&[NACK]);
                }
            }
            SimState::ReadAddr => match SimPort::addr_of(&frame) {
                Some(addr) => {
                    self.reply(&[ACK]);
                    self.state = SimState::ReadLen(addr);
                }
                None => {
                    self.reply(&[NACK]);
                    self.state = SimState::Idle;
                }
            },
            SimState::ReadLen(addr) => {
                if frame.len() == 2 && frame[1] == !frame[0] {
                    let count = frame[0] as usize + 1;
                    let off = (addr - self.base) as usize;
                    self.reply(&[ACK]);
                    let bytes = self.flash[off..off + count].to_vec();
                    self.reply(&bytes);
                } else {
                    self.reply(&[NACK]);
                }
                self.state = SimState::Idle;
            }
            SimState::WriteAddr => match SimPort::addr_of(&frame) {
                Some(addr) => {
                    self.reply(&[ACK]);
                    self.state = SimState::WriteData(addr);
                }
                None => {
                    self.reply(&[NACK]);
                    self.state = SimState::Idle;
                }
            },
            SimState::WriteData(addr) => {
                let ok = frame.len() >= 3 && {
                    let count = frame[0] as usize + 1;
                    frame.len() == count + 2
                        && frame[1..].iter().fold(frame[0], |a, b| a ^ b) == 0
                };
                if ok {
                    let count = frame[0] as usize + 1;
                    let off = (addr - self.base) as usize;
                    self.flash[off..off + count].copy_from_slice(&frame[1..1 + count]);
                    self.reply(&[ACK]);
                } else {
                    self.reply(&[NACK]);
                }
                self.state = SimState::Idle;
            }
            SimState::EraseBody => {
                if frame == [0xFF, 0x00] {
                    self.flash.fill(0xFF);
                    self.reply(&[ACK]);
                } else if frame.len() >= 3
                    && frame.len() == frame[0] as usize + 3
                    && frame[1..frame.len() - 1].iter().fold(0u8, |a, b| a ^ b)
                        == frame[frame.len() - 1]
                {
                    self.reply(&[ACK]);
                } else {
                    self.reply(&[NACK]);
                }
                self.state = SimState::Idle;
            }
        }
    }
}

impl SerialPort<()> for SimPort {
    // The ghost views exist only for verification and are never called at
    // run time.
    fn tx(&self) -> vstd::prelude::Seq<u8> {
        unreachable!()
    }

    fn rx(&self) -> vstd::prelude::Seq<u8> {
        unreachable!()
    }

    fn rts(&self) -> bool {
        unreachable!()
    }

    fn dtr(&self) -> bool {
        unreachable!()
    }

    fn line_log(&self) -> vstd::prelude::Seq<(Line, bool)> {
        unreachable!()
    }

    fn write_byte(&mut self, byte: u8) -> Result<(), ()> {
        self.pending.push(byte);
        Ok(())
    }

    fn flush(&mut self) -> Result<(), ()> {
        self.process();
        Ok(())
    }

    fn read_nb(&mut self) -> Result<u8, NbError<()>> {
        if self.cursor < self.inbox.len() {
            let b = self.inbox[self.cursor];
            self.cursor += 1;
            Ok(b)
        } else {
            Err(NbError::WouldBlock)
        }
    }

    fn set_rts(&mut self, _level: bool) -> Result<(), ()> {
        Ok(())
    }

    fn set_dtr(&mut self, _level: bool) -> Result<(), ()> {
        Ok(())
    }
}

fn sim_programmer(base: u32, size: usize) -> Programmer<SimPort, CountingDelay, ()> {
    let port = SimPort::new(base, size);
    let delay = CountingDelay::new();
    let options = Options {
        no_reset: false,
        response_timeout_ms: 100,
        poll_delay_ms: 10,
        init_delay_ms: 100,
    };
    Programmer::new(port, delay, options).unwrap()
}

#[test]
fn connect_and_identify() {
    // Programmer::new runs reset, discovery and the Get probe; a further
    // Get returns the bootloader version.
    let mut p = sim_programmer(0x0800_0000, 1024);
    let version = p.info().unwrap();
    assert_eq!(version, 0x31);
}

#[test]
fn two_gets_yield_identical_payloads() {
    let mut p = sim_programmer(0x0800_0000, 1024);
    let first = p.info().unwrap();
    let second = p.info().unwrap();
    assert_eq!(first, second);
}

#[test]
fn write_then_read_round_trips() {
    let mut p = sim_programmer(0x0800_0000, 2048);
    let data: Vec<u8> = (0..300).map(|i| (i * 7 % 256) as u8).collect();

    p.write(0x0800_0100, &data).unwrap();

    let mut out = vec![0u8; 300];
    p.read(0x0800_0100, &mut out).unwrap();
    assert_eq!(out, data);
}

#[test]
fn short_write_then_read_round_trips() {
    let mut p = sim_programmer(0x2000_0000, 256);
    let data = vec![0xDE, 0xAD, 0xBE, 0xEF];
    p.write(0x2000_0010, &data).unwrap();

    let mut out = vec![0u8; 4];
    p.read(0x2000_0010, &mut out).unwrap();
    assert_eq!(out, data);
}

#[test]
fn mass_erase_resets_flash() {
    let mut p = sim_programmer(0x0800_0000, 64);
    p.write(0x0800_0000, &[1, 2, 3, 4]).unwrap();
    p.erase_all().unwrap();

    let mut out = vec![0u8; 4];
    p.read(0x0800_0000, &mut out).unwrap();
    assert_eq!(out, vec![0xFF; 4]);
}

#[test]
fn chip_id_through_simulator() {
    let mut p = sim_programmer(0x0800_0000, 64);
    assert_eq!(p.chip_id().unwrap(), 0x0410);
}

/// A transport that fails every operation.
struct DeadPort;

impl SerialPort<u8> for DeadPort {
    fn tx(&self) -> vstd::prelude::Seq<u8> {
        unreachable!()
    }

    fn rx(&self) -> vstd::prelude::Seq<u8> {
        unreachable!()
    }

    fn rts(&self) -> bool {
        unreachable!()
    }

    fn dtr(&self) -> bool {
        unreachable!()
    }

    fn line_log(&self) -> vstd::prelude::Seq<(Line, bool)> {
        unreachable!()
    }

    fn write_byte(&mut self, _byte: u8) -> Result<(), u8> {
        Err(7)
    }

    fn flush(&mut self) -> Result<(), u8> {
        Err(7)
    }

    fn read_nb(&mut self) -> Result<u8, NbError<u8>> {
        Err(NbError::Other(9))
    }

    fn set_rts(&mut self, _level: bool) -> Result<(), u8> {
        Err(7)
    }

    fn set_dtr(&mut self, _level: bool) -> Result<(), u8> {
        Err(7)
    }
}

#[test]
fn transport_failures_surface_as_serial_errors() {
    let mut p = Programmer {
        options: Options::default(),
        port: DeadPort,
        delay: CountingDelay::new(),
        _err: std::marker::PhantomData,
    };
    assert_eq!(p.erase_all(), Err(Error::Serial(7)));
    assert_eq!(p.read_char(), Err(Error::Serial(9)));
    assert_eq!(p.reset(true), Err(Error::Serial(7)));
}

#[test]
fn default_options_match_the_documented_knobs() {
    let o = Options::default();
    assert!(!o.no_reset);
    assert_eq!(o.response_timeout_ms, 100);
    assert_eq!(o.poll_delay_ms, 10);
    assert_eq!(o.init_delay_ms, 100);
}

#[test]
fn protected_read_is_refused_and_buffer_kept() {
    let mut p = sim_programmer(0x0800_0000, 64);
    p.port.protected = true;

    let mut out = vec![0x55; 16];
    assert!(matches!(p.read(0x0800_0000, &mut out), Err(Error::Nack)));
    assert_eq!(out, vec![0x55; 16]);
}

#[test]
fn withheld_discovery_ack_is_absorbed() {
    // The simulator stays silent after the sync byte; construction still
    // succeeds because the Get probe is the real liveness check.
    let mut port = SimPort::new(0x0800_0000, 64);
    port.discovery_reply = None;
    let options = Options {
        no_reset: false,
        response_timeout_ms: 100,
        poll_delay_ms: 10,
        init_delay_ms: 100,
    };
    let mut p = Programmer::new(port, CountingDelay::new(), options).unwrap();
    // the discovery poll ran into its full timeout budget before the probe
    assert!(p.delay.slept_ms >= 110);
    assert_eq!(p.info().unwrap(), 0x31);
}

#[test]
fn wrong_discovery_byte_is_absorbed() {
    let mut port = SimPort::new(0x0800_0000, 64);
    port.discovery_reply = Some(0x42);
    let options = Options {
        no_reset: false,
        response_timeout_ms: 100,
        poll_delay_ms: 10,
        init_delay_ms: 100,
    };
    let mut p = Programmer::new(port, CountingDelay::new(), options).unwrap();
    assert_eq!(p.info().unwrap(), 0x31);
}
