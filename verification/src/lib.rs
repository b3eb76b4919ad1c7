//! Host-side driver for the STM32 USART bootloader protocol (AN3155).
//!
//! The engine speaks the bootloader's framed byte protocol over an abstract
//! serial transport: command preambles with complement bytes, XOR-checksummed
//! payloads, big-endian addresses, and ACK/NACK arbitration with polled
//! timeouts.

pub mod parse;
pub mod programmer;
pub mod protocol;
pub mod script;
pub mod transport;
pub mod wire;

pub use parse::u32_from_hex;
pub use programmer::Error;
pub use programmer::Options;
pub use programmer::Programmer;
pub use protocol::Command;
pub use protocol::MAX_CHUNK;
pub use protocol::UART_ACK;
pub use protocol::UART_DISC;
pub use protocol::UART_NACK;
pub use script::CountingDelay;
pub use script::ScriptedPort;
pub use transport::Delay;
pub use transport::Line;
pub use transport::NbError;
pub use transport::SerialPort;
pub use vstd::prelude::nat;
pub use vstd::prelude::Seq;
