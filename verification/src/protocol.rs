//! Protocol constants and the AN3155 command set.

use vstd::prelude::*;

verus! {

/// Synchronisation byte: the bootloader measures the host baud rate from it.
pub const UART_DISC: u8 = 0x7F;

/// Positive acknowledgement.
pub const UART_ACK: u8 = 0x79;

/// Negative acknowledgement.
pub const UART_NACK: u8 = 0x1F;

/// Largest payload of a single memory block transaction.
pub const MAX_CHUNK: usize = 256;

#[derive(Debug, PartialEq, Eq, Structural, Clone, Copy)]
pub enum Command {
    /// Fetch bootloader version and allowed commands
    Get,
    /// Gets the bootloader version and the Read Protection status of the Flash memory.
    GetVersionReadStatus,
    /// Gets the chip ID
    GetId,
    /// Reads up to 256 bytes of memory starting from an address specified by the application.
    ReadMemory,
    /// Jumps to user application code located in the internal Flash memory or in the SRAM.
    Go,
    /// Writes up to 256 bytes to the RAM or Flash memory starting from an address specified by the application.
    WriteMemory,
    /// Erases from one to all the Flash memory pages.
    Erase,
    /// Erases from one to all the Flash memory pages using two byte addressing mode (available only for v3.0 USART bootloader versions and above).
    ExtendedErase,
    /// Enables the write protection for some sectors.
    WriteProtect,
    /// Disables the write protection for all Flash memory sectors
    WriteUnprotect,
    /// Enables the read protection
    ReadoutProtect,
    /// Disables the read protection.
    ReadoutUnprotect,
}

impl Command {
    /// The one-byte opcode of this command on the wire.
    pub open spec fn spec_opcode(self) -> u8 {
        match self {
            Command::Get => 0x00,
            Command::GetVersionReadStatus => 0x01,
            Command::GetId => 0x02,
            Command::ReadMemory => 0x11,
            Command::Go => 0x21,
            Command::WriteMemory => 0x31,
            Command::Erase => 0x43,
            Command::ExtendedErase => 0x44,
            Command::WriteProtect => 0x63,
            Command::WriteUnprotect => 0x73,
            Command::ReadoutProtect => 0x82,
            Command::ReadoutUnprotect => 0x92,
        }
    }

    #[verifier::when_used_as_spec(spec_opcode)]
    pub fn opcode(self) -> (r: u8)
        ensures
            r == self.spec_opcode(),
    {
        match self {
            Command::Get => 0x00,
            Command::GetVersionReadStatus => 0x01,
            Command::GetId => 0x02,
            Command::ReadMemory => 0x11,
            Command::Go => 0x21,
            Command::WriteMemory => 0x31,
            Command::Erase => 0x43,
            Command::ExtendedErase => 0x44,
            Command::WriteProtect => 0x63,
            Command::WriteUnprotect => 0x73,
            Command::ReadoutProtect => 0x82,
            Command::ReadoutUnprotect => 0x92,
        }
    }
}

} // verus!
