//! Wire-format scenarios driven over a scripted port: every byte the engine
//! emits is checked against the AN3155 framing.

use std::marker::PhantomData;

use stm32_uart_loader::Command;
use stm32_uart_loader::CountingDelay;
use stm32_uart_loader::Error;
use stm32_uart_loader::Line;
use stm32_uart_loader::Options;
use stm32_uart_loader::Programmer;
use stm32_uart_loader::ScriptedPort;

const ACK: u8 = 0x79;
const NACK: u8 = 0x1F;

fn scripted(script: Vec<u8>) -> Programmer<ScriptedPort, CountingDelay, ()> {
    Programmer {
        options: Options {
            no_reset: false,
            response_timeout_ms: 100,
            poll_delay_ms: 10,
            init_delay_ms: 100,
        },
        port: ScriptedPort::new(script),
        delay: CountingDelay::new(),
        _err: PhantomData,
    }
}

fn xor(data: &[u8]) -> u8 {
    data.iter().fold(0, |a, b| a ^ b)
}

#[test]
fn cmd_preamble_is_opcode_and_complement() {
    let all = [
        (Command::Get, 0x00),
        (Command::GetVersionReadStatus, 0x01),
        (Command::GetId, 0x02),
        (Command::ReadMemory, 0x11),
        (Command::Go, 0x21),
        (Command::WriteMemory, 0x31),
        (Command::Erase, 0x43),
        (Command::ExtendedErase, 0x44),
        (Command::WriteProtect, 0x63),
        (Command::WriteUnprotect, 0x73),
        (Command::ReadoutProtect, 0x82),
        (Command::ReadoutUnprotect, 0x92),
    ];
    for (cmd, op) in all {
        let mut p = scripted(vec![]);
        assert_eq!(cmd.opcode(), op);
        p.write_cmd(cmd).unwrap();
        assert_eq!(p.port.sent, vec![op, 0xFF ^ op]);
    }
}

#[test]
fn csum_write_appends_xor_of_all_bytes() {
    let cases: [&[u8]; 4] = [&[0x00], &[0x12, 0x34], &[0xFF, 0xFF, 0xFF], &[1, 2, 3, 4, 5]];
    for data in cases {
        let mut p = scripted(vec![]);
        p.write_bytes_csum(data).unwrap();
        let mut expect = data.to_vec();
        expect.push(xor(data));
        assert_eq!(p.port.sent, expect);
    }
}

#[test]
fn address_is_big_endian_with_xor() {
    let mut p = scripted(vec![]);
    p.write_addr_csum(0x0800_4321).unwrap();
    assert_eq!(p.port.sent, vec![0x08, 0x00, 0x43, 0x21, 0x08 ^ 0x43 ^ 0x21]);

    let mut p = scripted(vec![]);
    p.write_addr_csum(0xFFFF_FFFF).unwrap();
    assert_eq!(p.port.sent, vec![0xFF, 0xFF, 0xFF, 0xFF, 0x00]);
}

#[test]
fn read_ten_bytes_wire_trace() {
    let payload: Vec<u8> = (1..=10).collect();
    let mut script = vec![ACK, ACK, ACK];
    script.extend_from_slice(&payload);
    let mut p = scripted(script);

    let mut out = vec![0u8; 10];
    p.read(0x0800_0000, &mut out).unwrap();

    assert_eq!(out, payload);
    assert_eq!(
        p.port.sent,
        vec![0x11, 0xEE, 0x08, 0x00, 0x00, 0x00, 0x08, 0x09, 0xF6]
    );
}

#[test]
fn one_byte_block_encodes_len_zero() {
    let mut p = scripted(vec![ACK, ACK, ACK]);
    p.write_mem_block(0x0800_0000, &[0xAB]).unwrap();
    // preamble, address frame, len = 0, data, checksum over len and data
    assert_eq!(
        p.port.sent,
        vec![0x31, 0xCE, 0x08, 0x00, 0x00, 0x00, 0x08, 0x00, 0xAB, 0xAB]
    );

    let mut p = scripted(vec![ACK, ACK, ACK, 0x5A]);
    let mut out = vec![0u8; 1];
    p.read(0x0800_0000, &mut out).unwrap();
    assert_eq!(out, vec![0x5A]);
    assert_eq!(p.port.sent[7..9], [0x00, 0xFF]);
}

#[test]
fn full_block_of_256_bytes_is_one_transaction() {
    let data: Vec<u8> = (0..256).map(|i| (i % 251) as u8).collect();
    let mut p = scripted(vec![ACK, ACK, ACK]);
    p.write_mem_block(0x2000_0000, &data).unwrap();

    let sent = &p.port.sent;
    // one transaction: preamble (2) + address frame (5) + len + data + csum
    assert_eq!(sent.len(), 2 + 5 + 1 + 256 + 1);
    assert_eq!(sent[0..2], [0x31, 0xCE]);
    assert_eq!(sent[2..7], [0x20, 0x00, 0x00, 0x00, 0x20]);
    assert_eq!(sent[7], 0xFF);
    assert_eq!(sent[8..264], data[..]);
    assert_eq!(sent[264], 0xFF ^ xor(&data));
}

#[test]
fn range_of_257_bytes_is_chunked() {
    let data: Vec<u8> = (0..257).map(|i| (i % 7) as u8).collect();
    // three chunks of 128, 128 and 1 bytes, three ACKs each
    let mut p = scripted(vec![ACK; 9]);
    p.write(0x0800_0000, &data).unwrap();

    let sent = &p.port.sent;
    let block = |payload: usize| 2 + 5 + 1 + payload + 1;
    assert_eq!(sent.len(), block(128) + block(128) + block(1));
}

#[test]
fn write_300_bytes_makes_three_blocks_at_running_addresses() {
    let data: Vec<u8> = (0..300).map(|i| (i % 13) as u8).collect();
    let mut p = scripted(vec![ACK; 9]);
    p.write(0x0800_4000, &data).unwrap();

    let sent = &p.port.sent;
    let b1 = 0;
    let b2 = 2 + 5 + 1 + 128 + 1;
    let b3 = 2 * b2;
    assert_eq!(sent.len(), b3 + 2 + 5 + 1 + 44 + 1);

    assert_eq!(sent[b1..b1 + 7], [0x31, 0xCE, 0x08, 0x00, 0x40, 0x00, 0x48]);
    assert_eq!(sent[b1 + 7], 127);
    assert_eq!(sent[b1 + 8..b1 + 136], data[0..128]);

    assert_eq!(sent[b2..b2 + 7], [0x31, 0xCE, 0x08, 0x00, 0x40, 0x80, 0xC8]);
    assert_eq!(sent[b2 + 7], 127);
    assert_eq!(sent[b2 + 8..b2 + 136], data[128..256]);

    assert_eq!(
        sent[b3..b3 + 7],
        [0x31, 0xCE, 0x08, 0x00, 0x41, 0x00, 0x49]
    );
    assert_eq!(sent[b3 + 7], 43);
    assert_eq!(sent[b3 + 8..b3 + 52], data[256..300]);
}

#[test]
fn selective_erase_of_pages_three_to_seven() {
    let mut p = scripted(vec![ACK, ACK]);
    p.erase(3, 5).unwrap();
    assert_eq!(
        p.port.sent,
        vec![0x43, 0xBC, 0x04, 0x03, 0x04, 0x05, 0x06, 0x07, 0x03]
    );
}

#[test]
fn erase_pages_by_explicit_list() {
    let mut p = scripted(vec![ACK, ACK]);
    p.erase_pages(&[0x01, 0x0A]).unwrap();
    assert_eq!(p.port.sent, vec![0x43, 0xBC, 0x01, 0x01, 0x0A, 0x0B]);
}

#[test]
fn mass_erase_wire_trace() {
    let mut p = scripted(vec![ACK, ACK]);
    p.erase_all().unwrap();
    assert_eq!(p.port.sent, vec![0x43, 0xBC, 0xFF, 0x00]);
}

#[test]
fn go_emits_preamble_and_address() {
    let mut p = scripted(vec![ACK, ACK]);
    p.go(0x0800_0000).unwrap();
    assert_eq!(
        p.port.sent,
        vec![0x21, 0xDE, 0x08, 0x00, 0x00, 0x00, 0x08]
    );
}

#[test]
fn protection_commands_take_two_acks() {
    let mut p = scripted(vec![ACK, ACK]);
    p.write_unprotect().unwrap();
    assert_eq!(p.port.sent, vec![0x73, 0x8C]);
    assert_eq!(p.port.delivered, 2);

    let mut p = scripted(vec![ACK]);
    assert!(matches!(p.readout_protect(), Err(Error::Timeout)));
}

#[test]
fn info_declared_payload_beyond_buffer_is_refused_early() {
    // n = 0x0C declares 13 payload bytes, beyond the 12-byte buffer; the
    // failure comes before any payload byte is consumed.
    let mut p = scripted(vec![ACK, 0x0C, 0xAA, 0xBB]);
    assert!(matches!(p.info(), Err(Error::BufferLength)));
    assert_eq!(p.port.delivered, 2);
}

#[test]
fn timeout_after_accumulated_sleep() {
    let mut p = scripted(vec![]);
    assert!(matches!(p.read_char(), Err(Error::Timeout)));
    // ten polls of 10 ms pass the 100 ms budget, one more exceeds it
    assert_eq!(p.delay.slept_ms, 110);
    assert_eq!(p.port.delivered, 0);
}

#[test]
fn nack_on_protected_read_leaves_buffer_untouched() {
    let mut p = scripted(vec![NACK]);
    let mut out = vec![0xEE; 8];
    assert!(matches!(p.read(0x0800_0000, &mut out), Err(Error::Nack)));
    assert_eq!(out, vec![0xEE; 8]);
    assert_eq!(p.port.sent, vec![0x11, 0xEE]);
}

#[test]
fn unexpected_byte_is_invalid_response() {
    let mut p = scripted(vec![0x42]);
    assert!(matches!(p.erase_all(), Err(Error::InvalidResponse)));
}

#[test]
fn chip_id_assembles_little_endian() {
    let mut p = scripted(vec![ACK, 0x01, 0x10, 0x04, ACK]);
    let id = p.chip_id().unwrap();
    assert_eq!(id, 0x0410);
    assert_eq!(p.port.sent, vec![0x02, 0xFD]);
}

#[test]
fn reset_sequence_toggles_lines_and_waits() {
    let mut p = scripted(vec![]);
    p.reset(true).unwrap();
    assert!(!p.port.rts_line);
    assert!(!p.port.dtr_line);
    assert_eq!(p.delay.slept_ms, 10 + 100);
    assert!(p.port.sent.is_empty());
}

#[test]
fn extended_selective_erase_uses_two_byte_indices() {
    let mut p = scripted(vec![ACK, ACK]);
    p.extended_erase_pages(&[3, 4, 5]).unwrap();
    assert_eq!(
        p.port.sent,
        vec![0x44, 0xBB, 0x00, 0x02, 0x00, 0x03, 0x00, 0x04, 0x00, 0x05, 0x00]
    );
}

#[test]
fn extended_mass_erase_uses_the_special_code() {
    let mut p = scripted(vec![ACK, ACK]);
    p.extended_erase_all().unwrap();
    assert_eq!(p.port.sent, vec![0x44, 0xBB, 0xFF, 0xFF, 0x00]);
}

#[test]
fn bootloader_reset_drives_the_pins_in_order() {
    let mut p = scripted(vec![]);
    p.reset(true).unwrap();
    // RTS asserted, DTR raised before RTS is released, DTR dropped last
    assert_eq!(
        p.port.line_events,
        vec![
            (Line::Rts, true),
            (Line::Dtr, true),
            (Line::Rts, false),
            (Line::Dtr, false),
        ]
    );
}

#[test]
fn application_reset_never_touches_dtr() {
    let mut p = scripted(vec![]);
    p.reset(false).unwrap();
    assert_eq!(p.port.line_events, vec![(Line::Rts, true), (Line::Rts, false)]);
}

#[test]
fn no_reset_option_leaves_the_lines_alone() {
    // a full connect script: discovery ack, then the Get exchange
    let mut script = vec![ACK, ACK, 0x0B];
    script.extend_from_slice(&[
        0x31, 0x00, 0x01, 0x02, 0x11, 0x21, 0x31, 0x43, 0x63, 0x73, 0x82, 0x92,
    ]);
    script.push(ACK);

    let options = Options {
        no_reset: true,
        response_timeout_ms: 100,
        poll_delay_ms: 10,
        init_delay_ms: 100,
    };
    let p = Programmer::new(ScriptedPort::new(script), CountingDelay::new(), options).unwrap();
    assert!(p.port.line_events.is_empty());
    assert_eq!(p.port.sent, vec![0x7F, 0x00, 0xFF]);
}
