use std::collections::VecDeque;

use sat_decoder::codec::{ChannelFrame, ChannelInfo, ChannelPassword, ChannelPasswords};
use sat_decoder::directory::{channel_subscriptions, read_channel, upsert};
use sat_decoder::flash::{FlashError, FlashManager, FlashManagerError, BASE_ADDRESS};
use sat_decoder::hostcom::{
    packet_plan, read_body, write_ack, write_channel, write_debug, write_error, Console,
    HeaderScanner, MessageHeader, MsgType, UartHalOps,
};
use sat_decoder::keytree::build_path;

struct MockUart {
    input: VecDeque<u8>,
    output: Vec<u8>,
}

fn console(input: &[u8]) -> Console<MockUart> {
    Console::new(MockUart { input: input.iter().copied().collect(), output: Vec::new() })
}

impl UartHalOps for MockUart {
    fn read_byte(&mut self) -> u8 {
        self.input.pop_front().expect("host sent nothing more")
    }

    fn write_byte(&mut self, byte: u8) {
        self.output.push(byte);
    }
}

#[test]
fn ack_and_error_packets() {
    let mut uart = console(&[]);
    assert_eq!(write_ack(&mut uart), 0);
    assert_eq!(write_error(&mut uart), 0);
    assert_eq!(uart.uart().output, vec![0x25, 0x41, 0, 0, 0x25, 0x45, 0, 0]);
}

#[test]
fn body_is_read_in_acknowledged_chunks() {
    let data: Vec<u8> = (0..300u32).map(|i| i as u8).collect();
    let mut uart = console(&data);
    let body = read_body(&mut uart, 300);
    assert_eq!(body.length, 300);
    assert_eq!(body.data, data);
    assert_eq!(uart.uart().output, vec![0x25, 0x41, 0, 0, 0x25, 0x41, 0, 0]);
    let mut empty = console(&[]);
    let none = read_body(&mut empty, 0);
    assert!(none.data.is_empty());
    assert!(empty.uart().output.is_empty());
}

#[test]
fn debug_and_channel_writes() {
    let mut uart = console(&[]);
    write_debug(&mut uart, "hi");
    assert_eq!(uart.uart().output, vec![0x25, 0x47, 2, 0, b'h', b'i']);
    let mut uart = console(&[]);
    write_channel(&mut uart, &ChannelInfo { channel_id: 7, start_timestamp: 100, end_timestamp: 1000 });
    assert_eq!(
        uart.uart().output,
        vec![7, 0, 0, 0, 100, 0, 0, 0, 0, 0, 0, 0, 0xE8, 0x03, 0, 0, 0, 0, 0, 0]
    );
}

#[test]
fn header_scanner_resynchronizes() {
    let stream = [0x00, 0x13, 0x25, 0x4C, 0x34, 0x12, 0x25, 0x41, 0, 0];
    let mut scanner = HeaderScanner::new();
    let mut found = Vec::new();
    for b in stream {
        if let Some(h) = scanner.feed(b) {
            found.push(h);
        }
    }
    assert_eq!(
        found,
        vec![
            MessageHeader { magic: 0x25, opcode: 0x4C, length: 0x1234 },
            MessageHeader { magic: 0x25, opcode: 0x41, length: 0 },
        ]
    );
    assert!(!found[0].is_ack());
    assert!(found[1].is_ack());
}

#[test]
fn opcodes_round_trip() {
    for t in [MsgType::Decode, MsgType::Subscribe, MsgType::List, MsgType::Ack, MsgType::Debug, MsgType::Error] {
        assert_eq!(MsgType::try_from(t.opcode()), Ok(t));
    }
    assert_eq!(MsgType::List.opcode(), b'L');
    assert_eq!(MsgType::try_from(b'Z'), Err(()));
}

#[test]
fn packet_plan_chunks_and_acks() {
    let body: Vec<u8> = (0..600u32).map(|i| i as u8).collect();
    let plan = packet_plan(MsgType::Decode, &body);
    assert_eq!(plan.header, [0x25, 0x44, 0x58, 0x02]);
    assert!(plan.acked);
    assert_eq!(plan.chunks.len(), 3);
    assert_eq!(plan.chunks[0], body[..256].to_vec());
    assert_eq!(plan.chunks[2], body[512..].to_vec());
    let debug = packet_plan(MsgType::Debug, b"x");
    assert!(!debug.acked);
    assert_eq!(debug.chunks, vec![vec![b'x']]);
    let ack = packet_plan(MsgType::Ack, &[]);
    assert!(!ack.acked);
    assert!(ack.chunks.is_empty());
}

#[test]
fn info_layout() {
    let info = ChannelInfo { channel_id: 0x01020304, start_timestamp: 5, end_timestamp: u64::MAX };
    let bytes = info.to_bytes();
    assert_eq!(&bytes[..4], &[4, 3, 2, 1]);
    assert_eq!(&bytes[12..], &[0xFF; 8]);
    assert_eq!(ChannelInfo::from_bytes(&bytes), info);
}

#[test]
fn password_table_layout() {
    let mut table = ChannelPasswords::empty();
    table.contents[1] = ChannelPassword { node_trunc: 0x0102, node_ext: 2, password: [9; 16] };
    let bytes = table.to_bytes();
    assert_eq!(bytes.len(), 3200);
    assert_eq!(&bytes[25..34], &[2, 1, 0, 0, 0, 0, 0, 0, 2]);
    assert_eq!(&bytes[34..50], &[9; 16]);
    let back = ChannelPasswords::from_bytes(&bytes);
    assert_eq!(back.contents[1].node_trunc, 0x0102);
    assert_eq!(back.contents[1].node_ext, 2);
    assert_eq!(back.contents[2].node_ext, 0);
}

#[test]
fn frame_layout() {
    let f = ChannelFrame {
        channel: 2,
        timestamp: 0x0A0B,
        nonce: [1; 12],
        encrypted_content: [2; 64],
        signature: [3; 64],
    };
    let bytes = f.to_bytes();
    assert_eq!(bytes.len(), 152);
    assert_eq!(&bytes[..12], &[2, 0, 0, 0, 0x0B, 0x0A, 0, 0, 0, 0, 0, 0]);
    assert_eq!(bytes[88], 3);
    let g = ChannelFrame::from_bytes(&bytes);
    assert_eq!(g.timestamp, 0x0A0B);
    assert_eq!(g.signature, [3; 64]);
}

#[test]
fn flash_write_needs_erase() {
    let mut flash = FlashManager::new();
    assert_eq!(flash.read_magic(BASE_ADDRESS), Ok(0xFFFF_FFFF));
    assert_eq!(flash.write_data(BASE_ADDRESS, 0xABCD, &[1, 2, 3]), Ok(()));
    assert_eq!(flash.read_magic(BASE_ADDRESS), Ok(0xABCD));
    assert_eq!(flash.read_data(BASE_ADDRESS, 3), Ok(vec![1, 2, 3]));
    assert_eq!(&flash.image()[..16], &[0xCD, 0xAB, 0, 0, 1, 2, 3, 0, 0, 0, 0, 0, 0, 0, 0, 0]);
    assert_eq!(
        flash.write_data(BASE_ADDRESS, 0xFFFF, &[1]),
        Err(FlashManagerError::FlashError(FlashError::NeedsErase))
    );
    assert_eq!(flash.wipe_data(BASE_ADDRESS + 100), Ok(()));
    assert_eq!(flash.read_magic(BASE_ADDRESS), Ok(0xFFFF_FFFF));
}

#[test]
fn flash_address_checks() {
    let mut flash = FlashManager::new();
    assert_eq!(flash.read_magic(BASE_ADDRESS + 4), Err(FlashError::InvalidAddress));
    assert_eq!(flash.read_magic(BASE_ADDRESS - 16), Err(FlashError::InvalidAddress));
    assert_eq!(
        flash.write_data(BASE_ADDRESS + 0x10000 - 16, 0xABCD, &[0; 20]),
        Err(FlashManagerError::FlashError(FlashError::InvalidAddress))
    );
    assert_eq!(
        flash.wipe_data(BASE_ADDRESS + 0x10000),
        Err(FlashManagerError::FlashError(FlashError::InvalidAddress))
    );
    assert!(FlashManager::from_image(vec![0xFF; 10]).is_none());
    assert!(FlashManager::from_image(vec![0xFF; 0x10000]).is_some());
}

#[test]
fn directory_scan_stops_at_first_free_page() {
    let mut flash = FlashManager::new();
    let mut passwords = ChannelPasswords::empty();
    passwords.contents[0] = ChannelPassword { node_trunc: 0, node_ext: 2, password: [1; 16] };
    let sub = |id: u32| sat_decoder::codec::ChannelSubscription {
        info: ChannelInfo { channel_id: id, start_timestamp: 0, end_timestamp: 1 },
        passwords,
    };
    assert_eq!(upsert(&mut flash, &sub(5)), Ok(BASE_ADDRESS));
    assert_eq!(upsert(&mut flash, &sub(6)), Ok(BASE_ADDRESS + 0x2000));
    assert_eq!(upsert(&mut flash, &sub(5)), Ok(BASE_ADDRESS));
    let with_empty = channel_subscriptions(&flash, true);
    assert_eq!(with_empty.len(), 3);
    assert_eq!(with_empty[2], (BASE_ADDRESS + 0x4000, None));
    assert_eq!(read_channel(&flash, BASE_ADDRESS + 0x2000).unwrap().channel_id, 6);
}

#[test]
fn path_of_extreme_timestamps() {
    assert_eq!(build_path(0), [1u8; 64]);
    assert_eq!(build_path(u64::MAX), [2u8; 64]);
    let p = build_path(1u64 << 63 | 1);
    assert_eq!(p[0], 2);
    assert_eq!(p[1], 1);
    assert_eq!(p[63], 2);
}

#[test]
fn failed_write_keeps_earlier_blocks() {
    let mut flash = FlashManager::new();
    // Dirty the second block of the page so a 40-byte record fails there.
    assert_eq!(flash.write_data(BASE_ADDRESS + 16, 0x0000_0000, &[]), Ok(()));
    let before = flash.image().to_vec();
    assert_eq!(
        flash.write_data(BASE_ADDRESS, 0xABCD, &[7u8; 36]),
        Err(FlashManagerError::FlashError(FlashError::NeedsErase))
    );
    let after = flash.image();
    assert_eq!(&after[..6], &[0xCD, 0xAB, 0, 0, 7, 7]);
    assert_eq!(&after[16..], &before[16..]);
}

#[test]
fn records_longer_than_a_stack_buffer() {
    let mut flash = FlashManager::new();
    let data: Vec<u8> = (0..6000u32).map(|i| (i % 251) as u8).collect();
    assert_eq!(flash.write_data(BASE_ADDRESS, 0xABCD, &data), Ok(()));
    assert_eq!(flash.read_data(BASE_ADDRESS, 6000), Ok(data));
    assert_eq!(
        flash.read_data(BASE_ADDRESS + 0x10000 - 16, 100),
        Err(FlashManagerError::FlashError(FlashError::InvalidAddress))
    );
    assert_eq!(
        flash.write_data(BASE_ADDRESS, 0xABCD, &vec![0u8; 0x10000]),
        Err(FlashManagerError::FlashError(FlashError::InvalidAddress))
    );
}
