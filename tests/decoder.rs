use chacha20::cipher::{KeyIvInit, StreamCipher};
use chacha20::ChaCha20;
use ed25519_dalek::{Signer, SigningKey};
use md5::{Digest, Md5};
use sat_decoder::active::{validate_channel_timestamp, ActiveChannel, ActiveChannelsList};
use sat_decoder::channel_manager::{
    check_subscription_valid_and_store, decode_frame, DecodeError, DecoderSecrets,
};
use sat_decoder::codec::{
    ChannelFrame, ChannelInfo, ChannelPassword, ChannelPasswords, ChannelSubscription,
};
use sat_decoder::directory::{channel_subscriptions, get_subscription_addr, SubscriptionError};
use sat_decoder::dispatch::{handle_request, list_body};
use sat_decoder::flash::FlashManager;
use sat_decoder::hostcom::{MessageBody, MessageHeader, MsgType};
use sat_decoder::keytree::derive_frame_key;

const DECODER_ID: u32 = 0xDEADBEEF;
const DECODER_KEY: [u8; 32] = [0x11; 32];
const CHANNEL_0_PASSWORD: [u8; 16] = [0x5A; 16];

fn signing_key() -> SigningKey {
    SigningKey::from_bytes(&[7u8; 32])
}

fn host_key_der() -> Vec<u8> {
    let mut der = vec![
        0x30, 0x2a, 0x30, 0x05, 0x06, 0x03, 0x2b, 0x65, 0x70, 0x03, 0x21, 0x00,
    ];
    der.extend_from_slice(signing_key().verifying_key().as_bytes());
    der
}

fn root_password(password: [u8; 16]) -> ChannelPassword {
    ChannelPassword { node_trunc: 0, node_ext: 2, password }
}

fn secrets() -> DecoderSecrets {
    let mut passwords = ChannelPasswords::empty();
    passwords.contents[0] = root_password(CHANNEL_0_PASSWORD);
    DecoderSecrets {
        decoder_id: DECODER_ID,
        decoder_key: DECODER_KEY,
        host_key_pub: host_key_der(),
        channel_0: ChannelSubscription {
            info: ChannelInfo { channel_id: 0, start_timestamp: 0, end_timestamp: u64::MAX },
            passwords,
        },
    }
}

fn fresh_list() -> ActiveChannelsList {
    let mut l: ActiveChannelsList = [None; 9];
    l[0] = Some(ActiveChannel { channel_id: 0, last_frame: 0, received: false });
    l
}

fn md5(data: &[u8]) -> [u8; 16] {
    Md5::digest(data).into()
}

/// The broadcaster's key for `t`, from the password of the node at `depth`
/// above its leaf.
fn broadcaster_key(password: [u8; 16], t: u64, depth: usize) -> [u8; 32] {
    let mut pw = password;
    for i in depth..64 {
        let bit = (t >> (63 - i)) & 1;
        let mut input = pw.to_vec();
        input.push(if bit == 0 { b'L' } else { b'R' });
        pw = md5(&input);
    }
    let mut key = [0u8; 32];
    key[..16].copy_from_slice(&pw);
    key[16..].copy_from_slice(&md5(&pw));
    key
}

fn encrypt(key: &[u8; 32], nonce: &[u8; 12], data: &mut [u8]) {
    let mut cipher = ChaCha20::new(key.into(), nonce.into());
    cipher.apply_keystream(data);
}

fn plaintext() -> [u8; 64] {
    let mut p = [0u8; 64];
    for (i, b) in p.iter_mut().enumerate() {
        *b = i as u8 * 3 + 1;
    }
    p
}

/// A signed frame whose content is `plain` encrypted under `key`.
fn make_frame(channel: u32, timestamp: u64, key: &[u8; 32], plain: &[u8; 64]) -> ChannelFrame {
    let nonce = [9u8; 12];
    let mut content = *plain;
    encrypt(key, &nonce, &mut content);
    let mut f = ChannelFrame {
        channel,
        timestamp,
        nonce,
        encrypted_content: content,
        signature: [0u8; 64],
    };
    let bytes = f.to_bytes();
    f.signature = signing_key().sign(&bytes[..88]).to_bytes();
    f
}

/// The body of a signed subscription update carrying `entries` as its
/// password table.
fn make_update(
    decoder_id: u32,
    channel_id: u32,
    start: u64,
    end: u64,
    entries: &[ChannelPassword],
) -> MessageBody {
    let nonce = [3u8; 12];
    let mut msg = Vec::new();
    msg.extend_from_slice(&decoder_id.to_le_bytes());
    msg.extend_from_slice(&start.to_le_bytes());
    msg.extend_from_slice(&end.to_le_bytes());
    msg.extend_from_slice(&channel_id.to_le_bytes());
    msg.extend_from_slice(&nonce);
    let mut table = Vec::new();
    for e in entries {
        table.extend_from_slice(&e.to_bytes());
    }
    encrypt(&DECODER_KEY, &nonce, &mut table);
    msg.extend_from_slice(&table);
    let sig = signing_key().sign(&msg).to_bytes();
    msg.extend_from_slice(&sig);
    let length = msg.len() as u16;
    MessageBody { data: msg, length }
}

fn header(t: MsgType, length: u16) -> MessageHeader {
    MessageHeader::new(t, length)
}

fn subscribe(
    flash: &mut FlashManager,
    active: &mut ActiveChannelsList,
    body: &MessageBody,
) -> Result<(), SubscriptionError> {
    let hdr = header(MsgType::Subscribe, body.length);
    check_subscription_valid_and_store(&hdr, body, flash, active, &secrets())
}

#[test]
fn list_on_empty_device() {
    let mut flash = FlashManager::new();
    let mut active = fresh_list();
    let body = MessageBody { data: Vec::new(), length: 0 };
    let reply = handle_request(&header(MsgType::List, 0), &body, &mut flash, &mut active, &secrets());
    assert_eq!(reply.msg_type, MsgType::List);
    assert_eq!(reply.body, vec![0, 0, 0, 0]);
    let plan = sat_decoder::hostcom::packet_plan(reply.msg_type, &reply.body);
    assert_eq!(plan.header, [0x25, 0x4C, 0x04, 0x00]);
}

#[test]
fn subscribe_then_list() {
    let mut flash = FlashManager::new();
    let mut active = fresh_list();
    let p = root_password([0x42; 16]);
    let body = make_update(DECODER_ID, 7, 100, 1000, &[p]);
    let reply = handle_request(
        &header(MsgType::Subscribe, body.length),
        &body,
        &mut flash,
        &mut active,
        &secrets(),
    );
    assert_eq!(reply.msg_type, MsgType::Subscribe);
    let plan = sat_decoder::hostcom::packet_plan(reply.msg_type, &reply.body);
    assert_eq!(plan.header, [0x25, 0x53, 0x00, 0x00]);
    let list = list_body(&flash);
    assert_eq!(
        list,
        vec![
            0x01, 0, 0, 0, 0x07, 0, 0, 0, 0x64, 0, 0, 0, 0, 0, 0, 0, 0xE8, 0x03, 0, 0, 0, 0, 0, 0,
        ]
    );
    let list_plan = sat_decoder::hostcom::packet_plan(MsgType::List, &list);
    assert_eq!(list_plan.header, [0x25, 0x4C, 0x18, 0x00]);
    assert_eq!(list_plan.chunks, vec![list.clone()]);
    assert_eq!(active[1], Some(ActiveChannel { channel_id: 7, last_frame: 0, received: false }));
}

#[test]
fn decode_emergency_channel() {
    let flash = FlashManager::new();
    let mut active = fresh_list();
    let key = broadcaster_key(CHANNEL_0_PASSWORD, 42, 0);
    let frame = make_frame(0, 42, &key, &plaintext());
    let out = decode_frame(&flash, &frame, &mut active, &secrets());
    assert_eq!(out, Ok(plaintext()));
    assert_eq!(active[0], Some(ActiveChannel { channel_id: 0, last_frame: 42, received: true }));
}

#[test]
fn replay_rejection() {
    let flash = FlashManager::new();
    let mut active = fresh_list();
    let key = broadcaster_key(CHANNEL_0_PASSWORD, 42, 0);
    let frame = make_frame(0, 42, &key, &plaintext());
    assert_eq!(decode_frame(&flash, &frame, &mut active, &secrets()), Ok(plaintext()));
    assert_eq!(decode_frame(&flash, &frame, &mut active, &secrets()), Err(DecodeError::Replay));
    let earlier = make_frame(0, 41, &broadcaster_key(CHANNEL_0_PASSWORD, 41, 0), &plaintext());
    assert_eq!(decode_frame(&flash, &earlier, &mut active, &secrets()), Err(DecodeError::Replay));
    let later = make_frame(0, 43, &broadcaster_key(CHANNEL_0_PASSWORD, 43, 0), &plaintext());
    assert_eq!(decode_frame(&flash, &later, &mut active, &secrets()), Ok(plaintext()));
}

#[test]
fn replay_error_packet_through_dispatch() {
    let mut flash = FlashManager::new();
    let mut active = fresh_list();
    let key = broadcaster_key(CHANNEL_0_PASSWORD, 42, 0);
    let bytes = make_frame(0, 42, &key, &plaintext()).to_bytes();
    let body = MessageBody { data: bytes.clone(), length: 152 };
    let first = handle_request(&header(MsgType::Decode, 152), &body, &mut flash, &mut active, &secrets());
    assert_eq!(first.msg_type, MsgType::Decode);
    assert_eq!(first.body, plaintext().to_vec());
    let second = handle_request(&header(MsgType::Decode, 152), &body, &mut flash, &mut active, &secrets());
    assert_eq!(second.msg_type, MsgType::Error);
    assert!(second.body.is_empty());
}

#[test]
fn out_of_coverage_timestamp() {
    let mut flash = FlashManager::new();
    let mut active = fresh_list();
    // Node 2, the left child of the root, covers timestamps below 2^63.
    let left = ChannelPassword { node_trunc: 1, node_ext: 1, password: [0x33; 16] };
    assert_eq!(subscribe(&mut flash, &mut active, &make_update(DECODER_ID, 9, 0, u64::MAX, &[left])), Ok(()));
    let t_left: u64 = 1000;
    let key = broadcaster_key([0x33; 16], t_left, 1);
    let ok = make_frame(9, t_left, &key, &plaintext());
    assert_eq!(decode_frame(&flash, &ok, &mut active, &secrets()), Ok(plaintext()));
    let t_right: u64 = (1u64 << 63) + 5;
    let bad = make_frame(9, t_right, &key, &plaintext());
    assert_eq!(decode_frame(&flash, &bad, &mut active, &secrets()), Err(DecodeError::NoSubscription));
}

#[test]
fn directory_overflow() {
    let mut flash = FlashManager::new();
    let mut active = fresh_list();
    let p = root_password([0x42; 16]);
    for c in 1..=8u32 {
        assert_eq!(subscribe(&mut flash, &mut active, &make_update(DECODER_ID, c, c as u64, 100, &[p])), Ok(()));
    }
    assert_eq!(
        subscribe(&mut flash, &mut active, &make_update(DECODER_ID, 9, 0, 100, &[p])),
        Err(SubscriptionError::NoPageFound)
    );
    assert_eq!(subscribe(&mut flash, &mut active, &make_update(DECODER_ID, 3, 500, 600, &[p])), Ok(()));
    let pages = channel_subscriptions(&flash, false);
    assert_eq!(pages.len(), 8);
    assert_eq!(pages[2].1, Some(ChannelInfo { channel_id: 3, start_timestamp: 500, end_timestamp: 600 }));
    assert_eq!(pages[3].1.unwrap().channel_id, 4);
    for (i, slot) in active.iter().enumerate() {
        assert_eq!(slot.unwrap().channel_id, i as u32);
    }
}

#[test]
fn subscribe_rejections() {
    let mut flash = FlashManager::new();
    let mut active = fresh_list();
    let p = root_password([0x42; 16]);
    assert_eq!(
        subscribe(&mut flash, &mut active, &make_update(0x12345678, 5, 0, 10, &[p])),
        Err(SubscriptionError::WrongDecoder)
    );
    assert_eq!(
        subscribe(&mut flash, &mut active, &make_update(DECODER_ID, 0, 0, 10, &[p])),
        Err(SubscriptionError::InvalidChannelId)
    );
    let mut tampered = make_update(DECODER_ID, 5, 0, 10, &[p]);
    tampered.data[5] ^= 1;
    assert_eq!(subscribe(&mut flash, &mut active, &tampered), Err(SubscriptionError::BadSignature));
    let short = MessageBody { data: vec![0u8; 99], length: 99 };
    assert_eq!(subscribe(&mut flash, &mut active, &short), Err(SubscriptionError::Malformed));
    assert!(channel_subscriptions(&flash, false).is_empty());
}

#[test]
fn signature_gating_on_frames() {
    let flash = FlashManager::new();
    let key = broadcaster_key(CHANNEL_0_PASSWORD, 42, 0);
    let good = make_frame(0, 42, &key, &plaintext()).to_bytes();
    for i in [0usize, 4, 12, 30, 87, 88, 151] {
        let mut bytes = good.clone();
        bytes[i] ^= 0x80;
        let frame = ChannelFrame::from_bytes(&bytes);
        let mut active = fresh_list();
        assert_eq!(decode_frame(&flash, &frame, &mut active, &secrets()), Err(DecodeError::BadSignature));
        assert_eq!(active, fresh_list());
    }
}

#[test]
fn decode_length_must_match_frame() {
    let mut flash = FlashManager::new();
    let mut active = fresh_list();
    let body = MessageBody { data: vec![0u8; 151], length: 151 };
    let reply = handle_request(&header(MsgType::Decode, 151), &body, &mut flash, &mut active, &secrets());
    assert_eq!(reply.msg_type, MsgType::Error);
}

#[test]
fn decode_unknown_channel() {
    let flash = FlashManager::new();
    let mut active = fresh_list();
    let key = broadcaster_key([1; 16], 5, 0);
    let frame = make_frame(12, 5, &key, &plaintext());
    assert_eq!(decode_frame(&flash, &frame, &mut active, &secrets()), Err(DecodeError::NoSubscription));
}

#[test]
fn upsert_then_find_reproduces_record() {
    let mut flash = FlashManager::new();
    let mut active = fresh_list();
    let p = root_password([0x42; 16]);
    let sub = {
        let mut passwords = ChannelPasswords::empty();
        passwords.contents[0] = p;
        ChannelSubscription {
            info: ChannelInfo { channel_id: 21, start_timestamp: 1, end_timestamp: 2 },
            passwords,
        }
    };
    assert_eq!(sat_decoder::channel_manager::save_subscription(&mut flash, sub, &mut active), Ok(()));
    let addr = get_subscription_addr(&flash, 21).unwrap();
    assert_eq!(addr, sat_decoder::flash::BASE_ADDRESS);
    let record = flash.read_data(addr, 3220).unwrap();
    assert_eq!(record, sub.to_bytes());
    assert_eq!(get_subscription_addr(&flash, 22), None);
}

#[test]
fn derived_key_matches_broadcaster() {
    let mut passwords = ChannelPasswords::empty();
    // Node 5 = 0b101: right child of node 2, so it covers timestamps whose two top bits are 01.
    passwords.contents[0] = ChannelPassword { node_trunc: 2, node_ext: 2, password: [0x77; 16] };
    let t: u64 = (1u64 << 62) + 12345;
    assert_eq!(derive_frame_key(t, &passwords), Some(broadcaster_key([0x77; 16], t, 2)));
    assert_eq!(derive_frame_key(t + (1u64 << 63), &passwords), None);
    assert_eq!(derive_frame_key(12345, &passwords), None);
}

#[test]
fn leaf_password_covers_only_its_timestamp() {
    let mut passwords = ChannelPasswords::empty();
    let t: u64 = 77;
    passwords.contents[0] = ChannelPassword { node_trunc: (1u64 << 63) + (t >> 1), node_ext: (t & 1) as u8 + 1, password: [0x10; 16] };
    let mut expected = [0u8; 32];
    expected[..16].copy_from_slice(&[0x10; 16]);
    expected[16..].copy_from_slice(&md5(&[0x10; 16]));
    assert_eq!(derive_frame_key(t, &passwords), Some(expected));
    assert_eq!(derive_frame_key(t + 1, &passwords), None);
}

#[test]
fn monotone_timestamps_per_channel() {
    let mut active = fresh_list();
    active[1] = Some(ActiveChannel { channel_id: 4, last_frame: 0, received: false });
    let f = |channel: u32, timestamp: u64| ChannelFrame {
        channel,
        timestamp,
        nonce: [0; 12],
        encrypted_content: [0; 64],
        signature: [0; 64],
    };
    assert!(validate_channel_timestamp(&f(4, 0), &mut active));
    assert!(!validate_channel_timestamp(&f(4, 0), &mut active));
    assert!(validate_channel_timestamp(&f(4, 10), &mut active));
    assert!(validate_channel_timestamp(&f(0, 3), &mut active));
    assert!(!validate_channel_timestamp(&f(4, 9), &mut active));
    assert!(validate_channel_timestamp(&f(4, 11), &mut active));
    assert!(!validate_channel_timestamp(&f(5, 100), &mut active));
    assert_eq!(active[1], Some(ActiveChannel { channel_id: 4, last_frame: 11, received: true }));
}

#[test]
fn boot_mirrors_stored_channels() {
    let mut flash = FlashManager::new();
    let mut active = fresh_list();
    let p = root_password([0x42; 16]);
    for c in [30u32, 10, 20] {
        assert_eq!(subscribe(&mut flash, &mut active, &make_update(DECODER_ID, c, 0, 9, &[p])), Ok(()));
    }
    let mut rebooted: ActiveChannelsList = [None; 9];
    sat_decoder::active::initialize_active_channels(&mut rebooted, &flash);
    let ids: Vec<Option<u32>> = rebooted.iter().map(|s| s.map(|c| c.channel_id)).collect();
    assert_eq!(ids, vec![Some(0), Some(30), Some(10), Some(20), None, None, None, None, None]);
    assert!(rebooted.iter().flatten().all(|c| !c.received && c.last_frame == 0));
}

#[test]
fn full_password_table_update() {
    let mut flash = FlashManager::new();
    let mut active = fresh_list();
    let entries: Vec<ChannelPassword> = (0..128u64)
        .map(|i| ChannelPassword { node_trunc: 1000 + i, node_ext: 1, password: [i as u8; 16] })
        .collect();
    let body = make_update(DECODER_ID, 4, 1, 2, &entries);
    assert_eq!(body.length, 3300);
    assert_eq!(subscribe(&mut flash, &mut active, &body), Ok(()));
    let addr = get_subscription_addr(&flash, 4).unwrap();
    let record = flash.read_data(addr, 3220).unwrap();
    let stored = ChannelSubscription::from_bytes(&record);
    assert_eq!(stored.passwords.contents[127].node_trunc, 1127);
    assert_eq!(stored.passwords.contents[127].password, [127u8; 16]);
    let mut too_long = make_update(DECODER_ID, 4, 1, 2, &entries);
    too_long.data.push(0);
    too_long.length = 3301;
    assert_eq!(subscribe(&mut flash, &mut active, &too_long), Err(SubscriptionError::Malformed));
}

#[test]
fn partial_table_leaves_empty_slots() {
    let mut flash = FlashManager::new();
    let mut active = fresh_list();
    let p = ChannelPassword { node_trunc: 8, node_ext: 2, password: [5; 16] };
    assert_eq!(subscribe(&mut flash, &mut active, &make_update(DECODER_ID, 6, 1, 2, &[p, p])), Ok(()));
    let record = flash.read_data(get_subscription_addr(&flash, 6).unwrap(), 3220).unwrap();
    let stored = ChannelSubscription::from_bytes(&record);
    assert_eq!(stored.passwords.contents[1].node_trunc, 8);
    assert_eq!(stored.passwords.contents[2].node_ext, 0);
    assert!(record[20 + 50..].iter().all(|&b| b == 0));
}

#[test]
fn authentic_frame_decodes_without_signature_check() {
    let flash = FlashManager::new();
    let mut active = fresh_list();
    let key = broadcaster_key(CHANNEL_0_PASSWORD, 7, 0);
    let mut frame = make_frame(0, 7, &key, &plaintext());
    frame.signature = [0; 64];
    let out = sat_decoder::channel_manager::decode_authentic_frame(&flash, &frame, &mut active, &secrets());
    assert_eq!(out, Ok(plaintext()));
    assert_eq!(decode_frame(&flash, &frame, &mut active, &secrets()), Err(DecodeError::BadSignature));
}

#[test]
fn decode_at_last_timestamp() {
    let flash = FlashManager::new();
    let mut active = fresh_list();
    let key = broadcaster_key(CHANNEL_0_PASSWORD, u64::MAX, 0);
    let frame = make_frame(0, u64::MAX, &key, &plaintext());
    assert_eq!(decode_frame(&flash, &frame, &mut active, &secrets()), Ok(plaintext()));
    assert_eq!(decode_frame(&flash, &frame, &mut active, &secrets()), Err(DecodeError::Replay));
}

#[test]
fn resubscribe_keeps_one_page_per_channel() {
    let mut flash = FlashManager::new();
    let mut active = fresh_list();
    let p = root_password([0x42; 16]);
    for round in 0..3u64 {
        for c in [2u32, 5] {
            assert_eq!(subscribe(&mut flash, &mut active, &make_update(DECODER_ID, c, round, 9, &[p])), Ok(()));
        }
    }
    let pages = channel_subscriptions(&flash, false);
    let ids: Vec<u32> = pages.iter().map(|(_, c)| c.unwrap().channel_id).collect();
    assert_eq!(ids, vec![2, 5]);
    assert_eq!(pages[0].1.unwrap().start_timestamp, 2);
    assert_eq!(active[3], None);
}

#[test]
fn existing_slot_behind_an_empty_one_is_kept() {
    let mut active: ActiveChannelsList = [None; 9];
    active[0] = Some(ActiveChannel { channel_id: 0, last_frame: 0, received: false });
    active[2] = Some(ActiveChannel { channel_id: 12, last_frame: 50, received: true });
    let before = active;
    sat_decoder::active::activate_channel(&mut active, 12);
    assert_eq!(active, before);
    sat_decoder::active::activate_channel(&mut active, 13);
    assert_eq!(active[1], Some(ActiveChannel { channel_id: 13, last_frame: 0, received: false }));
    assert_eq!(active[2], before[2]);
}

#[test]
fn replay_record_survives_other_requests() {
    let mut flash = FlashManager::new();
    let mut active = fresh_list();
    let frame = |t: u64| make_frame(0, t, &broadcaster_key(CHANNEL_0_PASSWORD, t, 0), &plaintext());
    assert_eq!(decode_frame(&flash, &frame(500), &mut active, &secrets()), Ok(plaintext()));
    let p = root_password([0x42; 16]);
    assert_eq!(subscribe(&mut flash, &mut active, &make_update(DECODER_ID, 3, 0, 9, &[p])), Ok(()));
    let other = make_frame(3, 1, &broadcaster_key([0x42; 16], 1, 0), &plaintext());
    assert_eq!(decode_frame(&flash, &other, &mut active, &secrets()), Ok(plaintext()));
    assert_eq!(subscribe(&mut flash, &mut active, &make_update(DECODER_ID, 3, 0, 10, &[p])), Ok(()));
    assert_eq!(decode_frame(&flash, &frame(499), &mut active, &secrets()), Err(DecodeError::Replay));
    assert_eq!(decode_frame(&flash, &other, &mut active, &secrets()), Err(DecodeError::Replay));
    assert_eq!(decode_frame(&flash, &frame(501), &mut active, &secrets()), Ok(plaintext()));
}
