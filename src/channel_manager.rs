//! Subscription updates and frame decoding: signature checks, decryption of
//! the key material, the directory write, anti-replay and the key tree.

use crate::active::{
    activate_channel, activation, active_complete, lemma_mirror_complete,
    lemma_activation_records, lemma_replay_across, lemma_save_keeps_mirror,
    lemma_validate_keeps_mirror, lemma_validation_records, mirrors, recorded, records_kept,
    validate_channel_timestamp, validation, ActiveChannelsList,
};
use crate::codec::{
    frame_bytes, frame_signed_bytes, info_bytes, info_of, lemma_info_round_trip, passwords_bytes,
    subscription_bytes, to_array, ChannelFrame, ChannelInfo, ChannelPasswords, ChannelSubscription,
    FRAME_SIGNED_LEN, PASSWORDS_LEN, SUBSCRIPTION_LEN,
};
use crate::directory::{
    channels_unique, find_page, get_subscription_addr, left_packed, lemma_erased_directory,
    lemma_find_from, lemma_page_ranges, lemma_run_from, lemma_stored_page,
    lemma_upsert_keeps_channels_unique, lemma_upsert_keeps_left_packed, no_channel_zero,
    page_record, stored, target_page, upsert, SubscriptionError,
};
use crate::flash::{FlashManager, FlashManagerError};
use crate::hostcom::{MessageBody, MessageHeader};
use crate::keytree::{derive_frame_key, frame_key};
use chacha20::cipher::{KeyIvInit, StreamCipher};
use chacha20::ChaCha20;
use ed25519_dalek::pkcs8::DecodePublicKey;
use ed25519_dalek::{Signature, Verifier, VerifyingKey};
use vstd::bytes::*;
use vstd::prelude::*;

verus! {

/// Whether `sig` is a valid Ed25519 signature of `msg` under the
/// DER-encoded public key `key_der`.
pub uninterp spec fn ed25519_verifies(key_der: Seq<u8>, msg: Seq<u8>, sig: Seq<u8>) -> bool;

/// `data` XORed with the ChaCha20 keystream of `key` and `nonce`.
pub uninterp spec fn chacha20_xor(key: Seq<u8>, nonce: Seq<u8>, data: Seq<u8>) -> Seq<u8>;

/// Relies on ed25519-dalek: `VerifyingKey::from_public_key_der` reads the
/// key, `Signature::from_slice` the signature and `Verifier::verify` checks
/// it over `msg`; a failure at any step is a rejection. The outcome depends
/// on the three byte strings alone.
#[verifier::external_body]
fn signature_valid(key_der: &[u8], msg: &[u8], sig: &[u8]) -> (r: bool)
    ensures
        r == ed25519_verifies(key_der@, msg@, sig@),
{
    match VerifyingKey::from_public_key_der(key_der) {
        Ok(key) => match Signature::from_slice(sig) {
            Ok(s) => key.verify(msg, &s).is_ok(),
            Err(_) => false,
        },
        Err(_) => false,
    }
}

/// Relies on chacha20: `ChaCha20::new` keyed by `key` and `nonce`, then
/// `StreamCipher::apply_keystream` over a copy of `data`, which XORs it
/// with the keystream from its start and keeps its length. It panics only
/// past the end of the keystream (2^32 blocks of 64 bytes).
#[verifier::external_body]
fn chacha20_apply(key: &[u8; 32], nonce: &[u8; 12], data: &[u8]) -> (r: Vec<u8>)
    requires
        data@.len() <= 0xFFFF_FFFF * 64,
    ensures
        r@ == chacha20_xor(key@, nonce@, data@),
        r@.len() == data@.len(),
{
    let mut out = data.to_vec();
    let mut cipher = ChaCha20::new(key.into(), nonce.into());
    cipher.apply_keystream(&mut out);
    out
}

/// What the decoder is provisioned with.
pub struct DecoderSecrets {
    pub decoder_id: u32,
    /// Key of the ChaCha20 layer on subscription key material.
    pub decoder_key: [u8; 32],
    /// The broadcaster's Ed25519 verification key, DER-encoded.
    pub host_key_pub: Vec<u8>,
    /// The hard-wired subscription of the emergency channel 0.
    pub channel_0: ChannelSubscription,
}

#[derive(Clone, Copy, Debug, PartialEq, Eq, Structural)]
pub enum DecodeError {
    /// The frame's signature does not verify under the host key.
    BadSignature,
    /// The channel has no subscription, or its passwords do not cover the timestamp.
    NoSubscription,
    /// The timestamp is not later than the last frame accepted on the channel.
    Replay,
    Flash(FlashManagerError),
}

/// Stores `subscription` in the directory and gives its channel an
/// anti-replay slot if it has none.
pub fn save_subscription(
    flash_manager: &mut FlashManager,
    subscription: ChannelSubscription,
    active_channels: &mut ActiveChannelsList,
) -> (r: Result<(), SubscriptionError>)
    requires
        old(flash_manager).wf(),
    ensures
        final(flash_manager).wf(),
        match target_page(old(flash_manager)@, subscription.info.channel_id) {
            Some(k) => {
                &&& r == Ok::<(), SubscriptionError>(())
                &&& final(flash_manager)@ == stored(
                    old(flash_manager)@,
                    k,
                    subscription_bytes(subscription),
                )
                &&& final(active_channels)@ == activation(
                    old(active_channels)@,
                    subscription.info.channel_id,
                )
            },
            None => {
                &&& r == Err::<(), SubscriptionError>(SubscriptionError::NoPageFound)
                &&& final(flash_manager)@ == old(flash_manager)@
                &&& final(active_channels)@ == old(active_channels)@
            },
        },
{
    match upsert(flash_manager, &subscription) {
        Ok(_) => {
            activate_channel(active_channels, subscription.info.channel_id);
            Ok(())
        },
        Err(e) => Err(e),
    }
}

/// A subscription update has room for its fixed fields and signature, and
/// at most a full password table.
pub open spec fn update_len_ok(len: int, body_len: int) -> bool {
    100 <= len <= 3300 && len <= body_len
}

/// The signed part of an update: everything before the trailing signature.
pub open spec fn update_message(b: Seq<u8>, len: int) -> Seq<u8> {
    b.subrange(0, len - 64)
}

pub open spec fn update_signature(b: Seq<u8>, len: int) -> Seq<u8> {
    b.subrange(len - 64, len)
}

pub open spec fn update_decoder_id(m: Seq<u8>) -> u32 {
    spec_u32_from_le_bytes(m.subrange(0, 4))
}

pub open spec fn update_info(m: Seq<u8>) -> ChannelInfo {
    ChannelInfo {
        channel_id: spec_u32_from_le_bytes(m.subrange(20, 24)),
        start_timestamp: spec_u64_from_le_bytes(m.subrange(4, 12)),
        end_timestamp: spec_u64_from_le_bytes(m.subrange(12, 20)),
    }
}

/// The password table an update carries: its key material decrypted, then
/// zeros (empty slots) up to the full table.
pub open spec fn update_table(m: Seq<u8>, key: Seq<u8>) -> Seq<u8> {
    Seq::new(
        3200,
        |i: int|
            if i < m.len() - 36 {
                chacha20_xor(key, m.subrange(24, 36), m.subrange(36, m.len() as int))[i]
            } else {
                0u8
            },
    )
}

/// The packed subscription an update stores.
pub open spec fn update_record(m: Seq<u8>, key: Seq<u8>) -> Seq<u8> {
    info_bytes(update_info(m)) + update_table(m, key)
}

/// What a subscription update of `len` bytes in `b` yields, with the
/// directory and the anti-replay list that follow.
pub open spec fn subscribe_outcome(
    mem: Seq<u8>,
    l: Seq<Option<crate::active::ActiveChannel>>,
    len: int,
    b: Seq<u8>,
    secrets: DecoderSecrets,
) -> (Result<(), SubscriptionError>, Seq<u8>, Seq<Option<crate::active::ActiveChannel>>) {
    let m = update_message(b, len);
    if !update_len_ok(len, b.len() as int) {
        (Err(SubscriptionError::Malformed), mem, l)
    } else if !ed25519_verifies(secrets.host_key_pub@, m, update_signature(b, len)) {
        (Err(SubscriptionError::BadSignature), mem, l)
    } else if update_decoder_id(m) != secrets.decoder_id {
        (Err(SubscriptionError::WrongDecoder), mem, l)
    } else if update_info(m).channel_id == 0 {
        (Err(SubscriptionError::InvalidChannelId), mem, l)
    } else {
        match target_page(mem, update_info(m).channel_id) {
            Some(k) => (
                Ok(()),
                stored(mem, k, update_record(m, secrets.decoder_key@)),
                activation(l, update_info(m).channel_id),
            ),
            None => (Err(SubscriptionError::NoPageFound), mem, l),
        }
    }
}

/// Checks a subscription update (`decoder_id`, start, end, `channel_id`,
/// nonce, encrypted key material, signature) and stores it.
pub fn check_subscription_valid_and_store(
    hdr: &MessageHeader,
    body: &MessageBody,
    flash_manager: &mut FlashManager,
    active_channels: &mut ActiveChannelsList,
    secrets: &DecoderSecrets,
) -> (r: Result<(), SubscriptionError>)
    requires
        old(flash_manager).wf(),
    ensures
        final(flash_manager).wf(),
        (r, final(flash_manager)@, final(active_channels)@) == subscribe_outcome(
            old(flash_manager)@,
            old(active_channels)@,
            hdr.length as int,
            body.data@,
            *secrets,
        ),
{
    let len = hdr.length as usize;
    if len < 100 || len > 3300 || len > body.data.len() {
        return Err(SubscriptionError::Malformed);
    }
    let msg_len = len - 64;
    let message = &body.data.as_slice()[0..msg_len];
    let signature = &body.data.as_slice()[msg_len..len];
    if !signature_valid(secrets.host_key_pub.as_slice(), message, signature) {
        return Err(SubscriptionError::BadSignature);
    }
    let decoder_id = u32_from_le_bytes(&message[0..4]);
    let start_timestamp = u64_from_le_bytes(&message[4..12]);
    let end_timestamp = u64_from_le_bytes(&message[12..20]);
    let channel_id = u32_from_le_bytes(&message[20..24]);
    let nonce: [u8; 12] = to_array(&message[24..36]);
    if decoder_id != secrets.decoder_id {
        return Err(SubscriptionError::WrongDecoder);
    }
    if channel_id == 0 {
        return Err(SubscriptionError::InvalidChannelId);
    }
    let mut passwords_data = chacha20_apply(&secrets.decoder_key, &nonce, &message[36..msg_len]);
    let ghost decrypted = passwords_data@;
    let mut k: usize = msg_len - 36;
    while k < PASSWORDS_LEN
        invariant
            msg_len - 36 <= k <= 3200,
            passwords_data@ == decrypted + Seq::new((k - (msg_len - 36)) as nat, |i: int| 0u8),
        decreases 3200 - k,
    {
        passwords_data.push(0);
        k = k + 1;
        assert(passwords_data@ =~= decrypted + Seq::new(
            (k - (msg_len - 36)) as nat,
            |i: int| 0u8,
        ));
    }
    assert(passwords_data@ =~= update_table(message@, secrets.decoder_key@));
    let passwords = ChannelPasswords::from_bytes(passwords_data.as_slice());
    let channel_info = ChannelInfo { channel_id, start_timestamp, end_timestamp };
    let channel_subscription = ChannelSubscription { info: channel_info, passwords };
    assert(subscription_bytes(channel_subscription) =~= update_record(
        message@,
        secrets.decoder_key@,
    ));
    assert(message@ == update_message(body.data@, len as int));
    save_subscription(flash_manager, channel_subscription, active_channels)
}

/// The packed password table that decides frames of channel `f.channel`:
/// the emergency subscription's for channel 0, else the stored one's.
pub open spec fn frame_table(mem: Seq<u8>, f: ChannelFrame, secrets: DecoderSecrets) -> Option<
    Seq<u8>,
> {
    if f.channel == 0 {
        Some(passwords_bytes(secrets.channel_0.passwords.contents@))
    } else {
        match find_page(mem, f.channel) {
            Some(k) => Some(page_record(mem, k).subrange(20, 3220)),
            None => None,
        }
    }
}

/// What decoding `f` yields once its signature is known to be good, with
/// the anti-replay list that follows.
pub open spec fn authentic_outcome(
    mem: Seq<u8>,
    l: Seq<Option<crate::active::ActiveChannel>>,
    f: ChannelFrame,
    secrets: DecoderSecrets,
) -> (Result<Seq<u8>, DecodeError>, Seq<Option<crate::active::ActiveChannel>>) {
    match frame_table(mem, f, secrets) {
        None => (Err(DecodeError::NoSubscription), l),
        Some(tb) => {
            let (accepted, l2) = validation(l, f.channel, f.timestamp);
            if !accepted {
                (Err(DecodeError::Replay), l)
            } else {
                match frame_key(tb, f.timestamp) {
                    None => (Err(DecodeError::NoSubscription), l2),
                    Some(key) => (Ok(chacha20_xor(key, f.nonce@, f.encrypted_content@)), l2),
                }
            }
        },
    }
}

/// What decoding `f` yields, with the anti-replay list that follows.
pub open spec fn decode_outcome(
    mem: Seq<u8>,
    l: Seq<Option<crate::active::ActiveChannel>>,
    f: ChannelFrame,
    secrets: DecoderSecrets,
) -> (Result<Seq<u8>, DecodeError>, Seq<Option<crate::active::ActiveChannel>>) {
    if !ed25519_verifies(secrets.host_key_pub@, frame_signed_bytes(f), f.signature@) {
        (Err(DecodeError::BadSignature), l)
    } else {
        authentic_outcome(mem, l, f, secrets)
    }
}

/// Decodes `frame`: checks its signature, then decodes it as authentic.
pub fn decode_frame(
    flash_manager: &FlashManager,
    frame: &ChannelFrame,
    active_channels: &mut ActiveChannelsList,
    secrets: &DecoderSecrets,
) -> (r: Result<[u8; 64], DecodeError>)
    requires
        flash_manager.wf(),
    ensures
        decode_outcome(flash_manager@, old(active_channels)@, *frame, *secrets) == (
            match r {
                Ok(p) => Ok(p@),
                Err(e) => Err(e),
            },
            final(active_channels)@,
        ),
{
    let bytes = frame.to_bytes();
    let message = &bytes.as_slice()[0..FRAME_SIGNED_LEN];
    assert(message@ =~= frame_signed_bytes(*frame));
    if !signature_valid(secrets.host_key_pub.as_slice(), message, frame.signature.as_slice()) {
        return Err(DecodeError::BadSignature);
    }
    decode_authentic_frame(flash_manager, frame, active_channels, secrets)
}

/// Decodes a frame whose signature has been checked: finds its channel's
/// passwords, enforces anti-replay, derives the frame key and decrypts the
/// content.
pub fn decode_authentic_frame(
    flash_manager: &FlashManager,
    frame: &ChannelFrame,
    active_channels: &mut ActiveChannelsList,
    secrets: &DecoderSecrets,
) -> (r: Result<[u8; 64], DecodeError>)
    requires
        flash_manager.wf(),
    ensures
        authentic_outcome(flash_manager@, old(active_channels)@, *frame, *secrets) == (
            match r {
                Ok(p) => Ok(p@),
                Err(e) => Err(e),
            },
            final(active_channels)@,
        ),
{
    let ghost mem = flash_manager@;
    let passwords: ChannelPasswords = if frame.channel == 0 {
        secrets.channel_0.passwords
    } else {
        let sub_page_addr = match get_subscription_addr(flash_manager, frame.channel) {
            Some(addr) => addr,
            None => {
                return Err(DecodeError::NoSubscription);
            },
        };
        let ghost k = find_page(mem, frame.channel)->Some_0;
        proof {
            lemma_run_from(mem, 0);
            lemma_find_from(mem, frame.channel, 0);
            lemma_page_ranges(k);
        }
        let record = match flash_manager.read_data(sub_page_addr, SUBSCRIPTION_LEN) {
            Ok(b) => b,
            Err(e) => {
                return Err(DecodeError::Flash(e));
            },
        };
        let sub = ChannelSubscription::from_bytes(record.as_slice());
        proof {
            lemma_info_round_trip(sub.info);
            crate::codec::lemma_passwords_bytes_len(sub.passwords.contents@);
            assert(record@ == page_record(mem, k));
            assert(passwords_bytes(sub.passwords.contents@) =~= record@.subrange(20, 3220));
        }
        sub.passwords
    };
    assert(frame_table(mem, *frame, *secrets) == Some(passwords_bytes(passwords.contents@)));
    let ghost before = active_channels@;
    if !validate_channel_timestamp(frame, active_channels) {
        proof {
            crate::active::lemma_validate_reject(before, frame.channel, frame.timestamp, 0);
        }
        return Err(DecodeError::Replay);
    }
    let key = match derive_frame_key(frame.timestamp, &passwords) {
        Some(k) => k,
        None => {
            return Err(DecodeError::NoSubscription);
        },
    };
    let plain = chacha20_apply(&key, &frame.nonce, frame.encrypted_content.as_slice());
    let out: [u8; 64] = to_array(plain.as_slice());
    Ok(out)
}

/// Signature gating: a frame is decoded only when its trailing 64 bytes
/// verify, under the host key, as a signature over all of its other 88
/// bytes; otherwise decoding fails with `BadSignature` and changes nothing.
/// Two frames that differ in any byte differ in the message checked or in
/// the signature checked.
pub proof fn lemma_signature_gating(
    mem: Seq<u8>,
    l: Seq<Option<crate::active::ActiveChannel>>,
    f: ChannelFrame,
    g: ChannelFrame,
    secrets: DecoderSecrets,
)
    ensures
        decode_outcome(mem, l, f, secrets).0 is Ok ==> ed25519_verifies(
            secrets.host_key_pub@,
            frame_bytes(f).subrange(0, 88),
            frame_bytes(f).subrange(88, 152),
        ),
        !ed25519_verifies(
            secrets.host_key_pub@,
            frame_bytes(f).subrange(0, 88),
            frame_bytes(f).subrange(88, 152),
        ) ==> decode_outcome(mem, l, f, secrets) == (
            Err::<Seq<u8>, DecodeError>(DecodeError::BadSignature),
            l,
        ),
        frame_bytes(f) != frame_bytes(g) ==> frame_bytes(f).subrange(0, 88) != frame_bytes(
            g,
        ).subrange(0, 88) || frame_bytes(f).subrange(88, 152) != frame_bytes(g).subrange(88, 152),
{
    lemma_auto_spec_u32_to_from_le_bytes();
    lemma_auto_spec_u64_to_from_le_bytes();
    assert(frame_bytes(f).subrange(0, 88) =~= frame_signed_bytes(f));
    assert(frame_bytes(f).subrange(88, 152) =~= f.signature@);
    assert(frame_bytes(g).subrange(0, 88) =~= frame_signed_bytes(g));
    assert(frame_bytes(g).subrange(88, 152) =~= g.signature@);
    if frame_bytes(f).subrange(0, 88) == frame_bytes(g).subrange(0, 88) && frame_bytes(
        f,
    ).subrange(88, 152) == frame_bytes(g).subrange(88, 152) {
        assert(frame_bytes(f) =~= frame_bytes(f).subrange(0, 88) + frame_bytes(f).subrange(
            88,
            152,
        ));
        assert(frame_bytes(g) =~= frame_bytes(g).subrange(0, 88) + frame_bytes(g).subrange(
            88,
            152,
        ));
    }
}

/// What holds of the decoder's state between requests: the directory is
/// left-packed, holds each channel at most once and never channel 0, and
/// the anti-replay list mirrors it.
pub open spec fn decoder_invariant(
    mem: Seq<u8>,
    l: Seq<Option<crate::active::ActiveChannel>>,
) -> bool {
    &&& mem.len() == crate::flash::REGION_SIZE
    &&& left_packed(mem)
    &&& channels_unique(mem)
    &&& no_channel_zero(mem)
    &&& mirrors(mem, l)
}

/// At boot, an erased region with the list built from it satisfies the
/// invariant, and every occupied page has a slot.
pub proof fn lemma_boot_invariant(mem: Seq<u8>, l: Seq<Option<crate::active::ActiveChannel>>)
    requires
        mem.len() == crate::flash::REGION_SIZE,
        forall|i: int| 0 <= i < mem.len() ==> mem[i] == 0xFFu8,
        mirrors(mem, l),
    ensures
        decoder_invariant(mem, l),
        active_complete(mem, l),
{
    lemma_erased_directory(mem);
    lemma_mirror_complete(mem, l);
}

/// A subscription update, whatever its outcome, keeps the invariant; so
/// left-packing, channel uniqueness, the absence of channel 0 from flash and
/// the completeness of the anti-replay list hold at every step.
pub proof fn lemma_subscribe_keeps_invariant(
    mem: Seq<u8>,
    l: Seq<Option<crate::active::ActiveChannel>>,
    len: int,
    b: Seq<u8>,
    secrets: DecoderSecrets,
)
    requires
        decoder_invariant(mem, l),
    ensures
        decoder_invariant(
            subscribe_outcome(mem, l, len, b, secrets).1,
            subscribe_outcome(mem, l, len, b, secrets).2,
        ),
        active_complete(
            subscribe_outcome(mem, l, len, b, secrets).1,
            subscribe_outcome(mem, l, len, b, secrets).2,
        ),
{
    let m = update_message(b, len);
    let out = subscribe_outcome(mem, l, len, b, secrets);
    if out.0 is Ok {
        let rec = update_record(m, secrets.decoder_key@);
        let id = update_info(m).channel_id;
        lemma_info_round_trip(update_info(m));
        crate::codec::lemma_info_of_prefix(rec, 20);
        assert(rec.subrange(0, 20) =~= info_bytes(update_info(m)));
        assert(info_of(rec) == update_info(m));
        let k = target_page(mem, id)->Some_0;
        lemma_run_from(mem, 0);
        lemma_find_from(mem, id, 0);
        lemma_stored_page(mem, k, rec);
        lemma_upsert_keeps_left_packed(mem, rec);
        lemma_upsert_keeps_channels_unique(mem, rec);
        lemma_save_keeps_mirror(mem, l, rec);
    }
    lemma_mirror_complete(out.1, out.2);
}

/// Decoding a frame, whatever its outcome, keeps the invariant.
pub proof fn lemma_decode_keeps_invariant(
    mem: Seq<u8>,
    l: Seq<Option<crate::active::ActiveChannel>>,
    f: ChannelFrame,
    secrets: DecoderSecrets,
)
    requires
        decoder_invariant(mem, l),
    ensures
        decoder_invariant(mem, decode_outcome(mem, l, f, secrets).1),
        active_complete(mem, decode_outcome(mem, l, f, secrets).1),
{
    lemma_validate_keeps_mirror(mem, l, f.channel, f.timestamp);
    lemma_mirror_complete(mem, decode_outcome(mem, l, f, secrets).1);
}

/// Decoding any frame keeps every replay record; an accepted frame is
/// recorded as its channel's last timestamp.
pub proof fn lemma_decode_keeps_records(
    mem: Seq<u8>,
    l: Seq<Option<crate::active::ActiveChannel>>,
    f: ChannelFrame,
    secrets: DecoderSecrets,
)
    ensures
        records_kept(l, decode_outcome(mem, l, f, secrets).1),
        decode_outcome(mem, l, f, secrets).0 is Ok ==> recorded(
            decode_outcome(mem, l, f, secrets).1,
            f.channel,
        ) == Some(f.timestamp),
{
    lemma_validation_records(l, f.channel, f.timestamp);
    assert(records_kept(l, l));
}

/// A subscription update of any outcome keeps every replay record.
pub proof fn lemma_subscribe_keeps_records(
    mem: Seq<u8>,
    l: Seq<Option<crate::active::ActiveChannel>>,
    len: int,
    b: Seq<u8>,
    secrets: DecoderSecrets,
)
    ensures
        records_kept(l, subscribe_outcome(mem, l, len, b, secrets).2),
{
    lemma_activation_records(l, update_info(update_message(b, len)).channel_id);
    assert(records_kept(l, l));
}

/// Monotone replay across a session: a frame of channel `f1.channel` was
/// decoded at `f1.timestamp`; the list then went through any decodes and
/// subscription updates (each keeps replay records, so `lb` keeps them
/// against the list after the first decode). A later frame of the same
/// channel decodes only if its timestamp is strictly greater.
pub proof fn lemma_decode_replay_monotone(
    mem1: Seq<u8>,
    la: Seq<Option<crate::active::ActiveChannel>>,
    f1: ChannelFrame,
    lb: Seq<Option<crate::active::ActiveChannel>>,
    mem2: Seq<u8>,
    f2: ChannelFrame,
    secrets: DecoderSecrets,
)
    requires
        decode_outcome(mem1, la, f1, secrets).0 is Ok,
        records_kept(decode_outcome(mem1, la, f1, secrets).1, lb),
        f2.channel == f1.channel,
        decode_outcome(mem2, lb, f2, secrets).0 is Ok,
    ensures
        f2.timestamp > f1.timestamp,
{
    lemma_decode_keeps_records(mem1, la, f1, secrets);
    lemma_replay_across(
        decode_outcome(mem1, la, f1, secrets).1,
        lb,
        f1.channel,
        f1.timestamp,
        f2.timestamp,
    );
}

} // verus!
