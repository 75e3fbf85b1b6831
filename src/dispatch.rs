//! One request from the host, one reply: `List`, `Subscribe` and `Decode`
//! are answered with a packet of their own type, anything that fails or
//! is not understood with an `Error` packet.

use crate::active::ActiveChannelsList;
use crate::channel_manager::{
    check_subscription_valid_and_store, decode_frame, decode_outcome, subscribe_outcome,
    DecoderSecrets,
};
use crate::codec::{
    append_bytes, frame_bytes, info_bytes, le_word, word_to_le, ChannelFrame, FRAME_LEN,
};
use crate::directory::{channel_subscriptions, lemma_run_from, occupied_count, page_info, scan};
use crate::flash::FlashManager;
use crate::hostcom::{MessageBody, MessageHeader, MsgType};
use vstd::prelude::*;

verus! {

/// The packed `ChannelInfo`s of the first `n` pages.
pub open spec fn infos_bytes(mem: Seq<u8>, n: int) -> Seq<u8>
    decreases n,
{
    if n <= 0 {
        Seq::empty()
    } else {
        infos_bytes(mem, n - 1) + info_bytes(page_info(mem, n - 1))
    }
}

/// The body of a `List` reply: the count of stored subscriptions, then
/// each one's `ChannelInfo`, in page order.
pub open spec fn list_bytes(mem: Seq<u8>) -> Seq<u8> {
    le_word(occupied_count(mem) as u32) + infos_bytes(mem, occupied_count(mem))
}

/// Builds the body of a `List` reply.
pub fn list_body(flash_manager: &FlashManager) -> (r: Vec<u8>)
    requires
        flash_manager.wf(),
    ensures
        r@ == list_bytes(flash_manager@),
{
    let ghost mem = flash_manager@;
    proof {
        lemma_run_from(mem, 0);
    }
    let pages = channel_subscriptions(flash_manager, false);
    let mut r = word_to_le(pages.len() as u32);
    let mut infos: Vec<u8> = Vec::new();
    let mut i: usize = 0;
    while i < pages.len()
        invariant
            pages@ == scan(mem, false),
            0 <= occupied_count(mem) <= 8,
            pages@.len() == occupied_count(mem),
            i <= pages@.len(),
            infos@ == infos_bytes(mem, i as int),
        decreases pages@.len() - i,
    {
        assert(pages@[i as int].1 == Some(page_info(mem, i as int)));
        if let Some(info) = pages[i].1 {
            let b = info.to_bytes();
            append_bytes(&mut infos, b.as_slice());
        }
        i = i + 1;
    }
    append_bytes(&mut r, infos.as_slice());
    r
}

/// A reply packet: its type and body.
pub struct Reply {
    pub msg_type: MsgType,
    pub body: Vec<u8>,
}

/// Carries out the request `hdr` with its `body` and builds the reply.
pub fn handle_request(
    hdr: &MessageHeader,
    body: &MessageBody,
    flash_manager: &mut FlashManager,
    active_channels: &mut ActiveChannelsList,
    secrets: &DecoderSecrets,
) -> (r: Reply)
    requires
        old(flash_manager).wf(),
    ensures
        final(flash_manager).wf(),
        hdr.opcode == 0x4C ==> r.msg_type == MsgType::List && r.body@ == list_bytes(
            old(flash_manager)@,
        ) && final(flash_manager)@ == old(flash_manager)@ && final(active_channels)@ == old(
            active_channels,
        )@,
        hdr.opcode == 0x53 ==> ({
            let s = subscribe_outcome(
                old(flash_manager)@,
                old(active_channels)@,
                hdr.length as int,
                body.data@,
                *secrets,
            );
            &&& r.msg_type == (if s.0 is Ok {
                MsgType::Subscribe
            } else {
                MsgType::Error
            })
            &&& r.body@.len() == 0
            &&& final(flash_manager)@ == s.1
            &&& final(active_channels)@ == s.2
        }),
        hdr.opcode == 0x44 && (hdr.length != FRAME_LEN || body.data@.len() < FRAME_LEN) ==> r.msg_type
            == MsgType::Error && r.body@.len() == 0 && final(flash_manager)@ == old(flash_manager)@
            && final(active_channels)@ == old(active_channels)@,
        hdr.opcode == 0x44 && hdr.length == FRAME_LEN && body.data@.len() >= FRAME_LEN ==> forall|
            f: ChannelFrame,
        |
            frame_bytes(f) == body.data@.subrange(0, FRAME_LEN as int) ==> {
                let d = decode_outcome(old(flash_manager)@, old(active_channels)@, f, *secrets);
                &&& final(flash_manager)@ == old(flash_manager)@
                &&& final(active_channels)@ == d.1
                &&& match d.0 {
                    Ok(p) => r.msg_type == MsgType::Decode && r.body@ == p,
                    Err(_) => r.msg_type == MsgType::Error && r.body@.len() == 0,
                }
            },
        hdr.opcode != 0x4C && hdr.opcode != 0x53 && hdr.opcode != 0x44 ==> r.msg_type
            == MsgType::Error && r.body@.len() == 0 && final(flash_manager)@ == old(flash_manager)@
            && final(active_channels)@ == old(active_channels)@,
{
    if hdr.opcode == MsgType::List.opcode() {
        Reply { msg_type: MsgType::List, body: list_body(flash_manager) }
    } else if hdr.opcode == MsgType::Subscribe.opcode() {
        match check_subscription_valid_and_store(
            hdr,
            body,
            flash_manager,
            active_channels,
            secrets,
        ) {
            Ok(()) => Reply { msg_type: MsgType::Subscribe, body: Vec::new() },
            Err(_) => Reply { msg_type: MsgType::Error, body: Vec::new() },
        }
    } else if hdr.opcode == MsgType::Decode.opcode() {
        if hdr.length as usize != FRAME_LEN || body.data.len() < FRAME_LEN {
            return Reply { msg_type: MsgType::Error, body: Vec::new() };
        }
        let frame = ChannelFrame::from_bytes(&body.data.as_slice()[0..FRAME_LEN]);
        proof {
            assert forall|f: ChannelFrame|
                frame_bytes(f) == body.data@.subrange(0, FRAME_LEN as int) implies f == frame by {
                crate::codec::lemma_frame_bytes_injective(f, frame);
            }
        }
        match decode_frame(flash_manager, &frame, active_channels, secrets) {
            Ok(p) => {
                let mut out: Vec<u8> = Vec::new();
                append_bytes(&mut out, p.as_slice());
                Reply { msg_type: MsgType::Decode, body: out }
            },
            Err(_) => Reply { msg_type: MsgType::Error, body: Vec::new() },
        }
    } else {
        Reply { msg_type: MsgType::Error, body: Vec::new() }
    }
}

} // verus!
