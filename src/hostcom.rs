//! The host link: 4-byte packet headers (`'%'`, opcode, little-endian
//! length), bodies sent in 256-byte chunks, and acknowledgements.

use crate::codec::{info_bytes, ChannelInfo};
use vstd::prelude::*;
use vstd::string::StringSliceAdditionalSpecFns;

verus! {

/// First byte of every packet header.
pub const MSG_MAGIC: u8 = 0x25;

/// Bodies travel in chunks of this many bytes, each acknowledged.
pub const CHUNK_SIZE: usize = 256;

#[derive(Clone, Copy, Debug, PartialEq, Eq, Structural)]
pub enum MsgType {
    Decode,
    Subscribe,
    List,
    Ack,
    Debug,
    Error,
}

/// Another name for the packet type.
pub type MessageType = MsgType;

/// The opcode byte of each packet type.
pub open spec fn opcode_of(t: MsgType) -> u8 {
    match t {
        MsgType::Decode => 0x44,
        MsgType::Subscribe => 0x53,
        MsgType::List => 0x4C,
        MsgType::Ack => 0x41,
        MsgType::Debug => 0x47,
        MsgType::Error => 0x45,
    }
}

impl MsgType {
    /// The opcode byte of this packet type.
    pub fn opcode(self) -> (r: u8)
        ensures
            r == opcode_of(self),
    {
        match self {
            MsgType::Decode => 0x44,
            MsgType::Subscribe => 0x53,
            MsgType::List => 0x4C,
            MsgType::Ack => 0x41,
            MsgType::Debug => 0x47,
            MsgType::Error => 0x45,
        }
    }

    /// The packet type with opcode `b`, if any.
    pub fn try_from(b: u8) -> (r: Result<MsgType, ()>)
        ensures
            r matches Ok(t) ==> opcode_of(t) == b,
            r is Err ==> forall|t: MsgType| opcode_of(t) != b,
    {
        if b == 0x44 {
            Ok(MsgType::Decode)
        } else if b == 0x53 {
            Ok(MsgType::Subscribe)
        } else if b == 0x4C {
            Ok(MsgType::List)
        } else if b == 0x41 {
            Ok(MsgType::Ack)
        } else if b == 0x47 {
            Ok(MsgType::Debug)
        } else if b == 0x45 {
            Ok(MsgType::Error)
        } else {
            Err(())
        }
    }
}

#[derive(Clone, Copy, Debug, PartialEq, Eq, Structural)]
pub struct MessageHeader {
    pub magic: u8,
    pub opcode: u8,
    pub length: u16,
}

/// The body of a packet as received.
#[derive(Debug)]
pub struct MessageBody {
    pub data: Vec<u8>,
    pub length: u16,
}

pub open spec fn header_bytes(h: MessageHeader) -> Seq<u8> {
    seq![h.magic, h.opcode, (h.length % 256) as u8, (h.length / 256) as u8]
}

impl MessageHeader {
    /// A header of type `t` announcing a body of `length` bytes.
    pub fn new(t: MsgType, length: u16) -> (r: MessageHeader)
        ensures
            r == (MessageHeader { magic: MSG_MAGIC, opcode: opcode_of(t), length }),
    {
        MessageHeader { magic: MSG_MAGIC, opcode: t.opcode(), length }
    }

    pub fn to_bytes(&self) -> (r: [u8; 4])
        ensures
            r@ == header_bytes(*self),
    {
        let r = [self.magic, self.opcode, (self.length % 256) as u8, (self.length / 256) as u8];
        assert(r@ =~= header_bytes(*self));
        r
    }
}

/// The serial link to the host: blocking byte reads and writes.
pub trait UartHalOps {
    fn read_byte(&mut self) -> u8;

    fn write_byte(&mut self, byte: u8);
}

/// One byte of traffic on the link, in the order it happened.
#[derive(Clone, Copy, Debug, PartialEq, Eq, Structural)]
pub enum Traffic {
    /// A byte read from the host.
    In(u8),
    /// A byte written to the host.
    Out(u8),
}

/// `bytes` read from the host, in order.
pub open spec fn ins(bytes: Seq<u8>) -> Seq<Traffic> {
    Seq::new(bytes.len(), |i: int| Traffic::In(bytes[i]))
}

/// `bytes` written to the host, in order.
pub open spec fn outs(bytes: Seq<u8>) -> Seq<Traffic> {
    Seq::new(bytes.len(), |i: int| Traffic::Out(bytes[i]))
}

/// A link to the host together with the history of its traffic.
pub struct Console<U> {
    uart: U,
    log: Ghost<Seq<Traffic>>,
}

impl<U> Console<U> {
    /// The bytes read from and written to the link so far, in order.
    pub closed spec fn log(&self) -> Seq<Traffic> {
        self.log@
    }

    /// The device the link runs over.
    pub closed spec fn device(&self) -> U {
        self.uart
    }

    /// The device the link runs over.
    pub fn uart(&self) -> (r: &U)
        ensures
            *r == self.device(),
    {
        &self.uart
    }
}

impl<U: UartHalOps> Console<U> {
    pub fn new(uart: U) -> (r: Console<U>)
        ensures
            r.device() == uart,
            r.log() == Seq::<Traffic>::empty(),
    {
        Console { uart, log: Ghost(Seq::empty()) }
    }

    /// Blocks until the host sends a byte, and returns it.
    pub fn read_byte(&mut self) -> (b: u8)
        ensures
            final(self).log() == old(self).log().push(Traffic::In(b)),
    {
        let b = self.uart.read_byte();
        self.log = Ghost(self.log@.push(Traffic::In(b)));
        b
    }

    /// Blocks until `byte` is handed to the link.
    pub fn write_byte(&mut self, byte: u8)
        ensures
            final(self).log() == old(self).log().push(Traffic::Out(byte)),
    {
        self.uart.write_byte(byte);
        self.log = Ghost(self.log@.push(Traffic::Out(byte)));
    }
}

/// The four bytes of an `Ack` packet.
pub open spec fn ack_bytes() -> Seq<u8> {
    seq![MSG_MAGIC, 0x41u8, 0u8, 0u8]
}

/// Number of chunks a body of `len` bytes travels in.
pub open spec fn chunk_count(len: int) -> nat {
    ((len + 255) / 256) as nat
}

/// The traffic of receiving the first `n` chunks of `body`: each chunk is
/// read, then acknowledged.
pub open spec fn body_traffic(body: Seq<u8>, n: nat) -> Seq<Traffic>
    decreases n,
{
    if n == 0 {
        Seq::empty()
    } else {
        body_traffic(body, (n - 1) as nat) + ins(chunk_of(body, n - 1)) + outs(ack_bytes())
    }
}

proof fn lemma_body_traffic_prefix(d1: Seq<u8>, d2: Seq<u8>, n: nat)
    requires
        256 * n <= d1.len() <= d2.len(),
        d2.subrange(0, d1.len() as int) == d1,
    ensures
        body_traffic(d1, n) == body_traffic(d2, n),
    decreases n,
{
    if n > 0 {
        lemma_body_traffic_prefix(d1, d2, (n - 1) as nat);
        let j = n - 1;
        assert(chunk_of(d1, j) =~= chunk_of(d2, j)) by {
            assert forall|k: int| 0 <= k < 256 implies chunk_of(d1, j)[k] == chunk_of(d2, j)[k] by {
                assert(d2.subrange(0, d1.len() as int)[256 * j + k] == d2[256 * j + k]);
            }
        }
    }
}

/// Writes every byte of `bytes` in order.
pub fn write_all<U: UartHalOps>(console: &mut Console<U>, bytes: &[u8])
    ensures
        final(console).log() == old(console).log() + outs(bytes@),
{
    let mut i: usize = 0;
    while i < bytes.len()
        invariant
            i <= bytes@.len(),
            console.log() == old(console).log() + outs(bytes@.subrange(0, i as int)),
        decreases bytes@.len() - i,
    {
        console.write_byte(bytes[i]);
        i = i + 1;
        assert(console.log() =~= old(console).log() + outs(bytes@.subrange(0, i as int)));
    }
    assert(bytes@.subrange(0, i as int) =~= bytes@);
}

/// Writes an `Ack` packet.
pub fn write_ack<U: UartHalOps>(console: &mut Console<U>) -> (r: i32)
    ensures
        r == 0,
        final(console).log() == old(console).log() + outs(ack_bytes()),
{
    let ack = [MSG_MAGIC, MsgType::Ack.opcode(), 0, 0];
    assert(ack@ =~= ack_bytes());
    write_all(console, ack.as_slice());
    0
}

/// Writes an `Error` packet.
pub fn write_error<U: UartHalOps>(console: &mut Console<U>) -> (r: i32)
    ensures
        r == 0,
        final(console).log() == old(console).log() + outs(seq![MSG_MAGIC, 0x45u8, 0u8, 0u8]),
{
    let err = [MSG_MAGIC, MsgType::Error.opcode(), 0, 0];
    assert(err@ =~= seq![MSG_MAGIC, 0x45u8, 0u8, 0u8]);
    write_all(console, err.as_slice());
    0
}

/// Reads a body of `length` bytes in chunks of 256, acknowledging each
/// chunk once it has arrived.
pub fn read_body<U: UartHalOps>(console: &mut Console<U>, length: u16) -> (body: MessageBody)
    ensures
        body.length == length,
        body.data@.len() == length,
        final(console).log() == old(console).log() + body_traffic(
            body.data@,
            chunk_count(length as int),
        ),
{
    let total = length as usize;
    let mut data: Vec<u8> = Vec::new();
    let mut offset: usize = 0;
    while offset < total
        invariant
            offset <= total,
            total == length,
            offset % 256 == 0 || offset == total,
            offset == total ==> chunk_count(total as int) == chunk_count(offset as int),
            offset < total ==> 256 * chunk_count(offset as int) == offset,
            data@.len() == offset,
            console.log() == old(console).log() + body_traffic(data@, chunk_count(offset as int)),
        decreases total - offset,
    {
        let chunk_size = if total - offset < CHUNK_SIZE {
            total - offset
        } else {
            CHUNK_SIZE
        };
        let ghost start = data@;
        let ghost n = chunk_count(offset as int);
        let mut i: usize = 0;
        while i < chunk_size
            invariant
                i <= chunk_size,
                offset + chunk_size <= total,
                data@.len() == offset + i,
                data@.subrange(0, offset as int) == start,
                console.log() == old(console).log() + body_traffic(start, n) + ins(
                    data@.subrange(offset as int, offset + i),
                ),
            decreases chunk_size - i,
        {
            let b = console.read_byte();
            data.push(b);
            i = i + 1;
            assert(data@.subrange(0, offset as int) =~= start);
            assert(ins(data@.subrange(offset as int, offset + i)) =~= ins(
                data@.subrange(offset as int, offset + i - 1),
            ).push(Traffic::In(b)));
        }
        let _ = write_ack(console);
        proof {
            assert(chunk_count(offset + chunk_size) == n + 1);
            lemma_body_traffic_prefix(start, data@, n);
            assert(chunk_of(data@, n as int) =~= data@.subrange(offset as int, offset + chunk_size));
            assert(console.log() =~= old(console).log() + body_traffic(data@, n + 1));
        }
        offset = offset + chunk_size;
    }
    MessageBody { data, length }
}

/// Writes a `Debug` packet carrying `msg`; it is not acknowledged.
pub fn write_debug<U: UartHalOps>(console: &mut Console<U>, msg: &str)
    requires
        msg.spec_bytes().len() <= 0xFFFF,
    ensures
        final(console).log() == old(console).log() + outs(
            header_bytes(
                MessageHeader {
                    magic: MSG_MAGIC,
                    opcode: 0x47,
                    length: msg.spec_bytes().len() as u16,
                },
            ) + msg.spec_bytes(),
        ),
{
    let bytes = msg.as_bytes();
    let header = MessageHeader::new(MsgType::Debug, bytes.len() as u16);
    let hdr_bytes = header.to_bytes();
    write_all(console, hdr_bytes.as_slice());
    write_all(console, bytes);
    assert(outs(hdr_bytes@) + outs(bytes@) =~= outs(header_bytes(header) + msg.spec_bytes()));
}

/// Writes the 20 packed bytes of `channel`.
pub fn write_channel<U: UartHalOps>(console: &mut Console<U>, channel: &ChannelInfo) -> (r: i32)
    ensures
        r == 0,
        final(console).log() == old(console).log() + outs(info_bytes(*channel)),
{
    let bytes = channel.to_bytes();
    write_all(console, bytes.as_slice());
    0
}

/// Finds packet headers in the incoming byte stream: bytes before a `'%'`
/// are dropped, and the three bytes after it complete the header.
pub struct HeaderScanner {
    /// How many header bytes have been seen: 0 while hunting for the magic.
    pub stage: u8,
    pub opcode: u8,
    pub length_low: u8,
}

/// The scanner's state after byte `b`, and the header `b` completes.
pub open spec fn scan_step(st: (u8, u8, u8), b: u8) -> ((u8, u8, u8), Option<MessageHeader>) {
    let (stage, opcode, low) = st;
    if stage == 0 {
        (if b == MSG_MAGIC { (1u8, opcode, low) } else { (0u8, opcode, low) }, None)
    } else if stage == 1 {
        ((2u8, b, low), None)
    } else if stage == 2 {
        ((3u8, opcode, b), None)
    } else {
        (
            (0u8, opcode, low),
            Some(MessageHeader { magic: MSG_MAGIC, opcode, length: (low + 256 * b) as u16 }),
        )
    }
}

/// The scanner's state after `bytes`, and the headers they complete, in order.
pub open spec fn scan_bytes(st: (u8, u8, u8), bytes: Seq<u8>) -> ((u8, u8, u8), Seq<MessageHeader>)
    decreases bytes.len(),
{
    if bytes.len() == 0 {
        (st, Seq::empty())
    } else {
        let (st1, h) = scan_step(st, bytes[0]);
        let (st2, hs) = scan_bytes(st1, bytes.drop_first());
        (
            st2,
            match h {
                Some(x) => seq![x] + hs,
                None => hs,
            },
        )
    }
}

/// Resynchronization: from the hunting state, any bytes without a `'%'`
/// followed by `'%'`, an opcode and a little-endian length give exactly
/// the header they spell, and leave the scanner hunting again.
pub proof fn lemma_scanner_resynchronizes(
    st: (u8, u8, u8),
    junk: Seq<u8>,
    opcode: u8,
    lo: u8,
    hi: u8,
)
    requires
        st.0 == 0,
        forall|i: int| 0 <= i < junk.len() ==> junk[i] != MSG_MAGIC,
    ensures
        scan_bytes(st, junk + seq![MSG_MAGIC, opcode, lo, hi]).1 == seq![
            MessageHeader { magic: MSG_MAGIC, opcode, length: (lo + 256 * hi) as u16 },
        ],
        scan_bytes(st, junk + seq![MSG_MAGIC, opcode, lo, hi]).0.0 == 0,
    decreases junk.len(),
{
    let tail = seq![MSG_MAGIC, opcode, lo, hi];
    let all = junk + tail;
    let h = MessageHeader { magic: MSG_MAGIC, opcode, length: (lo + 256 * hi) as u16 };
    if junk.len() == 0 {
        let e = Seq::<u8>::empty();
        let s0 = (0u8, opcode, lo);
        assert(scan_bytes(s0, e) == (s0, Seq::<MessageHeader>::empty()));
        let s3 = (3u8, opcode, lo);
        assert(seq![hi].drop_first() =~= e);
        assert(scan_bytes(s3, seq![hi]).1 =~= seq![h]);
        assert(scan_bytes(s3, seq![hi]).0 == s0);
        let s2 = (2u8, opcode, st.2);
        assert(seq![lo, hi].drop_first() =~= seq![hi]);
        assert(scan_bytes(s2, seq![lo, hi]) == scan_bytes(s3, seq![hi]));
        let s1 = (1u8, st.1, st.2);
        assert(seq![opcode, lo, hi].drop_first() =~= seq![lo, hi]);
        assert(scan_bytes(s1, seq![opcode, lo, hi]) == scan_bytes(s2, seq![lo, hi]));
        assert(tail.drop_first() =~= seq![opcode, lo, hi]);
        assert(all =~= tail);
        assert(scan_bytes(st, tail) == scan_bytes(s1, seq![opcode, lo, hi]));
    } else {
        assert(all[0] == junk[0]);
        assert(all.drop_first() =~= junk.drop_first() + tail);
        lemma_scanner_resynchronizes((0u8, st.1, st.2), junk.drop_first(), opcode, lo, hi);
    }
}

impl HeaderScanner {
    pub open spec fn wf(&self) -> bool {
        self.stage <= 3
    }

    pub open spec fn state(&self) -> (u8, u8, u8) {
        (self.stage, self.opcode, self.length_low)
    }

    pub fn new() -> (r: HeaderScanner)
        ensures
            r.wf(),
            r.stage == 0,
    {
        HeaderScanner { stage: 0, opcode: 0, length_low: 0 }
    }

    /// Takes the next byte from the link; returns the header it completes.
    pub fn feed(&mut self, b: u8) -> (r: Option<MessageHeader>)
        requires
            old(self).wf(),
        ensures
            final(self).wf(),
            (final(self).state(), r) == scan_step(old(self).state(), b),
    {
        if self.stage == 0 {
            if b == MSG_MAGIC {
                self.stage = 1;
            }
            None
        } else if self.stage == 1 {
            self.opcode = b;
            self.stage = 2;
            None
        } else if self.stage == 2 {
            self.length_low = b;
            self.stage = 3;
            None
        } else {
            self.stage = 0;
            Some(
                MessageHeader {
                    magic: MSG_MAGIC,
                    opcode: self.opcode,
                    length: self.length_low as u16 + 256 * (b as u16),
                },
            )
        }
    }
}

impl MessageHeader {
    /// Whether this header is an `Ack`.
    pub fn is_ack(&self) -> (r: bool)
        ensures
            r == (self.opcode == 0x41),
    {
        self.opcode == MsgType::Ack.opcode()
    }
}

/// A packet as sent: its header, then its body in chunks of at most 256
/// bytes. When `acked`, the sender waits for an `Ack` after the header and
/// after each chunk.
pub struct PacketPlan {
    pub header: [u8; 4],
    pub chunks: Vec<Vec<u8>>,
    pub acked: bool,
}

/// Chunk `i` of `body`.
pub open spec fn chunk_of(body: Seq<u8>, i: int) -> Seq<u8> {
    body.subrange(256 * i, if 256 * i + 256 <= body.len() { 256 * i + 256 } else { body.len() as int })
}

/// Lays out the packet of type `t` with `body`: every packet but `Debug`
/// and `Ack` is acknowledged after its header and after each chunk.
pub fn packet_plan(t: MsgType, body: &[u8]) -> (r: PacketPlan)
    requires
        body@.len() <= 0xFFFF,
    ensures
        r.header@ == header_bytes(
            MessageHeader { magic: MSG_MAGIC, opcode: opcode_of(t), length: body@.len() as u16 },
        ),
        r.acked == (t != MsgType::Debug && t != MsgType::Ack),
        r.chunks@.len() == chunk_count(body@.len() as int),
        forall|i: int| 0 <= i < r.chunks@.len() ==> (#[trigger] r.chunks@[i])@ == chunk_of(body@, i),
{
    let header = MessageHeader::new(t, body.len() as u16).to_bytes();
    let mut chunks: Vec<Vec<u8>> = Vec::new();
    let mut offset: usize = 0;
    while offset < body.len()
        invariant
            offset <= body@.len() <= 0xFFFF,
            offset % 256 == 0 || offset == body@.len(),
            chunks@.len() == chunk_count(offset as int),
            offset == body@.len() ==> chunk_count(offset as int) == chunk_count(body@.len() as int),
            forall|i: int| 0 <= i < chunks@.len() ==> (#[trigger] chunks@[i])@ == chunk_of(body@, i),
        decreases body@.len() - offset,
    {
        let end = if body.len() - offset < CHUNK_SIZE {
            body.len()
        } else {
            offset + CHUNK_SIZE
        };
        let mut chunk: Vec<u8> = Vec::new();
        crate::codec::append_bytes(&mut chunk, &body[offset..end]);
        assert(offset == 256 * chunks@.len());
        assert(chunk@ == chunk_of(body@, chunks@.len() as int));
        chunks.push(chunk);
        offset = end;
    }
    let acked = match t {
        MsgType::Debug => false,
        MsgType::Ack => false,
        _ => true,
    };
    PacketPlan { header, chunks, acked }
}

} // verus!
