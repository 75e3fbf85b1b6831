//! Packed little-endian layouts of the records that travel over the host
//! link and live in flash.

use vstd::bytes::*;
use vstd::prelude::*;

verus! {

/// Length of a packed `ChannelInfo`.
pub const INFO_LEN: usize = 20;

/// Length of a packed `ChannelPassword`.
pub const PASSWORD_LEN: usize = 25;

/// Number of password slots in a subscription.
pub const NUM_PASSWORDS: usize = 128;

/// Length of a packed `ChannelPasswords` table.
pub const PASSWORDS_LEN: usize = 3200;

/// Length of a packed `ChannelSubscription`.
pub const SUBSCRIPTION_LEN: usize = 3220;

/// Length of a packed `ChannelFrame`.
pub const FRAME_LEN: usize = 152;

/// Length of the signed prefix of a frame (everything but the signature).
pub const FRAME_SIGNED_LEN: usize = 88;

#[derive(Clone, Copy, Debug, PartialEq, Eq, Structural)]
pub struct ChannelInfo {
    pub channel_id: u32,
    pub start_timestamp: u64,
    pub end_timestamp: u64,
}

#[derive(Clone, Copy, Debug)]
pub struct ChannelPassword {
    /// The node number shifted right by one.
    pub node_trunc: u64,
    /// 1 for a left child, 2 for a right child, 0 for an empty slot.
    pub node_ext: u8,
    pub password: [u8; 16],
}

#[derive(Clone, Copy, Debug)]
pub struct ChannelPasswords {
    pub contents: [ChannelPassword; 128],
}

#[derive(Clone, Copy, Debug)]
pub struct ChannelSubscription {
    pub info: ChannelInfo,
    pub passwords: ChannelPasswords,
}

#[derive(Clone, Copy, Debug)]
pub struct ChannelFrame {
    pub channel: u32,
    pub timestamp: u64,
    pub nonce: [u8; 12],
    pub encrypted_content: [u8; 64],
    pub signature: [u8; 64],
}

/// Little-endian bytes of a 32-bit word.
pub open spec fn le_word(x: u32) -> Seq<u8> {
    seq![
        (x % 256) as u8,
        (x / 256 % 256) as u8,
        (x / 65536 % 256) as u8,
        (x / 16777216) as u8,
    ]
}

/// The 32-bit word whose little-endian bytes open `b`.
pub open spec fn word_of(b: Seq<u8>) -> u32 {
    (b[0] + b[1] * 256 + b[2] * 65536 + b[3] * 16777216) as u32
}

pub proof fn lemma_word_round_trip(x: u32)
    ensures
        le_word(x).len() == 4,
        word_of(le_word(x)) == x,
{
    let b = le_word(x);
    assert(x == x % 256 + (x / 256 % 256) * 256 + (x / 65536 % 256) * 65536 + (x / 16777216)
        * 16777216) by (nonlinear_arith);
}

pub fn word_to_le(x: u32) -> (r: Vec<u8>)
    ensures
        r@ == le_word(x),
{
    let mut r: Vec<u8> = Vec::new();
    r.push((x % 256) as u8);
    r.push((x / 256 % 256) as u8);
    r.push((x / 65536 % 256) as u8);
    r.push((x / 16777216) as u8);
    assert(r@ =~= le_word(x));
    r
}

pub fn word_from_le(b: &[u8]) -> (r: u32)
    requires
        b@.len() == 4,
    ensures
        r == word_of(b@),
{
    b[0] as u32 + b[1] as u32 * 256 + b[2] as u32 * 65536 + b[3] as u32 * 16777216
}

pub open spec fn info_bytes(i: ChannelInfo) -> Seq<u8> {
    spec_u32_to_le_bytes(i.channel_id) + spec_u64_to_le_bytes(i.start_timestamp)
        + spec_u64_to_le_bytes(i.end_timestamp)
}

/// The `ChannelInfo` held by the first 20 bytes of `b`.
pub open spec fn info_of(b: Seq<u8>) -> ChannelInfo {
    ChannelInfo {
        channel_id: spec_u32_from_le_bytes(b.subrange(0, 4)),
        start_timestamp: spec_u64_from_le_bytes(b.subrange(4, 12)),
        end_timestamp: spec_u64_from_le_bytes(b.subrange(12, 20)),
    }
}

pub open spec fn password_bytes(p: ChannelPassword) -> Seq<u8> {
    spec_u64_to_le_bytes(p.node_trunc) + seq![p.node_ext] + p.password@
}

pub open spec fn passwords_bytes(s: Seq<ChannelPassword>) -> Seq<u8> {
    Seq::new(s.len() * 25, |k: int| password_bytes(s[k / 25])[k % 25])
}

pub open spec fn subscription_bytes(s: ChannelSubscription) -> Seq<u8> {
    info_bytes(s.info) + passwords_bytes(s.passwords.contents@)
}

/// The signed region of a frame: every field but the signature.
pub open spec fn frame_signed_bytes(f: ChannelFrame) -> Seq<u8> {
    spec_u32_to_le_bytes(f.channel) + spec_u64_to_le_bytes(f.timestamp) + f.nonce@
        + f.encrypted_content@
}

pub open spec fn frame_bytes(f: ChannelFrame) -> Seq<u8> {
    frame_signed_bytes(f) + f.signature@
}

pub proof fn lemma_info_round_trip(i: ChannelInfo)
    ensures
        info_bytes(i).len() == 20,
        info_of(info_bytes(i)) == i,
{
    lemma_auto_spec_u32_to_from_le_bytes();
    lemma_auto_spec_u64_to_from_le_bytes();
    let b = info_bytes(i);
    assert(b.subrange(0, 4) =~= spec_u32_to_le_bytes(i.channel_id));
    assert(b.subrange(4, 12) =~= spec_u64_to_le_bytes(i.start_timestamp));
    assert(b.subrange(12, 20) =~= spec_u64_to_le_bytes(i.end_timestamp));
}

pub proof fn lemma_info_of_prefix(b: Seq<u8>, n: int)
    requires
        20 <= n <= b.len(),
    ensures
        info_of(b.subrange(0, n)) == info_of(b),
{
    assert(b.subrange(0, n).subrange(0, 4) =~= b.subrange(0, 4));
    assert(b.subrange(0, n).subrange(4, 12) =~= b.subrange(4, 12));
    assert(b.subrange(0, n).subrange(12, 20) =~= b.subrange(12, 20));
}

pub proof fn lemma_password_bytes_len(p: ChannelPassword)
    ensures
        password_bytes(p).len() == 25,
{
    lemma_auto_spec_u64_to_from_le_bytes();
}

pub proof fn lemma_div25(k: int, n: int)
    requires
        25 * n <= k < 25 * n + 25,
    ensures
        k / 25 == n,
        k % 25 == k - 25 * n,
{
    vstd::arithmetic::div_mod::lemma_fundamental_div_mod_converse(k, 25, n, k - 25 * n);
}

pub proof fn lemma_passwords_bytes_len(s: Seq<ChannelPassword>)
    ensures
        passwords_bytes(s).len() == s.len() * 25,
{
}

/// Byte `k` of a packed table lies in slot `k / 25`, at offset `k % 25`.
pub proof fn lemma_passwords_bytes_slot(s: Seq<ChannelPassword>, i: int)
    requires
        0 <= i < s.len(),
    ensures
        passwords_bytes(s).subrange(25 * i, 25 * i + 25) == password_bytes(s[i]),
{
    lemma_password_bytes_len(s[i]);
    assert(25 * i + 25 <= s.len() * 25) by (nonlinear_arith)
        requires
            i < s.len(),
    ;
    assert forall|j: int| 0 <= j < 25 implies #[trigger] passwords_bytes(s).subrange(
        25 * i,
        25 * i + 25,
    )[j] == password_bytes(s[i])[j] by {
        lemma_div25(25 * i + j, i);
    }
    assert(passwords_bytes(s).subrange(25 * i, 25 * i + 25) =~= password_bytes(s[i]));
}

pub proof fn lemma_passwords_bytes_push(s: Seq<ChannelPassword>, p: ChannelPassword)
    ensures
        passwords_bytes(s.push(p)) == passwords_bytes(s) + password_bytes(p),
{
    lemma_password_bytes_len(p);
    let n = s.len() as int;
    assert forall|k: int| 0 <= k < 25 * n + 25 implies #[trigger] passwords_bytes(s.push(p))[k] == (
    passwords_bytes(s) + password_bytes(p))[k] by {
        if k < 25 * n {
            let q = k / 25;
            assert(0 <= q < n) by {
                vstd::arithmetic::div_mod::lemma_fundamental_div_mod(k, 25);
            }
        } else {
            lemma_div25(k, n);
        }
    }
    assert(passwords_bytes(s.push(p)) =~= passwords_bytes(s) + password_bytes(p));
}

/// Appends every byte of `src` to `out`.
pub fn append_bytes(out: &mut Vec<u8>, src: &[u8])
    ensures
        final(out)@ == old(out)@ + src@,
{
    let mut i: usize = 0;
    while i < src.len()
        invariant
            i <= src@.len(),
            out@ == old(out)@ + src@.subrange(0, i as int),
        decreases src@.len() - i,
    {
        out.push(src[i]);
        i = i + 1;
        assert(out@ =~= old(out)@ + src@.subrange(0, i as int));
    }
    assert(src@.subrange(0, i as int) =~= src@);
}

/// Copies `b` into an array of its length.
pub fn to_array<const N: usize>(b: &[u8]) -> (r: [u8; N])
    requires
        b@.len() == N,
    ensures
        r@ == b@,
{
    let mut a = [0u8; N];
    let mut i: usize = 0;
    while i < N
        invariant
            i <= N,
            b@.len() == N,
            a@.len() == N,
            forall|j: int| 0 <= j < i ==> a@[j] == b@[j],
        decreases N - i,
    {
        a[i] = b[i];
        i = i + 1;
    }
    assert(a@ =~= b@);
    a
}

impl ChannelInfo {
    pub fn to_bytes(&self) -> (r: Vec<u8>)
        ensures
            r@ == info_bytes(*self),
            r@.len() == INFO_LEN,
    {
        proof {
            lemma_auto_spec_u32_to_from_le_bytes();
            lemma_auto_spec_u64_to_from_le_bytes();
        }
        let mut r = u32_to_le_bytes(self.channel_id);
        let s = u64_to_le_bytes(self.start_timestamp);
        let e = u64_to_le_bytes(self.end_timestamp);
        append_bytes(&mut r, s.as_slice());
        append_bytes(&mut r, e.as_slice());
        r
    }

    pub fn from_bytes(b: &[u8]) -> (r: ChannelInfo)
        requires
            b@.len() >= INFO_LEN,
        ensures
            r == info_of(b@),
    {
        ChannelInfo {
            channel_id: u32_from_le_bytes(&b[0..4]),
            start_timestamp: u64_from_le_bytes(&b[4..12]),
            end_timestamp: u64_from_le_bytes(&b[12..20]),
        }
    }
}

impl ChannelPassword {
    /// An unused slot.
    pub fn empty() -> (r: ChannelPassword)
        ensures
            r.node_trunc == 0,
            r.node_ext == 0,
            r.password@ == Seq::new(16, |i: int| 0u8),
    {
        let r = ChannelPassword { node_trunc: 0, node_ext: 0, password: [0u8; 16] };
        assert(r.password@ =~= Seq::new(16, |i: int| 0u8));
        r
    }

    pub fn to_bytes(&self) -> (r: Vec<u8>)
        ensures
            r@ == password_bytes(*self),
    {
        let mut r = u64_to_le_bytes(self.node_trunc);
        r.push(self.node_ext);
        append_bytes(&mut r, self.password.as_slice());
        assert(r@ =~= password_bytes(*self));
        r
    }

    pub fn from_bytes(b: &[u8]) -> (r: ChannelPassword)
        requires
            b@.len() == PASSWORD_LEN,
        ensures
            password_bytes(r) == b@,
    {
        let r = ChannelPassword {
            node_trunc: u64_from_le_bytes(&b[0..8]),
            node_ext: b[8],
            password: to_array(&b[9..25]),
        };
        proof {
            lemma_auto_spec_u64_to_from_le_bytes();
            assert(password_bytes(r) =~= b@);
        }
        r
    }
}

impl ChannelPasswords {
    /// A table with every slot unused.
    pub fn empty() -> (r: ChannelPasswords)
        ensures
            forall|i: int|
                0 <= i < 128 ==> {
                    &&& (#[trigger] r.contents@[i]).node_ext == 0
                    &&& r.contents@[i].node_trunc == 0
                    &&& r.contents@[i].password@ == Seq::new(16, |j: int| 0u8)
                },
    {
        ChannelPasswords { contents: [ChannelPassword::empty(); 128] }
    }

    pub fn to_bytes(&self) -> (r: Vec<u8>)
        ensures
            r@ == passwords_bytes(self.contents@),
            r@.len() == PASSWORDS_LEN,
    {
        let mut r: Vec<u8> = Vec::new();
        let mut i: usize = 0;
        while i < NUM_PASSWORDS
            invariant
                i <= 128,
                self.contents@.len() == 128,
                r@ == passwords_bytes(self.contents@.subrange(0, i as int)),
            decreases 128 - i,
        {
            let b = self.contents[i].to_bytes();
            append_bytes(&mut r, b.as_slice());
            proof {
                lemma_passwords_bytes_push(self.contents@.subrange(0, i as int), self.contents@[i as int]);
                assert(self.contents@.subrange(0, i as int).push(self.contents@[i as int])
                    =~= self.contents@.subrange(0, i + 1));
            }
            i = i + 1;
        }
        assert(self.contents@.subrange(0, 128) =~= self.contents@);
        r
    }

    pub fn from_bytes(b: &[u8]) -> (r: ChannelPasswords)
        requires
            b@.len() == PASSWORDS_LEN,
        ensures
            passwords_bytes(r.contents@) == b@,
    {
        let mut contents = [ChannelPassword::empty(); 128];
        let mut i: usize = 0;
        while i < NUM_PASSWORDS
            invariant
                i <= 128,
                b@.len() == 3200,
                contents@.len() == 128,
                forall|j: int|
                    0 <= j < i ==> password_bytes(#[trigger] contents@[j]) == b@.subrange(
                        25 * j,
                        25 * j + 25,
                    ),
            decreases 128 - i,
        {
            let p = ChannelPassword::from_bytes(&b[25 * i..25 * i + 25]);
            contents[i] = p;
            i = i + 1;
        }
        let r = ChannelPasswords { contents };
        assert forall|k: int| 0 <= k < 3200 implies #[trigger] passwords_bytes(r.contents@)[k]
            == b@[k] by {
            let q = k / 25;
            vstd::arithmetic::div_mod::lemma_fundamental_div_mod(k, 25);
            assert(0 <= q < 128);
            lemma_div25(k, q);
            assert(password_bytes(r.contents@[q]) == b@.subrange(25 * q, 25 * q + 25));
        }
        assert(passwords_bytes(r.contents@) =~= b@);
        r
    }
}

impl ChannelSubscription {
    pub fn to_bytes(&self) -> (r: Vec<u8>)
        ensures
            r@ == subscription_bytes(*self),
            r@.len() == SUBSCRIPTION_LEN,
    {
        let mut r = self.info.to_bytes();
        let p = self.passwords.to_bytes();
        append_bytes(&mut r, p.as_slice());
        r
    }

    pub fn from_bytes(b: &[u8]) -> (r: ChannelSubscription)
        requires
            b@.len() == SUBSCRIPTION_LEN,
        ensures
            subscription_bytes(r) == b@,
            r.info == info_of(b@),
    {
        let info = ChannelInfo::from_bytes(&b[0..20]);
        let passwords = ChannelPasswords::from_bytes(&b[20..3220]);
        let r = ChannelSubscription { info, passwords };
        proof {
            lemma_info_of_prefix(b@, 20);
            lemma_auto_spec_u32_to_from_le_bytes();
            lemma_auto_spec_u64_to_from_le_bytes();
            let h = b@.subrange(0, 20);
            assert(h.subrange(0, 4) =~= b@.subrange(0, 4));
            assert(h.subrange(4, 12) =~= b@.subrange(4, 12));
            assert(h.subrange(12, 20) =~= b@.subrange(12, 20));
            assert(info_bytes(info) =~= h);
            assert(subscription_bytes(r) =~= b@);
        }
        r
    }
}

impl ChannelFrame {
    pub fn to_bytes(&self) -> (r: Vec<u8>)
        ensures
            r@ == frame_bytes(*self),
            r@.len() == FRAME_LEN,
    {
        proof {
            lemma_auto_spec_u32_to_from_le_bytes();
            lemma_auto_spec_u64_to_from_le_bytes();
        }
        let mut r = u32_to_le_bytes(self.channel);
        let t = u64_to_le_bytes(self.timestamp);
        append_bytes(&mut r, t.as_slice());
        append_bytes(&mut r, self.nonce.as_slice());
        append_bytes(&mut r, self.encrypted_content.as_slice());
        append_bytes(&mut r, self.signature.as_slice());
        r
    }

    pub fn from_bytes(b: &[u8]) -> (r: ChannelFrame)
        requires
            b@.len() == FRAME_LEN,
        ensures
            frame_bytes(r) == b@,
    {
        let r = ChannelFrame {
            channel: u32_from_le_bytes(&b[0..4]),
            timestamp: u64_from_le_bytes(&b[4..12]),
            nonce: to_array(&b[12..24]),
            encrypted_content: to_array(&b[24..88]),
            signature: to_array(&b[88..152]),
        };
        proof {
            lemma_auto_spec_u32_to_from_le_bytes();
            lemma_auto_spec_u64_to_from_le_bytes();
            assert(frame_bytes(r) =~= b@);
        }
        r
    }
}

/// A frame is determined by its packed bytes.
pub proof fn lemma_frame_bytes_injective(f: ChannelFrame, g: ChannelFrame)
    requires
        frame_bytes(f) == frame_bytes(g),
    ensures
        f == g,
{
    lemma_auto_spec_u32_to_from_le_bytes();
    lemma_auto_spec_u64_to_from_le_bytes();
    let a = frame_bytes(f);
    let b = frame_bytes(g);
    assert(a.subrange(0, 4) =~= spec_u32_to_le_bytes(f.channel));
    assert(b.subrange(0, 4) =~= spec_u32_to_le_bytes(g.channel));
    assert(a.subrange(4, 12) =~= spec_u64_to_le_bytes(f.timestamp));
    assert(b.subrange(4, 12) =~= spec_u64_to_le_bytes(g.timestamp));
    assert(f.nonce@ =~= a.subrange(12, 24));
    assert(g.nonce@ =~= b.subrange(12, 24));
    assert(f.encrypted_content@ =~= a.subrange(24, 88));
    assert(g.encrypted_content@ =~= b.subrange(24, 88));
    assert(f.signature@ =~= a.subrange(88, 152));
    assert(g.signature@ =~= b.subrange(88, 152));
    assert(f.nonce =~= g.nonce);
    assert(f.encrypted_content =~= g.encrypted_content);
    assert(f.signature =~= g.signature);
}

} // verus!
