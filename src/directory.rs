//! The subscription directory: `MAX_SUBS` flash pages, each either free or
//! holding the magic `PAGE_MAGIC` followed by a packed `ChannelSubscription`.
//! Occupied pages come first; the first free page is where a new channel goes.

use crate::codec::{
    word_of, info_of, subscription_bytes, ChannelInfo, ChannelSubscription, INFO_LEN, SUBSCRIPTION_LEN,
};
use crate::flash::{
    erased_page, lemma_erased_fits, offset, padded_len, range_ok, tagged_bytes, update_range,
    FlashManager, FlashManagerError, BASE_ADDRESS, MAX_SUBS, PAGE_SIZE,
};
use vstd::prelude::*;

verus! {

/// First word of an occupied page.
pub const PAGE_MAGIC: u32 = 0xABCD;

#[derive(Clone, Copy, Debug, PartialEq, Eq, Structural)]
pub enum SubscriptionError {
    /// A subscription for channel 0 was offered.
    InvalidChannelId,
    /// Every page holds another channel.
    NoPageFound,
    FlashManagerError(FlashManagerError),
    /// The update's signature does not verify under the host key.
    BadSignature,
    /// The update is addressed to another decoder.
    WrongDecoder,
    /// The update's length is outside what its layout allows.
    Malformed,
}

impl From<FlashManagerError> for SubscriptionError {
    fn from(error: FlashManagerError) -> (r: SubscriptionError) {
        SubscriptionError::FlashManagerError(error)
    }
}

impl vstd::std_specs::convert::FromSpecImpl<FlashManagerError> for SubscriptionError {
    open spec fn obeys_from_spec() -> bool {
        true
    }

    open spec fn from_spec(error: FlashManagerError) -> SubscriptionError {
        SubscriptionError::FlashManagerError(error)
    }
}

pub open spec fn page_addr(k: int) -> u32 {
    (BASE_ADDRESS + k * PAGE_SIZE) as u32
}

pub open spec fn page_offset(k: int) -> int {
    k * PAGE_SIZE
}

pub open spec fn page_magic(mem: Seq<u8>, k: int) -> u32 {
    word_of(mem.subrange(page_offset(k), page_offset(k) + 4))
}

pub open spec fn occupied(mem: Seq<u8>, k: int) -> bool {
    page_magic(mem, k) == PAGE_MAGIC
}

/// The `ChannelInfo` at the head of the record on page `k`.
pub open spec fn page_info(mem: Seq<u8>, k: int) -> ChannelInfo {
    info_of(mem.subrange(page_offset(k) + 4, page_offset(k) + 24))
}

/// The bytes of the subscription record on page `k`.
pub open spec fn page_record(mem: Seq<u8>, k: int) -> Seq<u8> {
    mem.subrange(page_offset(k) + 4, page_offset(k) + 4 + SUBSCRIPTION_LEN)
}

/// The first free page at or after `k`, or `MAX_SUBS`.
pub open spec fn run_from(mem: Seq<u8>, k: int) -> int
    decreases 8 - k,
{
    if k >= 8 || k < 0 {
        8
    } else if !occupied(mem, k) {
        k
    } else {
        run_from(mem, k + 1)
    }
}

/// Number of occupied pages before the first free one.
pub open spec fn occupied_count(mem: Seq<u8>) -> int {
    run_from(mem, 0)
}

/// Occupied pages all come before free ones.
pub open spec fn left_packed(mem: Seq<u8>) -> bool {
    forall|j: int, k: int| 0 <= j < k < 8 && !occupied(mem, j) ==> !occupied(mem, k)
}

/// What a scan of the directory yields: the occupied pages, then, when
/// asked for and when there is one, the first free page.
pub open spec fn scan(mem: Seq<u8>, return_empty: bool) -> Seq<(u32, Option<ChannelInfo>)> {
    let n = occupied_count(mem);
    let occ = Seq::new(n as nat, |j: int| (page_addr(j), Some(page_info(mem, j))));
    if return_empty && n < 8 {
        occ.push((page_addr(n), None))
    } else {
        occ
    }
}

/// The first occupied page at or after `k` that holds `id`.
pub open spec fn find_from(mem: Seq<u8>, id: u32, k: int) -> Option<int>
    decreases 8 - k,
{
    if k >= 8 || k < 0 || k >= occupied_count(mem) {
        None
    } else if page_info(mem, k).channel_id == id {
        Some(k)
    } else {
        find_from(mem, id, k + 1)
    }
}

pub open spec fn find_page(mem: Seq<u8>, id: u32) -> Option<int> {
    find_from(mem, id, 0)
}

/// The page an upsert of `id` writes: the page that holds `id`, else the
/// first free page, else none.
pub open spec fn target_page(mem: Seq<u8>, id: u32) -> Option<int> {
    match find_page(mem, id) {
        Some(k) => Some(k),
        None => if occupied_count(mem) < 8 {
            Some(occupied_count(mem))
        } else {
            None
        },
    }
}

/// `mem` after page `k` is erased and the record `rec` is written to it under the magic.
#[verifier::opaque]
pub open spec fn stored(mem: Seq<u8>, k: int, rec: Seq<u8>) -> Seq<u8> {
    update_range(erased_page(mem, page_offset(k)), page_offset(k), tagged_bytes(PAGE_MAGIC, rec))
}

pub proof fn lemma_run_from(mem: Seq<u8>, k: int)
    requires
        0 <= k <= 8,
    ensures
        k <= run_from(mem, k) <= 8,
        forall|j: int| k <= j < run_from(mem, k) ==> occupied(mem, j),
        run_from(mem, k) < 8 ==> !occupied(mem, run_from(mem, k)),
    decreases 8 - k,
{
    if k < 8 && occupied(mem, k) {
        lemma_run_from(mem, k + 1);
    }
}

/// Under left-packing, the occupied pages are exactly the first `occupied_count`.
pub proof fn lemma_packed_occupied(mem: Seq<u8>, k: int)
    requires
        left_packed(mem),
        0 <= k < 8,
    ensures
        occupied(mem, k) <==> k < occupied_count(mem),
{
    lemma_run_from(mem, 0);
}

pub proof fn lemma_find_from(mem: Seq<u8>, id: u32, k: int)
    requires
        0 <= k <= occupied_count(mem),
    ensures
        find_from(mem, id, k) matches Some(m) ==> k <= m < occupied_count(mem) && page_info(
            mem,
            m,
        ).channel_id == id && forall|j: int| k <= j < m ==> page_info(mem, j).channel_id != id,
        find_from(mem, id, k) is None ==> forall|j: int|
            k <= j < occupied_count(mem) ==> page_info(mem, j).channel_id != id,
    decreases 8 - k,
{
    lemma_run_from(mem, 0);
    if k < occupied_count(mem) && page_info(mem, k).channel_id != id {
        lemma_find_from(mem, id, k + 1);
    }
}

pub proof fn lemma_page_ranges(k: int)
    requires
        0 <= k < 8,
    ensures
        range_ok(page_addr(k), 16),
        range_ok(page_addr(k), padded_len(4 + INFO_LEN)),
        range_ok(page_addr(k), padded_len(4 + SUBSCRIPTION_LEN)),
        offset(page_addr(k)) == page_offset(k),
        page_addr(k) == BASE_ADDRESS + k * PAGE_SIZE,
{
}

/// Reads the directory in page order, as `scan` describes.
pub fn channel_subscriptions(flash_manager: &FlashManager, return_empty: bool) -> (r: Vec<
    (u32, Option<ChannelInfo>),
>)
    requires
        flash_manager.wf(),
    ensures
        r@ == scan(flash_manager@, return_empty),
{
    let ghost mem = flash_manager@;
    proof {
        lemma_run_from(mem, 0);
    }
    let mut r: Vec<(u32, Option<ChannelInfo>)> = Vec::new();
    let mut k: usize = 0;
    while k < MAX_SUBS
        invariant
            k <= 8,
            mem == flash_manager@,
            flash_manager.wf(),
            0 <= occupied_count(mem) <= 8,
            forall|j: int| 0 <= j < occupied_count(mem) ==> occupied(mem, j),
            occupied_count(mem) < 8 ==> !occupied(mem, occupied_count(mem)),
            k <= occupied_count(mem),
            r@ == Seq::new(k as nat, |j: int| (page_addr(j), Some(page_info(mem, j)))),
        decreases 8 - k,
    {
        let addr = BASE_ADDRESS + (k as u32) * PAGE_SIZE;
        proof {
            lemma_page_ranges(k as int);
        }
        let magic = match flash_manager.read_magic(addr) {
            Ok(m) => m,
            Err(_) => {
                return r;
            },
        };
        if magic == PAGE_MAGIC {
            let bytes = match flash_manager.read_data(addr, INFO_LEN) {
                Ok(b) => b,
                Err(_) => {
                    return r;
                },
            };
            let info = ChannelInfo::from_bytes(bytes.as_slice());
            r.push((addr, Some(info)));
            k = k + 1;
            assert(r@ =~= Seq::new(k as nat, |j: int| (page_addr(j), Some(page_info(mem, j)))));
        } else {
            assert(addr == page_addr(k as int));
            assert(!occupied(mem, k as int));
            assert(k == occupied_count(mem));
            if return_empty {
                r.push((addr, None));
            }
            assert(r@ =~= scan(mem, return_empty));
            return r;
        }
    }
    assert(r@ =~= scan(mem, return_empty));
    r
}

/// The address of the page that holds `channel_id`, if one does.
pub fn get_subscription_addr(flash_manager: &FlashManager, channel_id: u32) -> (r: Option<u32>)
    requires
        flash_manager.wf(),
    ensures
        match find_page(flash_manager@, channel_id) {
            Some(k) => r == Some(page_addr(k)),
            None => r is None,
        },
{
    let ghost mem = flash_manager@;
    let pages = channel_subscriptions(flash_manager, false);
    proof {
        lemma_run_from(mem, 0);
        lemma_find_from(mem, channel_id, 0);
    }
    let mut i: usize = 0;
    while i < pages.len()
        invariant
            pages@ == scan(mem, false),
            mem == flash_manager@,
            0 <= occupied_count(mem) <= 8,
            i <= pages@.len(),
            find_page(mem, channel_id) == find_from(mem, channel_id, i as int),
        decreases pages@.len() - i,
    {
        let (addr, c) = pages[i];
        assert(pages@[i as int] == (page_addr(i as int), Some(page_info(mem, i as int))));
        if let Some(stored_sub) = c {
            if stored_sub.channel_id == channel_id {
                assert(find_from(mem, channel_id, i as int) == Some(i as int));
                return Some(addr);
            }
        }
        i = i + 1;
    }
    None
}

/// The `ChannelInfo` of the subscription stored at `address`.
pub fn read_channel(flash_manager: &FlashManager, address: u32) -> (r: Result<
    ChannelInfo,
    FlashManagerError,
>)
    requires
        flash_manager.wf(),
    ensures
        r is Ok <==> range_ok(address, 16) && range_ok(
            address,
            padded_len(4 + SUBSCRIPTION_LEN),
        ),
        r matches Ok(info) ==> info == info_of(
            flash_manager@.subrange(offset(address) + 4, offset(address) + 24),
        ),
{
    match flash_manager.read_magic(address) {
        Ok(_) => {
            let bytes = flash_manager.read_data(address, SUBSCRIPTION_LEN)?;
            let sub = ChannelSubscription::from_bytes(bytes.as_slice());
            proof {
                crate::codec::lemma_info_of_prefix(bytes@, 20);
                assert(bytes@.subrange(0, 20) =~= flash_manager@.subrange(
                    offset(address) + 4,
                    offset(address) + 24,
                ));
            }
            Ok(sub.info)
        },
        Err(e) => Err(FlashManagerError::FlashError(e)),
    }
}

/// A scan stops at a page that holds `id` or at the first free page.
fn stops_at(entry: &(u32, Option<ChannelInfo>), id: u32) -> (r: bool)
    ensures
        r == match entry.1 {
            Some(info) => info.channel_id == id,
            None => true,
        },
{
    match &entry.1 {
        Some(info) => info.channel_id == id,
        None => true,
    }
}

proof fn lemma_page_start(k: int)
    requires
        0 <= k < 8,
    ensures
        crate::flash::page_start(page_offset(k)) == page_offset(k),
{
    vstd::arithmetic::div_mod::lemma_fundamental_div_mod_converse(k * 0x2000, 0x2000, k, 0);
}

/// Writes `sub` under the magic to the page that holds its channel, or else
/// to the first free page, erasing that page first. Returns the page's address.
pub fn upsert(flash_manager: &mut FlashManager, sub: &ChannelSubscription) -> (r: Result<
    u32,
    SubscriptionError,
>)
    requires
        old(flash_manager).wf(),
    ensures
        final(flash_manager).wf(),
        match target_page(old(flash_manager)@, sub.info.channel_id) {
            Some(k) => r == Ok::<u32, SubscriptionError>(page_addr(k)) && final(flash_manager)@
                == stored(old(flash_manager)@, k, subscription_bytes(*sub)),
            None => r == Err::<u32, SubscriptionError>(SubscriptionError::NoPageFound)
                && final(flash_manager)@ == old(flash_manager)@,
        },
{
    let ghost mem = flash_manager@;
    let channel_id = sub.info.channel_id;
    let pages = channel_subscriptions(flash_manager, true);
    proof {
        lemma_run_from(mem, 0);
        lemma_find_from(mem, channel_id, 0);
    }
    let mut i: usize = 0;
    while i < pages.len() && !stops_at(&pages[i], channel_id)
        invariant
            pages@ == scan(mem, true),
            0 <= occupied_count(mem) <= 8,
            i <= pages@.len(),
            i <= occupied_count(mem),
            find_page(mem, channel_id) == find_from(mem, channel_id, i as int),
        decreases pages@.len() - i,
    {
        i = i + 1;
    }
    if i == pages.len() {
        assert(target_page(mem, channel_id) is None);
        return Err(SubscriptionError::NoPageFound);
    }
    let addr = pages[i].0;
    let ghost k = i as int;
    assert(target_page(mem, channel_id) == Some(k)) by {
        if k < occupied_count(mem) {
            assert(pages@[k] == (page_addr(k), Some(page_info(mem, k))));
        }
    }
    assert(addr == page_addr(k));
    proof {
        lemma_page_ranges(k);
        lemma_page_start(k);
    }
    match flash_manager.wipe_data(addr) {
        Ok(()) => {},
        Err(e) => {
            return Err(SubscriptionError::from(e));
        },
    }
    let ghost erased = flash_manager@;
    let bytes = sub.to_bytes();
    let ghost l = tagged_bytes(PAGE_MAGIC, subscription_bytes(*sub));
    proof {
        crate::codec::lemma_word_round_trip(PAGE_MAGIC);
        assert(l.len() == 3232);
        assert forall|j: int| 0 <= j < l.len() implies crate::flash::fits(
            #[trigger] erased[page_offset(k) + j],
            l[j],
        ) by {
            lemma_erased_fits(l[j]);
        }
    }
    match flash_manager.write_data(addr, PAGE_MAGIC, bytes.as_slice()) {
        Ok(()) => {},
        Err(e) => {
            return Err(SubscriptionError::from(e));
        },
    }
    proof {
        reveal(stored);
    }
    Ok(addr)
}

/// Pages `i` and `j` hold distinct channels wherever both are occupied.
pub open spec fn channels_unique(mem: Seq<u8>) -> bool {
    forall|i: int, j: int|
        0 <= i < j < 8 && occupied(mem, i) && occupied(mem, j) ==> page_info(mem, i).channel_id
            != page_info(mem, j).channel_id
}

/// No occupied page holds channel 0.
pub open spec fn no_channel_zero(mem: Seq<u8>) -> bool {
    forall|i: int| 0 <= i < 8 && occupied(mem, i) ==> page_info(mem, i).channel_id != 0
}

proof fn lemma_same_page(mem: Seq<u8>, m2: Seq<u8>, j: int)
    requires
        mem.len() == m2.len() == crate::flash::REGION_SIZE,
        0 <= j < 8,
        forall|i: int| page_offset(j) <= i < page_offset(j) + PAGE_SIZE ==> m2[i] == mem[i],
    ensures
        page_magic(m2, j) == page_magic(mem, j),
        page_info(m2, j) == page_info(mem, j),
        page_record(m2, j) == page_record(mem, j),
{
    let o = page_offset(j);
    assert(m2.subrange(o, o + 4) =~= mem.subrange(o, o + 4));
    assert(m2.subrange(o + 4, o + 24) =~= mem.subrange(o + 4, o + 24));
    assert(m2.subrange(o + 4, o + 3224) =~= mem.subrange(o + 4, o + 3224));
}

/// A packed subscription is a record of the right length, headed by its info.
pub proof fn lemma_subscription_record(s: ChannelSubscription)
    ensures
        subscription_bytes(s).len() == SUBSCRIPTION_LEN,
        info_of(subscription_bytes(s)) == s.info,
{
    crate::codec::lemma_info_round_trip(s.info);
    crate::codec::lemma_passwords_bytes_len(s.passwords.contents@);
    crate::codec::lemma_info_of_prefix(subscription_bytes(s), 20);
    assert(subscription_bytes(s).subrange(0, 20) =~= crate::codec::info_bytes(s.info));
}

/// Writing the record `rec` to page `k` puts the magic and `rec` on page `k`.
pub proof fn lemma_stored_page(mem: Seq<u8>, k: int, rec: Seq<u8>)
    requires
        mem.len() == crate::flash::REGION_SIZE,
        0 <= k < 8,
        rec.len() == SUBSCRIPTION_LEN,
    ensures
        stored(mem, k, rec).len() == mem.len(),
        occupied(stored(mem, k, rec), k),
        page_record(stored(mem, k, rec), k) == rec,
        page_info(stored(mem, k, rec), k) == info_of(rec),
{
    reveal(stored);
    let m2 = stored(mem, k, rec);
    let o = page_offset(k);
    let l = tagged_bytes(PAGE_MAGIC, rec);
    lemma_page_start(k);
    crate::codec::lemma_word_round_trip(PAGE_MAGIC);
    assert(l.len() == 3232);
    assert(m2.subrange(o, o + 4) =~= le_word_of_magic());
    assert(m2.subrange(o + 4, o + 3224) =~= rec);
    assert(m2.subrange(o + 4, o + 24) =~= rec.subrange(0, 20));
    crate::codec::lemma_info_of_prefix(rec, 20);
}

/// Writing the record `rec` to page `k` leaves page `j` as it was.
pub proof fn lemma_stored_other(mem: Seq<u8>, k: int, rec: Seq<u8>, j: int)
    requires
        mem.len() == crate::flash::REGION_SIZE,
        0 <= k < 8,
        0 <= j < 8,
        j != k,
        rec.len() == SUBSCRIPTION_LEN,
    ensures
        page_magic(stored(mem, k, rec), j) == page_magic(mem, j),
        occupied(stored(mem, k, rec), j) == occupied(mem, j),
        page_info(stored(mem, k, rec), j) == page_info(mem, j),
        page_record(stored(mem, k, rec), j) == page_record(mem, j),
{
    reveal(stored);
    let m2 = stored(mem, k, rec);
    lemma_page_start(k);
    crate::codec::lemma_word_round_trip(PAGE_MAGIC);
    assert(tagged_bytes(PAGE_MAGIC, rec).len() == 3232);
    assert forall|i: int| page_offset(j) <= i < page_offset(j) + PAGE_SIZE implies m2[i]
        == mem[i] by {
        assert(i < page_offset(k) || i >= page_offset(k) + PAGE_SIZE);
    }
    lemma_same_page(mem, m2, j);
}

spec fn le_word_of_magic() -> Seq<u8> {
    crate::codec::le_word(PAGE_MAGIC)
}

/// A fully erased region holds no subscription, and is left-packed.
pub proof fn lemma_erased_directory(mem: Seq<u8>)
    requires
        mem.len() == crate::flash::REGION_SIZE,
        forall|i: int| 0 <= i < mem.len() ==> mem[i] == 0xFFu8,
    ensures
        left_packed(mem),
        channels_unique(mem),
        no_channel_zero(mem),
        occupied_count(mem) == 0,
        scan(mem, false).len() == 0,
{
    assert forall|k: int| 0 <= k < 8 implies !occupied(mem, k) by {
        let o = page_offset(k);
        assert(mem.subrange(o, o + 4)[0] == 0xFFu8);
        assert(mem.subrange(o, o + 4)[1] == 0xFFu8);
        assert(mem.subrange(o, o + 4)[2] == 0xFFu8);
        assert(mem.subrange(o, o + 4)[3] == 0xFFu8);
    }
}

/// Left-packing holds at every step: an upsert of a record keeps occupied
/// pages ahead of free ones.
pub proof fn lemma_upsert_keeps_left_packed(mem: Seq<u8>, rec: Seq<u8>)
    requires
        mem.len() == crate::flash::REGION_SIZE,
        rec.len() == SUBSCRIPTION_LEN,
        left_packed(mem),
        target_page(mem, info_of(rec).channel_id) is Some,
    ensures
        left_packed(stored(mem, target_page(mem, info_of(rec).channel_id)->Some_0, rec)),
{
    let k = target_page(mem, info_of(rec).channel_id)->Some_0;
    let m2 = stored(mem, k, rec);
    lemma_run_from(mem, 0);
    lemma_find_from(mem, info_of(rec).channel_id, 0);
    lemma_stored_page(mem, k, rec);
    assert(k <= occupied_count(mem));
    assert forall|j: int, m: int| 0 <= j < m < 8 && !occupied(m2, j) implies !occupied(m2, m) by {
        assert(j != k);
        lemma_stored_other(mem, k, rec, j);
        lemma_packed_occupied(mem, j);
        assert(m != k);
        lemma_stored_other(mem, k, rec, m);
    }
}

/// Channel uniqueness holds at every step: an upsert never stores a second
/// page for a channel, and stores channel 0 only when asked to.
pub proof fn lemma_upsert_keeps_channels_unique(mem: Seq<u8>, rec: Seq<u8>)
    requires
        mem.len() == crate::flash::REGION_SIZE,
        rec.len() == SUBSCRIPTION_LEN,
        left_packed(mem),
        channels_unique(mem),
        target_page(mem, info_of(rec).channel_id) is Some,
    ensures
        channels_unique(stored(mem, target_page(mem, info_of(rec).channel_id)->Some_0, rec)),
        no_channel_zero(mem) && info_of(rec).channel_id != 0 ==> no_channel_zero(
            stored(mem, target_page(mem, info_of(rec).channel_id)->Some_0, rec),
        ),
{
    let id = info_of(rec).channel_id;
    let k = target_page(mem, id)->Some_0;
    let m2 = stored(mem, k, rec);
    lemma_run_from(mem, 0);
    lemma_find_from(mem, id, 0);
    lemma_stored_page(mem, k, rec);
    assert forall|j: int| 0 <= j < 8 && j != k && occupied(m2, j) implies page_info(
        m2,
        j,
    ).channel_id != id by {
        lemma_stored_other(mem, k, rec, j);
        lemma_packed_occupied(mem, j);
        if find_page(mem, id) is Some {
            lemma_packed_occupied(mem, k);
            if j < k {
                assert(page_info(mem, j).channel_id != page_info(mem, k).channel_id);
            } else {
                assert(page_info(mem, k).channel_id != page_info(mem, j).channel_id);
            }
        }
    }
    assert forall|i: int, j: int|
        0 <= i < j < 8 && occupied(m2, i) && occupied(m2, j) implies page_info(m2, i).channel_id
        != page_info(m2, j).channel_id by {
        if i != k {
            lemma_stored_other(mem, k, rec, i);
        }
        if j != k {
            lemma_stored_other(mem, k, rec, j);
        }
    }
    if no_channel_zero(mem) && id != 0 {
        assert forall|i: int| 0 <= i < 8 && occupied(m2, i) implies page_info(m2, i).channel_id
            != 0 by {
            if i != k {
                lemma_stored_other(mem, k, rec, i);
            }
        }
    }
}

proof fn lemma_count_exceeds(m: Seq<u8>, k: int)
    requires
        0 <= k < 8,
        forall|j: int| 0 <= j <= k ==> #[trigger] occupied(m, j),
    ensures
        occupied_count(m) > k,
{
    lemma_run_from(m, 0);
    let c = occupied_count(m);
    if c <= k {
        assert(occupied(m, c));
    }
}

/// Round trip: after an upsert of `s`, a lookup of its channel finds the
/// page just written, and that page's record is exactly `s`'s packed bytes.
pub proof fn lemma_upsert_then_find(mem: Seq<u8>, s: ChannelSubscription)
    requires
        mem.len() == crate::flash::REGION_SIZE,
        target_page(mem, s.info.channel_id) is Some,
    ensures
        ({
            let k = target_page(mem, s.info.channel_id)->Some_0;
            &&& find_page(stored(mem, k, subscription_bytes(s)), s.info.channel_id) == Some(k)
            &&& page_record(stored(mem, k, subscription_bytes(s)), k) == subscription_bytes(s)
        }),
{
    let id = s.info.channel_id;
    let rec = subscription_bytes(s);
    let k = target_page(mem, id)->Some_0;
    let m2 = stored(mem, k, rec);
    lemma_subscription_record(s);
    lemma_run_from(mem, 0);
    lemma_find_from(mem, id, 0);
    assert(0 <= k <= occupied_count(mem));
    assert(forall|j: int| 0 <= j < k ==> page_info(mem, j).channel_id != id);
    lemma_stored_page(mem, k, rec);
    assert forall|j: int| 0 <= j <= k implies #[trigger] occupied(m2, j) && (j < k ==> page_info(
        m2,
        j,
    ).channel_id != id) by {
        if j < k {
            lemma_stored_other(mem, k, rec, j);
        }
    }
    lemma_count_exceeds(m2, k);
    lemma_find_from(m2, id, 0);
    assert(page_info(m2, k).channel_id == id);
    match find_page(m2, id) {
        Some(m) => {
            if m < k {
                assert(occupied(m2, m));
                assert(page_info(m2, m).channel_id != id);
            } else if m > k {
                assert(page_info(m2, k).channel_id != id);
            }
        },
        None => {
            assert(page_info(m2, k).channel_id != id);
        },
    }
}

} // verus!
