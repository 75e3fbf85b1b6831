//! The volatile anti-replay state: one slot per channel the decoder may
//! decode, slot 0 for the emergency channel, the rest mirroring the
//! directory's pages in order.

use crate::codec::{info_of, ChannelFrame};
use crate::directory::{
    channel_subscriptions, find_page, lemma_find_from, lemma_packed_occupied, lemma_run_from,
    lemma_stored_other, lemma_stored_page, left_packed, occupied, occupied_count, page_info, scan,
    stored, target_page,
};
use crate::flash::FlashManager;
use vstd::prelude::*;

verus! {

#[derive(Clone, Copy, Debug, PartialEq, Eq, Structural)]
pub struct ActiveChannel {
    pub channel_id: u32,
    /// Timestamp of the last frame accepted on this channel.
    pub last_frame: u64,
    /// Whether any frame has been accepted on this channel since boot.
    pub received: bool,
}

/// One slot for the emergency channel and one for each subscription page.
pub type ActiveChannelsList = [Option<ActiveChannel>; 9];

/// A slot for `id` on which no frame has been accepted yet.
pub open spec fn fresh(id: u32) -> ActiveChannel {
    ActiveChannel { channel_id: id, last_frame: 0, received: false }
}

/// The outcome of checking a frame of `channel` at `ts` from slot `i` on:
/// the first slot that holds `channel` decides; it accepts a first frame,
/// or one strictly later than the last it accepted, and records it.
pub open spec fn validate_from(
    l: Seq<Option<ActiveChannel>>,
    channel: u32,
    ts: u64,
    i: int,
) -> (bool, Seq<Option<ActiveChannel>>)
    decreases l.len() - i,
{
    if i < 0 || i >= l.len() {
        (false, l)
    } else if l[i] is Some && l[i]->Some_0.channel_id == channel {
        let c = l[i]->Some_0;
        if !c.received || ts > c.last_frame {
            (true, l.update(i, Some(ActiveChannel { channel_id: channel, last_frame: ts, received: true })))
        } else {
            (false, l)
        }
    } else {
        validate_from(l, channel, ts, i + 1)
    }
}

pub open spec fn validation(l: Seq<Option<ActiveChannel>>, channel: u32, ts: u64) -> (
    bool,
    Seq<Option<ActiveChannel>>,
) {
    validate_from(l, channel, ts, 0)
}

/// Some slot holds `id`.
pub open spec fn has_slot(l: Seq<Option<ActiveChannel>>, id: u32) -> bool {
    exists|i: int| 0 <= i < l.len() && #[trigger] l[i] is Some && l[i]->Some_0.channel_id == id
}

/// The first empty slot at or after slot `i`.
pub open spec fn first_empty_from(l: Seq<Option<ActiveChannel>>, i: int) -> Option<int>
    decreases l.len() - i,
{
    if i < 0 || i >= l.len() {
        None
    } else if l[i] is None {
        Some(i)
    } else {
        first_empty_from(l, i + 1)
    }
}

/// The list after `id` is activated: nothing changes if any slot already
/// holds `id`; otherwise the first empty slot, if there is one, gets a
/// fresh slot for it.
pub open spec fn activation(l: Seq<Option<ActiveChannel>>, id: u32) -> Seq<Option<ActiveChannel>> {
    if has_slot(l, id) {
        l
    } else {
        match first_empty_from(l, 0) {
            Some(i) => l.update(i, Some(fresh(id))),
            None => l,
        }
    }
}

/// Accepts `frame` if its timestamp is new for its channel, and records it.
pub fn validate_channel_timestamp(
    frame: &ChannelFrame,
    active_channels: &mut ActiveChannelsList,
) -> (r: bool)
    ensures
        (r, final(active_channels)@) == validation(
            old(active_channels)@,
            frame.channel,
            frame.timestamp,
        ),
{
    let mut i: usize = 0;
    while i < 9
        invariant
            i <= 9,
            active_channels@ == old(active_channels)@,
            validation(old(active_channels)@, frame.channel, frame.timestamp) == validate_from(
                old(active_channels)@,
                frame.channel,
                frame.timestamp,
                i as int,
            ),
        decreases 9 - i,
    {
        if let Some(channel) = active_channels[i] {
            if channel.channel_id == frame.channel {
                if !channel.received || frame.timestamp > channel.last_frame {
                    active_channels[i] = Some(
                        ActiveChannel {
                            channel_id: channel.channel_id,
                            last_frame: frame.timestamp,
                            received: true,
                        },
                    );
                    return true;
                } else {
                    return false;
                }
            }
        }
        i = i + 1;
    }
    false
}

/// Gives `channel_id` a fresh slot unless some slot already holds it, so
/// that an existing slot keeps its replay record.
pub fn activate_channel(active_channels: &mut ActiveChannelsList, channel_id: u32)
    ensures
        final(active_channels)@ == activation(old(active_channels)@, channel_id),
{
    let mut i: usize = 0;
    while i < 9
        invariant
            i <= 9,
            active_channels@ == old(active_channels)@,
            forall|j: int|
                0 <= j < i ==> !(#[trigger] active_channels@[j] is Some
                    && active_channels@[j]->Some_0.channel_id == channel_id),
        decreases 9 - i,
    {
        if let Some(channel) = active_channels[i] {
            if channel.channel_id == channel_id {
                assert(active_channels@[i as int] is Some);
                return ;
            }
        }
        i = i + 1;
    }
    assert(!has_slot(old(active_channels)@, channel_id));
    let mut i: usize = 0;
    while i < 9
        invariant
            i <= 9,
            active_channels@ == old(active_channels)@,
            !has_slot(old(active_channels)@, channel_id),
            first_empty_from(old(active_channels)@, 0) == first_empty_from(
                old(active_channels)@,
                i as int,
            ),
        decreases 9 - i,
    {
        if active_channels[i].is_none() {
            active_channels[i] = Some(
                ActiveChannel { channel_id, received: false, last_frame: 0 },
            );
            return ;
        }
        i = i + 1;
    }
}

/// The slots mirror the directory: slot 0 holds the emergency channel, slot
/// `j + 1` the channel of page `j` for each occupied page, the rest are empty.
pub open spec fn mirrors(mem: Seq<u8>, l: Seq<Option<ActiveChannel>>) -> bool {
    &&& l.len() == 9
    &&& l[0] is Some && l[0]->Some_0.channel_id == 0
    &&& forall|j: int|
        0 <= j < occupied_count(mem) ==> #[trigger] l[j + 1] is Some && l[j + 1]->Some_0.channel_id
            == page_info(mem, j).channel_id
    &&& forall|i: int| occupied_count(mem) + 1 <= i < 9 ==> #[trigger] l[i] is None
}

/// Fills slot 0 with the emergency channel and the following slots with the
/// channels of the occupied pages, in page order.
pub fn initialize_active_channels(
    active_channels: &mut ActiveChannelsList,
    flash_manager: &FlashManager,
)
    requires
        flash_manager.wf(),
    ensures
        final(active_channels)@[0] == Some(fresh(0)),
        forall|j: int|
            0 <= j < occupied_count(flash_manager@) ==> #[trigger] final(active_channels)@[j + 1]
                == Some(fresh(page_info(flash_manager@, j).channel_id)),
        forall|i: int|
            occupied_count(flash_manager@) + 1 <= i < 9 ==> #[trigger] final(active_channels)@[i]
                == old(active_channels)@[i],
        (forall|i: int| 0 <= i < 9 ==> #[trigger] old(active_channels)@[i] is None) ==> mirrors(
            flash_manager@,
            final(active_channels)@,
        ),
{
    let ghost mem = flash_manager@;
    proof {
        lemma_run_from(mem, 0);
    }
    active_channels[0] = Some(ActiveChannel { channel_id: 0, last_frame: 0, received: false });
    let pages = channel_subscriptions(flash_manager, false);
    let mut idx: usize = 1;
    let mut i: usize = 0;
    while i < pages.len()
        invariant
            pages@ == scan(mem, false),
            mem == flash_manager@,
            0 <= occupied_count(mem) <= 8,
            pages@.len() == occupied_count(mem),
            i <= pages@.len(),
            idx == i + 1,
            active_channels@[0] == Some(fresh(0)),
            forall|j: int|
                0 <= j < i ==> #[trigger] active_channels@[j + 1] == Some(
                    fresh(page_info(mem, j).channel_id),
                ),
            forall|k: int| i + 1 <= k < 9 ==> #[trigger] active_channels@[k] == old(
                active_channels,
            )@[k],
        decreases pages@.len() - i,
    {
        let (_, c) = pages[i];
        assert(pages@[i as int].1 == Some(page_info(mem, i as int)));
        if let Some(channel) = c {
            active_channels[idx] = Some(
                ActiveChannel { channel_id: channel.channel_id, last_frame: 0, received: false },
            );
            idx = idx + 1;
        }
        i = i + 1;
    }
}

/// Every occupied page has a slot for its channel, and slot 0 holds channel 0.
pub open spec fn active_complete(mem: Seq<u8>, l: Seq<Option<ActiveChannel>>) -> bool {
    &&& l.len() == 9
    &&& l[0] is Some && l[0]->Some_0.channel_id == 0
    &&& forall|k: int|
        0 <= k < 8 && #[trigger] occupied(mem, k) ==> exists|i: int|
            0 <= i < 9 && l[i] is Some && l[i]->Some_0.channel_id == page_info(mem, k).channel_id
}

/// A list that mirrors a left-packed directory is complete.
pub proof fn lemma_mirror_complete(mem: Seq<u8>, l: Seq<Option<ActiveChannel>>)
    requires
        mirrors(mem, l),
        left_packed(mem),
    ensures
        active_complete(mem, l),
{
    assert forall|k: int| 0 <= k < 8 && #[trigger] occupied(mem, k) implies exists|i: int|
        0 <= i < 9 && l[i] is Some && l[i]->Some_0.channel_id == page_info(mem, k).channel_id by {
        lemma_packed_occupied(mem, k);
        assert(l[k + 1] is Some);
    }
}

proof fn lemma_validate_slots(l: Seq<Option<ActiveChannel>>, c: u32, ts: u64, i: int)
    requires
        0 <= i,
    ensures
        validate_from(l, c, ts, i).1.len() == l.len(),
        forall|j: int|
            0 <= j < l.len() ==> {
                &&& (#[trigger] validate_from(l, c, ts, i).1[j]) is Some == l[j] is Some
                &&& l[j] is Some ==> validate_from(l, c, ts, i).1[j]->Some_0.channel_id
                    == l[j]->Some_0.channel_id
                &&& j < i ==> validate_from(l, c, ts, i).1[j] == l[j]
            },
    decreases l.len() - i,
{
    if i < l.len() && !(l[i] is Some && l[i]->Some_0.channel_id == c) {
        lemma_validate_slots(l, c, ts, i + 1);
    }
}

/// Checking a frame never disturbs the mirror: it only moves a slot's
/// replay record.
pub proof fn lemma_validate_keeps_mirror(
    mem: Seq<u8>,
    l: Seq<Option<ActiveChannel>>,
    c: u32,
    ts: u64,
)
    requires
        mirrors(mem, l),
    ensures
        mirrors(mem, validation(l, c, ts).1),
{
    lemma_validate_slots(l, c, ts, 0);
    lemma_run_from(mem, 0);
    let l2 = validation(l, c, ts).1;
    assert(l2[0] is Some);
    assert forall|j: int| 0 <= j < occupied_count(mem) implies #[trigger] l2[j + 1] is Some
        && l2[j + 1]->Some_0.channel_id == page_info(mem, j).channel_id by {
        assert(l[j + 1] is Some);
    }
    assert forall|i: int| occupied_count(mem) + 1 <= i < 9 implies #[trigger] l2[i] is None by {
        assert(l[i] is None);
    }
}

proof fn lemma_first_empty_walk(l: Seq<Option<ActiveChannel>>, a: int, b: int)
    requires
        0 <= a <= b < l.len(),
        forall|i: int| a <= i < b ==> #[trigger] l[i] is Some,
        l[b] is None,
    ensures
        first_empty_from(l, a) == Some(b),
    decreases b - a,
{
    if a < b {
        assert(l[a] is Some);
        lemma_first_empty_walk(l, a + 1, b);
    }
}

proof fn lemma_count_is(m: Seq<u8>, n: int)
    requires
        0 <= n <= 8,
        forall|j: int| 0 <= j < n ==> #[trigger] occupied(m, j),
        n < 8 ==> !occupied(m, n),
    ensures
        occupied_count(m) == n,
{
    lemma_run_from(m, 0);
    let c = occupied_count(m);
    if c < n {
        assert(occupied(m, c));
    } else if c > n {
        assert(occupied(m, n));
    }
}

/// Active-list completeness holds at every step: storing a subscription for
/// a channel other than 0 and activating its channel keeps the mirror.
pub proof fn lemma_save_keeps_mirror(
    mem: Seq<u8>,
    l: Seq<Option<ActiveChannel>>,
    rec: Seq<u8>,
)
    requires
        mem.len() == crate::flash::REGION_SIZE,
        rec.len() == crate::codec::SUBSCRIPTION_LEN,
        mirrors(mem, l),
        left_packed(mem),
        info_of(rec).channel_id != 0,
        target_page(mem, info_of(rec).channel_id) is Some,
    ensures
        mirrors(
            stored(mem, target_page(mem, info_of(rec).channel_id)->Some_0, rec),
            activation(l, info_of(rec).channel_id),
        ),
{
    let id = info_of(rec).channel_id;
    let k = target_page(mem, id)->Some_0;
    let m2 = stored(mem, k, rec);
    let n = occupied_count(mem);
    lemma_run_from(mem, 0);
    lemma_find_from(mem, id, 0);
    lemma_stored_page(mem, k, rec);
    assert(forall|j: int| 0 <= j < k ==> page_info(mem, j).channel_id != id);
    assert forall|i: int| 0 <= i < k + 1 implies #[trigger] l[i] is Some && l[i]->Some_0.channel_id
        != id by {
        if i > 0 {
            assert(l[(i - 1) + 1] is Some);
        }
    }
    if find_page(mem, id) is Some {
        assert(l[k + 1] is Some);
        assert(has_slot(l, id));
        assert forall|j: int| 0 <= j < n implies #[trigger] occupied(m2, j) by {
            if j != k {
                lemma_stored_other(mem, k, rec, j);
            }
        }
        if n < 8 {
            lemma_stored_other(mem, k, rec, n);
        }
        lemma_count_is(m2, n);
        assert forall|j: int| 0 <= j < n implies #[trigger] l[j + 1] is Some && l[j
            + 1]->Some_0.channel_id == page_info(m2, j).channel_id by {
            if j != k {
                lemma_stored_other(mem, k, rec, j);
            }
        }
    } else {
        assert(k == n);
        assert(l[k + 1] is None);
        assert(!has_slot(l, id)) by {
            if has_slot(l, id) {
                let i = choose|i: int|
                    0 <= i < l.len() && #[trigger] l[i] is Some && l[i]->Some_0.channel_id == id;
                if 0 < i <= k {
                    assert(l[(i - 1) + 1] is Some);
                } else if i > k {
                    assert(l[i] is None);
                }
            }
        }
        lemma_first_empty_walk(l, 0, k + 1);
        let l2 = activation(l, id);
        assert forall|j: int| 0 <= j < n + 1 implies #[trigger] occupied(m2, j) by {
            if j != k {
                lemma_stored_other(mem, k, rec, j);
            }
        }
        if n + 1 < 8 {
            lemma_stored_other(mem, k, rec, n + 1);
            lemma_packed_occupied(mem, n + 1);
        }
        lemma_count_is(m2, n + 1);
        assert forall|j: int| 0 <= j < n + 1 implies #[trigger] l2[j + 1] is Some && l2[j
            + 1]->Some_0.channel_id == page_info(m2, j).channel_id by {
            if j != k {
                lemma_stored_other(mem, k, rec, j);
            }
        }
        assert forall|i: int| n + 2 <= i < 9 implies #[trigger] l2[i] is None by {
            assert(l[i] is None);
        }
    }
}

/// A rejected frame leaves the list as it was.
pub proof fn lemma_validate_reject(l: Seq<Option<ActiveChannel>>, c: u32, ts: u64, i: int)
    requires
        !validate_from(l, c, ts, i).0,
    ensures
        validate_from(l, c, ts, i).1 == l,
    decreases l.len() - i,
{
    if 0 <= i < l.len() && !(l[i] is Some && l[i]->Some_0.channel_id == c) {
        lemma_validate_reject(l, c, ts, i + 1);
    }
}

/// The first slot at or after slot `i` that holds channel `c`.
pub open spec fn slot_from(l: Seq<Option<ActiveChannel>>, c: u32, i: int) -> Option<int>
    decreases l.len() - i,
{
    if i < 0 || i >= l.len() {
        None
    } else if l[i] is Some && l[i]->Some_0.channel_id == c {
        Some(i)
    } else {
        slot_from(l, c, i + 1)
    }
}

/// The last timestamp accepted on channel `c`, if one was: the replay
/// record of the first slot that holds `c`.
pub open spec fn recorded(l: Seq<Option<ActiveChannel>>, c: u32) -> Option<u64> {
    match slot_from(l, c, 0) {
        Some(i) => if l[i]->Some_0.received {
            Some(l[i]->Some_0.last_frame)
        } else {
            None
        },
        None => None,
    }
}

/// No replay record goes back: every channel with a recorded timestamp in
/// `l` still has one in `l2`, at the same or a later value.
pub open spec fn records_kept(l: Seq<Option<ActiveChannel>>, l2: Seq<Option<ActiveChannel>>) -> bool {
    forall|c: u32|
        #[trigger] recorded(l, c) is Some ==> recorded(l2, c) is Some && recorded(l, c)->Some_0
            <= recorded(l2, c)->Some_0
}

proof fn lemma_slot_from_found(l: Seq<Option<ActiveChannel>>, c: u32, i: int)
    requires
        0 <= i,
    ensures
        slot_from(l, c, i) matches Some(k) ==> i <= k < l.len() && l[k] is Some
            && l[k]->Some_0.channel_id == c && forall|j: int|
            i <= j < k ==> !(#[trigger] l[j] is Some && l[j]->Some_0.channel_id == c),
        slot_from(l, c, i) is None ==> forall|j: int|
            i <= j < l.len() ==> !(#[trigger] l[j] is Some && l[j]->Some_0.channel_id == c),
    decreases l.len() - i,
{
    if i < l.len() && !(l[i] is Some && l[i]->Some_0.channel_id == c) {
        lemma_slot_from_found(l, c, i + 1);
    }
}

/// Lists in which the same slots hold `c` find the same first slot for it.
proof fn lemma_slot_from_same(
    l: Seq<Option<ActiveChannel>>,
    l2: Seq<Option<ActiveChannel>>,
    c: u32,
    i: int,
)
    requires
        l.len() == l2.len(),
        forall|j: int|
            0 <= j < l.len() ==> (#[trigger] l[j] is Some && l[j]->Some_0.channel_id == c) == (
            l2[j] is Some && l2[j]->Some_0.channel_id == c),
    ensures
        slot_from(l, c, i) == slot_from(l2, c, i),
    decreases l.len() - i,
{
    if 0 <= i < l.len() {
        lemma_slot_from_same(l, l2, c, i + 1);
    }
}

/// Checking a frame of `c` at `t` decides at the first slot that holds `c`.
proof fn lemma_validate_at(l: Seq<Option<ActiveChannel>>, c: u32, t: u64, i: int)
    requires
        0 <= i,
    ensures
        match slot_from(l, c, i) {
            None => validate_from(l, c, t, i) == (false, l),
            Some(k) => validate_from(l, c, t, i) == if !l[k]->Some_0.received || t
                > l[k]->Some_0.last_frame {
                (true, l.update(k, Some(ActiveChannel { channel_id: c, last_frame: t, received: true })))
            } else {
                (false, l)
            },
        },
    decreases l.len() - i,
{
    if 0 <= i < l.len() && !(l[i] is Some && l[i]->Some_0.channel_id == c) {
        lemma_validate_at(l, c, t, i + 1);
    }
}

/// Writing slot `k` with a value that holds the same channel (or none, if
/// it held none of `c`) keeps every other channel's record, and keeps `c`
/// found at the same slot.
proof fn lemma_records_after_update(
    l: Seq<Option<ActiveChannel>>,
    k: int,
    v: Option<ActiveChannel>,
    c: u32,
)
    requires
        0 <= k < l.len(),
        (l[k] is Some && l[k]->Some_0.channel_id == c) == (v is Some && v->Some_0.channel_id == c),
    ensures
        slot_from(l.update(k, v), c, 0) == slot_from(l, c, 0),
        slot_from(l, c, 0) != Some(k) ==> recorded(l.update(k, v), c) == recorded(l, c),
{
    let l2 = l.update(k, v);
    assert forall|j: int| 0 <= j < l.len() implies (#[trigger] l[j] is Some && l[j]->Some_0.channel_id
        == c) == (l2[j] is Some && l2[j]->Some_0.channel_id == c) by {
        if j != k {
            assert(l2[j] == l[j]);
        }
    }
    lemma_slot_from_same(l, l2, c, 0);
    lemma_slot_from_found(l, c, 0);
}

/// An accepted frame is recorded, was later than the record before it,
/// and no channel's record goes back.
pub proof fn lemma_validation_records(l: Seq<Option<ActiveChannel>>, c: u32, t: u64)
    ensures
        validation(l, c, t).0 ==> recorded(validation(l, c, t).1, c) == Some(t),
        validation(l, c, t).0 ==> recorded(l, c) is None || t > recorded(l, c)->Some_0,
        records_kept(l, validation(l, c, t).1),
{
    lemma_validate_at(l, c, t, 0);
    lemma_slot_from_found(l, c, 0);
    let l2 = validation(l, c, t).1;
    if let Some(k) = slot_from(l, c, 0) {
        let v = Some(ActiveChannel { channel_id: c, last_frame: t, received: true });
        if validation(l, c, t).0 {
            lemma_records_after_update(l, k, v, c);
            assert forall|d: u32| #[trigger] recorded(l, d) is Some implies recorded(l2, d) is Some
                && recorded(l, d)->Some_0 <= recorded(l2, d)->Some_0 by {
                if d != c {
                    lemma_records_after_update(l, k, v, d);
                    lemma_slot_from_found(l, d, 0);
                }
            }
        }
    }
}

/// Activating a channel keeps every replay record.
pub proof fn lemma_activation_records(l: Seq<Option<ActiveChannel>>, id: u32)
    ensures
        records_kept(l, activation(l, id)),
{
    if !has_slot(l, id) {
        if let Some(e) = first_empty_from(l, 0) {
            lemma_first_empty_found(l, 0);
            let v = Some(fresh(id));
            let l2 = activation(l, id);
            assert forall|d: u32| #[trigger] recorded(l, d) is Some implies recorded(l2, d) is Some
                && recorded(l, d)->Some_0 <= recorded(l2, d)->Some_0 by {
                lemma_slot_from_found(l, d, 0);
                if d == id {
                    let k = slot_from(l, d, 0)->Some_0;
                    assert(l[k] is Some);
                    assert(false);
                }
                lemma_records_after_update(l, e, v, d);
            }
        }
    }
}

proof fn lemma_first_empty_found(l: Seq<Option<ActiveChannel>>, i: int)
    requires
        0 <= i,
    ensures
        first_empty_from(l, i) matches Some(e) ==> i <= e < l.len() && l[e] is None,
    decreases l.len() - i,
{
    if 0 <= i < l.len() && l[i] is Some {
        lemma_first_empty_found(l, i + 1);
    }
}

pub proof fn lemma_records_kept_trans(
    a: Seq<Option<ActiveChannel>>,
    b: Seq<Option<ActiveChannel>>,
    c: Seq<Option<ActiveChannel>>,
)
    requires
        records_kept(a, b),
        records_kept(b, c),
    ensures
        records_kept(a, c),
{
    assert forall|d: u32| #[trigger] recorded(a, d) is Some implies recorded(c, d) is Some
        && recorded(a, d)->Some_0 <= recorded(c, d)->Some_0 by {
        assert(recorded(b, d) is Some);
    }
}

/// Monotone replay: once a frame of channel `c` at `t1` has been accepted,
/// and the list has since changed only in ways that keep replay records
/// (checks of any frames, activations), a frame of `c` is accepted only if
/// its timestamp is strictly greater than `t1`.
pub proof fn lemma_replay_across(
    la: Seq<Option<ActiveChannel>>,
    lb: Seq<Option<ActiveChannel>>,
    c: u32,
    t1: u64,
    t2: u64,
)
    requires
        recorded(la, c) == Some(t1),
        records_kept(la, lb),
        validation(lb, c, t2).0,
    ensures
        t2 > t1,
{
    lemma_validation_records(lb, c, t2);
}

/// Active-list completeness is kept by storing a subscription record and
/// activating its channel, whenever the list holds that channel already or
/// has an empty slot for it; no positional layout of the list is assumed.
pub proof fn lemma_save_keeps_complete(
    mem: Seq<u8>,
    l: Seq<Option<ActiveChannel>>,
    rec: Seq<u8>,
)
    requires
        mem.len() == crate::flash::REGION_SIZE,
        rec.len() == crate::codec::SUBSCRIPTION_LEN,
        active_complete(mem, l),
        target_page(mem, info_of(rec).channel_id) is Some,
        has_slot(l, info_of(rec).channel_id) || first_empty_from(l, 0) is Some,
    ensures
        active_complete(
            stored(mem, target_page(mem, info_of(rec).channel_id)->Some_0, rec),
            activation(l, info_of(rec).channel_id),
        ),
{
    let id = info_of(rec).channel_id;
    let k = target_page(mem, id)->Some_0;
    let m2 = stored(mem, k, rec);
    let l2 = activation(l, id);
    lemma_run_from(mem, 0);
    lemma_find_from(mem, id, 0);
    lemma_stored_page(mem, k, rec);
    lemma_first_empty_found(l, 0);
    // Slots that held a channel still hold it.
    assert forall|i: int| 0 <= i < 9 && #[trigger] l[i] is Some implies l2[i] == l[i] by {}
    assert(l2.len() == 9);
    assert(l2[0] == l[0]);
    assert(has_slot(l2, id)) by {
        if has_slot(l, id) {
            let i = choose|i: int| 0 <= i < l.len() && #[trigger] l[i] is Some && l[i]->Some_0.channel_id == id;
            assert(l2[i] == l[i]);
        } else {
            let e = first_empty_from(l, 0)->Some_0;
            assert(l2[e] is Some && l2[e]->Some_0.channel_id == id);
        }
    }
    assert forall|j: int| 0 <= j < 8 && #[trigger] occupied(m2, j) implies exists|i: int|
        0 <= i < 9 && l2[i] is Some && l2[i]->Some_0.channel_id == page_info(m2, j).channel_id by {
        if j == k {
            let i = choose|i: int| 0 <= i < l2.len() && #[trigger] l2[i] is Some && l2[i]->Some_0.channel_id == id;
            assert(0 <= i < 9 && l2[i] is Some && l2[i]->Some_0.channel_id == page_info(m2, j).channel_id);
        } else {
            lemma_stored_other(mem, k, rec, j);
            assert(occupied(mem, j));
            let i = choose|i: int|
                0 <= i < 9 && l[i] is Some && l[i]->Some_0.channel_id == page_info(mem, j).channel_id;
            assert(l2[i] == l[i]);
        }
    }
}

} // verus!
