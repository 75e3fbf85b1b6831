//! The key tree: a complete binary tree of height 64 whose leaves are
//! timestamps. Node 1 is the root, node `n` has children `2n` and `2n + 1`,
//! and timestamp `t` is leaf `t + 2^64`. A subscription holds passwords for
//! some nodes; a leaf's key is derived from the password of its covering
//! ancestor by one MD5 step per branch down to the leaf.

use crate::codec::{
    lemma_passwords_bytes_slot, password_bytes, passwords_bytes, ChannelPassword,
    ChannelPasswords, NUM_PASSWORDS,
};
use md5::Digest;
use vstd::bytes::*;
use vstd::prelude::*;

verus! {

/// The MD5 digest of `data`.
pub uninterp spec fn md5_of(data: Seq<u8>) -> Seq<u8>;

/// Relies on md-5's `Md5::digest`: the 16-byte MD5 digest of `data`, which
/// depends on `data` alone.
#[verifier::external_body]
fn md5_digest(data: &[u8]) -> (r: [u8; 16])
    ensures
        r@ == md5_of(data@),
{
    md5::Md5::digest(data).into()
}

/// Tag hashed after a password to step to a child: `'L'` or `'R'`.
pub open spec fn branch_tag(branch: u8) -> u8 {
    if branch == 1 {
        0x4Cu8
    } else {
        0x52u8
    }
}

/// `n` halved `k` times.
pub open spec fn halve(n: int, k: nat) -> int
    decreases k,
{
    if k == 0 {
        n
    } else {
        halve(n, (k - 1) as nat) / 2
    }
}

/// The leaf number of timestamp `t`.
pub open spec fn leaf_of(t: u64) -> int {
    t + 0x1_0000_0000_0000_0000
}

/// The branch taken at depth `i` on the way from the root to the leaf of
/// `t`: 1 for the left (even) child, 2 for the right (odd) child.
pub open spec fn branch(t: u64, i: int) -> u8 {
    (halve(leaf_of(t), (63 - i) as nat) % 2 + 1) as u8
}

pub open spec fn path_of(t: u64) -> Seq<u8> {
    Seq::new(64, |i: int| branch(t, i))
}

/// The node reached from the root after the first `d` branches of `path`.
pub open spec fn node_at(path: Seq<u8>, d: int) -> int
    decreases d,
{
    if d <= 0 {
        1
    } else {
        2 * node_at(path, d - 1) + path[d - 1] - 1
    }
}

/// Fields of slot `i` of a packed password table.
pub open spec fn slot_ext(tb: Seq<u8>, i: int) -> u8 {
    tb[25 * i + 8]
}

pub open spec fn slot_trunc(tb: Seq<u8>, i: int) -> u64 {
    spec_u64_from_le_bytes(tb.subrange(25 * i, 25 * i + 8))
}

pub open spec fn slot_password(tb: Seq<u8>, i: int) -> Seq<u8> {
    tb.subrange(25 * i + 9, 25 * i + 25)
}

/// The node number slot `i` holds a password for.
pub open spec fn slot_node(tb: Seq<u8>, i: int) -> int {
    slot_trunc(tb, i) * 2 + slot_ext(tb, i) - 1
}

/// Slots before the first empty one (`node_ext == 0`) are in use.
pub open spec fn slot_in_use(tb: Seq<u8>, i: int) -> bool {
    0 <= i < 128 && forall|j: int| 0 <= j <= i ==> slot_ext(tb, j) != 0
}

/// The first slot in use, from `i` on, that holds `node`.
pub open spec fn find_slot_from(tb: Seq<u8>, node: int, i: int) -> Option<int>
    decreases 128 - i,
{
    if i < 0 || i >= 128 || slot_ext(tb, i) == 0 {
        None
    } else if slot_node(tb, i) == node {
        Some(i)
    } else {
        find_slot_from(tb, node, i + 1)
    }
}

/// The shallowest node on `path`, from depth `d` on, with a password in
/// the table, as (depth, slot).
pub open spec fn cover_from(tb: Seq<u8>, path: Seq<u8>, d: int) -> Option<(int, int)>
    decreases 65 - d,
{
    if d < 0 || d > 64 {
        None
    } else {
        match find_slot_from(tb, node_at(path, d), 0) {
            Some(i) => Some((d, i)),
            None => cover_from(tb, path, d + 1),
        }
    }
}

/// The password of the node at depth `d` on `path`, carried down to the leaf.
pub open spec fn descend(pw: Seq<u8>, path: Seq<u8>, d: int) -> Seq<u8>
    decreases 64 - d,
{
    if d >= 64 {
        pw
    } else {
        descend(md5_of(pw + seq![branch_tag(path[d])]), path, d + 1)
    }
}

/// A 16-byte leaf key extended to the 32-byte cipher key.
pub open spec fn extend_key(leaf: Seq<u8>) -> Seq<u8> {
    leaf + md5_of(leaf)
}

/// What the broadcaster derives for timestamp `t` from the password `pw` of
/// the node at depth `d` above its leaf.
pub open spec fn broadcaster_key(pw: Seq<u8>, t: u64, d: int) -> Seq<u8> {
    extend_key(descend(pw, path_of(t), d))
}

/// The frame key for timestamp `t` under the packed table `tb`, if the
/// table covers `t`.
pub open spec fn frame_key(tb: Seq<u8>, t: u64) -> Option<Seq<u8>> {
    match cover_from(tb, path_of(t), 0) {
        Some((d, i)) => Some(broadcaster_key(slot_password(tb, i), t, d)),
        None => None,
    }
}

pub proof fn lemma_slot_fields(s: Seq<ChannelPassword>, i: int)
    requires
        0 <= i < s.len(),
    ensures
        slot_ext(passwords_bytes(s), i) == s[i].node_ext,
        slot_trunc(passwords_bytes(s), i) == s[i].node_trunc,
        slot_password(passwords_bytes(s), i) == s[i].password@,
{
    let tb = passwords_bytes(s);
    lemma_passwords_bytes_slot(s, i);
    lemma_auto_spec_u64_to_from_le_bytes();
    let pb = password_bytes(s[i]);
    assert(tb[25 * i + 8] == pb[8]);
    assert(tb.subrange(25 * i, 25 * i + 8) =~= pb.subrange(0, 8));
    assert(pb.subrange(0, 8) =~= spec_u64_to_le_bytes(s[i].node_trunc));
    assert(tb.subrange(25 * i + 9, 25 * i + 25) =~= pb.subrange(9, 25));
    assert(pb.subrange(9, 25) =~= s[i].password@);
}

proof fn lemma_halve_bounds(n: int, k: nat)
    requires
        0 <= n,
    ensures
        0 <= halve(n, k) <= n,
    decreases k,
{
    if k > 0 {
        lemma_halve_bounds(n, (k - 1) as nat);
    }
}

proof fn lemma_node_bound(path: Seq<u8>, d: int)
    requires
        0 <= d <= 64,
        path.len() == 64,
        forall|i: int| 0 <= i < 64 ==> path[i] == 1 || path[i] == 2,
    ensures
        1 <= node_at(path, d) < 2 * vstd::arithmetic::power2::pow2(d as nat),
    decreases d,
{
    vstd::arithmetic::power2::lemma2_to64();
    if d > 0 {
        lemma_node_bound(path, d - 1);
        vstd::arithmetic::power2::lemma_pow2_unfold(d as nat);
    }
}

/// Builds the 64 branches from the root to the leaf of `timestamp`.
pub fn build_path(timestamp: u64) -> (r: [u8; 64])
    ensures
        r@ == path_of(timestamp),
{
    let ghost leaf = leaf_of(timestamp);
    let mut n: u128 = timestamp as u128 + 0x1_0000_0000_0000_0000u128;
    let mut path = [0u8; 64];
    let mut idx: usize = 64;
    while idx > 0
        invariant
            idx <= 64,
            leaf == leaf_of(timestamp),
            n == halve(leaf, (64 - idx) as nat),
            forall|j: int| idx <= j < 64 ==> path@[j] == branch(timestamp, j),
        decreases idx,
    {
        proof {
            lemma_halve_bounds(leaf, (64 - idx) as nat);
        }
        path[idx - 1] = (n % 2 + 1) as u8;
        idx = idx - 1;
        n = n / 2;
    }
    assert(path@ =~= path_of(timestamp));
    path
}

/// The first slot in use that holds `node`.
fn find_slot(passwords: &ChannelPasswords, node: u128) -> (r: Option<usize>)
    ensures
        r matches Some(i) ==> i < 128 && find_slot_from(
            passwords_bytes(passwords.contents@),
            node as int,
            0,
        ) == Some(i as int),
        r is None ==> find_slot_from(passwords_bytes(passwords.contents@), node as int, 0) is None,
{
    let ghost tb = passwords_bytes(passwords.contents@);
    let mut i: usize = 0;
    while i < NUM_PASSWORDS
        invariant
            i <= 128,
            tb == passwords_bytes(passwords.contents@),
            passwords.contents@.len() == 128,
            find_slot_from(tb, node as int, 0) == find_slot_from(tb, node as int, i as int),
        decreases 128 - i,
    {
        let c = &passwords.contents[i];
        proof {
            lemma_slot_fields(passwords.contents@, i as int);
        }
        if c.node_ext == 0 {
            return None;
        }
        let c_node: u128 = (c.node_trunc as u128) * 2 + (c.node_ext - 1) as u128;
        if c_node == node {
            return Some(i);
        }
        i = i + 1;
    }
    None
}

/// The 32-byte key of the frame at `timestamp`, or `None` when no password
/// of the table covers it.
pub fn derive_frame_key(timestamp: u64, passwords: &ChannelPasswords) -> (r: Option<[u8; 32]>)
    ensures
        match frame_key(passwords_bytes(passwords.contents@), timestamp) {
            Some(k) => r matches Some(a) && a@ == k,
            None => r is None,
        },
{
    let ghost tb = passwords_bytes(passwords.contents@);
    let path = build_path(timestamp);
    let ghost p = path@;
    assert forall|i: int| 0 <= i < 64 implies p[i] == 1 || p[i] == 2 by {
        assert(p[i] == branch(timestamp, i));
    }
    let mut node: u128 = 1;
    let mut depth: usize = 0;
    let mut found: Option<usize> = None;
    loop
        invariant_except_break
            found is None,
            cover_from(tb, p, 0) == cover_from(tb, p, depth as int),
        invariant
            depth <= 64,
            tb == passwords_bytes(passwords.contents@),
            p == path@,
            p == path_of(timestamp),
            forall|i: int| 0 <= i < 64 ==> p[i] == 1 || p[i] == 2,
            node == node_at(p, depth as int),
        ensures
            found matches Some(i) ==> i < 128 && cover_from(tb, p, 0) == Some(
                (depth as int, i as int),
            ),
            found is None ==> cover_from(tb, p, 0) is None,
        decreases 64 - depth,
    {
        proof {
            lemma_node_bound(p, depth as int);
            vstd::arithmetic::power2::lemma2_to64();
            if depth < 64 {
                vstd::arithmetic::power2::lemma_pow2_strictly_increases(depth as nat, 64);
            }
        }
        let slot = find_slot(passwords, node);
        if slot.is_some() {
            found = slot;
            break;
        }
        if depth == 64 {
            assert(cover_from(tb, p, 65) is None);
            assert(cover_from(tb, p, 64) is None);
            break;
        }
        node = node * 2 + (path[depth] - 1) as u128;
        depth = depth + 1;
    }
    let i = match found {
        Some(i) => i,
        None => {
            return None;
        },
    };
    let ghost d = depth as int;
    assert(cover_from(tb, p, 0) == Some((d, i as int)));
    proof {
        lemma_slot_fields(passwords.contents@, i as int);
    }
    let mut password_bytes: [u8; 16] = passwords.contents[i].password;
    let mut k: usize = depth;
    while k < 64
        invariant
            depth <= k <= 64,
            p == path@,
            tb == passwords_bytes(passwords.contents@),
            forall|j: int| 0 <= j < 64 ==> p[j] == 1 || p[j] == 2,
            descend(password_bytes@, p, k as int) == descend(slot_password(tb, i as int), p, d),
        decreases 64 - k,
    {
        let branch = path[k];
        let mut pass_in: Vec<u8> = Vec::new();
        crate::codec::append_bytes(&mut pass_in, password_bytes.as_slice());
        if branch == 1 {
            pass_in.push(0x4C);
        } else if branch == 2 {
            pass_in.push(0x52);
        } else {
            return None;
        }
        assert(pass_in@ =~= password_bytes@ + seq![branch_tag(p[k as int])]);
        password_bytes = md5_digest(pass_in.as_slice());
        k = k + 1;
    }
    let tail = md5_digest(password_bytes.as_slice());
    let mut extended: Vec<u8> = Vec::new();
    crate::codec::append_bytes(&mut extended, password_bytes.as_slice());
    crate::codec::append_bytes(&mut extended, tail.as_slice());
    let key: [u8; 32] = crate::codec::to_array(extended.as_slice());
    Some(key)
}

proof fn lemma_node_increasing(path: Seq<u8>, d: int, e: int)
    requires
        0 <= d < e <= 64,
        path.len() == 64,
        forall|i: int| 0 <= i < 64 ==> path[i] == 1 || path[i] == 2,
    ensures
        node_at(path, d) < node_at(path, e),
    decreases e - d,
{
    lemma_node_bound(path, e - 1);
    if d < e - 1 {
        lemma_node_increasing(path, d, e - 1);
    }
}

proof fn lemma_path_branches(t: u64)
    ensures
        path_of(t).len() == 64,
        forall|i: int| 0 <= i < 64 ==> path_of(t)[i] == 1 || path_of(t)[i] == 2,
{
}

proof fn lemma_find_slot_hit(tb: Seq<u8>, node: int, k: int, i: int)
    requires
        0 <= k <= i,
        slot_in_use(tb, i),
        slot_node(tb, i) == node,
        forall|j: int| k <= j < i ==> slot_node(tb, j) != node,
    ensures
        find_slot_from(tb, node, k) == Some(i),
    decreases i - k,
{
    if k < i {
        lemma_find_slot_hit(tb, node, k + 1, i);
    }
}

proof fn lemma_find_slot_miss(tb: Seq<u8>, node: int, k: int)
    requires
        0 <= k,
        forall|j: int| 0 <= j < k ==> slot_ext(tb, j) != 0,
        forall|j: int| slot_in_use(tb, j) ==> slot_node(tb, j) != node,
    ensures
        find_slot_from(tb, node, k) is None,
    decreases 128 - k,
{
    if k < 128 && slot_ext(tb, k) != 0 {
        assert(slot_in_use(tb, k));
        lemma_find_slot_miss(tb, node, k + 1);
    }
}

/// Key-tree soundness, covered case: when slot `i` is in use and holds the
/// node at depth `d` above the leaf of `t`, and no other slot in use holds
/// a node on that path, the frame key is the broadcaster's key derived from
/// that slot's password.
pub proof fn lemma_key_tree_covered(tb: Seq<u8>, t: u64, i: int, d: int)
    requires
        slot_in_use(tb, i),
        0 <= d <= 64,
        slot_node(tb, i) == node_at(path_of(t), d),
        forall|j: int, e: int|
            slot_in_use(tb, j) && 0 <= e <= 64 && slot_node(tb, j) == node_at(path_of(t), e)
                ==> j == i,
    ensures
        frame_key(tb, t) == Some(broadcaster_key(slot_password(tb, i), t, d)),
{
    lemma_cover_hit(tb, t, 0, i, d);
}

proof fn lemma_cover_hit(tb: Seq<u8>, t: u64, e: int, i: int, d: int)
    requires
        0 <= e <= d <= 64,
        slot_in_use(tb, i),
        slot_node(tb, i) == node_at(path_of(t), d),
        forall|j: int, f: int|
            slot_in_use(tb, j) && 0 <= f <= 64 && slot_node(tb, j) == node_at(path_of(t), f)
                ==> j == i,
    ensures
        cover_from(tb, path_of(t), e) == Some((d, i)),
    decreases d - e,
{
    let p = path_of(t);
    lemma_path_branches(t);
    if e < d {
        lemma_node_increasing(p, e, d);
        assert forall|j: int| slot_in_use(tb, j) implies slot_node(tb, j) != node_at(p, e) by {
            if slot_node(tb, j) == node_at(p, e) {
                assert(j == i);
            }
        }
        lemma_find_slot_miss(tb, node_at(p, e), 0);
        lemma_cover_hit(tb, t, e + 1, i, d);
    } else {
        assert forall|j: int| 0 <= j < i implies slot_node(tb, j) != node_at(p, d) by {
            assert(slot_in_use(tb, j));
        }
        lemma_find_slot_hit(tb, node_at(p, d), 0, i);
    }
}

/// Key-tree soundness, uncovered case: when no slot in use holds a node on
/// the path to the leaf of `t`, there is no frame key.
pub proof fn lemma_key_tree_uncovered(tb: Seq<u8>, t: u64)
    requires
        forall|j: int, e: int|
            slot_in_use(tb, j) && 0 <= e <= 64 ==> slot_node(tb, j) != node_at(path_of(t), e),
    ensures
        frame_key(tb, t) is None,
{
    lemma_cover_miss(tb, t, 0);
}

proof fn lemma_cover_miss(tb: Seq<u8>, t: u64, e: int)
    requires
        0 <= e,
        forall|j: int, f: int|
            slot_in_use(tb, j) && 0 <= f <= 64 ==> slot_node(tb, j) != node_at(path_of(t), f),
    ensures
        cover_from(tb, path_of(t), e) is None,
    decreases 65 - e,
{
    if e <= 64 {
        assert forall|j: int| slot_in_use(tb, j) implies slot_node(tb, j) != node_at(
            path_of(t),
            e,
        ) by {}
        lemma_find_slot_miss(tb, node_at(path_of(t), e), 0);
        lemma_cover_miss(tb, t, e + 1);
    }
}

proof fn lemma_halve_is_div(n: int, k: nat)
    requires
        0 <= n,
    ensures
        halve(n, k) == n / (vstd::arithmetic::power2::pow2(k) as int),
    decreases k,
{
    vstd::arithmetic::power2::lemma2_to64();
    if k > 0 {
        lemma_halve_is_div(n, (k - 1) as nat);
        vstd::arithmetic::power2::lemma_pow2_unfold(k);
        vstd::arithmetic::power2::lemma_pow2_pos((k - 1) as nat);
        let q = vstd::arithmetic::power2::pow2((k - 1) as nat) as int;
        vstd::arithmetic::div_mod::lemma_div_denominator(n, q, 2);
        assert(vstd::arithmetic::power2::pow2(k) as int == q * 2);
        assert(halve(n, k) == halve(n, (k - 1) as nat) / 2);
        assert(halve(n, (k - 1) as nat) == n / q);
        assert(halve(n, k) == n / (q * 2));
    } else {
        assert(vstd::arithmetic::power2::pow2(0) as int == 1);
        vstd::arithmetic::div_mod::lemma_div_by_self(1);
        assert(n / 1 == n) by (nonlinear_arith);
    }
}

/// The path of `t` is the route through the tree numbering: after `d`
/// branches it reaches the ancestor of `t`'s leaf at depth `d`, and after
/// all 64 it reaches the leaf `t + 2^64` itself.
pub proof fn lemma_path_reaches_leaf(t: u64, d: int)
    requires
        0 <= d <= 64,
    ensures
        node_at(path_of(t), d) == halve(leaf_of(t), (64 - d) as nat),
        node_at(path_of(t), 64) == leaf_of(t),
    decreases d,
{
    let n = leaf_of(t);
    if d == 0 {
        lemma_halve_is_div(n, 64);
        vstd::arithmetic::power2::lemma2_to64();
        vstd::arithmetic::div_mod::lemma_fundamental_div_mod_converse(
            n,
            0x1_0000_0000_0000_0000,
            1,
            n - 0x1_0000_0000_0000_0000,
        );
    } else {
        lemma_path_reaches_leaf(t, d - 1);
        let x = halve(n, (64 - d) as nat);
        assert(halve(n, (64 - (d - 1)) as nat) == x / 2);
        assert(path_of(t)[d - 1] == branch(t, d - 1));
        lemma_halve_bounds(n, (64 - d) as nat);
        vstd::arithmetic::div_mod::lemma_fundamental_div_mod(x, 2);
    }
    if d < 64 {
        lemma_path_reaches_leaf_from(t, d);
    }
}

proof fn lemma_path_reaches_leaf_from(t: u64, d: int)
    requires
        0 <= d <= 64,
        node_at(path_of(t), d) == halve(leaf_of(t), (64 - d) as nat),
    ensures
        node_at(path_of(t), 64) == leaf_of(t),
    decreases 64 - d,
{
    let n = leaf_of(t);
    if d < 64 {
        let x = halve(n, (64 - (d + 1)) as nat);
        assert(halve(n, (64 - d) as nat) == x / 2);
        assert(path_of(t)[d] == branch(t, d));
        lemma_halve_bounds(n, (64 - (d + 1)) as nat);
        vstd::arithmetic::div_mod::lemma_fundamental_div_mod(x, 2);
        lemma_path_reaches_leaf_from(t, d + 1);
    }
}

/// Node `n` lies under node `a`: `a` is `n` or one of its ancestors.
pub open spec fn under(n: int, a: int) -> bool {
    exists|k: nat| #[trigger] halve(n, k) == a
}

proof fn lemma_halve_add(n: int, a: nat, b: nat)
    ensures
        halve(n, a + b) == halve(halve(n, a), b),
    decreases b,
{
    if b > 0 {
        lemma_halve_add(n, a, (b - 1) as nat);
        assert(halve(n, a + b) == halve(n, (a + b - 1) as nat) / 2);
    }
}

proof fn lemma_halve_small(m: int, k: nat)
    requires
        0 <= m <= 3,
        k >= 1 || m <= 1,
    ensures
        0 <= halve(m, k) <= 1,
    decreases k,
{
    if k > 1 {
        lemma_halve_small(m, (k - 1) as nat);
    } else if k == 1 {
        assert(halve(m, 1) == halve(m, 0) / 2);
    }
}

/// No node lies both under node 2 and under node 3.
proof fn lemma_halves_disjoint(n: int, k2: nat, k3: nat)
    ensures
        !(halve(n, k2) == 2 && halve(n, k3) == 3),
{
    if halve(n, k2) != 2 || halve(n, k3) != 3 {
    } else if k2 < k3 {
        lemma_halve_add(n, k2, (k3 - k2) as nat);
        lemma_halve_small(2, (k3 - k2) as nat);
    } else {
        lemma_halve_add(n, k3, (k2 - k3) as nat);
        lemma_halve_small(3, (k2 - k3) as nat);
    }
}

/// Halving the node at depth `e` of a path `j` times gives its ancestor at
/// depth `e - j`.
proof fn lemma_node_halves(p: Seq<u8>, e: int, j: nat)
    requires
        0 <= j <= e <= 64,
        p.len() == 64,
        forall|i: int| 0 <= i < 64 ==> p[i] == 1 || p[i] == 2,
    ensures
        halve(node_at(p, e), j) == node_at(p, e - j),
    decreases j,
{
    if j > 0 {
        lemma_node_halves(p, e, (j - 1) as nat);
        lemma_node_bound(p, e - j);
        assert(node_at(p, e - j + 1) == 2 * node_at(p, e - j) + p[e - j] - 1);
    }
}

/// Out of coverage: when every slot in use holds a node under node 2 (the
/// left half of the tree), a timestamp of 2^63 or more, whose leaf lies
/// under node 3, has no frame key.
pub proof fn lemma_left_half_misses_right(tb: Seq<u8>, t: u64)
    requires
        forall|j: int| slot_in_use(tb, j) ==> under(#[trigger] slot_node(tb, j), 2),
        t >= 0x8000_0000_0000_0000,
    ensures
        frame_key(tb, t) is None,
{
    let p = path_of(t);
    lemma_path_branches(t);
    lemma_path_reaches_leaf(t, 1);
    lemma_halve_is_div(leaf_of(t), 63);
    vstd::arithmetic::power2::lemma2_to64();
    vstd::arithmetic::power2::lemma_pow2_unfold(64);
    vstd::arithmetic::div_mod::lemma_fundamental_div_mod_converse(
        leaf_of(t),
        0x8000_0000_0000_0000,
        3,
        leaf_of(t) - 3 * 0x8000_0000_0000_0000,
    );
    assert(node_at(p, 1) == 3);
    assert forall|j: int, e: int| slot_in_use(tb, j) && 0 <= e <= 64 implies slot_node(tb, j)
        != node_at(path_of(t), e) by {
        let n = slot_node(tb, j);
        assert(under(n, 2));
        let k2 = choose|k: nat| #[trigger] halve(n, k) == 2;
        if n == node_at(p, e) {
            if e == 0 {
                lemma_halve_small(1, k2);
            } else {
                lemma_node_halves(p, e, (e - 1) as nat);
                lemma_halves_disjoint(n, k2, (e - 1) as nat);
            }
        }
    }
    lemma_key_tree_uncovered(tb, t);
}

} // verus!
