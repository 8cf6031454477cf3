//! The on-disk layout that a boot sector describes, stated over plain numbers.

use vstd::prelude::*;

use crate::config::fat_blocks_from;
use crate::config::fat_entries_of;
use crate::config::is_pow2;
use crate::dev::concat_blocks;
use crate::fat::FatEntry;
use crate::fs::BootSector;
use crate::fs::FCB_SIZE;
use crate::fs::ROOT_DIR_START;

verus! {

pub open spec fn bs(b: BootSector) -> int {
    b.block_size as int
}

pub open spec fn bpc(b: BootSector) -> int {
    b.blocks_per_cluster as int
}

pub open spec fn fbc(b: BootSector) -> int {
    b.fat_block_count as int
}

pub open spec fn data_start(b: BootSector) -> int {
    b.data_start_block.0 as int
}

/// Cluster size in bytes.
pub open spec fn cluster_size(b: BootSector) -> int {
    bs(b) * bpc(b)
}

/// Number of clusters in the data region.
pub open spec fn data_clusters(b: BootSector) -> int {
    (b.block_count - data_start(b)) / bpc(b)
}

/// The highest cluster number of the data region.
pub open spec fn max_cluster(b: BootSector) -> int {
    ROOT_DIR_START + data_clusters(b) - 1
}

/// Is `c` a cluster of the data region?
pub open spec fn in_data(b: BootSector, c: int) -> bool {
    ROOT_DIR_START <= c <= max_cluster(b)
}

/// First block of a data cluster.
pub open spec fn first_block(b: BootSector, c: int) -> int {
    data_start(b) + (c - ROOT_DIR_START) * bpc(b)
}

/// Does block `j` belong to cluster `c`?
pub open spec fn block_in_cluster(b: BootSector, c: int, j: int) -> bool {
    first_block(b, c) <= j < first_block(b, c) + bpc(b)
}

/// Block `k` of FAT copy `copy`.
pub open spec fn fat_block(b: BootSector, copy: int, k: int) -> int {
    b.fat_start_block.0 + copy * fbc(b) + k
}

/// Number of directory slots in one cluster.
pub open spec fn entries_per_cluster(b: BootSector) -> int {
    cluster_size(b) / (FCB_SIZE as int)
}

/// What the filesystem needs of a boot sector: a valid configuration, and a layout of one boot
/// block, the FAT copies and the data region that is consistent with it.
pub open spec fn geo_wf(b: BootSector) -> bool {
    &&& bs(b) >= 16
    &&& is_pow2(bs(b))
    &&& bpc(b) >= 1
    &&& is_pow2(bpc(b))
    &&& cluster_size(b) >= FCB_SIZE
    &&& b.fat_start_block.0 == 1
    &&& b.fat_copies >= 1
    &&& b.root_dir_start_cluster.0 == ROOT_DIR_START
    &&& fbc(b) >= 1
    &&& b.fat_block_count == fat_blocks_from(
        b.block_size,
        b.block_count,
        b.fat_copies,
        b.blocks_per_cluster,
        1,
    )
    &&& data_start(b) == 1 + b.fat_copies * fbc(b)
    &&& data_start(b) < b.block_count
    &&& b.block_count - data_start(b) >= bpc(b)
    &&& max_cluster(b) <= 0xFFFF
    &&& fat_entries_of(bs(b), fbc(b)) >= ROOT_DIR_START + data_clusters(b)
}

/// The bytes of cluster `c` on a disk.
pub open spec fn cluster_bytes(b: BootSector, disk: Seq<Seq<u8>>, c: int) -> Seq<u8> {
    concat_blocks(disk, first_block(b, c), bpc(b) as nat)
}

// ---------------------------------------------------------------------------
// Cluster chains.

/// The cluster a FAT entry points to; anything but a link points nowhere.
pub open spec fn next_of(e: FatEntry) -> int {
    match e {
        FatEntry::Next(c) => c.0 as int,
        _ => -1,
    }
}

/// The `k`-th cluster reached from `start` by following links.
pub open spec fn nth(fat: Seq<FatEntry>, start: int, k: nat) -> int
    decreases k,
{
    if k == 0 {
        start
    } else {
        let p = nth(fat, start, (k - 1) as nat);
        if 0 <= p < fat.len() {
            next_of(fat[p])
        } else {
            -1
        }
    }
}

/// The first `n` clusters reached from `start`.
pub open spec fn follow(fat: Seq<FatEntry>, start: int, n: nat) -> Seq<int> {
    Seq::new(n, |k: int| nth(fat, start, k as nat))
}

/// The first `n` clusters reached from `start` exist: each is a data cluster, each but the
/// last links to the next, and none repeats.
pub open spec fn chain_ok(b: BootSector, fat: Seq<FatEntry>, start: int, n: nat) -> bool {
    &&& forall|k: int| 0 <= k < n ==> in_data(b, #[trigger] nth(fat, start, k as nat))
    &&& forall|k: int| 0 <= k < n - 1 ==> #[trigger] fat[nth(fat, start, k as nat)] is Next
    &&& follow(fat, start, n).no_duplicates()
}

/// As [`chain_ok`], and the last of the `n` clusters is not marked free: these are the clusters
/// that walking the chain yields.
pub open spec fn iter_ok(b: BootSector, fat: Seq<FatEntry>, start: int, n: nat) -> bool {
    &&& chain_ok(b, fat, start, n)
    &&& n > 0 ==> !(fat[nth(fat, start, (n - 1) as nat)] is Free)
}

/// The chain from `start` ends, after exactly `n` clusters, with an end-of-chain mark.
pub open spec fn chain_ends(b: BootSector, fat: Seq<FatEntry>, start: int, n: nat) -> bool {
    &&& n > 0
    &&& chain_ok(b, fat, start, n)
    &&& fat[nth(fat, start, (n - 1) as nat)] is EndOfChain
}

/// The whole chain from `start`, if it is a proper chain.
pub open spec fn full_chain(b: BootSector, fat: Seq<FatEntry>, start: int) -> Option<nat> {
    if exists|n: nat| chain_ends(b, fat, start, n) {
        Some(choose|n: nat| chain_ends(b, fat, start, n))
    } else {
        None
    }
}

/// The bytes of the first `n` clusters of the chain from `start`, one after another.
pub open spec fn chain_data(b: BootSector, disk: Seq<Seq<u8>>, fat: Seq<FatEntry>, start: int, n: nat) -> Seq<u8> {
    concat_blocks(
        Seq::new(n, |k: int| cluster_bytes(b, disk, nth(fat, start, k as nat))),
        0,
        n,
    )
}

/// Does block `j` belong to one of the clusters `lo..n` of the chain from `start`?
pub open spec fn block_in_walk(b: BootSector, fat: Seq<FatEntry>, start: int, lo: int, n: nat, j: int) -> bool {
    exists|k: int|
        #![trigger nth(fat, start, k as nat)]
        lo <= k < n && in_data(b, nth(fat, start, k as nat)) && block_in_cluster(b, nth(fat, start, k as nat), j)
}

/// Does block `j` belong to one of the first `n` clusters of the chain from `start`?
pub open spec fn block_in_chain(b: BootSector, fat: Seq<FatEntry>, start: int, n: nat, j: int) -> bool {
    block_in_walk(b, fat, start, 0, n, j)
}

// ---------------------------------------------------------------------------
// Directory slots.

/// The cluster of the chain from `dir` that holds slot `i`.
pub open spec fn slot_cluster(b: BootSector, fat: Seq<FatEntry>, dir: int, i: int) -> int {
    nth(fat, dir, (i / entries_per_cluster(b)) as nat)
}

/// Byte offset of slot `i` within its cluster.
pub open spec fn slot_offset(b: BootSector, i: int) -> int {
    (i % entries_per_cluster(b)) * FCB_SIZE
}

/// Can slot `i` of directory `dir` be reached?
pub open spec fn slot_readable(b: BootSector, fat: Seq<FatEntry>, dir: int, i: int) -> bool {
    i >= 0 && iter_ok(b, fat, dir, (i / entries_per_cluster(b) + 1) as nat)
}

/// The bytes of slot `i` of directory `dir`.
pub open spec fn slot_bytes(b: BootSector, disk: Seq<Seq<u8>>, fat: Seq<FatEntry>, dir: int, i: int) -> Seq<u8> {
    cluster_bytes(b, disk, slot_cluster(b, fat, dir, i)).subrange(
        slot_offset(b, i),
        slot_offset(b, i) + FCB_SIZE,
    )
}

// ---------------------------------------------------------------------------
// The FAT region.

/// The bytes of one FAT copy: each entry's raw value, little-endian, then zeros.
pub open spec fn fat_image(fat: Seq<FatEntry>, len: nat) -> Seq<u8> {
    Seq::new(
        len,
        |i: int|
            if i / 2 < fat.len() {
                if i % 2 == 0 {
                    (crate::fat::fat_raw(fat[i / 2]) % 256) as u8
                } else {
                    (crate::fat::fat_raw(fat[i / 2]) / 256) as u8
                }
            } else {
                0u8
            },
    )
}

/// The bytes that FAT copy `copy` holds on a disk.
pub open spec fn fat_copy_bytes(b: BootSector, disk: Seq<Seq<u8>>, copy: int) -> Seq<u8> {
    concat_blocks(disk, fat_block(b, copy, 0), fbc(b) as nat)
}

} // verus!

verus! {

/// Byte `p` of the data of the chain from `start`.
pub open spec fn chain_byte(b: BootSector, disk: Seq<Seq<u8>>, fat: Seq<FatEntry>, start: int, p: int) -> u8 {
    cluster_bytes(b, disk, nth(fat, start, (p / cluster_size(b)) as nat))[p % cluster_size(b)]
}

/// Number of clusters that hold the bytes `0..end`.
pub open spec fn clusters_for(b: BootSector, end: int) -> int {
    (end + cluster_size(b) - 1) / cluster_size(b)
}

pub proof fn lemma_nth_step(fat: Seq<FatEntry>, start: int, k: nat)
    requires
        0 <= nth(fat, start, k) < fat.len(),
    ensures
        nth(fat, start, k + 1) == next_of(fat[nth(fat, start, k)]),
{
}

pub proof fn lemma_follow_push(fat: Seq<FatEntry>, start: int, k: nat)
    ensures
        follow(fat, start, k + 1) == follow(fat, start, k).push(nth(fat, start, k)),
{
    assert(follow(fat, start, k + 1) =~= follow(fat, start, k).push(nth(fat, start, k)));
}

/// A prefix of an existing chain prefix exists.
pub proof fn lemma_chain_ok_prefix(b: BootSector, fat: Seq<FatEntry>, start: int, n: nat, m: nat)
    requires
        chain_ok(b, fat, start, n),
        m <= n,
    ensures
        chain_ok(b, fat, start, m),
{
    let f = follow(fat, start, n);
    let g = follow(fat, start, m);
    assert forall|i: int, j: int| 0 <= i < g.len() && 0 <= j < g.len() && i != j implies g[i] != g[j] by {
        assert(g[i] == f[i] && g[j] == f[j]);
    }
}

/// Extending an existing chain prefix by the cluster its last entry links to.
pub proof fn lemma_chain_ok_extend(b: BootSector, fat: Seq<FatEntry>, start: int, k: nat)
    requires
        chain_ok(b, fat, start, k),
        in_data(b, nth(fat, start, k)),
        !follow(fat, start, k).contains(nth(fat, start, k)),
        k > 0 ==> fat[nth(fat, start, (k - 1) as nat)] is Next,
    ensures
        chain_ok(b, fat, start, k + 1),
{
    lemma_follow_push(fat, start, k);
    let f = follow(fat, start, k);
    let g = follow(fat, start, k + 1);
    assert forall|i: int, j: int| 0 <= i < g.len() && 0 <= j < g.len() && i != j implies g[i] != g[j] by {
        if i < k && j < k {
            assert(g[i] == f[i] && g[j] == f[j]);
        } else if i == k {
            assert(g[j] == f[j]);
        } else {
            assert(g[i] == f[i]);
        }
    }
}

/// A chain ends at most once.
pub proof fn lemma_chain_ends_unique(b: BootSector, fat: Seq<FatEntry>, start: int, n: nat, m: nat)
    requires
        chain_ends(b, fat, start, n),
        chain_ends(b, fat, start, m),
    ensures
        n == m,
{
    if n < m {
        assert(fat[nth(fat, start, (n - 1) as nat)] is Next);
    }
    if m < n {
        assert(fat[nth(fat, start, (m - 1) as nat)] is Next);
    }
}

} // verus!

verus! {

/// A chain prefix holds no more clusters than the data region.
pub proof fn lemma_chain_len_bound(b: BootSector, fat: Seq<FatEntry>, start: int, n: nat)
    requires
        chain_ok(b, fat, start, n),
        max_cluster(b) >= 1,
    ensures
        n <= max_cluster(b) - 1,
{
    let f = follow(fat, start, n);
    f.unique_seq_to_set();
    vstd::set_lib::lemma_int_range(2, max_cluster(b) + 1);
    assert forall|x: int| f.to_set().contains(x) implies vstd::set_lib::set_int_range(
        2,
        max_cluster(b) + 1,
    ).contains(x) by {
        let i = choose|i: int| 0 <= i < f.len() && f[i] == x;
        assert(in_data(b, nth(fat, start, i as nat)));
    }
    vstd::set_lib::lemma_len_subset(
        f.to_set(),
        vstd::set_lib::set_int_range(2, max_cluster(b) + 1),
    );
}

} // verus!

verus! {

/// Walkable prefixes are closed under taking shorter prefixes.
pub proof fn lemma_iter_ok_prefix(b: BootSector, fat: Seq<FatEntry>, start: int, n: nat, m: nat)
    requires
        iter_ok(b, fat, start, n),
        m <= n,
    ensures
        iter_ok(b, fat, start, m),
{
    lemma_chain_ok_prefix(b, fat, start, n, m);
    if 0 < m < n {
        assert(fat[nth(fat, start, (m - 1) as nat)] is Next);
    }
}

/// A chain that ends after `n` clusters cannot be walked further.
pub proof fn lemma_chain_ends_no_more(b: BootSector, fat: Seq<FatEntry>, start: int, n: nat, m: nat)
    requires
        chain_ends(b, fat, start, n),
        m > n,
    ensures
        !iter_ok(b, fat, start, m),
        !chain_ok(b, fat, start, m),
{
    if chain_ok(b, fat, start, m) {
        assert(fat[nth(fat, start, (n - 1) as nat)] is Next);
    }
}

/// If a walk stopped on an error after `k` clusters, the chain has no end, and no longer prefix
/// can be walked.
pub proof fn lemma_broken_chain(b: BootSector, fat: Seq<FatEntry>, start: int, k: nat, n: nat)
    requires
        !iter_ok(b, fat, start, k + 1),
        k > 0 ==> fat[nth(fat, start, (k - 1) as nat)] is Next,
        n > k,
    ensures
        !chain_ends(b, fat, start, n),
        !iter_ok(b, fat, start, n),
{
    if chain_ends(b, fat, start, n) {
        lemma_chain_ok_prefix(b, fat, start, n, k + 1);
        if k + 1 < n {
            assert(fat[nth(fat, start, k)] is Next);
        }
    }
    if iter_ok(b, fat, start, n) {
        lemma_iter_ok_prefix(b, fat, start, n, k + 1);
    }
}

pub proof fn lemma_div_mod_step(p: int, t: int, cs: int)
    requires
        cs > 0,
        p >= 0,
        t >= 0,
        p % cs + t < cs,
    ensures
        (p + t) / cs == p / cs,
        (p + t) % cs == p % cs + t,
{
    vstd::arithmetic::div_mod::lemma_fundamental_div_mod(p, cs);
    vstd::arithmetic::mul::lemma_mul_is_commutative(cs, p / cs);
    vstd::arithmetic::div_mod::lemma_mod_pos_bound(p, cs);
    vstd::arithmetic::div_mod::lemma_fundamental_div_mod_converse(p + t, cs, p / cs, p % cs + t);
}

} // verus!

verus! {

/// A walk that stopped after `k` clusters without reaching an end mark means the chain has no end.
pub proof fn lemma_no_chain_end(b: BootSector, fat: Seq<FatEntry>, start: int, k: nat)
    requires
        iter_ok(b, fat, start, k),
        k > 0 ==> fat[nth(fat, start, (k - 1) as nat)] is Next,
        !iter_ok(b, fat, start, k + 1),
    ensures
        forall|n: nat| !chain_ends(b, fat, start, n),
{
    assert forall|n: nat| !chain_ends(b, fat, start, n) by {
        if chain_ends(b, fat, start, n) {
            if n > k {
                lemma_broken_chain(b, fat, start, k, n);
            } else if n < k {
                assert(fat[nth(fat, start, (n - 1) as nat)] is Next);
            }
        }
    }
}

/// A walk that stopped after `k` clusters (on the empty chain, at the end mark, or on an error)
/// reaches no longer prefix.
pub proof fn lemma_short_chain(b: BootSector, fat: Seq<FatEntry>, s: int, k: nat, m: nat)
    requires
        m > k,
        (k == 0 && s == 0) || chain_ends(b, fat, s, k) || !iter_ok(b, fat, s, k + 1),
    ensures
        !iter_ok(b, fat, s, m),
{
    if iter_ok(b, fat, s, m) {
        if k == 0 && s == 0 {
            assert(in_data(b, nth(fat, s, (0int) as nat)));
        } else if chain_ends(b, fat, s, k) {
            lemma_chain_ends_no_more(b, fat, s, k, m);
        } else {
            lemma_chain_ok_prefix(b, fat, s, m, k + 1);
            if k > 0 {
                assert(fat[nth(fat, s, (k - 1) as nat)] is Next);
            }
            if iter_ok(b, fat, s, m) {
                lemma_iter_ok_prefix(b, fat, s, m, k + 1);
            }
        }
    }
}

/// Rounding up a division, two ways.
pub proof fn lemma_ceil_div(x: int, cs: int)
    requires
        x >= 1,
        cs >= 1,
    ensures
        (x - 1) / cs + 1 == (x + cs - 1) / cs,
{
    vstd::arithmetic::div_mod::lemma_div_plus_one(x - 1, cs);
    assert(cs + (x - 1) == x + cs - 1);
}

} // verus!

verus! {

/// Where byte `p` falls when the first `idx + 1` clusters hold it.
pub proof fn lemma_pos_in_cluster(p: int, cs: int, idx: int)
    requires
        cs > 0,
        idx >= 0,
        0 <= p < idx * cs + cs,
    ensures
        0 <= p / cs <= idx,
        p >= idx * cs ==> p / cs == idx && p % cs == p - idx * cs,
        p < idx * cs ==> p / cs < idx,
{
    assert(0 <= idx * cs) by (nonlinear_arith)
        requires
            idx >= 0,
            cs > 0,
    ;
    assert(cs * (idx + 1) == idx * cs + cs) by (nonlinear_arith);
    vstd::arithmetic::div_mod::lemma_multiply_divide_lt(p, cs, idx + 1);
    vstd::arithmetic::div_mod::lemma_div_pos_is_pos(p, cs);
    if p >= idx * cs {
        vstd::arithmetic::div_mod::lemma_fundamental_div_mod_converse(p, cs, idx, p - idx * cs);
    } else {
        assert(cs * idx == idx * cs) by (nonlinear_arith);
        vstd::arithmetic::div_mod::lemma_multiply_divide_lt(p, cs, idx);
    }
}

} // verus!

verus! {

/// The free clusters of the data region.
pub open spec fn free_set(b: BootSector, fat: Seq<FatEntry>) -> Set<int> {
    Set::new(|c: int| in_data(b, c) && fat[c] is Free)
}

pub proof fn lemma_free_set_finite(b: BootSector, fat: Seq<FatEntry>)
    requires
        max_cluster(b) >= 2,
    ensures
        free_set(b, fat).finite(),
{
    vstd::set_lib::lemma_int_range(2, max_cluster(b) + 1);
    assert(free_set(b, fat).subset_of(vstd::set_lib::set_int_range(2, max_cluster(b) + 1)));
    vstd::set_lib::lemma_len_subset(free_set(b, fat), vstd::set_lib::set_int_range(2, max_cluster(b) + 1));
}

} // verus!

verus! {

/// The FAT after the first `m` clusters of the chain from `start` are marked free.
pub open spec fn freed(fat: Seq<FatEntry>, start: int, m: nat) -> Seq<FatEntry> {
    Seq::new(fat.len(), |x: int| if follow(fat, start, m).contains(x) { FatEntry::Free } else { fat[x] })
}

} // verus!

verus! {

/// Does the chain from `s` end properly (or is it the empty chain)?
pub open spec fn has_chain(b: BootSector, fat: Seq<FatEntry>, s: int) -> bool {
    s == 0 || exists|n: nat| chain_ends(b, fat, s, n)
}

/// Number of clusters of the chain from `s`.
pub open spec fn chain_len(b: BootSector, fat: Seq<FatEntry>, s: int) -> nat {
    if s == 0 {
        0
    } else {
        choose|n: nat| chain_ends(b, fat, s, n)
    }
}

/// The clusters of a chain of `cur` clusters followed by `ext`, as linked in `fat2`.
pub open spec fn extended_links(
    b: BootSector,
    fat0: Seq<FatEntry>,
    fat2: Seq<FatEntry>,
    s: int,
    s2: int,
    cur: nat,
    ext: Seq<int>,
) -> bool {
    &&& fat2.len() == fat0.len()
    &&& fat0.len() > max_cluster(b)
    &&& max_cluster(b) <= 0xFFFF
    &&& cur > 0 ==> chain_ends(b, fat0, s, cur) && s2 == s
    &&& cur == 0 ==> ext.len() > 0 && s2 == ext[0]
    &&& forall|i: int| 0 <= i < ext.len() ==> in_data(b, #[trigger] ext[i])
    &&& ext.no_duplicates()
    &&& forall|i: int| 0 <= i < ext.len() ==> !follow(fat0, s, cur).contains(#[trigger] ext[i])
    &&& forall|i: int|
        0 <= i < ext.len() ==> #[trigger] fat2[ext[i]] == if i + 1 < ext.len() {
            FatEntry::Next(crate::fs::ClusterId(ext[i + 1] as u16))
        } else {
            FatEntry::EndOfChain
        }
    &&& cur > 0 && ext.len() > 0 ==> fat2[nth(fat0, s, (cur - 1) as nat)] == FatEntry::Next(
        crate::fs::ClusterId(ext[0] as u16),
    )
    &&& cur > 0 && ext.len() == 0 ==> fat2[nth(fat0, s, (cur - 1) as nat)] == fat0[nth(fat0, s, (cur - 1) as nat)]
    &&& forall|k: int| 0 <= k < cur - 1 ==> #[trigger] fat2[nth(fat0, s, k as nat)] == fat0[nth(fat0, s, k as nat)]
}

proof fn lemma_extended_nth(
    b: BootSector,
    fat0: Seq<FatEntry>,
    fat2: Seq<FatEntry>,
    s: int,
    s2: int,
    cur: nat,
    ext: Seq<int>,
    k: nat,
)
    requires
        extended_links(b, fat0, fat2, s, s2, cur, ext),
        k < cur + ext.len(),
    ensures
        nth(fat2, s2, k) == if k < cur { nth(fat0, s, k) } else { ext[k - cur] },
    decreases k,
{
    if k > 0 {
        let p = (k - 1) as nat;
        lemma_extended_nth(b, fat0, fat2, s, s2, cur, ext, p);
        if p < cur {
            assert(in_data(b, nth(fat0, s, p)));
            if p < cur - 1 {
                let pp: int = p as int;
                assert(fat2[nth(fat0, s, pp as nat)] == fat0[nth(fat0, s, pp as nat)]);
                assert(fat0[nth(fat0, s, pp as nat)] is Next);
            }
        } else {
            assert(in_data(b, ext[p - cur]));
        }
    }
}

/// Linking `ext` after a chain of `cur` clusters gives a chain of `cur + ext.len()` clusters.
pub proof fn lemma_extended_chain(
    b: BootSector,
    fat0: Seq<FatEntry>,
    fat2: Seq<FatEntry>,
    s: int,
    s2: int,
    cur: nat,
    ext: Seq<int>,
)
    requires
        extended_links(b, fat0, fat2, s, s2, cur, ext),
    ensures
        forall|k: nat| k < cur + ext.len() ==> #[trigger] nth(fat2, s2, k) == if k < cur { nth(fat0, s, k) } else { ext[k - cur] },
        cur + ext.len() > 0 ==> chain_ends(b, fat2, s2, cur + ext.len()),
{
    let n = cur + ext.len();
    assert forall|k: nat| k < n implies #[trigger] nth(fat2, s2, k) == if k < cur { nth(fat0, s, k) } else { ext[k - cur] } by {
        lemma_extended_nth(b, fat0, fat2, s, s2, cur, ext, k);
    }
    if n > 0 {
        assert forall|k: int| 0 <= k < n implies in_data(b, #[trigger] nth(fat2, s2, k as nat)) by {
            if k < cur {
                assert(in_data(b, nth(fat0, s, k as nat)));
            } else {
                assert(in_data(b, ext[k - cur]));
            }
        }
        assert forall|k: int| 0 <= k < n - 1 implies #[trigger] fat2[nth(fat2, s2, k as nat)] is Next by {
            if k < cur - 1 {
                assert(fat0[nth(fat0, s, k as nat)] is Next);
            } else if k >= cur {
                assert(fat2[ext[k - cur]] is Next);
            }
        }
        let f = follow(fat2, s2, n);
        let g = follow(fat0, s, cur);
        assert forall|i: int, j: int| 0 <= i < n && 0 <= j < n && i != j implies f[i] != f[j] by {
            if i < cur && j < cur {
                assert(g[i] == f[i] && g[j] == f[j]);
            } else if i >= cur && j >= cur {
                assert(ext[i - cur] != ext[j - cur]);
            } else if i < cur {
                assert(g[i] == f[i]);
                assert(!g.contains(ext[j - cur]));
            } else {
                assert(g[j] == f[j]);
                assert(!g.contains(ext[i - cur]));
            }
        }
        let last = nth(fat2, s2, (n - 1) as nat);
        if ext.len() > 0 {
            assert(fat2[ext[ext.len() - 1]] is EndOfChain);
        } else {
            assert(fat0[nth(fat0, s, (cur - 1) as nat)] is EndOfChain);
        }
    }
}

} // verus!

verus! {

/// Two tables that agree on the first `n` clusters of a chain walk it alike.
pub proof fn lemma_nth_stable(f0: Seq<FatEntry>, f1: Seq<FatEntry>, s: int, n: nat)
    requires
        f0.len() == f1.len(),
        forall|k: int|
            0 <= k < n && 0 <= #[trigger] nth(f0, s, k as nat) < f0.len() ==> f1[nth(f0, s, k as nat)] == f0[nth(f0, s, k as nat)],
    ensures
        forall|k: int| 0 <= k <= n ==> #[trigger] nth(f1, s, k as nat) == nth(f0, s, k as nat),
        follow(f1, s, n) == follow(f0, s, n),
    decreases n,
{
    if n > 0 {
        lemma_nth_stable(f0, f1, s, (n - 1) as nat);
        let p = nth(f0, s, (n - 1) as nat);
        assert(nth(f1, s, (n - 1) as nat) == p);
        assert(nth(f1, s, n) == nth(f0, s, n));
    }
    assert(follow(f1, s, n) =~= follow(f0, s, n));
}

/// A table that agrees with another on the first `n` clusters of a chain keeps that chain.
pub proof fn lemma_chain_stable(b: BootSector, f0: Seq<FatEntry>, f1: Seq<FatEntry>, s: int, n: nat)
    requires
        f0.len() == f1.len(),
        max_cluster(b) < f0.len(),
        forall|k: int|
            0 <= k < n && 0 <= #[trigger] nth(f0, s, k as nat) < f0.len() ==> f1[nth(f0, s, k as nat)] == f0[nth(f0, s, k as nat)],
    ensures
        forall|k: int| 0 <= k <= n ==> #[trigger] nth(f1, s, k as nat) == nth(f0, s, k as nat),
        follow(f1, s, n) == follow(f0, s, n),
        chain_ok(b, f1, s, n) == chain_ok(b, f0, s, n),
        iter_ok(b, f1, s, n) == iter_ok(b, f0, s, n),
        chain_ends(b, f1, s, n) == chain_ends(b, f0, s, n),
{
    lemma_nth_stable(f0, f1, s, n);
    if n > 0 {
        let q = nth(f0, s, (n - 1) as nat);
        if 0 <= q < f0.len() {
            assert(f1[q] == f0[q]);
        }
    }
    if chain_ok(b, f0, s, n) {
        assert forall|k: int| 0 <= k < n - 1 implies #[trigger] f1[nth(f1, s, k as nat)] is Next by {
            assert(nth(f1, s, k as nat) == nth(f0, s, k as nat));
            assert(in_data(b, nth(f0, s, k as nat)));
        }
    }
    if chain_ok(b, f1, s, n) {
        assert forall|k: int| 0 <= k < n implies in_data(b, #[trigger] nth(f0, s, k as nat)) by {
            assert(nth(f1, s, k as nat) == nth(f0, s, k as nat));
        }
        assert forall|k: int| 0 <= k < n - 1 implies #[trigger] f0[nth(f0, s, k as nat)] is Next by {
            assert(nth(f1, s, k as nat) == nth(f0, s, k as nat));
            assert(in_data(b, nth(f1, s, k as nat)));
        }
    }
    if chain_ok(b, f0, s, n) {
        assert forall|k: int| 0 <= k < n implies in_data(b, #[trigger] nth(f1, s, k as nat)) by {
            assert(nth(f1, s, k as nat) == nth(f0, s, k as nat));
        }
    }
}

} // verus!
