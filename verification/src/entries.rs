//! Creating and removing directory entries.

use vstd::prelude::*;
use vstd::string::StringExecFns;
use vstd::string::StringSliceAdditionalSpecFns;

use crate::clock::UtcDateTime;
use crate::dev::BufferedBlockDevice;
use crate::dir::deleted_slot_bytes;
use crate::dir::dir_slot;
use crate::error::DirEntryLoc;
use crate::error::FsError;
use crate::fs::fcb_bytes;
use crate::fs::kind_of_attr;
use crate::fs::lemma_fcb_round_trip;
use crate::fs::ClusterId;
use crate::fs::Fcb;
use crate::fs::NodeKind;
use crate::layout::chain_len;
use crate::layout::entries_per_cluster;
use crate::layout::freed;
use crate::layout::has_chain;
use crate::layout::in_data;
use crate::layout::nth;
use crate::layout::slot_bytes;
use crate::layout::slot_cluster;
use crate::layout::slot_readable;
use crate::lookup::dir_slot_count;
use crate::lookup::fcb_name;
use crate::lookup::name_ok;
use crate::lookup::slot_named;
use crate::myfs::is_open;
use crate::myfs::MyFileSystem;
use crate::name::lemma_short_name_first_byte;
use crate::name::normalize_component;
use crate::name::short_name_spec;
use crate::name::slot_of_bytes;
use crate::name::upper_chars;
use crate::name::DirSlot;
use crate::name::SlotView;
use crate::slots::DirSlotIter;

verus! {

broadcast use crate::myfs::lemma_meta_block_not_in_cluster;

/// The message of a name that is taken.
fn already_exists(key: String) -> (s: String)
    ensures
        s@ == key@ + " already exists"@,
{
    let mut s = key;
    s.append(" already exists");
    s
}

/// Nothing observable changed: the same disk, table and open files.
pub open spec fn unchanged<D: BufferedBlockDevice>(a: MyFileSystem<D>, c: MyFileSystem<D>) -> bool {
    &&& c.disk() == a.disk()
    &&& c.fat() == a.fat()
    &&& c.dirty() == a.dirty()
}

/// No cluster of the chain from `s` is one of the clusters of directory `dir` up to its slot
/// `i`.
pub open spec fn chains_apart(b: crate::fs::BootSector, fat: Seq<crate::fat::FatEntry>, dir: int, i: int, s: int) -> bool {
    forall|k: int|
        0 <= k <= i / entries_per_cluster(b) ==> !#[trigger] crate::layout::follow(fat, s, chain_len(b, fat, s)).contains(
            nth(fat, dir, k as nat),
        )
}

/// The entry in slot `loc`, if the slot can be read and is occupied.
pub open spec fn entry_at(b: crate::fs::BootSector, disk: Seq<Seq<u8>>, fat: Seq<crate::fat::FatEntry>, loc: DirEntryLoc) -> Option<
    crate::fs::FcbView,
> {
    if slot_readable(b, fat, loc.dir_start.0 as int, loc.entry_index as int) {
        match dir_slot(b, disk, fat, loc.dir_start.0 as int, loc.entry_index as int) {
            SlotView::Occupied(v) => Some(v),
            _ => None,
        }
    } else {
        None
    }
}

/// Every slot of the directory at `dir` is free.
pub open spec fn dir_empty(b: crate::fs::BootSector, disk: Seq<Seq<u8>>, fat: Seq<crate::fat::FatEntry>, dir: int) -> bool {
    forall|j: int| 0 <= j < dir_slot_count(b, fat, dir) ==> !(#[trigger] dir_slot(b, disk, fat, dir, j) is Occupied)
}

/// A directory whose chain is one zeroed cluster has no entries.
proof fn lemma_zeroed_dir_empty(b: crate::fs::BootSector, disk: Seq<Seq<u8>>, fat: Seq<crate::fat::FatEntry>, c: int)
    requires
        crate::layout::geo_wf(b),
        in_data(b, c),
        c < fat.len(),
        fat[c] is EndOfChain,
        crate::layout::cluster_bytes(b, disk, c) == crate::myfs::zeros(crate::layout::cluster_size(b)),
    ensures
        dir_empty(b, disk, fat, c),
        has_chain(b, fat, c),
        dir_slot_count(b, fat, c) == entries_per_cluster(b),
{
    assert(nth(fat, c, 0) == c);
    assert(crate::layout::follow(fat, c, 1) =~= seq![c]);
    assert(crate::layout::chain_ends(b, fat, c, 1));
    crate::layout::lemma_chain_ends_unique(b, fat, c, 1, chain_len(b, fat, c));
    let e = entries_per_cluster(b);
    assert forall|j: int| 0 <= j < dir_slot_count(b, fat, c) implies !(#[trigger] dir_slot(b, disk, fat, c, j) is Occupied) by {
        crate::dir::lemma_slot_pos(b, j);
        assert(j / e == 0) by {
            vstd::arithmetic::div_mod::lemma_basic_div(j, e);
        }
        assert(slot_cluster(b, fat, c, j) == c);
        let o = crate::layout::slot_offset(b, j);
        assert(slot_bytes(b, disk, fat, c, j)[0] == crate::myfs::zeros(crate::layout::cluster_size(b))[o]);
    }
}

/// The clusters of a proper chain stay the same when their FAT entries do.
proof fn lemma_chain_clusters_kept(b: crate::fs::BootSector, f0: Seq<crate::fat::FatEntry>, f1: Seq<crate::fat::FatEntry>, pd: int)
    requires
        crate::layout::geo_wf(b),
        crate::layout::max_cluster(b) < f0.len(),
        f1.len() == f0.len(),
        has_chain(b, f0, pd),
        forall|x: int| 0 <= x < f0.len() && !(f0[x] is Free) ==> #[trigger] f1[x] == f0[x],
    ensures
        has_chain(b, f1, pd),
        chain_len(b, f1, pd) == chain_len(b, f0, pd),
        crate::tree::chain_clusters(b, f1, pd) == crate::tree::chain_clusters(b, f0, pd),
{
    let n = chain_len(b, f0, pd);
    if pd != 0 {
        assert(crate::layout::chain_ends(b, f0, pd, n));
        assert forall|k: int| 0 <= k < n implies #[trigger] f1[nth(f0, pd, k as nat)] == f0[nth(f0, pd, k as nat)] by {
            assert(in_data(b, nth(f0, pd, k as nat)));
            if k < n - 1 {
                assert(f0[nth(f0, pd, k as nat)] is Next);
            }
        }
    }
    crate::tree::lemma_chain_kept(b, f0, f1, pd);
    assert(crate::tree::chain_clusters(b, f1, pd) =~= crate::tree::chain_clusters(b, f0, pd)) by {
        assert forall|x: int| crate::tree::chain_clusters(b, f1, pd).contains(x) implies crate::tree::chain_clusters(b, f0, pd).contains(x) by {
            let k = choose|k: int| 0 <= k < chain_len(b, f1, pd) && #[trigger] nth(f1, pd, k as nat) == x;
            assert(nth(f0, pd, k as nat) == x);
        }
        assert forall|x: int| crate::tree::chain_clusters(b, f0, pd).contains(x) implies crate::tree::chain_clusters(b, f1, pd).contains(x) by {
            let k = choose|k: int| 0 <= k < chain_len(b, f0, pd) && #[trigger] nth(f0, pd, k as nat) == x;
            assert(nth(f1, pd, k as nat) == x);
        }
    }
}

/// A change that keeps the FAT entry of every cluster in use outside `s`, and every block that
/// belongs to no free cluster, keeps those clusters' entries and bytes.
proof fn lemma_kept_from_frames(
    b: crate::fs::BootSector,
    d0: Seq<Seq<u8>>,
    f0: Seq<crate::fat::FatEntry>,
    d1: Seq<Seq<u8>>,
    f1: Seq<crate::fat::FatEntry>,
    s: Set<int>,
)
    requires
        crate::layout::geo_wf(b),
        crate::layout::max_cluster(b) < f0.len(),
        d0.len() >= b.block_count,
        d1.len() == d0.len(),
        f1.len() == f0.len(),
        forall|x: int| 0 <= x < f0.len() && !(f0[x] is Free) && !s.contains(x) ==> #[trigger] f1[x] == f0[x],
        forall|j: int|
            0 <= j < d0.len() && (forall|c: int| in_data(b, c) && f0[c] is Free ==> !crate::layout::block_in_cluster(b, c, j))
                ==> #[trigger] d1[j] == d0[j],
    ensures
        crate::tree::kept_outside(b, d0, f0, d1, f1, s),
{
    assert forall|x: int| #![trigger f1[x]] #![trigger crate::layout::cluster_bytes(b, d1, x)]
        in_data(b, x) && !(f0[x] is Free) && !s.contains(x) implies f1[x] == f0[x] && crate::layout::cluster_bytes(b, d1, x)
            == crate::layout::cluster_bytes(b, d0, x) by {
        crate::myfs::lemma_cluster_range(b, x);
        assert forall|k: int| crate::layout::first_block(b, x) <= k < crate::layout::first_block(b, x) + crate::layout::bpc(b)
            implies #[trigger] d1[k] == d0[k] by {
            assert(crate::layout::block_in_cluster(b, x, k));
            assert forall|c: int| in_data(b, c) && f0[c] is Free implies !crate::layout::block_in_cluster(b, c, k) by {
                crate::myfs::lemma_clusters_disjoint(b, x, c, k);
            }
        }
        crate::dev::lemma_concat_blocks_agree(d1, d0, crate::layout::first_block(b, x), crate::layout::bpc(b) as nat);
    }
}

/// Freeing the chain from `s0` (its FAT entries, and the blocks of its clusters) keeps every
/// cluster in use outside any set that holds that chain.
proof fn lemma_kept_after_free(
    b: crate::fs::BootSector,
    d0: Seq<Seq<u8>>,
    f0: Seq<crate::fat::FatEntry>,
    d1: Seq<Seq<u8>>,
    f1: Seq<crate::fat::FatEntry>,
    s0: int,
    m: nat,
    s: Set<int>,
)
    requires
        crate::layout::geo_wf(b),
        crate::layout::max_cluster(b) < f0.len(),
        d0.len() >= b.block_count,
        d1.len() == d0.len(),
        m == chain_len(b, f0, s0),
        f1 == freed(f0, s0, m),
        forall|j: int| 0 <= j < d0.len() && !crate::layout::block_in_chain(b, f0, s0, m, j) ==> #[trigger] d1[j] == d0[j],
        forall|x: int| crate::tree::chain_clusters(b, f0, s0).contains(x) ==> #[trigger] s.contains(x),
    ensures
        crate::tree::kept_outside(b, d0, f0, d1, f1, s),
{
    assert forall|x: int| #![trigger f1[x]] #![trigger crate::layout::cluster_bytes(b, d1, x)]
        in_data(b, x) && !(f0[x] is Free) && !s.contains(x) implies f1[x] == f0[x] && crate::layout::cluster_bytes(b, d1, x)
            == crate::layout::cluster_bytes(b, d0, x) by {
        if crate::layout::follow(f0, s0, m).contains(x) {
            let t = choose|t: int| 0 <= t < m && #[trigger] crate::layout::follow(f0, s0, m)[t] == x;
            assert(nth(f0, s0, t as nat) == x);
            assert(crate::tree::chain_clusters(b, f0, s0).contains(x));
        }
        crate::myfs::lemma_cluster_range(b, x);
        assert forall|k: int| crate::layout::first_block(b, x) <= k < crate::layout::first_block(b, x) + crate::layout::bpc(b)
            implies #[trigger] d1[k] == d0[k] by {
            if crate::layout::block_in_chain(b, f0, s0, m, k) {
                let kk = choose|kk: int|
                    #![trigger nth(f0, s0, kk as nat)]
                    0 <= kk < m && in_data(b, nth(f0, s0, kk as nat)) && crate::layout::block_in_cluster(b, nth(f0, s0, kk as nat), k);
                assert(crate::tree::chain_clusters(b, f0, s0).contains(nth(f0, s0, kk as nat)));
                assert(crate::layout::block_in_cluster(b, x, k));
                crate::myfs::lemma_clusters_disjoint(b, x, nth(f0, s0, kk as nat), k);
            }
        }
        crate::dev::lemma_concat_blocks_agree(d1, d0, crate::layout::first_block(b, x), crate::layout::bpc(b) as nat);
    }
}

/// A directory whose chain keeps clear of the clusters that changed keeps its slots.
proof fn lemma_dir_kept(
    b: crate::fs::BootSector,
    d0: Seq<Seq<u8>>,
    f0: Seq<crate::fat::FatEntry>,
    d1: Seq<Seq<u8>>,
    f1: Seq<crate::fat::FatEntry>,
    dir: int,
    s: Set<int>,
)
    requires
        crate::layout::geo_wf(b),
        crate::layout::max_cluster(b) < f0.len(),
        has_chain(b, f0, dir),
        crate::tree::kept_outside(b, d0, f0, d1, f1, s),
        forall|k: int| 0 <= k < chain_len(b, f0, dir) ==> !s.contains(#[trigger] nth(f0, dir, k as nat)),
    ensures
        has_chain(b, f1, dir),
        chain_len(b, f1, dir) == chain_len(b, f0, dir),
        forall|j: int| 0 <= j < dir_slot_count(b, f0, dir) ==> #[trigger] dir_slot(b, d1, f1, dir, j) == dir_slot(b, d0, f0, dir, j),
{
    let n = chain_len(b, f0, dir);
    if dir != 0 {
        assert(crate::layout::chain_ends(b, f0, dir, n));
        assert forall|k: int| 0 <= k < n implies #[trigger] f1[nth(f0, dir, k as nat)] == f0[nth(f0, dir, k as nat)] by {
            assert(in_data(b, nth(f0, dir, k as nat)));
            if k < n - 1 {
                assert(f0[nth(f0, dir, k as nat)] is Next);
            }
            assert(!s.contains(nth(f0, dir, k as nat)));
        }
    }
    crate::tree::lemma_chain_kept(b, f0, f1, dir);
    let e = entries_per_cluster(b);
    assert forall|j: int| 0 <= j < dir_slot_count(b, f0, dir) implies #[trigger] dir_slot(b, d1, f1, dir, j) == dir_slot(b, d0, f0, dir, j) by {
        crate::dir::lemma_slot_pos(b, j);
        assert(j / e < n) by (nonlinear_arith)
            requires
                0 <= j < n * e,
                e > 0,
        ;
        let x = nth(f0, dir, (j / e) as nat);
        assert(slot_cluster(b, f1, dir, j) == x);
        assert(in_data(b, x));
        if j / e < n - 1 {
            assert(f0[x] is Next);
        }
        assert(!s.contains(x));
        assert(crate::layout::cluster_bytes(b, d1, x) == crate::layout::cluster_bytes(b, d0, x));
        assert(slot_bytes(b, d1, f1, dir, j) == slot_bytes(b, d0, f0, dir, j));
    }
}

/// A change that keeps every cluster in use outside the chain of `pd` (its FAT entry, and its
/// blocks unless they belong to a free cluster) keeps the search from the root for `pd`
/// possible, and clear of the chain of `pd` and of the clusters that were free.
proof fn lemma_clear_kept(
    b: crate::fs::BootSector,
    d0: Seq<Seq<u8>>,
    f0: Seq<crate::fat::FatEntry>,
    d1: Seq<Seq<u8>>,
    f1: Seq<crate::fat::FatEntry>,
    pd: int,
    s2: Set<int>,
)
    requires
        crate::layout::geo_wf(b),
        crate::layout::max_cluster(b) < f0.len(),
        d0.len() >= b.block_count,
        d1.len() == d0.len(),
        f1.len() == f0.len(),
        forall|x: int|
            0 <= x < f0.len() && !(f0[x] is Free) && !crate::layout::follow(f0, pd, chain_len(b, f0, pd)).contains(x) ==> #[trigger] f1[x]
                == f0[x],
        forall|j: int|
            0 <= j < d0.len() && (forall|c: int| in_data(b, c) && f0[c] is Free ==> !crate::layout::block_in_cluster(b, c, j))
                ==> #[trigger] d1[j] == d0[j],
        crate::tree::search_clear(b, d0, f0, pd, crate::tree::chain_clusters(b, f0, pd)),
        forall|y: int| #[trigger] s2.contains(y) ==> crate::tree::chain_clusters(b, f0, pd).contains(y) || (0 <= y < f0.len() && f0[y] is Free),
    ensures
        crate::tree::search_clear(b, d1, f1, pd, s2),
{
    let s = crate::tree::chain_clusters(b, f0, pd);
    assert forall|x: int| 0 <= x < f0.len() && !(f0[x] is Free) && !s.contains(x) implies #[trigger] f1[x] == f0[x] by {
        if crate::layout::follow(f0, pd, chain_len(b, f0, pd)).contains(x) {
            let t = choose|t: int| 0 <= t < chain_len(b, f0, pd) && #[trigger] crate::layout::follow(f0, pd, chain_len(b, f0, pd))[t] == x;
            assert(nth(f0, pd, t as nat) == x);
        }
    }
    lemma_kept_from_frames(b, d0, f0, d1, f1, s);
    assert(crate::tree::kept_outside(b, d0, f0, d1, f1, s));
    crate::tree::lemma_search_kept(
        b,
        d0,
        f0,
        d1,
        f1,
        crate::fs::ROOT_DIR_START as int,
        pd,
        crate::layout::data_clusters(b) as nat,
        s,
        s2,
    );
}

impl<D: BufferedBlockDevice> MyFileSystem<D> {
    /// Writes a new entry into slot `loc`, then refreshes the size of its directory; the slot
    /// then holds the entry.
    fn place_entry(&mut self, loc: DirEntryLoc, fcb: &Fcb, avoid: Ghost<Set<int>>) -> (r: Result<(), FsError>)
        requires
            old(self).wf(),
            slot_readable(old(self).boot_view(), old(self).fat(), loc.dir_start.0 as int, loc.entry_index as int),
            fcb@.base.len() == 8,
            fcb@.base[0] != 0,
            fcb@.base[0] != 0xE5,
        ensures
            crate::myfs::meta_kept(old(self).boot_view(), old(self).disk(), final(self).disk()),
            old(self).reliable() && crate::dir::slot_writable(old(self).boot_view(), old(self).fat(), loc.dir_start.0 as int, loc.entry_index as int)
                && loc.dir_start.0 == crate::fs::ROOT_DIR_START ==> r is Ok,
            old(self).reliable() && crate::dir::slot_writable(old(self).boot_view(), old(self).fat(), loc.dir_start.0 as int, loc.entry_index as int)
                && has_chain(old(self).boot_view(), old(self).fat(), loc.dir_start.0 as int) && crate::tree::search_clear(
                old(self).boot_view(),
                old(self).disk(),
                old(self).fat(),
                loc.dir_start.0 as int,
                avoid@,
            ) && avoid@.contains(slot_cluster(old(self).boot_view(), old(self).fat(), loc.dir_start.0 as int, loc.entry_index as int))
                ==> r is Ok || r->Err_0 is InvalidConfig,
            old(self).reliable() && r is Err ==> r->Err_0 is CorruptFs || r->Err_0 is InvalidConfig,
            final(self).wf(),
            final(self).boot_view() == old(self).boot_view(),
            final(self).fat() == old(self).fat(),
            final(self).dirty() == old(self).dirty(),
            final(self).reliable() == old(self).reliable(),
            final(self).handles() == old(self).handles(),
            final(self).next_handle_value() == old(self).next_handle_value(),
            final(self).disk().len() == old(self).disk().len(),
            r is Ok ==> (dir_slot(old(self).boot_view(), final(self).disk(), old(self).fat(), loc.dir_start.0 as int, loc.entry_index as int)
                matches SlotView::Occupied(v) && v.base == fcb@.base && v.ext == fcb@.ext && v.attr == fcb@.attr && v.start_cluster
                == fcb@.start_cluster && (kind_of_attr(fcb.attr.0) == Some(NodeKind::File) || fcb.start_cluster != loc.dir_start
                ==> v == fcb@)),
            r is Ok ==> forall|j: int, key: Seq<char>|
                0 <= j < loc.entry_index ==> #[trigger] slot_named(old(self).boot_view(), final(self).disk(), old(self).fat(), loc.dir_start.0 as int, j, key)
                    == slot_named(old(self).boot_view(), old(self).disk(), old(self).fat(), loc.dir_start.0 as int, j, key),
            r is Ok ==> forall|dir2: int, j: int|
                j >= 0 && in_data(old(self).boot_view(), slot_cluster(old(self).boot_view(), old(self).fat(), dir2, j))
                    && slot_cluster(old(self).boot_view(), old(self).fat(), dir2, j) != slot_cluster(
                    old(self).boot_view(),
                    old(self).fat(),
                    loc.dir_start.0 as int,
                    loc.entry_index as int,
                ) ==> #[trigger] crate::tree::kept_or_restamped(
                    old(self).boot_view(),
                    old(self).disk(),
                    final(self).disk(),
                    old(self).fat(),
                    loc.dir_start.0 as int,
                    dir2,
                    j,
                ),
    {
        let ghost b = self.boot_view();
        let ghost fat = self.fat();
        let ghost d0 = self.disk();
        let ghost d = loc.dir_start.0 as int;
        let ghost i = loc.entry_index as int;
        proof {
            self.lemma_wf();
            crate::dir::lemma_slot_pos(b, i);
            let kk: int = i / entries_per_cluster(b);
            assert(in_data(b, nth(fat, d, kk as nat)));
        }
        self.write_fcb_at(loc, fcb)?;
        let ghost d2 = self.disk();
        proof {
            assert(slot_bytes(b, d2, fat, d, i) == fcb_bytes(fcb@));
            lemma_fcb_round_trip(fcb@, Seq::<u8>::empty());
            assert(fcb_bytes(fcb@) + Seq::<u8>::empty() =~= fcb_bytes(fcb@));
            assert(fcb_bytes(fcb@)[0] == fcb@.base[0]);
            assert(dir_slot(b, d2, fat, d, i) == SlotView::Occupied(fcb@));
        }
        let ghost d1 = self.disk();
        proof {
            let c = slot_cluster(b, fat, d, i);
            if avoid@.contains(c) && crate::tree::search_clear(b, d0, fat, d, avoid@) {
                self.lemma_wf();
                assert(crate::myfs::only_cluster_changed(b, d0, d2, c));
                assert forall|x: int|
                    in_data(b, x) && !(fat[x] is Free) && !avoid@.contains(x) implies #[trigger] crate::layout::cluster_bytes(b, d2, x)
                        == crate::layout::cluster_bytes(b, d0, x) by {
                    crate::myfs::lemma_cluster_unchanged(b, d0, d2, c, x);
                }
                assert(crate::tree::kept_outside(b, d0, fat, d2, fat, avoid@));
                crate::tree::lemma_search_kept(
                    b,
                    d0,
                    fat,
                    d2,
                    fat,
                    crate::fs::ROOT_DIR_START as int,
                    d,
                    crate::layout::data_clusters(b) as nat,
                    avoid@,
                    avoid@,
                );
            }
        }
        self.refresh_dir_size(loc.dir_start)?;
        proof {
            assert(crate::tree::kept_or_restamped(b, d2, self.disk(), fat, d, d, i));
            let e = entries_per_cluster(b);
            assert forall|j: int, key: Seq<char>| 0 <= j < i implies #[trigger] slot_named(b, self.disk(), fat, d, j, key) == slot_named(
                b,
                d0,
                fat,
                d,
                j,
                key,
            ) by {
                crate::dir::lemma_slot_pos(b, j);
                let kj: int = j / e;
                let ki: int = i / e;
                assert(kj <= ki) by {
                    vstd::arithmetic::div_mod::lemma_div_is_ordered(j, i, e);
                }
                crate::layout::lemma_chain_ok_prefix(b, fat, d, (ki + 1) as nat, (kj + 1) as nat);
                assert(in_data(b, nth(fat, d, kj as nat)));
                if slot_cluster(b, fat, d, j) == slot_cluster(b, fat, d, i) && crate::layout::slot_offset(b, j) == crate::layout::slot_offset(b, i) {
                    let f = crate::layout::follow(fat, d, (ki + 1) as nat);
                    assert(f[kj] == f[ki]);
                    assert(kj == ki);
                    vstd::arithmetic::div_mod::lemma_fundamental_div_mod(j, e);
                    vstd::arithmetic::div_mod::lemma_fundamental_div_mod(i, e);
                    assert(j % e == i % e) by (nonlinear_arith)
                        requires
                            (j % e) * 24 == (i % e) * 24,
                    ;
                    assert(false);
                }
                assert(slot_bytes(b, d2, fat, d, j) == slot_bytes(b, d0, fat, d, j));
                assert(crate::tree::kept_or_restamped(b, d2, self.disk(), fat, d, d, j));
            }
            assert forall|dir2: int, j: int|
                j >= 0 && in_data(b, slot_cluster(b, fat, dir2, j)) && slot_cluster(b, fat, dir2, j) != slot_cluster(b, fat, d, i)
                    implies #[trigger] crate::tree::kept_or_restamped(b, d0, self.disk(), fat, d, dir2, j) by {
                assert(slot_bytes(b, d2, fat, dir2, j) == slot_bytes(b, d0, fat, dir2, j));
                assert(crate::tree::kept_or_restamped(b, d2, self.disk(), fat, d, dir2, j));
            }
        }
        Ok(())
    }

    /// Creates an empty file named `name` in the directory at `parent_dir`, in its first free
    /// slot.
    pub fn create_file(&mut self, parent_dir: ClusterId, name: &str) -> (r: Result<DirEntryLoc, FsError>)
        requires
            old(self).wf(),
        ensures
            crate::myfs::meta_kept(old(self).boot_view(), old(self).disk(), final(self).disk()),
            final(self).wf(),
            final(self).boot_view() == old(self).boot_view(),
            final(self).reliable() == old(self).reliable(),
            final(self).handles() == old(self).handles(),
            final(self).next_handle_value() == old(self).next_handle_value(),
            !name_ok(name) ==> (r matches Err(FsError::InvalidName(s)) && s@ == name@),
            r matches Ok(loc) ==> {
                let b = old(self).boot_view();
                let i = loc.entry_index as int;
                &&& name_ok(name)
                &&& loc.dir_start == parent_dir
                &&& slot_readable(b, final(self).fat(), parent_dir.0 as int, i)
                &&& dir_slot(b, final(self).disk(), final(self).fat(), parent_dir.0 as int, i) matches SlotView::Occupied(v)
                &&& short_name_spec(name.spec_bytes()) == Some((v.base, v.ext))
                &&& (name@.last() != '.' ==> fcb_name(v) == upper_chars(name@))
                &&& kind_of_attr(v.attr) == Some(NodeKind::File)
                &&& v.start_cluster == 0
                &&& v.size == 0
                &&& forall|j: int| 0 <= j < i ==> #[trigger] dir_slot(b, old(self).disk(), old(self).fat(), parent_dir.0 as int, j) is Occupied
                &&& (old(self).reliable() && has_chain(b, old(self).fat(), parent_dir.0 as int) ==> forall|j: int|
                    0 <= j < dir_slot_count(b, old(self).fat(), parent_dir.0 as int) ==> !#[trigger] slot_named(
                        b,
                        old(self).disk(),
                        old(self).fat(),
                        parent_dir.0 as int,
                        j,
                        upper_chars(name@),
                    ))
            },
            old(self).reliable() ==> (r matches Err(FsError::InvalidPath(s)) ==> name_ok(name) && s@ == upper_chars(name@) + " already exists"@
                && exists|j: int|
                0 <= j && #[trigger] slot_named(old(self).boot_view(), old(self).disk(), old(self).fat(), parent_dir.0 as int, j, upper_chars(name@))),
            old(self).reliable() && name_ok(name) && has_chain(old(self).boot_view(), old(self).fat(), parent_dir.0 as int) && (exists|j: int|
                0 <= j < dir_slot_count(old(self).boot_view(), old(self).fat(), parent_dir.0 as int) && #[trigger] slot_named(
                    old(self).boot_view(),
                    old(self).disk(),
                    old(self).fat(),
                    parent_dir.0 as int,
                    j,
                    upper_chars(name@),
                )) ==> r matches Err(FsError::InvalidPath(_)),
            old(self).reliable() && name_ok(name) && parent_dir.0 != 0 && has_chain(old(self).boot_view(), old(self).fat(), parent_dir.0 as int)
                && (parent_dir.0 == crate::fs::ROOT_DIR_START || crate::tree::search_clear(
                old(self).boot_view(),
                old(self).disk(),
                old(self).fat(),
                parent_dir.0 as int,
                crate::tree::chain_clusters(old(self).boot_view(), old(self).fat(), parent_dir.0 as int),
            )) && (forall|j: int|
                0 <= j < dir_slot_count(old(self).boot_view(), old(self).fat(), parent_dir.0 as int) ==> !#[trigger] slot_named(
                    old(self).boot_view(),
                    old(self).disk(),
                    old(self).fat(),
                    parent_dir.0 as int,
                    j,
                    upper_chars(name@),
                )) && (crate::layout::free_set(old(self).boot_view(), old(self).fat()).len() > 0 || exists|j: int|
                0 <= j < dir_slot_count(old(self).boot_view(), old(self).fat(), parent_dir.0 as int) && !(#[trigger] dir_slot(
                    old(self).boot_view(),
                    old(self).disk(),
                    old(self).fat(),
                    parent_dir.0 as int,
                    j,
                ) is Occupied)) ==> r is Ok || r matches Err(FsError::InvalidConfig(_)),
            r matches Err(FsError::NoSpace) && old(self).reliable() ==> crate::layout::free_set(old(self).boot_view(), old(self).fat()).len() == 0
                && (has_chain(old(self).boot_view(), old(self).fat(), parent_dir.0 as int) && parent_dir.0 != 0 ==> forall|j: int|
                0 <= j < dir_slot_count(old(self).boot_view(), old(self).fat(), parent_dir.0 as int) ==> #[trigger] dir_slot(
                    old(self).boot_view(),
                    old(self).disk(),
                    old(self).fat(),
                    parent_dir.0 as int,
                    j,
                ) is Occupied),
            old(self).reliable() && has_chain(old(self).boot_view(), old(self).fat(), parent_dir.0 as int) && name@.len() > 0 && name@.last()
                != '.' ==> (r matches Ok(loc) ==> (dir_slot(old(self).boot_view(), final(self).disk(), final(self).fat(), parent_dir.0 as int, loc.entry_index as int)
                matches SlotView::Occupied(v) && crate::paths::first_named(
                old(self).boot_view(),
                final(self).disk(),
                final(self).fat(),
                loc,
                upper_chars(name@),
                v,
            ))),
    {
        let key = normalize_component(name)?;
        let ghost b = self.boot_view();
        let ghost d0 = self.disk();
        let ghost f0 = self.fat();
        let found = self.lookup(parent_dir, name);
        proof {
            assert(key@ == upper_chars(name@));
            assert(name_ok(name));
        }
        match found {
            Ok((loc, fcb)) => {
                proof {
                    assert(dir_slot(b, d0, f0, parent_dir.0 as int, loc.entry_index as int) == SlotView::Occupied(fcb@));
                    assert(fcb_name(fcb@) == upper_chars(name@));
                    assert(slot_named(b, d0, f0, parent_dir.0 as int, loc.entry_index as int, upper_chars(name@)));
                    if has_chain(b, f0, parent_dir.0 as int) {
                        self.lemma_wf();
                        crate::lookup::lemma_readable_slot_counted(b, f0, parent_dir.0 as int, loc.entry_index as int);
                    }
                }
                return Err(FsError::InvalidPath(already_exists(key)));
            },
            Err(_) => {},
        }
        let loc = self.find_free_dir_slot(parent_dir)?;
        let ghost f1 = self.fat();
        let ghost d1 = self.disk();
        proof {
            if self.fat() == f0 && has_chain(b, f0, parent_dir.0 as int) {
                self.lemma_wf();
                crate::lookup::lemma_readable_slot_counted(b, f0, parent_dir.0 as int, loc.entry_index as int);
            }
        }
        let ghost pd = parent_dir.0 as int;
        let ghost avoid = crate::tree::chain_clusters(b, f0, pd).insert(slot_cluster(b, f1, pd, loc.entry_index as int));
        proof {
            let ii = loc.entry_index as int;
            if has_chain(b, f0, pd) && pd != crate::fs::ROOT_DIR_START as int && crate::tree::search_clear(b, d0, f0, pd, crate::tree::chain_clusters(b, f0, pd)) {
                self.lemma_wf();
                let y = slot_cluster(b, f1, pd, ii);
                crate::dir::lemma_slot_pos(b, ii);
                if f1 == f0 {
                    let e = entries_per_cluster(b);
                    assert(ii / e < chain_len(b, f0, pd)) by (nonlinear_arith)
                        requires
                            0 <= ii < chain_len(b, f0, pd) * e,
                            e > 0,
                    ;
                    assert(crate::tree::chain_clusters(b, f0, pd).contains(y));
                } else {
                    assert(f0[y] is Free);
                    assert(in_data(b, nth(f1, pd, (ii / entries_per_cluster(b)) as nat)));
                }
                lemma_clear_kept(b, d0, f0, d1, f1, pd, avoid);
            }
        }
        let fcb = Fcb::new(name, NodeKind::File, ClusterId(0), 0, UtcDateTime::now())?;
        proof {
            lemma_short_name_first_byte(name.spec_bytes());
        }
        self.place_entry(loc, &fcb, Ghost(avoid))?;
        proof {
            if name@.len() > 0 && name@.last() != '.' {
                crate::naming::law_stored_name_reads_back(name@, fcb@.base, fcb@.ext);
                let key = upper_chars(name@);
                let d = parent_dir.0 as int;
                if old(self).reliable() && has_chain(b, f0, d) {
                    assert forall|j: int| 0 <= j < loc.entry_index implies !#[trigger] slot_named(b, self.disk(), self.fat(), d, j, key) by {
                        assert(slot_named(b, self.disk(), f1, d, j, key) == slot_named(b, d1, f1, d, j, key));
                        assert(slot_bytes(b, d1, f1, d, j) == slot_bytes(b, d0, f0, d, j));
                        assert(!slot_named(b, d0, f0, d, j, key));
                    }
                }
            }
        }
        Ok(loc)
    }

    /// Creates an empty directory named `name` in the directory at `parent_dir`: a fresh
    /// cluster (the lowest free one) becomes its chain, and its entry goes into the first free
    /// slot of the parent.
    #[verifier::spinoff_prover]
    #[verifier::rlimit(40)]
    pub fn mkdir(&mut self, parent_dir: ClusterId, name: &str) -> (r: Result<DirEntryLoc, FsError>)
        requires
            old(self).wf(),
        ensures
            crate::myfs::meta_kept(old(self).boot_view(), old(self).disk(), final(self).disk()),
            final(self).wf(),
            final(self).boot_view() == old(self).boot_view(),
            final(self).reliable() == old(self).reliable(),
            final(self).handles() == old(self).handles(),
            final(self).next_handle_value() == old(self).next_handle_value(),
            !name_ok(name) ==> (r matches Err(FsError::InvalidName(s)) && s@ == name@),
            r matches Ok(loc) ==> {
                let b = old(self).boot_view();
                let i = loc.entry_index as int;
                &&& name_ok(name)
                &&& loc.dir_start == parent_dir
                &&& slot_readable(b, final(self).fat(), parent_dir.0 as int, i)
                &&& dir_slot(b, final(self).disk(), final(self).fat(), parent_dir.0 as int, i) matches SlotView::Occupied(v)
                &&& short_name_spec(name.spec_bytes()) == Some((v.base, v.ext))
                &&& (name@.last() != '.' ==> fcb_name(v) == upper_chars(name@))
                &&& kind_of_attr(v.attr) == Some(NodeKind::Directory)
                &&& (has_chain(b, old(self).fat(), parent_dir.0 as int) ==> v.size == 0)
                &&& in_data(b, v.start_cluster as int)
                &&& old(self).fat()[v.start_cluster as int] is Free
                &&& (has_chain(b, old(self).fat(), parent_dir.0 as int) ==> has_chain(b, final(self).fat(), v.start_cluster as int)
                    && dir_empty(b, final(self).disk(), final(self).fat(), v.start_cluster as int)
                    && chains_apart(b, final(self).fat(), parent_dir.0 as int, i, v.start_cluster as int))
                &&& forall|x: int| in_data(b, x) && x < v.start_cluster ==> !(#[trigger] old(self).fat()[x] is Free)
                &&& (old(self).reliable() && has_chain(b, old(self).fat(), parent_dir.0 as int) ==> forall|j: int|
                    0 <= j < dir_slot_count(b, old(self).fat(), parent_dir.0 as int) ==> !#[trigger] slot_named(
                        b,
                        old(self).disk(),
                        old(self).fat(),
                        parent_dir.0 as int,
                        j,
                        upper_chars(name@),
                    ))
            },
            old(self).reliable() ==> (r matches Err(FsError::InvalidPath(s)) ==> name_ok(name) && s@ == upper_chars(name@) + " already exists"@
                && exists|j: int|
                0 <= j && #[trigger] slot_named(old(self).boot_view(), old(self).disk(), old(self).fat(), parent_dir.0 as int, j, upper_chars(name@))),
            old(self).reliable() && name_ok(name) && has_chain(old(self).boot_view(), old(self).fat(), parent_dir.0 as int) && (exists|j: int|
                0 <= j < dir_slot_count(old(self).boot_view(), old(self).fat(), parent_dir.0 as int) && #[trigger] slot_named(
                    old(self).boot_view(),
                    old(self).disk(),
                    old(self).fat(),
                    parent_dir.0 as int,
                    j,
                    upper_chars(name@),
                )) ==> r matches Err(FsError::InvalidPath(_)),
            r matches Err(FsError::NoSpace) && old(self).reliable() ==> crate::layout::free_set(old(self).boot_view(), old(self).fat()).len() < 2
                && (has_chain(old(self).boot_view(), old(self).fat(), parent_dir.0 as int) && parent_dir.0 != 0 && crate::layout::free_set(
                old(self).boot_view(),
                old(self).fat(),
            ).len() == 1 ==> forall|j: int|
                0 <= j < dir_slot_count(old(self).boot_view(), old(self).fat(), parent_dir.0 as int) ==> #[trigger] dir_slot(
                    old(self).boot_view(),
                    old(self).disk(),
                    old(self).fat(),
                    parent_dir.0 as int,
                    j,
                ) is Occupied),
            old(self).reliable() && name_ok(name) && parent_dir.0 != 0 && has_chain(old(self).boot_view(), old(self).fat(), parent_dir.0 as int)
                && (parent_dir.0 == crate::fs::ROOT_DIR_START || crate::tree::search_clear(
                old(self).boot_view(),
                old(self).disk(),
                old(self).fat(),
                parent_dir.0 as int,
                crate::tree::chain_clusters(old(self).boot_view(), old(self).fat(), parent_dir.0 as int),
            )) && (forall|j: int|
                0 <= j < dir_slot_count(old(self).boot_view(), old(self).fat(), parent_dir.0 as int) ==> !#[trigger] slot_named(
                    old(self).boot_view(),
                    old(self).disk(),
                    old(self).fat(),
                    parent_dir.0 as int,
                    j,
                    upper_chars(name@),
                )) && (crate::layout::free_set(old(self).boot_view(), old(self).fat()).len() >= 2 || (crate::layout::free_set(
                old(self).boot_view(),
                old(self).fat(),
            ).len() == 1 && exists|j: int|
                0 <= j < dir_slot_count(old(self).boot_view(), old(self).fat(), parent_dir.0 as int) && !(#[trigger] dir_slot(
                    old(self).boot_view(),
                    old(self).disk(),
                    old(self).fat(),
                    parent_dir.0 as int,
                    j,
                ) is Occupied))) ==> r is Ok || r matches Err(FsError::InvalidConfig(_)),
            old(self).reliable() && name_ok(name) && has_chain(old(self).boot_view(), old(self).fat(), parent_dir.0 as int) && (forall|j: int|
                0 <= j < dir_slot_count(old(self).boot_view(), old(self).fat(), parent_dir.0 as int) ==> !#[trigger] slot_named(
                    old(self).boot_view(),
                    old(self).disk(),
                    old(self).fat(),
                    parent_dir.0 as int,
                    j,
                    upper_chars(name@),
                )) && crate::layout::free_set(old(self).boot_view(), old(self).fat()).len() == 0 ==> r matches Err(FsError::NoSpace),
            old(self).reliable() && has_chain(old(self).boot_view(), old(self).fat(), parent_dir.0 as int) && name@.len() > 0 && name@.last()
                != '.' ==> (r matches Ok(loc) ==> (dir_slot(old(self).boot_view(), final(self).disk(), final(self).fat(), parent_dir.0 as int, loc.entry_index as int)
                matches SlotView::Occupied(v) && crate::paths::first_named(
                old(self).boot_view(),
                final(self).disk(),
                final(self).fat(),
                loc,
                upper_chars(name@),
                v,
            ))),
    {
        let key = normalize_component(name)?;
        let ghost b = self.boot_view();
        let ghost d0 = self.disk();
        let ghost f0 = self.fat();
        let found = self.lookup(parent_dir, name);
        proof {
            assert(key@ == upper_chars(name@));
            assert(name_ok(name));
        }
        match found {
            Ok((loc, fcb)) => {
                proof {
                    assert(dir_slot(b, d0, f0, parent_dir.0 as int, loc.entry_index as int) == SlotView::Occupied(fcb@));
                    assert(fcb_name(fcb@) == upper_chars(name@));
                    assert(slot_named(b, d0, f0, parent_dir.0 as int, loc.entry_index as int, upper_chars(name@)));
                    if has_chain(b, f0, parent_dir.0 as int) {
                        self.lemma_wf();
                        crate::lookup::lemma_readable_slot_counted(b, f0, parent_dir.0 as int, loc.entry_index as int);
                    }
                }
                return Err(FsError::InvalidPath(already_exists(key)));
            },
            Err(_) => {},
        }
        let fresh = self.allocate_clusters(1)?;
        let new_cluster = fresh[0];
        proof {
            assert(fresh@[0].0 == new_cluster.0);
            assert forall|x: int| in_data(b, x) && x < new_cluster.0 implies !(#[trigger] f0[x] is Free) by {
                if f0[x] is Free {
                    let k = choose|k: int| 0 <= k < 1 && #[trigger] fresh@[k].0 == x;
                    assert(fresh@[k] == fresh@[0]);
                }
            }
        }
        let ghost f1 = self.fat();
        let ghost d1 = self.disk();
        proof {
            let c = new_cluster.0 as int;
            self.lemma_wf();
            crate::layout::lemma_free_set_finite(b, f0);
            assert(crate::layout::free_set(b, f0).contains(c));
            assert forall|x: int| 0 <= x < f0.len() && x != c implies #[trigger] f1[x] == f0[x] by {
                if exists|k: int| 0 <= k < 1 && #[trigger] fresh@[k].0 == x {
                    let k = choose|k: int| 0 <= k < 1 && #[trigger] fresh@[k].0 == x;
                    assert(fresh@[k] == fresh@[0]);
                }
            }
            assert(exists|k: int| 0 <= k < 1 && #[trigger] fresh@[k].0 == c);
            assert(crate::layout::free_set(b, f1) =~= crate::layout::free_set(b, f0).remove(c));
        }
        proof {
            let c = new_cluster.0 as int;
            let pd = parent_dir.0 as int;
            assert(fresh@[0].0 == c);
            assert(crate::layout::cluster_bytes(b, d1, c) == crate::myfs::zeros(crate::layout::cluster_size(b)));
            if has_chain(b, f0, pd) && pd != 0 {
                let n0 = chain_len(b, f0, pd);
                assert(crate::layout::chain_ends(b, f0, pd, n0));
                assert forall|k: int| 0 <= k < n0 implies !(#[trigger] f0[nth(f0, pd, k as nat)] is Free) by {
                    if k < n0 - 1 {
                        assert(f0[nth(f0, pd, k as nat)] is Next);
                    }
                }
                crate::layout::lemma_chain_stable(b, f0, f1, pd, n0);
                crate::layout::lemma_chain_ends_unique(b, f1, pd, n0, chain_len(b, f1, pd));
                assert(!crate::layout::follow(f1, pd, chain_len(b, f1, pd)).contains(c)) by {
                    if crate::layout::follow(f1, pd, n0).contains(c) {
                        let t = choose|t: int| 0 <= t < n0 && #[trigger] crate::layout::follow(f1, pd, n0)[t] == c;
                        assert(crate::layout::follow(f0, pd, n0)[t] == nth(f0, pd, t as nat));
                    }
                }
            }
        }
        proof {
            let pd = parent_dir.0 as int;
            if has_chain(b, f0, pd) && pd != 0 {
                self.lemma_wf();
                assert forall|x: int| 0 <= x < f0.len() && !(f0[x] is Free) && !Set::<int>::empty().contains(x) implies #[trigger] f1[x]
                    == f0[x] by {}
                lemma_kept_from_frames(b, d0, f0, d1, f1, Set::<int>::empty());
                lemma_dir_kept(b, d0, f0, d1, f1, pd, Set::<int>::empty());
                lemma_chain_clusters_kept(b, f0, f1, pd);
                if crate::tree::search_clear(b, d0, f0, pd, crate::tree::chain_clusters(b, f0, pd)) {
                    lemma_clear_kept(b, d0, f0, d1, f1, pd, crate::tree::chain_clusters(b, f1, pd));
                }
                if exists|j: int| 0 <= j < dir_slot_count(b, f0, pd) && !(#[trigger] dir_slot(b, d0, f0, pd, j) is Occupied) {
                    let j = choose|j: int| 0 <= j < dir_slot_count(b, f0, pd) && !(#[trigger] dir_slot(b, d0, f0, pd, j) is Occupied);
                    assert(dir_slot(b, d1, f1, pd, j) == dir_slot(b, d0, f0, pd, j));
                }
            }
        }
        let loc = self.find_free_dir_slot(parent_dir)?;
        let ghost f2 = self.fat();
        let ghost d2 = self.disk();
        proof {
            let c = new_cluster.0 as int;
            let pd = parent_dir.0 as int;
            if has_chain(b, f0, pd) {
                self.lemma_wf();
                assert(f2[c] is EndOfChain);
                crate::myfs::lemma_cluster_range(b, c);
                assert forall|k: int| crate::layout::first_block(b, c) <= k < crate::layout::first_block(b, c) + crate::layout::bpc(b)
                    implies #[trigger] d2[k] == d1[k] by {
                    assert forall|c2: int| in_data(b, c2) && f1[c2] is Free implies !crate::layout::block_in_cluster(b, c2, k) by {
                        crate::myfs::lemma_clusters_disjoint(b, c, c2, k);
                    }
                }
                crate::dev::lemma_concat_blocks_agree(d2, d1, crate::layout::first_block(b, c), crate::layout::bpc(b) as nat);
                lemma_zeroed_dir_empty(b, d2, f2, c);
            }
        }
        let ghost pd = parent_dir.0 as int;
        let ghost avoid = crate::tree::chain_clusters(b, f1, pd).insert(slot_cluster(b, f2, pd, loc.entry_index as int));
        proof {
            let ii = loc.entry_index as int;
            if has_chain(b, f0, pd) && pd != 0 && pd != crate::fs::ROOT_DIR_START as int && crate::tree::search_clear(b, d0, f0, pd, crate::tree::chain_clusters(b, f0, pd)) {
                self.lemma_wf();
                let y = slot_cluster(b, f2, pd, ii);
                crate::dir::lemma_slot_pos(b, ii);
                if f2 == f1 {
                    let e = entries_per_cluster(b);
                    crate::lookup::lemma_readable_slot_counted(b, f1, pd, ii);
                    assert(ii / e < chain_len(b, f1, pd)) by (nonlinear_arith)
                        requires
                            0 <= ii < chain_len(b, f1, pd) * e,
                            e > 0,
                    ;
                    assert(crate::tree::chain_clusters(b, f1, pd).contains(y));
                } else {
                    assert(f1[y] is Free);
                    assert(in_data(b, nth(f2, pd, (ii / entries_per_cluster(b)) as nat)));
                }
                lemma_clear_kept(b, d1, f1, d2, f2, pd, avoid);
            }
        }
        let fcb = Fcb::new(name, NodeKind::Directory, new_cluster, 0, UtcDateTime::now())?;
        proof {
            lemma_short_name_first_byte(name.spec_bytes());
            if has_chain(b, f0, parent_dir.0 as int) && parent_dir.0 != 0 {
                let n = chain_len(b, f0, parent_dir.0 as int);
                assert(crate::layout::chain_ends(b, f0, parent_dir.0 as int, n));
                assert(in_data(b, crate::layout::nth(f0, parent_dir.0 as int, (0int) as nat)));
                if n > 1 {
                    assert(f0[crate::layout::nth(f0, parent_dir.0 as int, (0int) as nat)] is Next);
                }
                assert(new_cluster.0 != parent_dir.0);
            }
        }
        self.place_entry(loc, &fcb, Ghost(avoid))?;
        proof {
            let c = new_cluster.0 as int;
            let pd = parent_dir.0 as int;
            if name@.len() > 0 && name@.last() != '.' {
                crate::naming::law_stored_name_reads_back(name@, fcb@.base, fcb@.ext);
                let key = upper_chars(name@);
                if old(self).reliable() && has_chain(b, f0, pd) {
                    self.lemma_wf();
                    let e = entries_per_cluster(b);
                    let n0 = chain_len(b, f0, pd);
                    let i = loc.entry_index as int;
                    assert(i <= dir_slot_count(b, f0, pd)) by {
                        if f2 == f1 {
                            crate::lookup::lemma_readable_slot_counted(b, f1, pd, i);
                        }
                    }
                    assert(crate::myfs::only_cluster_changed(b, d0, d1, c)) by {
                        assert forall|jj: int| 0 <= jj < d0.len() && !crate::layout::block_in_cluster(b, c, jj) implies #[trigger] d1[jj] == d0[jj] by {
                            assert forall|k: int| 0 <= k < 1 implies !crate::layout::block_in_cluster(b, #[trigger] fresh@[k].0 as int, jj) by {
                                assert(fresh@[k] == fresh@[0]);
                            }
                        }
                    }
                    assert forall|j: int| 0 <= j < i implies !#[trigger] slot_named(b, self.disk(), self.fat(), pd, j, key) by {
                        assert(slot_named(b, self.disk(), f2, pd, j, key) == slot_named(b, d2, f2, pd, j, key));
                        assert(slot_bytes(b, d2, f2, pd, j) == slot_bytes(b, d1, f1, pd, j));
                        crate::dir::lemma_slot_pos(b, j);
                        let k = j / e;
                        vstd::arithmetic::div_mod::lemma_fundamental_div_mod(j, e);
                        assert(k < n0) by (nonlinear_arith)
                            requires
                                j < n0 * e,
                                j == e * k + j % e,
                                j % e >= 0,
                                e > 0,
                        ;
                        assert(nth(f1, pd, k as nat) == nth(f0, pd, k as nat));
                        let cj = nth(f0, pd, k as nat);
                        assert(in_data(b, cj));
                        if k < n0 - 1 {
                            assert(f0[cj] is Next);
                        } else {
                            assert(f0[cj] is EndOfChain);
                        }
                        crate::myfs::lemma_cluster_unchanged(b, d0, d1, c, cj);
                        assert(slot_bytes(b, d1, f1, pd, j) == slot_bytes(b, d0, f0, pd, j));
                        assert(!slot_named(b, d0, f0, pd, j, key));
                    }
                }
            }
            if has_chain(b, f0, pd) {
                let e = entries_per_cluster(b);
                let sc = slot_cluster(b, f2, pd, loc.entry_index as int);
                assert(sc != c) by {
                    if f2 == f1 {
                        let i = loc.entry_index as int;
                        crate::lookup::lemma_readable_slot_counted(b, f1, pd, i);
                        let n0 = chain_len(b, f0, pd);
                        let k = i / e;
                        crate::dir::lemma_slot_pos(b, i);
                        vstd::arithmetic::div_mod::lemma_fundamental_div_mod(i, e);
                        assert(k < n0) by (nonlinear_arith)
                            requires
                                i < n0 * e,
                                i == e * k + i % e,
                                i % e >= 0,
                                e > 0,
                        ;
                        assert(nth(f1, pd, k as nat) == nth(f0, pd, k as nat));
                        if k < n0 - 1 {
                            assert(f0[nth(f0, pd, k as nat)] is Next);
                        } else {
                            assert(f0[nth(f0, pd, k as nat)] is EndOfChain);
                        }
                    }
                }
                assert forall|j: int| 0 <= j < dir_slot_count(b, self.fat(), c) implies !(#[trigger] dir_slot(
                    b,
                    self.disk(),
                    self.fat(),
                    c,
                    j,
                ) is Occupied) by {
                    crate::dir::lemma_slot_pos(b, j);
                    assert(j / e == 0) by {
                        vstd::arithmetic::div_mod::lemma_basic_div(j, e);
                    }
                    assert(slot_cluster(b, f2, c, j) == c);
                    assert(crate::tree::kept_or_restamped(b, d2, self.disk(), f2, pd, c, j));
                    assert(!(dir_slot(b, d2, f2, c, j) is Occupied));
                }
                let i = loc.entry_index as int;
                crate::layout::lemma_chain_ends_unique(b, f2, c, 1, chain_len(b, f2, c));
                assert(crate::layout::follow(f2, c, 1) =~= seq![c]);
                assert forall|k: int| 0 <= k <= i / e implies !#[trigger] crate::layout::follow(f2, c, chain_len(b, f2, c)).contains(
                    nth(f2, pd, k as nat),
                ) by {
                    if nth(f2, pd, k as nat) == c && k < i / e {
                        assert(f2[nth(f2, pd, k as nat)] is Next);
                    }
                }
            }
        }
        Ok(loc)
    }

    /// Removes the file whose entry is at `loc`: its clusters are freed and its slot is marked
    /// deleted. A directory, or a file that is open, is refused.
    pub fn remove_file(&mut self, loc: DirEntryLoc) -> (r: Result<(), FsError>)
        requires
            old(self).wf(),
        ensures
            crate::myfs::meta_kept(old(self).boot_view(), old(self).disk(), final(self).disk()),
            final(self).wf(),
            final(self).boot_view() == old(self).boot_view(),
            final(self).reliable() == old(self).reliable(),
            final(self).handles() == old(self).handles(),
            final(self).next_handle_value() == old(self).next_handle_value(),
            !slot_readable(old(self).boot_view(), old(self).fat(), loc.dir_start.0 as int, loc.entry_index as int) ==> r is Err
                && unchanged(*old(self), *final(self)) && (old(self).reliable() ==> r->Err_0 is CorruptFs),
            old(self).reliable() && slot_readable(old(self).boot_view(), old(self).fat(), loc.dir_start.0 as int, loc.entry_index as int)
                && !(dir_slot(old(self).boot_view(), old(self).disk(), old(self).fat(), loc.dir_start.0 as int, loc.entry_index as int) is Occupied)
                ==> r == Err::<(), FsError>(FsError::NotFoundAt(loc)) && unchanged(*old(self), *final(self)),
            entry_at(old(self).boot_view(), old(self).disk(), old(self).fat(), loc) matches Some(v) ==> (old(self).reliable() && kind_of_attr(v.attr) is None ==> r is Err && r->Err_0 is CorruptFs && unchanged(*old(self), *final(self))),
            entry_at(old(self).boot_view(), old(self).disk(), old(self).fat(), loc) matches Some(v) ==> (old(self).reliable() && kind_of_attr(v.attr) == Some(NodeKind::Directory) ==> (r matches Err(FsError::IsADirectory(s)) && s@ == fcb_name(v))
                && unchanged(*old(self), *final(self))),
            entry_at(old(self).boot_view(), old(self).disk(), old(self).fat(), loc) matches Some(v) ==> (old(self).reliable() && kind_of_attr(v.attr) == Some(NodeKind::File) && is_open(old(self).handles(), loc) ==> r == Err::<(), FsError>(
                FsError::FileOpen(loc),
            ) && unchanged(*old(self), *final(self))),
            entry_at(old(self).boot_view(), old(self).disk(), old(self).fat(), loc) matches Some(v) ==> (r is Ok ==> kind_of_attr(v.attr) == Some(NodeKind::File) && !is_open(old(self).handles(), loc) && exists|m: nat|
                #![trigger freed(old(self).fat(), v.start_cluster as int, m)]
                ((v.start_cluster == 0 && m == 0) || crate::layout::chain_ends(old(self).boot_view(), old(self).fat(), v.start_cluster as int, m))
                    && final(self).fat() == freed(old(self).fat(), v.start_cluster as int, m)),
            entry_at(old(self).boot_view(), old(self).disk(), old(self).fat(), loc) matches Some(v) ==> (old(self).reliable() && kind_of_attr(v.attr) == Some(NodeKind::File) && !is_open(old(self).handles(), loc) && has_chain(
                old(self).boot_view(),
                old(self).fat(),
                v.start_cluster as int,
            ) && chains_apart(old(self).boot_view(), old(self).fat(), loc.dir_start.0 as int, loc.entry_index as int, v.start_cluster as int)
                ==> (r is Ok || r->Err_0 is CorruptFs || r->Err_0 is InvalidConfig) && (loc.dir_start.0 == crate::fs::ROOT_DIR_START ==> r is Ok)),
            entry_at(old(self).boot_view(), old(self).disk(), old(self).fat(), loc) matches Some(v) ==> (old(self).reliable() && kind_of_attr(v.attr) == Some(NodeKind::File) && !is_open(old(self).handles(), loc)
                && has_chain(old(self).boot_view(), old(self).fat(), v.start_cluster as int) && has_chain(old(self).boot_view(), old(self).fat(), loc.dir_start.0 as int)
                && loc.dir_start.0 != 0 && loc.dir_start.0 != crate::fs::ROOT_DIR_START && crate::tree::chain_apart_from(
                old(self).boot_view(),
                old(self).fat(),
                loc.dir_start.0 as int,
                v.start_cluster as int,
            ) && crate::tree::search_clear(
                old(self).boot_view(),
                old(self).disk(),
                old(self).fat(),
                loc.dir_start.0 as int,
                crate::tree::chain_clusters(old(self).boot_view(), old(self).fat(), loc.dir_start.0 as int).union(
                    crate::tree::chain_clusters(old(self).boot_view(), old(self).fat(), v.start_cluster as int),
                ),
            ) ==> r is Ok || r->Err_0 is InvalidConfig),
            entry_at(old(self).boot_view(), old(self).disk(), old(self).fat(), loc) matches Some(v) ==> (r is Ok && has_chain(
                old(self).boot_view(),
                old(self).fat(),
                v.start_cluster as int,
            ) && ((loc.dir_start.0 == crate::fs::ROOT_DIR_START && chains_apart(
                old(self).boot_view(),
                old(self).fat(),
                loc.dir_start.0 as int,
                loc.entry_index as int,
                v.start_cluster as int,
            )) || (has_chain(old(self).boot_view(), old(self).fat(), loc.dir_start.0 as int) && loc.dir_start.0 != 0
                && crate::tree::chain_apart_from(old(self).boot_view(), old(self).fat(), loc.dir_start.0 as int, v.start_cluster as int)
                && crate::tree::search_clear(
                old(self).boot_view(),
                old(self).disk(),
                old(self).fat(),
                loc.dir_start.0 as int,
                crate::tree::chain_clusters(old(self).boot_view(), old(self).fat(), loc.dir_start.0 as int).union(
                    crate::tree::chain_clusters(old(self).boot_view(), old(self).fat(), v.start_cluster as int),
                ),
            ))) ==> forall|k: int|
                0 <= k < chain_len(old(self).boot_view(), old(self).fat(), v.start_cluster as int) ==> crate::layout::cluster_bytes(
                    old(self).boot_view(),
                    final(self).disk(),
                    #[trigger] nth(old(self).fat(), v.start_cluster as int, k as nat),
                ) == crate::myfs::zeros(crate::layout::cluster_size(old(self).boot_view()))),
            entry_at(old(self).boot_view(), old(self).disk(), old(self).fat(), loc) matches Some(v) ==> (r is Ok && chains_apart(old(self).boot_view(), old(self).fat(), loc.dir_start.0 as int, loc.entry_index as int, v.start_cluster as int)
                ==> dir_slot(old(self).boot_view(), final(self).disk(), final(self).fat(), loc.dir_start.0 as int, loc.entry_index as int)
                is Deleted),
    {
        let ghost b = self.boot_view();
        let ghost f0 = self.fat();
        let ghost dir = loc.dir_start.0 as int;
        let ghost i = loc.entry_index as int;
        let ghost d0x = self.disk();
        let fcb = self.read_fcb_at(loc)?;
        match fcb.kind()? {
            NodeKind::Directory => {
                return Err(FsError::IsADirectory(fcb.short_name()));
            },
            NodeKind::File => {},
        }
        if self.find_open_handle(loc).is_some() {
            return Err(FsError::FileOpen(loc));
        }
        let ghost s0 = fcb.start_cluster.0 as int;
        let ghost apart = has_chain(b, f0, dir) && dir != 0 && crate::tree::chain_apart_from(b, f0, dir, s0) && slot_readable(b, f0, dir, i);
        proof {
            if apart {
                self.lemma_wf();
                crate::lookup::lemma_readable_slot_counted(b, f0, dir, i);
                crate::dir::lemma_slot_pos(b, i);
                let e = entries_per_cluster(b);
                let n = chain_len(b, f0, dir);
                assert(i / e < n) by (nonlinear_arith)
                    requires
                        0 <= i < n * e,
                        e > 0,
                ;
                assert forall|k: int| 0 <= k <= i / e implies !#[trigger] crate::layout::follow(f0, s0, chain_len(b, f0, s0)).contains(
                    nth(f0, dir, k as nat),
                ) by {
                    let x = nth(f0, dir, k as nat);
                    assert(!crate::tree::chain_clusters(b, f0, s0).contains(x));
                    if crate::layout::follow(f0, s0, chain_len(b, f0, s0)).contains(x) {
                        let t = choose|t: int| 0 <= t < chain_len(b, f0, s0) && #[trigger] crate::layout::follow(f0, s0, chain_len(b, f0, s0))[t] == x;
                        assert(nth(f0, s0, t as nat) == x);
                    }
                }
                assert(chains_apart(b, f0, dir, i, s0));
            }
        }
        self.free_chain_from(fcb.start_cluster)?;
        let ghost f1 = self.fat();
        let ghost m: nat = choose|m: nat|
            #![trigger freed(f0, s0, m)]
            crate::layout::iter_ok(b, f0, s0, m) && f1 == freed(f0, s0, m) && (s0 == 0 ==> m == 0) && (s0 != 0
                ==> crate::layout::chain_ends(b, f0, s0, m));
        proof {
            self.lemma_wf();
            if s0 != 0 && chains_apart(b, f0, dir, i, s0) {
                crate::layout::lemma_chain_ends_unique(b, f0, s0, m, chain_len(b, f0, s0));
            }
            if chains_apart(b, f0, dir, i, s0) {
                let n: nat = (i / entries_per_cluster(b) + 1) as nat;
                crate::dir::lemma_slot_pos(b, i);
                assert forall|k: int| 0 <= k < n && 0 <= #[trigger] nth(f0, dir, k as nat) < f0.len() implies f1[nth(
                    f0,
                    dir,
                    k as nat,
                )] == f0[nth(f0, dir, k as nat)] by {
                    assert(!crate::layout::follow(f0, s0, chain_len(b, f0, s0)).contains(nth(f0, dir, k as nat)));
                }
                crate::layout::lemma_chain_stable(b, f0, f1, dir, n);
            }
        }
        let ghost d1 = self.disk();
        let ghost sall = crate::tree::chain_clusters(b, f0, dir).union(crate::tree::chain_clusters(b, f0, s0));
        let ghost clear = has_chain(b, f0, s0) && has_chain(b, f0, dir) && dir != 0 && dir
            != crate::fs::ROOT_DIR_START as int && crate::tree::chain_apart_from(b, f0, dir, s0) && crate::tree::search_clear(
            b,
            d0x,
            f0,
            dir,
            sall,
        ) && slot_readable(b, f0, dir, i);
        proof {
            if clear {
                self.lemma_wf();
                if s0 != 0 {
                    crate::layout::lemma_chain_ends_unique(b, f0, s0, m, chain_len(b, f0, s0));
                }
                lemma_kept_after_free(b, d0x, f0, d1, f1, s0, m, sall);
                lemma_kept_after_free(b, d0x, f0, d1, f1, s0, m, crate::tree::chain_clusters(b, f0, s0));
                lemma_dir_kept(b, d0x, f0, d1, f1, dir, crate::tree::chain_clusters(b, f0, s0));
                crate::tree::lemma_search_kept(
                    b,
                    d0x,
                    f0,
                    d1,
                    f1,
                    crate::fs::ROOT_DIR_START as int,
                    dir,
                    crate::layout::data_clusters(b) as nat,
                    sall,
                    sall,
                );
                crate::lookup::lemma_readable_slot_counted(b, f0, dir, i);
                crate::dir::lemma_slot_pos(b, i);
                let e = entries_per_cluster(b);
                let n = chain_len(b, f0, dir);
                assert(i / e < n) by (nonlinear_arith)
                    requires
                        0 <= i < n * e,
                        e > 0,
                ;
                assert(crate::layout::chain_ends(b, f1, dir, n));
                crate::layout::lemma_chain_ok_prefix(b, f1, dir, n, (i / e + 1) as nat);
            }
        }
        self.delete_dir_slot(loc)?;
        let ghost d2 = self.disk();
        proof {
            if clear {
                self.lemma_wf();
                let e = entries_per_cluster(b);
                let c = slot_cluster(b, f1, dir, i);
                assert(c == nth(f0, dir, (i / e) as nat));
                assert(crate::tree::chain_clusters(b, f0, dir).contains(c));
                assert(in_data(b, c));
                assert(crate::myfs::only_cluster_changed(b, d1, d2, c));
                assert forall|x: int|
                    in_data(b, x) && !(f1[x] is Free) && !sall.contains(x) implies #[trigger] crate::layout::cluster_bytes(b, d2, x)
                        == crate::layout::cluster_bytes(b, d1, x) by {
                    crate::myfs::lemma_cluster_unchanged(b, d1, d2, c, x);
                }
                assert(crate::tree::kept_outside(b, d1, f1, d2, f1, sall));
                crate::tree::lemma_search_kept(
                    b,
                    d1,
                    f1,
                    d2,
                    f1,
                    crate::fs::ROOT_DIR_START as int,
                    dir,
                    crate::layout::data_clusters(b) as nat,
                    sall,
                    sall,
                );
            }
        }
        proof {
            if chains_apart(b, f0, dir, i, s0) {
                crate::dir::lemma_slot_pos(b, i);
                let kk: int = i / entries_per_cluster(b);
                assert(in_data(b, nth(f1, dir, kk as nat)));
                assert(slot_bytes(b, d2, f1, dir, i) == crate::dir::deleted_slot_bytes());
                assert(dir_slot(b, d2, f1, dir, i) is Deleted);
            }
        }
        self.refresh_dir_size(loc.dir_start)?;
        proof {
            if chains_apart(b, f0, dir, i, s0) {
                assert(crate::tree::kept_or_restamped(b, d2, self.disk(), f1, dir, dir, i));
            }
            assert(self.fat() == freed(f0, s0, m));
            assert(entry_at(b, d0x, f0, loc) == Some(fcb@));
            assert(fcb@.start_cluster == s0);
            assert(kind_of_attr(fcb@.attr) == Some(NodeKind::File));
            assert((s0 == 0 && m == 0) || crate::layout::chain_ends(b, f0, s0, m));
        }
        proof {
            let d3 = self.disk();
            if has_chain(b, f0, s0) && ((dir == crate::fs::ROOT_DIR_START as int && chains_apart(b, f0, dir, i, s0)) || (apart
                && crate::tree::search_clear(b, d0x, f0, dir, sall))) {
                self.lemma_wf();
                crate::dir::lemma_slot_pos(b, i);
                let e = entries_per_cluster(b);
                let c = slot_cluster(b, f1, dir, i);
                assert(c == nth(f0, dir, (i / e) as nat));
                assert(in_data(b, c));
                assert(crate::myfs::only_cluster_changed(b, d1, d2, c));
                assert forall|k: int| 0 <= k < chain_len(b, f0, s0) implies crate::layout::cluster_bytes(b, d3, #[trigger] nth(f0, s0, k as nat))
                    == crate::myfs::zeros(crate::layout::cluster_size(b)) by {
                    let x = nth(f0, s0, k as nat);
                    if s0 != 0 {
                        assert(crate::layout::chain_ends(b, f0, s0, chain_len(b, f0, s0)));
                    }
                    assert(in_data(b, x));
                    assert(crate::layout::follow(f0, s0, chain_len(b, f0, s0))[k] == x);
                    assert(x != c);
                    crate::myfs::lemma_cluster_unchanged(b, d1, d2, c, x);
                    assert(crate::layout::cluster_bytes(b, d2, x) == crate::myfs::zeros(crate::layout::cluster_size(b)));
                    if dir != crate::fs::ROOT_DIR_START as int {
                        assert(crate::tree::search_clear(b, d2, f1, dir, sall));
                        assert(sall.contains(x));
                    }
                }
            }
        }
        Ok(())
    }

    /// Does the directory at `dir_start` hold any entry? Its slots are read in order until an
    /// occupied one is found.
    fn dir_has_entries(&self, dir_start: ClusterId) -> (r: Result<bool, FsError>)
        requires
            self.wf(),
        ensures
            r == Ok::<bool, FsError>(false) ==> dir_empty(self.boot_view(), self.disk(), self.fat(), dir_start.0 as int) && has_chain(
                self.boot_view(),
                self.fat(),
                dir_start.0 as int,
            ),
            r == Ok::<bool, FsError>(true) ==> exists|j: int|
                slot_readable(self.boot_view(), self.fat(), dir_start.0 as int, j) && #[trigger] dir_slot(
                    self.boot_view(),
                    self.disk(),
                    self.fat(),
                    dir_start.0 as int,
                    j,
                ) is Occupied,
            r is Err ==> !self.reliable() || (r->Err_0 is CorruptFs && !has_chain(self.boot_view(), self.fat(), dir_start.0 as int)),
            self.reliable() && has_chain(self.boot_view(), self.fat(), dir_start.0 as int) ==> r is Ok,
    {
        let ghost b = self.boot_view();
        let ghost dir = dir_start.0 as int;
        let mut it = DirSlotIter::new(self, dir_start)?;
        loop
            invariant
                self.wf(),
                b == self.boot_view(),
                dir == dir_start.0,
                it.inv(),
                it.fs_view() == self,
                it.dir_view() == dir,
                !it.has_failed(),
                forall|j: int| 0 <= j < it.count() ==> !(#[trigger] dir_slot(b, self.disk(), self.fat(), dir, j) is Occupied),
            decreases 0x1_0000_0000 - it.count(),
        {
            proof {
                it.lemma_count_bound();
            }
            match it.next() {
                None => {
                    return Ok(false);
                },
                Some(Err(e)) => {
                    return Err(e);
                },
                Some(Ok((loc, slot))) => {
                    proof {
                        it.lemma_count_bound();
                    }
                    match slot {
                        DirSlot::Occupied(_) => {
                            proof {
                                assert(dir_slot(b, self.disk(), self.fat(), dir, loc.entry_index as int) is Occupied);
                            }
                            return Ok(true);
                        },
                        _ => {},
                    }
                },
            }
        }
    }

    /// Removes the empty directory whose entry is at `loc`: its clusters are freed and its slot
    /// is marked deleted. A file, or a directory that still holds entries, is refused.
    pub fn rmdir(&mut self, loc: DirEntryLoc) -> (r: Result<(), FsError>)
        requires
            old(self).wf(),
        ensures
            crate::myfs::meta_kept(old(self).boot_view(), old(self).disk(), final(self).disk()),
            final(self).wf(),
            final(self).boot_view() == old(self).boot_view(),
            final(self).reliable() == old(self).reliable(),
            final(self).handles() == old(self).handles(),
            final(self).next_handle_value() == old(self).next_handle_value(),
            !slot_readable(old(self).boot_view(), old(self).fat(), loc.dir_start.0 as int, loc.entry_index as int) ==> r is Err
                && unchanged(*old(self), *final(self)) && (old(self).reliable() ==> r->Err_0 is CorruptFs),
            old(self).reliable() && slot_readable(old(self).boot_view(), old(self).fat(), loc.dir_start.0 as int, loc.entry_index as int)
                && !(dir_slot(old(self).boot_view(), old(self).disk(), old(self).fat(), loc.dir_start.0 as int, loc.entry_index as int) is Occupied)
                ==> r == Err::<(), FsError>(FsError::NotFoundAt(loc)) && unchanged(*old(self), *final(self)),
            entry_at(old(self).boot_view(), old(self).disk(), old(self).fat(), loc) matches Some(v) ==> (old(self).reliable() && kind_of_attr(
                v.attr,
            ) is None ==> r is Err && r->Err_0 is CorruptFs && unchanged(*old(self), *final(self))),
            entry_at(old(self).boot_view(), old(self).disk(), old(self).fat(), loc) matches Some(v) ==> (old(self).reliable() && kind_of_attr(
                v.attr,
            ) == Some(NodeKind::File) ==> (r matches Err(FsError::NotADirectory(s)) && s@ == fcb_name(v)) && unchanged(*old(self), *final(self))),
            entry_at(old(self).boot_view(), old(self).disk(), old(self).fat(), loc) matches Some(v) ==> (old(self).reliable() && kind_of_attr(
                v.attr,
            ) == Some(NodeKind::Directory) && !has_chain(old(self).boot_view(), old(self).fat(), v.start_cluster as int) ==> r is Err
                && (r->Err_0 is CorruptFs || r->Err_0 is DirectoryNotEmpty) && unchanged(*old(self), *final(self))),
            entry_at(old(self).boot_view(), old(self).disk(), old(self).fat(), loc) matches Some(v) ==> (old(self).reliable() && kind_of_attr(
                v.attr,
            ) == Some(NodeKind::Directory) && has_chain(old(self).boot_view(), old(self).fat(), v.start_cluster as int) && !dir_empty(
                old(self).boot_view(),
                old(self).disk(),
                old(self).fat(),
                v.start_cluster as int,
            ) ==> (r matches Err(FsError::DirectoryNotEmpty(s)) && s@ == fcb_name(v)) && unchanged(*old(self), *final(self))),
            entry_at(old(self).boot_view(), old(self).disk(), old(self).fat(), loc) matches Some(v) ==> (r is Ok ==> kind_of_attr(v.attr)
                == Some(NodeKind::Directory) && has_chain(old(self).boot_view(), old(self).fat(), v.start_cluster as int) && dir_empty(
                old(self).boot_view(),
                old(self).disk(),
                old(self).fat(),
                v.start_cluster as int,
            ) && final(self).fat() == freed(
                old(self).fat(),
                v.start_cluster as int,
                chain_len(old(self).boot_view(), old(self).fat(), v.start_cluster as int),
            )),
            entry_at(old(self).boot_view(), old(self).disk(), old(self).fat(), loc) matches Some(v) ==> (old(self).reliable() && kind_of_attr(
                v.attr,
            ) == Some(NodeKind::Directory) && has_chain(old(self).boot_view(), old(self).fat(), v.start_cluster as int) && dir_empty(
                old(self).boot_view(),
                old(self).disk(),
                old(self).fat(),
                v.start_cluster as int,
            ) && chains_apart(old(self).boot_view(), old(self).fat(), loc.dir_start.0 as int, loc.entry_index as int, v.start_cluster as int)
                ==> (r is Ok || r->Err_0 is CorruptFs || r->Err_0 is InvalidConfig) && (loc.dir_start.0 == crate::fs::ROOT_DIR_START ==> r is Ok)),
            entry_at(old(self).boot_view(), old(self).disk(), old(self).fat(), loc) matches Some(v) ==> (old(self).reliable() && kind_of_attr(
                v.attr,
            ) == Some(NodeKind::Directory) && has_chain(old(self).boot_view(), old(self).fat(), v.start_cluster as int) && dir_empty(
                old(self).boot_view(),
                old(self).disk(),
                old(self).fat(),
                v.start_cluster as int,
            ) && has_chain(old(self).boot_view(), old(self).fat(), loc.dir_start.0 as int) && loc.dir_start.0 != 0 && loc.dir_start.0
                != crate::fs::ROOT_DIR_START && crate::tree::chain_apart_from(
                old(self).boot_view(),
                old(self).fat(),
                loc.dir_start.0 as int,
                v.start_cluster as int,
            ) && crate::tree::search_clear(
                old(self).boot_view(),
                old(self).disk(),
                old(self).fat(),
                loc.dir_start.0 as int,
                crate::tree::chain_clusters(old(self).boot_view(), old(self).fat(), loc.dir_start.0 as int).union(
                    crate::tree::chain_clusters(old(self).boot_view(), old(self).fat(), v.start_cluster as int),
                ),
            ) ==> r is Ok || r->Err_0 is InvalidConfig),
            entry_at(old(self).boot_view(), old(self).disk(), old(self).fat(), loc) matches Some(v) ==> (r is Ok && chains_apart(
                old(self).boot_view(),
                old(self).fat(),
                loc.dir_start.0 as int,
                loc.entry_index as int,
                v.start_cluster as int,
            ) ==> dir_slot(old(self).boot_view(), final(self).disk(), final(self).fat(), loc.dir_start.0 as int, loc.entry_index as int)
                is Deleted),
    {
        let ghost b = self.boot_view();
        let ghost f0 = self.fat();
        let ghost d0 = self.disk();
        let ghost dir = loc.dir_start.0 as int;
        let ghost i = loc.entry_index as int;
        let fcb = self.read_fcb_at(loc)?;
        match fcb.kind()? {
            NodeKind::File => {
                return Err(FsError::NotADirectory(fcb.short_name()));
            },
            NodeKind::Directory => {},
        }
        if self.dir_has_entries(fcb.start_cluster)? {
            proof {
                let s1 = fcb.start_cluster.0 as int;
                if has_chain(b, f0, s1) {
                    let j = choose|j: int| slot_readable(b, f0, s1, j) && #[trigger] dir_slot(b, d0, f0, s1, j) is Occupied;
                    self.lemma_wf();
                    crate::lookup::lemma_readable_slot_counted(b, f0, s1, j);
                }
            }
            return Err(FsError::DirectoryNotEmpty(fcb.short_name()));
        }
        let ghost s0 = fcb.start_cluster.0 as int;
        proof {
            if !dir_empty(b, d0, f0, s0) {
                let j = choose|j: int| 0 <= j < dir_slot_count(b, f0, s0) && #[trigger] dir_slot(b, d0, f0, s0, j) is Occupied;
            }
        }
        self.free_chain_from(fcb.start_cluster)?;
        let ghost f1 = self.fat();
        let ghost m: nat = choose|m: nat|
            #![trigger freed(f0, s0, m)]
            crate::layout::iter_ok(b, f0, s0, m) && f1 == freed(f0, s0, m) && (s0 == 0 ==> m == 0) && (s0 != 0
                ==> crate::layout::chain_ends(b, f0, s0, m));
        proof {
            self.lemma_wf();
            if s0 != 0 {
                crate::layout::lemma_chain_ends_unique(b, f0, s0, m, chain_len(b, f0, s0));
            }
            if chains_apart(b, f0, dir, i, s0) {
                let n: nat = (i / entries_per_cluster(b) + 1) as nat;
                crate::dir::lemma_slot_pos(b, i);
                assert forall|k: int| 0 <= k < n && 0 <= #[trigger] nth(f0, dir, k as nat) < f0.len() implies f1[nth(
                    f0,
                    dir,
                    k as nat,
                )] == f0[nth(f0, dir, k as nat)] by {
                    assert(!crate::layout::follow(f0, s0, chain_len(b, f0, s0)).contains(nth(f0, dir, k as nat)));
                }
                crate::layout::lemma_chain_stable(b, f0, f1, dir, n);
            }
        }
        let ghost d1 = self.disk();
        let ghost sall = crate::tree::chain_clusters(b, f0, dir).union(crate::tree::chain_clusters(b, f0, s0));
        let ghost clear = old(self).reliable() && has_chain(b, f0, s0) && has_chain(b, f0, dir) && dir != 0 && dir
            != crate::fs::ROOT_DIR_START as int && crate::tree::chain_apart_from(b, f0, dir, s0) && crate::tree::search_clear(
            b,
            d0,
            f0,
            dir,
            sall,
        ) && slot_readable(b, f0, dir, i);
        proof {
            if clear {
                self.lemma_wf();
                lemma_kept_after_free(b, d0, f0, d1, f1, s0, m, sall);
                lemma_kept_after_free(b, d0, f0, d1, f1, s0, m, crate::tree::chain_clusters(b, f0, s0));
                lemma_dir_kept(b, d0, f0, d1, f1, dir, crate::tree::chain_clusters(b, f0, s0));
                crate::tree::lemma_search_kept(
                    b,
                    d0,
                    f0,
                    d1,
                    f1,
                    crate::fs::ROOT_DIR_START as int,
                    dir,
                    crate::layout::data_clusters(b) as nat,
                    sall,
                    sall,
                );
                crate::lookup::lemma_readable_slot_counted(b, f0, dir, i);
                crate::dir::lemma_slot_pos(b, i);
                let e = entries_per_cluster(b);
                let n = chain_len(b, f0, dir);
                assert(i / e < n) by (nonlinear_arith)
                    requires
                        0 <= i < n * e,
                        e > 0,
                ;
                assert(crate::layout::chain_ends(b, f1, dir, n));
                crate::layout::lemma_chain_ok_prefix(b, f1, dir, n, (i / e + 1) as nat);
            }
        }
        self.delete_dir_slot(loc)?;
        let ghost d2 = self.disk();
        proof {
            if clear {
                self.lemma_wf();
                let e = entries_per_cluster(b);
                let c = slot_cluster(b, f1, dir, i);
                assert(c == nth(f0, dir, (i / e) as nat));
                assert(crate::tree::chain_clusters(b, f0, dir).contains(c));
                assert(in_data(b, c));
                assert(crate::myfs::only_cluster_changed(b, d1, d2, c));
                assert forall|x: int|
                    in_data(b, x) && !(f1[x] is Free) && !sall.contains(x) implies #[trigger] crate::layout::cluster_bytes(b, d2, x)
                        == crate::layout::cluster_bytes(b, d1, x) by {
                    crate::myfs::lemma_cluster_unchanged(b, d1, d2, c, x);
                }
                assert(crate::tree::kept_outside(b, d1, f1, d2, f1, sall));
                crate::tree::lemma_search_kept(
                    b,
                    d1,
                    f1,
                    d2,
                    f1,
                    crate::fs::ROOT_DIR_START as int,
                    dir,
                    crate::layout::data_clusters(b) as nat,
                    sall,
                    sall,
                );
            }
        }
        proof {
            if chains_apart(b, f0, dir, i, s0) {
                crate::dir::lemma_slot_pos(b, i);
                let kk: int = i / entries_per_cluster(b);
                assert(in_data(b, nth(f1, dir, kk as nat)));
                assert(slot_bytes(b, d2, f1, dir, i) == crate::dir::deleted_slot_bytes());
                assert(dir_slot(b, d2, f1, dir, i) is Deleted);
            }
        }
        self.refresh_dir_size(loc.dir_start)?;
        proof {
            if chains_apart(b, f0, dir, i, s0) {
                assert(crate::tree::kept_or_restamped(b, d2, self.disk(), f1, dir, dir, i));
            }
            assert(self.fat() == freed(f0, s0, m));
            assert(entry_at(b, d0, f0, loc) == Some(fcb@));
            assert(fcb@.start_cluster == s0);
            assert(kind_of_attr(fcb@.attr) == Some(NodeKind::Directory));
        }
        Ok(())
    }
}

} // verus!
