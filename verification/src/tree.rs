//! The directory tree: finding a directory's own entry, and keeping directory sizes current.

use vstd::prelude::*;

use crate::dev::BufferedBlockDevice;
use crate::dir::dir_slot;
use crate::error::DirEntryLoc;
use crate::error::FsError;
use crate::fs::fcb_bytes;
use crate::fs::kind_of_attr;
use crate::fs::lemma_fcb_round_trip;
use crate::fs::ClusterId;
use crate::fs::NodeKind;
use crate::fs::ROOT_DIR_START;
use crate::layout::data_clusters;
use crate::layout::data_start;
use crate::layout::in_data;
use crate::layout::slot_bytes;
use crate::layout::slot_cluster;
use crate::layout::has_chain;
use crate::layout::slot_readable;
use crate::layout::chain_len;
use crate::layout::chain_ends;
use crate::layout::cluster_bytes;
use crate::layout::entries_per_cluster;
use crate::layout::geo_wf;
use crate::layout::lemma_chain_ends_unique;
use crate::layout::lemma_chain_stable;
use crate::layout::max_cluster;
use crate::layout::nth;
use crate::lookup::dir_slot_count;
use crate::myfs::MyFileSystem;
use crate::name::slot_of_bytes;
use crate::name::DirSlot;
use crate::name::SlotView;
use crate::slots::DirSlotIter;

verus! {

broadcast use crate::myfs::lemma_meta_block_not_in_cluster;

/// Slot `(dir, j)` keeps its bytes, or it held the entry of the directory at `target` and now
/// holds that entry with only its size and stamps changed.
pub open spec fn kept_or_restamped(
    b: crate::fs::BootSector,
    d0: Seq<Seq<u8>>,
    d1: Seq<Seq<u8>>,
    fat: Seq<crate::fat::FatEntry>,
    target: int,
    dir: int,
    j: int,
) -> bool {
    ||| slot_bytes(b, d1, fat, dir, j) == slot_bytes(b, d0, fat, dir, j)
    ||| {
        &&& dir_slot(b, d0, fat, dir, j) matches SlotView::Occupied(v)
        &&& kind_of_attr(v.attr) == Some(NodeKind::Directory)
        &&& v.start_cluster == target
        &&& dir_slot(b, d1, fat, dir, j) matches SlotView::Occupied(v2)
        &&& v2.base == v.base && v2.ext == v.ext && v2.attr == v.attr && v2.start_cluster == v.start_cluster
    }
}

/// Does the search below the directory at `dir`, `depth` levels deep, meet an entry of the
/// directory whose chain starts at `target`? It looks at the directory entries of `dir`, and
/// below each of them one level less deep.
pub open spec fn dir_entry_below(b: crate::fs::BootSector, disk: Seq<Seq<u8>>, fat: Seq<crate::fat::FatEntry>, dir: int, target: int, depth: nat) -> bool
    decreases depth,
{
    exists|j: int|
        #![trigger dir_slot(b, disk, fat, dir, j)]
        0 <= j < dir_slot_count(b, fat, dir) && (dir_slot(b, disk, fat, dir, j) matches SlotView::Occupied(v) && kind_of_attr(v.attr) == Some(
            NodeKind::Directory,
        ) && (v.start_cluster == target || (depth > 0 && dir_entry_below(b, disk, fat, v.start_cluster as int, target, (depth - 1) as nat))))
}

/// Can that search read everything it meets? The directory at `dir` has a proper chain, every
/// entry in it has a known kind, and below each directory entry other than `target` the search
/// can go on one level less deep.
pub open spec fn dir_search_ok(b: crate::fs::BootSector, disk: Seq<Seq<u8>>, fat: Seq<crate::fat::FatEntry>, dir: int, target: int, depth: nat) -> bool
    decreases depth,
{
    has_chain(b, fat, dir) && forall|j: int|
        0 <= j < dir_slot_count(b, fat, dir) ==> (#[trigger] dir_slot(b, disk, fat, dir, j) matches SlotView::Occupied(v) ==> kind_of_attr(
            v.attr,
        ) is Some && (kind_of_attr(v.attr) == Some(NodeKind::Directory) && v.start_cluster != target ==> depth > 0 && dir_search_ok(
            b,
            disk,
            fat,
            v.start_cluster as int,
            target,
            (depth - 1) as nat,
        )))
}

/// Do the directories that the search below `dir` for `target` walks through, `depth` levels
/// deep, keep clear of the clusters in `s`? Their chains hold none of them.
pub open spec fn search_avoids(
    b: crate::fs::BootSector,
    disk: Seq<Seq<u8>>,
    fat: Seq<crate::fat::FatEntry>,
    dir: int,
    target: int,
    depth: nat,
    s: Set<int>,
) -> bool
    decreases depth,
{
    &&& forall|k: int| 0 <= k < chain_len(b, fat, dir) ==> !s.contains(#[trigger] nth(fat, dir, k as nat))
    &&& forall|j: int|
        0 <= j < dir_slot_count(b, fat, dir) ==> (#[trigger] dir_slot(b, disk, fat, dir, j) matches SlotView::Occupied(v) ==> (
        kind_of_attr(v.attr) == Some(NodeKind::Directory) && v.start_cluster != target && depth > 0 ==> search_avoids(
            b,
            disk,
            fat,
            v.start_cluster as int,
            target,
            (depth - 1) as nat,
            s,
        )))
}

/// The clusters of the chain from `dir`.
pub open spec fn chain_clusters(b: crate::fs::BootSector, fat: Seq<crate::fat::FatEntry>, dir: int) -> Set<int> {
    Set::new(|x: int| exists|k: int| 0 <= k < chain_len(b, fat, dir) && #[trigger] nth(fat, dir, k as nat) == x)
}

/// Going from `(d0, f0)` to `(d1, f1)`, every data cluster that was in use and lies outside `s`
/// keeps its FAT entry and its bytes.
pub open spec fn kept_outside(
    b: crate::fs::BootSector,
    d0: Seq<Seq<u8>>,
    f0: Seq<crate::fat::FatEntry>,
    d1: Seq<Seq<u8>>,
    f1: Seq<crate::fat::FatEntry>,
    s: Set<int>,
) -> bool {
    &&& f1.len() == f0.len()
    &&& forall|x: int|
        #![trigger f1[x]]
        #![trigger cluster_bytes(b, d1, x)]
        in_data(b, x) && !(f0[x] is Free) && !s.contains(x) ==> f1[x] == f0[x] && cluster_bytes(b, d1, x) == cluster_bytes(b, d0, x)
}

/// A proper chain whose clusters keep their FAT entries stays the same chain.
pub proof fn lemma_chain_kept(b: crate::fs::BootSector, f0: Seq<crate::fat::FatEntry>, f1: Seq<crate::fat::FatEntry>, dir: int)
    requires
        geo_wf(b),
        max_cluster(b) < f0.len(),
        f1.len() == f0.len(),
        has_chain(b, f0, dir),
        forall|k: int| 0 <= k < chain_len(b, f0, dir) ==> #[trigger] f1[nth(f0, dir, k as nat)] == f0[nth(f0, dir, k as nat)],
    ensures
        has_chain(b, f1, dir),
        chain_len(b, f1, dir) == chain_len(b, f0, dir),
        forall|k: int| 0 <= k <= chain_len(b, f0, dir) ==> #[trigger] nth(f1, dir, k as nat) == nth(f0, dir, k as nat),
        dir != 0 ==> chain_ends(b, f0, dir, chain_len(b, f0, dir)),
{
    if dir != 0 {
        let n = chain_len(b, f0, dir);
        assert(chain_ends(b, f0, dir, n));
        lemma_chain_stable(b, f0, f1, dir, n);
        assert(chain_ends(b, f1, dir, n));
        lemma_chain_ends_unique(b, f1, dir, n, chain_len(b, f1, dir));
    }
}

/// The search stays possible when the clusters it walks through keep their entries and bytes,
/// and it keeps clear of any set whose clusters it avoided before or that were free.
pub proof fn lemma_search_kept(
    b: crate::fs::BootSector,
    d0: Seq<Seq<u8>>,
    f0: Seq<crate::fat::FatEntry>,
    d1: Seq<Seq<u8>>,
    f1: Seq<crate::fat::FatEntry>,
    dir: int,
    target: int,
    depth: nat,
    s: Set<int>,
    s2: Set<int>,
)
    requires
        geo_wf(b),
        max_cluster(b) < f0.len(),
        dir_search_ok(b, d0, f0, dir, target, depth),
        search_avoids(b, d0, f0, dir, target, depth, s),
        kept_outside(b, d0, f0, d1, f1, s),
        forall|x: int| #[trigger] s2.contains(x) ==> s.contains(x) || (0 <= x < f0.len() && f0[x] is Free),
    ensures
        dir_search_ok(b, d1, f1, dir, target, depth),
        search_avoids(b, d1, f1, dir, target, depth, s2),
    decreases depth,
{
    if dir != 0 {
        let n = chain_len(b, f0, dir);
        assert(chain_ends(b, f0, dir, n));
        assert forall|k: int| 0 <= k < n implies #[trigger] f1[nth(f0, dir, k as nat)] == f0[nth(f0, dir, k as nat)] by {
            let x = nth(f0, dir, k as nat);
            assert(in_data(b, x));
            if k < n - 1 {
                assert(f0[x] is Next);
            }
            assert(!s.contains(x));
        }
        lemma_chain_kept(b, f0, f1, dir);
        let e = entries_per_cluster(b);
        assert forall|j: int| 0 <= j < dir_slot_count(b, f1, dir) implies #[trigger] slot_bytes(b, d1, f1, dir, j) == slot_bytes(b, d0, f0, dir, j) by {
            crate::dir::lemma_slot_pos(b, j);
            assert(j / e < n) by (nonlinear_arith)
                requires
                    0 <= j < n * e,
                    e > 0,
            ;
            let x = nth(f0, dir, (j / e) as nat);
            assert(slot_cluster(b, f1, dir, j) == x);
            assert(in_data(b, x));
            if j / e < n - 1 {
                assert(f0[x] is Next);
            }
            assert(!s.contains(x));
            assert(cluster_bytes(b, d1, x) == cluster_bytes(b, d0, x));
        }
        assert forall|k: int| 0 <= k < chain_len(b, f1, dir) implies !s2.contains(#[trigger] nth(f1, dir, k as nat)) by {
            let x = nth(f0, dir, k as nat);
            assert(nth(f1, dir, k as nat) == x);
            assert(in_data(b, x));
            if k < n - 1 {
                assert(f0[x] is Next);
            }
            assert(!s.contains(x));
        }
        assert forall|j: int| 0 <= j < dir_slot_count(b, f1, dir) implies (#[trigger] dir_slot(b, d1, f1, dir, j) matches SlotView::Occupied(v)
            ==> kind_of_attr(v.attr) is Some && (kind_of_attr(v.attr) == Some(NodeKind::Directory) && v.start_cluster != target ==> depth > 0
            && dir_search_ok(b, d1, f1, v.start_cluster as int, target, (depth - 1) as nat))) && (dir_slot(b, d1, f1, dir, j) matches SlotView::Occupied(v) ==> (
            kind_of_attr(v.attr) == Some(NodeKind::Directory) && v.start_cluster != target && depth > 0 ==> search_avoids(
                b,
                d1,
                f1,
                v.start_cluster as int,
                target,
                (depth - 1) as nat,
                s2,
            ))) by {
            assert(slot_bytes(b, d1, f1, dir, j) == slot_bytes(b, d0, f0, dir, j));
            assert(dir_slot(b, d1, f1, dir, j) == dir_slot(b, d0, f0, dir, j));
            if let SlotView::Occupied(v) = dir_slot(b, d0, f0, dir, j) {
                if kind_of_attr(v.attr) == Some(NodeKind::Directory) && v.start_cluster != target {
                    lemma_search_kept(b, d0, f0, d1, f1, v.start_cluster as int, target, (depth - 1) as nat, s, s2);
                }
            }
        }
    }
}

/// Does the chain from `a` share no cluster with the chain from `c`?
pub open spec fn chain_apart_from(b: crate::fs::BootSector, fat: Seq<crate::fat::FatEntry>, a: int, c: int) -> bool {
    forall|k: int| 0 <= k < chain_len(b, fat, a) ==> !chain_clusters(b, fat, c).contains(#[trigger] nth(fat, a, k as nat))
}

/// Can the search from the root for the entry of the directory at `dir` read everything it meets,
/// and do the directories it walks through keep clear of the clusters in `s`?
pub open spec fn search_clear(
    b: crate::fs::BootSector,
    disk: Seq<Seq<u8>>,
    fat: Seq<crate::fat::FatEntry>,
    dir: int,
    s: Set<int>,
) -> bool {
    &&& dir_search_ok(b, disk, fat, ROOT_DIR_START as int, dir, data_clusters(b) as nat)
    &&& search_avoids(b, disk, fat, ROOT_DIR_START as int, dir, data_clusters(b) as nat, s)
}

/// Slot `j` of `dir` holds no directory entry for `target`, and none below which the search finds
/// one.
spec fn slot_passed(b: crate::fs::BootSector, disk: Seq<Seq<u8>>, fat: Seq<crate::fat::FatEntry>, dir: int, target: int, depth: nat, j: int) -> bool {
    dir_slot(b, disk, fat, dir, j) matches SlotView::Occupied(v) ==> (kind_of_attr(v.attr) == Some(NodeKind::Directory) ==> v.start_cluster
        != target && !(depth > 0 && dir_entry_below(b, disk, fat, v.start_cluster as int, target, (depth - 1) as nat)))
}

/// Going from disk `d0` to `d1`, the size of the directory at `dir` was recorded in its entry:
/// some slot that held an entry of that directory now holds it with the directory's size and
/// with valid stamps; or no entry of it lies in the tree below the root and nothing changed.
pub open spec fn size_recorded(b: crate::fs::BootSector, d0: Seq<Seq<u8>>, d1: Seq<Seq<u8>>, fat: Seq<crate::fat::FatEntry>, dir: int) -> bool {
    ||| exists|loc: DirEntryLoc|
        #![trigger dir_slot(b, d1, fat, loc.dir_start.0 as int, loc.entry_index as int)]
        slot_readable(b, fat, loc.dir_start.0 as int, loc.entry_index as int) && (dir_slot(
            b,
            d0,
            fat,
            loc.dir_start.0 as int,
            loc.entry_index as int,
        ) matches SlotView::Occupied(v) && kind_of_attr(v.attr) == Some(NodeKind::Directory) && v.start_cluster == dir && dir_slot(
            b,
            d1,
            fat,
            loc.dir_start.0 as int,
            loc.entry_index as int,
        ) == SlotView::Occupied(
            crate::fs::FcbView { size: crate::nodes::dir_size(b, d0, fat, dir) as u32, mtime: crate::fs::fcb_from_bytes(
                slot_bytes(b, d1, fat, loc.dir_start.0 as int, loc.entry_index as int),
            ).mtime, mdate: crate::fs::fcb_from_bytes(slot_bytes(b, d1, fat, loc.dir_start.0 as int, loc.entry_index as int)).mdate, ..v },
        ) && crate::clock::stamp_date(crate::fs::fcb_from_bytes(slot_bytes(b, d1, fat, loc.dir_start.0 as int, loc.entry_index as int)).mdate)
            && crate::clock::stamp_time(crate::fs::fcb_from_bytes(slot_bytes(b, d1, fat, loc.dir_start.0 as int, loc.entry_index as int)).mtime))
    ||| !dir_entry_below(b, d0, fat, ROOT_DIR_START as int, dir, data_clusters(b) as nat) && d1 == d0
}

impl<D: BufferedBlockDevice> MyFileSystem<D> {
    /// Searches the tree below the directory at `dir_start`, depth first, for the entry of the
    /// directory whose chain starts at `target`; `depth` bounds how deep the search descends.
    pub(crate) fn find_dir_loc(&self, dir_start: ClusterId, target: ClusterId, depth: usize) -> (r: Result<Option<DirEntryLoc>, FsError>)
        requires
            self.wf(),
        ensures
            r matches Ok(Some(loc)) ==> slot_readable(self.boot_view(), self.fat(), loc.dir_start.0 as int, loc.entry_index as int)
                && (dir_slot(self.boot_view(), self.disk(), self.fat(), loc.dir_start.0 as int, loc.entry_index as int) matches SlotView::Occupied(v)
                && kind_of_attr(v.attr) == Some(NodeKind::Directory) && v.start_cluster == target.0),
            r matches Ok(None) ==> !dir_entry_below(self.boot_view(), self.disk(), self.fat(), dir_start.0 as int, target.0 as int, depth as nat),
            self.reliable() && dir_search_ok(self.boot_view(), self.disk(), self.fat(), dir_start.0 as int, target.0 as int, depth as nat) ==> r is Ok,
            self.reliable() && r is Err ==> r->Err_0 is CorruptFs,
            r matches Ok(Some(loc)) ==> (dir_search_ok(self.boot_view(), self.disk(), self.fat(), dir_start.0 as int, target.0 as int, depth as nat)
                ==> forall|s: Set<int>|
                #[trigger] search_avoids(self.boot_view(), self.disk(), self.fat(), dir_start.0 as int, target.0 as int, depth as nat, s)
                    ==> !s.contains(slot_cluster(self.boot_view(), self.fat(), loc.dir_start.0 as int, loc.entry_index as int))),
        decreases depth,
    {
        let ghost b = self.boot_view();
        let ghost dir = dir_start.0 as int;
        let ghost t = target.0 as int;
        let ghost ok = self.reliable() && dir_search_ok(b, self.disk(), self.fat(), dir, t, depth as nat);
        proof {
            self.lemma_wf();
            if ok && dir != 0 {
                let n = crate::layout::chain_len(b, self.fat(), dir);
                assert(crate::layout::chain_ends(b, self.fat(), dir, n));
                assert(in_data(b, crate::layout::nth(self.fat(), dir, (0int) as nat)));
            }
        }
        let mut it = DirSlotIter::new(self, dir_start)?;
        loop
            invariant
                self.wf(),
                it.inv(),
                it.fs_view() == self,
                it.dir_view() == dir_start.0,
                !it.has_failed(),
                b == self.boot_view(),
                dir == dir_start.0,
                t == target.0,
                ok == (self.reliable() && dir_search_ok(b, self.disk(), self.fat(), dir, t, depth as nat)),
                forall|j: int|
                    0 <= j < it.count() ==> #[trigger] slot_passed(b, self.disk(), self.fat(), dir, t, depth as nat, j),
            decreases 0x1_0000_0000 - it.count(),
        {
            proof {
                it.lemma_count_bound();
            }
            let ghost c0 = it.count() as int;
            match it.next() {
                None => {
                    proof {
                        if dir_entry_below(b, self.disk(), self.fat(), dir, t, depth as nat) {
                            let j = choose|j: int|
                                #![trigger dir_slot(b, self.disk(), self.fat(), dir, j)]
                                0 <= j < dir_slot_count(b, self.fat(), dir) && (dir_slot(b, self.disk(), self.fat(), dir, j) matches SlotView::Occupied(v)
                                    && kind_of_attr(v.attr) == Some(NodeKind::Directory) && (v.start_cluster == t || (depth > 0 && dir_entry_below(
                                    b,
                                    self.disk(),
                                    self.fat(),
                                    v.start_cluster as int,
                                    t,
                                    (depth - 1) as nat,
                                ))));
                            assert(slot_passed(b, self.disk(), self.fat(), dir, t, depth as nat, j));
                        }
                    }
                    return Ok(None);
                },
                Some(Err(e)) => {
                    return Err(e);
                },
                Some(Ok((loc, slot))) => {
                    proof {
                        it.lemma_count_bound();
                        self.lemma_wf();
                        if ok {
                            crate::lookup::lemma_readable_slot_counted(b, self.fat(), dir, c0);
                            assert(dir_slot(b, self.disk(), self.fat(), dir, c0) == slot.view());
                        }
                    }
                    match slot {
                        DirSlot::Occupied(fcb) => {
                            let kind = match fcb.kind() {
                                Ok(k) => k,
                                Err(e) => {
                                    return Err(e);
                                },
                            };
                            if kind == NodeKind::Directory {
                                if fcb.start_cluster == target {
                                    proof {
                                        if dir_search_ok(b, self.disk(), self.fat(), dir, t, depth as nat) {
                                            self.lemma_wf();
                                            crate::lookup::lemma_readable_slot_counted(b, self.fat(), dir, c0);
                                            crate::dir::lemma_slot_pos(b, c0);
                                            let e = entries_per_cluster(b);
                                            let n = chain_len(b, self.fat(), dir);
                                            assert(c0 / e < n) by (nonlinear_arith)
                                                requires
                                                    0 <= c0 < n * e,
                                                    e > 0,
                                            ;
                                            assert(loc.dir_start.0 == dir && loc.entry_index == c0);
                                            assert forall|s: Set<int>|
                                                #[trigger] search_avoids(b, self.disk(), self.fat(), dir, t, depth as nat, s) implies !s.contains(
                                                slot_cluster(b, self.fat(), dir, c0)) by {
                                                assert(!s.contains(nth(self.fat(), dir, (c0 / e) as nat)));
                                            }
                                        }
                                    }
                                    return Ok(Some(loc));
                                }
                                if depth == 0 {
                                    return Err(FsError::CorruptFs(String::from_str("directory tree too deep")));
                                }
                                match self.find_dir_loc(fcb.start_cluster, target, depth - 1) {
                                    Ok(Some(found)) => {
                                        proof {
                                            if dir_search_ok(b, self.disk(), self.fat(), dir, t, depth as nat) {
                                                self.lemma_wf();
                                                crate::lookup::lemma_readable_slot_counted(b, self.fat(), dir, c0);
                                                let ch = fcb.start_cluster.0 as int;
                                                assert(dir_slot(b, self.disk(), self.fat(), dir, c0) matches SlotView::Occupied(v)
                                                    && v.start_cluster == ch && kind_of_attr(v.attr) == Some(NodeKind::Directory));
                                                assert(dir_search_ok(b, self.disk(), self.fat(), ch, t, (depth - 1) as nat));
                                                assert forall|s: Set<int>|
                                                    #[trigger] search_avoids(b, self.disk(), self.fat(), dir, t, depth as nat, s) implies !s.contains(
                                                    slot_cluster(b, self.fat(), found.dir_start.0 as int, found.entry_index as int)) by {
                                                    assert(search_avoids(b, self.disk(), self.fat(), ch, t, (depth - 1) as nat, s));
                                                }
                                            }
                                        }
                                        return Ok(Some(found));
                                    },
                                    Ok(None) => {},
                                    Err(e) => {
                                        return Err(e);
                                    },
                                }
                            }
                        },
                        _ => {},
                    }
                    proof {
                        assert forall|j: int| 0 <= j < it.count() implies #[trigger] slot_passed(
                            b,
                            self.disk(),
                            self.fat(),
                            dir,
                            t,
                            depth as nat,
                            j,
                        ) by {
                            if j == c0 {
                                assert(dir_slot(b, self.disk(), self.fat(), dir, c0) == slot.view());
                            }
                        }
                    }
                },
            }
        }
    }

    /// Records the current size of the directory at `dir_start` in its own entry, and stamps it.
    pub(crate) fn refresh_dir_size(&mut self, dir_start: ClusterId) -> (r: Result<(), FsError>)
        requires
            old(self).wf(),
        ensures
            crate::myfs::meta_kept(old(self).boot_view(), old(self).disk(), final(self).disk()),
            final(self).wf(),
            final(self).boot_view() == old(self).boot_view(),
            final(self).fat() == old(self).fat(),
            final(self).dirty() == old(self).dirty(),
            final(self).reliable() == old(self).reliable(),
            final(self).handles() == old(self).handles(),
            final(self).next_handle_value() == old(self).next_handle_value(),
            final(self).disk().len() == old(self).disk().len(),
            forall|j: int| 0 <= j < data_start(old(self).boot_view()) ==> #[trigger] final(self).disk()[j] == old(self).disk()[j],
            dir_start.0 == crate::fs::ROOT_DIR_START ==> r is Ok && final(self).disk() == old(self).disk(),
            old(self).reliable() && r is Err ==> r->Err_0 is CorruptFs || r->Err_0 is InvalidConfig,
            r is Ok ==> forall|dir2: int, j: int|
                j >= 0 && in_data(old(self).boot_view(), slot_cluster(old(self).boot_view(), old(self).fat(), dir2, j))
                    ==> #[trigger] kept_or_restamped(
                    old(self).boot_view(),
                    old(self).disk(),
                    final(self).disk(),
                    old(self).fat(),
                    dir_start.0 as int,
                    dir2,
                    j,
                ),
            r is Ok && dir_start.0 != crate::fs::ROOT_DIR_START ==> size_recorded(
                old(self).boot_view(),
                old(self).disk(),
                final(self).disk(),
                old(self).fat(),
                dir_start.0 as int,
            ),
            old(self).reliable() && has_chain(old(self).boot_view(), old(self).fat(), dir_start.0 as int) && dir_search_ok(
                old(self).boot_view(),
                old(self).disk(),
                old(self).fat(),
                crate::fs::ROOT_DIR_START as int,
                dir_start.0 as int,
                data_clusters(old(self).boot_view()) as nat,
            ) ==> r is Ok || r->Err_0 is InvalidConfig,
            forall|s: Set<int>|
                #[trigger] search_clear(old(self).boot_view(), old(self).disk(), old(self).fat(), dir_start.0 as int, s) ==> forall|x: int|
                    in_data(old(self).boot_view(), x) && s.contains(x) ==> #[trigger] cluster_bytes(old(self).boot_view(), final(self).disk(), x)
                        == cluster_bytes(old(self).boot_view(), old(self).disk(), x),
    {
        let ghost b = self.boot_view();
        let ghost fat = self.fat();
        let ghost d0 = self.disk();
        if dir_start.0 == crate::fs::ROOT_DIR_START {
            return Ok(());
        }
        let size = self.dir_size_of(dir_start)?;
        let depth = self.data_cluster_count() as usize;
        let found = self.find_dir_loc(crate::fs::root_dir_start_cluster(), dir_start, depth)?;
        match found {
            Some(loc) => {
                proof {
                    self.lemma_wf();
                    crate::dir::lemma_slot_pos(b, loc.entry_index as int);
                }
                let mut fcb = self.read_fcb_at(loc)?;
                let ghost v = fcb@;
                fcb.size = size;
                fcb.touch()?;
                proof {
                    self.lemma_wf();
                    crate::dir::lemma_slot_pos(b, loc.entry_index as int);
                    let kk: int = loc.entry_index as int / crate::layout::entries_per_cluster(b);
                    assert(in_data(b, crate::layout::nth(fat, loc.dir_start.0 as int, kk as nat)));
                    self.lemma_cluster_len(slot_cluster(b, fat, loc.dir_start.0 as int, loc.entry_index as int));
                }
                let res = self.write_fcb_at(loc, &fcb);
                proof {
                    self.lemma_wf();
                    let i = loc.entry_index as int;
                    let ld = loc.dir_start.0 as int;
                    let c = slot_cluster(b, fat, ld, i);
                    let e = crate::layout::entries_per_cluster(b);
                    let kk: int = i / e;
                    assert(in_data(b, crate::layout::nth(fat, ld, kk as nat)));
                    crate::myfs::lemma_cluster_range(b, c);
                    assert forall|j: int| 0 <= j < data_start(b) implies #[trigger] self.disk()[j] == d0[j] by {
                        if j >= 0 && j < d0.len() {
                            assert(!crate::layout::block_in_cluster(b, c, j));
                        }
                    }
                    if res is Ok {
                        assert forall|dir2: int, j: int|
                            j >= 0 && in_data(b, slot_cluster(b, fat, dir2, j)) implies #[trigger] kept_or_restamped(
                            b,
                            d0,
                            self.disk(),
                            fat,
                            dir_start.0 as int,
                            dir2,
                            j,
                        ) by {
                            if res is Ok {
                                if slot_cluster(b, fat, dir2, j) == c && crate::layout::slot_offset(b, j) == crate::layout::slot_offset(b, i) {
                                    assert(slot_bytes(b, d0, fat, dir2, j) == slot_bytes(b, d0, fat, ld, i));
                                    let ob = slot_bytes(b, d0, fat, ld, i);
                                    assert(ob[0] != 0 && ob[0] != 0xE5);
                                    assert(v.base[0] == ob[0]);
                                    assert(fcb@.base == v.base);
                                    assert(fcb_bytes(fcb@)[0] == fcb@.base[0]);
                                    lemma_fcb_round_trip(fcb@, Seq::<u8>::empty());
                                    assert(fcb_bytes(fcb@) + Seq::<u8>::empty() =~= fcb_bytes(fcb@));
                                    assert(slot_bytes(b, self.disk(), fat, dir2, j) == fcb_bytes(fcb@));
                                    assert(slot_of_bytes(fcb_bytes(fcb@)) == SlotView::Occupied(fcb@));
                                }
                            }
                        }
                        assert(kept_or_restamped(b, d0, self.disk(), fat, dir_start.0 as int, ld, i));
                        lemma_fcb_round_trip(fcb@, Seq::<u8>::empty());
                        assert(fcb_bytes(fcb@) + Seq::<u8>::empty() =~= fcb_bytes(fcb@));
                        assert(fcb_bytes(fcb@)[0] == fcb@.base[0]);
                        assert(dir_slot(b, self.disk(), fat, ld, i) == SlotView::Occupied(fcb@));
                    }
                    assert(crate::myfs::only_cluster_changed(b, d0, self.disk(), c));
                    assert forall|s: Set<int>| #[trigger] search_clear(b, d0, fat, dir_start.0 as int, s) implies forall|x: int|
                        in_data(b, x) && s.contains(x) ==> #[trigger] cluster_bytes(b, self.disk(), x) == cluster_bytes(b, d0, x) by {
                        assert(search_avoids(b, d0, fat, ROOT_DIR_START as int, dir_start.0 as int, data_clusters(b) as nat, s));
                        assert(!s.contains(c));
                        assert forall|x: int| in_data(b, x) && s.contains(x) implies #[trigger] cluster_bytes(b, self.disk(), x)
                            == cluster_bytes(b, d0, x) by {
                            crate::myfs::lemma_cluster_unchanged(b, d0, self.disk(), c, x);
                        }
                    }
                }
                res
            },
            None => Ok(()),
        }
    }
}

} // verus!
