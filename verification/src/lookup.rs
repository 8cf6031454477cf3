//! Finding entries and free slots in a directory.

use vstd::prelude::*;
use vstd::string::StringSliceAdditionalSpecFns;

use crate::dev::BufferedBlockDevice;
use crate::dir::dir_slot;
use crate::error::DirEntryLoc;
use crate::error::FsError;
use crate::fs::ClusterId;
use crate::fs::Fcb;
use crate::fs::FcbView;
use crate::layout::chain_len;
use crate::layout::entries_per_cluster;
use crate::layout::has_chain;
use crate::layout::slot_readable;
use crate::myfs::MyFileSystem;
use crate::name::normalize_component;
use crate::name::reserved_component;
use crate::name::short_name_spec;
use crate::name::short_name_text;
use crate::name::upper_chars;
use crate::name::DirSlot;
use crate::name::SlotView;
use crate::slots::DirSlotIter;

verus! {

broadcast use crate::myfs::lemma_meta_block_not_in_cluster;

/// The displayed name of a file control block.
pub open spec fn fcb_name(v: FcbView) -> Seq<char> {
    short_name_text(v.base, v.ext)
}

/// Is `name` a usable 8.3 name?
pub open spec fn name_ok(name: &str) -> bool {
    !reserved_component(name@) && short_name_spec(name.spec_bytes()) is Some
}

/// Does slot `i` of directory `dir` hold an entry displayed as `key`?
pub open spec fn slot_named(b: crate::fs::BootSector, disk: Seq<Seq<u8>>, fat: Seq<crate::fat::FatEntry>, dir: int, i: int, key: Seq<char>) -> bool {
    dir_slot(b, disk, fat, dir, i) matches SlotView::Occupied(v) && fcb_name(v) == key
}

/// Number of slots of a directory whose chain ends properly.
pub open spec fn dir_slot_count(b: crate::fs::BootSector, fat: Seq<crate::fat::FatEntry>, dir: int) -> int {
    chain_len(b, fat, dir) * entries_per_cluster(b)
}

/// A slot that can be read lies among the slots of a directory whose chain ends properly.
pub proof fn lemma_readable_slot_counted(b: crate::fs::BootSector, fat: Seq<crate::fat::FatEntry>, dir: int, i: int)
    requires
        crate::layout::geo_wf(b),
        slot_readable(b, fat, dir, i),
        has_chain(b, fat, dir),
    ensures
        0 <= i < dir_slot_count(b, fat, dir),
{
    let e = entries_per_cluster(b);
    crate::dir::lemma_slot_pos(b, i);
    let k: nat = (i / e + 1) as nat;
    if dir == 0 {
        assert(crate::layout::in_data(b, crate::layout::nth(fat, dir, (0int) as nat)));
    } else {
        let n = chain_len(b, fat, dir);
        if k > n {
            crate::layout::lemma_chain_ends_no_more(b, fat, dir, n, k);
        }
        assert(i < n * e) by (nonlinear_arith)
            requires
                e > 0,
                i >= 0,
                i / e + 1 <= n,
        {
            assert(i == e * (i / e) + i % e);
        }
    }
}

impl<D: BufferedBlockDevice> MyFileSystem<D> {
    /// Looks up the entry named `name` in the directory at `parent_dir`: the first slot that
    /// holds it.
    pub fn lookup(&self, parent_dir: ClusterId, name: &str) -> (r: Result<(DirEntryLoc, Fcb), FsError>)
        requires
            self.wf(),
        ensures
            !name_ok(name) ==> (r matches Err(FsError::InvalidName(s)) && s@ == name@),
            r matches Ok((loc, f)) ==> {
                let b = self.boot_view();
                let i = loc.entry_index as int;
                &&& name_ok(name)
                &&& loc.dir_start == parent_dir
                &&& slot_readable(b, self.fat(), parent_dir.0 as int, i)
                &&& dir_slot(b, self.disk(), self.fat(), parent_dir.0 as int, i) == SlotView::Occupied(f@)
                &&& fcb_name(f@) == upper_chars(name@)
                &&& forall|j: int| 0 <= j < i ==> !#[trigger] slot_named(b, self.disk(), self.fat(), parent_dir.0 as int, j, upper_chars(name@))
            },
            self.reliable() && (r matches Err(FsError::NotFound(_))) ==> name_ok(name) && has_chain(self.boot_view(), self.fat(), parent_dir.0 as int)
                && forall|j: int|
                0 <= j < dir_slot_count(self.boot_view(), self.fat(), parent_dir.0 as int) ==> !#[trigger] slot_named(
                    self.boot_view(),
                    self.disk(),
                    self.fat(),
                    parent_dir.0 as int,
                    j,
                    upper_chars(name@),
                ),
            self.reliable() && name_ok(name) && has_chain(self.boot_view(), self.fat(), parent_dir.0 as int) ==> (r is Ok || r matches Err(
                FsError::NotFound(_),
            )),
            self.reliable() ==> (r matches Err(FsError::NotFound(s)) ==> s@ == crate::report::decimal_text(parent_dir.0 as nat) + "/"@ + upper_chars(name@)),
            r matches Err(e) ==> e is InvalidName || e is NotFound || !self.reliable() || (e is CorruptFs && !has_chain(
                self.boot_view(),
                self.fat(),
                parent_dir.0 as int,
            )),
    {
        let key = normalize_component(name)?;
        let ghost b = self.boot_view();
        let ghost dir = parent_dir.0 as int;
        let mut it = DirSlotIter::new(self, parent_dir)?;
        loop
            invariant
                self.wf(),
                b == self.boot_view(),
                dir == parent_dir.0,
                key@ == upper_chars(name@),
                name_ok(name),
                it.inv(),
                it.fs_view() == self,
                it.dir_view() == dir,
                !it.has_failed(),
                forall|j: int| 0 <= j < it.count() ==> !#[trigger] slot_named(b, self.disk(), self.fat(), dir, j, key@),
            decreases 0x1_0000_0000 - it.count(),
        {
            proof {
                it.lemma_count_bound();
            }
            match it.next() {
                None => {
                    return Err(FsError::NotFound(crate::report::child_path(parent_dir, key.as_str())));
                },
                Some(Err(e)) => {
                    return Err(e);
                },
                Some(Ok((loc, slot))) => {
                    proof {
                        it.lemma_count_bound();
                    }
                    match slot {
                        DirSlot::Occupied(fcb) => {
                            let shown = fcb.short_name();
                            if shown == key {
                                return Ok((loc, fcb));
                            }
                        },
                        _ => {},
                    }
                },
            }
        }
    }
}


/// Number of occupied slots among the first `n` slots of directory `dir`.
pub open spec fn occupied_count(b: crate::fs::BootSector, disk: Seq<Seq<u8>>, fat: Seq<crate::fat::FatEntry>, dir: int, n: int) -> nat
    decreases n,
{
    if n <= 0 {
        0
    } else {
        occupied_count(b, disk, fat, dir, n - 1) + if dir_slot(b, disk, fat, dir, n - 1) is Occupied {
            1nat
        } else {
            0nat
        }
    }
}

impl<D: BufferedBlockDevice> MyFileSystem<D> {
    /// The size a directory reports: `FCB_SIZE` bytes for each occupied slot.
    pub(crate) fn dir_size_of(&self, dir_start: ClusterId) -> (r: Result<u32, FsError>)
        requires
            self.wf(),
        ensures
            r matches Ok(sz) ==> has_chain(self.boot_view(), self.fat(), dir_start.0 as int) && sz == 24 * occupied_count(
                self.boot_view(),
                self.disk(),
                self.fat(),
                dir_start.0 as int,
                dir_slot_count(self.boot_view(), self.fat(), dir_start.0 as int),
            ),
            self.reliable() && has_chain(self.boot_view(), self.fat(), dir_start.0 as int) ==> r is Ok,
            r matches Err(e) ==> !self.reliable() || (e is CorruptFs && !has_chain(self.boot_view(), self.fat(), dir_start.0 as int)),
    {
        let ghost b = self.boot_view();
        let ghost dir = dir_start.0 as int;
        let mut it = DirSlotIter::new(self, dir_start)?;
        let mut count: u32 = 0;
        loop
            invariant
                self.wf(),
                b == self.boot_view(),
                dir == dir_start.0,
                it.inv(),
                it.fs_view() == self,
                it.dir_view() == dir,
                !it.has_failed(),
                count == occupied_count(b, self.disk(), self.fat(), dir, it.count() as int),
                count <= it.count(),
                it.count() * 24 <= 0xFFFF * 0xFFFF,
            decreases 0x1_0000_0000 - it.count(),
        {
            proof {
                it.lemma_count_bound();
            }
            let ghost before = it.count();
            match it.next() {
                None => {
                    return Ok(count * 24);
                },
                Some(Err(e)) => {
                    return Err(e);
                },
                Some(Ok((loc, slot))) => {
                    proof {
                        it.lemma_count_bound();
                        let i = loc.entry_index as int;
                        let e = entries_per_cluster(b);
                        self.lemma_wf();
                        crate::dir::lemma_slot_count_bound(b, self.fat(), dir, (i / e + 1) as nat);
                        crate::dir::lemma_slot_pos(b, i);
                        assert((i + 1) * 24 <= (i / e + 1) * e * 24) by (nonlinear_arith)
                            requires
                                e >= 1,
                                i >= 0,
                        {
                            vstd::arithmetic::div_mod::lemma_fundamental_div_mod(i, e);
                            vstd::arithmetic::div_mod::lemma_mod_pos_bound(i, e);
                        }
                    }
                    match slot {
                        DirSlot::Occupied(_) => {
                            count = count + 1;
                        },
                        _ => {},
                    }
                },
            }
        }
    }
}


impl<D: BufferedBlockDevice> MyFileSystem<D> {
    /// The first free slot of a directory; where every slot is taken, a new zeroed cluster is
    /// linked after the directory's chain and its first slot is returned.
    pub(crate) fn find_free_dir_slot(&mut self, dir_start: ClusterId) -> (r: Result<DirEntryLoc, FsError>)
        requires
            old(self).wf(),
        ensures
            crate::myfs::meta_kept(old(self).boot_view(), old(self).disk(), final(self).disk()),
            final(self).wf(),
            final(self).boot_view() == old(self).boot_view(),
            final(self).reliable() == old(self).reliable(),
            final(self).handles() == old(self).handles(),
            final(self).next_handle_value() == old(self).next_handle_value(),
            final(self).disk().len() == old(self).disk().len(),
            final(self).fat().len() == old(self).fat().len(),
            forall|x: int|
                0 <= x < old(self).fat().len() && !(old(self).fat()[x] is Free) && !crate::layout::follow(
                    old(self).fat(),
                    dir_start.0 as int,
                    chain_len(old(self).boot_view(), old(self).fat(), dir_start.0 as int),
                ).contains(x) ==> #[trigger] final(self).fat()[x] == old(self).fat()[x],
            forall|j: int|
                0 <= j < old(self).disk().len() && (forall|c: int|
                    crate::layout::in_data(old(self).boot_view(), c) && old(self).fat()[c] is Free ==> !crate::layout::block_in_cluster(
                        old(self).boot_view(),
                        c,
                        j,
                    )) ==> #[trigger] final(self).disk()[j] == old(self).disk()[j],
            r matches Ok(loc) ==> {
                let b = old(self).boot_view();
                let f0 = old(self).fat();
                let dir = dir_start.0 as int;
                let i = loc.entry_index as int;
                &&& loc.dir_start == dir_start
                &&& dir != 0
                &&& slot_readable(b, final(self).fat(), dir, i)
                &&& crate::dir::slot_writable(b, final(self).fat(), dir, i)
                &&& !(dir_slot(b, final(self).disk(), final(self).fat(), dir, i) is Occupied)
                &&& forall|j: int| 0 <= j < i ==> #[trigger] dir_slot(b, old(self).disk(), f0, dir, j) is Occupied
                &&& (final(self).fat() == f0 && final(self).disk() == old(self).disk() && final(self).dirty() == old(self).dirty())
                    || (has_chain(b, f0, dir) && i == dir_slot_count(b, f0, dir) && has_chain(b, final(self).fat(), dir)
                    && chain_len(b, final(self).fat(), dir) == chain_len(b, f0, dir) + 1 && final(self).dirty()
                    && f0[crate::layout::slot_cluster(b, final(self).fat(), dir, i)] is Free
                    && crate::layout::cluster_bytes(b, final(self).disk(), crate::layout::slot_cluster(b, final(self).fat(), dir, i))
                    == crate::myfs::zeros(crate::layout::cluster_size(b))
                    && forall|x: int| crate::layout::in_data(b, x) && x < crate::layout::slot_cluster(b, final(self).fat(), dir, i)
                    ==> !(#[trigger] f0[x] is Free))
            },
            old(self).reliable() && (r matches Err(FsError::NoSpace)) ==> final(self).fat() == old(self).fat() && final(self).disk()
                == old(self).disk() && final(self).dirty() == old(self).dirty(),
            old(self).reliable() && dir_start.0 != 0 && has_chain(old(self).boot_view(), old(self).fat(), dir_start.0 as int) && (exists|j: int|
                0 <= j < dir_slot_count(old(self).boot_view(), old(self).fat(), dir_start.0 as int) && !(#[trigger] dir_slot(
                    old(self).boot_view(),
                    old(self).disk(),
                    old(self).fat(),
                    dir_start.0 as int,
                    j,
                ) is Occupied)) ==> r is Ok && final(self).fat() == old(self).fat() && final(self).disk() == old(self).disk()
                && final(self).dirty() == old(self).dirty(),
            r matches Err(e) ==> !old(self).reliable() || (e is CorruptFs && (!has_chain(old(self).boot_view(), old(self).fat(), dir_start.0 as int)
                || dir_start.0 == 0)) || (e is NoSpace && crate::layout::free_set(old(self).boot_view(), old(self).fat()).len() == 0),
            r matches Ok(loc) ==> forall|j: int|
                0 <= j < loc.entry_index ==> #[trigger] crate::layout::slot_bytes(old(self).boot_view(), final(self).disk(), final(self).fat(), dir_start.0 as int, j)
                    == crate::layout::slot_bytes(old(self).boot_view(), old(self).disk(), old(self).fat(), dir_start.0 as int, j),
    {
        let ghost b = self.boot_view();
        let ghost f0 = self.fat();
        let ghost d0 = self.disk();
        let ghost dir = dir_start.0 as int;
        let mut next_entry_index: u32 = 0;
        {
            let mut it = DirSlotIter::new(self, dir_start)?;
            loop
                invariant
                    self.wf(),
                    b == self.boot_view(),
                    f0 == self.fat(),
                    d0 == self.disk(),
                    dir == dir_start.0,
                    it.inv(),
                    it.fs_view() == &*self,
                    it.dir_view() == dir,
                    !it.has_failed(),
                    next_entry_index == it.count(),
                    forall|j: int| 0 <= j < it.count() ==> #[trigger] dir_slot(b, d0, f0, dir, j) is Occupied,
                ensures
                    has_chain(b, f0, dir),
                    next_entry_index == dir_slot_count(b, f0, dir),
                    forall|j: int| 0 <= j < next_entry_index ==> #[trigger] dir_slot(b, d0, f0, dir, j) is Occupied,
                decreases 0x1_0000_0000 - it.count(),
            {
                proof {
                    it.lemma_count_bound();
                }
                match it.next() {
                    None => {
                        break;
                    },
                    Some(Err(e)) => {
                        return Err(e);
                    },
                    Some(Ok((loc, slot))) => {
                        proof {
                            it.lemma_count_bound();
                        }
                        match slot {
                            DirSlot::Occupied(_) => {
                                next_entry_index = loc.entry_index + 1;
                            },
                            _ => {
                                proof {
                                    self.lemma_wf();
                                    crate::dir::lemma_slot_pos(b, loc.entry_index as int);
                                    assert(crate::layout::in_data(b, crate::layout::nth(f0, dir, (0int) as nat)));
                                }
                                return Ok(loc);
                            },
                        }
                    },
                }
            }
        }
        proof {
            self.lemma_wf();
            assert(!exists|j: int| 0 <= j < dir_slot_count(b, f0, dir) && !(#[trigger] dir_slot(b, d0, f0, dir, j) is Occupied));
        }
        let extra = self.allocate_clusters(1)?;
        let new_cluster = extra[0];
        let ghost f1 = self.fat();
        proof {
            assert(extra@[0].0 == new_cluster.0);
            assert forall|j: int| 0 <= j < d0.len() && !crate::layout::block_in_cluster(b, new_cluster.0 as int, j) implies #[trigger] self.disk()[j]
                == d0[j] by {
                assert forall|k: int| 0 <= k < 1 implies !crate::layout::block_in_cluster(b, #[trigger] extra@[k].0 as int, j) by {
                    assert(extra@[k] == extra@[0]);
                }
            }
            assert(crate::myfs::only_cluster_changed(b, d0, self.disk(), new_cluster.0 as int));
        }
        let ghost d1 = self.disk();
        let ghost cur = chain_len(b, f0, dir);
        proof {
            self.lemma_wf();
            if dir != 0 {
                assert(crate::layout::chain_ends(b, f0, dir, cur));
                let ext0 = Seq::<int>::empty();
                assert(f1[new_cluster.0 as int] is EndOfChain);
                assert forall|k: int| 0 <= k < cur implies #[trigger] f1[crate::layout::nth(f0, dir, k as nat)] == f0[crate::layout::nth(f0, dir, k as nat)] by {
                    let c = crate::layout::nth(f0, dir, k as nat);
                    if k < cur - 1 {
                        assert(f0[c] is Next);
                    } else {
                        assert(f0[c] is EndOfChain);
                    }
                }
                assert(crate::layout::extended_links(b, f0, f1, dir, dir, cur, ext0));
                crate::layout::lemma_extended_chain(b, f0, f1, dir, dir, cur, ext0);
            }
        }
        let (_, last) = self.chain_tail(dir_start)?;
        let last = match last {
            Some(c) => c,
            None => {
                return Err(FsError::CorruptFs(crate::report::numbered_text("chain head cluster ", dir_start.0 as u64, " invalid")));
            },
        };
        proof {
            crate::layout::lemma_chain_ends_unique(b, f1, dir, cur, chain_len(b, f1, dir));
        }
        let _ = self.write_fat(last, crate::fat::FatEntry::Next(new_cluster));
        let _ = self.write_fat(new_cluster, crate::fat::FatEntry::EndOfChain);
        let loc = DirEntryLoc { dir_start, entry_index: next_entry_index };
        proof {
            let f2 = self.fat();
            let ext = seq![new_cluster.0 as int];
            let lastc = crate::layout::nth(f0, dir, (cur - 1) as nat);
            assert(!crate::layout::follow(f0, dir, cur).contains(new_cluster.0 as int)) by {
                if crate::layout::follow(f0, dir, cur).contains(new_cluster.0 as int) {
                    let t = choose|t: int| 0 <= t < cur && #[trigger] crate::layout::follow(f0, dir, cur)[t] == new_cluster.0 as int;
                    let tt: int = t;
                    if t < cur - 1 {
                        assert(f0[crate::layout::nth(f0, dir, tt as nat)] is Next);
                    } else {
                        assert(f0[crate::layout::nth(f0, dir, (cur - 1) as nat)] is EndOfChain);
                    }
                }
            }
            assert forall|k: int| 0 <= k < cur - 1 implies #[trigger] f2[crate::layout::nth(f0, dir, k as nat)] == f0[crate::layout::nth(f0, dir, k as nat)] by {
                let c = crate::layout::nth(f0, dir, k as nat);
                assert(crate::layout::follow(f0, dir, cur)[k] == c);
                let kk: int = cur - 1;
                assert(crate::layout::follow(f0, dir, cur)[kk] == lastc);
                assert(crate::layout::in_data(b, c));
            }
            assert(crate::layout::extended_links(b, f0, f2, dir, dir, cur, ext));
            crate::layout::lemma_extended_chain(b, f0, f2, dir, dir, cur, ext);
            crate::layout::lemma_chain_ends_unique(b, f2, dir, cur + 1, chain_len(b, f2, dir));
            let e = entries_per_cluster(b);
            let i = next_entry_index as int;
            assert(i / e == cur && i % e == 0) by {
                vstd::arithmetic::div_mod::lemma_fundamental_div_mod_converse(i, e, cur as int, 0);
            }
            assert(crate::layout::slot_cluster(b, f2, dir, i) == new_cluster.0);
            assert(f0[new_cluster.0 as int] is Free);
            assert forall|x: int| crate::layout::in_data(b, x) && x < new_cluster.0 implies !(#[trigger] f0[x] is Free) by {
                if f0[x] is Free {
                    let kk = choose|kk: int| 0 <= kk < 1 && #[trigger] extra@[kk].0 == x;
                    assert(extra@[kk] == extra@[0]);
                }
            }
            assert(crate::layout::slot_offset(b, i) == 0);
            self.lemma_cluster_len(new_cluster.0 as int);
            assert(crate::dir::dir_slot(b, self.disk(), f2, dir, i) is Unused);
            assert forall|x: int|
                0 <= x < f0.len() && !(f0[x] is Free) && !crate::layout::follow(f0, dir, cur).contains(x) implies #[trigger] f2[x] == f0[x] by {
                if x == lastc {
                    let kk: int = cur - 1;
                    assert(crate::layout::follow(f0, dir, cur)[kk] == lastc);
                }
            }
            crate::layout::lemma_nth_stable(f0, f2, dir, (cur - 1) as nat);
            assert forall|j: int| 0 <= j < i implies #[trigger] crate::layout::slot_bytes(b, self.disk(), f2, dir, j)
                == crate::layout::slot_bytes(b, d0, f0, dir, j) by {
                crate::dir::lemma_slot_pos(b, j);
                let k: int = j / e;
                assert(k < cur) by {
                    vstd::arithmetic::div_mod::lemma_fundamental_div_mod(i, e);
                    assert(i == e * cur);
                    assert(j / e < cur) by (nonlinear_arith)
                        requires
                            j < e * cur,
                            e > 0,
                            j >= 0,
                    {
                        vstd::arithmetic::div_mod::lemma_fundamental_div_mod(j, e);
                    }
                }
                assert(crate::layout::nth(f2, dir, k as nat) == crate::layout::nth(f0, dir, k as nat));
                let c = crate::layout::nth(f0, dir, k as nat);
                assert(crate::layout::in_data(b, c));
                if k < cur - 1 {
                    assert(f0[c] is Next);
                } else {
                    assert(f0[c] is EndOfChain);
                }
                crate::myfs::lemma_cluster_unchanged(b, d0, self.disk(), new_cluster.0 as int, c);
            }
        }
        Ok(loc)
    }
}

} // verus!
