//! Walking the slots of a directory.

use vstd::prelude::*;

use crate::chain::ChainIter;
use crate::dev::BufferedBlockDevice;
use crate::dir::dir_slot;
use crate::dir::lemma_slot_count_bound;
use crate::error::DirEntryLoc;
use crate::error::FsError;
use crate::fs::ClusterId;
use crate::fs::FCB_SIZE;
use crate::layout::chain_ends;
use crate::layout::chain_len;
use crate::layout::cluster_bytes;
use crate::layout::entries_per_cluster;
use crate::layout::geo_wf;
use crate::layout::has_chain;
use crate::layout::in_data;
use crate::layout::iter_ok;
use crate::layout::lemma_chain_ends_unique;
use crate::layout::lemma_no_chain_end;
use crate::layout::nth;
use crate::layout::slot_bytes;
use crate::layout::slot_cluster;
use crate::layout::slot_offset;
use crate::layout::slot_readable;
use crate::myfs::MyFileSystem;
use crate::name::DirSlot;

verus! {

/// An iterator for the slots of a directory, in order.
///
/// Each cluster holds `cluster_size / FCB_SIZE` slots; the bytes at the end of a cluster that
/// do not make up a whole slot are skipped.
pub struct DirSlotIter<'a, D: BufferedBlockDevice> {
    fs: &'a MyFileSystem<D>,
    dir_start: ClusterId,
    chain_iter: ChainIter<'a, D>,
    cluster: Option<Vec<u8>>,
    index_in_cluster: usize,
    entry_index: u32,
    entries_per_cluster: usize,
    failed: bool,
}

impl<'a, D: BufferedBlockDevice> DirSlotIter<'a, D> {
    pub closed spec fn fs_view(&self) -> &'a MyFileSystem<D> {
        self.fs
    }

    pub closed spec fn dir_view(&self) -> int {
        self.dir_start.0 as int
    }

    /// Number of slots yielded so far.
    pub closed spec fn count(&self) -> nat {
        self.entry_index as nat
    }

    pub closed spec fn has_failed(&self) -> bool {
        self.failed
    }

    pub closed spec fn done(&self) -> bool {
        self.failed || (self.chain_iter.done() && (self.cluster is None || self.index_in_cluster == self.entries_per_cluster))
    }

    pub closed spec fn inv(&self) -> bool {
        let fs = self.fs;
        let b = fs.boot_view();
        let fat = fs.fat();
        let dir = self.dir_start.0 as int;
        let e = entries_per_cluster(b);
        let k = self.chain_iter.yielded();
        &&& fs.wf()
        &&& geo_wf(b)
        &&& self.chain_iter.inv()
        &&& self.chain_iter.fs_view() == fs
        &&& self.chain_iter.start_view() == dir
        &&& self.entries_per_cluster == e
        &&& e >= 1
        &&& !self.failed ==> !self.chain_iter.has_failed()
        &&& !self.failed ==> match self.cluster {
            None => k == 0 && self.entry_index == 0 && self.index_in_cluster == 0,
            Some(bytes) => {
                &&& k >= 1
                &&& self.index_in_cluster <= e
                &&& self.entry_index == (k - 1) * e + self.index_in_cluster
                &&& bytes@ == cluster_bytes(b, fs.disk(), nth(fat, dir, (k - 1) as nat))
                &&& in_data(b, nth(fat, dir, (k - 1) as nat))
                &&& bytes@.len() >= e * FCB_SIZE
            },
        }
    }

    /// A walk runs over a well-formed filesystem.
    pub proof fn lemma_inv_wf(&self)
        requires
            self.inv(),
        ensures
            self.fs_view().wf(),
    {
    }

    pub proof fn lemma_count_bound(&self)
        ensures
            self.count() <= 0xFFFF_FFFF,
    {
    }

    /// Starts a walk over the slots of the directory at `dir_start`.
    pub fn new(fs: &'a MyFileSystem<D>, dir_start: ClusterId) -> (r: Result<DirSlotIter<'a, D>, FsError>)
        requires
            fs.wf(),
        ensures
            dir_start.0 == 0 || in_data(fs.boot_view(), dir_start.0 as int) ==> r is Ok,
            r matches Ok(it) ==> it.inv() && it.fs_view() == fs && it.dir_view() == dir_start.0 && it.count() == 0
                && !it.has_failed(),
            r matches Err(e) ==> e is CorruptFs && !has_chain(fs.boot_view(), fs.fat(), dir_start.0 as int),
    {
        proof {
            fs.lemma_wf();
        }
        let chain_iter = match ChainIter::new(fs, dir_start) {
            Ok(it) => it,
            Err(e) => {
                proof {
                    let b = fs.boot_view();
                    let fat = fs.fat();
                    let s = dir_start.0 as int;
                    assert forall|n: nat| !chain_ends(b, fat, s, n) by {
                        if chain_ends(b, fat, s, n) {
                            assert(in_data(b, nth(fat, s, (0int) as nat)));
                        }
                    }
                }
                return Err(e);
            },
        };
        let entries_per_cluster = fs.cluster_size() / FCB_SIZE;
        Ok(DirSlotIter {
            fs,
            dir_start,
            chain_iter,
            cluster: None,
            index_in_cluster: 0,
            entry_index: 0,
            entries_per_cluster,
            failed: false,
        })
    }

    /// The next slot with its location, an error, or `None` once every slot of the directory was
    /// yielded.
    pub fn next(&mut self) -> (r: Option<Result<(DirEntryLoc, DirSlot), FsError>>)
        requires
            old(self).inv(),
        ensures
            final(self).inv(),
            final(self).fs_view() == old(self).fs_view(),
            final(self).dir_view() == old(self).dir_view(),
            old(self).done() ==> r is None,
            old(self).has_failed() ==> r is None && *final(self) == *old(self),
            r is None ==> final(self).done() && final(self).count() == old(self).count() && final(self).has_failed()
                == old(self).has_failed() && (!old(self).has_failed() ==> has_chain(
                old(self).fs_view().boot_view(),
                old(self).fs_view().fat(),
                old(self).dir_view(),
            ) && old(self).count() == chain_len(
                old(self).fs_view().boot_view(),
                old(self).fs_view().fat(),
                old(self).dir_view(),
            ) * entries_per_cluster(old(self).fs_view().boot_view())),
            r matches Some(Ok((loc, slot))) ==> !old(self).has_failed() && loc.dir_start.0 == old(self).dir_view() && loc.entry_index
                == old(self).count() && final(self).count() == old(self).count() + 1 && !final(self).has_failed() && slot_readable(
                old(self).fs_view().boot_view(),
                old(self).fs_view().fat(),
                old(self).dir_view(),
                loc.entry_index as int,
            ) && slot.view() == dir_slot(
                old(self).fs_view().boot_view(),
                old(self).fs_view().disk(),
                old(self).fs_view().fat(),
                old(self).dir_view(),
                loc.entry_index as int,
            ),
            r matches Some(Err(e)) ==> final(self).done() && final(self).has_failed() && final(self).count() == old(self).count() && (!old(self).fs_view().reliable() || (
            e is CorruptFs && !has_chain(old(self).fs_view().boot_view(), old(self).fs_view().fat(), old(self).dir_view()))),
    {
        if self.failed {
            return None;
        }
        let ghost fs = self.fs;
        let ghost b = fs.boot_view();
        let ghost fat = fs.fat();
        let ghost dir = self.dir_start.0 as int;
        let ghost e = entries_per_cluster(b);
        proof {
            fs.lemma_wf();
            self.chain_iter.lemma_inv();
            assert(e * 24 <= crate::layout::cluster_size(b)) by (nonlinear_arith)
                requires
                    e == crate::layout::cluster_size(b) / 24,
                    crate::layout::cluster_size(b) >= 24,
            ;
            crate::config::lemma_u16_product(b.block_size, b.blocks_per_cluster);
        }
        let need_cluster = match &self.cluster {
            None => true,
            Some(_) => self.index_in_cluster == self.entries_per_cluster,
        };
        if need_cluster {
            let ghost k = self.chain_iter.yielded();
            proof {
                if self.cluster is Some {
                    assert(self.entry_index == k * e) by (nonlinear_arith)
                        requires
                            self.entry_index == (k - 1) * e + e,
                    ;
                    assert(in_data(b, nth(fat, dir, (0int) as nat)));
                } else {
                    assert(k == 0 && self.entry_index == 0);
                }
            }
            match self.chain_iter.next() {
                None => {
                    proof {
                        if self.cluster is Some {
                            assert((k - 1) * e + e == k * e) by (nonlinear_arith);
                            assert(in_data(b, nth(fat, dir, (0int) as nat)));
                        }
                        if dir != 0 {
                            assert(chain_ends(b, fat, dir, k));
                            assert(has_chain(b, fat, dir));
                            lemma_chain_ends_unique(b, fat, dir, k, chain_len(b, fat, dir));
                        }
                    }
                    return None;
                },
                Some(Err(err)) => {
                    proof {
                        lemma_no_chain_end(b, fat, dir, k);
                        if k > 0 {
                            assert(in_data(b, nth(fat, dir, (0int) as nat)));
                        }
                    }
                    self.failed = true;
                    return Some(Err(err));
                },
                Some(Ok(c)) => {
                    proof {
                        self.chain_iter.lemma_inv();
                        let kk: int = k as int;
                        assert(in_data(b, nth(fat, dir, kk as nat)));
                        fs.lemma_cluster_len(c.0 as int);
                        assert(e * 24 <= crate::layout::cluster_size(b)) by (nonlinear_arith)
                            requires
                                e == crate::layout::cluster_size(b) / 24,
                                crate::layout::cluster_size(b) >= 24,
                        ;
                    }
                    match self.fs.read_cluster_bytes(c) {
                        Err(err) => {
                            self.failed = true;
                            return Some(Err(err));
                        },
                        Ok(bytes) => {
                            self.cluster = Some(bytes);
                            self.index_in_cluster = 0;
                        },
                    }
                },
            }
        }
        let ghost k = self.chain_iter.yielded();
        proof {
            self.chain_iter.lemma_inv();
            lemma_slot_count_bound(b, fat, dir, k);
            assert(self.entry_index < k * e) by (nonlinear_arith)
                requires
                    self.entry_index == (k - 1) * e + self.index_in_cluster,
                    self.index_in_cluster < e,
            ;
        }
        proof {
            assert(self.index_in_cluster * FCB_SIZE + FCB_SIZE <= e * FCB_SIZE) by (nonlinear_arith)
                requires
                    self.index_in_cluster < e,
            ;
            fs.lemma_cluster_len(nth(fat, dir, (k - 1) as nat));
        }
        let start = self.index_in_cluster * FCB_SIZE;
        let loc = DirEntryLoc { dir_start: self.dir_start, entry_index: self.entry_index };
        let ghost i = self.entry_index as int;
        let ghost idx = self.index_in_cluster as int;
        proof {
            assert(start + FCB_SIZE <= e * FCB_SIZE) by (nonlinear_arith)
                requires
                    start == idx * FCB_SIZE,
                    idx < e,
            ;
            vstd::arithmetic::div_mod::lemma_fundamental_div_mod_converse(i, e, (k - 1) as int, idx);
        }
        let slot = match &self.cluster {
            Some(bytes) => {
                let piece = vstd::slice::slice_subrange(bytes.as_slice(), start, start + FCB_SIZE);
                proof {
                    let sb = slot_bytes(b, fs.disk(), fat, dir, i);
                    assert(slot_cluster(b, fat, dir, i) == nth(fat, dir, (k - 1) as nat));
                    assert(slot_offset(b, i) == start);
                    assert(piece@ =~= sb);
                }
                DirSlot::parse(piece)
            },
            None => {
                return None;
            },
        };
        self.index_in_cluster = self.index_in_cluster + 1;
        self.entry_index = self.entry_index + 1;
        proof {
            assert(iter_ok(b, fat, dir, k));
            assert(slot_readable(b, fat, dir, i));
        }
        match slot {
            Ok(s) => Some(Ok((loc, s))),
            Err(err) => Some(Err(err)),
        }
    }
}

} // verus!
