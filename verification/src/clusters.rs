//! Allocating and releasing clusters.

use vstd::prelude::*;

use crate::dev::BufferedBlockDevice;
use crate::error::FsError;
use crate::fat::FatEntry;
use crate::fs::ClusterId;
use crate::fs::BootSector;
use crate::fs::ROOT_DIR_START;
use crate::layout::block_in_cluster;
use crate::layout::cluster_bytes;
use crate::layout::cluster_size;
use crate::layout::free_set;
use crate::layout::in_data;
use crate::layout::lemma_free_set_finite;
use crate::layout::max_cluster;
use crate::layout::bpc;
use crate::layout::chain_byte;
use crate::layout::chain_len;
use crate::layout::extended_links;
use crate::layout::first_block;
use crate::layout::geo_wf;
use crate::layout::has_chain;
use crate::layout::lemma_chain_ends_unique;
use crate::layout::lemma_extended_chain;
use crate::fs::Fcb;
use crate::myfs::lemma_cluster_range;
use crate::myfs::lemma_clusters_disjoint;
use crate::dev::lemma_concat_blocks_agree;
use crate::layout::block_in_chain;
use crate::layout::chain_ends;
use crate::layout::follow;
use crate::layout::freed;
use crate::layout::iter_ok;
use crate::layout::lemma_chain_len_bound;
use crate::layout::lemma_follow_push;
use crate::layout::lemma_iter_ok_prefix;
use crate::layout::lemma_no_chain_end;
use crate::layout::nth;
use crate::chain::lemma_chain_write_frame;
use crate::chain::ChainIter;
use crate::myfs::lemma_cluster_unchanged;
use crate::myfs::zeros;
use crate::myfs::MyFileSystem;

verus! {

broadcast use crate::myfs::lemma_meta_block_not_in_cluster;

impl<D: BufferedBlockDevice> MyFileSystem<D> {
    /// The lowest free data cluster, if any.
    pub(crate) fn first_free_cluster(&self) -> (r: Option<ClusterId>)
        requires
            self.wf(),
        ensures
            r matches Some(c) ==> in_data(self.boot_view(), c.0 as int) && self.fat()[c.0 as int] is Free
                && forall|x: int| ROOT_DIR_START <= x < c.0 ==> !(#[trigger] self.fat()[x] is Free),
            r is None ==> free_set(self.boot_view(), self.fat()) =~= Set::<int>::empty(),
    {
        proof {
            self.lemma_wf();
        }
        let max = self.max_cluster_id().0 as u32;
        let mut c: u32 = ROOT_DIR_START as u32;
        while c <= max
            invariant
                self.wf(),
                max == max_cluster(self.boot_view()),
                max <= 0xFFFF,
                ROOT_DIR_START <= c <= max + 1,
                forall|x: int| ROOT_DIR_START <= x < c ==> !(#[trigger] self.fat()[x] is Free),
            decreases max + 1 - c,
        {
            let cid = ClusterId(c as u16);
            match self.read_fat(cid) {
                Ok(FatEntry::Free) => {
                    return Some(cid);
                },
                _ => {},
            }
            c += 1;
        }
        None
    }

    proof fn lemma_alloc_frame(&self, b: BootSector, f0: Seq<FatEntry>, d0: Seq<Seq<u8>>, ov: Seq<int>)
        requires
            self.fat().len() == f0.len(),
            self.disk().len() == d0.len(),
            forall|i: int| 0 <= i < ov.len() ==> in_data(b, #[trigger] ov[i]) && f0[ov[i]] is Free,
            forall|x: int|
                0 <= x < f0.len() ==> #[trigger] self.fat()[x] == if ov.contains(x) {
                    FatEntry::EndOfChain
                } else {
                    f0[x]
                },
            forall|j: int|
                0 <= j < d0.len() && (forall|i: int| 0 <= i < ov.len() ==> !block_in_cluster(b, #[trigger] ov[i], j))
                    ==> #[trigger] self.disk()[j] == d0[j],
        ensures
            forall|x: int| 0 <= x < f0.len() && !(f0[x] is Free) ==> #[trigger] self.fat()[x] == f0[x],
            forall|j: int|
                0 <= j < d0.len() && (forall|c: int| in_data(b, c) && f0[c] is Free ==> !block_in_cluster(b, c, j))
                    ==> #[trigger] self.disk()[j] == d0[j],
    {
        assert forall|x: int| 0 <= x < f0.len() && !(f0[x] is Free) implies #[trigger] self.fat()[x] == f0[x] by {
            if ov.contains(x) {
                let i = choose|i: int| 0 <= i < ov.len() && ov[i] == x;
            }
        }
        assert forall|j: int|
            0 <= j < d0.len() && (forall|c: int| in_data(b, c) && f0[c] is Free ==> !block_in_cluster(b, c, j))
                implies #[trigger] self.disk()[j] == d0[j] by {
            assert forall|i: int| 0 <= i < ov.len() implies !block_in_cluster(b, #[trigger] ov[i], j) by {
                assert(in_data(b, ov[i]) && f0[ov[i]] is Free);
            }
        }
    }

    /// Allocates `len` clusters: each time the lowest free one, marked as the end of a chain and
    /// filled with zeros. When free clusters run out first, the ones taken so far (every cluster
    /// that was free) stay marked and zeroed, and `NoSpace` is returned.
    pub(crate) fn allocate_clusters(&mut self, len: usize) -> (r: Result<Vec<ClusterId>, FsError>)
        requires
            old(self).wf(),
        ensures
            crate::myfs::meta_kept(old(self).boot_view(), old(self).disk(), final(self).disk()),
            final(self).wf(),
            final(self).boot_view() == old(self).boot_view(),
            final(self).reliable() == old(self).reliable(),
            final(self).handles() == old(self).handles(),
            final(self).next_handle_value() == old(self).next_handle_value(),
            final(self).disk().len() == old(self).disk().len(),
            final(self).fat().len() == old(self).fat().len(),
            forall|x: int|
                0 <= x < old(self).fat().len() && !(old(self).fat()[x] is Free) ==> #[trigger] final(self).fat()[x]
                    == old(self).fat()[x],
            forall|j: int|
                0 <= j < old(self).disk().len() && (forall|c: int|
                    in_data(old(self).boot_view(), c) && old(self).fat()[c] is Free ==> !block_in_cluster(
                        old(self).boot_view(),
                        c,
                        j,
                    )) ==> #[trigger] final(self).disk()[j] == old(self).disk()[j],
            r matches Ok(v) ==> {
                let b = old(self).boot_view();
                let f0 = old(self).fat();
                &&& v@.len() == len
                &&& forall|i: int| 0 <= i < len ==> in_data(b, #[trigger] v@[i].0 as int) && f0[v@[i].0 as int] is Free
                &&& forall|i: int, j: int| 0 <= i < j < len ==> #[trigger] v@[i].0 < #[trigger] v@[j].0
                &&& forall|x: int|
                    in_data(b, x) && f0[x] is Free && len > 0 && x <= v@[len - 1].0 ==> exists|i: int|
                        0 <= i < len && #[trigger] v@[i].0 == x
                &&& forall|x: int|
                    0 <= x < f0.len() ==> #[trigger] final(self).fat()[x] == if exists|i: int|
                        0 <= i < len && #[trigger] v@[i].0 == x {
                        FatEntry::EndOfChain
                    } else {
                        f0[x]
                    }
                &&& forall|i: int|
                    0 <= i < len ==> cluster_bytes(b, final(self).disk(), #[trigger] v@[i].0 as int) == zeros(
                        cluster_size(b),
                    )
                &&& forall|j: int|
                    0 <= j < old(self).disk().len() && (forall|i: int|
                        0 <= i < len ==> !block_in_cluster(b, #[trigger] v@[i].0 as int, j)) ==> #[trigger] final(self).disk()[j]
                        == old(self).disk()[j]
                &&& len > 0 ==> final(self).dirty()
                &&& len == 0 ==> final(self).dirty() == old(self).dirty() && final(self).disk() == old(self).disk()
            },
            r matches Err(e) ==> !old(self).reliable() || (e is NoSpace && free_set(
                old(self).boot_view(),
                old(self).fat(),
            ).len() < len),
            old(self).reliable() && free_set(old(self).boot_view(), old(self).fat()).len() >= len ==> r is Ok,
            old(self).reliable() && (r matches Err(FsError::NoSpace)) ==> {
                let b = old(self).boot_view();
                let f0 = old(self).fat();
                &&& forall|x: int|
                    0 <= x < f0.len() ==> #[trigger] final(self).fat()[x] == if in_data(b, x) && f0[x] is Free {
                        FatEntry::EndOfChain
                    } else {
                        f0[x]
                    }
                &&& forall|x: int| in_data(b, x) && f0[x] is Free ==> cluster_bytes(b, final(self).disk(), x) == zeros(cluster_size(b))
            },
            old(self).reliable() && len == 1 && (r matches Err(FsError::NoSpace)) ==> final(self).fat() == old(self).fat()
                && final(self).disk() == old(self).disk() && final(self).dirty() == old(self).dirty(),
    {
        let ghost b = self.boot_view();
        let ghost f0 = self.fat();
        let ghost d0 = self.disk();
        let ghost mut ov: Seq<int> = Seq::empty();
        let mut out: Vec<ClusterId> = Vec::new();
        proof {
            self.lemma_wf();
            lemma_free_set_finite(b, f0);
        }
        while out.len() < len
            invariant
                self.wf(),
                b == self.boot_view(),
                b == old(self).boot_view(),
                f0 == old(self).fat(),
                d0 == old(self).disk(),
                self.reliable() == old(self).reliable(),
                self.handles() == old(self).handles(),
                self.next_handle_value() == old(self).next_handle_value(),
                self.disk().len() == d0.len(),
                self.fat().len() == f0.len(),
                free_set(b, f0).finite(),
                max_cluster(b) >= 2,
                out@.len() <= len,
                ov.len() == out@.len(),
                forall|i: int| 0 <= i < ov.len() ==> #[trigger] ov[i] == out@[i].0,
                forall|i: int| 0 <= i < ov.len() ==> in_data(b, #[trigger] ov[i]) && f0[ov[i]] is Free,
                forall|i: int, j: int| 0 <= i < j < ov.len() ==> #[trigger] ov[i] < #[trigger] ov[j],
                forall|x: int|
                    in_data(b, x) && f0[x] is Free && ov.len() > 0 && x <= ov[ov.len() - 1] ==> ov.contains(x),
                forall|x: int|
                    0 <= x < f0.len() ==> #[trigger] self.fat()[x] == if ov.contains(x) {
                        FatEntry::EndOfChain
                    } else {
                        f0[x]
                    },
                forall|i: int| 0 <= i < ov.len() ==> cluster_bytes(b, self.disk(), #[trigger] ov[i]) == zeros(cluster_size(b)),
                forall|j: int|
                    0 <= j < d0.len() && (forall|i: int| 0 <= i < ov.len() ==> !block_in_cluster(b, #[trigger] ov[i], j))
                        ==> #[trigger] self.disk()[j] == d0[j],
                ov.len() > 0 ==> self.dirty(),
                ov.len() == 0 ==> self.dirty() == old(self).dirty() && self.disk() == d0,
            decreases len - out@.len(),
        {
            let found = self.first_free_cluster();
            let c = match found {
                None => {
                    proof {
                        self.lemma_wf();
                        assert(free_set(b, f0).subset_of(ov.to_set())) by {
                            assert forall|x: int| free_set(b, f0).contains(x) implies ov.to_set().contains(x) by {
                                if !ov.contains(x) {
                                    assert(self.fat()[x] == f0[x]);
                                    assert(free_set(b, self.fat()).contains(x));
                                }
                            }
                        }
                        assert(ov.no_duplicates());
                        ov.unique_seq_to_set();
                        vstd::set_lib::lemma_len_subset(free_set(b, f0), ov.to_set());
                        self.lemma_alloc_frame(b, f0, d0, ov);
                        if ov.len() == 0 {
                            assert(self.fat() =~= f0);
                        }
                        assert forall|x: int| in_data(b, x) && f0[x] is Free implies ov.contains(x) by {
                            assert(free_set(b, f0).contains(x));
                            assert(ov.to_set().contains(x));
                        }
                        assert forall|x: int| 0 <= x < f0.len() implies #[trigger] self.fat()[x] == if in_data(b, x) && f0[x] is Free {
                            FatEntry::EndOfChain
                        } else {
                            f0[x]
                        } by {
                            if ov.contains(x) {
                                let i = choose|i: int| 0 <= i < ov.len() && ov[i] == x;
                                assert(in_data(b, ov[i]) && f0[ov[i]] is Free);
                            }
                        }
                        assert forall|x: int| in_data(b, x) && f0[x] is Free implies cluster_bytes(b, self.disk(), x) == zeros(cluster_size(b)) by {
                            let i = choose|i: int| 0 <= i < ov.len() && ov[i] == x;
                            assert(cluster_bytes(b, self.disk(), ov[i]) == zeros(cluster_size(b)));
                        }
                    }
                    return Err(FsError::NoSpace);
                },
                Some(c) => c,
            };
            let ghost cx = c.0 as int;
            proof {
                self.lemma_wf();
                if ov.contains(cx) {
                    assert(self.fat()[cx] is EndOfChain);
                }
                assert(f0[cx] is Free);
                if ov.len() > 0 {
                    let last = ov[ov.len() - 1];
                    if cx <= last {
                        assert(ov.contains(cx));
                    }
                }
            }
            let ghost d1 = self.disk();
            let _ = self.write_fat(c, FatEntry::EndOfChain);
            let zr = self.zero_cluster(c);
            if zr.is_err() {
                proof {
                    let d2 = self.disk();
                    assert forall|x: int|
                        0 <= x < f0.len() && !(f0[x] is Free) implies #[trigger] self.fat()[x] == f0[x] by {
                        if ov.contains(x) {
                            let i = choose|i: int| 0 <= i < ov.len() && ov[i] == x;
                        }
                    }
                    assert forall|j: int|
                        0 <= j < d0.len() && (forall|c2: int|
                            in_data(b, c2) && f0[c2] is Free ==> !block_in_cluster(b, c2, j)) implies #[trigger] d2[j]
                        == d0[j] by {
                        assert(!block_in_cluster(b, cx, j));
                        assert forall|i: int| 0 <= i < ov.len() implies !block_in_cluster(b, #[trigger] ov[i], j) by {
                            assert(in_data(b, ov[i]) && f0[ov[i]] is Free);
                        }
                        assert(d2[j] == d1[j]);
                    }
                }
                return Err(zr.unwrap_err());
            }
            let ghost ov0 = ov;
            out.push(c);
            proof {
                ov = ov.push(cx);
                let d2 = self.disk();
                assert forall|x: int| 0 <= x < f0.len() implies #[trigger] self.fat()[x] == if ov.contains(x) {
                    FatEntry::EndOfChain
                } else {
                    f0[x]
                } by {
                    if ov0.contains(x) {
                        let i = choose|i: int| 0 <= i < ov0.len() && ov0[i] == x;
                        assert(ov[i] == x);
                    }
                    if ov.contains(x) && x != cx {
                        let i = choose|i: int| 0 <= i < ov.len() && ov[i] == x;
                        assert(ov0[i] == x);
                    }
                    if x == cx {
                        assert(ov[ov.len() - 1] == cx);
                    }
                }
                assert forall|x: int|
                    in_data(b, x) && f0[x] is Free && ov.len() > 0 && x <= ov[ov.len() - 1] implies ov.contains(x) by {
                    if x == cx {
                        assert(ov[ov.len() - 1] == cx);
                    } else if x < cx {
                        if !ov0.contains(x) {
                            assert(self.fat()[x] == f0[x]);
                        }
                        let i = choose|i: int| 0 <= i < ov0.len() && ov0[i] == x;
                        assert(ov[i] == x);
                    }
                }
                assert forall|i: int| 0 <= i < ov.len() implies cluster_bytes(b, d2, #[trigger] ov[i]) == zeros(cluster_size(b)) by {
                    if i < ov0.len() {
                        assert(ov[i] == ov0[i]);
                        assert(ov0[i] < cx);
                        lemma_cluster_unchanged(b, d1, d2, cx, ov[i]);
                    }
                }
                assert forall|j: int|
                    0 <= j < d0.len() && (forall|i: int| 0 <= i < ov.len() ==> !block_in_cluster(b, #[trigger] ov[i], j))
                        implies #[trigger] d2[j] == d0[j] by {
                    assert(!block_in_cluster(b, ov[ov.len() - 1], j));
                    assert forall|i: int| 0 <= i < ov0.len() implies !block_in_cluster(b, #[trigger] ov0[i], j) by {
                        assert(ov[i] == ov0[i]);
                    }
                    assert(d2[j] == d1[j]);
                }
            }
        }
        proof {
            assert forall|x: int| ov.contains(x) <==> exists|i: int| 0 <= i < len && #[trigger] out@[i].0 == x by {
                if ov.contains(x) {
                    let i = choose|i: int| 0 <= i < ov.len() && ov[i] == x;
                    assert(out@[i].0 == x);
                }
                if exists|i: int| 0 <= i < len && #[trigger] out@[i].0 == x {
                    let i = choose|i: int| 0 <= i < len && #[trigger] out@[i].0 == x;
                    assert(ov[i] == x);
                }
            }
            assert forall|x: int|
                in_data(b, x) && f0[x] is Free && len > 0 && x <= out@[len - 1].0 implies exists|i: int|
                    0 <= i < len && #[trigger] out@[i].0 == x by {
                assert(ov[len - 1] == out@[len - 1].0);
                assert(ov.contains(x));
            }
            assert forall|i: int| 0 <= i < len implies cluster_bytes(b, self.disk(), #[trigger] out@[i].0 as int) == zeros(
                cluster_size(b),
            ) by {
                assert(ov[i] == out@[i].0);
            }
            assert forall|i: int, j: int| 0 <= i < j < len implies #[trigger] out@[i].0 < #[trigger] out@[j].0 by {
                assert(ov[i] == out@[i].0 && ov[j] == out@[j].0);
            }
            self.lemma_alloc_frame(b, f0, d0, ov);
            assert forall|i: int| 0 <= i < len implies in_data(b, #[trigger] out@[i].0 as int) && f0[out@[i].0 as int] is Free by {
                assert(ov[i] == out@[i].0);
            }
            assert forall|x: int|
                0 <= x < f0.len() implies #[trigger] self.fat()[x] == if exists|i: int|
                    0 <= i < len && #[trigger] out@[i].0 == x {
                    FatEntry::EndOfChain
                } else {
                    f0[x]
                } by {
                assert(ov.contains(x) <==> exists|i: int| 0 <= i < len && #[trigger] out@[i].0 == x);
            }
            assert forall|j: int|
                0 <= j < d0.len() && (forall|i: int| 0 <= i < len ==> !block_in_cluster(b, #[trigger] out@[i].0 as int, j))
                    implies #[trigger] self.disk()[j] == d0[j] by {
                assert forall|i: int| 0 <= i < ov.len() implies !block_in_cluster(b, #[trigger] ov[i], j) by {
                    assert(ov[i] == out@[i].0);
                }
            }
        }
        Ok(out)
    }
}


impl<D: BufferedBlockDevice> MyFileSystem<D> {
    /// Releases the chain from `start`: each of its clusters is marked free and filled with zeros.
    ///
    /// A start of 0 is the empty chain. Where the chain is broken, the clusters before the break
    /// are released and the error is returned.
    pub(crate) fn free_chain_from(&mut self, start: ClusterId) -> (r: Result<(), FsError>)
        requires
            old(self).wf(),
        ensures
            crate::myfs::meta_kept(old(self).boot_view(), old(self).disk(), final(self).disk()),
            final(self).wf(),
            final(self).boot_view() == old(self).boot_view(),
            final(self).reliable() == old(self).reliable(),
            final(self).handles() == old(self).handles(),
            final(self).next_handle_value() == old(self).next_handle_value(),
            final(self).disk().len() == old(self).disk().len(),
            final(self).dirty() == old(self).dirty() || final(self).dirty(),
            exists|m: nat|
                #![trigger freed(old(self).fat(), start.0 as int, m)]
                {
                let b = old(self).boot_view();
                let f0 = old(self).fat();
                let s = start.0 as int;
                &&& iter_ok(b, f0, s, m)
                &&& final(self).fat() == freed(f0, s, m)
                &&& (r is Ok ==> forall|k: int| 0 <= k < m ==> cluster_bytes(b, final(self).disk(), #[trigger] nth(f0, s, k as nat)) == zeros(cluster_size(b)))
                &&& forall|j: int|
                    0 <= j < old(self).disk().len() && !block_in_chain(b, f0, s, m, j) ==> #[trigger] final(self).disk()[j]
                        == old(self).disk()[j]
                &&& (r is Ok && start.0 != 0 ==> chain_ends(b, f0, s, m))
                &&& (start.0 == 0 ==> m == 0)
                &&& (m == 0 ==> final(self).dirty() == old(self).dirty())
            },
            start.0 != 0 && !(exists|n: nat| chain_ends(old(self).boot_view(), old(self).fat(), start.0 as int, n)) ==> r is Err,
            old(self).reliable() && (start.0 == 0 || exists|n: nat| chain_ends(old(self).boot_view(), old(self).fat(), start.0 as int, n))
                ==> r is Ok,
            r is Ok ==> forall|k: int|
                0 <= k < chain_len(old(self).boot_view(), old(self).fat(), start.0 as int) ==> cluster_bytes(
                    old(self).boot_view(),
                    final(self).disk(),
                    #[trigger] nth(old(self).fat(), start.0 as int, k as nat),
                ) == zeros(cluster_size(old(self).boot_view())),
            old(self).reliable() && r is Err ==> r->Err_0 is CorruptFs,
    {
        let ghost b = self.boot_view();
        let ghost f0 = self.fat();
        let ghost d0 = self.disk();
        let ghost s = start.0 as int;
        proof {
            self.lemma_wf();
            assert(follow(f0, s, 0) =~= Seq::<int>::empty());
            assert(freed(f0, s, 0) =~= f0);
        }
        let mut it = match ChainIter::new(self, start) {
            Ok(it) => it,
            Err(e) => {
                proof {
                    assert forall|n: nat| !chain_ends(b, f0, s, n) by {
                        if chain_ends(b, f0, s, n) {
                            assert(in_data(b, nth(f0, s, (0int) as nat)));
                        }
                    }
                    assert(iter_ok(b, f0, s, 0));
                }
                return Err(e);
            },
        };
        let mut clusters: Vec<ClusterId> = Vec::new();
        let mut failure: Option<FsError> = None;
        loop
            invariant_except_break
                !it.has_failed(),
                failure is None,
            invariant
                self.wf(),
                b == self.boot_view(),
                f0 == self.fat(),
                s == start.0,
                it.inv(),
                it.fs_view().boot_view() == b,
                it.fs_view().fat() == f0,
                it.start_view() == s,
                clusters@.len() == it.yielded(),
                clusters@.len() < max_cluster(b),
                s == 0 ==> it.done() && clusters@.len() == 0,
                forall|k: int| 0 <= k < clusters@.len() ==> #[trigger] clusters@[k].0 == nth(f0, s, k as nat),
            ensures
                it.inv(),
                it.fs_view().boot_view() == b,
                it.fs_view().fat() == f0,
                it.start_view() == s,
                clusters@.len() == it.yielded(),
                s == 0 ==> clusters@.len() == 0 && failure is None,
                forall|k: int| 0 <= k < clusters@.len() ==> #[trigger] clusters@[k].0 == nth(f0, s, k as nat),
                failure is None ==> s == 0 || chain_ends(b, f0, s, clusters@.len()),
                failure matches Some(e) ==> e is CorruptFs && forall|n: nat| !chain_ends(b, f0, s, n),
            decreases max_cluster(b) - clusters@.len(),
        {
            proof {
                it.lemma_inv();
            }
            match it.next() {
                None => {
                    break;
                },
                Some(Err(e)) => {
                    proof {
                        lemma_no_chain_end(b, f0, s, clusters@.len() as nat);
                    }
                    failure = Some(e);
                    break;
                },
                Some(Ok(c)) => {
                    proof {
                        it.lemma_inv();
                        lemma_chain_len_bound(b, f0, s, it.yielded());
                    }
                    clusters.push(c);
                },
            }
        }
        proof {
            it.lemma_inv();
        }
        let ghost n = clusters@.len();
        let mut i: usize = 0;
        while i < clusters.len()
            invariant
                self.wf(),
                b == self.boot_view(),
                b == old(self).boot_view(),
                d0 == old(self).disk(),
                f0 == old(self).fat(),
                s == start.0,
                self.reliable() == old(self).reliable(),
                self.handles() == old(self).handles(),
                self.next_handle_value() == old(self).next_handle_value(),
                self.disk().len() == d0.len(),
                n == clusters@.len(),
                s == 0 ==> n == 0,
                iter_ok(b, f0, s, n),
                i <= n,
                forall|k: int| 0 <= k < n ==> #[trigger] clusters@[k].0 == nth(f0, s, k as nat),
                self.fat() == freed(f0, s, i as nat),
                forall|k: int| 0 <= k < i ==> cluster_bytes(b, self.disk(), #[trigger] nth(f0, s, k as nat)) == zeros(cluster_size(b)),
                forall|j: int| 0 <= j < d0.len() && !block_in_chain(b, f0, s, i as nat, j) ==> #[trigger] self.disk()[j] == d0[j],
                i == 0 ==> self.dirty() == old(self).dirty(),
                i > 0 ==> self.dirty(),
            decreases n - i,
        {
            let c = clusters[i];
            let ghost k = i as nat;
            proof {
                self.lemma_wf();
                let kk: int = k as int;
                assert(in_data(b, nth(f0, s, kk as nat)));
                lemma_follow_push(f0, s, k);
            }
            let _ = self.write_fat(c, FatEntry::Free);
            proof {
                assert(self.fat() =~= freed(f0, s, k + 1)) by {
                    assert forall|x: int| 0 <= x < f0.len() implies #[trigger] self.fat()[x] == freed(f0, s, k + 1)[x] by {
                        if x == c.0 {
                            assert(follow(f0, s, k + 1)[k as int] == x);
                        } else {
                            if follow(f0, s, k + 1).contains(x) {
                                let t = choose|t: int| 0 <= t < k + 1 && #[trigger] follow(f0, s, k + 1)[t] == x;
                                assert(follow(f0, s, k)[t] == x);
                            }
                            if follow(f0, s, k).contains(x) {
                                let t = choose|t: int| 0 <= t < k && #[trigger] follow(f0, s, k)[t] == x;
                                assert(follow(f0, s, k + 1)[t] == x);
                            }
                        }
                    }
                }
            }
            let ghost d1 = self.disk();
            let res = self.zero_cluster(c);
            let ghost d2 = self.disk();
            proof {
                lemma_chain_write_frame(b, f0, s, 0, k, c.0 as int, d0, d1, d2);
                lemma_iter_ok_prefix(b, f0, s, n, k + 1);
                assert(self.fat() == freed(f0, s, k + 1));
            }
            if res.is_err() {
                return res;
            }
            proof {
                assert forall|t: int| 0 <= t < k + 1 implies cluster_bytes(b, d2, #[trigger] nth(f0, s, t as nat)) == zeros(
                    cluster_size(b),
                ) by {
                    if t < k {
                        let f = follow(f0, s, n);
                        assert(f[t] == nth(f0, s, t as nat));
                        assert(f[k as int] == c.0);
                        assert(in_data(b, nth(f0, s, t as nat)));
                        lemma_cluster_unchanged(b, d1, d2, c.0 as int, nth(f0, s, t as nat));
                    }
                }
            }
            i += 1;
        }
        proof {
            if failure is None && s != 0 {
                lemma_chain_ends_unique(b, f0, s, n as nat, chain_len(b, f0, s));
            }
        }
        match failure {
            Some(e) => Err(e),
            None => Ok(()),
        }
    }
}


/// The bytes of a chain after new zeroed clusters were linked after its end.
proof fn lemma_extension_bytes(
    b: BootSector,
    f0: Seq<FatEntry>,
    f2: Seq<FatEntry>,
    s: int,
    s2: int,
    cur: nat,
    ext: Seq<int>,
    d0: Seq<Seq<u8>>,
    d2: Seq<Seq<u8>>,
)
    requires
        geo_wf(b),
        extended_links(b, f0, f2, s, s2, cur, ext),
        d0.len() >= b.block_count,
        d2.len() == d0.len(),
        forall|j: int|
            0 <= j < d0.len() && (forall|i: int| 0 <= i < ext.len() ==> !block_in_cluster(b, #[trigger] ext[i], j))
                ==> #[trigger] d2[j] == d0[j],
        forall|i: int| 0 <= i < ext.len() ==> cluster_bytes(b, d2, #[trigger] ext[i]) == zeros(cluster_size(b)),
    ensures
        forall|p: int|
            0 <= p < cur * cluster_size(b) ==> #[trigger] chain_byte(b, d2, f2, s2, p) == chain_byte(b, d0, f0, s, p),
        forall|p: int|
            cur * cluster_size(b) <= p < (cur + ext.len()) * cluster_size(b) ==> #[trigger] chain_byte(b, d2, f2, s2, p)
                == 0,
{
    let cs = cluster_size(b);
    lemma_extended_chain(b, f0, f2, s, s2, cur, ext);
    assert forall|p: int| 0 <= p < cur * cs implies #[trigger] chain_byte(b, d2, f2, s2, p) == chain_byte(b, d0, f0, s, p) by {
        assert(cs * cur == cur * cs) by (nonlinear_arith);
        vstd::arithmetic::div_mod::lemma_multiply_divide_lt(p, cs, cur as int);
        vstd::arithmetic::div_mod::lemma_div_pos_is_pos(p, cs);
        let q = (p / cs) as nat;
        let c = nth(f0, s, q);
        assert(nth(f2, s2, q) == c);
        let qq: int = q as int;
        assert(in_data(b, nth(f0, s, qq as nat)));
        lemma_cluster_range(b, c);
        assert forall|j: int| first_block(b, c) <= j < first_block(b, c) + bpc(b) implies #[trigger] d2[j] == d0[j] by {
            assert forall|i: int| 0 <= i < ext.len() implies !block_in_cluster(b, #[trigger] ext[i], j) by {
                assert(follow(f0, s, cur)[qq] == c);
                lemma_clusters_disjoint(b, c, ext[i], j);
            }
        }
        lemma_concat_blocks_agree(d2, d0, first_block(b, c), bpc(b) as nat);
    }
    assert forall|p: int| cur * cs <= p < (cur + ext.len()) * cs implies #[trigger] chain_byte(b, d2, f2, s2, p) == 0 by {
        let e = ext.len() as int;
        assert(cs * (cur + e) == (cur + e) * cs) by (nonlinear_arith);
        vstd::arithmetic::div_mod::lemma_multiply_divide_lt(p, cs, cur + e);
        assert(cur * cs == cs * cur) by (nonlinear_arith);
        vstd::arithmetic::div_mod::lemma_div_is_ordered(cur * cs, p, cs);
        vstd::arithmetic::div_mod::lemma_div_multiples_vanish(cur as int, cs);
        vstd::arithmetic::div_mod::lemma_mod_pos_bound(p, cs);
        let q = (p / cs) as nat;
        assert(nth(f2, s2, q) == ext[q - cur]);
        assert(cluster_bytes(b, d2, ext[q - cur]) == zeros(cs));
    }
}

impl<D: BufferedBlockDevice> MyFileSystem<D> {
    /// Makes the chain of `fcb` hold at least `needed` clusters, by linking newly allocated
    /// clusters after its end.
    pub(crate) fn ensure_fcb_capacity(&mut self, fcb: Fcb, needed: usize) -> (r: Result<Fcb, FsError>)
        requires
            old(self).wf(),
        ensures
            crate::myfs::meta_kept(old(self).boot_view(), old(self).disk(), final(self).disk()),
            final(self).wf(),
            final(self).boot_view() == old(self).boot_view(),
            final(self).reliable() == old(self).reliable(),
            final(self).handles() == old(self).handles(),
            final(self).next_handle_value() == old(self).next_handle_value(),
            final(self).disk().len() == old(self).disk().len(),
            final(self).fat().len() == old(self).fat().len(),
            forall|x: int|
                0 <= x < old(self).fat().len() && !(old(self).fat()[x] is Free) && !follow(
                    old(self).fat(),
                    fcb.start_cluster.0 as int,
                    chain_len(old(self).boot_view(), old(self).fat(), fcb.start_cluster.0 as int),
                ).contains(x) ==> #[trigger] final(self).fat()[x] == old(self).fat()[x],
            forall|j: int|
                0 <= j < old(self).disk().len() && (forall|c: int|
                    in_data(old(self).boot_view(), c) && old(self).fat()[c] is Free ==> !block_in_cluster(
                        old(self).boot_view(),
                        c,
                        j,
                    )) ==> #[trigger] final(self).disk()[j] == old(self).disk()[j],
            r matches Ok(f2) ==> {
                let b = old(self).boot_view();
                let f0 = old(self).fat();
                let s = fcb.start_cluster.0 as int;
                let cur = chain_len(b, f0, s);
                let k: nat = if needed > cur { needed as nat } else { cur };
                &&& has_chain(b, f0, s)
                &&& f2 == (Fcb { start_cluster: f2.start_cluster, ..fcb })
                &&& (s != 0 ==> f2.start_cluster == fcb.start_cluster)
                &&& (k == 0 ==> f2.start_cluster.0 == 0)
                &&& (k > 0 ==> chain_ends(b, final(self).fat(), f2.start_cluster.0 as int, k))
                &&& forall|j: int| 0 <= j < cur ==> #[trigger] nth(final(self).fat(), f2.start_cluster.0 as int, j as nat) == nth(f0, s, j as nat)
                &&& forall|j: int| cur <= j < k ==> f0[#[trigger] nth(final(self).fat(), f2.start_cluster.0 as int, j as nat)] is Free
                &&& (forall|p: int|
                    0 <= p < cur * cluster_size(b) ==> #[trigger] chain_byte(
                        b,
                        final(self).disk(),
                        final(self).fat(),
                        f2.start_cluster.0 as int,
                        p,
                    ) == chain_byte(b, old(self).disk(), f0, s, p))
                &&& (forall|p: int|
                    cur * cluster_size(b) <= p < k * cluster_size(b) ==> #[trigger] chain_byte(
                        b,
                        final(self).disk(),
                        final(self).fat(),
                        f2.start_cluster.0 as int,
                        p,
                    ) == 0)
                &&& (needed <= cur ==> f2 == fcb && final(self).fat() == f0 && final(self).disk() == old(self).disk()
                    && final(self).dirty() == old(self).dirty())
                &&& (needed > cur ==> final(self).dirty())
            },
            r matches Err(e) ==> !old(self).reliable() || (e is CorruptFs && !has_chain(
                old(self).boot_view(),
                old(self).fat(),
                fcb.start_cluster.0 as int,
            )) || (e is NoSpace && has_chain(old(self).boot_view(), old(self).fat(), fcb.start_cluster.0 as int)
                && free_set(old(self).boot_view(), old(self).fat()).len() < needed - chain_len(
                old(self).boot_view(),
                old(self).fat(),
                fcb.start_cluster.0 as int,
            )),
            !has_chain(old(self).boot_view(), old(self).fat(), fcb.start_cluster.0 as int) ==> r is Err,
            old(self).reliable() && has_chain(old(self).boot_view(), old(self).fat(), fcb.start_cluster.0 as int) && (
            needed <= chain_len(old(self).boot_view(), old(self).fat(), fcb.start_cluster.0 as int) || free_set(
                old(self).boot_view(),
                old(self).fat(),
            ).len() >= needed - chain_len(old(self).boot_view(), old(self).fat(), fcb.start_cluster.0 as int)) ==> r is Ok,
    {
        let ghost b = self.boot_view();
        let ghost f0 = self.fat();
        let ghost d0 = self.disk();
        let ghost s = fcb.start_cluster.0 as int;
        proof {
            self.lemma_wf();
        }
        let (current, last) = self.chain_tail(fcb.start_cluster)?;
        let ghost cur = current as nat;
        proof {
            if s != 0 {
                lemma_chain_ends_unique(b, f0, s, cur, chain_len(b, f0, s));
            }
        }
        if needed <= current {
            return Ok(fcb);
        }
        let extra = self.allocate_clusters(needed - current)?;
        let ghost ext: Seq<int> = Seq::new(extra@.len(), |i: int| extra@[i].0 as int);
        let ghost f1 = self.fat();
        let ghost d1 = self.disk();
        proof {
            self.lemma_wf();
            assert forall|i: int| 0 <= i < ext.len() implies !follow(f0, s, cur).contains(#[trigger] ext[i]) by {
                assert(f0[ext[i]] is Free);
                if follow(f0, s, cur).contains(ext[i]) {
                    let t = choose|t: int| 0 <= t < cur && #[trigger] follow(f0, s, cur)[t] == ext[i];
                    let tt: int = t;
                    if t < cur - 1 {
                        assert(f0[nth(f0, s, tt as nat)] is Next);
                    } else {
                        assert(f0[nth(f0, s, (cur - 1) as nat)] is EndOfChain);
                    }
                }
            }
        }
        let ghost lastc = nth(f0, s, (cur - 1) as nat);
        proof {
            assert forall|i: int| 0 <= i < ext.len() implies in_data(b, #[trigger] ext[i]) && f0[ext[i]] is Free by {
                assert(ext[i] == extra@[i].0);
            }
            assert forall|i: int, j: int| 0 <= i < ext.len() && 0 <= j < ext.len() && i != j implies ext[i] != ext[j] by {
                if i < j {
                    assert(extra@[i].0 < extra@[j].0);
                } else {
                    assert(extra@[j].0 < extra@[i].0);
                }
            }
            assert forall|x: int| 0 <= x < f0.len() implies #[trigger] f1[x] == if ext.contains(x) {
                FatEntry::EndOfChain
            } else {
                f0[x]
            } by {
                if ext.contains(x) {
                    let i = choose|i: int| 0 <= i < ext.len() && ext[i] == x;
                    assert(extra@[i].0 == x);
                }
                if exists|i: int| 0 <= i < extra@.len() && #[trigger] extra@[i].0 == x {
                    let i = choose|i: int| 0 <= i < extra@.len() && #[trigger] extra@[i].0 == x;
                    assert(ext[i] == x);
                }
            }
            if cur > 0 {
                let kk: int = cur - 1;
                assert(follow(f0, s, cur)[kk] == lastc);
                assert(in_data(b, nth(f0, s, kk as nat)));
                assert(!ext.contains(lastc));
            }
        }
        let mut f2 = fcb;
        if current == 0 {
            f2.start_cluster = extra[0];
        } else {
            let lc = match last {
                Some(c) => c,
                None => fcb.start_cluster,
            };
            let _ = self.write_fat(lc, FatEntry::Next(extra[0]));
        }
        let ghost s2 = f2.start_cluster.0 as int;
        let n = extra.len();
        let mut idx: usize = 0;
        while idx < n
            invariant
                self.wf(),
                b == self.boot_view(),
                b == old(self).boot_view(),
                self.reliable() == old(self).reliable(),
                self.handles() == old(self).handles(),
                self.next_handle_value() == old(self).next_handle_value(),
                self.disk() == d1,
                self.fat().len() == f0.len(),
                f0.len() > max_cluster(b),
                self.dirty(),
                n == extra@.len(),
                n == ext.len(),
                idx <= n,
                ext.no_duplicates(),
                forall|i: int| 0 <= i < n ==> #[trigger] ext[i] == extra@[i].0,
                forall|i: int| 0 <= i < n ==> in_data(b, #[trigger] ext[i]) && f0[ext[i]] is Free,
                forall|i: int|
                    0 <= i < n ==> #[trigger] self.fat()[ext[i]] == if i < idx {
                        if i + 1 < n {
                            FatEntry::Next(ClusterId(ext[i + 1] as u16))
                        } else {
                            FatEntry::EndOfChain
                        }
                    } else {
                        FatEntry::EndOfChain
                    },
                forall|x: int|
                    0 <= x < f0.len() && !ext.contains(x) ==> #[trigger] self.fat()[x] == if cur > 0 && x == lastc {
                        FatEntry::Next(ClusterId(ext[0] as u16))
                    } else {
                        f0[x]
                    },
            decreases n - idx,
        {
            let next = if idx + 1 < n {
                FatEntry::Next(extra[idx + 1])
            } else {
                FatEntry::EndOfChain
            };
            let ghost fa = self.fat();
            proof {
                assert(in_data(b, ext[idx as int]));
            }
            let _ = self.write_fat(extra[idx], next);
            proof {
                let e = ext[idx as int];
                assert forall|i: int| 0 <= i < n implies #[trigger] self.fat()[ext[i]] == if i < idx + 1 {
                    if i + 1 < n {
                        FatEntry::Next(ClusterId(ext[i + 1] as u16))
                    } else {
                        FatEntry::EndOfChain
                    }
                } else {
                    FatEntry::EndOfChain
                } by {
                    if i != idx {
                        assert(ext[i] != e);
                        assert(self.fat()[ext[i]] == fa[ext[i]]);
                    }
                }
                assert forall|x: int| 0 <= x < f0.len() && !ext.contains(x) implies #[trigger] self.fat()[x] == if cur > 0
                    && x == lastc {
                    FatEntry::Next(ClusterId(ext[0] as u16))
                } else {
                    f0[x]
                } by {
                    assert(x != e);
                    assert(self.fat()[x] == fa[x]);
                }
            }
            idx += 1;
        }
        proof {
            let f2s = self.fat();
            assert forall|k: int| 0 <= k < cur - 1 implies #[trigger] f2s[nth(f0, s, k as nat)] == f0[nth(f0, s, k as nat)] by {
                let c = nth(f0, s, k as nat);
                assert(follow(f0, s, cur)[k] == c);
                assert(!ext.contains(c));
                let kk: int = cur - 1;
                assert(follow(f0, s, cur)[kk] == lastc);
                assert(in_data(b, c));
            }
            if cur > 0 {
                let kk: int = cur - 1;
                assert(follow(f0, s, cur)[kk] == lastc);
                assert(in_data(b, nth(f0, s, kk as nat)));
            }
            assert(extended_links(b, f0, f2s, s, s2, cur, ext));
            lemma_extended_chain(b, f0, f2s, s, s2, cur, ext);
            assert forall|j: int| 0 <= j < cur implies #[trigger] nth(f2s, s2, j as nat) == nth(f0, s, j as nat) by {
                assert(nth(f2s, s2, j as nat) == nth(f0, s, j as nat));
            }
            assert forall|j: int| cur <= j < cur + ext.len() implies f0[#[trigger] nth(f2s, s2, j as nat)] is Free by {
                assert(nth(f2s, s2, j as nat) == ext[j - cur]);
            }
            assert forall|j: int|
                0 <= j < d0.len() && (forall|i: int| 0 <= i < ext.len() ==> !block_in_cluster(b, #[trigger] ext[i], j))
                    implies #[trigger] d1[j] == d0[j] by {
                assert forall|i: int| 0 <= i < extra@.len() implies !block_in_cluster(b, #[trigger] extra@[i].0 as int, j) by {
                    assert(ext[i] == extra@[i].0);
                }
            }
            assert forall|i: int| 0 <= i < ext.len() implies cluster_bytes(b, d1, #[trigger] ext[i]) == zeros(cluster_size(b)) by {
                assert(ext[i] == extra@[i].0);
            }
            lemma_extension_bytes(b, f0, f2s, s, s2, cur, ext, d0, d1);
            assert forall|x: int|
                0 <= x < f0.len() && !(f0[x] is Free) && !follow(f0, s, cur).contains(x) implies #[trigger] f2s[x] == f0[x] by {
                if ext.contains(x) {
                    let i = choose|i: int| 0 <= i < ext.len() && ext[i] == x;
                }
                if cur > 0 && x == lastc {
                    let kk: int = cur - 1;
                    assert(follow(f0, s, cur)[kk] == lastc);
                }
            }
        }
        Ok(f2)
    }
}

} // verus!
