//! Walking cluster chains through the FAT.

use vstd::prelude::*;

use crate::dev::BufferedBlockDevice;
use crate::error::FsError;
use crate::fat::FatEntry;
use crate::fs::ClusterId;
use std::collections::HashSet;
use crate::layout::chain_ends;
use crate::layout::chain_ok;
use crate::layout::lemma_chain_ok_prefix;
use crate::layout::follow;
use crate::layout::in_data;
use crate::layout::iter_ok;
use crate::layout::lemma_chain_len_bound;
use crate::layout::lemma_chain_ok_extend;
use crate::layout::lemma_follow_push;
use crate::layout::lemma_nth_step;
use crate::layout::lemma_no_chain_end;
use crate::layout::lemma_short_chain;
use crate::layout::lemma_ceil_div;
use crate::layout::lemma_div_mod_step;
use crate::layout::clusters_for;
use crate::layout::chain_byte;
use crate::layout::cluster_size;
use crate::layout::block_in_chain;
use crate::layout::block_in_walk;
use crate::layout::block_in_cluster;
use crate::layout::bpc;
use crate::layout::cluster_bytes;
use crate::layout::first_block;
use crate::layout::geo_wf;
use crate::layout::lemma_pos_in_cluster;
use crate::fs::BootSector;
use crate::myfs::lemma_cluster_range;
use crate::myfs::lemma_cluster_unchanged;
use crate::myfs::lemma_clusters_disjoint;
use crate::myfs::only_cluster_changed;
use crate::dev::lemma_concat_blocks_agree;
use crate::layout::max_cluster;
use crate::layout::nth;
use crate::myfs::MyFileSystem;

verus! {

broadcast use {vstd::std_specs::hash::group_hash_axioms, crate::myfs::lemma_meta_block_not_in_cluster};

/// An iterator for [`ClusterId`]s in a FAT chain.
pub struct ChainIter<'a, D: BufferedBlockDevice> {
    /// The underlying filesystem.
    fs: &'a MyFileSystem<D>,
    /// Starting cluster ID.
    start: ClusterId,
    /// Current cursor position.
    cursor: Option<ClusterId>,
    /// Visited clusters, for loop detection.
    visited: HashSet<u16>,
    /// Number of clusters yielded so far.
    count: usize,
    /// Has the walk stopped on an error?
    failed: bool,
}

proof fn lemma_visited_push(fat: Seq<FatEntry>, s: int, k: nat, v0: Set<u16>, v1: Set<u16>)
    requires
        0 <= nth(fat, s, k) < 0x10000,
        v1 == v0.insert(nth(fat, s, k) as u16),
        forall|x: u16| #[trigger] v0.contains(x) == follow(fat, s, k).contains(x as int),
    ensures
        forall|x: u16| #[trigger] v1.contains(x) == follow(fat, s, k + 1).contains(x as int),
{
    lemma_follow_push(fat, s, k);
    assert forall|x: u16| #[trigger] v1.contains(x) == follow(fat, s, k + 1).contains(x as int) by {
        if x as int == nth(fat, s, k) {
            assert(follow(fat, s, k + 1)[k as int] == x as int);
        } else {
            assert(v1.contains(x) == v0.contains(x));
            if follow(fat, s, k).contains(x as int) {
                let i = choose|i: int| 0 <= i < k && #[trigger] follow(fat, s, k)[i] == x as int;
                assert(follow(fat, s, k + 1)[i] == x as int);
            }
            if follow(fat, s, k + 1).contains(x as int) {
                let i = choose|i: int| 0 <= i < k + 1 && #[trigger] follow(fat, s, k + 1)[i] == x as int;
                assert(follow(fat, s, k)[i] == x as int);
            }
        }
    }
}

impl<'a, D: BufferedBlockDevice> ChainIter<'a, D> {
    pub closed spec fn fs_view(&self) -> &'a MyFileSystem<D> {
        self.fs
    }

    pub closed spec fn start_view(&self) -> int {
        self.start.0 as int
    }

    /// Number of clusters yielded so far.
    pub closed spec fn yielded(&self) -> nat {
        self.count as nat
    }

    /// Has the walk stopped on an error?
    pub closed spec fn has_failed(&self) -> bool {
        self.failed
    }

    /// Is the walk over?
    pub closed spec fn done(&self) -> bool {
        self.cursor is None
    }

    pub closed spec fn inv(&self) -> bool {
        let b = self.fs.boot_view();
        let fat = self.fs.fat();
        let s = self.start.0 as int;
        let k = self.count as nat;
        &&& self.fs.wf()
        &&& iter_ok(b, fat, s, k)
        &&& forall|x: u16| #[trigger] self.visited@.contains(x) == follow(fat, s, k).contains(x as int)
        &&& match self.cursor {
            Some(c) => {
                &&& c.0 == nth(fat, s, k)
                &&& k > 0 ==> fat[nth(fat, s, (k - 1) as nat)] is Next
                &&& k == 0 ==> s != 0
                &&& !self.failed
            },
            None => self.failed || (k == 0 && s == 0) || chain_ends(b, fat, s, k),
        }
    }

    pub proof fn lemma_inv(&self)
        requires
            self.inv(),
        ensures
            self.fs_view().wf(),
            iter_ok(self.fs_view().boot_view(), self.fs_view().fat(), self.start_view(), self.yielded()),
            !self.done() ==> !self.has_failed() && (self.yielded() > 0 ==> self.fs_view().fat()[nth(
                self.fs_view().fat(),
                self.start_view(),
                (self.yielded() - 1) as nat,
            )] is Next) && (self.yielded() == 0 ==> self.start_view() != 0),
            self.done() ==> self.has_failed() || (self.yielded() == 0 && self.start_view() == 0)
                || chain_ends(
                self.fs_view().boot_view(),
                self.fs_view().fat(),
                self.start_view(),
                self.yielded(),
            ),
    {
    }

    /// Starts a walk at `start`; a start of 0 is the empty chain.
    pub fn new(fs: &'a MyFileSystem<D>, start: ClusterId) -> (r: Result<ChainIter<'a, D>, FsError>)
        requires
            fs.wf(),
        ensures
            start.0 == 0 || in_data(fs.boot_view(), start.0 as int) ==> r is Ok,
            !(start.0 == 0 || in_data(fs.boot_view(), start.0 as int)) ==> r is Err && r->Err_0 is CorruptFs,
            r matches Ok(it) ==> it.inv() && it.fs_view() == fs && it.start_view() == start.0
                && it.yielded() == 0 && !it.has_failed() && (it.done() <==> start.0 == 0),
    {
        if start.0 != ClusterId::FAT_FREE {
            let _ = fs.read_fat(start)?;
        }
        let visited: HashSet<u16> = HashSet::new();
        let cursor = if start.0 != ClusterId::FAT_FREE { Some(start) } else { None };
        let it = ChainIter { fs, start, cursor, visited, count: 0, failed: false };
        proof {
            assert(follow(fs.fat(), start.0 as int, 0) =~= Seq::<int>::empty());
        }
        Ok(it)
    }

    /// The next cluster of the chain, an error if the chain is broken, or `None` at its end.
    pub fn next(&mut self) -> (r: Option<Result<ClusterId, FsError>>)
        requires
            old(self).inv(),
        ensures
            final(self).inv(),
            final(self).fs_view() == old(self).fs_view(),
            final(self).start_view() == old(self).start_view(),
            old(self).done() ==> r is None && *final(self) == *old(self),
            !old(self).done() ==> r is Some,
            r matches Some(Ok(c)) ==> final(self).yielded() == old(self).yielded() + 1 && c.0 == nth(
                old(self).fs_view().fat(),
                old(self).start_view(),
                old(self).yielded(),
            ) && !final(self).has_failed(),
            r matches Some(Err(e)) ==> e is CorruptFs && final(self).done() && final(self).has_failed()
                && final(self).yielded() == old(self).yielded() && !iter_ok(
                old(self).fs_view().boot_view(),
                old(self).fs_view().fat(),
                old(self).start_view(),
                old(self).yielded() + 1,
            ),
    {
        let cursor = match self.cursor {
            None => return None,
            Some(c) => c,
        };
        let ghost b = self.fs.boot_view();
        let ghost fat = self.fs.fat();
        let ghost s = self.start.0 as int;
        let ghost k = self.count as nat;
        proof {
            self.fs.lemma_wf();
        }
        let entry = match self.fs.read_fat(cursor) {
            Ok(e) => e,
            Err(e) => {
                self.cursor = None;
                self.failed = true;
                return Some(Err(e));
            },
        };
        if self.visited.contains(&cursor.0) {
            self.cursor = None;
            self.failed = true;
            proof {
                assert(follow(fat, s, k).contains(cursor.0 as int));
                lemma_follow_push(fat, s, k);
                let f1 = follow(fat, s, k + 1);
                let i = choose|i: int| 0 <= i < k && follow(fat, s, k)[i] == cursor.0 as int;
                assert(f1[i] == f1[k as int]);
            }
            return Some(Err(FsError::CorruptFs(crate::report::numbered_text("FAT chain loop detected at ", cursor.0 as u64, ""))));
        }
        match entry {
            FatEntry::Free => {
                self.cursor = None;
                self.failed = true;
                Some(Err(FsError::CorruptFs(crate::report::numbered_text("cluster chain from ", self.start.0 as u64, " reaches free entry"))))
            },
            FatEntry::EndOfChain => {
                self.visited.insert(cursor.0);
                proof {
                    lemma_chain_ok_extend(b, fat, s, k);
                    lemma_chain_len_bound(b, fat, s, k + 1);
                    lemma_follow_push(fat, s, k);
                    lemma_visited_push(fat, s, k, old(self).visited@, self.visited@);
                }
                self.count = self.count + 1;
                self.cursor = None;
                Some(Ok(cursor))
            },
            FatEntry::Next(next) => {
                self.visited.insert(cursor.0);
                proof {
                    lemma_chain_ok_extend(b, fat, s, k);
                    lemma_chain_len_bound(b, fat, s, k + 1);
                    lemma_follow_push(fat, s, k);
                    lemma_nth_step(fat, s, k);
                    lemma_visited_push(fat, s, k, old(self).visited@, self.visited@);
                }
                self.count = self.count + 1;
                self.cursor = Some(next);
                Some(Ok(cursor))
            },
        }
    }
}

} // verus!

verus! {

/// Byte `p` of the data of a chain of `n` clusters is the chain's byte `p`.
pub proof fn lemma_chain_data_byte(b: BootSector, d: Seq<Seq<u8>>, fat: Seq<FatEntry>, s: int, n: nat, p: int)
    requires
        geo_wf(b),
        d.len() >= b.block_count,
        forall|j: int| 0 <= j < d.len() ==> #[trigger] d[j].len() == crate::layout::bs(b),
        chain_ok(b, fat, s, n),
        0 <= p < n * cluster_size(b),
    ensures
        crate::layout::chain_data(b, d, fat, s, n).len() == n * cluster_size(b),
        crate::layout::chain_data(b, d, fat, s, n)[p] == chain_byte(b, d, fat, s, p),
{
    let cs = cluster_size(b);
    let bss = Seq::new(n, |k: int| cluster_bytes(b, d, nth(fat, s, k as nat)));
    assert forall|m: int| 0 <= m < n implies #[trigger] bss[m].len() == cs by {
        let c = nth(fat, s, m as nat);
        assert(in_data(b, c));
        lemma_cluster_range(b, c);
        crate::dev::lemma_concat_blocks_len(d, first_block(b, c), bpc(b) as nat, crate::layout::bs(b) as nat);
        assert(bpc(b) * crate::layout::bs(b) == cs) by (nonlinear_arith)
            requires
                cs == crate::layout::bs(b) * bpc(b),
        ;
    }
    crate::dev::lemma_concat_blocks_len(bss, 0, n, cs as nat);
    assert(cs > 0) by (nonlinear_arith)
        requires
            cs == crate::layout::bs(b) * bpc(b),
            crate::layout::bs(b) >= 16,
            bpc(b) >= 1,
    ;
    let j = p / cs;
    let k = p % cs;
    assert(p == j * cs + k && 0 <= k < cs) by {
        vstd::arithmetic::div_mod::lemma_fundamental_div_mod(p, cs);
    }
    assert(0 <= j < n) by (nonlinear_arith)
        requires
            0 <= p < n * cs,
            j == p / cs,
            cs > 0,
    ;
    crate::dev::lemma_concat_blocks_index(bss, 0, n, cs as nat, j, k);
}

/// What a write of `data` at `offset` into a chain of `n` clusters leaves, as one sequence: the
/// chain's data before `offset`, then `data`, then the chain's data after it.
pub proof fn lemma_written_chain_data(
    b: BootSector,
    d0: Seq<Seq<u8>>,
    d1: Seq<Seq<u8>>,
    fat: Seq<FatEntry>,
    s: int,
    n: nat,
    offset: int,
    data: Seq<u8>,
)
    requires
        geo_wf(b),
        d0.len() >= b.block_count,
        d1.len() == d0.len(),
        forall|j: int| 0 <= j < d0.len() ==> #[trigger] d0[j].len() == crate::layout::bs(b),
        forall|j: int| 0 <= j < d1.len() ==> #[trigger] d1[j].len() == crate::layout::bs(b),
        chain_ok(b, fat, s, n),
        data.len() > 0,
        0 <= offset,
        offset + data.len() <= n * cluster_size(b),
        forall|j: int|
            0 <= j < d0.len() && !block_in_walk(b, fat, s, offset / cluster_size(b), clusters_for(b, offset + data.len()) as nat, j)
                ==> #[trigger] d1[j] == d0[j],
        forall|p: int|
            0 <= p < clusters_for(b, offset + data.len()) * cluster_size(b) ==> #[trigger] chain_byte(b, d1, fat, s, p) == if offset <= p
                < offset + data.len() {
                data[p - offset]
            } else {
                chain_byte(b, d0, fat, s, p)
            },
    ensures
        crate::layout::chain_data(b, d1, fat, s, n) == crate::layout::chain_data(b, d0, fat, s, n).take(offset)
            + data + crate::layout::chain_data(b, d0, fat, s, n).skip(offset + data.len()),
{
    let cs = cluster_size(b);
    let end = offset + data.len();
    let cf = clusters_for(b, end);
    let old_data = crate::layout::chain_data(b, d0, fat, s, n);
    let new_data = crate::layout::chain_data(b, d1, fat, s, n);
    let want = old_data.take(offset) + data + old_data.skip(end);
    assert(cs > 0) by (nonlinear_arith)
        requires
            cs == crate::layout::bs(b) * bpc(b),
            crate::layout::bs(b) >= 16,
            bpc(b) >= 1,
    ;
    lemma_chain_data_byte(b, d0, fat, s, n, 0);
    lemma_chain_data_byte(b, d1, fat, s, n, 0);
    assert(cf <= n && cf * cs >= end) by {
        lemma_ceil_div(end, cs);
        vstd::arithmetic::div_mod::lemma_fundamental_div_mod(end - 1, cs);
        assert(((end - 1) / cs) * cs <= end - 1) by (nonlinear_arith)
            requires
                ((end - 1) / cs) * cs + (end - 1) % cs == end - 1,
                (end - 1) % cs >= 0,
        ;
        assert(cf * cs == ((end - 1) / cs) * cs + cs) by (nonlinear_arith)
            requires
                cf == (end - 1) / cs + 1,
        ;
        assert(cf * cs < end + cs);
        assert(cf * cs >= end);
        assert(cf < n + 1) by (nonlinear_arith)
            requires
                cf * cs < end + cs,
                end <= n * cs,
                cs > 0,
        ;
    }
    assert forall|p: int| 0 <= p < n * cs implies #[trigger] new_data[p] == want[p] by {
        lemma_chain_data_byte(b, d0, fat, s, n, p);
        lemma_chain_data_byte(b, d1, fat, s, n, p);
        assert(old_data.len() == n * cs);
        if p < offset {
            assert(want[p] == old_data[p]);
        } else if p < end {
            assert(want[p] == data[p - offset]);
        } else {
            assert(want[p] == old_data.skip(end)[p - end]);
            assert(want[p] == old_data[p]);
        }
        if p < cf * cs {
            assert(chain_byte(b, d1, fat, s, p) == if offset <= p < end {
                data[p - offset]
            } else {
                chain_byte(b, d0, fat, s, p)
            });
        } else {
            let k = p / cs;
            assert(k >= cf && k < n) by {
                vstd::arithmetic::div_mod::lemma_fundamental_div_mod(p, cs);
                assert(k * cs + p % cs == p && 0 <= p % cs < cs);
                assert(k >= cf) by (nonlinear_arith)
                    requires
                        k * cs + p % cs == p,
                        p % cs < cs,
                        p >= cf * cs,
                        cs > 0,
                ;
                assert(k < n) by (nonlinear_arith)
                    requires
                        k * cs + p % cs == p,
                        p % cs >= 0,
                        p < n * cs,
                        cs > 0,
                ;
            }
            let c = nth(fat, s, k as nat);
            assert(in_data(b, c));
            lemma_cluster_range(b, c);
            assert forall|j: int| first_block(b, c) <= j < first_block(b, c) + bpc(b) implies #[trigger] d1[j] == d0[j] by {
                if block_in_walk(b, fat, s, offset / cs, cf as nat, j) {
                    let kk = choose|kk: int|
                        #![trigger nth(fat, s, kk as nat)]
                        offset / cs <= kk < cf && in_data(b, nth(fat, s, kk as nat)) && crate::layout::block_in_cluster(
                            b,
                            nth(fat, s, kk as nat),
                            j,
                        );
                    if nth(fat, s, kk as nat) != c {
                        crate::myfs::lemma_clusters_disjoint(b, nth(fat, s, kk as nat), c, j);
                    }
                    let f = crate::layout::follow(fat, s, n);
                    assert(f[kk] == f[k]);
                }
            }
            crate::dev::lemma_concat_blocks_agree(d1, d0, first_block(b, c), bpc(b) as nat);
            assert(cluster_bytes(b, d1, c) == cluster_bytes(b, d0, c));
            assert(chain_byte(b, d1, fat, s, p) == chain_byte(b, d0, fat, s, p));
            assert(p >= end);
        }
    }
    assert(new_data =~= want);
}

impl<D: BufferedBlockDevice> MyFileSystem<D> {
    /// Length and last cluster of the chain from `start`; a start of 0 is the empty chain.
    pub(crate) fn chain_tail(&self, start: ClusterId) -> (r: Result<(usize, Option<ClusterId>), FsError>)
        requires
            self.wf(),
        ensures
            start.0 == 0 ==> r == Ok::<(usize, Option<ClusterId>), FsError>((0usize, None::<ClusterId>)),
            start.0 != 0 ==> (r is Ok <==> exists|n: nat| chain_ends(self.boot_view(), self.fat(), start.0 as int, n)),
            start.0 != 0 ==> (r matches Ok((n, last)) ==> chain_ends(self.boot_view(), self.fat(), start.0 as int, n as nat)
                && (last matches Some(c) && c.0 == nth(self.fat(), start.0 as int, (n - 1) as nat))),
            r matches Err(e) ==> e is CorruptFs,
    {
        let ghost b = self.boot_view();
        let ghost fat = self.fat();
        let ghost s = start.0 as int;
        let mut it = match ChainIter::new(self, start) {
            Ok(it) => it,
            Err(e) => {
                proof {
                    assert forall|n: nat| !chain_ends(b, fat, s, n) by {
                        if chain_ends(b, fat, s, n) {
                            assert(in_data(b, nth(fat, s, (0int) as nat)));
                        }
                    }
                }
                return Err(e);
            },
        };
        let mut last: Option<ClusterId> = None;
        let mut count: usize = 0;
        proof {
            self.lemma_wf();
        }
        loop
            invariant
                self.wf(),
                b == self.boot_view(),
                fat == self.fat(),
                s == start.0,
                it.inv(),
                it.fs_view() == self,
                it.start_view() == s,
                !it.has_failed(),
                count == it.yielded(),
                count < max_cluster(b),
                s == 0 ==> it.done() && count == 0,
                count == 0 ==> last is None,
                count > 0 ==> (last matches Some(c) && c.0 == nth(fat, s, (count - 1) as nat)),
            decreases max_cluster(b) - count,
        {
            proof {
                it.lemma_inv();
            }
            match it.next() {
                None => {
                    return Ok((count, last));
                },
                Some(Err(e)) => {
                    proof {
                        lemma_no_chain_end(b, fat, s, count as nat);
                    }
                    return Err(e);
                },
                Some(Ok(c)) => {
                    proof {
                        it.lemma_inv();
                        lemma_chain_len_bound(b, fat, s, it.yielded());
                    }
                    count = count + 1;
                    last = Some(c);
                },
            }
        }
    }

    /// `len` bytes of the data of the chain from `start`, from byte `offset` on.
    pub(crate) fn read_chain_bytes(&self, start: ClusterId, offset: usize, len: usize) -> (r: Result<Vec<u8>, FsError>)
        requires
            self.wf(),
        ensures
            len == 0 ==> (r matches Ok(v) && v@.len() == 0),
            len > 0 && offset + len > usize::MAX ==> (r matches Err(e) && e is CorruptFs),
            r matches Ok(v) ==> v@.len() == len && (len > 0 ==> iter_ok(
                self.boot_view(),
                self.fat(),
                start.0 as int,
                clusters_for(self.boot_view(), offset + len) as nat,
            )) && forall|p: int|
                0 <= p < len ==> #[trigger] v@[p] == chain_byte(
                    self.boot_view(),
                    self.disk(),
                    self.fat(),
                    start.0 as int,
                    offset + p,
                ),
            len > 0 && !iter_ok(
                self.boot_view(),
                self.fat(),
                start.0 as int,
                clusters_for(self.boot_view(), offset + len) as nat,
            ) ==> r is Err,
            self.reliable() && len > 0 && offset + len <= usize::MAX && iter_ok(
                self.boot_view(),
                self.fat(),
                start.0 as int,
                clusters_for(self.boot_view(), offset + len) as nat,
            ) ==> r is Ok,
            self.reliable() && r is Err ==> r->Err_0 is CorruptFs,
    {
        if len == 0 {
            return Ok(Vec::new());
        }
        if offset > usize::MAX - len {
            return Err(FsError::CorruptFs(String::from_str("offset beyond cluster chain")));
        }
        let cs = self.cluster_size();
        let ghost b = self.boot_view();
        let ghost fat = self.fat();
        let ghost disk = self.disk();
        let ghost s = start.0 as int;
        let ghost need = clusters_for(b, offset + len);
        proof {
            self.lemma_wf();
            lemma_ceil_div(offset + len, cs as int);
            vstd::arithmetic::div_mod::lemma_div_is_ordered(offset as int, offset + len - 1, cs as int);
        }
        let mut it = match ChainIter::new(self, start) {
            Ok(it) => it,
            Err(e) => {
                proof {
                    if iter_ok(b, fat, s, need as nat) {
                        assert(in_data(b, nth(fat, s, (0int) as nat)));
                    }
                }
                return Err(e);
            },
        };
        let skip = offset / cs;
        let mut i: usize = 0;
        while i < skip
            invariant
                self.wf(),
                b == self.boot_view(),
                fat == self.fat(),
                s == start.0,
                cs == cluster_size(b),
                cs > 0,
                it.inv(),
                it.fs_view() == self,
                it.start_view() == s,
                !it.has_failed(),
                it.yielded() == i,
                i <= skip,
                len > 0,
                skip == offset / cs,
                need == clusters_for(b, offset + len),
                skip < need,
            decreases skip - i,
        {
            proof {
                it.lemma_inv();
            }
            match it.next() {
                Some(Ok(_)) => {},
                Some(Err(e)) => {
                    proof {
                        lemma_short_chain(b, fat, s, i as nat, need as nat);
                    }
                    return Err(e);
                },
                None => {
                    proof {
                        lemma_short_chain(b, fat, s, i as nat, need as nat);
                    }
                    return Err(FsError::CorruptFs(String::from_str("offset beyond cluster chain")));
                },
            }
            i += 1;
        }
        let mut out: Vec<u8> = Vec::new();
        let mut remaining = len;
        let mut cursor = offset;
        while remaining > 0
            invariant
                self.wf(),
                b == self.boot_view(),
                fat == self.fat(),
                disk == self.disk(),
                s == start.0,
                cs == cluster_size(b),
                cs > 0,
                it.inv(),
                it.fs_view() == self,
                it.start_view() == s,
                !it.has_failed(),
                need == clusters_for(b, offset + len),
                need == (offset + len - 1) / (cs as int) + 1,
                len > 0,
                offset + len <= usize::MAX,
                cursor == offset + out@.len(),
                remaining == len - out@.len(),
                out@.len() <= len,
                remaining > 0 ==> it.yielded() == cursor / cs,
                out@.len() > 0 ==> it.yielded() == (cursor - 1) / (cs as int) + 1,
                forall|p: int|
                    0 <= p < out@.len() ==> #[trigger] out@[p] == chain_byte(b, disk, fat, s, offset + p),
            decreases remaining,
        {
            proof {
                it.lemma_inv();
                vstd::arithmetic::div_mod::lemma_div_is_ordered(cursor as int, offset + len - 1, cs as int);
            }
            let ghost k = it.yielded();
            let cluster = match it.next() {
                Some(Ok(c)) => c,
                Some(Err(e)) => {
                    proof {
                        lemma_short_chain(b, fat, s, k, need as nat);
                    }
                    return Err(e);
                },
                None => {
                    proof {
                        lemma_short_chain(b, fat, s, k, need as nat);
                    }
                    return Err(FsError::CorruptFs(String::from_str("offset beyond cluster chain")));
                },
            };
            proof {
                it.lemma_inv();
                assert(in_data(b, nth(fat, s, k)));
                self.lemma_cluster_len(cluster.0 as int);
            }
            let bytes = self.read_cluster_bytes(cluster)?;
            let in_cluster = cursor % cs;
            let room = cs - in_cluster;
            let chunk = if remaining < room { remaining } else { room };
            let piece = vstd::slice::slice_subrange(bytes.as_slice(), in_cluster, in_cluster + chunk);
            let ghost before = out@;
            out.extend_from_slice(piece);
            proof {
                assert forall|p: int| 0 <= p < out@.len() implies #[trigger] out@[p] == chain_byte(b, disk, fat, s, offset + p) by {
                    if p >= before.len() {
                        let t = p - before.len();
                        lemma_div_mod_step(cursor as int, t, cs as int);
                        assert(out@[p] == piece@[t]);
                    } else {
                        assert(out@[p] == before[p]);
                    }
                }
                if chunk == room {
                    lemma_div_mod_step(cursor as int, chunk - 1, cs as int);
                    vstd::arithmetic::div_mod::lemma_fundamental_div_mod(cursor as int, cs as int);
                    vstd::arithmetic::div_mod::lemma_div_plus_one((cursor - in_cluster) as int, cs as int);
                    assert(cursor + chunk == cs + (cursor - in_cluster));
                    vstd::arithmetic::div_mod::lemma_div_multiples_vanish(cursor as int / cs as int, cs as int);
                    assert((cursor - in_cluster) as int == cs * (cursor as int / cs as int));
                } else {
                    lemma_div_mod_step(cursor as int, chunk - 1, cs as int);
                }
            }
            cursor += chunk;
            remaining -= chunk;
        }
        Ok(out)
    }
}

} // verus!

verus! {

/// Meeting a cluster again within the first `need` clusters breaks the chain.
/// Where a write stops at the first cluster `idx` that the chain lacks, having written the data
/// up to `cursor` into the clusters before it, every byte of the range whose cluster the chain
/// has holds the data.
proof fn lemma_partial_write(
    b: BootSector,
    fat: Seq<FatEntry>,
    s: int,
    d0: Seq<Seq<u8>>,
    d: Seq<Seq<u8>>,
    data: Seq<u8>,
    offset: int,
    cursor: int,
    idx: nat,
)
    requires
        cluster_size(b) > 0,
        offset <= cursor,
        idx * cluster_size(b) <= cursor,
        forall|p: int|
            0 <= p < idx * cluster_size(b) ==> #[trigger] chain_byte(b, d, fat, s, p) == if offset <= p < cursor {
                data[p - offset]
            } else {
                chain_byte(b, d0, fat, s, p)
            },
        !chain_ok(b, fat, s, idx + 1),
    ensures
        forall|p: int|
            offset <= p < offset + data.len() && 0 <= p && chain_ok(b, fat, s, (p / cluster_size(b) + 1) as nat) ==> #[trigger] chain_byte(
                b,
                d,
                fat,
                s,
                p,
            ) == data[p - offset],
{
    let cs = cluster_size(b);
    assert forall|p: int|
        offset <= p < offset + data.len() && 0 <= p && chain_ok(b, fat, s, (p / cs + 1) as nat) implies #[trigger] chain_byte(b, d, fat, s, p)
        == data[p - offset] by {
        vstd::arithmetic::div_mod::lemma_div_pos_is_pos(p, cs);
        if p / cs >= idx {
            lemma_chain_ok_prefix(b, fat, s, (p / cs + 1) as nat, idx + 1);
        } else {
            vstd::arithmetic::div_mod::lemma_fundamental_div_mod(p, cs);
            assert(p < idx * cs) by (nonlinear_arith)
                requires
                    p / cs < idx,
                    p == cs * (p / cs) + p % cs,
                    0 <= p % cs < cs,
            ;
        }
    }
}

proof fn lemma_dup_breaks_chain(b: BootSector, fat: Seq<FatEntry>, s: int, k: nat, need: nat)
    requires
        k < need,
        follow(fat, s, k).contains(nth(fat, s, k)),
    ensures
        !chain_ok(b, fat, s, need),
{
    if chain_ok(b, fat, s, need) {
        let i = choose|i: int| 0 <= i < k && follow(fat, s, k)[i] == nth(fat, s, k);
        let f = follow(fat, s, need);
        assert(f[i] == f[k as int]);
    }
}

/// A remainder of zero, from the quotients of `x - 1` and `x`.
proof fn lemma_mod_zero_of_step(x: int, cs: int)
    requires
        x >= 1,
        cs > 0,
        (x - 1) / cs + 1 == x / cs,
    ensures
        x % cs == 0,
{
    vstd::arithmetic::div_mod::lemma_fundamental_div_mod(x, cs);
    vstd::arithmetic::div_mod::lemma_mod_pos_bound(x, cs);
    vstd::arithmetic::mul::lemma_mul_is_commutative(cs, x / cs);
    if x % cs > 0 {
        vstd::arithmetic::div_mod::lemma_fundamental_div_mod_converse(x - 1, cs, x / cs, x % cs - 1);
    }
}

/// Writing cluster `idx` of the chain keeps every block outside the first `idx + 1` clusters.
pub(crate) proof fn lemma_chain_write_frame(
    b: BootSector,
    fat: Seq<FatEntry>,
    s: int,
    lo: int,
    idx: nat,
    c: int,
    d0: Seq<Seq<u8>>,
    d1: Seq<Seq<u8>>,
    d2: Seq<Seq<u8>>,
)
    requires
        geo_wf(b),
        in_data(b, c),
        c == nth(fat, s, idx),
        lo <= idx,
        d1.len() == d0.len(),
        forall|j: int| 0 <= j < d0.len() && !block_in_walk(b, fat, s, lo, idx, j) ==> #[trigger] d1[j] == d0[j],
        only_cluster_changed(b, d1, d2, c),
    ensures
        d2.len() == d0.len(),
        forall|j: int| 0 <= j < d0.len() && !block_in_walk(b, fat, s, lo, idx + 1, j) ==> #[trigger] d2[j] == d0[j],
{
    assert forall|j: int| 0 <= j < d0.len() && !block_in_walk(b, fat, s, lo, idx + 1, j) implies #[trigger] d2[j] == d0[j] by {
        let kk: int = idx as int;
        if block_in_cluster(b, c, j) {
            assert(nth(fat, s, kk as nat) == c);
            assert(block_in_walk(b, fat, s, lo, idx + 1, j));
        }
        if block_in_walk(b, fat, s, lo, idx, j) {
            let k = choose|k: int|
                #![trigger nth(fat, s, k as nat)]
                lo <= k < idx && in_data(b, nth(fat, s, k as nat)) && block_in_cluster(b, nth(fat, s, k as nat), j);
            assert(block_in_walk(b, fat, s, lo, idx + 1, j));
        }
        assert(d2[j] == d1[j]);
    }
}

/// The bytes of the chain after cluster `idx` received `chunk` bytes of `data` at `in_cluster`.
proof fn lemma_chain_write_bytes(
    b: BootSector,
    fat: Seq<FatEntry>,
    s: int,
    lo: int,
    idx: nat,
    c: int,
    d0: Seq<Seq<u8>>,
    d1: Seq<Seq<u8>>,
    d2: Seq<Seq<u8>>,
    data: Seq<u8>,
    offset: int,
    cursor: int,
    in_cluster: int,
    chunk: int,
    written: int,
    old_bytes: Seq<u8>,
    new_bytes: Seq<u8>,
)
    requires
        geo_wf(b),
        in_data(b, c),
        c == nth(fat, s, idx),
        chain_ok(b, fat, s, idx + 1),
        d1.len() == d0.len(),
        d0.len() >= b.block_count,
        0 <= lo,
        forall|j: int| 0 <= j < d0.len() && !block_in_walk(b, fat, s, lo, idx, j) ==> #[trigger] d1[j] == d0[j],
        forall|p: int|
            0 <= p < idx * cluster_size(b) ==> #[trigger] chain_byte(b, d1, fat, s, p) == if offset <= p < cursor {
                data[p - offset]
            } else {
                chain_byte(b, d0, fat, s, p)
            },
        old_bytes == cluster_bytes(b, d1, c),
        only_cluster_changed(b, d1, d2, c),
        cluster_bytes(b, d2, c) == new_bytes,
        new_bytes.len() == cluster_size(b),
        forall|m: int| 0 <= m < cluster_size(b) ==> #[trigger] new_bytes[m] == if in_cluster <= m < in_cluster + chunk {
            data[written + m - in_cluster]
        } else {
            old_bytes[m]
        },
        0 <= offset,
        0 <= written,
        cursor == offset + written,
        cursor == idx * cluster_size(b) + in_cluster,
        0 <= in_cluster,
        0 <= chunk,
        in_cluster + chunk <= cluster_size(b),
        written + chunk <= data.len(),
        written > 0 ==> in_cluster == 0,
    ensures
        forall|p: int|
            0 <= p < idx * cluster_size(b) + cluster_size(b) ==> #[trigger] chain_byte(b, d2, fat, s, p) == if offset <= p
                < cursor + chunk {
                data[p - offset]
            } else {
                chain_byte(b, d0, fat, s, p)
            },
{
    let cs = cluster_size(b);
    lemma_cluster_range(b, c);
    let kk: int = idx as int;
    assert forall|j: int| first_block(b, c) <= j < first_block(b, c) + bpc(b) implies #[trigger] d1[j] == d0[j] by {
        if block_in_walk(b, fat, s, lo, idx, j) {
            let k = choose|k: int|
                #![trigger nth(fat, s, k as nat)]
                lo <= k < idx && in_data(b, nth(fat, s, k as nat)) && block_in_cluster(b, nth(fat, s, k as nat), j);
            let f = follow(fat, s, idx + 1);
            assert(f[k] == nth(fat, s, k as nat));
            assert(f[kk] == c);
            lemma_clusters_disjoint(b, c, nth(fat, s, k as nat), j);
        }
    }
    lemma_concat_blocks_agree(d1, d0, first_block(b, c), bpc(b) as nat);
    assert forall|p: int| 0 <= p < idx * cs + cs implies #[trigger] chain_byte(b, d2, fat, s, p) == if offset <= p < cursor
        + chunk {
        data[p - offset]
    } else {
        chain_byte(b, d0, fat, s, p)
    } by {
        lemma_pos_in_cluster(p, cs, kk);
        let q = p / cs;
        if p < idx * cs {
            let f = follow(fat, s, idx + 1);
            assert(f[q] == nth(fat, s, q as nat));
            assert(f[kk] == c);
            assert(in_data(b, nth(fat, s, q as nat)));
            lemma_cluster_unchanged(b, d1, d2, c, nth(fat, s, q as nat));
            assert(chain_byte(b, d2, fat, s, p) == chain_byte(b, d1, fat, s, p));
            assert(idx * cs <= cursor);
            assert(chain_byte(b, d1, fat, s, p) == (if offset <= p < cursor {
                data[p - offset]
            } else {
                chain_byte(b, d0, fat, s, p)
            }));
            assert(chain_byte(b, d2, fat, s, p) == (if offset <= p < cursor + chunk {
                data[p - offset]
            } else {
                chain_byte(b, d0, fat, s, p)
            }));
        } else {
            assert(q == kk);
            let m = p - idx * cs;
            assert(p % cs == m);
            assert(nth(fat, s, (p / cs) as nat) == c);
            assert(chain_byte(b, d2, fat, s, p) == new_bytes[m]);
            assert(chain_byte(b, d0, fat, s, p) == cluster_bytes(b, d0, c)[m]);
            assert(cluster_bytes(b, d0, c) == old_bytes);
            if in_cluster <= m < in_cluster + chunk {
                assert(new_bytes[m] == data[written + m - in_cluster]);
                assert(p - offset == written + m - in_cluster);
                assert(offset <= p < cursor + chunk);
            } else if m < in_cluster {
                assert(written == 0);
                assert(p < offset);
                assert(new_bytes[m] == old_bytes[m]);
            } else {
                assert(p >= cursor + chunk);
                assert(new_bytes[m] == old_bytes[m]);
            }
        }
    }
}

impl<D: BufferedBlockDevice> MyFileSystem<D> {
    /// Writes `data` into the chain from `start`, from byte `offset` on, one cluster at a time.
    ///
    /// Only the clusters of the chain that hold those bytes are written; the rest of each such
    /// cluster keeps its bytes.
    pub(crate) fn write_chain_bytes(&mut self, start: ClusterId, offset: usize, data: &[u8]) -> (r: Result<(), FsError>)
        requires
            old(self).wf(),
        ensures
            crate::myfs::meta_kept(old(self).boot_view(), old(self).disk(), final(self).disk()),
            final(self).wf(),
            final(self).boot_view() == old(self).boot_view(),
            final(self).fat() == old(self).fat(),
            final(self).dirty() == old(self).dirty(),
            final(self).reliable() == old(self).reliable(),
            final(self).handles() == old(self).handles(),
            final(self).next_handle_value() == old(self).next_handle_value(),
            final(self).disk().len() == old(self).disk().len(),
            forall|j: int|
                0 <= j < old(self).disk().len() && !block_in_walk(
                    old(self).boot_view(),
                    old(self).fat(),
                    start.0 as int,
                    (offset as int) / cluster_size(old(self).boot_view()),
                    clusters_for(old(self).boot_view(), offset + data@.len()) as nat,
                    j,
                ) ==> #[trigger] final(self).disk()[j] == old(self).disk()[j],
            data@.len() == 0 ==> r is Ok && final(self).disk() == old(self).disk(),
            r is Ok && data@.len() > 0 ==> chain_ok(
                old(self).boot_view(),
                old(self).fat(),
                start.0 as int,
                clusters_for(old(self).boot_view(), offset + data@.len()) as nat,
            ) && forall|p: int|
                0 <= p < clusters_for(old(self).boot_view(), offset + data@.len()) * cluster_size(
                    old(self).boot_view(),
                ) ==> #[trigger] chain_byte(
                    old(self).boot_view(),
                    final(self).disk(),
                    old(self).fat(),
                    start.0 as int,
                    p,
                ) == if offset <= p < offset + data@.len() {
                    data@[p - offset]
                } else {
                    chain_byte(old(self).boot_view(), old(self).disk(), old(self).fat(), start.0 as int, p)
                },
            data@.len() > 0 && !chain_ok(
                old(self).boot_view(),
                old(self).fat(),
                start.0 as int,
                clusters_for(old(self).boot_view(), offset + data@.len()) as nat,
            ) ==> r is Err,
            old(self).reliable() && data@.len() > 0 && offset + data@.len() <= usize::MAX && chain_ok(
                old(self).boot_view(),
                old(self).fat(),
                start.0 as int,
                clusters_for(old(self).boot_view(), offset + data@.len()) as nat,
            ) ==> r is Ok,
            old(self).reliable() && r is Err ==> r->Err_0 is CorruptFs,
            data@.len() > 0 && offset + data@.len() > usize::MAX ==> (r matches Err(e) && e is CorruptFs) && final(self).disk() == old(self).disk(),
            old(self).reliable() && offset + data@.len() <= usize::MAX ==> forall|p: int|
                offset <= p < offset + data@.len() && chain_ok(
                    old(self).boot_view(),
                    old(self).fat(),
                    start.0 as int,
                    (p / cluster_size(old(self).boot_view()) + 1) as nat,
                ) ==> #[trigger] chain_byte(old(self).boot_view(), final(self).disk(), old(self).fat(), start.0 as int, p) == data@[p - offset],
            r is Ok && data@.len() > 0 && start.0 != 0 && crate::layout::has_chain(old(self).boot_view(), old(self).fat(), start.0 as int)
                && offset + data@.len() <= crate::layout::chain_len(old(self).boot_view(), old(self).fat(), start.0 as int) * cluster_size(
                old(self).boot_view(),
            ) ==> crate::layout::chain_data(
                old(self).boot_view(),
                final(self).disk(),
                old(self).fat(),
                start.0 as int,
                crate::layout::chain_len(old(self).boot_view(), old(self).fat(), start.0 as int),
            ) == crate::layout::chain_data(
                old(self).boot_view(),
                old(self).disk(),
                old(self).fat(),
                start.0 as int,
                crate::layout::chain_len(old(self).boot_view(), old(self).fat(), start.0 as int),
            ).take(offset as int) + data@ + crate::layout::chain_data(
                old(self).boot_view(),
                old(self).disk(),
                old(self).fat(),
                start.0 as int,
                crate::layout::chain_len(old(self).boot_view(), old(self).fat(), start.0 as int),
            ).skip(offset + data@.len()),
    {
        if data.len() == 0 {
            return Ok(());
        }
        if offset > usize::MAX - data.len() {
            return Err(FsError::CorruptFs(String::from_str("offset beyond cluster chain")));
        }
        let cs = self.cluster_size();
        let ghost b = self.boot_view();
        let ghost fat = self.fat();
        let ghost d0 = self.disk();
        let ghost s = start.0 as int;
        let ghost len = data@.len() as int;
        let ghost need = clusters_for(b, offset + len);
        proof {
            self.lemma_wf();
            lemma_ceil_div(offset + len, cs as int);
            vstd::arithmetic::div_mod::lemma_div_is_ordered(offset as int, offset + len - 1, cs as int);
            assert(follow(fat, s, 0) =~= Seq::<int>::empty());
        }
        let mut visited: HashSet<u16> = HashSet::new();
        let mut current = start;
        let skip = offset / cs;
        let mut i: usize = 0;
        while i < skip
            invariant
                self.wf(),
                b == self.boot_view(),
                fat == self.fat(),
                d0 == self.disk(),
                s == start.0,
                cs == cluster_size(b),
                cs > 0,
                i <= skip,
                skip == offset / cs,
                len == data@.len(),
                len > 0,
                need == clusters_for(b, offset + len),
                skip < need,
                current.0 == nth(fat, s, i as nat),
                chain_ok(b, fat, s, i as nat),
                i > 0 ==> fat[nth(fat, s, (i - 1) as nat)] is Next,
                forall|x: u16| #[trigger] visited@.contains(x) == follow(fat, s, i as nat).contains(x as int),
                self.wf() && self.reliable() == old(self).reliable(),
                self.fat() == old(self).fat(),
                self.boot_view() == old(self).boot_view(),
                self.disk() == old(self).disk(),
                self.dirty() == old(self).dirty(),
                self.handles() == old(self).handles(),
                self.next_handle_value() == old(self).next_handle_value(),
            decreases skip - i,
        {
            let ghost k = i as nat;
            proof {
                assert((i + 1) * cs <= offset && i * cs <= offset) by (nonlinear_arith)
                    requires
                        i + 1 <= skip,
                        skip == offset / cs,
                        cs > 0,
                {
                    vstd::arithmetic::div_mod::lemma_fundamental_div_mod(offset as int, cs as int);
                }
            }
            let entry = match self.read_fat(current) {
                Ok(e) => e,
                Err(e) => {
                    proof {
                        if chain_ok(b, fat, s, need as nat) {
                            let kk: int = k as int;
                            assert(in_data(b, nth(fat, s, kk as nat)));
                        }
                        if chain_ok(b, fat, s, k + 1) {
                            let kk: int = k as int;
                            assert(in_data(b, nth(fat, s, kk as nat)));
                        }
                        lemma_partial_write(b, fat, s, d0, self.disk(), data@, offset as int, offset as int, k);
                    }
                    return Err(e);
                },
            };
            proof {
                self.lemma_wf();
            }
            if visited.contains(&current.0) {
                proof {
                    lemma_dup_breaks_chain(b, fat, s, k, need as nat);
                    lemma_dup_breaks_chain(b, fat, s, k, k + 1);
                    lemma_partial_write(b, fat, s, d0, self.disk(), data@, offset as int, offset as int, k);
                }
                return Err(FsError::CorruptFs(crate::report::numbered_text("cluster loop detected at ", current.0 as u64, "")));
            }
            let ghost v0 = visited@;
            visited.insert(current.0);
            proof {
                lemma_visited_push(fat, s, k, v0, visited@);
                lemma_chain_ok_extend(b, fat, s, k);
            }
            match entry {
                FatEntry::Next(next) => {
                    proof {
                        lemma_nth_step(fat, s, k);
                    }
                    current = next;
                },
                FatEntry::Free => {
                    proof {
                        if chain_ok(b, fat, s, need as nat) {
                            let kk: int = k as int;
                            assert(fat[nth(fat, s, kk as nat)] is Next);
                        }
                        if chain_ok(b, fat, s, k + 2) {
                            let kk: int = k as int;
                            assert(fat[nth(fat, s, kk as nat)] is Next);
                        }
                        lemma_partial_write(b, fat, s, d0, self.disk(), data@, offset as int, offset as int, k + 1);
                    }
                    return Err(FsError::CorruptFs(crate::report::numbered_text("cluster chain from ", start.0 as u64, " reaches free entry")));
                },
                FatEntry::EndOfChain => {
                    proof {
                        if chain_ok(b, fat, s, need as nat) {
                            let kk: int = k as int;
                            assert(fat[nth(fat, s, kk as nat)] is Next);
                        }
                        if chain_ok(b, fat, s, k + 2) {
                            let kk: int = k as int;
                            assert(fat[nth(fat, s, kk as nat)] is Next);
                        }
                        lemma_partial_write(b, fat, s, d0, self.disk(), data@, offset as int, offset as int, k + 1);
                    }
                    return Err(FsError::CorruptFs(String::from_str("offset beyond cluster chain")));
                },
            }
            i += 1;
        }
        proof {
            assert forall|p: int| 0 <= p < i * cs implies #[trigger] chain_byte(b, self.disk(), fat, s, p) == if offset <= p < offset {
                data@[p - offset]
            } else {
                chain_byte(b, d0, fat, s, p)
            } by {}
            assert forall|j: int| 0 <= j < d0.len() && !block_in_walk(b, fat, s, skip as int, i as nat, j) implies #[trigger] self.disk()[j] == d0[j] by {}
        }
        let mut remaining = data.len();
        let mut cursor = offset;
        let mut written: usize = 0;
        let ghost mut idx: nat = i as nat;
        while remaining > 0
            invariant
                self.wf(),
                b == self.boot_view(),
                fat == self.fat(),
                s == start.0,
                cs == cluster_size(b),
                cs > 0,
                d0 == old(self).disk(),
                len == data@.len(),
                len > 0,
                need == clusters_for(b, offset + len),
                need == (offset + len - 1) / (cs as int) + 1,
                offset + len <= usize::MAX,
                cursor == offset + written,
                remaining == len - written,
                written <= len,
                remaining > 0 ==> idx == cursor / cs,
                written > 0 ==> idx == (cursor - 1) / (cs as int) + 1,
                written == 0 ==> idx == offset / cs,
                remaining > 0 ==> current.0 == nth(fat, s, idx),
                chain_ok(b, fat, s, idx),
                remaining > 0 && idx > 0 ==> fat[nth(fat, s, (idx - 1) as nat)] is Next,
                forall|x: u16| #[trigger] visited@.contains(x) == follow(fat, s, idx).contains(x as int),
                self.disk().len() == d0.len(),
                skip == offset / cs,
                skip <= idx,
                forall|j: int|
                    0 <= j < d0.len() && !block_in_walk(b, fat, s, skip as int, idx, j) ==> #[trigger] self.disk()[j] == d0[j],
                forall|p: int|
                    0 <= p < idx * cs ==> #[trigger] chain_byte(b, self.disk(), fat, s, p) == if offset <= p < cursor {
                        data@[p - offset]
                    } else {
                        chain_byte(b, d0, fat, s, p)
                    },
                self.reliable() == old(self).reliable(),
                self.fat() == old(self).fat(),
                self.boot_view() == old(self).boot_view(),
                self.dirty() == old(self).dirty(),
                self.handles() == old(self).handles(),
                self.next_handle_value() == old(self).next_handle_value(),
            decreases remaining,
        {
            proof {
                vstd::arithmetic::div_mod::lemma_div_is_ordered(cursor as int, offset + len - 1, cs as int);
            }
            let entry = match self.read_fat(current) {
                Ok(e) => e,
                Err(e) => {
                    proof {
                        if chain_ok(b, fat, s, need as nat) {
                            let kk: int = idx as int;
                            assert(in_data(b, nth(fat, s, kk as nat)));
                        }
                        if chain_ok(b, fat, s, idx + 1) {
                            let kk: int = idx as int;
                            assert(in_data(b, nth(fat, s, kk as nat)));
                        }
                        vstd::arithmetic::div_mod::lemma_fundamental_div_mod(cursor as int, cs as int);
                        lemma_partial_write(b, fat, s, d0, self.disk(), data@, offset as int, cursor as int, idx);
                    }
                    return Err(e);
                },
            };
            proof {
                self.lemma_wf();
            }
            if visited.contains(&current.0) {
                proof {
                    lemma_dup_breaks_chain(b, fat, s, idx, need as nat);
                    lemma_dup_breaks_chain(b, fat, s, idx, idx + 1);
                    vstd::arithmetic::div_mod::lemma_fundamental_div_mod(cursor as int, cs as int);
                    lemma_partial_write(b, fat, s, d0, self.disk(), data@, offset as int, cursor as int, idx);
                }
                return Err(FsError::CorruptFs(crate::report::numbered_text("cluster loop detected at ", current.0 as u64, "")));
            }
            let ghost v0 = visited@;
            visited.insert(current.0);
            proof {
                lemma_visited_push(fat, s, idx, v0, visited@);
                lemma_chain_ok_extend(b, fat, s, idx);
                self.lemma_cluster_len(current.0 as int);
            }
            let mut bytes = self.read_cluster_bytes(current)?;
            let ghost d1 = self.disk();
            let ghost old_bytes = bytes@;
            let in_cluster = cursor % cs;
            let room = cs - in_cluster;
            let chunk = if remaining < room { remaining } else { room };
            let mut t: usize = 0;
            while t < chunk
                invariant
                    bytes@.len() == cs,
                    old_bytes.len() == cs,
                    data@.len() <= usize::MAX,
                    in_cluster + chunk <= cs,
                    written + chunk <= data@.len(),
                    t <= chunk,
                    forall|m: int| 0 <= m < cs ==> #[trigger] bytes@[m] == if in_cluster <= m < in_cluster + t {
                        data@[written + m - in_cluster]
                    } else {
                        old_bytes[m]
                    },
                decreases chunk - t,
            {
                bytes.set(in_cluster + t, data[written + t]);
                t += 1;
            }
            let res = self.write_cluster_bytes(current, bytes.as_slice());
            let ghost d2 = self.disk();
            let ghost c = current.0 as int;
            proof {
                lemma_chain_write_frame(b, fat, s, skip as int, idx, c, d0, d1, d2);
            }
            if res.is_err() {
                return res;
            }
            proof {
                vstd::arithmetic::div_mod::lemma_fundamental_div_mod(cursor as int, cs as int);
                vstd::arithmetic::mul::lemma_mul_is_commutative(cs as int, idx as int);
                if written > 0 {
                    lemma_mod_zero_of_step(cursor as int, cs as int);
                }
                lemma_chain_write_bytes(
                    b, fat, s, skip as int, idx, c, d0, d1, d2, data@, offset as int, cursor as int, in_cluster as int, chunk as int,
                    written as int, old_bytes, bytes@,
                );
            }
            cursor += chunk;
            written += chunk;
            remaining -= chunk;
            proof {
                let ghost old_idx = idx;
                idx = idx + 1;
                assert(idx * cs == old_idx * cs + cs) by (nonlinear_arith)
                    requires
                        idx == old_idx + 1,
                ;
                if chunk == room {
                    lemma_div_mod_step((cursor - chunk) as int, chunk - 1, cs as int);
                    vstd::arithmetic::div_mod::lemma_fundamental_div_mod((cursor - chunk) as int, cs as int);
                    vstd::arithmetic::div_mod::lemma_div_plus_one((cursor - chunk - in_cluster) as int, cs as int);
                    vstd::arithmetic::div_mod::lemma_div_multiples_vanish((cursor - chunk) as int / cs as int, cs as int);
                } else {
                    lemma_div_mod_step((cursor - chunk) as int, chunk - 1, cs as int);
                }
            }
            if remaining > 0 {
                match entry {
                    FatEntry::Next(next) => {
                        proof {
                            lemma_nth_step(fat, s, (idx - 1) as nat);
                        }
                        current = next;
                    },
                    _ => {
                        proof {
                            vstd::arithmetic::div_mod::lemma_div_is_ordered(cursor as int, offset + len - 1, cs as int);
                            if chain_ok(b, fat, s, need as nat) {
                                let kk: int = idx - 1;
                                assert(fat[nth(fat, s, kk as nat)] is Next);
                            }
                            if chain_ok(b, fat, s, idx + 1) {
                                let kk: int = idx - 1;
                                assert(fat[nth(fat, s, kk as nat)] is Next);
                            }
                            vstd::arithmetic::div_mod::lemma_fundamental_div_mod(cursor as int, cs as int);
                            lemma_partial_write(b, fat, s, d0, self.disk(), data@, offset as int, cursor as int, idx);
                        }
                        return Err(FsError::CorruptFs(String::from_str("offset beyond cluster chain")));
                    },
                }
            }
        }
        proof {
            assert forall|p: int|
                offset <= p < offset + data@.len() && chain_ok(b, fat, s, (p / (cs as int) + 1) as nat) implies #[trigger] chain_byte(
                b,
                self.disk(),
                fat,
                s,
                p,
            ) == data@[p - offset] by {
                vstd::arithmetic::div_mod::lemma_fundamental_div_mod((cursor - 1) as int, cs as int);
                assert(p < idx * cs) by (nonlinear_arith)
                    requires
                        p < cursor,
                        idx == (cursor - 1) / (cs as int) + 1,
                        cursor - 1 == cs * ((cursor - 1) / (cs as int)) + (cursor - 1) % (cs as int),
                        (cursor - 1) % (cs as int) < cs,
                ;
            }
        }
        proof {
            if start.0 != 0 && crate::layout::has_chain(b, fat, s) && offset + len <= crate::layout::chain_len(b, fat, s) * cs {
                self.lemma_wf();
                let n = crate::layout::chain_len(b, fat, s);
                assert(crate::layout::chain_ends(b, fat, s, n));
                lemma_written_chain_data(b, d0, self.disk(), fat, s, n, offset as int, data@);
            }
        }
        Ok(())
    }
}

} // verus!
