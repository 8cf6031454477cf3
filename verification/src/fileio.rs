//! Reading and writing file data.

use vstd::prelude::*;

use crate::dev::BufferedBlockDevice;
use crate::dir::dir_slot;
use crate::error::DirEntryLoc;
use crate::error::FsError;
use crate::fs::fcb_bytes;
use crate::fs::kind_of_attr;
use crate::fs::Fcb;
use crate::fs::FileHandle;
use crate::fs::NodeKind;
use crate::layout::block_in_cluster;
use crate::layout::block_in_walk;
use crate::layout::chain_byte;
use crate::layout::chain_ends;
use crate::layout::chain_len;
use crate::layout::chain_ok;
use crate::layout::cluster_bytes;
use crate::layout::cluster_size;
use crate::layout::clusters_for;
use crate::layout::lemma_ceil_div;
use crate::layout::follow;
use crate::layout::geo_wf;
use crate::layout::has_chain;
use crate::layout::in_data;
use crate::layout::iter_ok;
use crate::layout::nth;
use crate::layout::slot_bytes;
use crate::layout::slot_cluster;
use crate::layout::slot_readable;
use crate::lookup::fcb_name;
use crate::myfs::handle_index;
use crate::myfs::with_fcb_at;
use crate::myfs::MyFileSystem;
use crate::myfs::OpenFile;
use crate::name::SlotView;

verus! {

broadcast use crate::myfs::lemma_meta_block_not_in_cluster;

/// The byte of data that a read of a file with chain `start` gives at `p`: the chain's byte.
pub open spec fn file_byte(b: crate::fs::BootSector, disk: Seq<Seq<u8>>, fat: Seq<crate::fat::FatEntry>, start: int, p: int) -> u8 {
    chain_byte(b, disk, fat, start, p)
}

/// Number of bytes a read of `len` bytes from `offset` gives on a file of `size` bytes.
pub open spec fn read_len(size: int, offset: int, len: int) -> int {
    if offset >= size {
        0
    } else if len < size - offset {
        len
    } else {
        size - offset
    }
}

/// Number of clusters a write leaves the chain with: enough for `end` bytes, and no fewer than
/// it had.
pub open spec fn clusters_after(b: crate::fs::BootSector, cur: nat, end: int) -> nat {
    let needed = if end == 0 { 0 } else { clusters_for(b, end) };
    if needed > cur { needed as nat } else { cur }
}

/// What the chain of a file holds after `data` was written at `offset`: the data there, the
/// old bytes within the old chain, and zeros in the clusters added.
pub open spec fn written_byte(
    b: crate::fs::BootSector,
    d0: Seq<Seq<u8>>,
    f0: Seq<crate::fat::FatEntry>,
    start: int,
    cur: nat,
    offset: int,
    data: Seq<u8>,
    p: int,
) -> u8 {
    if offset <= p < offset + data.len() {
        data[p - offset]
    } else if p < cur * cluster_size(b) {
        chain_byte(b, d0, f0, start, p)
    } else {
        0
    }
}

/// A cluster of the chain outside the written walk keeps its bytes.
proof fn lemma_unwritten_cluster(
    b: crate::fs::BootSector,
    fat: Seq<crate::fat::FatEntry>,
    s: int,
    lo: int,
    hi: nat,
    k: nat,
    n: nat,
    d0: Seq<Seq<u8>>,
    d1: Seq<Seq<u8>>,
)
    requires
        geo_wf(b),
        chain_ok(b, fat, s, n),
        k < n,
        hi <= n,
        0 <= lo,
        !(lo <= k < hi),
        d0.len() >= b.block_count,
        d1.len() == d0.len(),
        forall|j: int| 0 <= j < d0.len() && !block_in_walk(b, fat, s, lo, hi, j) ==> #[trigger] d1[j] == d0[j],
    ensures
        cluster_bytes(b, d1, nth(fat, s, k)) == cluster_bytes(b, d0, nth(fat, s, k)),
{
    let c = nth(fat, s, k);
    let kk: int = k as int;
    assert(in_data(b, nth(fat, s, kk as nat)));
    crate::myfs::lemma_cluster_range(b, c);
    assert forall|j: int| crate::layout::first_block(b, c) <= j < crate::layout::first_block(b, c) + crate::layout::bpc(b) implies #[trigger] d1[j] == d0[j] by {
        if block_in_walk(b, fat, s, lo, hi, j) {
            let t = choose|t: int|
                #![trigger nth(fat, s, t as nat)]
                lo <= t < hi && in_data(b, nth(fat, s, t as nat)) && block_in_cluster(b, nth(fat, s, t as nat), j);
            let f = follow(fat, s, n);
            assert(f[t] == nth(fat, s, t as nat));
            assert(f[kk] == c);
            crate::myfs::lemma_clusters_disjoint(b, c, nth(fat, s, t as nat), j);
        }
    }
    crate::dev::lemma_concat_blocks_agree(d1, d0, crate::layout::first_block(b, c), crate::layout::bpc(b) as nat);
}

/// A slot of a directory stays writable when the table changes only at clusters that were free
/// or that belong to a chain apart from the directory's clusters up to that slot.
proof fn lemma_slot_writable_kept(
    b: crate::fs::BootSector,
    f0: Seq<crate::fat::FatEntry>,
    f1: Seq<crate::fat::FatEntry>,
    dir: int,
    i: int,
    s: int,
)
    requires
        geo_wf(b),
        crate::dir::slot_writable(b, f0, dir, i),
        crate::entries::chains_apart(b, f0, dir, i, s),
        f1.len() == f0.len(),
        crate::layout::max_cluster(b) < f0.len(),
        forall|x: int|
            0 <= x < f0.len() && !(f0[x] is Free) && !follow(f0, s, chain_len(b, f0, s)).contains(x) ==> #[trigger] f1[x] == f0[x],
    ensures
        crate::dir::slot_writable(b, f1, dir, i),
{
    let e = crate::layout::entries_per_cluster(b);
    crate::dir::lemma_slot_pos(b, i);
    vstd::arithmetic::div_mod::lemma_div_pos_is_pos(i, e);
    let n: nat = (i / e + 1) as nat;
    assert forall|k: int| 0 <= k < n - 1 && 0 <= #[trigger] nth(f0, dir, k as nat) < f0.len() implies f1[nth(f0, dir, k as nat)]
        == f0[nth(f0, dir, k as nat)] by {
        assert(f0[nth(f0, dir, k as nat)] is Next);
        assert(0 <= k <= i / e);
        assert(!follow(f0, s, chain_len(b, f0, s)).contains(nth(f0, dir, k as nat)));
    }
    crate::layout::lemma_nth_stable(f0, f1, dir, (n - 1) as nat);
    assert(follow(f1, dir, n) =~= follow(f0, dir, n));
    assert forall|k: int| 0 <= k < n implies in_data(b, #[trigger] nth(f1, dir, k as nat)) by {
        assert(nth(f1, dir, k as nat) == nth(f0, dir, k as nat));
    }
    assert forall|k: int| 0 <= k < n - 1 implies #[trigger] f1[nth(f1, dir, k as nat)] is Next by {
        assert(nth(f1, dir, k as nat) == nth(f0, dir, k as nat));
        assert(f0[nth(f0, dir, k as nat)] is Next);
        assert(0 <= k <= i / e);
        assert(!follow(f0, s, chain_len(b, f0, s)).contains(nth(f0, dir, k as nat)));
    }
}

impl<D: BufferedBlockDevice> MyFileSystem<D> {
    /// Writes `data` into the file whose entry `fcb` sits at `loc`, from byte `offset` on: the
    /// chain grows as needed, the size grows to cover the data, the entry is stamped and written
    /// back, and every open entry of the file takes the new entry. A write whose end lies past the
    /// 32-bit size range is refused with `SeekOutOfBounds` before anything is allocated: the entry
    /// could not record such a size, and growing the chain for it first would either take every
    /// free cluster and then fail for want of space, or succeed with a size that cannot be stored.
    pub(crate) fn write_fcb_data_at(&mut self, loc: DirEntryLoc, fcb: Fcb, offset: usize, data: &[u8]) -> (r: Result<Fcb, FsError>)
        requires
            old(self).wf(),
        ensures
            crate::myfs::meta_kept(old(self).boot_view(), old(self).disk(), final(self).disk()),
            final(self).wf(),
            final(self).boot_view() == old(self).boot_view(),
            final(self).reliable() == old(self).reliable(),
            final(self).next_handle_value() == old(self).next_handle_value(),
            final(self).disk().len() == old(self).disk().len(),
            kind_of_attr(fcb.attr.0) is None ==> r is Err && r->Err_0 is CorruptFs,
            kind_of_attr(fcb.attr.0) == Some(NodeKind::Directory) ==> (r matches Err(FsError::IsADirectory(s)) && s@ == fcb_name(fcb@)),
            kind_of_attr(fcb.attr.0) == Some(NodeKind::File) && offset + data@.len() > 0xFFFF_FFFF ==> r == Err::<Fcb, FsError>(
                FsError::SeekOutOfBounds(offset),
            ),
            r is Err ==> final(self).handles() == old(self).handles(),
            ({
                let b = old(self).boot_view();
                let f0 = old(self).fat();
                let s = fcb.start_cluster.0 as int;
                let need = clusters_for(b, offset + data@.len());
                old(self).reliable() && kind_of_attr(fcb.attr.0) == Some(NodeKind::File) && offset + data@.len() <= 0xFFFF_FFFF
                    && has_chain(b, f0, s) && (need <= chain_len(b, f0, s) || crate::layout::free_set(b, f0).len() >= need - chain_len(
                    b,
                    f0,
                    s,
                )) && crate::dir::slot_writable(b, f0, loc.dir_start.0 as int, loc.entry_index as int) && crate::entries::chains_apart(
                    b,
                    f0,
                    loc.dir_start.0 as int,
                    loc.entry_index as int,
                    s,
                ) ==> r is Ok || r->Err_0 is InvalidConfig
            }),
            old(self).reliable() && (r matches Err(FsError::NoSpace)) ==> has_chain(old(self).boot_view(), old(self).fat(), fcb.start_cluster.0 as int)
                && crate::layout::free_set(old(self).boot_view(), old(self).fat()).len() < clusters_for(old(self).boot_view(), offset + data@.len())
                - chain_len(old(self).boot_view(), old(self).fat(), fcb.start_cluster.0 as int),
            (kind_of_attr(fcb.attr.0) != Some(NodeKind::File) || offset + data@.len() > 0xFFFF_FFFF) ==> final(self).disk() == old(self).disk()
                && final(self).fat() == old(self).fat() && final(self).dirty() == old(self).dirty(),
            r matches Ok(f2) ==> {
                let b = old(self).boot_view();
                let f0 = old(self).fat();
                let s = fcb.start_cluster.0 as int;
                let cur = chain_len(b, f0, s);
                let end = offset + data@.len();
                let k = clusters_after(b, cur, end);
                let s2 = f2.start_cluster.0 as int;
                &&& kind_of_attr(fcb.attr.0) == Some(NodeKind::File)
                &&& has_chain(b, f0, s)
                &&& f2.short_name == fcb.short_name && f2.attr == fcb.attr && f2.reserved == fcb.reserved
                &&& f2.size == if end > fcb.size { end } else { fcb.size as int }
                &&& (s != 0 ==> s2 == s)
                &&& (k > 0 ==> chain_ends(b, final(self).fat(), s2, k))
                &&& k * cluster_size(b) >= end
                &&& final(self).handles() == with_fcb_at(old(self).handles(), loc, f2)
                &&& slot_bytes(b, final(self).disk(), final(self).fat(), loc.dir_start.0 as int, loc.entry_index as int) == fcb_bytes(f2@)
                &&& (!follow(final(self).fat(), s2, k).contains(slot_cluster(b, final(self).fat(), loc.dir_start.0 as int, loc.entry_index as int))
                    ==> forall|p: int|
                    0 <= p < k * cluster_size(b) ==> #[trigger] chain_byte(b, final(self).disk(), final(self).fat(), s2, p) == written_byte(
                        b,
                        old(self).disk(),
                        f0,
                        s,
                        cur,
                        offset as int,
                        data@,
                        p,
                    ))
            },
    {
        let kind = fcb.kind()?;
        if kind == NodeKind::Directory {
            return Err(FsError::IsADirectory(fcb.short_name()));
        }
        let new_end = match offset.checked_add(data.len()) {
            Some(e) => e,
            None => {
                return Err(FsError::SeekOutOfBounds(offset));
            },
        };
        if new_end > 0xFFFF_FFFF {
            return Err(FsError::SeekOutOfBounds(offset));
        }
        let ghost b = self.boot_view();
        let ghost f0 = self.fat();
        let ghost d0 = self.disk();
        let ghost s = fcb.start_cluster.0 as int;
        let ghost t0 = self.handles();
        proof {
            self.lemma_wf();
        }
        let cs = self.cluster_size();
        proof {
            crate::config::lemma_u16_product(b.block_size, b.blocks_per_cluster);
        }
        let needed: usize = if new_end == 0 {
            0
        } else {
            let nu: u64 = (new_end as u64 + cs as u64 - 1) / cs as u64;
            proof {
                assert(nu <= new_end) by (nonlinear_arith)
                    requires
                        nu == (new_end + cs - 1) / (cs as int),
                        cs >= 1,
                        new_end >= 1,
                {
                    vstd::arithmetic::div_mod::lemma_div_is_ordered((new_end + cs - 1) as int, (new_end * cs) as int, cs as int);
                    vstd::arithmetic::div_mod::lemma_div_multiples_vanish(new_end as int, cs as int);
                }
            }
            nu as usize
        };
        let mut f = self.ensure_fcb_capacity(fcb, needed)?;
        let ghost f1 = self.fat();
        let ghost d1 = self.disk();
        let ghost cur = chain_len(b, f0, s);
        let ghost k = clusters_after(b, cur, new_end as int);
        let ghost s2 = f.start_cluster.0 as int;
        proof {
            self.lemma_wf();
            assert(k == if needed > cur { needed as nat } else { cur });
            if new_end > 0 {
                crate::layout::lemma_ceil_div(new_end as int, cs as int);
                assert(needed * cs >= new_end) by (nonlinear_arith)
                    requires
                        needed == (new_end + cs - 1) / (cs as int),
                        cs > 0,
                        new_end > 0,
                {
                    vstd::arithmetic::div_mod::lemma_fundamental_div_mod((new_end + cs - 1) as int, cs as int);
                    vstd::arithmetic::div_mod::lemma_mod_pos_bound((new_end + cs - 1) as int, cs as int);
                }
            }
            assert(k * cs >= needed * cs) by (nonlinear_arith)
                requires
                    k >= needed,
                    cs > 0,
            ;
        }
        proof {
            if new_end > 0 {
                assert(clusters_for(b, new_end as int) == needed);
            } else {
                assert(clusters_for(b, 0) == 0) by {
                    vstd::arithmetic::div_mod::lemma_basic_div((cs - 1) as int, cs as int);
                }
            }
        }
        if data.len() > 0 {
            proof {
                assert(clusters_for(b, offset + data@.len()) == needed);
                crate::layout::lemma_chain_ok_prefix(b, f1, s2, k, needed as nat);
            }
            let res = self.write_chain_bytes(f.start_cluster, offset, data);
            proof {
                self.lemma_wf();
            }
            if res.is_err() {
                return Err(res.unwrap_err());
            }
        }
        let ghost d2 = self.disk();
        proof {
            let cs2 = cluster_size(b);
            assert forall|p: int| 0 <= p < k * cs2 implies #[trigger] chain_byte(b, d2, f1, s2, p) == written_byte(
                b,
                d0,
                f0,
                s,
                cur,
                offset as int,
                data@,
                p,
            ) by {
                let q = p / cs2;
                vstd::arithmetic::div_mod::lemma_div_pos_is_pos(p, cs2);
                assert(cs2 * k == k * cs2) by (nonlinear_arith);
                vstd::arithmetic::div_mod::lemma_multiply_divide_lt(p, cs2, k as int);
                if data.len() > 0 && offset <= p < offset + data@.len() {
                    assert(p < needed * cs2);
                } else if data.len() > 0 && p < needed * cs2 {
                } else if data.len() > 0 {
                    assert(cs2 * needed == needed * cs2) by (nonlinear_arith);
                    vstd::arithmetic::div_mod::lemma_div_is_ordered(needed * cs2, p, cs2);
                    vstd::arithmetic::div_mod::lemma_div_multiples_vanish(needed as int, cs2);
                    lemma_unwritten_cluster(b, f1, s2, (offset as int) / cs2, needed as nat, q as nat, k, d1, d2);
                }
            }
        }
        if new_end > f.size as usize {
            f.size = new_end as u32;
        }
        f.touch()?;
        proof {
            if old(self).reliable() && crate::dir::slot_writable(b, f0, loc.dir_start.0 as int, loc.entry_index as int)
                && crate::entries::chains_apart(b, f0, loc.dir_start.0 as int, loc.entry_index as int, s) {
                self.lemma_wf();
                lemma_slot_writable_kept(b, f0, f1, loc.dir_start.0 as int, loc.entry_index as int, s);
            }
        }
        let res = self.write_fcb_at(loc, &f);
        if res.is_err() {
            return Err(res.unwrap_err());
        }
        let ghost d3 = self.disk();
        proof {
            self.lemma_wf();
            let i = loc.entry_index as int;
            let ld = loc.dir_start.0 as int;
            let sc = slot_cluster(b, f1, ld, i);
            let e = crate::layout::entries_per_cluster(b);
            crate::dir::lemma_slot_pos(b, i);
            let kk: int = i / e;
            assert(in_data(b, nth(f1, ld, kk as nat)));
            assert(slot_bytes(b, d3, f1, ld, i) == fcb_bytes(f@));
            if !follow(f1, s2, k).contains(sc) {
                assert forall|p: int| 0 <= p < k * cluster_size(b) implies #[trigger] chain_byte(b, d3, f1, s2, p) == written_byte(
                    b,
                    d0,
                    f0,
                    s,
                    cur,
                    offset as int,
                    data@,
                    p,
                ) by {
                    let cs2 = cluster_size(b);
                    let q = p / cs2;
                    vstd::arithmetic::div_mod::lemma_div_pos_is_pos(p, cs2);
                    assert(cs2 * k == k * cs2) by (nonlinear_arith);
                    vstd::arithmetic::div_mod::lemma_multiply_divide_lt(p, cs2, k as int);
                    let c = nth(f1, s2, q as nat);
                    assert(follow(f1, s2, k)[q] == c);
                    let qq: int = q;
                    assert(in_data(b, nth(f1, s2, qq as nat)));
                    crate::myfs::lemma_cluster_range(b, c);
                    assert forall|j: int| crate::layout::first_block(b, c) <= j < crate::layout::first_block(b, c) + crate::layout::bpc(b)
                        implies #[trigger] d3[j] == d2[j] by {
                        crate::myfs::lemma_clusters_disjoint(b, c, sc, j);
                    }
                    crate::dev::lemma_concat_blocks_agree(d3, d2, crate::layout::first_block(b, c), crate::layout::bpc(b) as nat);
                    assert(chain_byte(b, d3, f1, s2, p) == chain_byte(b, d2, f1, s2, p));
                    assert(chain_byte(b, d2, f1, s2, p) == written_byte(b, d0, f0, s, cur, offset as int, data@, p));
                }
            }
        }
        self.update_open_fcbs(loc, f);
        Ok(f)
    }
}


/// What a read of `len` bytes from `offset` of the file in slot `loc` gives: the file's bytes
/// from `offset` on, up to the end of the file.
pub open spec fn read_gives(
    b: crate::fs::BootSector,
    disk: Seq<Seq<u8>>,
    fat: Seq<crate::fat::FatEntry>,
    loc: DirEntryLoc,
    offset: int,
    len: int,
    v: Seq<u8>,
) -> bool {
    &&& slot_readable(b, fat, loc.dir_start.0 as int, loc.entry_index as int)
    &&& dir_slot(b, disk, fat, loc.dir_start.0 as int, loc.entry_index as int) matches SlotView::Occupied(f)
    &&& kind_of_attr(f.attr) == Some(NodeKind::File)
    &&& v.len() == (if f.start_cluster == 0 { 0 } else { read_len(f.size as int, offset, len) })
    &&& forall|p: int| 0 <= p < v.len() ==> #[trigger] v[p] == file_byte(b, disk, fat, f.start_cluster as int, offset + p)
}

/// What writing `data` at `offset` into the file in slot `loc` did, going from disk `d0` and
/// table `f0` to `d1` and `f1`; `f2` is the file's entry afterwards. The file keeps its name and
/// kind, grows to cover the data, and its chain holds the data, its old bytes elsewhere, and
/// zeros in the clusters added (unless the chain runs through the slot's own cluster).
pub open spec fn data_written(
    b: crate::fs::BootSector,
    d0: Seq<Seq<u8>>,
    f0: Seq<crate::fat::FatEntry>,
    d1: Seq<Seq<u8>>,
    f1: Seq<crate::fat::FatEntry>,
    loc: DirEntryLoc,
    offset: int,
    data: Seq<u8>,
    f2: Fcb,
) -> bool {
    let dir = loc.dir_start.0 as int;
    let i = loc.entry_index as int;
    &&& slot_readable(b, f0, dir, i)
    &&& dir_slot(b, d0, f0, dir, i) matches SlotView::Occupied(fv)
    &&& kind_of_attr(fv.attr) == Some(NodeKind::File)
    &&& {
        let s = fv.start_cluster as int;
        let cur = chain_len(b, f0, s);
        let end = offset + data.len();
        let k = clusters_after(b, cur, end);
        let s2 = f2.start_cluster.0 as int;
        &&& f2@.base == fv.base && f2@.ext == fv.ext && f2.attr.0 == fv.attr
        &&& f2.size == if end > fv.size { end } else { fv.size as int }
        &&& (s != 0 ==> s2 == s)
        &&& (k > 0 ==> chain_ends(b, f1, s2, k))
        &&& k * cluster_size(b) >= end
        &&& slot_bytes(b, d1, f1, dir, i) == fcb_bytes(f2@)
        &&& (!follow(f1, s2, k).contains(slot_cluster(b, f1, dir, i)) ==> forall|p: int|
            0 <= p < k * cluster_size(b) ==> #[trigger] chain_byte(b, d1, f1, s2, p) == written_byte(b, d0, f0, s, cur, offset, data, p))
    }
}

impl<D: BufferedBlockDevice> MyFileSystem<D> {
    /// Reads up to `len` bytes of the file at `loc`, from byte `offset` on; a read ends at the
    /// end of the file.
    pub fn read_file_at(&self, loc: DirEntryLoc, offset: usize, len: usize) -> (r: Result<Vec<u8>, FsError>)
        requires
            self.wf(),
        ensures
            r matches Ok(v) ==> read_gives(self.boot_view(), self.disk(), self.fat(), loc, offset as int, len as int, v@),
            slot_readable(self.boot_view(), self.fat(), loc.dir_start.0 as int, loc.entry_index as int) && (dir_slot(
                self.boot_view(),
                self.disk(),
                self.fat(),
                loc.dir_start.0 as int,
                loc.entry_index as int,
            ) matches SlotView::Occupied(f) && kind_of_attr(f.attr) == Some(NodeKind::Directory)) ==> r is Err,
            self.reliable() && slot_readable(self.boot_view(), self.fat(), loc.dir_start.0 as int, loc.entry_index as int) ==> (dir_slot(
                self.boot_view(),
                self.disk(),
                self.fat(),
                loc.dir_start.0 as int,
                loc.entry_index as int,
            ) matches SlotView::Occupied(f) ==> (kind_of_attr(f.attr) == Some(NodeKind::Directory) ==> (r matches Err(FsError::IsADirectory(s))
                && s@ == fcb_name(f)))),
            self.reliable() && slot_readable(self.boot_view(), self.fat(), loc.dir_start.0 as int, loc.entry_index as int) && !(dir_slot(
                self.boot_view(),
                self.disk(),
                self.fat(),
                loc.dir_start.0 as int,
                loc.entry_index as int,
            ) is Occupied) ==> r == Err::<Vec<u8>, FsError>(FsError::NotFoundAt(loc)),
            self.reliable() && slot_readable(self.boot_view(), self.fat(), loc.dir_start.0 as int, loc.entry_index as int) && (dir_slot(
                self.boot_view(),
                self.disk(),
                self.fat(),
                loc.dir_start.0 as int,
                loc.entry_index as int,
            ) matches SlotView::Occupied(f) && kind_of_attr(f.attr) == Some(NodeKind::File) && (f.start_cluster == 0 || read_len(
                f.size as int,
                offset as int,
                len as int,
            ) == 0 || iter_ok(
                self.boot_view(),
                self.fat(),
                f.start_cluster as int,
                clusters_for(self.boot_view(), offset + read_len(f.size as int, offset as int, len as int)) as nat,
            ))) ==> r is Ok,
    {
        let fcb = self.read_fcb_at(loc)?;
        if fcb.kind()? == NodeKind::Directory {
            return Err(FsError::IsADirectory(fcb.short_name()));
        }
        let file_size = fcb.size as usize;
        let rest = if offset < file_size { file_size - offset } else { 0 };
        let n = if len < rest { len } else { rest };
        if fcb.start_cluster.0 == 0 || n == 0 {
            return Ok(Vec::new());
        }
        self.read_chain_bytes(fcb.start_cluster, offset, n)
    }

    /// Writes `data` into the file at `loc`, from byte `offset` on; returns the number of bytes
    /// written.
    pub fn write_file_at(&mut self, loc: DirEntryLoc, offset: usize, data: &[u8]) -> (r: Result<usize, FsError>)
        requires
            old(self).wf(),
        ensures
            crate::myfs::meta_kept(old(self).boot_view(), old(self).disk(), final(self).disk()),
            final(self).wf(),
            final(self).boot_view() == old(self).boot_view(),
            final(self).reliable() == old(self).reliable(),
            final(self).next_handle_value() == old(self).next_handle_value(),
            r is Err ==> final(self).handles() == old(self).handles(),
            ({
                let b = old(self).boot_view();
                let f0 = old(self).fat();
                let need = clusters_for(b, offset + data@.len());
                old(self).reliable() && (crate::entries::entry_at(b, old(self).disk(), f0, loc) matches Some(v) && kind_of_attr(v.attr)
                    == Some(NodeKind::File) && offset + data@.len() <= 0xFFFF_FFFF && has_chain(b, f0, v.start_cluster as int) && (need
                    <= chain_len(b, f0, v.start_cluster as int) || crate::layout::free_set(b, f0).len() >= need - chain_len(
                    b,
                    f0,
                    v.start_cluster as int,
                )) && crate::entries::chains_apart(b, f0, loc.dir_start.0 as int, loc.entry_index as int, v.start_cluster as int))
                    ==> r is Ok || r->Err_0 is InvalidConfig
            }),
            old(self).reliable() && (r matches Err(FsError::NoSpace)) ==> (crate::entries::entry_at(old(self).boot_view(), old(self).disk(), old(self).fat(), loc)
                matches Some(v) && crate::layout::free_set(old(self).boot_view(), old(self).fat()).len() < clusters_for(old(self).boot_view(), offset
                + data@.len()) - chain_len(old(self).boot_view(), old(self).fat(), v.start_cluster as int)),
            r matches Ok(n) ==> n == data@.len() && exists|f2: Fcb|
                #![trigger data_written(old(self).boot_view(), old(self).disk(), old(self).fat(), final(self).disk(), final(self).fat(), loc, offset as int, data@, f2)]
                data_written(old(self).boot_view(), old(self).disk(), old(self).fat(), final(self).disk(), final(self).fat(), loc, offset as int, data@, f2)
                    && final(self).handles() == with_fcb_at(old(self).handles(), loc, f2),
    {
        let fcb = self.read_fcb_at(loc)?;
        let ghost b = self.boot_view();
        let ghost d0 = self.disk();
        let ghost fat0 = self.fat();
        let f2 = self.write_fcb_data_at(loc, fcb, offset, data)?;
        proof {
            assert(data_written(b, d0, fat0, self.disk(), self.fat(), loc, offset as int, data@, f2));
        }
        Ok(data.len())
    }
}


/// What was written into a file is what a read of the same range then gives back, as long as
/// the file's chain does not run through the cluster that holds its own slot.
pub proof fn law_read_back_written(
    b: crate::fs::BootSector,
    d0: Seq<Seq<u8>>,
    f0: Seq<crate::fat::FatEntry>,
    d1: Seq<Seq<u8>>,
    f1: Seq<crate::fat::FatEntry>,
    loc: DirEntryLoc,
    offset: int,
    data: Seq<u8>,
    f2: Fcb,
    v: Seq<u8>,
)
    requires
        geo_wf(b),
        offset >= 0,
        data_written(b, d0, f0, d1, f1, loc, offset, data, f2),
        !follow(f1, f2.start_cluster.0 as int, chain_len(b, f1, f2.start_cluster.0 as int)).contains(
            slot_cluster(b, f1, loc.dir_start.0 as int, loc.entry_index as int),
        ),
        read_gives(b, d1, f1, loc, offset, data.len() as int, v),
    ensures
        v == data,
{
    let dir = loc.dir_start.0 as int;
    let i = loc.entry_index as int;
    let fv = dir_slot(b, d0, f0, dir, i)->Occupied_0;
    let s = fv.start_cluster as int;
    let cur = chain_len(b, f0, s);
    let end = offset + data.len();
    let k = clusters_after(b, cur, end);
    let s2 = f2.start_cluster.0 as int;
    crate::fs::lemma_fcb_round_trip(f2@, Seq::<u8>::empty());
    assert(fcb_bytes(f2@) + Seq::<u8>::empty() =~= fcb_bytes(f2@));
    let f = dir_slot(b, d1, f1, dir, i)->Occupied_0;
    assert(f == f2@);
    if data.len() > 0 {
        let cs = cluster_size(b);
        lemma_ceil_div(end, cs);
        assert(k > 0);
        assert(chain_ends(b, f1, s2, k));
        assert(in_data(b, nth(f1, s2, (0int) as nat)));
        crate::layout::lemma_chain_ends_unique(b, f1, s2, k, chain_len(b, f1, s2));
        assert(v.len() == data.len());
        assert forall|p: int| 0 <= p < v.len() implies v[p] == data[p] by {
            assert(v[p] == file_byte(b, d1, f1, s2, offset + p));
            assert(chain_byte(b, d1, f1, s2, offset + p) == written_byte(b, d0, f0, s, cur, offset, data, offset + p));
        }
    }
    assert(v =~= data);
}

/// The whole content of a file after `data` was written at `offset` into content `c`: the data
/// over the range it covers, the old content around it, and zeros in a gap past the old end.
pub open spec fn after_write(c: Seq<u8>, offset: int, data: Seq<u8>) -> Seq<u8> {
    if offset <= c.len() {
        c.take(offset) + data + c.skip(if c.len() < offset + data.len() { c.len() as int } else { offset + data.len() })
    } else {
        c + Seq::new((offset - c.len()) as nat, |k: int| 0u8) + data
    }
}

/// Does the file in slot `loc` keep its bytes within its chain, with zeros after its end? Its
/// size fits its chain, a file without a chain is empty, and the chain's bytes past the size are
/// zero, as the filesystem leaves them: clusters are zeroed when they join a chain, and writes
/// only ever grow a file.
pub open spec fn file_tail_clear(b: crate::fs::BootSector, disk: Seq<Seq<u8>>, fat: Seq<crate::fat::FatEntry>, loc: DirEntryLoc) -> bool {
    dir_slot(b, disk, fat, loc.dir_start.0 as int, loc.entry_index as int) matches SlotView::Occupied(fv) && {
        let s = fv.start_cluster as int;
        &&& (s == 0 ==> fv.size == 0)
        &&& (s != 0 ==> fv.size <= chain_len(b, fat, s) * cluster_size(b) && forall|p: int|
            fv.size <= p < chain_len(b, fat, s) * cluster_size(b) ==> #[trigger] chain_byte(b, disk, fat, s, p) == 0)
    }
}

/// Reading a whole file after a write gives its old content with the data laid over the written
/// range, and zeros between the old end and the data when the data starts past it; as long as the
/// file kept its bytes within its chain before, and its chain does not run through the cluster
/// that holds its own slot.
pub proof fn law_file_after_write(
    b: crate::fs::BootSector,
    d0: Seq<Seq<u8>>,
    f0: Seq<crate::fat::FatEntry>,
    d1: Seq<Seq<u8>>,
    f1: Seq<crate::fat::FatEntry>,
    loc: DirEntryLoc,
    offset: int,
    data: Seq<u8>,
    f2: Fcb,
    c: Seq<u8>,
    v: Seq<u8>,
)
    requires
        geo_wf(b),
        offset >= 0,
        data_written(b, d0, f0, d1, f1, loc, offset, data, f2),
        !follow(f1, f2.start_cluster.0 as int, chain_len(b, f1, f2.start_cluster.0 as int)).contains(
            slot_cluster(b, f1, loc.dir_start.0 as int, loc.entry_index as int),
        ),
        file_tail_clear(b, d0, f0, loc),
        read_gives(b, d0, f0, loc, 0, 0x1_0000_0000, c),
        read_gives(b, d1, f1, loc, 0, 0x1_0000_0000, v),
    ensures
        v == after_write(c, offset, data),
{
    let dir = loc.dir_start.0 as int;
    let i = loc.entry_index as int;
    let fv = dir_slot(b, d0, f0, dir, i)->Occupied_0;
    let s = fv.start_cluster as int;
    let cur = chain_len(b, f0, s);
    let end = offset + data.len();
    let k = clusters_after(b, cur, end);
    let s2 = f2.start_cluster.0 as int;
    let cs = cluster_size(b);
    crate::fs::lemma_fcb_round_trip(f2@, Seq::<u8>::empty());
    assert(fcb_bytes(f2@) + Seq::<u8>::empty() =~= fcb_bytes(f2@));
    let f = dir_slot(b, d1, f1, dir, i)->Occupied_0;
    assert(f == f2@);
    let w = after_write(c, offset, data);
    assert(c.len() == fv.size);
    if k > 0 {
        assert(chain_ends(b, f1, s2, k));
        assert(in_data(b, nth(f1, s2, (0int) as nat)));
        crate::layout::lemma_chain_ends_unique(b, f1, s2, k, chain_len(b, f1, s2));
        assert(s2 != 0);
        assert(v.len() == f2.size);
        assert(f2.size <= k * cs) by {
            if fv.size > end {
                assert(s != 0);
                assert(cur <= k);
                assert(cur * cs <= k * cs) by (nonlinear_arith)
                    requires
                        cur <= k,
                        cs >= 0,
                ;
            }
        }
        assert(w.len() == v.len());
        assert forall|p: int| 0 <= p < v.len() implies v[p] == w[p] by {
            assert(v[p] == file_byte(b, d1, f1, s2, p));
            assert(chain_byte(b, d1, f1, s2, p) == written_byte(b, d0, f0, s, cur, offset, data, p));
            if offset <= p < end {
                if offset <= c.len() {
                    assert(w[p] == data[p - offset]);
                } else {
                    assert(w[p] == data[p - offset]);
                }
            } else if p < c.len() {
                assert(c[p] == file_byte(b, d0, f0, s, p));
                assert(p < cur * cs);
                if offset <= c.len() {
                    if p < offset {
                        assert(w[p] == c[p]);
                    } else {
                        assert(w[p] == c[p]);
                    }
                } else {
                    assert(w[p] == c[p]);
                }
            } else {
                if p < cur * cs {
                    assert(chain_byte(b, d0, f0, s, p) == 0);
                }
                assert(w[p] == 0u8);
            }
        }
        assert(v =~= w);
    } else {
        assert(cur == 0 && end == 0);
        assert(c.len() == 0);
        assert(v.len() == 0);
        assert(w =~= Seq::<u8>::empty());
    }
}

} // verus!
