//! Directory slots: where each one lives in its directory's chain, and reading and writing them.

use vstd::prelude::*;

use crate::config::lemma_u16_product;
use crate::dev::BufferedBlockDevice;
use crate::error::DirEntryLoc;
use crate::error::FsError;
use crate::fat::FatEntry;
use crate::fs::fcb_bytes;
use crate::fs::BootSector;
use crate::fs::ClusterId;
use crate::fs::Fcb;
use crate::fs::FCB_SIZE;
use crate::layout::bs;
use crate::layout::bpc;
use crate::layout::chain_byte;
use crate::layout::chain_ok;
use crate::layout::cluster_bytes;
use crate::layout::cluster_size;
use crate::layout::clusters_for;
use crate::layout::data_clusters;
use crate::layout::data_start;
use crate::layout::entries_per_cluster;
use crate::layout::geo_wf;
use crate::layout::in_data;
use crate::layout::iter_ok;
use crate::layout::lemma_ceil_div;
use crate::layout::lemma_chain_len_bound;
use crate::layout::max_cluster;
use crate::layout::block_in_cluster;
use crate::layout::block_in_walk;
use crate::layout::nth;
use crate::layout::slot_bytes;
use crate::layout::slot_cluster;
use crate::layout::slot_offset;
use crate::layout::slot_readable;
use crate::myfs::MyFileSystem;
use crate::name::slot_of_bytes;
use crate::name::DirSlot;
use crate::name::SlotView;
use crate::name::SLOT_DELETED;

verus! {

broadcast use crate::myfs::lemma_meta_block_not_in_cluster;

/// Position of slot `i` within the data of its directory's chain.
pub open spec fn slot_pos(b: BootSector, i: int) -> int {
    (i / entries_per_cluster(b)) * cluster_size(b) + slot_offset(b, i)
}

/// What slot `i` of directory `dir` holds.
pub open spec fn dir_slot(b: BootSector, disk: Seq<Seq<u8>>, fat: Seq<FatEntry>, dir: int, i: int) -> SlotView {
    slot_of_bytes(slot_bytes(b, disk, fat, dir, i))
}

/// Can slot `i` of directory `dir` be written: does its cluster exist?
pub open spec fn slot_writable(b: BootSector, fat: Seq<FatEntry>, dir: int, i: int) -> bool {
    i >= 0 && chain_ok(b, fat, dir, (i / entries_per_cluster(b) + 1) as nat)
}

/// A slot lies within one cluster of the chain.
pub proof fn lemma_slot_pos(b: BootSector, i: int)
    requires
        geo_wf(b),
        i >= 0,
    ensures
        entries_per_cluster(b) >= 1,
        0 <= slot_offset(b, i),
        slot_offset(b, i) + FCB_SIZE <= cluster_size(b),
        slot_pos(b, i) >= 0,
        clusters_for(b, slot_pos(b, i) + FCB_SIZE) == i / entries_per_cluster(b) + 1,
        slot_pos(b, i) / cluster_size(b) == i / entries_per_cluster(b),
{
    let cs = cluster_size(b);
    let e = entries_per_cluster(b);
    assert(cs >= 24);
    assert(e >= 1 && e * 24 <= cs) by (nonlinear_arith)
        requires
            e == cs / 24,
            cs >= 24,
    ;
    let q = i / e;
    let r = i % e;
    assert(0 <= q && 0 <= r < e);
    assert(r * 24 + 24 <= e * 24) by (nonlinear_arith)
        requires
            0 <= r < e,
    ;
    assert(q * cs >= 0) by (nonlinear_arith)
        requires
            q >= 0,
            cs >= 0,
    ;
    vstd::arithmetic::div_mod::lemma_fundamental_div_mod_converse(q * cs + r * 24, cs, q, r * 24);
    lemma_ceil_div(slot_pos(b, i) + FCB_SIZE, cs);
    vstd::arithmetic::div_mod::lemma_fundamental_div_mod_converse(q * cs + r * 24 + 23, cs, q, r * 24 + 23);
}

/// Byte `t` of a slot, within its cluster.
pub proof fn lemma_slot_byte_pos(b: BootSector, i: int, t: int)
    requires
        geo_wf(b),
        i >= 0,
        0 <= t < FCB_SIZE,
    ensures
        (slot_pos(b, i) + t) / cluster_size(b) == i / entries_per_cluster(b),
        (slot_pos(b, i) + t) % cluster_size(b) == slot_offset(b, i) + t,
{
    lemma_slot_pos(b, i);
    let cs = cluster_size(b);
    let q = i / entries_per_cluster(b);
    vstd::arithmetic::div_mod::lemma_fundamental_div_mod_converse(q * cs + slot_offset(b, i) + t, cs, q, slot_offset(b, i) + t);
}

/// The bytes of a slot are the bytes of its directory's chain at the slot's position.
pub proof fn lemma_slot_chain_bytes(b: BootSector, disk: Seq<Seq<u8>>, fat: Seq<FatEntry>, dir: int, i: int, t: int)
    requires
        geo_wf(b),
        i >= 0,
        0 <= t < FCB_SIZE,
    ensures
        chain_byte(b, disk, fat, dir, slot_pos(b, i) + t) == cluster_bytes(b, disk, slot_cluster(b, fat, dir, i))[slot_offset(b, i) + t],
{
    lemma_slot_byte_pos(b, i, t);
}

/// Slot `i` of a directory is the `FCB_SIZE` bytes of the directory's data that start at byte
/// `(i / entries_per_cluster) * cluster_size + (i % entries_per_cluster) * FCB_SIZE`: the slots
/// fill each cluster from its start and leave its tail unused, so none crosses a cluster. Reading
/// and iterating the directory see these bytes, and writing the slot changes them and no others
/// (see `lemma_slot_after_write`).
pub proof fn law_slot_in_chain_data(b: BootSector, disk: Seq<Seq<u8>>, fat: Seq<FatEntry>, dir: int, i: int, n: nat)
    requires
        geo_wf(b),
        disk.len() >= b.block_count,
        forall|j: int| 0 <= j < disk.len() ==> #[trigger] disk[j].len() == crate::layout::bs(b),
        i >= 0,
        i / entries_per_cluster(b) < n,
        chain_ok(b, fat, dir, n),
    ensures
        slot_pos(b, i) == (i / entries_per_cluster(b)) * cluster_size(b) + (i % entries_per_cluster(b)) * FCB_SIZE,
        slot_pos(b, i) + FCB_SIZE <= n * cluster_size(b),
        slot_bytes(b, disk, fat, dir, i) == crate::layout::chain_data(b, disk, fat, dir, n).subrange(
            slot_pos(b, i),
            slot_pos(b, i) + FCB_SIZE,
        ),
{
    lemma_slot_pos(b, i);
    let cs = cluster_size(b);
    let q = i / entries_per_cluster(b);
    assert(slot_pos(b, i) + FCB_SIZE <= n * cs) by (nonlinear_arith)
        requires
            slot_pos(b, i) == q * cs + slot_offset(b, i),
            slot_offset(b, i) + FCB_SIZE <= cs,
            q + 1 <= n,
            q >= 0,
            cs >= 0,
    ;
    let c = slot_cluster(b, fat, dir, i);
    assert(in_data(b, c));
    crate::myfs::lemma_cluster_range(b, c);
    crate::dev::lemma_concat_blocks_len(disk, crate::layout::first_block(b, c), crate::layout::bpc(b) as nat, crate::layout::bs(b) as nat);
    assert(crate::layout::bpc(b) * crate::layout::bs(b) == cs) by (nonlinear_arith)
        requires
            cs == crate::layout::bs(b) * crate::layout::bpc(b),
    ;
    let data = crate::layout::chain_data(b, disk, fat, dir, n);
    assert forall|t: int| 0 <= t < FCB_SIZE implies #[trigger] slot_bytes(b, disk, fat, dir, i)[t] == data.subrange(
        slot_pos(b, i),
        slot_pos(b, i) + FCB_SIZE,
    )[t] by {
        lemma_slot_chain_bytes(b, disk, fat, dir, i, t);
        crate::chain::lemma_chain_data_byte(b, disk, fat, dir, n, slot_pos(b, i) + t);
    }
    crate::chain::lemma_chain_data_byte(b, disk, fat, dir, n, 0);
    assert(slot_bytes(b, disk, fat, dir, i) =~= data.subrange(slot_pos(b, i), slot_pos(b, i) + FCB_SIZE));
}

/// A slot that can be reached lies below 2^32 - 24 bytes into its chain.
pub proof fn lemma_slot_pos_bound(b: BootSector, fat: Seq<FatEntry>, dir: int, i: int)
    requires
        geo_wf(b),
        slot_writable(b, fat, dir, i),
    ensures
        slot_pos(b, i) + FCB_SIZE <= 0xFFFF * 0xFFFF,
{
    lemma_slot_pos(b, i);
    let q = i / entries_per_cluster(b);
    assert(max_cluster(b) >= 2) by {
        assert(data_clusters(b) >= 1) by (nonlinear_arith)
            requires
                b.block_count - data_start(b) >= bpc(b),
                bpc(b) >= 1,
                data_clusters(b) == (b.block_count - data_start(b)) / bpc(b),
        ;
    }
    lemma_chain_len_bound(b, fat, dir, (q + 1) as nat);
    let d = data_clusters(b);
    let p = bpc(b);
    let s = bs(b);
    let cs = cluster_size(b);
    assert(d * p <= b.block_count - data_start(b)) by (nonlinear_arith)
        requires
            d == (b.block_count - data_start(b)) / p,
            p >= 1,
            b.block_count - data_start(b) >= 0,
    ;
    assert((q + 1) * cs <= d * cs) by (nonlinear_arith)
        requires
            q + 1 <= d,
            cs >= 0,
    ;
    assert(d * cs <= 0xFFFF * 0xFFFF) by (nonlinear_arith)
        requires
            cs == s * p,
            d * p <= 0xFFFF,
            s <= 0xFFFF,
            d >= 0,
            p >= 1,
    ;
    assert(slot_pos(b, i) + FCB_SIZE <= (q + 1) * cs) by (nonlinear_arith)
        requires
            slot_pos(b, i) == q * cs + slot_offset(b, i),
            slot_offset(b, i) + FCB_SIZE <= cs,
    ;
}

impl<D: BufferedBlockDevice> MyFileSystem<D> {
    /// Position of a slot within its directory's chain, if it can be addressed.
    pub(crate) fn slot_offset(&self, loc: DirEntryLoc) -> (r: Result<usize, FsError>)
        requires
            self.wf(),
        ensures
            r matches Ok(p) ==> p == slot_pos(self.boot_view(), loc.entry_index as int) && p + FCB_SIZE
                <= 0xFFFF * 0xFFFF,
            slot_writable(self.boot_view(), self.fat(), loc.dir_start.0 as int, loc.entry_index as int) ==> r is Ok,
            r matches Err(e) ==> e is CorruptFs,
    {
        let cs = self.cluster_size();
        let ghost b = self.boot_view();
        proof {
            self.lemma_wf();
            lemma_slot_pos(b, loc.entry_index as int);
            lemma_u16_product(b.block_size, b.blocks_per_cluster);
            if slot_writable(b, self.fat(), loc.dir_start.0 as int, loc.entry_index as int) {
                lemma_slot_pos_bound(b, self.fat(), loc.dir_start.0 as int, loc.entry_index as int);
            }
        }
        let epc = cs / FCB_SIZE;
        let i = loc.entry_index as u64;
        let q = i / epc as u64;
        let r = i % epc as u64;
        proof {
            assert(q * cs <= 0xFFFF_FFFFu64 * 0xFFFF_FFFFu64) by (nonlinear_arith)
                requires
                    q <= 0xFFFF_FFFF,
                    cs <= 0xFFFF_FFFF,
            ;
            assert(r * 24 < cs);
        }
        let pos = q * cs as u64 + r * FCB_SIZE as u64;
        if pos > (0xFFFF * 0xFFFF - FCB_SIZE) as u64 {
            return Err(FsError::CorruptFs(String::from_str("directory slot beyond addressable range")));
        }
        Ok(pos as usize)
    }

    /// Reads slot `loc.entry_index` of directory `loc.dir_start`.
    pub(crate) fn read_dir_slot(&self, loc: DirEntryLoc) -> (r: Result<DirSlot, FsError>)
        requires
            self.wf(),
        ensures
            r matches Ok(s) ==> slot_readable(self.boot_view(), self.fat(), loc.dir_start.0 as int, loc.entry_index as int)
                && s.view() == dir_slot(self.boot_view(), self.disk(), self.fat(), loc.dir_start.0 as int, loc.entry_index as int),
            !slot_readable(self.boot_view(), self.fat(), loc.dir_start.0 as int, loc.entry_index as int) ==> r is Err,
            self.reliable() && slot_readable(self.boot_view(), self.fat(), loc.dir_start.0 as int, loc.entry_index as int)
                ==> r is Ok,
            self.reliable() && r is Err ==> r->Err_0 is CorruptFs,
    {
        let ghost b = self.boot_view();
        let ghost i = loc.entry_index as int;
        let ghost dir = loc.dir_start.0 as int;
        proof {
            self.lemma_wf();
            lemma_slot_pos(b, i);
        }
        let pos = match self.slot_offset(loc) {
            Ok(p) => p,
            Err(e) => {
                return Err(e);
            },
        };
        let bytes = self.read_chain_bytes(loc.dir_start, pos, FCB_SIZE)?;
        proof {
            let sb = slot_bytes(b, self.disk(), self.fat(), dir, i);
            let q = i / entries_per_cluster(b);
            let qq: int = q;
            assert(in_data(b, nth(self.fat(), dir, qq as nat)));
            self.lemma_cluster_len(slot_cluster(b, self.fat(), dir, i));
            assert forall|t: int| 0 <= t < FCB_SIZE implies #[trigger] bytes@[t] == sb[t] by {
                lemma_slot_chain_bytes(b, self.disk(), self.fat(), dir, i, t);
                assert(bytes@[t] == chain_byte(b, self.disk(), self.fat(), dir, pos + t));
            }
            assert(bytes@ =~= sb);
        }
        DirSlot::try_from(bytes.as_slice())
    }

    /// Writes `bytes` over slot `loc.entry_index` of directory `loc.dir_start`.
    pub(crate) fn write_dir_slot(&mut self, loc: DirEntryLoc, bytes: &[u8]) -> (r: Result<(), FsError>)
        requires
            old(self).wf(),
            bytes@.len() == FCB_SIZE,
        ensures
            final(self).wf(),
            final(self).boot_view() == old(self).boot_view(),
            final(self).fat() == old(self).fat(),
            final(self).dirty() == old(self).dirty(),
            final(self).reliable() == old(self).reliable(),
            final(self).handles() == old(self).handles(),
            final(self).next_handle_value() == old(self).next_handle_value(),
            final(self).disk().len() == old(self).disk().len(),
            ({
                let b = old(self).boot_view();
                let c = slot_cluster(b, old(self).fat(), loc.dir_start.0 as int, loc.entry_index as int);
                &&& forall|j: int|
                    0 <= j < old(self).disk().len() && !(in_data(b, c) && block_in_cluster(b, c, j)) ==> #[trigger] final(self).disk()[j]
                        == old(self).disk()[j]
                &&& r is Ok ==> slot_writable(b, old(self).fat(), loc.dir_start.0 as int, loc.entry_index as int)
                    && forall|m: int|
                    0 <= m < cluster_size(b) ==> #[trigger] cluster_bytes(b, final(self).disk(), c)[m] == if slot_offset(
                        b,
                        loc.entry_index as int,
                    ) <= m < slot_offset(b, loc.entry_index as int) + FCB_SIZE {
                        bytes@[m - slot_offset(b, loc.entry_index as int)]
                    } else {
                        cluster_bytes(b, old(self).disk(), c)[m]
                    }
            }),
            !slot_writable(old(self).boot_view(), old(self).fat(), loc.dir_start.0 as int, loc.entry_index as int) ==> r is Err,
            old(self).reliable() && slot_writable(old(self).boot_view(), old(self).fat(), loc.dir_start.0 as int, loc.entry_index as int)
                ==> r is Ok,
            old(self).reliable() && r is Err ==> r->Err_0 is CorruptFs,
    {
        let ghost b = self.boot_view();
        let ghost fat = self.fat();
        let ghost d0 = self.disk();
        let ghost i = loc.entry_index as int;
        let ghost dir = loc.dir_start.0 as int;
        let ghost q = i / entries_per_cluster(b);
        let ghost c = slot_cluster(b, fat, dir, i);
        proof {
            self.lemma_wf();
            lemma_slot_pos(b, i);
        }
        let pos = match self.slot_offset(loc) {
            Ok(p) => p,
            Err(e) => {
                return Err(e);
            },
        };
        let res = self.write_chain_bytes(loc.dir_start, pos, bytes);
        proof {
            let d1 = self.disk();
            let cs = cluster_size(b);
            assert(clusters_for(b, pos + FCB_SIZE) == q + 1);
            assert((pos as int) / cs == q);
            assert forall|j: int| 0 <= j < d0.len() && !(in_data(b, c) && block_in_cluster(b, c, j)) implies #[trigger] d1[j] == d0[j] by {
                if block_in_walk(b, fat, dir, q, (q + 1) as nat, j) {
                    let k = choose|k: int|
                        #![trigger nth(fat, dir, k as nat)]
                        q <= k < q + 1 && in_data(b, nth(fat, dir, k as nat)) && block_in_cluster(b, nth(fat, dir, k as nat), j);
                    assert(k == q);
                }
            }
            if res is Ok {
                assert forall|m: int| 0 <= m < cs implies #[trigger] cluster_bytes(b, d1, c)[m] == if slot_offset(b, i) <= m
                    < slot_offset(b, i) + FCB_SIZE {
                    bytes@[m - slot_offset(b, i)]
                } else {
                    cluster_bytes(b, d0, c)[m]
                } by {
                    let p = q * cs + m;
                    vstd::arithmetic::div_mod::lemma_fundamental_div_mod_converse(p, cs, q, m);
                    assert(p < (q + 1) * cs) by (nonlinear_arith)
                        requires
                            p == q * cs + m,
                            m < cs,
                    ;
                    assert(chain_byte(b, d1, fat, dir, p) == cluster_bytes(b, d1, c)[m]);
                    assert(chain_byte(b, d0, fat, dir, p) == cluster_bytes(b, d0, c)[m]);
                    assert(slot_pos(b, i) == q * cs + slot_offset(b, i));
                }
            }
        }
        res
    }
}


/// A chain of `n` clusters holds fewer than 2^32 - 1 slots.
pub proof fn lemma_slot_count_bound(b: BootSector, fat: Seq<FatEntry>, dir: int, n: nat)
    requires
        geo_wf(b),
        chain_ok(b, fat, dir, n),
    ensures
        n * entries_per_cluster(b) < 0xFFFF_FFFF,
        n * entries_per_cluster(b) * 24 <= 0xFFFF * 0xFFFF,
        n <= data_clusters(b),
{
    assert(data_clusters(b) >= 1) by (nonlinear_arith)
        requires
            b.block_count - data_start(b) >= bpc(b),
            bpc(b) >= 1,
            data_clusters(b) == (b.block_count - data_start(b)) / bpc(b),
    ;
    lemma_chain_len_bound(b, fat, dir, n);
    let d = data_clusters(b);
    let p = bpc(b);
    let s = bs(b);
    let cs = cluster_size(b);
    let e = entries_per_cluster(b);
    assert(d * p <= b.block_count - data_start(b)) by (nonlinear_arith)
        requires
            d == (b.block_count - data_start(b)) / p,
            p >= 1,
            b.block_count - data_start(b) >= 0,
    ;
    assert(e * 24 <= cs) by (nonlinear_arith)
        requires
            e == cs / 24,
            cs >= 24,
    ;
    assert(n * e * 24 <= 0xFFFF * 0xFFFF) by (nonlinear_arith)
        requires
            n <= d,
            e * 24 <= cs,
            cs == s * p,
            d * p <= 0xFFFF,
            s <= 0xFFFF,
            e >= 0,
            p >= 1,
    ;
}

/// Writing a slot changes that slot and no other.
pub proof fn lemma_slot_after_write(
    b: BootSector,
    fat: Seq<FatEntry>,
    d0: Seq<Seq<u8>>,
    d1: Seq<Seq<u8>>,
    dir: int,
    i: int,
    bytes: Seq<u8>,
    dir2: int,
    j: int,
)
    requires
        geo_wf(b),
        d0.len() >= b.block_count,
        d1.len() == d0.len(),
        forall|k: int| 0 <= k < d0.len() ==> #[trigger] d0[k].len() == bs(b),
        forall|k: int| 0 <= k < d1.len() ==> #[trigger] d1[k].len() == bs(b),
        i >= 0,
        j >= 0,
        bytes.len() == FCB_SIZE,
        in_data(b, slot_cluster(b, fat, dir, i)),
        in_data(b, slot_cluster(b, fat, dir2, j)),
        forall|k: int|
            0 <= k < d0.len() && !(in_data(b, slot_cluster(b, fat, dir, i)) && block_in_cluster(b, slot_cluster(b, fat, dir, i), k))
                ==> #[trigger] d1[k] == d0[k],
        forall|m: int|
            0 <= m < cluster_size(b) ==> #[trigger] cluster_bytes(b, d1, slot_cluster(b, fat, dir, i))[m] == if slot_offset(b, i) <= m
                < slot_offset(b, i) + FCB_SIZE {
                bytes[m - slot_offset(b, i)]
            } else {
                cluster_bytes(b, d0, slot_cluster(b, fat, dir, i))[m]
            },
    ensures
        slot_bytes(b, d1, fat, dir2, j) == if slot_cluster(b, fat, dir2, j) == slot_cluster(b, fat, dir, i) && slot_offset(b, j)
            == slot_offset(b, i) {
            bytes
        } else {
            slot_bytes(b, d0, fat, dir2, j)
        },
{
    let c = slot_cluster(b, fat, dir, i);
    let c2 = slot_cluster(b, fat, dir2, j);
    lemma_slot_pos(b, i);
    lemma_slot_pos(b, j);
    crate::myfs::lemma_cluster_range(b, c);
    crate::myfs::lemma_cluster_range(b, c2);
    crate::dev::lemma_concat_blocks_len(d0, crate::layout::first_block(b, c2), bpc(b) as nat, bs(b) as nat);
    crate::dev::lemma_concat_blocks_len(d0, crate::layout::first_block(b, c), bpc(b) as nat, bs(b) as nat);
    crate::dev::lemma_concat_blocks_len(d1, crate::layout::first_block(b, c), bpc(b) as nat, bs(b) as nat);
    crate::dev::lemma_concat_blocks_len(d1, crate::layout::first_block(b, c2), bpc(b) as nat, bs(b) as nat);
    assert(bpc(b) * bs(b) == cluster_size(b)) by (nonlinear_arith);
    let oi = slot_offset(b, i);
    let oj = slot_offset(b, j);
    if c2 != c {
        assert forall|k: int|
            crate::layout::first_block(b, c2) <= k < crate::layout::first_block(b, c2) + bpc(b) implies #[trigger] d1[k] == d0[k] by {
            crate::myfs::lemma_clusters_disjoint(b, c2, c, k);
        }
        crate::dev::lemma_concat_blocks_agree(d1, d0, crate::layout::first_block(b, c2), bpc(b) as nat);
    } else {
        let e = entries_per_cluster(b);
        assert(oi % 24 == 0 && oj % 24 == 0) by (nonlinear_arith)
            requires
                oi == (i % e) * 24,
                oj == (j % e) * 24,
        ;
        let n0 = slot_bytes(b, d0, fat, dir2, j);
        let n1 = slot_bytes(b, d1, fat, dir2, j);
        if oi == oj {
            assert forall|t: int| 0 <= t < FCB_SIZE implies #[trigger] n1[t] == bytes[t] by {
                assert(cluster_bytes(b, d1, c)[oj + t] == bytes[t]);
            }
            assert(n1 =~= bytes);
        } else {
            assert(oj + 24 <= oi || oi + 24 <= oj);
            assert forall|t: int| 0 <= t < FCB_SIZE implies #[trigger] n1[t] == n0[t] by {
                assert(cluster_bytes(b, d1, c)[oj + t] == cluster_bytes(b, d0, c)[oj + t]);
            }
            assert(n1 =~= n0);
        }
    }
}

impl<D: BufferedBlockDevice> MyFileSystem<D> {
    /// The file control block in an occupied slot.
    pub fn read_fcb_at(&self, loc: DirEntryLoc) -> (r: Result<Fcb, FsError>)
        requires
            self.wf(),
        ensures
            r matches Ok(f) ==> slot_readable(self.boot_view(), self.fat(), loc.dir_start.0 as int, loc.entry_index as int)
                && dir_slot(self.boot_view(), self.disk(), self.fat(), loc.dir_start.0 as int, loc.entry_index as int)
                == SlotView::Occupied(f@),
            self.reliable() && slot_readable(self.boot_view(), self.fat(), loc.dir_start.0 as int, loc.entry_index as int) && !(dir_slot(
                self.boot_view(),
                self.disk(),
                self.fat(),
                loc.dir_start.0 as int,
                loc.entry_index as int,
            ) is Occupied) ==> (r matches Err(e) && e == FsError::NotFoundAt(loc)),
            !slot_readable(self.boot_view(), self.fat(), loc.dir_start.0 as int, loc.entry_index as int) ==> r is Err,
            self.reliable() && !slot_readable(self.boot_view(), self.fat(), loc.dir_start.0 as int, loc.entry_index as int)
                ==> r->Err_0 is CorruptFs,
            self.reliable() && slot_readable(self.boot_view(), self.fat(), loc.dir_start.0 as int, loc.entry_index as int) && dir_slot(
                self.boot_view(),
                self.disk(),
                self.fat(),
                loc.dir_start.0 as int,
                loc.entry_index as int,
            ) is Occupied ==> r is Ok,
    {
        match self.read_dir_slot(loc)? {
            DirSlot::Occupied(fcb) => Ok(fcb),
            _ => Err(FsError::NotFoundAt(loc)),
        }
    }

    /// Writes a file control block into a slot.
    pub(crate) fn write_fcb_at(&mut self, loc: DirEntryLoc, fcb: &Fcb) -> (r: Result<(), FsError>)
        requires
            old(self).wf(),
        ensures
            crate::myfs::meta_kept(old(self).boot_view(), old(self).disk(), final(self).disk()),
            final(self).wf(),
            final(self).boot_view() == old(self).boot_view(),
            final(self).fat() == old(self).fat(),
            final(self).dirty() == old(self).dirty(),
            final(self).reliable() == old(self).reliable(),
            final(self).handles() == old(self).handles(),
            final(self).next_handle_value() == old(self).next_handle_value(),
            final(self).disk().len() == old(self).disk().len(),
            forall|j: int|
                0 <= j < old(self).disk().len() && !(in_data(old(self).boot_view(), slot_cluster(old(self).boot_view(), old(self).fat(), loc.dir_start.0 as int, loc.entry_index as int))
                    && block_in_cluster(old(self).boot_view(), slot_cluster(old(self).boot_view(), old(self).fat(), loc.dir_start.0 as int, loc.entry_index as int), j))
                    ==> #[trigger] final(self).disk()[j] == old(self).disk()[j],
            r is Ok ==> slot_writable(old(self).boot_view(), old(self).fat(), loc.dir_start.0 as int, loc.entry_index as int)
                && forall|dir2: int, j: int|
                j >= 0 && #[trigger] in_data(old(self).boot_view(), slot_cluster(old(self).boot_view(), old(self).fat(), dir2, j))
                    ==> #[trigger] slot_bytes(old(self).boot_view(), final(self).disk(), old(self).fat(), dir2, j) == if slot_cluster(
                    old(self).boot_view(),
                    old(self).fat(),
                    dir2,
                    j,
                ) == slot_cluster(old(self).boot_view(), old(self).fat(), loc.dir_start.0 as int, loc.entry_index as int)
                    && slot_offset(old(self).boot_view(), j) == slot_offset(old(self).boot_view(), loc.entry_index as int) {
                    fcb_bytes(fcb@)
                } else {
                    slot_bytes(old(self).boot_view(), old(self).disk(), old(self).fat(), dir2, j)
                },
            !slot_writable(old(self).boot_view(), old(self).fat(), loc.dir_start.0 as int, loc.entry_index as int) ==> r is Err,
            old(self).reliable() && slot_writable(old(self).boot_view(), old(self).fat(), loc.dir_start.0 as int, loc.entry_index as int)
                ==> r is Ok,
            old(self).reliable() && r is Err ==> r->Err_0 is CorruptFs,
    {
        let bytes = fcb.as_bytes();
        self.write_slot_bytes(loc, bytes.as_slice())
    }

    /// Marks a slot as deleted.
    pub(crate) fn delete_dir_slot(&mut self, loc: DirEntryLoc) -> (r: Result<(), FsError>)
        requires
            old(self).wf(),
        ensures
            crate::myfs::meta_kept(old(self).boot_view(), old(self).disk(), final(self).disk()),
            final(self).wf(),
            final(self).boot_view() == old(self).boot_view(),
            final(self).fat() == old(self).fat(),
            final(self).dirty() == old(self).dirty(),
            final(self).reliable() == old(self).reliable(),
            final(self).handles() == old(self).handles(),
            final(self).next_handle_value() == old(self).next_handle_value(),
            final(self).disk().len() == old(self).disk().len(),
            forall|j: int|
                0 <= j < old(self).disk().len() && !(in_data(old(self).boot_view(), slot_cluster(old(self).boot_view(), old(self).fat(), loc.dir_start.0 as int, loc.entry_index as int))
                    && block_in_cluster(old(self).boot_view(), slot_cluster(old(self).boot_view(), old(self).fat(), loc.dir_start.0 as int, loc.entry_index as int), j))
                    ==> #[trigger] final(self).disk()[j] == old(self).disk()[j],
            r is Ok ==> slot_writable(old(self).boot_view(), old(self).fat(), loc.dir_start.0 as int, loc.entry_index as int)
                && forall|dir2: int, j: int|
                j >= 0 && #[trigger] in_data(old(self).boot_view(), slot_cluster(old(self).boot_view(), old(self).fat(), dir2, j))
                    ==> #[trigger] slot_bytes(old(self).boot_view(), final(self).disk(), old(self).fat(), dir2, j) == if slot_cluster(
                    old(self).boot_view(),
                    old(self).fat(),
                    dir2,
                    j,
                ) == slot_cluster(old(self).boot_view(), old(self).fat(), loc.dir_start.0 as int, loc.entry_index as int)
                    && slot_offset(old(self).boot_view(), j) == slot_offset(old(self).boot_view(), loc.entry_index as int) {
                    deleted_slot_bytes()
                } else {
                    slot_bytes(old(self).boot_view(), old(self).disk(), old(self).fat(), dir2, j)
                },
            !slot_writable(old(self).boot_view(), old(self).fat(), loc.dir_start.0 as int, loc.entry_index as int) ==> r is Err,
            old(self).reliable() && slot_writable(old(self).boot_view(), old(self).fat(), loc.dir_start.0 as int, loc.entry_index as int)
                ==> r is Ok,
            old(self).reliable() && r is Err ==> r->Err_0 is CorruptFs,
    {
        let mut bytes: Vec<u8> = Vec::new();
        bytes.push(SLOT_DELETED);
        while bytes.len() < FCB_SIZE
            invariant
                1 <= bytes@.len() <= FCB_SIZE,
                bytes@[0] == SLOT_DELETED,
                forall|k: int| 1 <= k < bytes@.len() ==> #[trigger] bytes@[k] == 0u8,
            decreases FCB_SIZE - bytes@.len(),
        {
            bytes.push(0u8);
        }
        proof {
            assert(bytes@ =~= deleted_slot_bytes());
        }
        self.write_slot_bytes(loc, bytes.as_slice())
    }

    /// Writes `bytes` over a slot; every other slot keeps its bytes.
    fn write_slot_bytes(&mut self, loc: DirEntryLoc, bytes: &[u8]) -> (r: Result<(), FsError>)
        requires
            old(self).wf(),
            bytes@.len() == FCB_SIZE,
        ensures
            final(self).wf(),
            final(self).boot_view() == old(self).boot_view(),
            final(self).fat() == old(self).fat(),
            final(self).dirty() == old(self).dirty(),
            final(self).reliable() == old(self).reliable(),
            final(self).handles() == old(self).handles(),
            final(self).next_handle_value() == old(self).next_handle_value(),
            final(self).disk().len() == old(self).disk().len(),
            forall|j: int|
                0 <= j < old(self).disk().len() && !(in_data(old(self).boot_view(), slot_cluster(old(self).boot_view(), old(self).fat(), loc.dir_start.0 as int, loc.entry_index as int))
                    && block_in_cluster(old(self).boot_view(), slot_cluster(old(self).boot_view(), old(self).fat(), loc.dir_start.0 as int, loc.entry_index as int), j))
                    ==> #[trigger] final(self).disk()[j] == old(self).disk()[j],
            r is Ok ==> slot_writable(old(self).boot_view(), old(self).fat(), loc.dir_start.0 as int, loc.entry_index as int)
                && forall|dir2: int, j: int|
                j >= 0 && #[trigger] in_data(old(self).boot_view(), slot_cluster(old(self).boot_view(), old(self).fat(), dir2, j))
                    ==> #[trigger] slot_bytes(old(self).boot_view(), final(self).disk(), old(self).fat(), dir2, j) == if slot_cluster(
                    old(self).boot_view(),
                    old(self).fat(),
                    dir2,
                    j,
                ) == slot_cluster(old(self).boot_view(), old(self).fat(), loc.dir_start.0 as int, loc.entry_index as int)
                    && slot_offset(old(self).boot_view(), j) == slot_offset(old(self).boot_view(), loc.entry_index as int) {
                    bytes@
                } else {
                    slot_bytes(old(self).boot_view(), old(self).disk(), old(self).fat(), dir2, j)
                },
            !slot_writable(old(self).boot_view(), old(self).fat(), loc.dir_start.0 as int, loc.entry_index as int) ==> r is Err,
            old(self).reliable() && slot_writable(old(self).boot_view(), old(self).fat(), loc.dir_start.0 as int, loc.entry_index as int)
                ==> r is Ok,
            old(self).reliable() && r is Err ==> r->Err_0 is CorruptFs,
    {
        let ghost d0 = self.disk();
        proof {
            self.lemma_wf();
        }
        let res = self.write_dir_slot(loc, bytes);
        proof {
            self.lemma_wf();
            if res is Ok {
                let b = self.boot_view();
                let fat = self.fat();
                let i = loc.entry_index as int;
                let dir = loc.dir_start.0 as int;
                let kk: int = i / entries_per_cluster(b);
                assert(in_data(b, nth(fat, dir, kk as nat)));
                assert forall|dir2: int, j: int|
                    j >= 0 && #[trigger] in_data(b, slot_cluster(b, fat, dir2, j)) implies #[trigger] slot_bytes(b, self.disk(), fat, dir2, j)
                        == if slot_cluster(b, fat, dir2, j) == slot_cluster(b, fat, dir, i) && slot_offset(b, j) == slot_offset(b, i) {
                        bytes@
                    } else {
                        slot_bytes(b, d0, fat, dir2, j)
                    } by {
                    lemma_slot_after_write(b, fat, d0, self.disk(), dir, i, bytes@, dir2, j);
                }
            }
        }
        res
    }
}

/// The bytes of a deleted slot.
pub open spec fn deleted_slot_bytes() -> Seq<u8> {
    Seq::new(FCB_SIZE as nat, |k: int| if k == 0 { SLOT_DELETED } else { 0u8 })
}

} // verus!
