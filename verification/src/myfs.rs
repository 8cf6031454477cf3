//! The filesystem: geometry, block and cluster I/O, and the in-memory FAT.

use vstd::prelude::*;

use crate::config::config_valid;
use crate::config::fat_entries_of;
use crate::config::lemma_u16_product;
use crate::dev::concat_blocks;
use crate::dev::lemma_concat_blocks_agree;
use crate::dev::lemma_concat_blocks_eq;
use crate::dev::lemma_concat_blocks_index;
use crate::dev::lemma_concat_blocks_len;
use crate::dev::zero_bytes;
use crate::dev::BufferedBlockDevice;
use crate::error::DirEntryLoc;
use crate::error::FsError;
use crate::fat::FatEntry;
use crate::fs::BlockId;
use crate::fs::BootSector;
use crate::fs::ClusterId;
use crate::fs::Fcb;
use crate::fs::FileHandle;
use crate::fs::ROOT_DIR_START;
use crate::layout::bs;
use crate::layout::bpc;
use crate::layout::fbc;
use crate::layout::data_start;
use crate::layout::cluster_size;
use crate::layout::data_clusters;
use crate::layout::max_cluster;
use crate::layout::in_data;
use crate::layout::first_block;
use crate::layout::block_in_cluster;
use crate::layout::fat_block;
use crate::layout::entries_per_cluster;
use crate::layout::geo_wf;
use crate::layout::cluster_bytes;
use crate::layout::next_of;
use crate::layout::nth;
use crate::layout::follow;
use crate::layout::chain_ok;
use crate::layout::iter_ok;
use crate::layout::chain_ends;
use crate::layout::full_chain;
use crate::layout::chain_data;
use crate::layout::block_in_chain;
use crate::layout::slot_cluster;
use crate::layout::slot_offset;
use crate::layout::slot_readable;
use crate::layout::slot_bytes;
use crate::layout::fat_image;
use crate::layout::fat_copy_bytes;

verus! {

pub const MAX_OPEN_FILES: usize = 10;

/// State of an opened file.
#[derive(Debug, Clone)]
pub struct OpenFile {
    pub handle: FileHandle,
    pub loc: DirEntryLoc,
    pub cursor: usize,
    pub fcb: Fcb,
}

/// Main object for a mounted MyFileSystem instance.
pub struct MyFileSystem<D: BufferedBlockDevice> {
    /// The boot sector.
    pub(crate) boot: BootSector,
    /// The underlying disk device.
    pub(crate) device: D,
    /// In-memory cache of FAT.
    pub(crate) fat_m: Vec<FatEntry>,
    /// Is the FAT cache modified since it was last written out?
    pub(crate) fat_dirty: bool,
    /// Opened file handles with holes.
    pub(crate) open_files: Vec<Option<OpenFile>>,
    pub(crate) next_handle: u32,
}

/// Blocks of a disk that differ between two states lie in cluster `c`.
pub open spec fn only_cluster_changed(b: BootSector, d0: Seq<Seq<u8>>, d1: Seq<Seq<u8>>, c: int) -> bool {
    &&& d1.len() == d0.len()
    &&& forall|j: int| 0 <= j < d0.len() && !block_in_cluster(b, c, j) ==> #[trigger] d1[j] == d0[j]
}

/// Zero bytes.
pub open spec fn zeros(n: int) -> Seq<u8> {
    Seq::new(n as nat, |k: int| 0u8)
}

pub proof fn lemma_cluster_range(b: BootSector, c: int)
    requires
        geo_wf(b),
        in_data(b, c),
    ensures
        data_start(b) <= first_block(b, c),
        first_block(b, c) + bpc(b) <= b.block_count,
{
    let d = data_clusters(b);
    let p = bpc(b);
    let ds = data_start(b);
    let bc = b.block_count as int;
    assert(d * p <= bc - ds) by (nonlinear_arith)
        requires
            d == (bc - ds) / p,
            p >= 1,
            bc - ds >= 0,
    ;
    assert((c - 2) * p + p <= d * p) by (nonlinear_arith)
        requires
            0 <= c - 2 <= d - 1,
            p >= 1,
    ;
    assert(0 <= (c - 2) * p) by (nonlinear_arith)
        requires
            0 <= c - 2,
            p >= 1,
    ;
}

pub proof fn lemma_clusters_disjoint(b: BootSector, c1: int, c2: int, j: int)
    requires
        geo_wf(b),
        c1 != c2,
        block_in_cluster(b, c1, j),
    ensures
        !block_in_cluster(b, c2, j),
{
    let p = bpc(b);
    if c1 < c2 {
        assert((c1 - 2) * p + p <= (c2 - 2) * p) by (nonlinear_arith)
            requires
                c1 < c2,
                p >= 1,
        ;
    } else {
        assert((c2 - 2) * p + p <= (c1 - 2) * p) by (nonlinear_arith)
            requires
                c2 < c1,
                p >= 1,
        ;
    }
}

/// A cluster other than the one written keeps its bytes.
pub proof fn lemma_cluster_unchanged(b: BootSector, d0: Seq<Seq<u8>>, d1: Seq<Seq<u8>>, c: int, c2: int)
    requires
        geo_wf(b),
        only_cluster_changed(b, d0, d1, c),
        in_data(b, c2),
        c2 != c,
        d0.len() >= b.block_count,
    ensures
        cluster_bytes(b, d1, c2) == cluster_bytes(b, d0, c2),
{
    lemma_cluster_range(b, c2);
    assert forall|k: int| first_block(b, c2) <= k < first_block(b, c2) + bpc(b) implies #[trigger] d1[k] == d0[k] by {
        lemma_clusters_disjoint(b, c2, c, k);
    }
    lemma_concat_blocks_agree(d1, d0, first_block(b, c2), bpc(b) as nat);
}

impl<D: BufferedBlockDevice> MyFileSystem<D> {
    pub closed spec fn boot_view(&self) -> BootSector {
        self.boot
    }

    /// The blocks of the device.
    pub closed spec fn disk(&self) -> Seq<Seq<u8>> {
        self.device.blocks()
    }

    /// The in-memory FAT.
    pub closed spec fn fat(&self) -> Seq<FatEntry> {
        self.fat_m@
    }

    pub closed spec fn dirty(&self) -> bool {
        self.fat_dirty
    }

    /// Device requests within range never fail.
    pub closed spec fn reliable(&self) -> bool {
        self.device.reliable()
    }

    /// The open-file table.
    pub closed spec fn handles(&self) -> Seq<Option<OpenFile>> {
        self.open_files@
    }

    pub closed spec fn next_handle_value(&self) -> u32 {
        self.next_handle
    }

    pub closed spec fn wf(&self) -> bool {
        &&& geo_wf(self.boot)
        &&& config_valid(self.boot.block_size, self.boot.block_count, self.boot.blocks_per_cluster)
        &&& self.device.wf()
        &&& self.device.spec_block_size() == self.boot.block_size
        &&& self.device.blocks().len() >= self.boot.block_count
        &&& self.fat_m@.len() == fat_entries_of(bs(self.boot), fbc(self.boot))
        &&& self.open_files@.len() == MAX_OPEN_FILES
        &&& locations_distinct(self.open_files@)
    }

    pub proof fn lemma_wf(&self)
        requires
            self.wf(),
        ensures
            geo_wf(self.boot_view()),
            config_valid(self.boot_view().block_size, self.boot_view().block_count, self.boot_view().blocks_per_cluster),
            self.fat().len() == fat_entries_of(bs(self.boot_view()), fbc(self.boot_view())),
            self.fat().len() > max_cluster(self.boot_view()),
            max_cluster(self.boot_view()) >= 2,
            self.disk().len() >= self.boot_view().block_count,
            forall|j: int|
                0 <= j < self.disk().len() ==> #[trigger] self.disk()[j].len()
                    == self.boot_view().block_size,
            self.handles().len() == MAX_OPEN_FILES,
            locations_distinct(self.handles()),
    {
        self.device.lemma_wf_block_lengths();
        let b = self.boot;
        assert(data_clusters(b) >= 1) by (nonlinear_arith)
            requires
                b.block_count - data_start(b) >= bpc(b),
                bpc(b) >= 1,
                data_clusters(b) == (b.block_count - data_start(b)) / bpc(b),
        ;
    }

    /// A data cluster holds `cluster_size` bytes.
    pub proof fn lemma_cluster_len(&self, c: int)
        requires
            self.wf(),
            in_data(self.boot_view(), c),
        ensures
            cluster_bytes(self.boot_view(), self.disk(), c).len() == cluster_size(self.boot_view()),
    {
        let b = self.boot;
        self.lemma_wf();
        lemma_cluster_range(b, c);
        lemma_concat_blocks_len(self.disk(), first_block(b, c), bpc(b) as nat, bs(b) as nat);
        assert(bpc(b) * bs(b) == bs(b) * bpc(b)) by (nonlinear_arith);
    }

    /// Number of entries in the in-memory FAT.
    pub(crate) fn fat_len(&self) -> (r: usize)
        ensures
            r == self.fat().len(),
    {
        self.fat_m.len()
    }

    /// The boot sector.
    pub fn boot_sector(&self) -> (r: &BootSector)
        ensures
            *r == self.boot_view(),
    {
        &self.boot
    }

    /// Is the FAT cache modified since it was last written out?
    pub fn fat_dirty(&self) -> (r: bool)
        ensures
            r == self.dirty(),
    {
        self.fat_dirty
    }

    /// Cluster size in bytes.
    pub fn cluster_size(&self) -> (r: usize)
        requires
            self.wf(),
        ensures
            r == cluster_size(self.boot_view()),
    {
        proof {
            lemma_u16_product(self.boot.block_size, self.boot.blocks_per_cluster);
        }
        self.boot.block_size as usize * self.boot.blocks_per_cluster as usize
    }

    /// First block of FAT copy `copy_idx`.
    pub(crate) fn fat_start_block_of(&self, copy_idx: u16) -> (r: BlockId)
        requires
            self.wf(),
            copy_idx < self.boot_view().fat_copies,
        ensures
            r.0 == fat_block(self.boot_view(), copy_idx as int, 0),
            r.0 + fbc(self.boot_view()) < self.boot_view().block_count,
    {
        proof {
            let b = self.boot;
            assert(copy_idx * fbc(b) + fbc(b) <= b.fat_copies * fbc(b)) by (nonlinear_arith)
                requires
                    copy_idx < b.fat_copies,
                    fbc(b) >= 1,
            ;
            assert(0 <= copy_idx * fbc(b)) by (nonlinear_arith)
                requires
                    fbc(b) >= 1,
            ;
        }
        BlockId(self.boot.fat_start_block.0 + copy_idx * self.boot.fat_block_count)
    }

    pub(crate) fn data_cluster_count(&self) -> (r: u16)
        requires
            self.wf(),
        ensures
            r == data_clusters(self.boot_view()),
    {
        (self.boot.block_count - self.boot.data_start_block.0) / self.boot.blocks_per_cluster
    }

    pub(crate) fn max_cluster_id(&self) -> (r: ClusterId)
        requires
            self.wf(),
        ensures
            r.0 == max_cluster(self.boot_view()),
    {
        proof {
            let b = self.boot;
            assert(data_clusters(b) >= 1) by (nonlinear_arith)
                requires
                    b.block_count - data_start(b) >= bpc(b),
                    bpc(b) >= 1,
                    data_clusters(b) == (b.block_count - data_start(b)) / bpc(b),
            ;
        }
        ClusterId(self.data_cluster_count() - 1 + ROOT_DIR_START)
    }

    pub(crate) fn cluster_first_block(&self, cluster: ClusterId) -> (r: Result<BlockId, FsError>)
        requires
            self.wf(),
        ensures
            in_data(self.boot_view(), cluster.0 as int) ==> (r matches Ok(bl) && bl.0 == first_block(
                self.boot_view(),
                cluster.0 as int,
            )),
            !in_data(self.boot_view(), cluster.0 as int) ==> r is Err && r->Err_0 is CorruptFs,
    {
        if cluster.0 < ROOT_DIR_START || cluster.0 > self.max_cluster_id().0 {
            return Err(FsError::CorruptFs(crate::report::numbered_text("cluster ", cluster.0 as u64, " outside data region")));
        }
        proof {
            lemma_cluster_range(self.boot, cluster.0 as int);
            lemma_u16_product((cluster.0 - ROOT_DIR_START) as u16, self.boot.blocks_per_cluster);
        }
        Ok(BlockId(self.boot.data_start_block.0 + (cluster.0 - ROOT_DIR_START) * self.boot.blocks_per_cluster))
    }

    /// The blocks that make up a data cluster.
    pub fn cluster_blocks(&self, cluster: ClusterId) -> (r: Result<Vec<BlockId>, FsError>)
        requires
            self.wf(),
        ensures
            in_data(self.boot_view(), cluster.0 as int) ==> (r matches Ok(v) && v@.len() == bpc(
                self.boot_view(),
            ) && forall|k: int|
                0 <= k < v@.len() ==> #[trigger] v@[k].0 == first_block(
                    self.boot_view(),
                    cluster.0 as int,
                ) + k),
            !in_data(self.boot_view(), cluster.0 as int) ==> r is Err && r->Err_0 is CorruptFs,
    {
        let first = self.cluster_first_block(cluster)?;
        proof {
            lemma_cluster_range(self.boot, cluster.0 as int);
        }
        let mut out: Vec<BlockId> = Vec::new();
        let mut offset: u16 = 0;
        while offset < self.boot.blocks_per_cluster
            invariant
                self.wf(),
                first.0 + bpc(self.boot_view()) <= self.boot_view().block_count,
                offset <= bpc(self.boot_view()),
                out@.len() == offset,
                forall|k: int| 0 <= k < out@.len() ==> #[trigger] out@[k].0 == first.0 + k,
            decreases self.boot.blocks_per_cluster - offset,
        {
            out.push(BlockId(first.0 + offset));
            offset += 1;
        }
        Ok(out)
    }

    /// Position (block within the FAT, byte within that block) of a cluster's FAT entry.
    pub(crate) fn fat_pos_of(&self, cluster: ClusterId) -> (r: Result<(usize, usize), FsError>)
        requires
            self.wf(),
        ensures
            in_data(self.boot_view(), cluster.0 as int) ==> r == Ok::<(usize, usize), FsError>(
                ((cluster.0 * 2 / bs(self.boot_view())) as usize, (cluster.0 * 2 % bs(
                    self.boot_view(),
                )) as usize),
            ),
            !in_data(self.boot_view(), cluster.0 as int) ==> r is Err && r->Err_0 is CorruptFs,
    {
        if cluster.0 < ROOT_DIR_START || cluster.0 > self.max_cluster_id().0 {
            return Err(FsError::CorruptFs(crate::report::numbered_text("cluster ", cluster.0 as u64, " outside data region")));
        }
        let offset = crate::fat::fat_offset(cluster);
        let block_offset = offset / self.boot.block_size as usize;
        let byte_offset = offset % self.boot.block_size as usize;
        Ok((block_offset, byte_offset))
    }

    /// The FAT entry of a data cluster.
    pub fn read_fat(&self, cluster: ClusterId) -> (r: Result<FatEntry, FsError>)
        requires
            self.wf(),
        ensures
            in_data(self.boot_view(), cluster.0 as int) ==> r == Ok::<FatEntry, FsError>(
                self.fat()[cluster.0 as int],
            ),
            !in_data(self.boot_view(), cluster.0 as int) ==> r is Err && r->Err_0 is CorruptFs,
    {
        let _ = self.fat_pos_of(cluster)?;
        proof {
            self.lemma_wf();
        }
        Ok(self.fat_m[cluster.0 as usize])
    }

    /// Sets the FAT entry of a data cluster in the cache.
    pub(crate) fn write_fat(&mut self, cluster: ClusterId, value: FatEntry) -> (r: Result<(), FsError>)
        requires
            old(self).wf(),
        ensures
            final(self).wf(),
            final(self).disk() == old(self).disk(),
            final(self).boot_view() == old(self).boot_view(),
            final(self).reliable() == old(self).reliable(),
            final(self).handles() == old(self).handles(),
            final(self).next_handle_value() == old(self).next_handle_value(),
            in_data(old(self).boot_view(), cluster.0 as int) ==> r is Ok && final(self).fat()
                == old(self).fat().update(cluster.0 as int, value) && final(self).dirty(),
            !in_data(old(self).boot_view(), cluster.0 as int) ==> r is Err && r->Err_0 is CorruptFs
                && final(self).fat() == old(self).fat() && final(self).dirty() == old(self).dirty(),
    {
        let _ = self.fat_pos_of(cluster)?;
        proof {
            self.lemma_wf();
        }
        self.fat_m.set(cluster.0 as usize, value);
        self.fat_dirty = true;
        Ok(())
    }

    /// Reads one block of the device.
    pub fn read_device_block(&self, block: BlockId) -> (r: Result<Vec<u8>, FsError>)
        requires
            self.wf(),
        ensures
            r matches Ok(v) ==> block.0 < self.disk().len() && v@ == self.disk()[block.0 as int],
            self.reliable() && block.0 < self.disk().len() ==> r is Ok,
    {
        let mut out = zero_bytes(self.boot.block_size as usize);
        self.device.read_block_into(block, out.as_mut_slice())?;
        Ok(out)
    }

    pub(crate) fn write_device_block(&mut self, block: BlockId, data: &[u8]) -> (r: Result<(), FsError>)
        requires
            old(self).wf(),
        ensures
            final(self).wf(),
            final(self).boot_view() == old(self).boot_view(),
            final(self).fat() == old(self).fat(),
            final(self).dirty() == old(self).dirty(),
            final(self).reliable() == old(self).reliable(),
            final(self).handles() == old(self).handles(),
            final(self).next_handle_value() == old(self).next_handle_value(),
            final(self).disk().len() == old(self).disk().len(),
            r is Ok ==> block.0 < old(self).disk().len() && data@.len() == old(self).boot_view().block_size
                && final(self).disk() == old(self).disk().update(block.0 as int, data@),
            forall|j: int|
                0 <= j < old(self).disk().len() && j != block.0 ==> #[trigger] final(self).disk()[j]
                    == old(self).disk()[j],
            old(self).reliable() && block.0 < old(self).disk().len() && data@.len()
                == old(self).boot_view().block_size ==> r is Ok,
    {
        self.device.write_block_from(block, data)
    }

    pub(crate) fn zero_device_block(&mut self, block: BlockId) -> (r: Result<(), FsError>)
        requires
            old(self).wf(),
        ensures
            final(self).wf(),
            final(self).boot_view() == old(self).boot_view(),
            final(self).fat() == old(self).fat(),
            final(self).dirty() == old(self).dirty(),
            final(self).reliable() == old(self).reliable(),
            final(self).handles() == old(self).handles(),
            final(self).next_handle_value() == old(self).next_handle_value(),
            final(self).disk().len() == old(self).disk().len(),
            r is Ok ==> block.0 < old(self).disk().len() && final(self).disk() == old(self).disk().update(
                block.0 as int,
                zeros(old(self).boot_view().block_size as int),
            ),
            forall|j: int|
                0 <= j < old(self).disk().len() && j != block.0 ==> #[trigger] final(self).disk()[j]
                    == old(self).disk()[j],
            old(self).reliable() && block.0 < old(self).disk().len() ==> r is Ok,
    {
        self.device.zero_block(block)
    }

    /// The bytes of a data cluster.
    pub fn read_cluster_bytes(&self, cluster: ClusterId) -> (r: Result<Vec<u8>, FsError>)
        requires
            self.wf(),
        ensures
            r matches Ok(v) ==> in_data(self.boot_view(), cluster.0 as int) && v@ == cluster_bytes(
                self.boot_view(),
                self.disk(),
                cluster.0 as int,
            ),
            !in_data(self.boot_view(), cluster.0 as int) ==> r is Err && r->Err_0 is CorruptFs,
            self.reliable() && in_data(self.boot_view(), cluster.0 as int) ==> r is Ok,
    {
        let blocks = self.cluster_blocks(cluster)?;
        let ghost b = self.boot;
        let ghost first = first_block(b, cluster.0 as int);
        proof {
            lemma_cluster_range(b, cluster.0 as int);
            self.lemma_wf();
        }
        let mut out: Vec<u8> = Vec::new();
        let mut i: usize = 0;
        while i < blocks.len()
            invariant
                self.wf(),
                b == self.boot_view(),
                blocks@.len() == bpc(b),
                forall|k: int| 0 <= k < blocks@.len() ==> #[trigger] blocks@[k].0 == first + k,
                first + bpc(b) <= b.block_count,
                b.block_count <= self.disk().len(),
                in_data(b, cluster.0 as int),
                i <= blocks@.len(),
                out@ == concat_blocks(self.disk(), first, i as nat),
                self.reliable() ==> true,
            decreases blocks@.len() - i,
        {
            let block = self.read_device_block(blocks[i])?;
            out.extend_from_slice(block.as_slice());
            proof {
                assert(blocks@[i as int].0 == first + i);
            }
            i += 1;
        }
        Ok(out)
    }

    /// Writes the bytes of a data cluster.
    pub(crate) fn write_cluster_bytes(&mut self, cluster: ClusterId, data: &[u8]) -> (r: Result<(), FsError>)
        requires
            old(self).wf(),
        ensures
            final(self).wf(),
            final(self).boot_view() == old(self).boot_view(),
            final(self).fat() == old(self).fat(),
            final(self).dirty() == old(self).dirty(),
            final(self).reliable() == old(self).reliable(),
            final(self).handles() == old(self).handles(),
            final(self).next_handle_value() == old(self).next_handle_value(),
            only_cluster_changed(old(self).boot_view(), old(self).disk(), final(self).disk(), cluster.0 as int),
            r is Ok ==> in_data(old(self).boot_view(), cluster.0 as int) && data@.len() == cluster_size(
                old(self).boot_view(),
            ) && cluster_bytes(final(self).boot_view(), final(self).disk(), cluster.0 as int) == data@,
            data@.len() != cluster_size(old(self).boot_view()) || !in_data(
                old(self).boot_view(),
                cluster.0 as int,
            ) ==> r is Err && r->Err_0 is CorruptFs,
            old(self).reliable() && data@.len() == cluster_size(old(self).boot_view()) && in_data(
                old(self).boot_view(),
                cluster.0 as int,
            ) ==> r is Ok,
    {
        if data.len() != self.cluster_size() {
            return Err(FsError::CorruptFs(String::from_str("cluster write size mismatch")));
        }
        let blocks = self.cluster_blocks(cluster)?;
        let ghost b = self.boot;
        let ghost c = cluster.0 as int;
        let ghost first = first_block(b, c);
        let ghost d0 = self.disk();
        let bsz = self.boot.block_size as usize;
        proof {
            lemma_cluster_range(b, c);
            self.lemma_wf();
            lemma_u16_product(b.blocks_per_cluster, b.block_size);
        }
        let mut i: usize = 0;
        while i < blocks.len()
            invariant
                self.wf(),
                b == self.boot_view(),
                b == old(self).boot_view(),
                self.fat() == old(self).fat(),
                self.dirty() == old(self).dirty(),
                self.reliable() == old(self).reliable(),
                self.handles() == old(self).handles(),
                self.next_handle_value() == old(self).next_handle_value(),
                d0 == old(self).disk(),
                bsz == bs(b),
                blocks@.len() == bpc(b),
                data@.len() == bpc(b) * bs(b),
                data@.len() == cluster_size(b),
                in_data(b, c),
                c == cluster.0,
                bpc(b) * bs(b) <= 0xFFFF * 0xFFFF,
                forall|k: int| 0 <= k < blocks@.len() ==> #[trigger] blocks@[k].0 == first + k,
                first == first_block(b, c),
                first + bpc(b) <= b.block_count,
                b.block_count <= self.disk().len(),
                i <= blocks@.len(),
                only_cluster_changed(b, d0, self.disk(), c),
                forall|k: int| 0 <= k < i ==> #[trigger] self.disk()[first + k] == data@.subrange(k * bs(b), k * bs(b) + bs(b)),
            decreases blocks@.len() - i,
        {
            proof {
                assert(i * bs(b) + bs(b) <= bpc(b) * bs(b)) by (nonlinear_arith)
                    requires
                        i < bpc(b),
                        bs(b) >= 1,
                ;
                assert(0 <= i * bs(b)) by (nonlinear_arith)
                    requires
                        bs(b) >= 1,
                ;
            }
            let start = i * bsz;
            let chunk = vstd::slice::slice_subrange(data, start, start + bsz);
            let ghost before = self.disk();
            proof {
                assert(blocks@[i as int].0 == first + i);
            }
            let res = self.write_device_block(blocks[i], chunk);
            proof {
                assert(block_in_cluster(b, c, first + i)) by {
                    assert(0 <= i < bpc(b));
                }
                assert forall|j: int| 0 <= j < d0.len() && !block_in_cluster(b, c, j) implies #[trigger] self.disk()[j] == d0[j] by {
                    assert(self.disk()[j] == before[j]);
                }
                assert(only_cluster_changed(b, d0, self.disk(), c));
            }
            if res.is_err() {
                return res;
            }
            proof {
                assert forall|k: int| 0 <= k < i + 1 implies #[trigger] self.disk()[first + k] == data@.subrange(k * bs(b), k * bs(b) + bs(b)) by {
                    if k < i {
                        assert(self.disk()[first + k] == before[first + k]);
                    }
                }
                assert forall|j: int| 0 <= j < d0.len() && !block_in_cluster(b, c, j) implies #[trigger] self.disk()[j] == d0[j] by {
                    assert(self.disk()[j] == before[j]);
                }
            }
            i += 1;
        }
        proof {
            self.lemma_wf();
            let got = cluster_bytes(b, self.disk(), c);
            lemma_concat_blocks_len(self.disk(), first, bpc(b) as nat, bs(b) as nat);
            assert forall|m: int| 0 <= m < got.len() implies got[m] == data@[m] by {
                let j = m / bs(b);
                let k2 = m % bs(b);
                assert(m == j * bs(b) + k2 && 0 <= j < bpc(b) && 0 <= k2 < bs(b)) by (nonlinear_arith)
                    requires
                        0 <= m < bpc(b) * bs(b),
                        bs(b) > 0,
                        j == m / bs(b),
                        k2 == m % bs(b),
                ;
                lemma_concat_blocks_index(self.disk(), first, bpc(b) as nat, bs(b) as nat, j, k2);
                assert(j * bs(b) + bs(b) <= bpc(b) * bs(b)) by (nonlinear_arith)
                    requires
                        0 <= j < bpc(b),
                        bs(b) > 0,
                ;
                assert(0 <= j * bs(b)) by (nonlinear_arith)
                    requires
                        0 <= j,
                        bs(b) > 0,
                ;
                assert(self.disk()[first + j] == data@.subrange(j * bs(b), j * bs(b) + bs(b)));
                assert(data@.subrange(j * bs(b), j * bs(b) + bs(b))[k2] == data@[m]);
            }
            assert(got =~= data@);
        }
        Ok(())
    }

    /// Fills a data cluster with zeros.
    pub(crate) fn zero_cluster(&mut self, cluster: ClusterId) -> (r: Result<(), FsError>)
        requires
            old(self).wf(),
        ensures
            final(self).wf(),
            final(self).boot_view() == old(self).boot_view(),
            final(self).fat() == old(self).fat(),
            final(self).dirty() == old(self).dirty(),
            final(self).reliable() == old(self).reliable(),
            final(self).handles() == old(self).handles(),
            final(self).next_handle_value() == old(self).next_handle_value(),
            only_cluster_changed(old(self).boot_view(), old(self).disk(), final(self).disk(), cluster.0 as int),
            r is Ok ==> in_data(old(self).boot_view(), cluster.0 as int) && cluster_bytes(
                final(self).boot_view(),
                final(self).disk(),
                cluster.0 as int,
            ) == zeros(cluster_size(old(self).boot_view())),
            !in_data(old(self).boot_view(), cluster.0 as int) ==> r is Err && r->Err_0 is CorruptFs,
            old(self).reliable() && in_data(old(self).boot_view(), cluster.0 as int) ==> r is Ok,
    {
        let n = self.cluster_size();
        let z = zero_bytes(n);
        self.write_cluster_bytes(cluster, z.as_slice())
    }
}


impl<D: BufferedBlockDevice> MyFileSystem<D> {
    /// Writes the FAT cache to FAT copy `copy_idx`.
    pub(crate) fn flush_fat(&mut self, copy_idx: u16) -> (r: Result<(), FsError>)
        requires
            old(self).wf(),
            copy_idx < old(self).boot_view().fat_copies,
        ensures
            final(self).wf(),
            final(self).boot_view() == old(self).boot_view(),
            final(self).fat() == old(self).fat(),
            final(self).dirty() == old(self).dirty(),
            final(self).reliable() == old(self).reliable(),
            final(self).handles() == old(self).handles(),
            final(self).next_handle_value() == old(self).next_handle_value(),
            final(self).disk().len() == old(self).disk().len(),
            forall|j: int|
                0 <= j < old(self).disk().len() && !(fat_block(old(self).boot_view(), copy_idx as int, 0) <= j
                    < fat_block(old(self).boot_view(), copy_idx as int, 0) + fbc(old(self).boot_view()))
                    ==> #[trigger] final(self).disk()[j] == old(self).disk()[j],
            r is Ok ==> fat_copy_bytes(old(self).boot_view(), final(self).disk(), copy_idx as int) == fat_image(
                old(self).fat(),
                (fbc(old(self).boot_view()) * bs(old(self).boot_view())) as nat,
            ),
            old(self).reliable() ==> r is Ok,
    {
        let ghost b = self.boot;
        let ghost fat = self.fat_m@;
        let ghost d0 = self.disk();
        let bsz = self.boot.block_size as usize;
        let nblocks = self.boot.fat_block_count as usize;
        proof {
            self.lemma_wf();
            lemma_u16_product(b.fat_block_count, b.block_size);
            assert(bs(b) % 2 == 0);
            let h = bs(b) / 2;
            assert(bs(b) == 2 * h);
            assert(bs(b) * fbc(b) == 2 * (h * fbc(b))) by (nonlinear_arith)
                requires
                    bs(b) == 2 * h,
            ;
            vstd::arithmetic::div_mod::lemma_div_multiples_vanish(h * fbc(b), 2);
            assert(fat.len() * 2 == fbc(b) * bs(b)) by (nonlinear_arith)
                requires
                    fat.len() == h * fbc(b),
                    bs(b) == 2 * h,
            ;
        }
        let total = nblocks * bsz;
        let ghost image = fat_image(fat, total as nat);
        if self.fat_m.len() > total / 2 {
            return Err(FsError::CorruptFs(String::from_str("fat cache larger than on-disk FAT region")));
        }
        let mut bytes: Vec<u8> = Vec::new();
        let mut i: usize = 0;
        while i < self.fat_m.len()
            invariant
                self.fat_m@ == fat,
                fat.len() * 2 == total,
                image == fat_image(fat, total as nat),
                i <= fat.len(),
                bytes@.len() == 2 * i,
                forall|m: int| 0 <= m < bytes@.len() ==> #[trigger] bytes@[m] == image[m],
            decreases fat.len() - i,
        {
            let raw = self.fat_m[i].to_raw();
            let lo = #[verifier::truncate] ((raw & 0xff) as u8);
            let hi = #[verifier::truncate] ((raw >> 8) as u8);
            proof {
                assert(raw & 0xff == raw % 256) by (bit_vector);
                assert(raw >> 8 == raw / 256) by (bit_vector);
            }
            bytes.push(lo);
            bytes.push(hi);
            i += 1;
        }
        proof {
            assert(bytes@ =~= image);
        }
        let start = self.fat_start_block_of(copy_idx);
        let mut k: usize = 0;
        while k < nblocks
            invariant
                self.wf(),
                b == self.boot_view(),
                b == old(self).boot_view(),
                fat == self.fat(),
                fat == old(self).fat(),
                self.dirty() == old(self).dirty(),
                self.reliable() == old(self).reliable(),
                self.handles() == old(self).handles(),
                self.next_handle_value() == old(self).next_handle_value(),
                d0 == old(self).disk(),
                self.disk().len() == d0.len(),
                bsz == bs(b),
                nblocks == fbc(b),
                total == nblocks * bsz,
                total <= 0xFFFF * 0xFFFF,
                bytes@ == image,
                image.len() == total,
                start.0 == fat_block(b, copy_idx as int, 0),
                start.0 + fbc(b) < b.block_count,
                b.block_count <= d0.len(),
                k <= nblocks,
                forall|j: int|
                    0 <= j < d0.len() && !(start.0 <= j < start.0 + fbc(b)) ==> #[trigger] self.disk()[j] == d0[j],
                forall|kk: int| 0 <= kk < k ==> #[trigger] self.disk()[start.0 + kk] == image.subrange(kk * bs(b), kk * bs(b) + bs(b)),
            decreases nblocks - k,
        {
            proof {
                assert(k * bs(b) + bs(b) <= nblocks * bs(b) && 0 <= k * bs(b)) by (nonlinear_arith)
                    requires
                        k < nblocks,
                        bs(b) >= 1,
                ;
            }
            let from = k * bsz;
            let chunk = vstd::slice::slice_subrange(bytes.as_slice(), from, from + bsz);
            let ghost before = self.disk();
            let res = self.write_device_block(BlockId(start.0 + k as u16), chunk);
            if res.is_err() {
                return res;
            }
            proof {
                assert forall|kk: int| 0 <= kk < k + 1 implies #[trigger] self.disk()[start.0 + kk] == image.subrange(
                    kk * bs(b),
                    kk * bs(b) + bs(b),
                ) by {
                    if kk < k {
                        assert(self.disk()[start.0 + kk] == before[start.0 + kk]);
                    }
                }
                assert forall|j: int| 0 <= j < d0.len() && !(start.0 <= j < start.0 + fbc(b)) implies #[trigger] self.disk()[j]
                    == d0[j] by {
                    assert(self.disk()[j] == before[j]);
                }
            }
            k += 1;
        }
        proof {
            lemma_concat_blocks_eq(self.disk(), start.0 as int, fbc(b) as nat, bs(b) as nat, image);
        }
        Ok(())
    }

    /// Writes the FAT cache to every FAT copy, if it changed since it was last written.
    pub fn sync(&mut self) -> (r: Result<(), FsError>)
        requires
            old(self).wf(),
        ensures
            final(self).wf(),
            synced(*old(self), *final(self), r),
    {
        if !self.fat_dirty {
            return Ok(());
        }
        let ghost b = self.boot;
        let ghost fat = self.fat_m@;
        let ghost d0 = self.disk();
        let ghost image = fat_image(fat, (fbc(b) * bs(b)) as nat);
        proof {
            self.lemma_wf();
        }
        let copies = self.boot.fat_copies;
        let mut copy: u16 = 0;
        while copy < copies
            invariant
                self.wf(),
                b == self.boot_view(),
                b == old(self).boot_view(),
                fat == self.fat(),
                fat == old(self).fat(),
                self.dirty(),
                old(self).dirty(),
                self.reliable() == old(self).reliable(),
                self.handles() == old(self).handles(),
                self.next_handle_value() == old(self).next_handle_value(),
                d0 == old(self).disk(),
                self.disk().len() == d0.len(),
                copies == b.fat_copies,
                copy <= copies,
                image == fat_image(fat, (fbc(b) * bs(b)) as nat),
                forall|j: int| 0 <= j < d0.len() && !(1 <= j < data_start(b)) ==> #[trigger] self.disk()[j] == d0[j],
                forall|c: int| 0 <= c < copy ==> #[trigger] fat_copy_bytes(b, self.disk(), c) == image,
            decreases copies - copy,
        {
            let ghost before = self.disk();
            let res = self.flush_fat(copy);
            proof {
                let lo = fat_block(b, copy as int, 0);
                assert(lo == 1 + copy * fbc(b));
                assert(1 <= lo && lo + fbc(b) <= data_start(b)) by (nonlinear_arith)
                    requires
                        lo == 1 + copy * fbc(b),
                        copy < b.fat_copies,
                        data_start(b) == 1 + b.fat_copies * fbc(b),
                        fbc(b) >= 1,
                ;
                assert forall|j: int| 0 <= j < d0.len() && !(1 <= j < data_start(b)) implies #[trigger] self.disk()[j] == d0[j] by {
                    assert(self.disk()[j] == before[j]);
                }
            }
            if res.is_err() {
                return res;
            }
            proof {
                self.lemma_wf();
                assert(fat_copy_bytes(b, self.disk(), copy as int) == image);
                assert forall|c: int| 0 <= c < copy + 1 implies #[trigger] fat_copy_bytes(b, self.disk(), c) == image by {
                    if c < copy {
                        let lo = fat_block(b, c, 0);
                        let hi = fat_block(b, copy as int, 0);
                        assert(lo == 1 + c * fbc(b));
                        assert(hi == 1 + copy * fbc(b));
                        assert(lo + fbc(b) <= hi) by (nonlinear_arith)
                            requires
                                lo == 1 + c * fbc(b),
                                hi == 1 + copy * fbc(b),
                                c < copy,
                                fbc(b) >= 1,
                        ;
                        assert(1 <= lo) by (nonlinear_arith)
                            requires
                                lo == 1 + c * fbc(b),
                                c >= 0,
                                fbc(b) >= 1,
                        ;
                        assert(hi + fbc(b) <= data_start(b)) by (nonlinear_arith)
                            requires
                                hi == 1 + copy * fbc(b),
                                copy < b.fat_copies,
                                data_start(b) == 1 + b.fat_copies * fbc(b),
                                fbc(b) >= 1,
                        ;
                        assert forall|m: int| lo <= m < lo + fbc(b) implies #[trigger] self.disk()[m] == before[m] by {
                            assert(m < before.len());
                            assert(!(hi <= m < hi + fbc(b)));
                        }
                        lemma_concat_blocks_agree(self.disk(), before, lo, fbc(b) as nat);
                        assert(fat_copy_bytes(b, before, c) == image);
                        assert(fat_copy_bytes(b, self.disk(), c) == fat_copy_bytes(b, before, c));
                    }
                }
            }
            copy += 1;
        }
        self.fat_dirty = false;
        Ok(())
    }
}


/// What syncing does, going from `a` to `c` with result `r`: only the blocks of the FAT copies
/// may change; a filesystem whose FAT is unchanged since it was last written is left as it is;
/// otherwise, on success, every FAT copy holds the image of the FAT and the FAT counts as
/// written. A failed sync leaves the FAT marked as changed.
pub open spec fn synced<D: BufferedBlockDevice>(a: MyFileSystem<D>, c: MyFileSystem<D>, r: Result<(), FsError>) -> bool {
    let b = a.boot_view();
    &&& c.boot_view() == b
    &&& c.fat() == a.fat()
    &&& c.reliable() == a.reliable()
    &&& c.handles() == a.handles()
    &&& c.next_handle_value() == a.next_handle_value()
    &&& c.disk().len() == a.disk().len()
    &&& forall|j: int| 0 <= j < a.disk().len() && !(1 <= j < data_start(b)) ==> #[trigger] c.disk()[j] == a.disk()[j]
    &&& !a.dirty() ==> r is Ok && c.disk() == a.disk() && !c.dirty()
    &&& r is Ok ==> !c.dirty()
    &&& r is Err ==> c.dirty() == a.dirty()
    &&& r is Ok && a.dirty() ==> forall|k: int|
        0 <= k < b.fat_copies ==> #[trigger] fat_copy_bytes(b, c.disk(), k) == fat_image(a.fat(), (fbc(b) * bs(b)) as nat)
    &&& a.reliable() ==> r is Ok
}

/// The open-file table of a freshly mounted filesystem.
pub open spec fn no_open_files() -> Seq<Option<OpenFile>> {
    Seq::new(MAX_OPEN_FILES as nat, |i: int| None::<OpenFile>)
}

impl<D: BufferedBlockDevice> MyFileSystem<D> {
    /// A mounted filesystem over `device`, with no open file.
    pub(crate) fn assemble(boot: BootSector, device: D, fat_m: Vec<FatEntry>) -> (fs: Self)
        requires
            geo_wf(boot),
            config_valid(boot.block_size, boot.block_count, boot.blocks_per_cluster),
            device.wf(),
            device.spec_block_size() == boot.block_size,
            device.blocks().len() >= boot.block_count,
            fat_m@.len() == fat_entries_of(bs(boot), fbc(boot)),
        ensures
            fs.wf(),
            fs.boot_view() == boot,
            fs.disk() == device.blocks(),
            fs.fat() == fat_m@,
            !fs.dirty(),
            fs.reliable() == device.reliable(),
            fs.handles() == no_open_files(),
            fs.next_handle_value() == 1,
    {
        let mut open_files: Vec<Option<OpenFile>> = Vec::new();
        while open_files.len() < MAX_OPEN_FILES
            invariant
                open_files@.len() <= MAX_OPEN_FILES,
                forall|i: int| 0 <= i < open_files@.len() ==> #[trigger] open_files@[i] is None,
            decreases MAX_OPEN_FILES - open_files@.len(),
        {
            open_files.push(None);
        }
        proof {
            assert(open_files@ =~= no_open_files());
        }
        MyFileSystem { boot, device, fat_m, fat_dirty: false, open_files, next_handle: 1 }
    }
}


/// Does no location stand in two entries of the open-file table?
pub open spec fn locations_distinct(t: Seq<Option<OpenFile>>) -> bool {
    forall|i: int, j: int|
        0 <= i < t.len() && 0 <= j < t.len() && i != j && #[trigger] t[i] is Some && #[trigger] t[j] is Some
            ==> t[i]->Some_0.loc != t[j]->Some_0.loc
}

/// Index of the first open-file entry with handle `h`.
pub open spec fn handle_index(t: Seq<Option<OpenFile>>, h: FileHandle) -> Option<int> {
    if exists|i: int| 0 <= i < t.len() && (#[trigger] t[i] matches Some(f) && f.handle == h) {
        Some(
            choose|i: int|
                0 <= i < t.len() && (#[trigger] t[i] matches Some(f) && f.handle == h) && forall|k: int|
                    0 <= k < i ==> !(#[trigger] t[k] matches Some(g) && g.handle == h),
        )
    } else {
        None
    }
}

/// Is the entry at `loc` open?
/// The open files of a table, in table order.
pub open spec fn open_list(t: Seq<Option<OpenFile>>) -> Seq<OpenFile>
    decreases t.len(),
{
    if t.len() == 0 {
        Seq::empty()
    } else {
        match t.last() {
            Some(f) => open_list(t.drop_last()).push(f),
            None => open_list(t.drop_last()),
        }
    }
}

pub open spec fn is_open(t: Seq<Option<OpenFile>>, loc: DirEntryLoc) -> bool {
    exists|i: int| 0 <= i < t.len() && (#[trigger] t[i] matches Some(f) && f.loc == loc)
}

impl<D: BufferedBlockDevice> MyFileSystem<D> {
    /// The handle of the first open file at `loc`.
    pub fn find_open_handle(&self, loc: DirEntryLoc) -> (r: Option<FileHandle>)
        requires
            self.wf(),
        ensures
            r is None <==> !is_open(self.handles(), loc),
            r matches Some(h) ==> exists|i: int|
                0 <= i < self.handles().len() && (#[trigger] self.handles()[i] matches Some(f) && f.loc == loc && f.handle == h),
    {
        let mut i: usize = 0;
        while i < self.open_files.len()
            invariant
                i <= self.open_files@.len(),
                forall|k: int| 0 <= k < i ==> !(#[trigger] self.open_files@[k] matches Some(f) && f.loc == loc),
            decreases self.open_files@.len() - i,
        {
            match &self.open_files[i] {
                Some(entry) => {
                    if entry.loc == loc {
                        return Some(entry.handle);
                    }
                },
                None => {},
            }
            i += 1;
        }
        None
    }

    /// The open files, in table order.
    pub fn open_files(&self) -> (r: Vec<OpenFile>)
        requires
            self.wf(),
        ensures
            r@ == open_list(self.handles()),
    {
        let mut out: Vec<OpenFile> = Vec::new();
        let mut i: usize = 0;
        proof {
            assert(self.open_files@.take(0) =~= Seq::<Option<OpenFile>>::empty());
        }
        while i < self.open_files.len()
            invariant
                i <= self.open_files@.len(),
                out@ == open_list(self.open_files@.take(i as int)),
            decreases self.open_files@.len() - i,
        {
            proof {
                assert(self.open_files@.take(i + 1).drop_last() =~= self.open_files@.take(i as int));
            }
            match &self.open_files[i] {
                Some(entry) => {
                    let e = entry.clone_entry();
                    out.push(e);
                },
                None => {},
            }
            i += 1;
        }
        proof {
            assert(self.open_files@.take(self.open_files@.len() as int) =~= self.open_files@);
        }
        out
    }

    /// Index of the open-file entry with handle `handle`.
    pub(crate) fn find_open_file_slot(&self, handle: FileHandle) -> (r: Result<usize, FsError>)
        requires
            self.wf(),
        ensures
            r matches Ok(i) ==> handle_index(self.handles(), handle) == Some(i as int) && i < MAX_OPEN_FILES && (
            self.handles()[i as int] matches Some(f) && f.handle == handle),
            r matches Err(e) ==> handle_index(self.handles(), handle) is None && e == FsError::InvalidHandle(handle),
            handle_index(self.handles(), handle) is None ==> r is Err,
    {
        let mut i: usize = 0;
        while i < self.open_files.len()
            invariant
                self.wf(),
                i <= self.open_files@.len(),
                forall|k: int| 0 <= k < i ==> !(#[trigger] self.open_files@[k] matches Some(g) && g.handle == handle),
            decreases self.open_files@.len() - i,
        {
            match &self.open_files[i] {
                Some(entry) => {
                    if entry.handle == handle {
                        proof {
                            let t = self.open_files@;
                            assert(t[i as int] matches Some(f) && f.handle == handle);
                            let c = choose|c: int|
                                0 <= c < t.len() && (#[trigger] t[c] matches Some(f) && f.handle == handle) && forall|k: int|
                                    0 <= k < c ==> !(#[trigger] t[k] matches Some(g) && g.handle == handle);
                            if c < i {
                            } else if c > i {
                                assert(!(t[i as int] matches Some(g) && g.handle == handle));
                            }
                        }
                        return Ok(i);
                    }
                },
                None => {},
            }
            i += 1;
        }
        Err(FsError::InvalidHandle(handle))
    }
}

impl OpenFile {
    /// A copy of this entry.
    pub fn clone_entry(&self) -> (r: OpenFile)
        ensures
            r == *self,
    {
        OpenFile { handle: self.handle, loc: self.loc, cursor: self.cursor, fcb: self.fcb }
    }
}


/// The open-file table after every entry at `loc` took `fcb`.
pub open spec fn with_fcb_at(t: Seq<Option<OpenFile>>, loc: DirEntryLoc, fcb: Fcb) -> Seq<Option<OpenFile>> {
    Seq::new(
        t.len(),
        |i: int|
            match t[i] {
                Some(f) => if f.loc == loc {
                    Some(OpenFile { fcb: fcb, ..f })
                } else {
                    Some(f)
                },
                None => None,
            },
    )
}

impl<D: BufferedBlockDevice> MyFileSystem<D> {
    /// The first unused entry of the open-file table.
    pub(crate) fn first_free_open_slot(&self) -> (r: Option<usize>)
        requires
            self.wf(),
        ensures
            r matches Some(i) ==> i < MAX_OPEN_FILES && self.handles()[i as int] is None && forall|k: int| 0 <= k < i ==> #[trigger] self.handles()[k] is Some,
            r is None ==> forall|k: int| 0 <= k < MAX_OPEN_FILES ==> #[trigger] self.handles()[k] is Some,
    {
        let mut i: usize = 0;
        while i < self.open_files.len()
            invariant
                self.wf(),
                i <= self.open_files@.len(),
                forall|k: int| 0 <= k < i ==> #[trigger] self.open_files@[k] is Some,
            decreases self.open_files@.len() - i,
        {
            if self.open_files[i].is_none() {
                return Some(i);
            }
            i += 1;
        }
        None
    }

    /// The open-file entry at index `slot`.
    pub(crate) fn open_entry(&self, slot: usize) -> (r: OpenFile)
        requires
            self.wf(),
            slot < MAX_OPEN_FILES,
            self.handles()[slot as int] is Some,
        ensures
            self.handles()[slot as int] == Some(r),
    {
        match &self.open_files[slot] {
            Some(entry) => entry.clone_entry(),
            None => {
                proof {
                    assert(false);
                }
                OpenFile { handle: FileHandle(0), loc: DirEntryLoc { dir_start: ClusterId(0), entry_index: 0 }, cursor: 0, fcb: Fcb::decode(&[0u8; 24]) }
            },
        }
    }

    /// Puts `entry` at index `slot` of the open-file table.
    pub(crate) fn set_open_entry(&mut self, slot: usize, entry: Option<OpenFile>)
        requires
            old(self).wf(),
            slot < MAX_OPEN_FILES,
            entry matches Some(e) ==> forall|k: int|
                0 <= k < old(self).handles().len() && k != slot && #[trigger] old(self).handles()[k] is Some
                    ==> old(self).handles()[k]->Some_0.loc != e.loc,
        ensures
            final(self).wf(),
            final(self).boot_view() == old(self).boot_view(),
            final(self).disk() == old(self).disk(),
            final(self).fat() == old(self).fat(),
            final(self).dirty() == old(self).dirty(),
            final(self).reliable() == old(self).reliable(),
            final(self).next_handle_value() == old(self).next_handle_value(),
            final(self).handles() == old(self).handles().update(slot as int, entry),
    {
        let ghost t1 = self.open_files@;
        self.open_files.set(slot, entry);
        proof {
            let t2 = self.open_files@;
            assert forall|a: int, c: int|
                0 <= a < t2.len() && 0 <= c < t2.len() && a != c && #[trigger] t2[a] is Some && #[trigger] t2[c] is Some
                    implies t2[a]->Some_0.loc != t2[c]->Some_0.loc by {
                assert(t1 == old(self).handles());
                if a != slot && c != slot {
                    assert(t1[a] is Some && t1[c] is Some);
                } else if a == slot {
                    assert(old(self).handles()[c] is Some);
                    assert(t2[a] == entry);
                } else {
                    assert(old(self).handles()[a] is Some);
                    assert(t2[c] == entry);
                }
            }
        }
    }

    /// A fresh handle; the counter moves on, wrapping around.
    pub(crate) fn take_next_handle(&mut self) -> (r: FileHandle)
        requires
            old(self).wf(),
        ensures
            final(self).wf(),
            final(self).boot_view() == old(self).boot_view(),
            final(self).disk() == old(self).disk(),
            final(self).fat() == old(self).fat(),
            final(self).dirty() == old(self).dirty(),
            final(self).reliable() == old(self).reliable(),
            final(self).handles() == old(self).handles(),
            r.0 == old(self).next_handle_value(),
            final(self).next_handle_value() == if old(self).next_handle_value() == 0xFFFF_FFFF {
                0
            } else {
                old(self).next_handle_value() + 1
            },
    {
        let h = FileHandle(self.next_handle);
        self.next_handle = self.next_handle.wrapping_add(1);
        h
    }

    /// Gives every open entry at `loc` the file control block `fcb`.
    pub(crate) fn update_open_fcbs(&mut self, loc: DirEntryLoc, fcb: Fcb)
        requires
            old(self).wf(),
        ensures
            final(self).wf(),
            final(self).boot_view() == old(self).boot_view(),
            final(self).disk() == old(self).disk(),
            final(self).fat() == old(self).fat(),
            final(self).dirty() == old(self).dirty(),
            final(self).reliable() == old(self).reliable(),
            final(self).next_handle_value() == old(self).next_handle_value(),
            final(self).handles() == with_fcb_at(old(self).handles(), loc, fcb),
    {
        let ghost t0 = self.open_files@;
        let mut i: usize = 0;
        while i < self.open_files.len()
            invariant
                self.wf(),
                self.boot == old(self).boot,
                self.device == old(self).device,
                self.fat_m == old(self).fat_m,
                self.fat_dirty == old(self).fat_dirty,
                self.next_handle == old(self).next_handle,
                t0 == old(self).open_files@,
                self.open_files@.len() == t0.len(),
                i <= t0.len(),
                forall|k: int| 0 <= k < i ==> #[trigger] self.open_files@[k] == with_fcb_at(t0, loc, fcb)[k],
                forall|k: int| i <= k < t0.len() ==> #[trigger] self.open_files@[k] == t0[k],
            decreases t0.len() - i,
        {
            let replace = match &self.open_files[i] {
                Some(entry) => if entry.loc == loc {
                    Some(OpenFile { handle: entry.handle, loc: entry.loc, cursor: entry.cursor, fcb })
                } else {
                    None
                },
                None => None,
            };
            match replace {
                Some(e) => {
                    let ghost t1 = self.open_files@;
                    self.open_files.set(i, Some(e));
                    proof {
                        assert(t1[i as int] is Some && t1[i as int]->Some_0.loc == e.loc);
                        let t2 = self.open_files@;
                        assert forall|a: int, c: int|
                            0 <= a < t2.len() && 0 <= c < t2.len() && a != c && #[trigger] t2[a] is Some && #[trigger] t2[c] is Some
                                implies t2[a]->Some_0.loc != t2[c]->Some_0.loc by {
                            assert(t1[a] is Some && t1[c] is Some);
                            assert(t2[a]->Some_0.loc == t1[a]->Some_0.loc);
                            assert(t2[c]->Some_0.loc == t1[c]->Some_0.loc);
                        }
                    }
                },
                None => {},
            }
            i += 1;
        }
        proof {
            assert(self.open_files@ =~= with_fcb_at(t0, loc, fcb));
        }
    }
}

} // verus!

verus! {

/// The boot block and the FAT copies on disk (every block before the data region) are as they
/// were.
pub open spec fn meta_kept(b: BootSector, d0: Seq<Seq<u8>>, d1: Seq<Seq<u8>>) -> bool {
    &&& d1.len() == d0.len()
    &&& forall|j: int| 0 <= j < data_start(b) && j < d0.len() ==> #[trigger] d1[j] == d0[j]
}

} // verus!

verus! {

/// No block before the data region belongs to a data cluster.
pub broadcast proof fn lemma_meta_block_not_in_cluster(b: BootSector, c: int, j: int)
    requires
        geo_wf(b),
        in_data(b, c),
        j < data_start(b),
    ensures
        !#[trigger] block_in_cluster(b, c, j),
{
    lemma_cluster_range(b, c);
}

} // verus!
