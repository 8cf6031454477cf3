//! Formatting a device and mounting a formatted one.

use vstd::prelude::*;

use crate::config::config_fat_blocks;
use crate::config::config_refusal;
use crate::config::config_valid;
use crate::config::fat_blocks_from;
use crate::config::fat_entries_of;
use crate::config::fat_entry_count;
use crate::config::get_fat_block_count;
use crate::config::lemma_u16_product;
use crate::config::FsConfig;
use crate::dev::concat_blocks;
use crate::dev::lemma_concat_blocks_len;
use crate::dev::zero_bytes;
use crate::dev::BufferedBlockDevice;
use crate::dev::LogicalBlockDevice;
use crate::dev::MemoryBackend;
use crate::dev::PhysicalBlockDevice;
use crate::dev::lemma_concat_blocks_agree;
use crate::layout::block_in_cluster;
use crate::layout::first_block;
use crate::myfs::lemma_cluster_range;
use crate::myfs::no_open_files;
use crate::myfs::synced;
use crate::myfs::zeros;
use crate::myfs::MyFileSystem;
use crate::error::FsError;
use crate::fat::fat_entry_of;
use crate::fat::fat_raw;
use crate::fat::lemma_fat_entry_round_trip;
use crate::fat::FatEntry;
use crate::fs::boot_bytes;
use crate::fs::boot_from_bytes;
use crate::fs::read_u16;
use crate::fs::u16_at;
use crate::fs::BlockId;
use crate::fs::BootSector;
use crate::fs::ClusterId;
use crate::fs::BOOT_SECTOR_SIZE;
use crate::fs::ROOT_DIR_START;
use crate::layout::bs;
use crate::layout::bpc;
use crate::layout::cluster_bytes;
use crate::layout::cluster_size;
use crate::layout::data_clusters;
use crate::layout::data_start;
use crate::layout::fat_copy_bytes;
use crate::layout::fat_image;
use crate::layout::fbc;
use crate::layout::geo_wf;
use crate::layout::in_data;
use crate::layout::max_cluster;

verus! {

/// The FAT that a FAT copy's bytes hold: `n` little-endian 16-bit entries.
pub open spec fn fat_of_image(bytes: Seq<u8>, n: int) -> Seq<FatEntry> {
    Seq::new(n as nat, |i: int| fat_entry_of(u16_at(bytes, 2 * i)))
}

/// Do the fields of a boot sector agree with the device and with what formatting fixes: the
/// device's block size, no more blocks than the device has, a valid configuration, the FAT size
/// that the geometry gives, the FAT at block 1, the data region right after the FAT copies and
/// the root directory at its cluster?
pub open spec fn boot_fields_ok(b: BootSector, dev_bs: nat, dev_count: nat) -> bool {
    &&& b.block_size == dev_bs
    &&& b.block_count <= dev_count
    &&& config_valid(b.block_size, b.block_count, b.blocks_per_cluster)
    &&& b.fat_block_count == fat_blocks_from(b.block_size, b.block_count, b.fat_copies, b.blocks_per_cluster, 1)
    &&& b.fat_start_block.0 == 1
    &&& b.data_start_block.0 == 1 + b.fat_copies * b.fat_block_count
    &&& b.root_dir_start_cluster.0 == ROOT_DIR_START
}

/// Can a filesystem be mounted with this boot sector on a device with blocks of `dev_bs` bytes,
/// `dev_count` of them?
pub open spec fn boot_ok(b: BootSector, dev_bs: nat, dev_count: nat) -> bool {
    &&& b.block_size == dev_bs
    &&& b.block_count <= dev_count
    &&& config_valid(b.block_size, b.block_count, b.blocks_per_cluster)
    &&& geo_wf(b)
}

/// The boot sector that formatting with a configuration writes.
pub open spec fn boot_of_config(bs: u16, bc: u16, bpc: u16) -> BootSector {
    BootSector {
        block_size: bs,
        block_count: bc,
        blocks_per_cluster: bpc,
        fat_start_block: BlockId(1),
        fat_block_count: config_fat_blocks(bs, bc, bpc),
        fat_copies: 2,
        data_start_block: BlockId((1 + 2 * config_fat_blocks(bs, bc, bpc)) as u16),
        root_dir_start_cluster: ClusterId(ROOT_DIR_START),
    }
}

/// The FAT of a freshly formatted filesystem of `n` entries: only the root directory's one
/// cluster is in use.
pub open spec fn initial_fat(n: int) -> Seq<FatEntry> {
    Seq::new(n as nat, |i: int| if i == ROOT_DIR_START { FatEntry::EndOfChain } else { FatEntry::Free })
}

/// Reading back the bytes that writing out a FAT produces gives the same FAT, provided no link
/// entry holds one of the two reserved raw values.
pub proof fn lemma_fat_image_round_trip(fat: Seq<FatEntry>, len: nat)
    requires
        len >= 2 * fat.len(),
        forall|i: int| 0 <= i < fat.len() ==> (#[trigger] fat[i] matches FatEntry::Next(c) ==> c.0 != 0 && c.0 != 0xFFFF),
    ensures
        fat_of_image(fat_image(fat, len), fat.len() as int) == fat,
{
    let img = fat_image(fat, len);
    assert forall|i: int| 0 <= i < fat.len() implies #[trigger] fat_of_image(img, fat.len() as int)[i] == fat[i] by {
        let raw = fat_raw(fat[i]);
        assert(img[2 * i] == (raw % 256) as u8);
        assert(img[2 * i + 1] == (raw / 256) as u8);
        assert(u16_at(img, 2 * i) == raw);
        lemma_fat_entry_round_trip(raw, fat[i]);
    }
    assert(fat_of_image(img, fat.len() as int) =~= fat);
}

/// Reads the boot sector from the front of block 0.
pub(crate) fn read_boot_sector_from_device<D: BufferedBlockDevice>(device: &D) -> (r: Result<BootSector, FsError>)
    requires
        device.wf(),
    ensures
        r matches Ok(b) ==> device.blocks().len() > 0 && device.spec_block_size() >= BOOT_SECTOR_SIZE && b
            == boot_from_bytes(device.blocks()[0]),
        device.reliable() && device.blocks().len() > 0 ==> (r is Ok <==> device.spec_block_size()
            >= BOOT_SECTOR_SIZE),
        device.reliable() && device.blocks().len() > 0 && r is Err ==> r->Err_0 is CorruptFs,
{
    let mut block = zero_bytes(device.block_size());
    device.read_block_into(BlockId(0), block.as_mut_slice())?;
    BootSector::read_from_prefix(block.as_slice())
}

/// Checks a boot sector against the device it was read from: the fields of `boot_fields_ok`, in
/// that order. A configuration that does not validate is refused with the error that validation
/// gives; every other refusal is `CorruptFs`.
pub(crate) fn validate_boot_sector_against_device<D: BufferedBlockDevice>(boot: &BootSector, device: &D) -> (r: Result<(), FsError>)
    requires
        device.wf(),
    ensures
        r is Ok <==> boot_fields_ok(*boot, device.spec_block_size(), device.blocks().len()),
        r is Ok ==> boot.fat_block_count >= 1,
        r matches Err(e) ==> e is CorruptFs || e is InvalidConfig,
        r matches Err(e) ==> (e is InvalidConfig <==> (boot.block_size == device.spec_block_size() && boot.block_count
            <= device.blocks().len() && !config_valid(boot.block_size, boot.block_count, boot.blocks_per_cluster))),
        r matches Err(FsError::InvalidConfig(s)) ==> config_refusal(boot.block_size, boot.block_count, boot.blocks_per_cluster)
            == Some(s@),
{
    if boot.block_size as usize != device.block_size() {
        return Err(FsError::CorruptFs(crate::report::two_numbered_text("boot sector block size ", boot.block_size as u64, " does not match device block size ", device.block_size() as u64)));
    }
    if boot.block_count as usize > device.block_count() {
        return Err(FsError::CorruptFs(crate::report::two_numbered_text("boot sector block count ", boot.block_count as u64, " exceeds device block count ", device.block_count() as u64)));
    }
    let config = FsConfig {
        block_size: boot.block_size,
        block_count: boot.block_count,
        blocks_per_cluster: boot.blocks_per_cluster,
    };
    match config.validate() {
        Ok(()) => {},
        Err(e) => return Err(e),
    }
    let expected_fat_block_count = get_fat_block_count(
        boot.block_size,
        boot.block_count,
        boot.fat_copies,
        boot.blocks_per_cluster,
    );
    if boot.fat_block_count != expected_fat_block_count {
        return Err(FsError::CorruptFs(crate::report::two_numbered_text("boot sector fat block count ", boot.fat_block_count as u64, " does not match computed value ", expected_fat_block_count as u64)));
    }
    if boot.fat_start_block.0 != 1 {
        return Err(FsError::CorruptFs(crate::report::numbered_text("unexpected fat start block ", boot.fat_start_block.0 as u64, "")));
    }
    proof {
        lemma_u16_product(boot.fat_copies, boot.fat_block_count);
    }
    if boot.data_start_block.0 as u64 != 1 + boot.fat_copies as u64 * boot.fat_block_count as u64 {
        return Err(FsError::CorruptFs(crate::report::numbered_text("unexpected data start block ", boot.data_start_block.0 as u64, "")));
    }
    if boot.root_dir_start_cluster.0 != ROOT_DIR_START {
        return Err(FsError::CorruptFs(crate::report::numbered_text("unexpected root dir start cluster ", boot.root_dir_start_cluster.0 as u64, "")));
    }
    Ok(())
}

/// Checks that a boot sector whose fields agree with its device describes a layout the
/// filesystem can work in: at least one FAT copy, copies that leave a data region of at least
/// one cluster, clusters within the 16-bit range, and a FAT that addresses every data cluster.
/// The field checks alone let through sectors that fail these (200 copies of a one-block FAT on a
/// 128-block device, say, put the data region past the last block); mounting refuses them here,
/// as `CorruptFs`, before any cluster is touched.
pub(crate) fn check_boot_layout(boot: &BootSector) -> (r: Result<(), FsError>)
    requires
        boot_fields_ok(*boot, boot.block_size as nat, boot.block_count as nat),
        boot.fat_block_count >= 1,
    ensures
        r is Ok <==> geo_wf(*boot),
        r matches Err(e) ==> e is CorruptFs,
{
    if boot.fat_copies == 0 {
        return Err(FsError::CorruptFs(String::from_str("boot sector names no FAT copy")));
    }
    let ds = boot.data_start_block.0;
    if ds >= boot.block_count || boot.block_count - ds < boot.blocks_per_cluster {
        return Err(FsError::CorruptFs(String::from_str("fat copies leave no data region")));
    }
    let data_clusters = ((boot.block_count - ds) / boot.blocks_per_cluster) as u64;
    if ROOT_DIR_START as u64 + data_clusters - 1 > 0xFFFF {
        return Err(FsError::CorruptFs(String::from_str("geometry exceeds 16-bit cluster id range")));
    }
    let fat_entries = fat_entry_count(boot.block_size, boot.fat_block_count) as u64;
    if fat_entries < ROOT_DIR_START as u64 + data_clusters {
        return Err(FsError::CorruptFs(String::from_str("fat region cannot address all data clusters")));
    }
    Ok(())
}

/// Reads FAT copy 0 into memory.
pub(crate) fn read_fat_cache_from_device<D: BufferedBlockDevice>(device: &D, boot: &BootSector) -> (r: Result<Vec<FatEntry>, FsError>)
    requires
        device.wf(),
        geo_wf(*boot),
        device.spec_block_size() == boot.block_size,
        device.blocks().len() >= boot.block_count,
    ensures
        r matches Ok(v) ==> v@ == fat_of_image(
            fat_copy_bytes(*boot, device.blocks(), 0),
            fat_entries_of(bs(*boot), fbc(*boot)),
        ),
        device.reliable() ==> r is Ok,
{
    let ghost b = *boot;
    let ghost disk = device.blocks();
    let bsz = boot.block_size as usize;
    let nblocks = boot.fat_block_count as usize;
    proof {
        device.lemma_wf_block_lengths();
        lemma_u16_product(boot.fat_block_count, boot.block_size);
        assert(1 + fbc(b) <= data_start(b)) by (nonlinear_arith)
            requires
                data_start(b) == 1 + b.fat_copies * fbc(b),
                b.fat_copies >= 1,
                fbc(b) >= 1,
        ;
    }
    let mut fat_bytes: Vec<u8> = Vec::new();
    let mut k: usize = 0;
    while k < nblocks
        invariant
            device.wf(),
            disk == device.blocks(),
            geo_wf(b),
            b == *boot,
            bsz == bs(b),
            device.spec_block_size() == bs(b),
            nblocks == fbc(b),
            k <= nblocks,
            1 + nblocks < b.block_count,
            b.block_count <= disk.len(),
            forall|j: int| 0 <= j < disk.len() ==> #[trigger] disk[j].len() == bs(b),
            fat_bytes@ == concat_blocks(disk, 1, k as nat),
        decreases nblocks - k,
    {
        let mut block = zero_bytes(bsz);
        device.read_block_into(BlockId(1 + k as u16), block.as_mut_slice())?;
        fat_bytes.extend_from_slice(block.as_slice());
        k += 1;
    }
    proof {
        lemma_concat_blocks_len(disk, 1, nblocks as nat, bs(b) as nat);
        assert(fat_copy_bytes(b, disk, 0) == concat_blocks(disk, 1, nblocks as nat));
    }
    let n = fat_entry_count(boot.block_size, boot.fat_block_count);
    proof {
        assert(n * 2 <= nblocks * bsz) by (nonlinear_arith)
            requires
                n == bsz * nblocks / 2,
        ;
    }
    let mut fat_m: Vec<FatEntry> = Vec::new();
    let mut i: usize = 0;
    while i < n
        invariant
            fat_bytes@.len() == nblocks * bsz,
            n * 2 <= nblocks * bsz,
            nblocks * bsz <= 0xFFFF * 0xFFFF,
            i <= n,
            fat_m@.len() == i,
            forall|t: int| 0 <= t < i ==> #[trigger] fat_m@[t] == fat_entry_of(u16_at(fat_bytes@, 2 * t)),
        decreases n - i,
    {
        let raw = read_u16(fat_bytes.as_slice(), 2 * i);
        fat_m.push(FatEntry::from_raw(raw));
        i += 1;
    }
    proof {
        assert(fat_m@ =~= fat_of_image(fat_copy_bytes(b, disk, 0), fat_entries_of(bs(b), fbc(b))));
    }
    Ok(fat_m)
}


/// The disk that formatting leaves: the boot sector at the front of block 0, every FAT copy
/// holding `fat`, the root directory's cluster zeroed, and every other data block as it was.
pub open spec fn formatted_disk(b: BootSector, before: Seq<Seq<u8>>, disk: Seq<Seq<u8>>, fat: Seq<FatEntry>) -> bool {
    &&& disk.len() == before.len()
    &&& disk[0] == boot_bytes(b) + zeros(bs(b) - BOOT_SECTOR_SIZE)
    &&& forall|c: int| 0 <= c < b.fat_copies ==> #[trigger] fat_copy_bytes(b, disk, c) == fat_image(fat, (fbc(b) * bs(b)) as nat)
    &&& cluster_bytes(b, disk, ROOT_DIR_START as int) == zeros(cluster_size(b))
    &&& forall|j: int|
        data_start(b) <= j < disk.len() && !block_in_cluster(b, ROOT_DIR_START as int, j) ==> #[trigger] disk[j] == before[j]
}

/// A configuration that passes validation describes a usable layout.
pub proof fn lemma_config_geo(bs: u16, bc: u16, bpc: u16)
    requires
        config_valid(bs, bc, bpc),
        config_fat_blocks(bs, bc, bpc) >= 1,
    ensures
        geo_wf(boot_of_config(bs, bc, bpc)),
{
    let b = boot_of_config(bs, bc, bpc);
    let f = config_fat_blocks(bs, bc, bpc);
    assert(data_start(b) == 1 + 2 * f);
}

/// What mounting `device` gives: on success, a filesystem over the device's blocks with the boot
/// sector of block 0 and the FAT of the first FAT copy, nothing open and the FAT unchanged since
/// it was written; on a device whose requests do not fail, success exactly when block 0 holds a
/// boot sector that fits the device, and otherwise a refusal: `InvalidConfig` when the sector's
/// sizes fit the device but its configuration does not validate, `CorruptFs` for anything else.
pub open spec fn mounted<D: BufferedBlockDevice>(device: D, r: Result<MyFileSystem<D>, FsError>) -> bool {
    &&& r matches Ok(fs) ==> {
        &&& device.blocks().len() > 0
        &&& fs.wf()
        &&& fs.boot_view() == boot_from_bytes(device.blocks()[0])
        &&& boot_ok(fs.boot_view(), device.spec_block_size(), device.blocks().len())
        &&& fs.disk() == device.blocks()
        &&& fs.fat() == fat_of_image(
            fat_copy_bytes(fs.boot_view(), device.blocks(), 0),
            fat_entries_of(bs(fs.boot_view()), fbc(fs.boot_view())),
        )
        &&& !fs.dirty()
        &&& fs.reliable() == device.reliable()
        &&& fs.handles() == no_open_files()
        &&& fs.next_handle_value() == 1
    }
    &&& device.reliable() && device.blocks().len() > 0 ==> (r is Ok <==> device.spec_block_size()
        >= BOOT_SECTOR_SIZE && boot_ok(
        boot_from_bytes(device.blocks()[0]),
        device.spec_block_size(),
        device.blocks().len(),
    ))
    &&& device.reliable() && device.blocks().len() > 0 ==> (r matches Err(e) ==> e is CorruptFs || e is InvalidConfig)
    &&& device.reliable() && device.blocks().len() > 0 ==> (r matches Err(e) ==> (e is InvalidConfig <==> {
        let bt = boot_from_bytes(device.blocks()[0]);
        &&& device.spec_block_size() >= BOOT_SECTOR_SIZE
        &&& bt.block_size == device.spec_block_size()
        &&& bt.block_count <= device.blocks().len()
        &&& !config_valid(bt.block_size, bt.block_count, bt.blocks_per_cluster)
    }))
}

/// Does every link of a FAT name a cluster that its on-disk form can hold apart from the free
/// and end-of-chain markers?
pub open spec fn links_storable(fat: Seq<FatEntry>) -> bool {
    forall|i: int| 0 <= i < fat.len() ==> (#[trigger] fat[i] matches FatEntry::Next(c) ==> c.0 != 0 && c.0 != 0xFFFF)
}

/// What a sync writes, a mount reads back: after a successful sync of a filesystem whose block 0
/// holds its boot sector, mounting a device that holds the synced blocks gives the same boot
/// sector, the same FAT and the same blocks, and succeeds whenever the device's requests do not
/// fail. The FAT must be on disk once the sync is done: either it had changed (and the sync wrote
/// it) or the first FAT copy already held its image; and every link must be storable.
pub proof fn lemma_sync_then_mount<D: BufferedBlockDevice>(
    a: MyFileSystem<D>,
    c: MyFileSystem<D>,
    r: Result<(), FsError>,
    device: D,
    r2: Result<MyFileSystem<D>, FsError>,
)
    requires
        a.wf(),
        c.wf(),
        synced(a, c, r),
        r is Ok,
        a.disk()[0].subrange(0, BOOT_SECTOR_SIZE as int) == boot_bytes(a.boot_view()),
        a.dirty() || fat_copy_bytes(a.boot_view(), a.disk(), 0) == fat_image(
            a.fat(),
            (fbc(a.boot_view()) * bs(a.boot_view())) as nat,
        ),
        links_storable(a.fat()),
        device.wf(),
        device.blocks() == c.disk(),
        device.spec_block_size() == a.boot_view().block_size,
        mounted(device, r2),
    ensures
        device.reliable() ==> r2 is Ok,
        r2 matches Ok(fs) ==> fs.boot_view() == c.boot_view() && fs.fat() == c.fat() && fs.disk() == c.disk()
            && !fs.dirty(),
{
    a.lemma_wf();
    c.lemma_wf();
    let b = a.boot_view();
    let disk = c.disk();
    assert(disk[0] == a.disk()[0]);
    let blk = disk[0];
    let rest = blk.subrange(BOOT_SECTOR_SIZE as int, blk.len() as int);
    crate::fs::lemma_boot_round_trip(b, rest);
    assert(blk =~= boot_bytes(b) + rest);
    if a.dirty() {
        assert(fat_copy_bytes(b, disk, 0) == fat_image(a.fat(), (fbc(b) * bs(b)) as nat));
    }
    lemma_mount_reads_back(b, disk, c.fat(), rest);
}

impl<D: BufferedBlockDevice> MyFileSystem<D> {
    /// Formats `device` according to `config`: writes the boot sector and empty FATs, and gives
    /// the root directory its one cluster.
    pub fn format_on_device(device: D, config: FsConfig) -> (r: Result<Self, FsError>)
        requires
            device.wf(),
        ensures
            !(config.valid() && device.spec_block_size() == config.block_size && device.blocks().len()
                >= config.block_count) ==> (r matches Err(e) && e is InvalidConfig),
            crate::config::config_refusal(config.block_size, config.block_count, config.blocks_per_cluster) matches Some(m) ==> (r matches Err(
                FsError::InvalidConfig(s),
            ) && s@ == m),
            device.reliable() && config.valid() && device.spec_block_size() == config.block_size
                && device.blocks().len() >= config.block_count ==> r is Ok,
            r matches Ok(fs) ==> {
                let b = boot_of_config(config.block_size, config.block_count, config.blocks_per_cluster);
                &&& fs.wf()
                &&& fs.boot_view() == b
                &&& fs.fat() == initial_fat(fat_entries_of(bs(b), fbc(b)))
                &&& !fs.dirty()
                &&& fs.reliable() == device.reliable()
                &&& fs.handles() == no_open_files()
                &&& fs.next_handle_value() == 1
                &&& formatted_disk(b, device.blocks(), fs.disk(), fs.fat())
            },
    {
        match config.validate() {
            Ok(()) => {},
            Err(e) => {
                return Err(e);
            },
        }
        if device.block_size() != config.block_size as usize {
            return Err(FsError::InvalidConfig(crate::report::two_numbered_text("device block size ", device.block_size() as u64, " does not match filesystem block size ", config.block_size as u64)));
        }
        if device.block_count() < config.block_count as usize {
            return Err(FsError::InvalidConfig(crate::report::two_numbered_text("filesystem block count ", config.block_count as u64, " exceeds device block count ", device.block_count() as u64)));
        }
        let ghost d0 = device.blocks();
        let fat_block_count = get_fat_block_count(config.block_size, config.block_count, 2, config.blocks_per_cluster);
        let boot = BootSector {
            block_size: config.block_size,
            block_count: config.block_count,
            blocks_per_cluster: config.blocks_per_cluster,
            fat_start_block: BlockId(1),
            fat_block_count,
            fat_copies: 2,
            data_start_block: BlockId(1 + fat_block_count * 2),
            root_dir_start_cluster: ClusterId(ROOT_DIR_START),
        };
        let ghost b = boot;
        proof {
            lemma_config_geo(config.block_size, config.block_count, config.blocks_per_cluster);
            assert(b == boot_of_config(config.block_size, config.block_count, config.blocks_per_cluster));
        }
        let n = fat_entry_count(config.block_size, fat_block_count);
        let mut fat_m: Vec<FatEntry> = Vec::new();
        while fat_m.len() < n
            invariant
                fat_m@.len() <= n,
                forall|i: int| 0 <= i < fat_m@.len() ==> #[trigger] fat_m@[i] == FatEntry::Free,
            decreases n - fat_m@.len(),
        {
            fat_m.push(FatEntry::Free);
        }
        let mut fs = Self::assemble(boot, device, fat_m);
        proof {
            fs.lemma_wf();
        }
        let mut block = boot.as_bytes();
        while block.len() < config.block_size as usize
            invariant
                b.block_size == config.block_size,
                block@.len() <= bs(b),
                block@.len() >= BOOT_SECTOR_SIZE,
                block@ == boot_bytes(b) + zeros(block@.len() - BOOT_SECTOR_SIZE),
            decreases bs(b) - block@.len(),
        {
            let ghost before = block@;
            block.push(0);
            proof {
                assert(block@ =~= boot_bytes(b) + zeros(block@.len() - BOOT_SECTOR_SIZE));
            }
        }
        fs.write_device_block(BlockId(0), block.as_slice())?;
        let ghost d1 = fs.disk();
        let mut copy: u16 = 0;
        while copy < 2
            invariant
                fs.wf(),
                fs.boot_view() == b,
                geo_wf(b),
                b.fat_copies == 2,
                fs.fat() == fat_m@,
                !fs.dirty(),
                fs.reliable() == device.reliable(),
                fs.handles() == no_open_files(),
                fs.next_handle_value() == 1,
                fs.disk().len() == d1.len(),
                fat_block_count == fbc(b),
                config.valid(),
                device.spec_block_size() == config.block_size,
                device.blocks().len() >= config.block_count,
                copy <= 2,
                forall|j: int| 0 <= j < d1.len() && !(1 <= j < data_start(b)) ==> #[trigger] fs.disk()[j] == d1[j],
            decreases 2 - copy,
        {
            let start = fs.fat_start_block_of(copy);
            let mut k: u16 = 0;
            while k < fat_block_count
                invariant
                    fs.wf(),
                    fs.boot_view() == b,
                    geo_wf(b),
                    b.fat_copies == 2,
                    fat_block_count == fbc(b),
                    copy < 2,
                    start.0 == 1 + copy * fbc(b),
                    fs.fat() == fat_m@,
                    !fs.dirty(),
                    fs.reliable() == device.reliable(),
                    fs.handles() == no_open_files(),
                    fs.next_handle_value() == 1,
                    fs.disk().len() == d1.len(),
                    config.valid(),
                    device.spec_block_size() == config.block_size,
                    device.blocks().len() >= config.block_count,
                    k <= fat_block_count,
                    forall|j: int| 0 <= j < d1.len() && !(1 <= j < data_start(b)) ==> #[trigger] fs.disk()[j] == d1[j],
                decreases fat_block_count - k,
            {
                proof {
                    assert(1 + copy * fbc(b) + k + 1 <= 1 + 2 * fbc(b)) by (nonlinear_arith)
                        requires
                            copy < 2,
                            k < fbc(b),
                    ;
                }
                let ghost before = fs.disk();
                proof {
                    fs.lemma_wf();
                }
                fs.zero_device_block(BlockId(start.0 + k))?;
                proof {
                    assert forall|j: int| 0 <= j < d1.len() && !(1 <= j < data_start(b)) implies #[trigger] fs.disk()[j] == d1[j] by {
                        assert(fs.disk()[j] == before[j]);
                    }
                }
                k += 1;
            }
            copy += 1;
        }
        let ghost d2 = fs.disk();
        let _ = fs.write_fat(ClusterId(ROOT_DIR_START), FatEntry::EndOfChain);
        fs.zero_cluster(ClusterId(ROOT_DIR_START))?;
        let ghost d3 = fs.disk();
        fs.sync()?;
        proof {
            let d4 = fs.disk();
            assert(fs.fat() =~= initial_fat(fat_entries_of(bs(b), fbc(b))));
            lemma_cluster_range(b, ROOT_DIR_START as int);
            assert(d4[0] == d3[0]);
            assert(!block_in_cluster(b, ROOT_DIR_START as int, 0));
            assert(d3[0] == d2[0]);
            assert(d2[0] == d1[0]);
            assert forall|j: int|
                data_start(b) <= j < d4.len() && !block_in_cluster(b, ROOT_DIR_START as int, j) implies #[trigger] d4[j]
                == d0[j] by {
                assert(d4[j] == d3[j]);
                assert(d3[j] == d2[j]);
                assert(d2[j] == d1[j]);
            }
            assert forall|j: int| first_block(b, ROOT_DIR_START as int) <= j < first_block(b, ROOT_DIR_START as int) + bpc(b)
                implies #[trigger] d4[j] == d3[j] by {}
            lemma_concat_blocks_agree(d4, d3, first_block(b, ROOT_DIR_START as int), bpc(b) as nat);
        }
        Ok(fs)
    }

    /// Mounts the filesystem that `device` holds.
    pub fn open_on_device(device: D) -> (r: Result<Self, FsError>)
        requires
            device.wf(),
        ensures
            mounted(device, r),
    {
        let boot = read_boot_sector_from_device(&device)?;
        validate_boot_sector_against_device(&boot, &device)?;
        check_boot_layout(&boot)?;
        let fat_m = read_fat_cache_from_device(&device, &boot)?;
        proof {
            assert(fat_m@.len() == fat_entries_of(bs(boot), fbc(boot)));
        }
        Ok(Self::assemble(boot, device, fat_m))
    }
}

impl MyFileSystem<LogicalBlockDevice<MemoryBackend>> {
    /// Formats a new in-memory device according to `config`.
    pub fn format_memory(config: FsConfig) -> (r: Result<Self, FsError>)
        ensures
            config.valid() <==> r is Ok,
            r matches Err(e) ==> e is InvalidConfig,
            r matches Ok(fs) ==> {
                let b = boot_of_config(config.block_size, config.block_count, config.blocks_per_cluster);
                &&& fs.wf()
                &&& fs.boot_view() == b
                &&& fs.fat() == initial_fat(fat_entries_of(bs(b), fbc(b)))
                &&& !fs.dirty()
                &&& fs.reliable()
                &&& fs.handles() == no_open_files()
                &&& fs.next_handle_value() == 1
                &&& fs.disk().len() == config.block_count
                &&& formatted_disk(b, Seq::new(config.block_count as nat, |i: int| zeros(bs(b))), fs.disk(), fs.fat())
            },
    {
        config.validate()?;
        let backend = MemoryBackend::new(config.block_size as usize, config.block_count as usize);
        let device = LogicalBlockDevice::new(backend, config.block_size as usize)?;
        proof {
            assert(device.blocks() =~= Seq::new(config.block_count as nat, |i: int| zeros(config.block_size as int)));
        }
        Self::format_on_device(device, config)
    }
}


/// Mounting reads back what formatting and syncing wrote: a disk whose block 0 starts with the
/// image of a boot sector, and whose first FAT copy holds the image of a FAT, mounts with that
/// boot sector and that FAT (for a FAT whose links avoid the two reserved raw values).
pub proof fn lemma_mount_reads_back(b: BootSector, disk: Seq<Seq<u8>>, fat: Seq<FatEntry>, rest: Seq<u8>)
    requires
        disk.len() > 0,
        disk[0] == boot_bytes(b) + rest,
        fat.len() == fat_entries_of(bs(b), fbc(b)),
        fat_copy_bytes(b, disk, 0) == fat_image(fat, (fbc(b) * bs(b)) as nat),
        forall|i: int| 0 <= i < fat.len() ==> (#[trigger] fat[i] matches FatEntry::Next(c) ==> c.0 != 0 && c.0 != 0xFFFF),
    ensures
        boot_from_bytes(disk[0]) == b,
        fat_of_image(fat_copy_bytes(boot_from_bytes(disk[0]), disk, 0), fat_entries_of(bs(b), fbc(b))) == fat,
{
    crate::fs::lemma_boot_round_trip(b, rest);
    assert(2 * (bs(b) * fbc(b) / 2) <= fbc(b) * bs(b)) by (nonlinear_arith)
        requires
            bs(b) >= 0,
            fbc(b) >= 0,
    ;
    lemma_fat_image_round_trip(fat, (fbc(b) * bs(b)) as nat);
}

} // verus!
