//! Filesystem parameters and the on-disk geometry they imply.

use vstd::prelude::*;

use crate::error::FsError;
use crate::fs::BOOT_SECTOR_SIZE;
use crate::fs::DEFAULT_BLOCKS_PER_CLUSTER;
use crate::fs::DEFAULT_BLOCK_COUNT;
use crate::fs::FCB_SIZE;
use crate::fs::ROOT_DIR_START;
use crate::report::decimal_text;
use crate::report::numbered_text;
use crate::report::push_decimal;

verus! {

pub open spec fn is_pow2(x: int) -> bool
    decreases x,
{
    if x <= 0 {
        false
    } else if x == 1 {
        true
    } else {
        x % 2 == 0 && is_pow2(x / 2)
    }
}

pub proof fn lemma_u16_product(a: u16, b: u16)
    ensures
        0 <= a * b <= 0xFFFF * 0xFFFF,
{
    assert(0 <= a * b <= 0xFFFF * 0xFFFF) by (nonlinear_arith)
        requires
            a <= 0xFFFF,
            b <= 0xFFFF,
    ;
}

/// Is `x` a power of two?
pub fn is_power_of_two(x: u16) -> (r: bool)
    ensures
        r == is_pow2(x as int),
{
    if x == 0 {
        return false;
    }
    let mut v = x;
    while v > 1
        invariant
            v > 0,
            is_pow2(v as int) == is_pow2(x as int),
        decreases v,
    {
        if v % 2 != 0 {
            return false;
        }
        v = v / 2;
    }
    true
}

/// First block of the data region when each of `copies` FATs takes `fat_blocks` blocks.
pub open spec fn data_start_of(copies: int, fat_blocks: int) -> int {
    1 + copies * fat_blocks
}

/// Number of FAT blocks needed to address all data clusters that remain when the FATs take
/// `fat_blocks` blocks each.
pub open spec fn needed_fat_blocks(bs: int, bc: int, copies: int, bpc: int, fat_blocks: int) -> int {
    let data_clusters = (bc - data_start_of(copies, fat_blocks)) / bpc;
    let fat_bytes = (ROOT_DIR_START + data_clusters) * 2;
    (fat_bytes + bs - 1) / bs
}

/// The FAT size found by starting at one block and growing it to what the remaining data clusters
/// need, until it no longer grows or the FATs fill the disk.
pub open spec fn fat_blocks_from(bs: u16, bc: u16, copies: u16, bpc: u16, f: u16) -> u16
    decreases 0x10000 - f,
    when bs > 0 && bpc > 0
{
    if data_start_of(copies as int, f as int) >= bc {
        f
    } else {
        let needed = needed_fat_blocks(bs as int, bc as int, copies as int, bpc as int, f as int) as u16;
        if needed <= f {
            f
        } else {
            fat_blocks_from(bs, bc, copies, bpc, needed)
        }
    }
}

/// Number of FAT blocks for a geometry.
pub fn get_fat_block_count(block_size: u16, block_count: u16, fat_copies: u16, blocks_per_cluster: u16) -> (r: u16)
    requires
        block_size > 0,
        blocks_per_cluster > 0,
    ensures
        r == fat_blocks_from(block_size, block_count, fat_copies, blocks_per_cluster, 1),
        r >= 1,
        data_start_of(fat_copies as int, r as int) >= block_count || needed_fat_blocks(
            block_size as int,
            block_count as int,
            fat_copies as int,
            blocks_per_cluster as int,
            r as int,
        ) as u16 <= r,
{
    let mut fat_blocks: u16 = 1;
    loop
        invariant
            block_size > 0,
            blocks_per_cluster > 0,
            fat_blocks >= 1,
            fat_blocks_from(block_size, block_count, fat_copies, blocks_per_cluster, fat_blocks)
                == fat_blocks_from(block_size, block_count, fat_copies, blocks_per_cluster, 1),
        decreases 0x10000 - fat_blocks,
    {
        proof {
            lemma_u16_product(fat_copies, fat_blocks);
        }
        let data_start = 1u64 + fat_copies as u64 * fat_blocks as u64;
        if data_start >= block_count as u64 {
            return fat_blocks;
        }
        let data_clusters = (block_count as u64 - data_start) / blocks_per_cluster as u64;
        let fat_entries = ROOT_DIR_START as u64 + data_clusters;
        let fat_bytes = fat_entries * 2;
        let needed = ((fat_bytes + block_size as u64 - 1) / block_size as u64) as u16;
        if needed <= fat_blocks {
            return fat_blocks;
        }
        fat_blocks = needed;
    }
}

/// Number of FAT entries that `fat_block_count` blocks of `block_size` bytes hold.
pub open spec fn fat_entries_of(block_size: int, fat_block_count: int) -> int {
    block_size * fat_block_count / 2
}

pub fn fat_entry_count(block_size: u16, fat_block_count: u16) -> (r: usize)
    ensures
        r == fat_entries_of(block_size as int, fat_block_count as int),
{
    proof {
        lemma_u16_product(block_size, fat_block_count);
    }
    (block_size as u64 * fat_block_count as u64 / 2) as usize
}

/// Configurable parameters of [`crate::MyFileSystem`].
#[derive(Debug, Clone)]
pub struct FsConfig {
    pub block_size: u16,
    pub block_count: u16,
    pub blocks_per_cluster: u16,
}

/// The FAT blocks of one copy for a configuration (two copies are made).
pub open spec fn config_fat_blocks(bs: u16, bc: u16, bpc: u16) -> u16 {
    fat_blocks_from(bs, bc, 2, bpc, 1)
}

/// What makes a configuration usable.
pub open spec fn config_valid(bs: u16, bc: u16, bpc: u16) -> bool {
    &&& bs != 0
    &&& is_pow2(bs as int)
    &&& bs >= BOOT_SECTOR_SIZE
    &&& bpc != 0
    &&& is_pow2(bpc as int)
    &&& bs * bpc >= FCB_SIZE
    &&& {
        let f = config_fat_blocks(bs, bc, bpc) as int;
        let ds = data_start_of(2, f);
        let data_clusters = (bc - ds) / (bpc as int);
        &&& ds < bc
        &&& bc - ds >= bpc
        &&& ROOT_DIR_START + data_clusters - 1 <= 0xFFFF
        &&& fat_entries_of(bs as int, f) >= ROOT_DIR_START + data_clusters
    }
}

/// Why a configuration is refused, in the order the checks are made: the message of the first
/// check it fails, or `None` when it passes them all.
pub open spec fn config_refusal(bs: u16, bc: u16, bpc: u16) -> Option<Seq<char>> {
    if bs == 0 {
        Some("block size must be at least 1"@)
    } else if !is_pow2(bs as int) {
        Some("block size "@ + decimal_text(bs as nat) + " is not a power of 2"@)
    } else if bs < BOOT_SECTOR_SIZE {
        Some("boot sector does not fit in block size "@ + decimal_text(bs as nat))
    } else if bpc == 0 {
        Some("blocks per cluster must be at least 1"@)
    } else if !is_pow2(bpc as int) {
        Some("blocks per cluster "@ + decimal_text(bpc as nat) + " is not a power of 2"@)
    } else if bs * bpc < FCB_SIZE {
        Some("cluster size "@ + decimal_text((bs * bpc) as nat) + " smaller than directory entry size "@ + decimal_text(
            FCB_SIZE as nat,
        ))
    } else {
        let f = config_fat_blocks(bs, bc, bpc) as int;
        let ds = data_start_of(2, f);
        if ds >= bc {
            Some("block count "@ + decimal_text(bc as nat) + " is too small for geometry"@)
        } else if bc - ds < bpc {
            Some("geometry does not leave one full root directory cluster"@)
        } else {
            let dc = (bc - ds) / (bpc as int);
            if ROOT_DIR_START + dc - 1 > 0xFFFF {
                Some("geometry exceeds 16-bit cluster id range"@)
            } else if fat_entries_of(bs as int, f) < ROOT_DIR_START + dc {
                Some("fat region cannot address all data clusters"@)
            } else {
                None
            }
        }
    }
}

impl FsConfig {
    pub open spec fn valid(&self) -> bool {
        config_valid(self.block_size, self.block_count, self.blocks_per_cluster)
    }

    /// Checks that this configuration describes a usable filesystem.
    pub fn validate(&self) -> (r: Result<(), FsError>)
        ensures
            self.valid() ==> r is Ok,
            !self.valid() ==> r is Err && r->Err_0 is InvalidConfig,
            self.valid() <==> config_refusal(self.block_size, self.block_count, self.blocks_per_cluster) is None,
            config_refusal(self.block_size, self.block_count, self.blocks_per_cluster) matches Some(m) ==> (r matches Err(
                FsError::InvalidConfig(s),
            ) && s@ == m),
    {
        if self.block_size == 0 {
            return Err(FsError::InvalidConfig(String::from_str("block size must be at least 1")));
        }
        if !is_power_of_two(self.block_size) {
            return Err(FsError::InvalidConfig(numbered_text("block size ", self.block_size as u64, " is not a power of 2")));
        }
        if (self.block_size as usize) < BOOT_SECTOR_SIZE {
            let msg = numbered_text("boot sector does not fit in block size ", self.block_size as u64, "");
            proof {
                reveal_strlit("");
                assert(msg@ =~= "boot sector does not fit in block size "@ + decimal_text(self.block_size as nat));
            }
            return Err(FsError::InvalidConfig(msg));
        }
        if self.blocks_per_cluster == 0 {
            return Err(
                FsError::InvalidConfig(String::from_str("blocks per cluster must be at least 1")),
            );
        }
        if !is_power_of_two(self.blocks_per_cluster) {
            return Err(
                FsError::InvalidConfig(numbered_text("blocks per cluster ", self.blocks_per_cluster as u64, " is not a power of 2")),
            );
        }
        proof {
            lemma_u16_product(self.block_size, self.blocks_per_cluster);
        }
        let cluster_size = self.block_size as u64 * self.blocks_per_cluster as u64;
        if cluster_size < FCB_SIZE as u64 {
            let mut msg = numbered_text("cluster size ", cluster_size, " smaller than directory entry size ");
            push_decimal(&mut msg, FCB_SIZE as u64);
            return Err(FsError::InvalidConfig(msg));
        }
        let fat_block_count = get_fat_block_count(
            self.block_size,
            self.block_count,
            2,
            self.blocks_per_cluster,
        );
        let data_start = 1u64 + 2u64 * fat_block_count as u64;
        if data_start >= self.block_count as u64 {
            return Err(
                FsError::InvalidConfig(numbered_text("block count ", self.block_count as u64, " is too small for geometry")),
            );
        }
        let data_blocks = self.block_count as u64 - data_start;
        if data_blocks < self.blocks_per_cluster as u64 {
            return Err(
                FsError::InvalidConfig(
                    String::from_str("geometry does not leave one full root directory cluster"),
                ),
            );
        }
        let data_clusters = data_blocks / self.blocks_per_cluster as u64;
        let max_cluster_id = ROOT_DIR_START as u64 + data_clusters - 1;
        if max_cluster_id > 0xFFFF {
            return Err(
                FsError::InvalidConfig(
                    String::from_str("geometry exceeds 16-bit cluster id range"),
                ),
            );
        }
        let fat_entries = fat_entry_count(self.block_size, fat_block_count);
        let needed_fat_entries = ROOT_DIR_START as u64 + data_clusters;
        if (fat_entries as u64) < needed_fat_entries {
            return Err(
                FsError::InvalidConfig(
                    String::from_str("fat region cannot address all data clusters"),
                ),
            );
        }
        Ok(())
    }
}

impl Default for FsConfig {
    fn default() -> (r: FsConfig)
        ensures
            r.block_size == 1024 && r.block_count == DEFAULT_BLOCK_COUNT && r.blocks_per_cluster
                == DEFAULT_BLOCKS_PER_CLUSTER,
    {
        FsConfig {
            block_size: 1024,
            block_count: DEFAULT_BLOCK_COUNT,
            blocks_per_cluster: DEFAULT_BLOCKS_PER_CLUSTER,
        }
    }
}

} // verus!
