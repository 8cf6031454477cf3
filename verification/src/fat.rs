//! File allocation table (FAT) entries.

use vstd::prelude::*;

use crate::fs::ClusterId;

verus! {

/// A type-safe FAT entry.
#[derive(Debug, Clone, Copy, PartialEq, Eq, Structural)]
pub enum FatEntry {
    Free,
    EndOfChain,
    Next(ClusterId),
}

pub const FAT_ENTRY_SIZE: usize = 2;

/// The raw 16-bit value stored for an entry.
pub open spec fn fat_raw(e: FatEntry) -> u16 {
    match e {
        FatEntry::Free => 0x0000u16,
        FatEntry::EndOfChain => 0xFFFFu16,
        FatEntry::Next(c) => c.0,
    }
}

/// The entry a raw 16-bit value stands for.
pub open spec fn fat_entry_of(raw: u16) -> FatEntry {
    if raw == 0x0000 {
        FatEntry::Free
    } else if raw == 0xFFFF {
        FatEntry::EndOfChain
    } else {
        FatEntry::Next(ClusterId(raw))
    }
}

impl FatEntry {
    pub const SIZE: usize = 2;

    /// The raw value of this entry.
    pub fn to_raw(self) -> (r: u16)
        ensures
            r == fat_raw(self),
    {
        match self {
            FatEntry::Free => ClusterId::FAT_FREE,
            FatEntry::EndOfChain => ClusterId::FAT_EOC,
            FatEntry::Next(cluster) => cluster.0,
        }
    }

    /// The entry a raw value stands for.
    pub fn from_raw(value: u16) -> (r: FatEntry)
        ensures
            r == fat_entry_of(value),
    {
        if value == ClusterId::FAT_FREE {
            FatEntry::Free
        } else if value == ClusterId::FAT_EOC {
            FatEntry::EndOfChain
        } else {
            FatEntry::Next(ClusterId(value))
        }
    }
}

impl From<FatEntry> for u16 {
    fn from(value: FatEntry) -> (r: u16)
        ensures
            r == fat_raw(value),
    {
        value.to_raw()
    }
}

impl vstd::std_specs::convert::FromSpecImpl<FatEntry> for u16 {
    open spec fn obeys_from_spec() -> bool {
        true
    }

    open spec fn from_spec(v: FatEntry) -> u16 {
        fat_raw(v)
    }
}

impl From<u16> for FatEntry {
    fn from(value: u16) -> (r: FatEntry)
        ensures
            r == fat_entry_of(value),
    {
        FatEntry::from_raw(value)
    }
}

impl vstd::std_specs::convert::FromSpecImpl<u16> for FatEntry {
    open spec fn obeys_from_spec() -> bool {
        true
    }

    open spec fn from_spec(v: u16) -> FatEntry {
        fat_entry_of(v)
    }
}

/// Every raw value survives decoding and re-encoding; every entry whose successor is a real
/// cluster (neither 0x0000 nor 0xFFFF) survives encoding and decoding.
pub proof fn lemma_fat_entry_round_trip(raw: u16, e: FatEntry)
    ensures
        fat_raw(fat_entry_of(raw)) == raw,
        (e matches FatEntry::Next(c) ==> c.0 != 0 && c.0 != 0xFFFF) ==> fat_entry_of(fat_raw(e))
            == e,
{
}

/// Byte offset of a cluster's entry within the FAT.
pub fn fat_offset(cluster: ClusterId) -> (r: usize)
    ensures
        r == cluster.0 * 2,
{
    cluster.0 as usize * FAT_ENTRY_SIZE
}

} // verus!
