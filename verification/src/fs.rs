//! On-disk identifiers, attributes and records.

use vstd::prelude::*;

use crate::error::FsError;
use crate::name::ShortName;
use crate::name::short_name_text;

verus! {

pub const DEFAULT_BLOCK_SIZE: usize = 1024;

pub const DEFAULT_BLOCK_COUNT: u16 = 128;

pub const DEFAULT_BLOCKS_PER_CLUSTER: u16 = 1;

/// Number of the first cluster of the data region; the root directory starts there.
pub const ROOT_DIR_START: u16 = 2;

/// The first cluster of the root directory.
pub fn root_dir_start_cluster() -> (c: ClusterId)
    ensures
        c.0 == ROOT_DIR_START,
{
    ClusterId(ROOT_DIR_START)
}

/// The ID of a FAT cluster.
#[derive(Debug, Clone, Copy, PartialEq, Eq, PartialOrd, Ord, Hash, Structural)]
pub struct ClusterId(pub u16);

impl ClusterId {
    pub const FAT_FREE: u16 = 0x0000;

    pub const FAT_EOC: u16 = 0xFFFF;

    /// The cluster number that marks "no cluster".
    pub fn free() -> (c: ClusterId)
        ensures
            c.0 == 0,
    {
        ClusterId(0x0000)
    }

    /// The cluster number that marks the end of a chain.
    pub fn eoc() -> (c: ClusterId)
        ensures
            c.0 == 0xFFFF,
    {
        ClusterId(0xFFFF)
    }
}

/// The ID of a logical block, aka sector in the current implementation.
#[derive(Debug, Clone, Copy, PartialEq, Eq, Hash, Structural)]
pub struct BlockId(pub u16);

#[derive(Debug, Clone, Copy, PartialEq, Eq, Hash, Structural)]
pub struct FileHandle(pub u32);

// ---------------------------------------------------------------------------
// Little-endian byte images of integers.

pub open spec fn le_u16(x: u16) -> Seq<u8> {
    seq![(x % 256) as u8, (x / 256) as u8]
}

pub open spec fn u16_at(b: Seq<u8>, i: int) -> u16 {
    (b[i] + 256 * b[i + 1]) as u16
}

pub open spec fn le_u32(x: u32) -> Seq<u8> {
    seq![(x % 256) as u8, ((x / 256) % 256) as u8, ((x / 65536) % 256) as u8, (x / 16777216) as u8]
}

pub open spec fn u32_at(b: Seq<u8>, i: int) -> u32 {
    (b[i] + 256 * b[i + 1] + 65536 * b[i + 2] + 16777216 * b[i + 3]) as u32
}

pub proof fn lemma_le_u16_round_trip(x: u16, prefix: Seq<u8>, suffix: Seq<u8>)
    ensures
        u16_at(prefix + le_u16(x) + suffix, prefix.len() as int) == x,
{
    let b = prefix + le_u16(x) + suffix;
    assert(b[prefix.len() as int] == (x % 256) as u8);
    assert(b[prefix.len() as int + 1] == (x / 256) as u8);
}

pub proof fn lemma_le_u32_round_trip(x: u32, prefix: Seq<u8>, suffix: Seq<u8>)
    ensures
        u32_at(prefix + le_u32(x) + suffix, prefix.len() as int) == x,
{
    let b = prefix + le_u32(x) + suffix;
    let p = prefix.len() as int;
    assert(b[p] == (x % 256) as u8);
    assert(b[p + 1] == ((x / 256) % 256) as u8);
    assert(b[p + 2] == ((x / 65536) % 256) as u8);
    assert(b[p + 3] == (x / 16777216) as u8);
}

pub fn push_u16(out: &mut Vec<u8>, x: u16)
    ensures
        final(out)@ == old(out)@ + le_u16(x),
{
    out.push((x % 256) as u8);
    out.push((x / 256) as u8);
    assert(final(out)@ =~= old(out)@ + le_u16(x));
}

pub fn push_u32(out: &mut Vec<u8>, x: u32)
    ensures
        final(out)@ == old(out)@ + le_u32(x),
{
    out.push((x % 256) as u8);
    out.push(((x / 256) % 256) as u8);
    out.push(((x / 65536) % 256) as u8);
    out.push((x / 16777216) as u8);
    assert(final(out)@ =~= old(out)@ + le_u32(x));
}

pub fn read_u16(b: &[u8], i: usize) -> (r: u16)
    requires
        i + 2 <= b@.len(),
    ensures
        r == u16_at(b@, i as int),
{
    b[i] as u16 + 256 * (b[i + 1] as u16)
}

pub fn read_u32(b: &[u8], i: usize) -> (r: u32)
    requires
        i + 4 <= b@.len(),
    ensures
        r == u32_at(b@, i as int),
{
    b[i] as u32 + 256 * (b[i + 1] as u32) + 65536 * (b[i + 2] as u32) + 16777216 * (b[i + 3] as u32)
}

} // verus!

verus! {

#[derive(Debug, Clone, Copy, PartialEq, Eq, Structural)]
pub enum NodeKind {
    File,
    Directory,
}

impl NodeKind {
    /// Text shown for this kind.
    pub fn as_text(&self) -> (s: &'static str)
        ensures
            s@ == (match *self {
                NodeKind::File => "FILE"@,
                NodeKind::Directory => "DIR"@,
            }),
    {
        match self {
            NodeKind::File => "FILE",
            NodeKind::Directory => "DIR",
        }
    }
}

/// Attribute byte of a file control block.
#[derive(Debug, Clone, Copy, PartialEq, Eq, Structural)]
pub struct FcbAttr(pub u8);

impl FcbAttr {
    pub const DIR_ATTR: u8 = 0x10;

    pub const FILE_ATTR: u8 = 0x20;

    pub fn file() -> (a: FcbAttr)
        ensures
            a.0 == 0x20,
    {
        FcbAttr(0x20)
    }

    pub fn directory() -> (a: FcbAttr)
        ensures
            a.0 == 0x10,
    {
        FcbAttr(0x10)
    }
}

/// The attribute byte that records a node kind.
pub open spec fn attr_of_kind(kind: NodeKind) -> u8 {
    match kind {
        NodeKind::File => 0x20u8,
        NodeKind::Directory => 0x10u8,
    }
}

/// The node kind an attribute byte records, if any.
pub open spec fn kind_of_attr(attr: u8) -> Option<NodeKind> {
    if attr == 0x20 {
        Some(NodeKind::File)
    } else if attr == 0x10 {
        Some(NodeKind::Directory)
    } else {
        None
    }
}

impl From<NodeKind> for FcbAttr {
    fn from(value: NodeKind) -> (r: FcbAttr)
        ensures
            r.0 == attr_of_kind(value),
    {
        match value {
            NodeKind::File => FcbAttr(FcbAttr::FILE_ATTR),
            NodeKind::Directory => FcbAttr(FcbAttr::DIR_ATTR),
        }
    }
}

impl vstd::std_specs::convert::FromSpecImpl<NodeKind> for FcbAttr {
    open spec fn obeys_from_spec() -> bool {
        true
    }

    open spec fn from_spec(v: NodeKind) -> FcbAttr {
        FcbAttr(attr_of_kind(v))
    }
}

impl NodeKind {
    /// Decodes an attribute byte; anything but the two known values is corruption.
    pub fn from_attr(value: FcbAttr) -> (r: Result<NodeKind, FsError>)
        ensures
            match kind_of_attr(value.0) {
                Some(k) => r == Ok::<NodeKind, FsError>(k),
                None => r is Err && r->Err_0 is CorruptFs,
            },
    {
        if value.0 == FcbAttr::FILE_ATTR {
            Ok(NodeKind::File)
        } else if value.0 == FcbAttr::DIR_ATTR {
            Ok(NodeKind::Directory)
        } else {
            Err(FsError::CorruptFs(crate::report::hex_message("unknown attr byte: ", value.0 as u64)))
        }
    }
}

impl TryFrom<FcbAttr> for NodeKind {
    type Error = FsError;

    fn try_from(value: FcbAttr) -> (r: Result<NodeKind, FsError>)
        ensures
            match kind_of_attr(value.0) {
                Some(k) => r == Ok::<NodeKind, FsError>(k),
                None => r is Err && r->Err_0 is CorruptFs,
            },
    {
        NodeKind::from_attr(value)
    }
}


impl vstd::std_specs::convert::TryFromSpecImpl<FcbAttr> for NodeKind {
    /// The conversion's result is stated by the `ensures` of `try_from` itself.
    open spec fn obeys_try_from_spec() -> bool {
        false
    }

    open spec fn try_from_spec(v: FcbAttr) -> Result<NodeKind, FsError> {
        arbitrary()
    }
}

/// Converting a kind to its attribute byte and back gives the kind again.
pub proof fn lemma_kind_attr_round_trip(kind: NodeKind)
    ensures
        kind_of_attr(attr_of_kind(kind)) == Some(kind),
{
}

/// On-disk boot-region metadata for filesystem image.
///
/// Stored at the beginning of reserved sector 0. This record is a prefix of the first block, not
/// a whole-block object.
#[derive(Debug, Clone, Copy, PartialEq, Eq)]
pub struct BootSector {
    /// Block size of this FS.
    pub block_size: u16,
    /// Number of blocks of the whole disk.
    pub block_count: u16,
    /// Number of blocks per data cluster.
    pub blocks_per_cluster: u16,
    /// Starting block ID of the first FAT.
    pub fat_start_block: BlockId,
    /// Number of blocks allocated for each FAT.
    pub fat_block_count: u16,
    /// Number of copies of FAT.
    pub fat_copies: u16,
    /// Starting position of the first data cluster.
    pub data_start_block: BlockId,
    /// Starting cluster ID of the root directory.
    pub root_dir_start_cluster: ClusterId,
}

pub const BOOT_SECTOR_SIZE: usize = 16;

/// The byte image of a boot sector.
pub open spec fn boot_bytes(b: BootSector) -> Seq<u8> {
    le_u16(b.block_size) + le_u16(b.block_count) + le_u16(b.blocks_per_cluster) + le_u16(
        b.fat_start_block.0,
    ) + le_u16(b.fat_block_count) + le_u16(b.fat_copies) + le_u16(b.data_start_block.0) + le_u16(
        b.root_dir_start_cluster.0,
    )
}

/// The boot sector that a byte image of at least `BOOT_SECTOR_SIZE` bytes holds.
pub open spec fn boot_from_bytes(b: Seq<u8>) -> BootSector {
    BootSector {
        block_size: u16_at(b, 0),
        block_count: u16_at(b, 2),
        blocks_per_cluster: u16_at(b, 4),
        fat_start_block: BlockId(u16_at(b, 6)),
        fat_block_count: u16_at(b, 8),
        fat_copies: u16_at(b, 10),
        data_start_block: BlockId(u16_at(b, 12)),
        root_dir_start_cluster: ClusterId(u16_at(b, 14)),
    }
}

impl BootSector {
    pub const SIZE: usize = 16;

    /// The little-endian byte image of this record.
    pub fn as_bytes(&self) -> (out: Vec<u8>)
        ensures
            out@ == boot_bytes(*self),
            out@.len() == BOOT_SECTOR_SIZE,
    {
        let mut out: Vec<u8> = Vec::new();
        push_u16(&mut out, self.block_size);
        push_u16(&mut out, self.block_count);
        push_u16(&mut out, self.blocks_per_cluster);
        push_u16(&mut out, self.fat_start_block.0);
        push_u16(&mut out, self.fat_block_count);
        push_u16(&mut out, self.fat_copies);
        push_u16(&mut out, self.data_start_block.0);
        push_u16(&mut out, self.root_dir_start_cluster.0);
        out
    }

    /// Reads a boot sector from the front of `bytes`.
    pub fn read_from_prefix(bytes: &[u8]) -> (r: Result<BootSector, FsError>)
        ensures
            bytes@.len() >= BOOT_SECTOR_SIZE ==> r == Ok::<BootSector, FsError>(
                boot_from_bytes(bytes@),
            ),
            bytes@.len() < BOOT_SECTOR_SIZE ==> r is Err && r->Err_0 is CorruptFs,
    {
        if bytes.len() < BootSector::SIZE {
            return Err(FsError::CorruptFs(String::from_str("boot sector shorter than expected")));
        }
        Ok(BootSector {
            block_size: read_u16(bytes, 0),
            block_count: read_u16(bytes, 2),
            blocks_per_cluster: read_u16(bytes, 4),
            fat_start_block: BlockId(read_u16(bytes, 6)),
            fat_block_count: read_u16(bytes, 8),
            fat_copies: read_u16(bytes, 10),
            data_start_block: BlockId(read_u16(bytes, 12)),
            root_dir_start_cluster: ClusterId(read_u16(bytes, 14)),
        })
    }
}

/// Reading back the byte image of a boot sector, followed by anything, gives the same record.
pub proof fn lemma_boot_round_trip(b: BootSector, rest: Seq<u8>)
    ensures
        boot_bytes(b).len() == BOOT_SECTOR_SIZE,
        boot_from_bytes(boot_bytes(b) + rest) == b,
{
    let e = Seq::<u8>::empty();
    let f0 = le_u16(b.block_size);
    let f1 = le_u16(b.block_count);
    let f2 = le_u16(b.blocks_per_cluster);
    let f3 = le_u16(b.fat_start_block.0);
    let f4 = le_u16(b.fat_block_count);
    let f5 = le_u16(b.fat_copies);
    let f6 = le_u16(b.data_start_block.0);
    let f7 = le_u16(b.root_dir_start_cluster.0);
    let all = boot_bytes(b) + rest;
    lemma_le_u16_round_trip(b.block_size, e, f1 + f2 + f3 + f4 + f5 + f6 + f7 + rest);
    lemma_le_u16_round_trip(b.block_count, f0, f2 + f3 + f4 + f5 + f6 + f7 + rest);
    lemma_le_u16_round_trip(b.blocks_per_cluster, f0 + f1, f3 + f4 + f5 + f6 + f7 + rest);
    lemma_le_u16_round_trip(b.fat_start_block.0, f0 + f1 + f2, f4 + f5 + f6 + f7 + rest);
    lemma_le_u16_round_trip(b.fat_block_count, f0 + f1 + f2 + f3, f5 + f6 + f7 + rest);
    lemma_le_u16_round_trip(b.fat_copies, f0 + f1 + f2 + f3 + f4, f6 + f7 + rest);
    lemma_le_u16_round_trip(b.data_start_block.0, f0 + f1 + f2 + f3 + f4 + f5, f7 + rest);
    lemma_le_u16_round_trip(b.root_dir_start_cluster.0, f0 + f1 + f2 + f3 + f4 + f5 + f6, rest);
    assert(all =~= e + f0 + (f1 + f2 + f3 + f4 + f5 + f6 + f7 + rest));
    assert(all =~= f0 + f1 + (f2 + f3 + f4 + f5 + f6 + f7 + rest));
    assert(all =~= f0 + f1 + f2 + f3 + f4 + f5 + f6 + f7 + rest);
    assert(all =~= (f0 + f1 + f2) + f3 + (f4 + f5 + f6 + f7 + rest));
    assert(all =~= (f0 + f1 + f2 + f3) + f4 + (f5 + f6 + f7 + rest));
    assert(all =~= (f0 + f1 + f2 + f3 + f4) + f5 + (f6 + f7 + rest));
    assert(all =~= (f0 + f1 + f2 + f3 + f4 + f5) + f6 + (f7 + rest));
    assert(all =~= (f0 + f1 + f2 + f3 + f4 + f5 + f6) + f7 + rest);
}

} // verus!

verus! {

/// A timezone-less date with reduced representable range packed into an [`u16`]:
/// 7 bits of years since 1980, 4 bits of month, 5 bits of day.
#[derive(Debug, Clone, Copy, PartialEq, Eq, Hash, Structural)]
pub struct U16Date(pub u16);

impl U16Date {
    /// The unset date.
    pub fn empty() -> (d: U16Date)
        ensures
            d.0 == 0,
    {
        U16Date(0)
    }
}

/// The packed form of a calendar date whose year lies in the FAT range.
pub open spec fn date_pack(year: int, month: int, day: int) -> int {
    ((year - 1980) % 128) * 512 + (month % 16) * 32 + day % 32
}

pub open spec fn date_year(raw: u16) -> int {
    1980 + (raw / 512) % 128
}

pub open spec fn date_month(raw: u16) -> int {
    ((raw / 32) % 16) as int
}

pub open spec fn date_day(raw: u16) -> int {
    (raw % 32) as int
}

impl U16Date {
    /// Packs a calendar date; years outside 1980..=2107 cannot be stored.
    pub fn from_ymd(year: i32, month: u32, day: u32) -> (r: Result<U16Date, FsError>)
        ensures
            1980 <= year <= 2107 ==> r == Ok::<U16Date, FsError>(
                U16Date(date_pack(year as int, month as int, day as int) as u16),
            ),
            !(1980 <= year <= 2107) ==> r is Err && r->Err_0 is InvalidConfig,
    {
        if year < 1980 || year > 2107 {
            return Err(FsError::InvalidConfig(String::from_str("date outside FAT range")));
        }
        let y = (year - 1980) as u16;
        let m = (month % 16) as u16;
        let d = (day % 32) as u16;
        U16Date(y * 512 + m * 32 + d)
            .into_ok()
    }

    /// The (year, month, day) fields of the packed date.
    pub fn ymd(self) -> (r: (i32, u32, u32))
        ensures
            r.0 == date_year(self.0),
            r.1 == date_month(self.0),
            r.2 == date_day(self.0),
    {
        (1980 + ((self.0 / 512) % 128) as i32, ((self.0 / 32) % 16) as u32, (self.0 % 32) as u32)
    }

    fn into_ok(self) -> (r: Result<U16Date, FsError>)
        ensures
            r == Ok::<U16Date, FsError>(self),
    {
        Ok(self)
    }
}

/// Packing a date of the FAT year range with a month below 16 and a day below 32, then unpacking
/// it, gives the same year, month and day.
pub proof fn lemma_date_round_trip(year: int, month: int, day: int)
    requires
        1980 <= year <= 2107,
        0 <= month < 16,
        0 <= day < 32,
    ensures
        0 <= date_pack(year, month, day) < 0x10000,
        date_year(date_pack(year, month, day) as u16) == year,
        date_month(date_pack(year, month, day) as u16) == month,
        date_day(date_pack(year, month, day) as u16) == day,
{
    let y = year - 1980;
    let raw = y * 512 + month * 32 + day;
    assert(date_pack(year, month, day) == raw);
    assert(0 <= raw < 0x10000 && raw / 512 == y && (raw / 32) % 16 == month && raw % 32 == day)
        by (nonlinear_arith)
        requires
            raw == y * 512 + month * 32 + day,
            0 <= y < 128,
            0 <= month < 16,
            0 <= day < 32,
    ;
}

/// A timezone-less time packed into an [`u16`]: 5 bits of hour, 6 bits of minute, 5 bits of
/// seconds divided by two.
#[derive(Debug, Clone, Copy, PartialEq, Eq, Hash, Structural)]
pub struct U16Time(pub u16);

impl U16Time {
    /// The unset time.
    pub fn empty() -> (t: U16Time)
        ensures
            t.0 == 0,
    {
        U16Time(0)
    }
}

pub open spec fn time_pack(hour: int, minute: int, second: int) -> int {
    (hour % 32) * 2048 + (minute % 64) * 32 + (second / 2) % 32
}

pub open spec fn time_hour(raw: u16) -> int {
    ((raw / 2048) % 32) as int
}

pub open spec fn time_minute(raw: u16) -> int {
    ((raw / 32) % 64) as int
}

pub open spec fn time_second(raw: u16) -> int {
    (raw % 32) * 2
}

impl U16Time {
    /// Packs a time of day; the second is stored at a 2-second resolution.
    pub fn from_hms(hour: u32, minute: u32, second: u32) -> (r: U16Time)
        ensures
            r.0 == time_pack(hour as int, minute as int, second as int),
    {
        let h = (hour % 32) as u16;
        let m = (minute % 64) as u16;
        let s = ((second / 2) % 32) as u16;
        U16Time(h * 2048 + m * 32 + s)
    }

    /// The (hour, minute, second) fields of the packed time.
    pub fn hms(self) -> (r: (u32, u32, u32))
        ensures
            r.0 == time_hour(self.0),
            r.1 == time_minute(self.0),
            r.2 == time_second(self.0),
    {
        (((self.0 / 2048) % 32) as u32, ((self.0 / 32) % 64) as u32, ((self.0 % 32) * 2) as u32)
    }
}

/// Packing a time of day and unpacking it gives the same hour and minute, and the second rounded
/// down to an even number.
pub proof fn lemma_time_round_trip(hour: int, minute: int, second: int)
    requires
        0 <= hour < 24,
        0 <= minute < 60,
        0 <= second < 60,
    ensures
        0 <= time_pack(hour, minute, second) < 0x10000,
        time_hour(time_pack(hour, minute, second) as u16) == hour,
        time_minute(time_pack(hour, minute, second) as u16) == minute,
        time_second(time_pack(hour, minute, second) as u16) == second - second % 2,
{
    let s2 = second / 2;
    let raw = hour * 2048 + minute * 32 + s2;
    assert(time_pack(hour, minute, second) == raw);
    assert(0 <= raw < 0x10000 && raw / 2048 == hour && (raw / 32) % 64 == minute && raw % 32 == s2)
        by (nonlinear_arith)
        requires
            raw == hour * 2048 + minute * 32 + s2,
            0 <= hour < 24,
            0 <= minute < 60,
            0 <= s2 < 32,
    ;
}

pub const FCB_SIZE: usize = 24;

/// The view of a file control block.
pub struct FcbView {
    pub base: Seq<u8>,
    pub ext: Seq<u8>,
    pub attr: u8,
    pub reserved: u8,
    pub mtime: u16,
    pub mdate: u16,
    pub start_cluster: u16,
    pub size: u32,
}

/// On-disk file control block stored inside directory slots.
#[derive(Debug, Clone, Copy, PartialEq, Eq)]
pub struct Fcb {
    pub short_name: ShortName,
    pub attr: FcbAttr,
    pub reserved: u8,
    pub mtime: U16Time,
    pub mdate: U16Date,
    pub start_cluster: ClusterId,
    pub size: u32,
}

impl View for Fcb {
    type V = FcbView;

    open spec fn view(&self) -> FcbView {
        FcbView {
            base: self.short_name.base@,
            ext: self.short_name.ext@,
            attr: self.attr.0,
            reserved: self.reserved,
            mtime: self.mtime.0,
            mdate: self.mdate.0,
            start_cluster: self.start_cluster.0,
            size: self.size,
        }
    }
}

/// The byte image of a file control block: the name, attribute, reserved byte, one zero byte of
/// padding, then time, date, first cluster (two bytes each) and size (four bytes).
pub open spec fn fcb_bytes(v: FcbView) -> Seq<u8> {
    v.base + v.ext + seq![v.attr, v.reserved, 0u8] + le_u16(v.mtime) + le_u16(v.mdate) + le_u16(
        v.start_cluster,
    ) + le_u32(v.size)
}

/// The file control block in the first `FCB_SIZE` bytes of `b`.
pub open spec fn fcb_from_bytes(b: Seq<u8>) -> FcbView {
    FcbView {
        base: b.subrange(0, 8),
        ext: b.subrange(8, 11),
        attr: b[11],
        reserved: b[12],
        mtime: u16_at(b, 14),
        mdate: u16_at(b, 16),
        start_cluster: u16_at(b, 18),
        size: u32_at(b, 20),
    }
}

/// Decoding the byte image of a file control block, followed by anything, gives it back.
pub proof fn lemma_fcb_round_trip(v: FcbView, rest: Seq<u8>)
    requires
        v.base.len() == 8,
        v.ext.len() == 3,
    ensures
        fcb_bytes(v).len() == FCB_SIZE,
        fcb_from_bytes(fcb_bytes(v) + rest) == v,
{
    let h = v.base + v.ext + seq![v.attr, v.reserved, 0u8];
    let t = le_u16(v.mtime);
    let d = le_u16(v.mdate);
    let c = le_u16(v.start_cluster);
    let z = le_u32(v.size);
    let all = fcb_bytes(v) + rest;
    assert(all =~= h + t + (d + c + z + rest));
    assert(all =~= (h + t) + d + (c + z + rest));
    assert(all =~= (h + t + d) + c + (z + rest));
    assert(all =~= (h + t + d + c) + z + rest);
    lemma_le_u16_round_trip(v.mtime, h, d + c + z + rest);
    lemma_le_u16_round_trip(v.mdate, h + t, c + z + rest);
    lemma_le_u16_round_trip(v.start_cluster, h + t + d, z + rest);
    lemma_le_u32_round_trip(v.size, h + t + d + c, rest);
    assert(all.subrange(0, 8) =~= v.base);
    assert(all.subrange(8, 11) =~= v.ext);
    assert(all[11] == v.attr);
    assert(all[12] == v.reserved);
}

impl Fcb {
    pub const SIZE: usize = 24;

    /// The displayed short name.
    pub fn short_name(&self) -> (s: String)
        ensures
            s@ == short_name_text(self.short_name.base@, self.short_name.ext@),
    {
        self.short_name.to_text()
    }

    /// The kind that the attribute byte records.
    pub fn kind(&self) -> (r: Result<NodeKind, FsError>)
        ensures
            match kind_of_attr(self.attr.0) {
                Some(k) => r == Ok::<NodeKind, FsError>(k),
                None => r is Err && r->Err_0 is CorruptFs,
            },
    {
        NodeKind::from_attr(self.attr)
    }

    /// The byte image of this record.
    pub fn as_bytes(&self) -> (out: Vec<u8>)
        ensures
            out@ == fcb_bytes(self@),
            out@.len() == FCB_SIZE,
    {
        let mut out: Vec<u8> = Vec::new();
        let mut i: usize = 0;
        while i < 8
            invariant
                i <= 8,
                out@ == self.short_name.base@.take(i as int),
            decreases 8 - i,
        {
            out.push(self.short_name.base[i]);
            i += 1;
            assert(out@ =~= self.short_name.base@.take(i as int));
        }
        let mut i: usize = 0;
        while i < 3
            invariant
                i <= 3,
                out@ == self.short_name.base@ + self.short_name.ext@.take(i as int),
            decreases 3 - i,
        {
            out.push(self.short_name.ext[i]);
            i += 1;
            assert(out@ =~= self.short_name.base@ + self.short_name.ext@.take(i as int));
        }
        assert(self.short_name.base@.take(8) =~= self.short_name.base@);
        assert(self.short_name.ext@.take(3) =~= self.short_name.ext@);
        out.push(self.attr.0);
        out.push(self.reserved);
        out.push(0u8);
        push_u16(&mut out, self.mtime.0);
        push_u16(&mut out, self.mdate.0);
        push_u16(&mut out, self.start_cluster.0);
        push_u32(&mut out, self.size);
        assert(out@ =~= fcb_bytes(self@));
        out
    }

    /// Decodes the record at the front of `b`.
    pub fn decode(b: &[u8]) -> (r: Fcb)
        requires
            b@.len() >= FCB_SIZE,
        ensures
            r@ == fcb_from_bytes(b@),
    {
        let mut base: [u8; 8] = [0u8; 8];
        let mut ext: [u8; 3] = [0u8; 3];
        let mut i: usize = 0;
        while i < 8
            invariant
                i <= 8,
                b@.len() >= FCB_SIZE,
                forall|k: int| 0 <= k < i ==> base@[k] == b@[k],
            decreases 8 - i,
        {
            base[i] = b[i];
            i += 1;
        }
        let mut i: usize = 0;
        while i < 3
            invariant
                i <= 3,
                b@.len() >= FCB_SIZE,
                forall|k: int| 0 <= k < i ==> ext@[k] == b@[8 + k],
            decreases 3 - i,
        {
            ext[i] = b[8 + i];
            i += 1;
        }
        let r = Fcb {
            short_name: ShortName { base, ext },
            attr: FcbAttr(b[11]),
            reserved: b[12],
            mtime: U16Time(read_u16(b, 14)),
            mdate: U16Date(read_u16(b, 16)),
            start_cluster: ClusterId(read_u16(b, 18)),
            size: read_u32(b, 20),
        };
        assert(r@.base =~= b@.subrange(0, 8));
        assert(r@.ext =~= b@.subrange(8, 11));
        r
    }

    /// Writes the byte image of this record to the front of `dst`.
    pub fn write_to_slice(&self, dst: &mut [u8]) -> (r: Result<(), FsError>)
        ensures
            old(dst)@.len() >= FCB_SIZE ==> r is Ok && final(dst)@ == fcb_bytes(self@) + old(dst)@.skip(FCB_SIZE as int),
            old(dst)@.len() < FCB_SIZE ==> r is Err && r->Err_0 is CorruptFs && final(dst)@ == old(dst)@,
    {
        if dst.len() < Fcb::SIZE {
            return Err(FsError::CorruptFs(String::from_str("fcb slot shorter than expected")));
        }
        let bytes = self.as_bytes();
        let mut i: usize = 0;
        while i < FCB_SIZE
            invariant
                i <= FCB_SIZE,
                bytes@ == fcb_bytes(self@),
                bytes@.len() == FCB_SIZE,
                dst@.len() == old(dst)@.len(),
                old(dst)@.len() >= FCB_SIZE,
                forall|k: int| 0 <= k < i ==> dst@[k] == bytes@[k],
                forall|k: int| i <= k < dst@.len() ==> dst@[k] == old(dst)@[k],
            decreases FCB_SIZE - i,
        {
            dst[i] = bytes[i];
            i += 1;
        }
        assert(dst@ =~= fcb_bytes(self@) + old(dst)@.skip(FCB_SIZE as int));
        Ok(())
    }
}

impl<'a> TryFrom<&'a [u8]> for Fcb {
    type Error = FsError;

    fn try_from(value: &'a [u8]) -> (r: Result<Fcb, FsError>)
        ensures
            value@.len() >= FCB_SIZE ==> r is Ok && r->Ok_0@ == fcb_from_bytes(value@),
            value@.len() < FCB_SIZE ==> r is Err && r->Err_0 is CorruptFs,
    {
        if value.len() < Fcb::SIZE {
            return Err(FsError::CorruptFs(String::from_str("fcb slot shorter than expected")));
        }
        Ok(Fcb::decode(value))
    }
}

impl<'a> vstd::std_specs::convert::TryFromSpecImpl<&'a [u8]> for Fcb {
    /// The conversion's result is stated by the `ensures` of `try_from` itself.
    open spec fn obeys_try_from_spec() -> bool {
        false
    }

    open spec fn try_from_spec(v: &'a [u8]) -> Result<Fcb, FsError> {
        arbitrary()
    }
}

} // verus!
