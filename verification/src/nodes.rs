//! Metadata of nodes: the root, directory entries, and node identifiers.

use vstd::prelude::*;
use vstd::string::StringExecFns;

use crate::dev::BufferedBlockDevice;
use crate::dir::dir_slot;
use crate::entries::entry_at;
use crate::error::loc_of_number;
use crate::error::node_number;
use crate::error::NodeTarget;
use crate::error::DirEntryLoc;
use crate::error::FsError;
use crate::error::NodeId;
use crate::error::ROOT_NODE_ID;
use crate::fs::kind_of_attr;
use crate::fs::BootSector;
use crate::fs::ClusterId;
use crate::fs::Fcb;
use crate::fs::FcbView;
use crate::fs::NodeKind;
use crate::fs::U16Date;
use crate::fs::U16Time;
use crate::fs::ROOT_DIR_START;
use crate::fat::FatEntry;
use crate::layout::has_chain;
use crate::layout::slot_bytes;
use crate::layout::slot_readable;
use crate::lookup::dir_slot_count;
use crate::lookup::fcb_name;
use crate::lookup::occupied_count;
use crate::myfs::MyFileSystem;
use crate::name::DirSlot;
use crate::name::SlotView;
use crate::slots::DirSlotIter;
use crate::clock::datetime_of;
use crate::clock::date_day_of;
use crate::clock::date_month_of;
use crate::clock::date_year_of;
use crate::clock::naive_datetime_new;
use crate::clock::time_hour_of;
use crate::clock::time_minute_of;
use crate::clock::time_second_of;
use crate::fs::date_day;
use crate::fs::date_month;
use crate::fs::date_year;
use crate::fs::time_hour;
use crate::fs::time_minute;
use crate::fs::time_second;
use crate::clock::valid_ymd;
use chrono::NaiveDate;
use chrono::NaiveDateTime;
use chrono::NaiveTime;

verus! {

broadcast use crate::myfs::lemma_meta_block_not_in_cluster;

/// Metadata of a node, as [`MyFileSystem::stat`] and [`MyFileSystem::stat_root`] report it.
#[derive(Debug, Clone)]
pub struct NodeMeta {
    pub node_id: NodeId,
    pub loc: Option<DirEntryLoc>,
    pub short_name: String,
    pub kind: NodeKind,
    pub size: u32,
    pub start_cluster: ClusterId,
    pub mtime: U16Time,
    pub mdate: U16Date,
}

/// The size a directory reports: 24 bytes for each occupied slot.
pub open spec fn dir_size(b: BootSector, disk: Seq<Seq<u8>>, fat: Seq<FatEntry>, dir: int) -> int {
    24 * (occupied_count(b, disk, fat, dir, dir_slot_count(b, fat, dir)) as int)
}

/// The occupied slots among the first `n` slots of a directory are finitely many, and
/// [`occupied_count`] counts them.
proof fn lemma_occupied_count_set(b: BootSector, disk: Seq<Seq<u8>>, fat: Seq<FatEntry>, dir: int, n: nat)
    ensures
        Set::new(|j: int| 0 <= j < n && dir_slot(b, disk, fat, dir, j) is Occupied).finite(),
        occupied_count(b, disk, fat, dir, n as int) == Set::new(|j: int| 0 <= j < n && dir_slot(b, disk, fat, dir, j) is Occupied).len(),
    decreases n,
{
    let s = Set::new(|j: int| 0 <= j < n && dir_slot(b, disk, fat, dir, j) is Occupied);
    if n == 0 {
        assert(s =~= Set::<int>::empty());
    } else {
        let m = (n - 1) as nat;
        lemma_occupied_count_set(b, disk, fat, dir, m);
        let s0 = Set::new(|j: int| 0 <= j < m && dir_slot(b, disk, fat, dir, j) is Occupied);
        if dir_slot(b, disk, fat, dir, m as int) is Occupied {
            assert(s =~= s0.insert(m as int));
            assert(!s0.contains(m as int));
        } else {
            assert(s =~= s0);
        }
    }
}

/// The size a directory reports is 24 bytes for each of its slots that holds an entry, whatever
/// the other slots hold: a deleted slot (first byte 0xE5) or an unused one counts for nothing, so
/// a directory whose slots hold no entry reports 0.
pub proof fn law_dir_size_counts_entries(b: BootSector, disk: Seq<Seq<u8>>, fat: Seq<FatEntry>, dir: int)
    ensures
        dir_size(b, disk, fat, dir) == 24 * Set::new(
            |j: int| 0 <= j < dir_slot_count(b, fat, dir) && dir_slot(b, disk, fat, dir, j) is Occupied,
        ).len(),
        (forall|j: int| 0 <= j < dir_slot_count(b, fat, dir) ==> !(#[trigger] dir_slot(b, disk, fat, dir, j) is Occupied)) ==> dir_size(
            b,
            disk,
            fat,
            dir,
        ) == 0,
{
    let n = dir_slot_count(b, fat, dir);
    if n < 0 {
        assert(Set::new(|j: int| 0 <= j < n && dir_slot(b, disk, fat, dir, j) is Occupied) =~= Set::<int>::empty());
    } else {
        lemma_occupied_count_set(b, disk, fat, dir, n as nat);
        if forall|j: int| 0 <= j < n ==> !(#[trigger] dir_slot(b, disk, fat, dir, j) is Occupied) {
            assert(Set::new(|j: int| 0 <= j < n && dir_slot(b, disk, fat, dir, j) is Occupied) =~= Set::<int>::empty());
        }
    }
}

/// Taking the entry out of one slot of a directory (marking it deleted, say), with every other
/// slot as it was, lowers the directory's size by exactly 24.
pub proof fn law_removing_entry_lowers_size(
    b: BootSector,
    d0: Seq<Seq<u8>>,
    d1: Seq<Seq<u8>>,
    fat: Seq<FatEntry>,
    dir: int,
    i: int,
)
    requires
        0 <= i < dir_slot_count(b, fat, dir),
        dir_slot(b, d0, fat, dir, i) is Occupied,
        !(dir_slot(b, d1, fat, dir, i) is Occupied),
        forall|j: int| 0 <= j < dir_slot_count(b, fat, dir) && j != i ==> #[trigger] dir_slot(b, d1, fat, dir, j) == dir_slot(b, d0, fat, dir, j),
    ensures
        dir_size(b, d1, fat, dir) == dir_size(b, d0, fat, dir) - 24,
{
    let n = dir_slot_count(b, fat, dir);
    law_dir_size_counts_entries(b, d0, fat, dir);
    law_dir_size_counts_entries(b, d1, fat, dir);
    lemma_occupied_count_set(b, d0, fat, dir, n as nat);
    lemma_occupied_count_set(b, d1, fat, dir, n as nat);
    let s0 = Set::new(|j: int| 0 <= j < n && dir_slot(b, d0, fat, dir, j) is Occupied);
    let s1 = Set::new(|j: int| 0 <= j < n && dir_slot(b, d1, fat, dir, j) is Occupied);
    assert(s1 =~= s0.remove(i)) by {
        assert forall|j: int| s1.contains(j) <==> s0.remove(i).contains(j) by {
            if 0 <= j < n && j != i {
                assert(dir_slot(b, d1, fat, dir, j) == dir_slot(b, d0, fat, dir, j));
            }
        }
    }
    assert(s0.contains(i));
}

/// The size an entry reports: a file its recorded size, a directory the size of its slots.
pub open spec fn entry_size(b: BootSector, disk: Seq<Seq<u8>>, fat: Seq<FatEntry>, v: FcbView) -> int {
    if kind_of_attr(v.attr) == Some(NodeKind::Directory) {
        dir_size(b, disk, fat, v.start_cluster as int)
    } else {
        v.size as int
    }
}

/// Can the size of an entry be found: its kind is known, and a directory's chain ends properly?
pub open spec fn size_known(b: BootSector, fat: Seq<FatEntry>, v: FcbView) -> bool {
    &&& kind_of_attr(v.attr) is Some
    &&& kind_of_attr(v.attr) == Some(NodeKind::Directory) ==> has_chain(b, fat, v.start_cluster as int)
}

/// Does `m` describe the entry `v` in slot `loc`?
pub open spec fn meta_of_entry(m: NodeMeta, b: BootSector, disk: Seq<Seq<u8>>, fat: Seq<FatEntry>, loc: DirEntryLoc, v: FcbView) -> bool {
    &&& m.node_id.0 == node_number(loc)
    &&& m.loc == Some(loc)
    &&& m.short_name@ == fcb_name(v)
    &&& kind_of_attr(v.attr) == Some(m.kind)
    &&& m.size == entry_size(b, disk, fat, v)
    &&& m.start_cluster.0 == v.start_cluster
    &&& m.mtime.0 == v.mtime
    &&& m.mdate.0 == v.mdate
}

/// What [`MyFileSystem::stat_root`] returns on `fs`.
pub open spec fn root_stat<D: BufferedBlockDevice>(fs: MyFileSystem<D>, r: Result<NodeMeta, FsError>) -> bool {
    let b = fs.boot_view();
    &&& r matches Ok(m) ==> {
        &&& m.node_id.0 == ROOT_NODE_ID
        &&& m.loc is None
        &&& m.short_name@ == "/"@
        &&& m.kind == NodeKind::Directory
        &&& has_chain(b, fs.fat(), ROOT_DIR_START as int)
        &&& m.size == dir_size(b, fs.disk(), fs.fat(), ROOT_DIR_START as int)
        &&& m.start_cluster.0 == ROOT_DIR_START
        &&& m.mtime.0 == 0
        &&& m.mdate.0 == 0
    }
    &&& fs.reliable() && has_chain(b, fs.fat(), ROOT_DIR_START as int) ==> r is Ok
    &&& r matches Err(e) ==> !fs.reliable() || (e is CorruptFs && !has_chain(b, fs.fat(), ROOT_DIR_START as int))
}

/// What [`MyFileSystem::stat`] returns on `fs` for slot `loc`.
pub open spec fn entry_stat<D: BufferedBlockDevice>(fs: MyFileSystem<D>, loc: DirEntryLoc, r: Result<NodeMeta, FsError>) -> bool {
    let b = fs.boot_view();
    let dir = loc.dir_start.0 as int;
    let i = loc.entry_index as int;
    &&& r matches Ok(m) ==> (entry_at(b, fs.disk(), fs.fat(), loc) matches Some(v) && size_known(b, fs.fat(), v) && meta_of_entry(
        m,
        b,
        fs.disk(),
        fs.fat(),
        loc,
        v,
    ))
    &&& entry_at(b, fs.disk(), fs.fat(), loc) is None ==> r is Err
    &&& fs.reliable() && slot_readable(b, fs.fat(), dir, i) && !(dir_slot(b, fs.disk(), fs.fat(), dir, i) is Occupied) ==> r
        == Err::<NodeMeta, FsError>(FsError::NotFoundAt(loc))
    &&& fs.reliable() ==> (entry_at(b, fs.disk(), fs.fat(), loc) matches Some(v) ==> (r is Ok <==> size_known(b, fs.fat(), v)))
    &&& fs.reliable() && r is Err && !(r->Err_0 is NotFoundAt) ==> r->Err_0 is CorruptFs
}

impl<D: BufferedBlockDevice> MyFileSystem<D> {
    /// The first cluster of the root directory.
    pub fn root_dir_cluster(&self) -> (r: ClusterId)
        requires
            self.wf(),
        ensures
            r.0 == ROOT_DIR_START,
    {
        proof {
            self.lemma_wf();
        }
        self.boot_sector().root_dir_start_cluster
    }

    /// The node of the root directory.
    pub fn root_node(&self) -> (r: NodeId)
        ensures
            r.0 == ROOT_NODE_ID,
    {
        NodeId::root()
    }

    /// The size an entry reports.
    fn size_of(&self, fcb: &Fcb) -> (r: Result<u32, FsError>)
        requires
            self.wf(),
        ensures
            r matches Ok(sz) ==> size_known(self.boot_view(), self.fat(), fcb@) && sz == entry_size(
                self.boot_view(),
                self.disk(),
                self.fat(),
                fcb@,
            ),
            !size_known(self.boot_view(), self.fat(), fcb@) ==> r is Err,
            self.reliable() && size_known(self.boot_view(), self.fat(), fcb@) ==> r is Ok,
            self.reliable() && r is Err ==> r->Err_0 is CorruptFs,
    {
        match fcb.kind()? {
            NodeKind::Directory => self.dir_size_of(fcb.start_cluster),
            NodeKind::File => Ok(fcb.size),
        }
    }

    /// The metadata of the entry `fcb` found in slot `loc`.
    fn node_meta_from_fcb(&self, loc: DirEntryLoc, fcb: Fcb) -> (r: Result<NodeMeta, FsError>)
        requires
            self.wf(),
        ensures
            r matches Ok(m) ==> size_known(self.boot_view(), self.fat(), fcb@) && meta_of_entry(
                m,
                self.boot_view(),
                self.disk(),
                self.fat(),
                loc,
                fcb@,
            ),
            !size_known(self.boot_view(), self.fat(), fcb@) ==> r is Err,
            self.reliable() && size_known(self.boot_view(), self.fat(), fcb@) ==> r is Ok,
            self.reliable() && r is Err ==> r->Err_0 is CorruptFs,
    {
        let kind = fcb.kind()?;
        let size = self.size_of(&fcb)?;
        Ok(NodeMeta {
            node_id: NodeId::of_loc(loc),
            loc: Some(loc),
            short_name: fcb.short_name(),
            kind,
            size,
            start_cluster: fcb.start_cluster,
            mtime: fcb.mtime,
            mdate: fcb.mdate,
        })
    }

    /// The metadata of the root directory: named "/", with empty stamps.
    pub fn stat_root(&self) -> (r: Result<NodeMeta, FsError>)
        requires
            self.wf(),
        ensures
            root_stat(*self, r),
    {
        let root = self.root_dir_cluster();
        let size = self.dir_size_of(root)?;
        Ok(NodeMeta {
            node_id: NodeId::root(),
            loc: None,
            short_name: String::from_str("/"),
            kind: NodeKind::Directory,
            size,
            start_cluster: root,
            mtime: U16Time::empty(),
            mdate: U16Date::empty(),
        })
    }

    /// The metadata of the entry in slot `loc`.
    pub fn stat(&self, loc: DirEntryLoc) -> (r: Result<NodeMeta, FsError>)
        requires
            self.wf(),
        ensures
            entry_stat(*self, loc, r),
    {
        let fcb = self.read_fcb_at(loc)?;
        self.node_meta_from_fcb(loc, fcb)
    }
}


/// An entry of a directory, as [`DirEntryIter`] yields it.
#[derive(Debug)]
pub struct DirEntry {
    pub node_id: NodeId,
    pub loc: DirEntryLoc,
    pub short_name: String,
    pub kind: NodeKind,
    pub size: u32,
    pub start_cluster: ClusterId,
    pub mdatetime: NaiveDateTime,
}

/// Do the stamps of an entry name a calendar day and a time of day? A zero stamp is empty.
pub open spec fn stamps_ok(v: FcbView) -> bool {
    &&& v.mdate != 0
    &&& valid_ymd(date_year(v.mdate), date_month(v.mdate), date_day(v.mdate))
    &&& v.mtime != 0
    &&& time_hour(v.mtime) < 24
    &&& time_minute(v.mtime) < 60
    &&& time_second(v.mtime) < 60
}

/// Is `dt` the date and time that the stamps of `v` pack?
pub open spec fn stamped_at(dt: NaiveDateTime, v: FcbView) -> bool {
    exists|d: NaiveDate, t: NaiveTime|
        #[trigger] datetime_of(d, t) == dt && date_year_of(d) == date_year(v.mdate) && date_month_of(d) == date_month(v.mdate)
            && date_day_of(d) == date_day(v.mdate) && time_hour_of(t) == time_hour(v.mtime) && time_minute_of(t) == time_minute(v.mtime)
            && time_second_of(t) == time_second(v.mtime)
}

/// Does `e` describe the entry `v` in slot `loc`?
pub open spec fn dir_entry_of(e: DirEntry, b: BootSector, disk: Seq<Seq<u8>>, fat: Seq<FatEntry>, loc: DirEntryLoc, v: FcbView) -> bool {
    &&& e.node_id.0 == node_number(loc)
    &&& stamped_at(e.mdatetime, v)
    &&& e.loc == loc
    &&& e.short_name@ == fcb_name(v)
    &&& kind_of_attr(v.attr) == Some(e.kind)
    &&& e.size == entry_size(b, disk, fat, v)
    &&& e.start_cluster.0 == v.start_cluster
}

/// The directory entry of the entry `fcb` found in slot `loc`.
fn dir_entry_from_fcb<D: BufferedBlockDevice>(fs: &MyFileSystem<D>, loc: DirEntryLoc, fcb: Fcb) -> (r: Result<DirEntry, FsError>)
    requires
        fs.wf(),
    ensures
        r matches Ok(e) ==> stamps_ok(fcb@) && size_known(fs.boot_view(), fs.fat(), fcb@) && dir_entry_of(
            e,
            fs.boot_view(),
            fs.disk(),
            fs.fat(),
            loc,
            fcb@,
        ),
        !stamps_ok(fcb@) || !size_known(fs.boot_view(), fs.fat(), fcb@) ==> r is Err,
        fs.reliable() && stamps_ok(fcb@) && size_known(fs.boot_view(), fs.fat(), fcb@) ==> r is Ok,
        fs.reliable() && r is Err ==> r->Err_0 is CorruptFs,
{
    let mdate = fcb.mdate.to_naive_date()?;
    let mtime = fcb.mtime.to_naive_time()?;
    let kind = fcb.kind()?;
    let size = fs.size_of(&fcb)?;
    Ok(DirEntry {
        node_id: NodeId::of_loc(loc),
        loc,
        short_name: fcb.short_name(),
        kind,
        size,
        start_cluster: fcb.start_cluster,
        mdatetime: naive_datetime_new(mdate, mtime),
    })
}

/// An iterator over the entries of a directory: its occupied slots, in order.
pub struct DirEntryIter<'a, D: BufferedBlockDevice> {
    fs: &'a MyFileSystem<D>,
    slots_iter: DirSlotIter<'a, D>,
}

impl<'a, D: BufferedBlockDevice> DirEntryIter<'a, D> {
    pub closed spec fn fs_view(&self) -> &'a MyFileSystem<D> {
        self.fs
    }

    pub closed spec fn dir_view(&self) -> int {
        self.slots_iter.dir_view()
    }

    /// Number of slots read so far.
    pub closed spec fn count(&self) -> nat {
        self.slots_iter.count()
    }

    pub closed spec fn has_failed(&self) -> bool {
        self.slots_iter.has_failed()
    }

    pub closed spec fn inv(&self) -> bool {
        &&& self.slots_iter.inv()
        &&& self.slots_iter.fs_view() == self.fs
    }

    pub proof fn lemma_count_bound(&self)
        requires
            self.inv(),
        ensures
            self.count() <= 0xFFFF_FFFF,
            self.fs_view().wf(),
    {
        self.slots_iter.lemma_count_bound();
        self.slots_iter.lemma_inv_wf();
    }

    /// Starts a walk over the entries of the directory at `dir_start`.
    pub fn new(fs: &'a MyFileSystem<D>, dir_start: ClusterId) -> (r: Result<DirEntryIter<'a, D>, FsError>)
        requires
            fs.wf(),
        ensures
            dir_start.0 == 0 || crate::layout::in_data(fs.boot_view(), dir_start.0 as int) ==> r is Ok,
            r matches Ok(it) ==> it.inv() && it.fs_view() == fs && it.dir_view() == dir_start.0 && it.count() == 0
                && !it.has_failed(),
            r matches Err(e) ==> e is CorruptFs && !has_chain(fs.boot_view(), fs.fat(), dir_start.0 as int),
    {
        Ok(DirEntryIter { fs, slots_iter: DirSlotIter::new(fs, dir_start)? })
    }

    /// The next entry, an error, or `None` once every slot was read.
    pub fn next(&mut self) -> (r: Option<Result<DirEntry, FsError>>)
        requires
            old(self).inv(),
        ensures
            final(self).inv(),
            final(self).fs_view() == old(self).fs_view(),
            final(self).dir_view() == old(self).dir_view(),
            old(self).count() <= final(self).count(),
            old(self).has_failed() ==> r is None && final(self).count() == old(self).count() && final(self).has_failed(),
            ({
                let fs = old(self).fs_view();
                forall|j: int|
                    old(self).count() <= j < final(self).count() - (if r is Some && !final(self).has_failed() { 1int } else { 0int })
                        ==> !(#[trigger] dir_slot(fs.boot_view(), fs.disk(), fs.fat(), old(self).dir_view(), j) is Occupied)
            }),
            r is None ==> final(self).has_failed() == old(self).has_failed() && (!old(self).has_failed() ==> has_chain(
                old(self).fs_view().boot_view(),
                old(self).fs_view().fat(),
                old(self).dir_view(),
            ) && final(self).count() == dir_slot_count(
                old(self).fs_view().boot_view(),
                old(self).fs_view().fat(),
                old(self).dir_view(),
            )),
            r matches Some(Ok(e)) ==> {
                let fs = old(self).fs_view();
                let j = final(self).count() - 1;
                &&& !final(self).has_failed()
                &&& old(self).count() <= j
                &&& e.loc.dir_start.0 == old(self).dir_view()
                &&& e.loc.entry_index == j
                &&& slot_readable(fs.boot_view(), fs.fat(), old(self).dir_view(), j)
                &&& dir_slot(fs.boot_view(), fs.disk(), fs.fat(), old(self).dir_view(), j) matches SlotView::Occupied(v)
                &&& stamps_ok(v)
                &&& size_known(fs.boot_view(), fs.fat(), v)
                &&& dir_entry_of(e, fs.boot_view(), fs.disk(), fs.fat(), e.loc, v)
            },
            r matches Some(Err(e)) ==> !old(self).fs_view().reliable() || e is CorruptFs,
            r matches Some(Err(_)) && final(self).has_failed() ==> !old(self).fs_view().reliable() || !has_chain(
                old(self).fs_view().boot_view(),
                old(self).fs_view().fat(),
                old(self).dir_view(),
            ),
            r matches Some(Err(_)) && !final(self).has_failed() ==> {
                let fs = old(self).fs_view();
                let j = final(self).count() - 1;
                &&& old(self).count() <= j
                &&& slot_readable(fs.boot_view(), fs.fat(), old(self).dir_view(), j)
                &&& dir_slot(fs.boot_view(), fs.disk(), fs.fat(), old(self).dir_view(), j) matches SlotView::Occupied(v)
                &&& (!stamps_ok(v) || !size_known(fs.boot_view(), fs.fat(), v) || !fs.reliable())
            },
    {
        let ghost fs = self.fs;
        let ghost dir = self.slots_iter.dir_view();
        let ghost c0 = self.slots_iter.count();
        let ghost b = fs.boot_view();
        loop
            invariant
                self.inv(),
                self.fs == fs,
                self.slots_iter.dir_view() == dir,
                b == fs.boot_view(),
                c0 <= self.slots_iter.count(),
                !self.slots_iter.has_failed() || self.slots_iter.count() == c0,
                old(self).inv(),
                old(self).fs_view() == fs,
                old(self).dir_view() == dir,
                old(self).count() == c0,
                old(self).has_failed() == self.slots_iter.has_failed(),
                forall|j: int| c0 <= j < self.slots_iter.count() ==> !(#[trigger] dir_slot(b, fs.disk(), fs.fat(), dir, j) is Occupied),
            decreases 0x1_0000_0000 - self.slots_iter.count(),
        {
            proof {
                self.slots_iter.lemma_count_bound();
            }
            match self.slots_iter.next() {
                None => {
                    return None;
                },
                Some(Err(e)) => {
                    return Some(Err(e));
                },
                Some(Ok((loc, slot))) => {
                    proof {
                        self.slots_iter.lemma_count_bound();
                    }
                    match slot {
                        DirSlot::Occupied(fcb) => {
                            proof {
                                self.slots_iter.lemma_inv_wf();
                            }
                            return Some(dir_entry_from_fcb(self.fs, loc, fcb));
                        },
                        _ => {},
                    }
                },
            }
        }
    }
}


/// Are `list`'s entries exactly those of the occupied slots `c0 <= j < c1` of directory `dir`,
/// in order?
#[verifier::opaque]
pub open spec fn lists_entries<D: BufferedBlockDevice>(list: Seq<DirEntry>, fs: MyFileSystem<D>, dir: int, c0: int, c1: int) -> bool {
    let b = fs.boot_view();
    &&& forall|k: int|
        0 <= k < list.len() ==> {
            let j = (#[trigger] list[k]).loc.entry_index as int;
            &&& list[k].loc.dir_start.0 == dir
            &&& c0 <= j < c1
            &&& slot_readable(b, fs.fat(), dir, j)
            &&& dir_slot(b, fs.disk(), fs.fat(), dir, j) matches SlotView::Occupied(v)
            &&& stamps_ok(v)
            &&& size_known(b, fs.fat(), v)
            &&& dir_entry_of(list[k], b, fs.disk(), fs.fat(), list[k].loc, v)
        }
    &&& forall|k1: int, k2: int| 0 <= k1 < k2 < list.len() ==> #[trigger] list[k1].loc.entry_index < #[trigger] list[k2].loc.entry_index
    &&& forall|j: int|
        c0 <= j < c1 && (#[trigger] dir_slot(b, fs.disk(), fs.fat(), dir, j) is Occupied) ==> exists|k: int|
            0 <= k < list.len() && #[trigger] list[k].loc.entry_index == j
}

/// Slots that hold no entry leave a list of entries as it is.
proof fn lemma_lists_entries_skip<D: BufferedBlockDevice>(list: Seq<DirEntry>, fs: MyFileSystem<D>, dir: int, c0: int, before: int, c1: int)
    requires
        lists_entries(list, fs, dir, c0, before),
        c0 <= before <= c1,
        forall|j: int| before <= j < c1 ==> !(#[trigger] dir_slot(fs.boot_view(), fs.disk(), fs.fat(), dir, j) is Occupied),
    ensures
        lists_entries(list, fs, dir, c0, c1),
{
    reveal(lists_entries);
}

/// An entry read from the next occupied slot extends a list of the entries before it.
proof fn lemma_lists_entries_push<D: BufferedBlockDevice>(
    list: Seq<DirEntry>,
    e: DirEntry,
    fs: MyFileSystem<D>,
    dir: int,
    c0: int,
    before: int,
    c1: int,
)
    requires
        lists_entries(list, fs, dir, c0, before),
        c0 <= before < c1,
        forall|j: int| before <= j < c1 - 1 ==> !(#[trigger] dir_slot(fs.boot_view(), fs.disk(), fs.fat(), dir, j) is Occupied),
        e.loc.dir_start.0 == dir,
        e.loc.entry_index == c1 - 1,
        slot_readable(fs.boot_view(), fs.fat(), dir, c1 - 1),
        dir_slot(fs.boot_view(), fs.disk(), fs.fat(), dir, c1 - 1) matches SlotView::Occupied(v) && stamps_ok(v) && size_known(
            fs.boot_view(),
            fs.fat(),
            v,
        ) && dir_entry_of(e, fs.boot_view(), fs.disk(), fs.fat(), e.loc, v),
    ensures
        lists_entries(list.push(e), fs, dir, c0, c1),
{
    reveal(lists_entries);
    let out = list.push(e);
    let b = fs.boot_view();
    assert forall|j: int| c0 <= j < c1 && (#[trigger] dir_slot(b, fs.disk(), fs.fat(), dir, j) is Occupied) implies exists|k: int|
        0 <= k < out.len() && #[trigger] out[k].loc.entry_index == j by {
        if j < before {
            let k = choose|k: int| 0 <= k < list.len() && #[trigger] list[k].loc.entry_index == j;
            assert(out[k] == list[k]);
        } else {
            assert(out[list.len() as int] == e);
        }
    }
    assert forall|k1: int, k2: int| 0 <= k1 < k2 < out.len() implies #[trigger] out[k1].loc.entry_index
        < #[trigger] out[k2].loc.entry_index by {
        if k2 < list.len() {
            assert(out[k1] == list[k1] && out[k2] == list[k2]);
        } else {
            assert(out[k1] == list[k1]);
        }
    }
    assert forall|k: int| 0 <= k < out.len() implies {
        let j = (#[trigger] out[k]).loc.entry_index as int;
        &&& out[k].loc.dir_start.0 == dir
        &&& c0 <= j < c1
        &&& slot_readable(b, fs.fat(), dir, j)
        &&& dir_slot(b, fs.disk(), fs.fat(), dir, j) matches SlotView::Occupied(v)
        &&& stamps_ok(v)
        &&& size_known(b, fs.fat(), v)
        &&& dir_entry_of(out[k], b, fs.disk(), fs.fat(), out[k].loc, v)
    } by {
        if k < list.len() {
            assert(out[k] == list[k]);
        }
    }
}

impl<'a, D: BufferedBlockDevice> DirEntryIter<'a, D> {
    /// Reads the remaining entries into a list; stops at the first error.
    pub fn collect_entries(&mut self) -> (r: Result<Vec<DirEntry>, FsError>)
        requires
            old(self).inv(),
        ensures
            final(self).inv(),
            final(self).fs_view() == old(self).fs_view(),
            final(self).dir_view() == old(self).dir_view(),
            r matches Ok(list) ==> lists_entries(list@, *old(self).fs_view(), old(self).dir_view(), old(self).count() as int, final(self).count() as int)
                && (!old(self).has_failed() ==> has_chain(
                old(self).fs_view().boot_view(),
                old(self).fs_view().fat(),
                old(self).dir_view(),
            ) && final(self).count() == dir_slot_count(
                old(self).fs_view().boot_view(),
                old(self).fs_view().fat(),
                old(self).dir_view(),
            )),
            r matches Err(e) ==> !old(self).fs_view().reliable() || e is CorruptFs,
    {
        let ghost fs = self.fs;
        let ghost dir = self.dir_view();
        let ghost c0 = self.count() as int;
        let mut out: Vec<DirEntry> = Vec::new();
        proof {
            reveal(lists_entries);
        }
        loop
            invariant
                self.inv(),
                self.fs_view() == fs,
                self.dir_view() == dir,
                c0 <= self.count(),
                old(self).inv(),
                old(self).fs_view() == fs,
                old(self).dir_view() == dir,
                old(self).count() == c0,
                !self.has_failed() || self.count() == c0,
                old(self).has_failed() == self.has_failed(),
                lists_entries(out@, *fs, dir, c0, self.count() as int),
            decreases 0x1_0000_0000 - self.count(),
        {
            proof {
                self.slots_iter.lemma_count_bound();
            }
            let ghost before = self.count() as int;
            match self.next() {
                None => {
                    proof {
                        lemma_lists_entries_skip(out@, *fs, dir, c0, before, self.count() as int);
                    }
                    return Ok(out);
                },
                Some(Err(e)) => {
                    return Err(e);
                },
                Some(Ok(e)) => {
                    proof {
                        lemma_lists_entries_push(out@, e, *fs, dir, c0, before, self.count() as int);
                    }
                    out.push(e);
                },
            }
        }
    }
}

/// The first cluster of the directory that node `n` denotes: the root, or a directory entry.
pub open spec fn node_dir(b: BootSector, disk: Seq<Seq<u8>>, fat: Seq<FatEntry>, n: u64) -> Option<int> {
    if n == ROOT_NODE_ID {
        Some(ROOT_DIR_START as int)
    } else {
        match entry_at(b, disk, fat, loc_of_number(n)) {
            Some(v) => if kind_of_attr(v.attr) == Some(NodeKind::Directory) {
                Some(v.start_cluster as int)
            } else {
                None
            },
            None => None,
        }
    }
}

impl<D: BufferedBlockDevice> MyFileSystem<D> {
    /// Iterates over the entries of the directory at `dir_start`.
    pub fn dir_entries(&self, dir_start: ClusterId) -> (r: Result<DirEntryIter<'_, D>, FsError>)
        requires
            self.wf(),
        ensures
            dir_start.0 == 0 || crate::layout::in_data(self.boot_view(), dir_start.0 as int) ==> r is Ok,
            r matches Ok(it) ==> it.inv() && it.fs_view() == self && it.dir_view() == dir_start.0 && it.count() == 0
                && !it.has_failed(),
            r matches Err(e) ==> e is CorruptFs && !has_chain(self.boot_view(), self.fat(), dir_start.0 as int),
    {
        DirEntryIter::new(self, dir_start)
    }

    /// The first cluster of the directory that `node_id` denotes.
    fn dir_node_cluster_of(&self, node_id: NodeId) -> (r: Result<ClusterId, FsError>)
        requires
            self.wf(),
        ensures
            r matches Ok(c) ==> node_dir(self.boot_view(), self.disk(), self.fat(), node_id.0) == Some(c.0 as int),
            node_dir(self.boot_view(), self.disk(), self.fat(), node_id.0) is None ==> r is Err,
            self.reliable() && node_dir(self.boot_view(), self.disk(), self.fat(), node_id.0) is Some ==> r is Ok,
            self.reliable() && node_id.0 != ROOT_NODE_ID ==> (entry_at(self.boot_view(), self.disk(), self.fat(), loc_of_number(node_id.0))
                matches Some(v) ==> (kind_of_attr(v.attr) == Some(NodeKind::File) ==> (r matches Err(FsError::NotADirectory(s)) && s@
                == fcb_name(v)))),
            self.reliable() && node_id.0 != ROOT_NODE_ID ==> (entry_at(self.boot_view(), self.disk(), self.fat(), loc_of_number(node_id.0))
                matches Some(v) ==> (kind_of_attr(v.attr) is None ==> r is Err && r->Err_0 is CorruptFs)),
            self.reliable() && node_id.0 != ROOT_NODE_ID && slot_readable(
                self.boot_view(),
                self.fat(),
                loc_of_number(node_id.0).dir_start.0 as int,
                loc_of_number(node_id.0).entry_index as int,
            ) && !(dir_slot(
                self.boot_view(),
                self.disk(),
                self.fat(),
                loc_of_number(node_id.0).dir_start.0 as int,
                loc_of_number(node_id.0).entry_index as int,
            ) is Occupied) ==> r == Err::<ClusterId, FsError>(FsError::NotFoundAt(loc_of_number(node_id.0))),
            self.reliable() && node_id.0 != ROOT_NODE_ID && !slot_readable(
                self.boot_view(),
                self.fat(),
                loc_of_number(node_id.0).dir_start.0 as int,
                loc_of_number(node_id.0).entry_index as int,
            ) ==> r is Err && r->Err_0 is CorruptFs,
    {
        match node_id.target() {
            NodeTarget::Root => Ok(self.root_dir_cluster()),
            NodeTarget::Leaf(loc) => {
                let fcb = self.read_fcb_at(loc)?;
                match fcb.kind()? {
                    NodeKind::Directory => Ok(fcb.start_cluster),
                    NodeKind::File => Err(FsError::NotADirectory(fcb.short_name())),
                }
            },
        }
    }

    /// Looks up the entry named `name` in the directory that `parent` denotes, as a node.
    pub fn lookup_node(&self, parent: NodeId, name: &str) -> (r: Result<NodeId, FsError>)
        requires
            self.wf(),
        ensures
            r matches Ok(n) ==> {
                let b = self.boot_view();
                let loc = loc_of_number(n.0);
                &&& node_dir(b, self.disk(), self.fat(), parent.0) == Some(loc.dir_start.0 as int)
                &&& n.0 == node_number(loc)
                &&& crate::lookup::name_ok(name)
                &&& slot_readable(b, self.fat(), loc.dir_start.0 as int, loc.entry_index as int)
                &&& crate::lookup::slot_named(b, self.disk(), self.fat(), loc.dir_start.0 as int, loc.entry_index as int, crate::name::upper_chars(name@))
                &&& forall|j: int| 0 <= j < loc.entry_index ==> !#[trigger] crate::lookup::slot_named(
                    b,
                    self.disk(),
                    self.fat(),
                    loc.dir_start.0 as int,
                    j,
                    crate::name::upper_chars(name@),
                )
            },
            node_dir(self.boot_view(), self.disk(), self.fat(), parent.0) is None ==> r is Err,
            self.reliable() ==> (node_dir(self.boot_view(), self.disk(), self.fat(), parent.0) matches Some(d) ==> (
            crate::lookup::name_ok(name) && has_chain(self.boot_view(), self.fat(), d) && forall|j: int|
                0 <= j < dir_slot_count(self.boot_view(), self.fat(), d) ==> !#[trigger] crate::lookup::slot_named(
                    self.boot_view(),
                    self.disk(),
                    self.fat(),
                    d,
                    j,
                    crate::name::upper_chars(name@),
                )) ==> r matches Err(FsError::NotFound(_))),
            self.reliable() ==> (node_dir(self.boot_view(), self.disk(), self.fat(), parent.0) matches Some(d) ==> (
            crate::lookup::name_ok(name) && has_chain(self.boot_view(), self.fat(), d) ==> r is Ok || r matches Err(FsError::NotFound(_)))),
            node_dir(self.boot_view(), self.disk(), self.fat(), parent.0) is Some && !crate::lookup::name_ok(name) ==> (r matches Err(
                FsError::InvalidName(s),
            ) && s@ == name@) || !self.reliable(),
    {
        let parent_cluster = self.dir_node_cluster_of(parent)?;
        let (loc, found) = self.lookup(parent_cluster, name)?;
        proof {
            assert(crate::lookup::slot_named(
                self.boot_view(),
                self.disk(),
                self.fat(),
                parent_cluster.0 as int,
                loc.entry_index as int,
                crate::name::upper_chars(name@),
            ));
            crate::error::lemma_node_loc_round_trip(loc);
            if has_chain(self.boot_view(), self.fat(), parent_cluster.0 as int) {
                self.lemma_wf();
                crate::lookup::lemma_readable_slot_counted(self.boot_view(), self.fat(), parent_cluster.0 as int, loc.entry_index as int);
            }
        }
        Ok(NodeId::of_loc(loc))
    }

    /// The metadata of the node `node_id`: the root, or a directory entry.
    pub fn stat_node(&self, node_id: NodeId) -> (r: Result<NodeMeta, FsError>)
        requires
            self.wf(),
        ensures
            node_id.0 == ROOT_NODE_ID ==> root_stat(*self, r),
            node_id.0 != ROOT_NODE_ID ==> entry_stat(*self, loc_of_number(node_id.0), r),
    {
        match node_id.target() {
            NodeTarget::Root => self.stat_root(),
            NodeTarget::Leaf(loc) => self.stat(loc),
        }
    }

    /// Iterates over the entries of the directory that `node_id` denotes.
    pub fn dir_entries_node(&self, node_id: NodeId) -> (r: Result<DirEntryIter<'_, D>, FsError>)
        requires
            self.wf(),
        ensures
            r matches Ok(it) ==> node_dir(self.boot_view(), self.disk(), self.fat(), node_id.0) == Some(it.dir_view()) && it.inv()
                && it.fs_view() == self && it.count() == 0 && !it.has_failed(),
            node_dir(self.boot_view(), self.disk(), self.fat(), node_id.0) is None ==> r is Err,
            self.reliable() ==> (node_dir(self.boot_view(), self.disk(), self.fat(), node_id.0) matches Some(d) ==> (d == 0
                || crate::layout::in_data(self.boot_view(), d) ==> r is Ok)),
    {
        let dir_cluster = self.dir_node_cluster_of(node_id)?;
        self.dir_entries(dir_cluster)
    }

    /// Opens the file that `node_id` denotes; the root is a directory.
    pub fn open_node(&mut self, node_id: NodeId) -> (r: Result<crate::fs::FileHandle, FsError>)
        requires
            old(self).wf(),
        ensures
            final(self).wf(),
            node_id.0 == ROOT_NODE_ID ==> (r matches Err(FsError::IsADirectory(s)) && s@ == "/"@) && *final(self) == *old(self),
            node_id.0 != ROOT_NODE_ID ==> crate::handles::opened(*old(self), *final(self), loc_of_number(node_id.0), r),
    {
        match node_id.target() {
            NodeTarget::Root => Err(FsError::IsADirectory(String::from_str("/"))),
            NodeTarget::Leaf(loc) => self.open(loc),
        }
    }
}


/// The entry `v` with its stamps set to the UTC time `t`.
pub open spec fn restamped(v: FcbView, t: crate::clock::UtcDateTime) -> FcbView {
    FcbView {
        mtime: crate::fs::time_pack(t.hour as int, t.minute as int, t.second as int) as u16,
        mdate: crate::fs::date_pack(t.year as int, t.month as int, t.day as int) as u16,
        ..v
    }
}

impl<D: BufferedBlockDevice> MyFileSystem<D> {
    /// Writes `fcb` over the entry in slot `loc`; every other slot keeps its bytes.
    fn rewrite_entry(&mut self, loc: DirEntryLoc, fcb: &Fcb) -> (r: Result<(), FsError>)
        requires
            old(self).wf(),
            slot_readable(old(self).boot_view(), old(self).fat(), loc.dir_start.0 as int, loc.entry_index as int),
            fcb@.base.len() == 8,
            fcb@.base[0] != 0,
            fcb@.base[0] != 0xE5,
        ensures
            crate::myfs::meta_kept(old(self).boot_view(), old(self).disk(), final(self).disk()),
            final(self).wf(),
            final(self).boot_view() == old(self).boot_view(),
            final(self).fat() == old(self).fat(),
            final(self).dirty() == old(self).dirty(),
            final(self).reliable() == old(self).reliable(),
            final(self).handles() == old(self).handles(),
            final(self).next_handle_value() == old(self).next_handle_value(),
            final(self).disk().len() == old(self).disk().len(),
            old(self).reliable() ==> r is Ok,
            forall|j: int|
                0 <= j < old(self).disk().len() && !crate::layout::block_in_cluster(
                    old(self).boot_view(),
                    crate::layout::slot_cluster(old(self).boot_view(), old(self).fat(), loc.dir_start.0 as int, loc.entry_index as int),
                    j,
                ) ==> #[trigger] final(self).disk()[j] == old(self).disk()[j],
            r is Ok ==> dir_slot(old(self).boot_view(), final(self).disk(), old(self).fat(), loc.dir_start.0 as int, loc.entry_index as int)
                == SlotView::Occupied(fcb@),
            r is Ok ==> forall|dir2: int, j: int|
                j >= 0 && crate::layout::in_data(old(self).boot_view(), crate::layout::slot_cluster(old(self).boot_view(), old(self).fat(), dir2, j))
                    && !(crate::layout::slot_cluster(old(self).boot_view(), old(self).fat(), dir2, j) == crate::layout::slot_cluster(
                    old(self).boot_view(),
                    old(self).fat(),
                    loc.dir_start.0 as int,
                    loc.entry_index as int,
                ) && crate::layout::slot_offset(old(self).boot_view(), j) == crate::layout::slot_offset(old(self).boot_view(), loc.entry_index as int))
                    ==> #[trigger] slot_bytes(old(self).boot_view(), final(self).disk(), old(self).fat(), dir2, j) == slot_bytes(
                    old(self).boot_view(),
                    old(self).disk(),
                    old(self).fat(),
                    dir2,
                    j,
                ),
    {
        let ghost b = self.boot_view();
        let ghost fat = self.fat();
        proof {
            self.lemma_wf();
            crate::dir::lemma_slot_pos(b, loc.entry_index as int);
            let kk: int = loc.entry_index as int / crate::layout::entries_per_cluster(b);
            assert(crate::layout::in_data(b, crate::layout::nth(fat, loc.dir_start.0 as int, kk as nat)));
            crate::myfs::lemma_cluster_range(b, crate::layout::slot_cluster(b, fat, loc.dir_start.0 as int, loc.entry_index as int));
        }
        self.write_fcb_at(loc, fcb)?;
        let ghost d2 = self.disk();
        proof {
            crate::fs::lemma_fcb_round_trip(fcb@, Seq::<u8>::empty());
            assert(crate::fs::fcb_bytes(fcb@) + Seq::<u8>::empty() =~= crate::fs::fcb_bytes(fcb@));
            assert(crate::fs::fcb_bytes(fcb@)[0] == fcb@.base[0]);
            assert(dir_slot(b, d2, fat, loc.dir_start.0 as int, loc.entry_index as int) == SlotView::Occupied(fcb@));
        }
        Ok(())
    }

    /// Sets the modification stamps of the entry at `loc` to `mtime`, in the slot and in every
    /// open file at `loc`.
    #[verifier::rlimit(40)]
    pub fn set_mtime(&mut self, loc: DirEntryLoc, mtime: crate::clock::UtcDateTime) -> (r: Result<(), FsError>)
        requires
            old(self).wf(),
        ensures
            crate::myfs::meta_kept(old(self).boot_view(), old(self).disk(), final(self).disk()),
            final(self).wf(),
            final(self).boot_view() == old(self).boot_view(),
            final(self).fat() == old(self).fat(),
            final(self).dirty() == old(self).dirty(),
            final(self).reliable() == old(self).reliable(),
            final(self).next_handle_value() == old(self).next_handle_value(),
            final(self).disk().len() == old(self).disk().len(),
            r is Err ==> final(self).handles() == old(self).handles(),
            old(self).reliable() && r is Err ==> final(self).disk() == old(self).disk(),
            forall|j: int|
                0 <= j < old(self).disk().len() && !crate::layout::block_in_cluster(
                    old(self).boot_view(),
                    crate::layout::slot_cluster(old(self).boot_view(), old(self).fat(), loc.dir_start.0 as int, loc.entry_index as int),
                    j,
                ) ==> #[trigger] final(self).disk()[j] == old(self).disk()[j],
            entry_at(old(self).boot_view(), old(self).disk(), old(self).fat(), loc) is None ==> r is Err,
            old(self).reliable() && slot_readable(old(self).boot_view(), old(self).fat(), loc.dir_start.0 as int, loc.entry_index as int)
                && !(dir_slot(old(self).boot_view(), old(self).disk(), old(self).fat(), loc.dir_start.0 as int, loc.entry_index as int) is Occupied)
                ==> r == Err::<(), FsError>(FsError::NotFoundAt(loc)),
            !(1980 <= mtime.year <= 2107) ==> r is Err,
            old(self).reliable() && entry_at(old(self).boot_view(), old(self).disk(), old(self).fat(), loc) is Some ==> (r is Ok <==> 1980
                <= mtime.year <= 2107),
            old(self).reliable() && entry_at(old(self).boot_view(), old(self).disk(), old(self).fat(), loc) is Some && !(1980 <= mtime.year
                <= 2107) ==> r is Err && r->Err_0 is InvalidConfig,
            r is Ok ==> (entry_at(old(self).boot_view(), old(self).disk(), old(self).fat(), loc) matches Some(v) && {
                let b = old(self).boot_view();
                &&& dir_slot(b, final(self).disk(), old(self).fat(), loc.dir_start.0 as int, loc.entry_index as int) == SlotView::Occupied(
                    restamped(v, mtime),
                )
                &&& exists|f: Fcb| f@ == restamped(v, mtime) && final(self).handles() == crate::myfs::with_fcb_at(old(self).handles(), loc, f)
                &&& forall|dir2: int, j: int|
                    j >= 0 && crate::layout::in_data(b, crate::layout::slot_cluster(b, old(self).fat(), dir2, j)) && !(
                    crate::layout::slot_cluster(b, old(self).fat(), dir2, j) == crate::layout::slot_cluster(
                        b,
                        old(self).fat(),
                        loc.dir_start.0 as int,
                        loc.entry_index as int,
                    ) && crate::layout::slot_offset(b, j) == crate::layout::slot_offset(b, loc.entry_index as int)) ==> #[trigger] crate::layout::slot_bytes(
                        b,
                        final(self).disk(),
                        old(self).fat(),
                        dir2,
                        j,
                    ) == crate::layout::slot_bytes(b, old(self).disk(), old(self).fat(), dir2, j)
            }),
    {
        let ghost b = self.boot_view();
        let ghost fat = self.fat();
        let mut fcb = self.read_fcb_at(loc)?;
        let ghost v = fcb@;
        fcb.set_mdatetime(mtime)?;
        proof {
            assert(fcb@ == restamped(v, mtime));
            self.lemma_wf();
            crate::dir::lemma_slot_pos(b, loc.entry_index as int);
            let kk: int = loc.entry_index as int / crate::layout::entries_per_cluster(b);
            assert(crate::layout::in_data(b, crate::layout::nth(fat, loc.dir_start.0 as int, kk as nat)));
            self.lemma_cluster_len(crate::layout::slot_cluster(b, fat, loc.dir_start.0 as int, loc.entry_index as int));
            let ob = slot_bytes(b, self.disk(), fat, loc.dir_start.0 as int, loc.entry_index as int);
            assert(ob[0] != 0 && ob[0] != 0xE5);
            assert(v.base[0] == ob[0]);
        }
        self.rewrite_entry(loc, &fcb)?;
        self.update_open_fcbs(loc, fcb);
        Ok(())
    }
}

} // verus!
