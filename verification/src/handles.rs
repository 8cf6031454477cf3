//! Open files: opening, closing, seeking, reading and writing through handles.

use vstd::prelude::*;

use crate::dev::BufferedBlockDevice;
use crate::dir::dir_slot;
use crate::error::DirEntryLoc;
use crate::error::FsError;
use crate::fs::fcb_bytes;
use crate::fs::kind_of_attr;
use crate::fs::Fcb;
use crate::fs::FileHandle;
use crate::fs::NodeKind;
use crate::fileio::clusters_after;
use crate::fileio::file_byte;
use crate::fileio::read_len;
use crate::fileio::written_byte;
use crate::layout::chain_byte;
use crate::layout::chain_ends;
use crate::layout::chain_len;
use crate::layout::clusters_for;
use crate::layout::has_chain;
use crate::layout::iter_ok;
use crate::layout::cluster_size;
use crate::layout::follow;
use crate::layout::slot_bytes;
use crate::layout::slot_cluster;
use crate::layout::slot_readable;
use crate::lookup::fcb_name;
use crate::myfs::handle_index;
use crate::myfs::is_open;
use crate::myfs::locations_distinct;
use crate::myfs::with_fcb_at;
use crate::myfs::MyFileSystem;
use crate::myfs::OpenFile;
use crate::myfs::MAX_OPEN_FILES;
use crate::name::SlotView;

verus! {

broadcast use crate::myfs::lemma_meta_block_not_in_cluster;

/// What opening the file at `loc` does, going from `a` to `c` with result `r`: on success the
/// first unused entry of the open-file table takes the file, with the cursor at 0, and the
/// handle is the counter's value. The counter wraps after `0xFFFF_FFFF`; while every open handle
/// lies below it, the new handle differs from all of them.
pub open spec fn opened<D: BufferedBlockDevice>(a: MyFileSystem<D>, c: MyFileSystem<D>, loc: DirEntryLoc, r: Result<FileHandle, FsError>) -> bool {
    let b = a.boot_view();
    let dir = loc.dir_start.0 as int;
    let i = loc.entry_index as int;
    &&& c.boot_view() == b
    &&& c.disk() == a.disk()
    &&& c.fat() == a.fat()
    &&& c.dirty() == a.dirty()
    &&& c.reliable() == a.reliable()
    &&& r is Err ==> c.handles() == a.handles() && c.next_handle_value() == a.next_handle_value()
    &&& r matches Ok(h) ==> slot_readable(b, a.fat(), dir, i) && !is_open(a.handles(), loc) && h.0 == a.next_handle_value()
        && c.next_handle_value() == (if a.next_handle_value() == 0xFFFF_FFFF {
        0
    } else {
        a.next_handle_value() + 1
    })
    &&& r matches Ok(h) ==> (handles_below(a.handles(), a.next_handle_value()) ==> forall|m: int|
        0 <= m < a.handles().len() && #[trigger] a.handles()[m] is Some ==> a.handles()[m]->Some_0.handle != h)
    &&& r matches Ok(h) ==> exists|k: int|
        #![trigger a.handles()[k]]
        0 <= k < MAX_OPEN_FILES && a.handles()[k] is None && (forall|m: int| 0 <= m < k ==> #[trigger] a.handles()[m] is Some)
            && c.handles() == a.handles().update(k, Some(OpenFile { handle: h, loc: loc, cursor: 0, fcb: c.handles()[k]->Some_0.fcb }))
            && dir_slot(b, a.disk(), a.fat(), dir, i) == SlotView::Occupied(c.handles()[k]->Some_0.fcb@) && kind_of_attr(
            c.handles()[k]->Some_0.fcb.attr.0,
        ) == Some(NodeKind::File)
    &&& a.reliable() && slot_readable(b, a.fat(), dir, i) && !(dir_slot(b, a.disk(), a.fat(), dir, i) is Occupied) ==> r
        == Err::<FileHandle, FsError>(FsError::NotFoundAt(loc))
    &&& a.reliable() && slot_readable(b, a.fat(), dir, i) ==> (dir_slot(b, a.disk(), a.fat(), dir, i) matches SlotView::Occupied(f) ==> (
    kind_of_attr(f.attr) == Some(NodeKind::Directory) ==> (r matches Err(FsError::IsADirectory(s)) && s@ == fcb_name(f))))
    &&& a.reliable() && slot_readable(b, a.fat(), dir, i) && (dir_slot(b, a.disk(), a.fat(), dir, i) matches SlotView::Occupied(f)
        && kind_of_attr(f.attr) == Some(NodeKind::File)) ==> (if is_open(a.handles(), loc) {
        r == Err::<FileHandle, FsError>(FsError::AlreadyOpen(loc))
    } else if forall|m: int| 0 <= m < MAX_OPEN_FILES ==> #[trigger] a.handles()[m] is Some {
        r matches Err(FsError::TooManyOpenFiles)
    } else {
        r is Ok
    })
}

/// Does no handle stand in two entries of the open-file table?
pub open spec fn handles_distinct(t: Seq<Option<OpenFile>>) -> bool {
    forall|i: int, j: int|
        0 <= i < t.len() && 0 <= j < t.len() && i != j && #[trigger] t[i] is Some && #[trigger] t[j] is Some
            ==> t[i]->Some_0.handle != t[j]->Some_0.handle
}

/// Does every open handle lie below the handle counter?
pub open spec fn handles_below(t: Seq<Option<OpenFile>>, next: u32) -> bool {
    forall|m: int| 0 <= m < t.len() && #[trigger] t[m] is Some ==> t[m]->Some_0.handle.0 < next
}

/// What closing `handle` does, going from `a` to `c` with result `r`: an unknown handle is
/// refused and nothing changes; otherwise its first entry in the table is emptied.
pub open spec fn closed<D: BufferedBlockDevice>(a: MyFileSystem<D>, c: MyFileSystem<D>, handle: FileHandle, r: Result<(), FsError>) -> bool {
    &&& c.boot_view() == a.boot_view()
    &&& c.disk() == a.disk()
    &&& c.fat() == a.fat()
    &&& c.dirty() == a.dirty()
    &&& c.reliable() == a.reliable()
    &&& c.next_handle_value() == a.next_handle_value()
    &&& handle_index(a.handles(), handle) is None ==> r == Err::<(), FsError>(FsError::InvalidHandle(handle))
        && c.handles() == a.handles()
    &&& handle_index(a.handles(), handle) matches Some(i) ==> r is Ok && c.handles() == a.handles().update(i, None)
}

/// A file that is open already cannot be opened again: opening keeps every location in at most
/// one entry of the open-file table (which every valid filesystem keeps), and, while the handle counter has not wrapped past the open
/// handles, every handle in at most one entry. Until the counter reaches `0xFFFF_FFFF`, every
/// open handle stays below it.
pub proof fn lemma_open_keeps_table_distinct<D: BufferedBlockDevice>(
    a: MyFileSystem<D>,
    c: MyFileSystem<D>,
    loc: DirEntryLoc,
    r: Result<FileHandle, FsError>,
)
    requires
        a.wf(),
        opened(a, c, loc, r),
    ensures
        locations_distinct(c.handles()),
        handles_distinct(a.handles()) && handles_below(a.handles(), a.next_handle_value()) ==> handles_distinct(c.handles()),
        handles_below(a.handles(), a.next_handle_value()) && a.next_handle_value() < 0xFFFF_FFFF ==> handles_below(
            c.handles(),
            c.next_handle_value(),
        ),
{
    a.lemma_wf();
    if let Ok(h) = r {
        let k = choose|k: int|
            #![trigger a.handles()[k]]
            0 <= k < MAX_OPEN_FILES && a.handles()[k] is None && (forall|m: int| 0 <= m < k ==> #[trigger] a.handles()[m] is Some)
                && c.handles() == a.handles().update(k, Some(OpenFile { handle: h, loc: loc, cursor: 0, fcb: c.handles()[k]->Some_0.fcb }))
                && dir_slot(a.boot_view(), a.disk(), a.fat(), loc.dir_start.0 as int, loc.entry_index as int) == SlotView::Occupied(c.handles()[k]->Some_0.fcb@)
                && kind_of_attr(c.handles()[k]->Some_0.fcb.attr.0) == Some(NodeKind::File);
        let t = c.handles();
        assert forall|i: int, j: int|
            0 <= i < t.len() && 0 <= j < t.len() && i != j && #[trigger] t[i] is Some && #[trigger] t[j] is Some
            implies t[i]->Some_0.loc != t[j]->Some_0.loc by {
            if i == k {
                assert(a.handles()[j] is Some);
            } else if j == k {
                assert(a.handles()[i] is Some);
            } else {
                assert(a.handles()[i] is Some && a.handles()[j] is Some);
            }
        }
        if handles_distinct(a.handles()) && handles_below(a.handles(), a.next_handle_value()) {
            assert forall|i: int, j: int|
                0 <= i < t.len() && 0 <= j < t.len() && i != j && #[trigger] t[i] is Some && #[trigger] t[j] is Some
                implies t[i]->Some_0.handle != t[j]->Some_0.handle by {
                if i == k {
                    assert(a.handles()[j] is Some);
                } else if j == k {
                    assert(a.handles()[i] is Some);
                } else {
                    assert(a.handles()[i] is Some && a.handles()[j] is Some);
                }
            }
        }
    }
}

/// Closing a handle releases it: while no handle stands in two entries of the open-file table
/// (which holds until the handle counter wraps past an open handle), a handle that was closed is
/// open no more, and the table stays free of repeated handles and
/// locations, with every open handle still below the counter if it was before.
pub proof fn lemma_close_releases<D: BufferedBlockDevice>(
    a: MyFileSystem<D>,
    c: MyFileSystem<D>,
    handle: FileHandle,
    r: Result<(), FsError>,
)
    requires
        a.wf(),
        closed(a, c, handle, r),
        handles_distinct(a.handles()),
    ensures
        handle_index(c.handles(), handle) is None,
        handles_distinct(c.handles()),
        locations_distinct(c.handles()),
        handles_below(a.handles(), a.next_handle_value()) ==> handles_below(c.handles(), c.next_handle_value()),
{
    a.lemma_wf();
    let t = c.handles();
    if let Some(i) = handle_index(a.handles(), handle) {
        assert(a.handles()[i] matches Some(f) && f.handle == handle);
        if exists|j: int| 0 <= j < t.len() && (#[trigger] t[j] matches Some(f) && f.handle == handle) {
            let j = choose|j: int| 0 <= j < t.len() && (#[trigger] t[j] matches Some(f) && f.handle == handle);
            assert(j != i);
            assert(a.handles()[j] is Some && a.handles()[i] is Some);
        }
    }
}

impl<D: BufferedBlockDevice> MyFileSystem<D> {
    /// Opens the file at `loc`: the first unused entry of the open-file table takes it, with the
    /// cursor at 0.
    pub fn open(&mut self, loc: DirEntryLoc) -> (r: Result<FileHandle, FsError>)
        requires
            old(self).wf(),
        ensures
            final(self).wf(),
            final(self).boot_view() == old(self).boot_view(),
            final(self).disk() == old(self).disk(),
            final(self).fat() == old(self).fat(),
            final(self).dirty() == old(self).dirty(),
            final(self).reliable() == old(self).reliable(),
            opened(*old(self), *final(self), loc, r),
    {
        let fcb = self.read_fcb_at(loc)?;
        if fcb.kind()? == NodeKind::Directory {
            return Err(FsError::IsADirectory(fcb.short_name()));
        }
        if self.find_open_handle(loc).is_some() {
            return Err(FsError::AlreadyOpen(loc));
        }
        let slot = match self.first_free_open_slot() {
            Some(i) => i,
            None => {
                return Err(FsError::TooManyOpenFiles);
            },
        };
        let handle = self.take_next_handle();
        proof {
            self.lemma_wf();
        }
        let ghost t0 = self.handles();
        let entry = OpenFile { handle, loc, cursor: 0, fcb };
        let ghost ge = entry;
        self.set_open_entry(slot, Some(entry));
        proof {
            self.lemma_wf();
            let k = slot as int;
            assert(t0.len() == MAX_OPEN_FILES);
            assert(self.handles() == t0.update(k, Some(ge)));
            assert(self.handles()[k] == Some(ge));
            assert(self.handles()[k]->Some_0.fcb == fcb);
            assert(self.handles() == t0.update(k, Some(OpenFile { handle: handle, loc: loc, cursor: 0, fcb: self.handles()[k]->Some_0.fcb })));
        }
        Ok(handle)
    }

    /// Closes a handle.
    pub fn close(&mut self, handle: FileHandle) -> (r: Result<(), FsError>)
        requires
            old(self).wf(),
        ensures
            final(self).wf(),
            final(self).boot_view() == old(self).boot_view(),
            final(self).disk() == old(self).disk(),
            final(self).fat() == old(self).fat(),
            final(self).dirty() == old(self).dirty(),
            final(self).reliable() == old(self).reliable(),
            final(self).next_handle_value() == old(self).next_handle_value(),
            closed(*old(self), *final(self), handle, r),
    {
        let slot = self.find_open_file_slot(handle)?;
        self.set_open_entry(slot, None);
        Ok(())
    }

    /// Moves the cursor of a handle; it may not pass the end of the file.
    pub fn seek(&mut self, handle: FileHandle, pos: usize) -> (r: Result<(), FsError>)
        requires
            old(self).wf(),
        ensures
            final(self).wf(),
            final(self).boot_view() == old(self).boot_view(),
            final(self).disk() == old(self).disk(),
            final(self).fat() == old(self).fat(),
            final(self).dirty() == old(self).dirty(),
            final(self).reliable() == old(self).reliable(),
            final(self).next_handle_value() == old(self).next_handle_value(),
            handle_index(old(self).handles(), handle) is None ==> r == Err::<(), FsError>(FsError::InvalidHandle(handle))
                && final(self).handles() == old(self).handles(),
            handle_index(old(self).handles(), handle) matches Some(i) ==> {
                let f = old(self).handles()[i]->Some_0;
                &&& pos > f.fcb.size ==> r == Err::<(), FsError>(FsError::SeekOutOfBounds(pos)) && final(self).handles() == old(self).handles()
                &&& pos <= f.fcb.size ==> r is Ok && final(self).handles() == old(self).handles().update(
                    i,
                    Some(OpenFile { cursor: pos, ..f }),
                )
            },
    {
        let slot = self.find_open_file_slot(handle)?;
        let entry = self.open_entry(slot);
        if pos > entry.fcb.size as usize {
            return Err(FsError::SeekOutOfBounds(pos));
        }
        proof {
            self.lemma_wf();
            assert forall|k: int| 0 <= k < self.handles().len() && k != slot && #[trigger] self.handles()[k] is Some
                implies self.handles()[k]->Some_0.loc != entry.loc by {
                assert(self.handles()[slot as int] is Some);
            }
        }
        self.set_open_entry(slot, Some(OpenFile { handle: entry.handle, loc: entry.loc, cursor: pos, fcb: entry.fcb }));
        Ok(())
    }

    /// Reads up to `len` bytes at the cursor of a handle and moves the cursor past them; a read
    /// ends at the end of the file.
    pub fn read(&mut self, handle: FileHandle, len: usize) -> (r: Result<Vec<u8>, FsError>)
        requires
            old(self).wf(),
        ensures
            final(self).wf(),
            final(self).boot_view() == old(self).boot_view(),
            final(self).disk() == old(self).disk(),
            final(self).fat() == old(self).fat(),
            final(self).dirty() == old(self).dirty(),
            final(self).reliable() == old(self).reliable(),
            final(self).next_handle_value() == old(self).next_handle_value(),
            handle_index(old(self).handles(), handle) is None ==> r == Err::<Vec<u8>, FsError>(FsError::InvalidHandle(handle)),
            r is Err ==> final(self).handles() == old(self).handles(),
            r matches Ok(v) ==> (handle_index(old(self).handles(), handle) matches Some(i) && {
                let f = old(self).handles()[i]->Some_0;
                &&& v@.len() == (if f.fcb.start_cluster.0 == 0 { 0 } else { read_len(f.fcb.size as int, f.cursor as int, len as int) })
                &&& forall|p: int| 0 <= p < v@.len() ==> #[trigger] v@[p] == file_byte(
                    old(self).boot_view(),
                    old(self).disk(),
                    old(self).fat(),
                    f.fcb.start_cluster.0 as int,
                    f.cursor + p,
                )
                &&& final(self).handles() == old(self).handles().update(i, Some(OpenFile { cursor: (f.cursor + v@.len()) as usize, ..f }))
            }),
            old(self).reliable() ==> (handle_index(old(self).handles(), handle) matches Some(i) ==> ({
                let f = old(self).handles()[i]->Some_0;
                let n = read_len(f.fcb.size as int, f.cursor as int, len as int);
                f.fcb.start_cluster.0 == 0 || n == 0 || iter_ok(
                    old(self).boot_view(),
                    old(self).fat(),
                    f.fcb.start_cluster.0 as int,
                    clusters_for(old(self).boot_view(), f.cursor + n) as nat,
                )
            } ==> r is Ok)),
    {
        let slot = self.find_open_file_slot(handle)?;
        let entry = self.open_entry(slot);
        let file_size = entry.fcb.size as usize;
        let rest = if entry.cursor < file_size { file_size - entry.cursor } else { 0 };
        let n = if len < rest { len } else { rest };
        let data = if entry.fcb.start_cluster.0 == 0 || n == 0 {
            Vec::new()
        } else {
            self.read_chain_bytes(entry.fcb.start_cluster, entry.cursor, n)?
        };
        proof {
            self.lemma_wf();
            assert forall|k: int| 0 <= k < self.handles().len() && k != slot && #[trigger] self.handles()[k] is Some
                implies self.handles()[k]->Some_0.loc != entry.loc by {
                assert(self.handles()[slot as int] is Some);
            }
        }
        self.set_open_entry(
            slot,
            Some(OpenFile { handle: entry.handle, loc: entry.loc, cursor: entry.cursor + data.len(), fcb: entry.fcb }),
        );
        Ok(data)
    }

    /// Writes `data` at the cursor of a handle, growing the file as needed, and moves the cursor
    /// past it; returns the number of bytes written.
    #[verifier::spinoff_prover]
    #[verifier::rlimit(40)]
    pub fn write(&mut self, handle: FileHandle, data: &[u8]) -> (r: Result<usize, FsError>)
        requires
            old(self).wf(),
        ensures
            crate::myfs::meta_kept(old(self).boot_view(), old(self).disk(), final(self).disk()),
            final(self).wf(),
            final(self).boot_view() == old(self).boot_view(),
            final(self).reliable() == old(self).reliable(),
            final(self).next_handle_value() == old(self).next_handle_value(),
            handle_index(old(self).handles(), handle) is None ==> r == Err::<usize, FsError>(FsError::InvalidHandle(handle)),
            r is Err ==> final(self).handles() == old(self).handles(),
            old(self).reliable() ==> (handle_index(old(self).handles(), handle) matches Some(i) ==> ({
                let of = old(self).handles()[i]->Some_0;
                let b = old(self).boot_view();
                let f0 = old(self).fat();
                let need = clusters_for(b, of.cursor + data@.len());
                crate::entries::entry_at(b, old(self).disk(), f0, of.loc) matches Some(v) && kind_of_attr(v.attr) == Some(NodeKind::File)
                    && of.cursor + data@.len() <= 0xFFFF_FFFF && has_chain(b, f0, v.start_cluster as int) && (need <= chain_len(
                    b,
                    f0,
                    v.start_cluster as int,
                ) || crate::layout::free_set(b, f0).len() >= need - chain_len(b, f0, v.start_cluster as int)) && crate::entries::chains_apart(
                    b,
                    f0,
                    of.loc.dir_start.0 as int,
                    of.loc.entry_index as int,
                    v.start_cluster as int,
                )
            } ==> r is Ok || r->Err_0 is InvalidConfig)),
            old(self).reliable() ==> (handle_index(old(self).handles(), handle) matches Some(i) ==> ((r matches Err(FsError::NoSpace)) ==> (
            crate::entries::entry_at(old(self).boot_view(), old(self).disk(), old(self).fat(), old(self).handles()[i]->Some_0.loc) matches Some(v)
                && crate::layout::free_set(old(self).boot_view(), old(self).fat()).len() < clusters_for(
                old(self).boot_view(),
                old(self).handles()[i]->Some_0.cursor + data@.len(),
            ) - chain_len(old(self).boot_view(), old(self).fat(), v.start_cluster as int)))),
            r matches Ok(n) ==> n == data@.len() && (handle_index(old(self).handles(), handle) matches Some(i) && {
                let of = old(self).handles()[i]->Some_0;
                let loc = of.loc;
                let b = old(self).boot_view();
                &&& slot_readable(b, old(self).fat(), loc.dir_start.0 as int, loc.entry_index as int)
                &&& dir_slot(b, old(self).disk(), old(self).fat(), loc.dir_start.0 as int, loc.entry_index as int) matches SlotView::Occupied(f1)
                &&& kind_of_attr(f1.attr) == Some(NodeKind::File)
                &&& exists|f2: Fcb| #![trigger f2.start_cluster] {
                    let s = f1.start_cluster as int;
                    let cur = chain_len(b, old(self).fat(), s);
                    let end = of.cursor + data@.len();
                    let k = clusters_after(b, cur, end);
                    let s2 = f2.start_cluster.0 as int;
                    &&& f2@.base == f1.base && f2@.ext == f1.ext && f2.attr.0 == f1.attr
                    &&& f2.size == if end > f1.size { end } else { f1.size as int }
                    &&& (s != 0 ==> s2 == s)
                    &&& (k > 0 ==> chain_ends(b, final(self).fat(), s2, k))
                    &&& k * cluster_size(b) >= end
                    &&& final(self).handles() == with_fcb_at(old(self).handles(), loc, f2).update(
                        i,
                        Some(OpenFile { cursor: end as usize, fcb: f2, ..of }),
                    )
                    &&& slot_bytes(b, final(self).disk(), final(self).fat(), loc.dir_start.0 as int, loc.entry_index as int) == fcb_bytes(f2@)
                    &&& (!follow(final(self).fat(), s2, k).contains(slot_cluster(b, final(self).fat(), loc.dir_start.0 as int, loc.entry_index as int))
                        ==> forall|p: int|
                        0 <= p < k * cluster_size(b) ==> #[trigger] chain_byte(b, final(self).disk(), final(self).fat(), s2, p)
                            == written_byte(b, old(self).disk(), old(self).fat(), s, cur, of.cursor as int, data@, p))
                }
            }),
            r is Ok ==> (handle_index(old(self).handles(), handle) matches Some(i) && exists|f2: Fcb|
                #![trigger crate::fileio::data_written(old(self).boot_view(), old(self).disk(), old(self).fat(), final(self).disk(), final(self).fat(), old(self).handles()[i]->Some_0.loc, old(self).handles()[i]->Some_0.cursor as int, data@, f2)]
                crate::fileio::data_written(
                    old(self).boot_view(),
                    old(self).disk(),
                    old(self).fat(),
                    final(self).disk(),
                    final(self).fat(),
                    old(self).handles()[i]->Some_0.loc,
                    old(self).handles()[i]->Some_0.cursor as int,
                    data@,
                    f2,
                )),
    {
        let ghost b = self.boot_view();
        let ghost d0 = self.disk();
        let ghost fat0 = self.fat();
        let slot = self.find_open_file_slot(handle)?;
        let entry = self.open_entry(slot);
        let fcb = self.read_fcb_at(entry.loc)?;
        let f2 = self.write_fcb_data_at(entry.loc, fcb, entry.cursor, data)?;
        let end = entry.cursor + data.len();
        proof {
            assert(crate::fileio::data_written(b, d0, fat0, self.disk(), self.fat(), entry.loc, entry.cursor as int, data@, f2));
            self.lemma_wf();
            assert forall|k: int| 0 <= k < self.handles().len() && k != slot && #[trigger] self.handles()[k] is Some
                implies self.handles()[k]->Some_0.loc != entry.loc by {
                assert(self.handles()[slot as int] is Some);
            }
        }
        self.set_open_entry(slot, Some(OpenFile { handle: entry.handle, loc: entry.loc, cursor: end, fcb: f2 }));
        Ok(data.len())
    }
}

} // verus!
