//! Moving around the directory tree by node: the directory that holds a node, and looking up
//! a name (with `.` and `..`) below a node.

use vstd::prelude::*;
use vstd::string::StringExecFns;

use crate::dev::BufferedBlockDevice;
use crate::entries::entry_at;
use crate::dir::dir_slot;
use crate::error::loc_of_number;
use crate::error::DirEntryLoc;
use crate::error::node_number;
use crate::error::FsError;
use crate::error::NodeId;
use crate::error::ROOT_NODE_ID;
use crate::fs::kind_of_attr;
use crate::layout::chain_len;
use crate::layout::has_chain;
use crate::fs::ClusterId;
use crate::fs::NodeKind;
use crate::fs::ROOT_DIR_START;
use crate::lookup::dir_slot_count;
use crate::myfs::MyFileSystem;
use crate::name::SlotView;
use crate::nodes::entry_stat;
use crate::nodes::node_dir;
use crate::nodes::root_stat;
use crate::nodes::size_known;
use crate::nodes::stamps_ok;
use crate::nodes::NodeMeta;
use crate::paths::first_named;
use crate::paths::is_char;
use crate::paths::is_dot_dot;
use crate::report::hex_text;
use crate::report::push_hex;

verus! {

/// Is node `p` the directory that holds the entry of node `target`?
pub open spec fn holds_node<D: BufferedBlockDevice>(fs: MyFileSystem<D>, p: u64, target: u64) -> bool {
    &&& target != ROOT_NODE_ID
    &&& node_dir(fs.boot_view(), fs.disk(), fs.fat(), p) == Some(loc_of_number(target).dir_start.0 as int)
    &&& entry_at(fs.boot_view(), fs.disk(), fs.fat(), loc_of_number(target)) is Some
    &&& node_number(loc_of_number(target)) == target
}

/// Is node `p` the parent of node `c`: the root for the root, else the directory holding `c`?
pub open spec fn parent_link<D: BufferedBlockDevice>(fs: MyFileSystem<D>, c: u64, p: u64) -> bool {
    if c == ROOT_NODE_ID {
        p == ROOT_NODE_ID
    } else {
        holds_node(fs, p, c)
    }
}

/// Does a directory in the tree below node `n` hold the entry of node `target`? The search looks
/// at the entries of `n`'s own directory, and below its subdirectories `depth` levels deep.
pub open spec fn holds_below<D: BufferedBlockDevice>(fs: MyFileSystem<D>, n: u64, target: u64, depth: nat) -> bool
    decreases depth,
{
    let b = fs.boot_view();
    match node_dir(b, fs.disk(), fs.fat(), n) {
        None => false,
        Some(dir) => exists|l: DirEntryLoc|
            #![trigger node_number(l)]
            l.dir_start.0 == dir && l.entry_index < dir_slot_count(b, fs.fat(), dir) && (dir_slot(
                b,
                fs.disk(),
                fs.fat(),
                dir,
                l.entry_index as int,
            ) matches SlotView::Occupied(v) && (node_number(l) == target || (kind_of_attr(v.attr) == Some(NodeKind::Directory) && depth > 0
                && holds_below(fs, node_number(l), target, (depth - 1) as nat)))),
    }
}

/// The slot `j` of directory `dir` as a location.
pub open spec fn slot_loc(dir: int, j: int) -> DirEntryLoc {
    DirEntryLoc { dir_start: ClusterId(dir as u16), entry_index: j as u32 }
}

/// Can the search below node `n` for node `target`, `depth` levels deep, read everything it
/// meets? The directory of `n` has a proper chain, every entry in it has valid stamps and a known
/// size, and below each subdirectory other than `target` the search can go on one level less deep.
pub open spec fn searchable<D: BufferedBlockDevice>(fs: MyFileSystem<D>, n: u64, target: u64, depth: nat) -> bool
    decreases depth,
{
    let b = fs.boot_view();
    match node_dir(b, fs.disk(), fs.fat(), n) {
        None => false,
        Some(dir) => has_chain(b, fs.fat(), dir) && forall|j: int|
            0 <= j < dir_slot_count(b, fs.fat(), dir) ==> (#[trigger] dir_slot(b, fs.disk(), fs.fat(), dir, j) matches SlotView::Occupied(v)
                ==> stamps_ok(v) && size_known(b, fs.fat(), v) && (kind_of_attr(v.attr) == Some(NodeKind::Directory) && node_number(
                slot_loc(dir, j),
            ) != target ==> depth > 0 && searchable(fs, node_number(slot_loc(dir, j)), target, (depth - 1) as nat))),
    }
}

/// Slot `l` of directory `dir` holds neither node `target` nor a subdirectory below which
/// [`holds_below`] finds it, `depth - 1` levels deep.
spec fn slot_clear<D: BufferedBlockDevice>(fs: MyFileSystem<D>, dir: int, target: u64, depth: nat, l: DirEntryLoc) -> bool {
    dir_slot(fs.boot_view(), fs.disk(), fs.fat(), dir, l.entry_index as int) matches SlotView::Occupied(v) ==> node_number(l) != target
        && (kind_of_attr(v.attr) == Some(NodeKind::Directory) ==> depth > 0 && !holds_below(fs, node_number(l), target, (depth - 1) as nat))
}

/// What [`MyFileSystem::stat_node`] returns for node `n`.
pub open spec fn node_stat<D: BufferedBlockDevice>(fs: MyFileSystem<D>, n: u64, r: Result<NodeMeta, FsError>) -> bool {
    if n == ROOT_NODE_ID {
        root_stat(fs, r)
    } else {
        entry_stat(fs, loc_of_number(n), r)
    }
}

impl<D: BufferedBlockDevice> MyFileSystem<D> {
    /// Searches the tree below the directory of node `current`, depth first, for the directory
    /// that holds the entry of node `target`; `depth` bounds how deep the search descends.
    pub fn find_parent_under(&self, current: NodeId, target: NodeId, depth: usize) -> (r: Result<Option<NodeId>, FsError>)
        requires
            self.wf(),
        ensures
            r matches Ok(Some(p)) ==> holds_node(*self, p.0, target.0),
            r matches Ok(None) ==> !holds_below(*self, current.0, target.0, depth as nat),
            node_dir(self.boot_view(), self.disk(), self.fat(), current.0) is None ==> r is Err,
            self.reliable() && searchable(*self, current.0, target.0, depth as nat) ==> r is Ok,
            searchable(*self, current.0, target.0, depth as nat) ==> (r is Ok ==> (r matches Ok(Some(_)) <==> holds_below(
                *self,
                current.0,
                target.0,
                depth as nat,
            ))),
        decreases depth,
    {
        let ghost b = self.boot_view();
        let ghost ok = self.reliable() && searchable(*self, current.0, target.0, depth as nat);
        proof {
            if ok {
                if let Some(d) = node_dir(b, self.disk(), self.fat(), current.0) {
                    if d != 0 {
                        let n = chain_len(b, self.fat(), d);
                        assert(crate::layout::chain_ends(b, self.fat(), d, n));
                        assert(crate::layout::in_data(b, crate::layout::nth(self.fat(), d, (0int) as nat)));
                    }
                }
            }
        }
        let mut it = self.dir_entries_node(current)?;
        let ghost dir = it.dir_view();
        loop
            invariant
                self.wf(),
                it.inv(),
                it.fs_view() == self,
                !it.has_failed(),
                b == self.boot_view(),
                dir == it.dir_view(),
                node_dir(self.boot_view(), self.disk(), self.fat(), current.0) == Some(it.dir_view()),
                forall|l: DirEntryLoc|
                    l.dir_start.0 == dir && l.entry_index < it.count() ==> #[trigger] slot_clear(*self, dir, target.0, depth as nat, l),
                ok == (self.reliable() && searchable(*self, current.0, target.0, depth as nat)),
            decreases 0x1_0000_0000 - it.count(),
        {
            proof {
                it.lemma_count_bound();
            }
            let ghost c0 = it.count();
            match it.next() {
                None => {
                    proof {
                        if holds_below(*self, current.0, target.0, depth as nat) {
                            let l = choose|l: DirEntryLoc|
                                #![trigger node_number(l)]
                                l.dir_start.0 == dir && l.entry_index < dir_slot_count(
                                    b,
                                    self.fat(),
                                    dir,
                                ) && (dir_slot(b, self.disk(), self.fat(), dir, l.entry_index as int) matches SlotView::Occupied(v) && (
                                node_number(l) == target.0 || (kind_of_attr(v.attr) == Some(NodeKind::Directory) && depth > 0 && holds_below(
                                    *self,
                                    node_number(l),
                                    target.0,
                                    (depth - 1) as nat,
                                ))));
                            assert(slot_clear(*self, dir, target.0, depth as nat, l));
                        }
                    }
                    return Ok(None);
                },
                Some(Err(e)) => {
                    proof {
                        if ok {
                            let j = it.count() - 1;
                            self.lemma_wf();
                            crate::lookup::lemma_readable_slot_counted(b, self.fat(), dir, j);
                            assert(dir_slot(b, self.disk(), self.fat(), dir, j) is Occupied);
                        }
                    }
                    return Err(e);
                },
                Some(Ok(entry)) => {
                    proof {
                        if ok {
                            let j = it.count() - 1;
                            self.lemma_wf();
                            crate::lookup::lemma_readable_slot_counted(b, self.fat(), dir, j);
                            assert(slot_loc(dir, j) == entry.loc);
                            assert(dir_slot(b, self.disk(), self.fat(), dir, j) is Occupied);
                        }
                    }
                    if entry.node_id == target {
                        proof {
                            let b = self.boot_view();
                            let dir = entry.loc.dir_start.0 as int;
                            let j = entry.loc.entry_index as int;
                            self.lemma_wf();
                            crate::dir::lemma_slot_pos(b, j);
                            assert(crate::layout::in_data(b, crate::layout::nth(self.fat(), dir, (0int) as nat)));
                            crate::error::lemma_node_loc_round_trip(entry.loc);
                            assert(loc_of_number(target.0) == entry.loc);
                            if searchable(*self, current.0, target.0, depth as nat) {
                                crate::lookup::lemma_readable_slot_counted(b, self.fat(), dir, j);
                                assert(node_number(entry.loc) == target.0);
                            }
                        }
                        return Ok(Some(current));
                    }
                    if entry.kind == NodeKind::Directory {
                        if depth == 0 {
                            return Err(FsError::CorruptFs(String::from_str("directory tree too deep")));
                        }
                        match self.find_parent_under(entry.node_id, target, depth - 1) {
                            Ok(Some(found)) => {
                                proof {
                                    if searchable(*self, current.0, target.0, depth as nat) {
                                        let j = it.count() - 1;
                                        self.lemma_wf();
                                        crate::lookup::lemma_readable_slot_counted(b, self.fat(), dir, j);
                                        assert(slot_loc(dir, j) == entry.loc);
                                        assert(dir_slot(b, self.disk(), self.fat(), dir, j) is Occupied);
                                    }
                                }
                                return Ok(Some(found));
                            },
                            Ok(None) => {},
                            Err(e) => {
                                return Err(e);
                            },
                        }
                    }
                    proof {
                        let j = it.count() - 1;
                        assert forall|l: DirEntryLoc|
                            l.dir_start.0 == dir && l.entry_index < it.count() implies #[trigger] slot_clear(*self, dir, target.0, depth as nat, l) by {
                            if l.entry_index >= c0 {
                                if l.entry_index < j {
                                    assert(!(dir_slot(b, self.disk(), self.fat(), dir, l.entry_index as int) is Occupied));
                                } else {
                                    assert(l.dir_start == entry.loc.dir_start);
                                    assert(l == entry.loc);
                                }
                            }
                        }
                    }
                },
            }
        }
    }

    /// The directory that holds node `node`; the root is its own parent.
    pub fn parent_of(&self, node: NodeId) -> (r: Result<NodeId, FsError>)
        requires
            self.wf(),
        ensures
            node.0 == ROOT_NODE_ID ==> r == Ok::<NodeId, FsError>(node),
            r matches Ok(p) ==> parent_link(*self, node.0, p.0),
            self.reliable() && node.0 != ROOT_NODE_ID && searchable(*self, ROOT_NODE_ID, node.0, crate::layout::data_clusters(self.boot_view()) as nat)
                ==> (if holds_below(*self, ROOT_NODE_ID, node.0, crate::layout::data_clusters(self.boot_view()) as nat) {
                r is Ok
            } else {
                r matches Err(FsError::CorruptFs(s)) && s@ == "cannot find parent directory for "@ + hex_text(node.0 as nat)
            }),
    {
        if node.0 == ROOT_NODE_ID {
            return Ok(node);
        }
        let depth = self.data_cluster_count() as usize;
        match self.find_parent_under(NodeId::root(), node, depth)? {
            Some(p) => Ok(p),
            None => {
                let mut msg = String::from_str("cannot find parent directory for ");
                let ghost m0 = msg@;
                push_hex(&mut msg, node.0);
                Err(FsError::CorruptFs(msg))
            },
        }
    }

    /// The first cluster of the directory that node `node` denotes, as its metadata gives it.
    pub fn node_dir_cluster(&self, node: NodeId) -> (r: Result<ClusterId, FsError>)
        requires
            self.wf(),
        ensures
            r matches Ok(c) ==> node_dir(self.boot_view(), self.disk(), self.fat(), node.0) == Some(c.0 as int),
            node_dir(self.boot_view(), self.disk(), self.fat(), node.0) is None ==> r is Err,
            self.reliable() ==> (node_dir(self.boot_view(), self.disk(), self.fat(), node.0) matches Some(d) ==> (has_chain(
                self.boot_view(),
                self.fat(),
                d,
            ) ==> (r matches Ok(c) && c.0 == d))),
            self.reliable() && node.0 != ROOT_NODE_ID ==> (entry_at(self.boot_view(), self.disk(), self.fat(), loc_of_number(node.0)) matches Some(v)
                ==> (kind_of_attr(v.attr) == Some(NodeKind::File) ==> (r matches Err(FsError::NotADirectory(s)) && s@ == crate::lookup::fcb_name(v)))),
    {
        let meta = self.stat_node(node)?;
        if meta.kind != NodeKind::Directory {
            return Err(FsError::NotADirectory(meta.short_name));
        }
        Ok(meta.start_cluster)
    }

    /// The metadata of what `name` names below node `parent`: `parent` itself for ".", the
    /// directory that holds `parent` for "..", and otherwise the entry found by looking the
    /// name up in `parent`'s directory.
    pub fn lookup_meta(&self, parent: NodeId, name: &str) -> (r: Result<NodeMeta, FsError>)
        requires
            self.wf(),
        ensures
            name@ == seq!['.'] && parent.0 == ROOT_NODE_ID ==> root_stat(*self, r),
            name@ == seq!['.'] && parent.0 != ROOT_NODE_ID ==> entry_stat(*self, loc_of_number(parent.0), r),
            name@ == seq!['.', '.'] ==> (r is Ok ==> exists|p: u64| #[trigger] parent_link(*self, parent.0, p) && node_stat(*self, p, r)),
            name@ != seq!['.'] && name@ != seq!['.', '.'] ==> (r matches Ok(m) ==> m.loc matches Some(loc) && node_dir(
                self.boot_view(),
                self.disk(),
                self.fat(),
                parent.0,
            ) == Some(loc.dir_start.0 as int) && (entry_at(self.boot_view(), self.disk(), self.fat(), loc) matches Some(v)
                && first_named(self.boot_view(), self.disk(), self.fat(), loc, crate::name::upper_chars(name@), v)
                && crate::nodes::meta_of_entry(m, self.boot_view(), self.disk(), self.fat(), loc, v))),
            self.reliable() && name@ == seq!['.', '.'] && parent.0 == ROOT_NODE_ID && has_chain(self.boot_view(), self.fat(), ROOT_DIR_START as int)
                ==> r is Ok,
            self.reliable() && name@ != seq!['.'] && name@ != seq!['.', '.'] && crate::lookup::name_ok(name) ==> (node_dir(
                self.boot_view(),
                self.disk(),
                self.fat(),
                parent.0,
            ) matches Some(d) ==> (has_chain(self.boot_view(), self.fat(), d) && (forall|j: int|
                0 <= j < dir_slot_count(self.boot_view(), self.fat(), d) ==> (#[trigger] dir_slot(self.boot_view(), self.disk(), self.fat(), d, j)
                matches SlotView::Occupied(v) ==> size_known(self.boot_view(), self.fat(), v))) ==> (if exists|j: int|
                0 <= j < dir_slot_count(self.boot_view(), self.fat(), d) && #[trigger] crate::lookup::slot_named(
                    self.boot_view(),
                    self.disk(),
                    self.fat(),
                    d,
                    j,
                    crate::name::upper_chars(name@),
                ) {
                r is Ok
            } else {
                r matches Err(FsError::NotFound(_))
            }))),
    {
        if is_char(name, '.') {
            return self.stat_node(parent);
        }
        if is_dot_dot(name) {
            let p = self.parent_of(parent)?;
            return self.stat_node(p);
        }
        let parent_cluster = self.node_dir_cluster(parent)?;
        let (loc, _) = self.lookup(parent_cluster, name)?;
        proof {
            self.lemma_wf();
            if has_chain(self.boot_view(), self.fat(), parent_cluster.0 as int) {
                crate::lookup::lemma_readable_slot_counted(self.boot_view(), self.fat(), parent_cluster.0 as int, loc.entry_index as int);
                assert(dir_slot(self.boot_view(), self.disk(), self.fat(), parent_cluster.0 as int, loc.entry_index as int) is Occupied);
                assert(crate::lookup::slot_named(
                    self.boot_view(),
                    self.disk(),
                    self.fat(),
                    parent_cluster.0 as int,
                    loc.entry_index as int,
                    crate::name::upper_chars(name@),
                ));
            }
        }
        self.stat(loc)
    }
}

} // verus!
