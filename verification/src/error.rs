//! Errors, entry locations and node identifiers.

use vstd::prelude::*;

use crate::fs::ClusterId;
use crate::fs::FileHandle;

verus! {

/// Error type for [`crate::MyFileSystem`].
#[derive(Debug, Clone, PartialEq, Eq)]
pub enum FsError {
    InvalidConfig(String),
    InvalidName(String),
    InvalidPath(String),
    NotFound(String),
    NotFoundAt(DirEntryLoc),
    NotADirectory(String),
    IsADirectory(String),
    DirectoryNotEmpty(String),
    NoSpace,
    TooManyOpenFiles,
    AlreadyOpen(DirEntryLoc),
    FileOpen(DirEntryLoc),
    InvalidHandle(FileHandle),
    SeekOutOfBounds(usize),
    CorruptFs(String),
}

/// Location of a directory entry.
///
/// Given the starting [`ClusterId`] and the offset into the logical view of all contained entries,
/// we're able to uniquely identify each entry and its position (with the help of FAT, of course).
#[derive(Debug, Clone, Copy, PartialEq, Eq, Hash, Structural)]
pub struct DirEntryLoc {
    pub dir_start: ClusterId,
    pub entry_index: u32,
}

/// Session-stable node identifier for higher-level directory traversal APIs.
///
/// This is comprised of two parts, both coming from [`DirEntryLoc`]:
/// * Lower 32 bits: `entry_index`
/// * Higher 32 bits: `dir_start`
///
/// The major difference between this and [`DirEntryLoc`] is that the former can represent the root,
/// while the latter can not.
#[derive(Debug, Clone, Copy, PartialEq, Eq, Hash, Structural)]
pub struct NodeId(pub u64);

pub const ROOT_NODE_ID: u64 = 1;

impl NodeId {
    /// The node of the root directory.
    pub fn root() -> (n: NodeId)
        ensures
            n.0 == ROOT_NODE_ID,
    {
        NodeId(ROOT_NODE_ID)
    }
}

/// The node number of a directory entry location.
pub open spec fn node_number(loc: DirEntryLoc) -> u64 {
    (loc.dir_start.0 as u64 * 0x1_0000_0000 + loc.entry_index as u64) as u64
}

/// The location a (non-root) node number denotes.
pub open spec fn loc_of_number(n: u64) -> DirEntryLoc {
    DirEntryLoc {
        dir_start: ClusterId(((n / 0x1_0000_0000) % 0x1_0000) as u16),
        entry_index: (n % 0x1_0000_0000) as u32,
    }
}

impl From<u64> for NodeId {
    fn from(value: u64) -> (r: NodeId)
        ensures
            r.0 == value,
    {
        NodeId(value)
    }
}

impl vstd::std_specs::convert::FromSpecImpl<u64> for NodeId {
    open spec fn obeys_from_spec() -> bool {
        true
    }

    open spec fn from_spec(v: u64) -> NodeId {
        NodeId(v)
    }
}

impl From<NodeId> for u64 {
    fn from(value: NodeId) -> (r: u64)
        ensures
            r == value.0,
    {
        value.0
    }
}

impl vstd::std_specs::convert::FromSpecImpl<NodeId> for u64 {
    open spec fn obeys_from_spec() -> bool {
        true
    }

    open spec fn from_spec(v: NodeId) -> u64 {
        v.0
    }
}

impl NodeId {
    /// The node of a directory entry: `dir_start` in bits 32..48, `entry_index` in bits 0..32.
    pub fn of_loc(value: DirEntryLoc) -> (r: NodeId)
        ensures
            r.0 == node_number(value),
    {
        NodeId(value.dir_start.0 as u64 * 0x1_0000_0000 + value.entry_index as u64)
    }
}

impl From<DirEntryLoc> for NodeId {
    fn from(value: DirEntryLoc) -> (r: NodeId)
        ensures
            r.0 == node_number(value),
    {
        NodeId::of_loc(value)
    }
}

impl vstd::std_specs::convert::FromSpecImpl<DirEntryLoc> for NodeId {
    open spec fn obeys_from_spec() -> bool {
        true
    }

    open spec fn from_spec(v: DirEntryLoc) -> NodeId {
        NodeId(node_number(v))
    }
}

/// What a [`NodeId`] denotes.
#[derive(Debug, Clone, Copy, PartialEq, Eq, Structural)]
pub enum NodeTarget {
    Root,
    Leaf(DirEntryLoc),
}

pub open spec fn node_target(n: u64) -> NodeTarget {
    if n == ROOT_NODE_ID {
        NodeTarget::Root
    } else {
        NodeTarget::Leaf(loc_of_number(n))
    }
}

impl NodeId {
    /// Splits a node into the root or a directory entry location.
    pub fn target(self) -> (r: NodeTarget)
        ensures
            r == node_target(self.0),
    {
        if self.0 == ROOT_NODE_ID {
            NodeTarget::Root
        } else {
            NodeTarget::Leaf(
                DirEntryLoc {
                    dir_start: ClusterId(((self.0 / 0x1_0000_0000) % 0x1_0000) as u16),
                    entry_index: (self.0 % 0x1_0000_0000) as u32,
                },
            )
        }
    }
}

impl DirEntryLoc {
    /// The directory entry a node denotes; the root is no directory entry.
    pub fn from_node(value: NodeId) -> (r: Result<DirEntryLoc, NodeId>)
        ensures
            value.0 == ROOT_NODE_ID ==> r == Err::<DirEntryLoc, NodeId>(value),
            value.0 != ROOT_NODE_ID ==> r == Ok::<DirEntryLoc, NodeId>(loc_of_number(value.0)),
    {
        match value.target() {
            NodeTarget::Root => Err(value),
            NodeTarget::Leaf(loc) => Ok(loc),
        }
    }
}

impl TryFrom<NodeId> for DirEntryLoc {
    type Error = NodeId;

    fn try_from(value: NodeId) -> (r: Result<DirEntryLoc, NodeId>)
        ensures
            value.0 == ROOT_NODE_ID ==> r == Err::<DirEntryLoc, NodeId>(value),
            value.0 != ROOT_NODE_ID ==> r == Ok::<DirEntryLoc, NodeId>(loc_of_number(value.0)),
    {
        DirEntryLoc::from_node(value)
    }
}

impl vstd::std_specs::convert::TryFromSpecImpl<NodeId> for DirEntryLoc {
    open spec fn obeys_try_from_spec() -> bool {
        true
    }

    open spec fn try_from_spec(v: NodeId) -> Result<DirEntryLoc, NodeId> {
        if v.0 == ROOT_NODE_ID {
            Err(v)
        } else {
            Ok(loc_of_number(v.0))
        }
    }
}

/// A directory entry location and its node number determine each other. The node of a location
/// inside a real directory (whose first cluster is never cluster 0) is never the root's node.
pub proof fn lemma_node_loc_round_trip(loc: DirEntryLoc)
    ensures
        loc_of_number(node_number(loc)) == loc,
        loc.dir_start.0 != 0 ==> node_number(loc) != ROOT_NODE_ID,
        loc.dir_start.0 != 0 ==> node_target(node_number(loc)) == NodeTarget::Leaf(loc),
{
    let d = loc.dir_start.0 as int;
    let e = loc.entry_index as int;
    assert(d * 0x1_0000_0000 + e < 0x1_0000_0000_0000) by (nonlinear_arith)
        requires
            0 <= d < 0x1_0000,
            0 <= e < 0x1_0000_0000,
    ;
    let n = d * 0x1_0000_0000 + e;
    assert(n / 0x1_0000_0000 == d && n % 0x1_0000_0000 == e) by (nonlinear_arith)
        requires
            n == d * 0x1_0000_0000 + e,
            0 <= d < 0x1_0000,
            0 <= e < 0x1_0000_0000,
    ;
    assert(d >= 1 ==> n >= 0x1_0000_0000) by (nonlinear_arith)
        requires
            n == d * 0x1_0000_0000 + e,
            0 <= e,
    ;
}

} // verus!
