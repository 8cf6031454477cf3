//! Paths: joining a path to a working directory, folding `.` and `..`, and resolving the
//! result to a directory entry.

use vstd::prelude::*;
use vstd::string::StrSliceExecFns;
use vstd::string::StringExecFns;
use vstd::string::StringSliceAdditionalSpecFns;

use crate::dev::BufferedBlockDevice;
use crate::dir::dir_slot;
use crate::error::DirEntryLoc;
use crate::error::FsError;
use crate::fat::FatEntry;
use crate::fs::kind_of_attr;
use crate::fs::BootSector;
use crate::fs::ClusterId;
use crate::fs::Fcb;
use crate::fs::FcbView;
use crate::fs::NodeKind;
use crate::fs::ROOT_DIR_START;
use crate::layout::slot_readable;
use crate::lookup::slot_named;
use crate::myfs::MyFileSystem;
use crate::name::to_ascii_uppercase;
use crate::name::upper_chars;
use crate::name::SlotView;

verus! {

/// The path that `raw` names from the working directory `cwd`.
pub open spec fn joined_path(cwd: Seq<char>, raw: Seq<char>) -> Seq<char> {
    if raw.len() > 0 && raw[0] == '/' {
        raw
    } else if cwd == seq!['/'] {
        seq!['/'] + raw
    } else {
        cwd + seq!['/'] + raw
    }
}

/// The parts kept after one more part of a path: an empty part and "." change nothing, ".."
/// drops the last part kept, any other part is kept in upper case.
pub open spec fn step_part(stack: Seq<Seq<char>>, part: Seq<char>) -> Seq<Seq<char>> {
    if part.len() == 0 || part == seq!['.'] {
        stack
    } else if part == seq!['.', '.'] {
        if stack.len() > 0 {
            stack.drop_last()
        } else {
            stack
        }
    } else {
        stack.push(upper_chars(part))
    }
}

/// Reading a path character by character: the parts kept so far and the part being read.
pub open spec fn walk_path(s: Seq<char>) -> (Seq<Seq<char>>, Seq<char>)
    decreases s.len(),
{
    if s.len() == 0 {
        (Seq::empty(), Seq::empty())
    } else {
        let prev = walk_path(s.drop_last());
        if s.last() == '/' {
            (step_part(prev.0, prev.1), Seq::empty())
        } else {
            (prev.0, prev.1.push(s.last()))
        }
    }
}

/// The parts of a path once `.` and `..` are folded.
pub open spec fn path_parts(s: Seq<char>) -> Seq<Seq<char>> {
    step_part(walk_path(s).0, walk_path(s).1)
}

/// Parts written one after the other, each after a slash.
pub open spec fn parts_text(parts: Seq<Seq<char>>) -> Seq<char>
    decreases parts.len(),
{
    if parts.len() == 0 {
        Seq::empty()
    } else {
        parts_text(parts.drop_last()) + seq!['/'] + parts.last()
    }
}

/// The text of an absolute path made of `parts`; no parts is the root, "/".
pub open spec fn path_text(parts: Seq<Seq<char>>) -> Seq<char> {
    if parts.len() == 0 {
        seq!['/']
    } else {
        parts_text(parts)
    }
}

/// A slash settles the part being read: after it, the parts kept are the parts of the path up to
/// it, and no part is being read.
proof fn lemma_walk_slash(s: Seq<char>)
    ensures
        walk_path(s.push('/')) == (path_parts(s), Seq::<char>::empty()),
{
    assert(s.push('/').drop_last() =~= s);
}

/// Characters other than a slash only extend the part being read.
proof fn lemma_walk_no_slash(x: Seq<char>, t: Seq<char>)
    requires
        forall|i: int| 0 <= i < t.len() ==> t[i] != '/',
    ensures
        walk_path(x + t) == (walk_path(x).0, walk_path(x).1 + t),
    decreases t.len(),
{
    if t.len() == 0 {
        assert(x + t =~= x);
        assert(walk_path(x).1 + t =~= walk_path(x).1);
    } else {
        lemma_walk_no_slash(x, t.drop_last());
        assert((x + t).drop_last() =~= x + t.drop_last());
        assert((x + t).last() == t.last());
        assert((walk_path(x).1 + t.drop_last()).push(t.last()) =~= walk_path(x).1 + t);
    }
}

/// A ".." part drops exactly the last part kept so far, and keeps every earlier one; at the root
/// it keeps the root. So "/A/B/.." names "/A", and ".." never jumps further up than one level.
pub proof fn law_dot_dot_drops_last_part(s: Seq<char>)
    ensures
        path_parts(s.push('/') + seq!['.', '.']) == if path_parts(s).len() > 0 {
            path_parts(s).drop_last()
        } else {
            Seq::<Seq<char>>::empty()
        },
        path_parts(s).len() > 0 ==> path_parts(s.push('/') + seq!['.', '.']).len() == path_parts(s).len() - 1,
        forall|k: int| 0 <= k < path_parts(s).len() - 1 ==> path_parts(s.push('/') + seq!['.', '.'])[k] == #[trigger] path_parts(s)[k],
{
    lemma_walk_slash(s);
    lemma_walk_no_slash(s.push('/'), seq!['.', '.']);
    assert(Seq::<char>::empty() + seq!['.', '.'] =~= seq!['.', '.']);
}

/// A "." part, or an empty one between two slashes, leaves the parts kept as they are.
pub proof fn law_dot_keeps_parts(s: Seq<char>)
    ensures
        path_parts(s.push('/') + seq!['.']) == path_parts(s),
        path_parts(s.push('/')) == path_parts(s),
{
    lemma_walk_slash(s);
    lemma_walk_no_slash(s.push('/'), seq!['.']);
    assert(Seq::<char>::empty() + seq!['.'] =~= seq!['.']);
}

/// A name part is kept, in upper case, after the parts before it; and a ".." right after it
/// takes it away again, leaving the parts before it as they were.
pub proof fn law_part_then_dot_dot(s: Seq<char>, p: Seq<char>)
    requires
        p.len() > 0,
        p != seq!['.'],
        p != seq!['.', '.'],
        forall|i: int| 0 <= i < p.len() ==> p[i] != '/',
    ensures
        path_parts(s.push('/') + p) == path_parts(s).push(upper_chars(p)),
        path_parts((s.push('/') + p).push('/') + seq!['.', '.']) == path_parts(s),
{
    lemma_walk_slash(s);
    lemma_walk_no_slash(s.push('/'), p);
    assert(Seq::<char>::empty() + p =~= p);
    let t = s.push('/') + p;
    law_dot_dot_drops_last_part(t);
    assert(path_parts(s).push(upper_chars(p)).drop_last() =~= path_parts(s));
}

/// The texts of a list of strings.
pub open spec fn texts(v: Seq<String>) -> Seq<Seq<char>> {
    v.map_values(|s: String| s@)
}

/// Is `s` exactly the one character `c`?
pub(crate) fn is_char(s: &str, c: char) -> (r: bool)
    ensures
        r == (s@ == seq![c]),
{
    let n = s.unicode_len();
    if n != 1 {
        return false;
    }
    let first = s.get_char(0);
    if first == c {
        assert(s@ =~= seq![c]);
        true
    } else {
        false
    }
}

/// Is `s` exactly "..".
pub(crate) fn is_dot_dot(s: &str) -> (r: bool)
    ensures
        r == (s@ == seq!['.', '.']),
{
    let n = s.unicode_len();
    if n != 2 {
        return false;
    }
    let a = s.get_char(0);
    let b = s.get_char(1);
    if a == '.' && b == '.' {
        assert(s@ =~= seq!['.', '.']);
        true
    } else {
        false
    }
}

/// Applies one part to the parts kept.
fn push_part(stack: &mut Vec<String>, part: &str)
    ensures
        texts(final(stack)@) == step_part(texts(old(stack)@), part@),
{
    if part.unicode_len() == 0 || is_char(part, '.') {
        return;
    }
    if is_dot_dot(part) {
        if stack.len() > 0 {
            let _ = stack.pop();
            assert(texts(stack@) =~= texts(old(stack)@).drop_last());
        }
        return;
    }
    stack.push(to_ascii_uppercase(part));
    assert(texts(stack@) =~= texts(old(stack)@).push(upper_chars(part@)));
}

/// Joins `raw` to the working directory `cwd`.
fn join_path(cwd: &str, raw: &str) -> (r: String)
    requires
        raw@.len() > 0,
    ensures
        r@ == joined_path(cwd@, raw@),
{
    proof {
        reveal_strlit("/");
    }
    if raw.get_char(0) == '/' {
        return String::from_str(raw);
    }
    let mut out = String::new();
    if !is_char(cwd, '/') {
        out.append(cwd);
    }
    out.append("/");
    out.append(raw);
    out
}

/// The parts of the path `raw` taken from the working directory `cwd`, with `.` and `..`
/// folded and every part in upper case; an empty path is refused.
pub fn canonical_parts(cwd: &str, raw: &str) -> (r: Result<Vec<String>, FsError>)
    ensures
        raw@.len() == 0 ==> (r matches Err(FsError::InvalidPath(m)) && m@ == "empty path"@),
        raw@.len() > 0 ==> r is Ok && texts(r->Ok_0@) == path_parts(joined_path(cwd@, raw@)),
{
    if raw.unicode_len() == 0 {
        return Err(FsError::InvalidPath(String::from_str("empty path")));
    }
    let joined = join_path(cwd, raw);
    let text = joined.as_str();
    let n = text.unicode_len();
    let mut stack: Vec<String> = Vec::new();
    let mut start: usize = 0;
    let mut i: usize = 0;
    assert(text@.take(0) =~= Seq::<char>::empty());
    while i < n
        invariant
            n == text@.len(),
            start <= i <= n,
            walk_path(text@.take(i as int)).0 == texts(stack@),
            walk_path(text@.take(i as int)).1 == text@.subrange(start as int, i as int),
        decreases n - i,
    {
        let c = text.get_char(i);
        proof {
            assert(text@.take(i + 1).drop_last() =~= text@.take(i as int));
            assert(text@.take(i + 1).last() == c);
        }
        if c == '/' {
            let part = text.substring_char(start, i);
            push_part(&mut stack, part);
            start = i + 1;
        } else {
            proof {
                assert(text@.subrange(start as int, i as int).push(c) =~= text@.subrange(start as int, i + 1));
            }
        }
        i = i + 1;
    }
    assert(text@.take(n as int) =~= text@);
    let last = text.substring_char(start, n);
    push_part(&mut stack, last);
    Ok(stack)
}

/// Writes parts as an absolute path.
pub fn render_path(parts: &Vec<String>) -> (r: String)
    ensures
        r@ == path_text(texts(parts@)),
{
    proof {
        reveal_strlit("/");
    }
    if parts.len() == 0 {
        return String::from_str("/");
    }
    let mut out = String::new();
    let mut k: usize = 0;
    while k < parts.len()
        invariant
            k <= parts@.len(),
            out@ == parts_text(texts(parts@).take(k as int)),
        decreases parts@.len() - k,
    {
        let ghost before = out@;
        proof {
            reveal_strlit("/");
        }
        out.append("/");
        out.append(parts[k].as_str());
        proof {
            let t = texts(parts@);
            assert(t.take(k + 1).drop_last() =~= t.take(k as int));
            assert(t.take(k + 1).last() == parts@[k as int]@);
            assert(out@ =~= before + seq!['/'] + parts@[k as int]@);
        }
        k = k + 1;
    }
    assert(texts(parts@).take(parts@.len() as int) =~= texts(parts@));
    out
}

/// The absolute path that `raw` names from the working directory `cwd`, with `.` and `..`
/// folded and every part in upper case.
pub fn canonicalize_path(cwd: &str, raw: &str) -> (r: Result<String, FsError>)
    ensures
        raw@.len() == 0 ==> (r matches Err(FsError::InvalidPath(m)) && m@ == "empty path"@),
        raw@.len() > 0 ==> r is Ok && r->Ok_0@ == path_text(path_parts(joined_path(cwd@, raw@))),
{
    let parts = match canonical_parts(cwd, raw) {
        Ok(parts) => parts,
        Err(e) => return Err(e),
    };
    Ok(render_path(&parts))
}


/// Is slot `loc` the first slot of its directory that holds an entry named `key`, and `v` that
/// entry?
pub open spec fn first_named(b: BootSector, disk: Seq<Seq<u8>>, fat: Seq<FatEntry>, loc: DirEntryLoc, key: Seq<char>, v: FcbView) -> bool {
    let dir = loc.dir_start.0 as int;
    let i = loc.entry_index as int;
    &&& slot_readable(b, fat, dir, i)
    &&& dir_slot(b, disk, fat, dir, i) == SlotView::Occupied(v)
    &&& slot_named(b, disk, fat, dir, i, key)
    &&& forall|j: int| 0 <= j < i ==> !#[trigger] slot_named(b, disk, fat, dir, j, key)
}

/// A name is found in one place only: the slot that [`MyFileSystem::create_file`] or
/// [`MyFileSystem::mkdir`] reports as the first to hold a name is the slot that a successful
/// lookup of that name in the same directory returns, with the same entry.
pub proof fn law_lookup_finds_created(
    b: BootSector,
    disk: Seq<Seq<u8>>,
    fat: Seq<FatEntry>,
    created: DirEntryLoc,
    found: DirEntryLoc,
    key: Seq<char>,
    v: FcbView,
    w: FcbView,
)
    requires
        first_named(b, disk, fat, created, key, v),
        first_named(b, disk, fat, found, key, w),
        found.dir_start == created.dir_start,
    ensures
        found == created,
        w == v,
{
    let d = created.dir_start.0 as int;
    if found.entry_index < created.entry_index {
        assert(slot_named(b, disk, fat, d, found.entry_index as int, key));
    }
    if created.entry_index < found.entry_index {
        assert(slot_named(b, disk, fat, d, created.entry_index as int, key));
    }
}

/// Is `locs` (holding `vs`) the slots found by looking up `parts` one after another from the
/// root directory? Each part is looked up in the directory the previous one found.
pub open spec fn walked(
    b: BootSector,
    disk: Seq<Seq<u8>>,
    fat: Seq<FatEntry>,
    parts: Seq<Seq<char>>,
    locs: Seq<DirEntryLoc>,
    vs: Seq<FcbView>,
) -> bool {
    &&& locs.len() == parts.len()
    &&& vs.len() == parts.len()
    &&& forall|k: int| 0 <= k < parts.len() ==> first_named(b, disk, fat, #[trigger] locs[k], upper_chars(parts[k]), vs[k])
    &&& parts.len() > 0 ==> locs[0].dir_start.0 == ROOT_DIR_START
    &&& forall|k: int| 0 < k < parts.len() ==> (#[trigger] locs[k]).dir_start.0 == vs[k - 1].start_cluster
}

/// Does looking up `parts` one after another from the root directory end at slot `loc`,
/// holding `v`?
pub open spec fn walks_to(b: BootSector, disk: Seq<Seq<u8>>, fat: Seq<FatEntry>, parts: Seq<Seq<char>>, loc: DirEntryLoc, v: FcbView) -> bool {
    &&& parts.len() >= 1
    &&& exists|locs: Seq<DirEntryLoc>, vs: Seq<FcbView>|
        #[trigger] walked(b, disk, fat, parts, locs, vs) && locs.last() == loc && vs.last() == v
}

/// Is `t`, as text, a usable 8.3 name?
pub open spec fn text_name_ok(t: Seq<char>) -> bool {
    &&& vstd::utf8::is_ascii_chars(t)
    &&& !crate::name::reserved_component(t)
    &&& crate::name::short_name_spec(Seq::new(t.len(), |i: int| t[i] as u8)) is Some
}

/// A text that is a usable name makes a usable string.
proof fn lemma_name_ok_of_text(s: &str)
    requires
        text_name_ok(s@),
    ensures
        crate::lookup::name_ok(s),
{
    broadcast use vstd::string::is_ascii_spec_bytes;

    assert(vstd::string::is_ascii(s));
    assert(s.spec_bytes() =~= Seq::new(s@.len(), |i: int| s@[i] as u8));
}

/// Can the walk of `parts` from the root be made: is every part a usable name, and does a walk
/// exist along directories whose chains end properly?
pub open spec fn walk_ok(b: BootSector, disk: Seq<Seq<u8>>, fat: Seq<FatEntry>, parts: Seq<Seq<char>>) -> bool {
    &&& forall|k: int| 0 <= k < parts.len() ==> #[trigger] text_name_ok(parts[k])
    &&& exists|locs: Seq<DirEntryLoc>, vs: Seq<FcbView>|
        #[trigger] walked(b, disk, fat, parts, locs, vs) && forall|k: int|
            0 <= k < parts.len() ==> crate::layout::has_chain(b, fat, (#[trigger] locs[k]).dir_start.0 as int)
}

/// What a path resolves to: the root directory, or a directory entry.
#[derive(Debug)]
pub enum ResolvedTarget {
    Root { path: String },
    Entry { loc: DirEntryLoc, fcb: Fcb, path: String },
}

impl ResolvedTarget {
    /// The entry's location; the root has none.
    pub fn loc(&self) -> (r: Option<DirEntryLoc>)
        ensures
            match self {
                ResolvedTarget::Root { .. } => r is None,
                ResolvedTarget::Entry { loc, .. } => r == Some(*loc),
            },
    {
        match self {
            ResolvedTarget::Root { .. } => None,
            ResolvedTarget::Entry { loc, .. } => Some(*loc),
        }
    }

    /// The working directory that changing to this target gives: its first cluster and its path;
    /// `None` for an entry that is a file.
    pub fn into_cwd(self) -> (r: Result<Option<(ClusterId, String)>, FsError>)
        ensures
            match self {
                ResolvedTarget::Root { path } => (r matches Ok(Some((c, p))) && c.0 == ROOT_DIR_START && p@ == path@),
                ResolvedTarget::Entry { fcb, path, .. } => match kind_of_attr(fcb.attr.0) {
                    Some(NodeKind::Directory) => (r matches Ok(Some((c, p))) && c == fcb.start_cluster && p@ == path@),
                    Some(NodeKind::File) => r matches Ok(None),
                    None => r is Err && r->Err_0 is CorruptFs,
                },
            },
    {
        match self {
            ResolvedTarget::Root { path } => Ok(Some((crate::fs::root_dir_start_cluster(), path))),
            ResolvedTarget::Entry { fcb, path, .. } => match fcb.kind()? {
                NodeKind::Directory => Ok(Some((fcb.start_cluster, path))),
                NodeKind::File => Ok(None),
            },
        }
    }

    /// The first cluster of the directory an entry names; the root is handled apart.
    pub fn as_dir_cluster(&self) -> (r: Result<ClusterId, FsError>)
        ensures
            match self {
                ResolvedTarget::Root { .. } => r is Err && r->Err_0 is InvalidPath,
                ResolvedTarget::Entry { fcb, .. } => match kind_of_attr(fcb.attr.0) {
                    Some(NodeKind::Directory) => r == Ok::<ClusterId, FsError>(fcb.start_cluster),
                    Some(NodeKind::File) => r is Err && r->Err_0 is NotADirectory,
                    None => r is Err && r->Err_0 is CorruptFs,
                },
            },
    {
        match self {
            ResolvedTarget::Root { .. } => Err(FsError::InvalidPath(String::from_str("target is root, handle separately"))),
            ResolvedTarget::Entry { fcb, .. } => match fcb.kind()? {
                NodeKind::Directory => Ok(fcb.start_cluster),
                NodeKind::File => Err(FsError::NotADirectory(fcb.short_name())),
            },
        }
    }
}

/// Looks up the first `count` parts one after another from the root directory.
fn walk_parts<D: BufferedBlockDevice>(fs: &MyFileSystem<D>, parts: &Vec<String>, count: usize) -> (r: Result<
    Option<(DirEntryLoc, Fcb)>,
    FsError,
>)
    requires
        fs.wf(),
        count <= parts@.len(),
    ensures
        count == 0 ==> r == Ok::<Option<(DirEntryLoc, Fcb)>, FsError>(None),
        r matches Ok(Some((loc, f))) ==> count > 0 && walks_to(
            fs.boot_view(),
            fs.disk(),
            fs.fat(),
            texts(parts@).take(count as int),
            loc,
            f@,
        ),
        r matches Ok(None) ==> count == 0,
        fs.reliable() && (r matches Err(FsError::NotFound(_))) ==> !exists|l: DirEntryLoc, w: FcbView|
            #[trigger] walks_to(fs.boot_view(), fs.disk(), fs.fat(), texts(parts@).take(count as int), l, w),
        fs.reliable() && r is Err ==> r->Err_0 is InvalidName || r->Err_0 is NotFound || r->Err_0 is CorruptFs,
        fs.reliable() && walk_ok(fs.boot_view(), fs.disk(), fs.fat(), texts(parts@).take(count as int)) ==> r is Ok,
{
    let ghost b = fs.boot_view();
    let ghost whole = texts(parts@).take(count as int);
    let mut current = fs.root_dir_cluster();
    let mut last: Option<(DirEntryLoc, Fcb)> = None;
    let mut k: usize = 0;
    let ghost mut locs: Seq<DirEntryLoc> = Seq::empty();
    let ghost mut vs: Seq<FcbView> = Seq::empty();
    while k < count
        invariant
            fs.wf(),
            count <= parts@.len(),
            k <= count,
            walked(fs.boot_view(), fs.disk(), fs.fat(), texts(parts@).take(k as int), locs, vs),
            k == 0 ==> last is None && current.0 == ROOT_DIR_START,
            last matches Some((l, f)) ==> k > 0 && locs.last() == l && vs.last() == f@ && current == f.start_cluster,
            k > 0 ==> last is Some,
            b == fs.boot_view(),
            whole == texts(parts@).take(count as int),
            k > 0 ==> current.0 == vs.last().start_cluster,
            forall|l2: Seq<DirEntryLoc>, v2: Seq<FcbView>|
                #[trigger] walked(b, fs.disk(), fs.fat(), whole, l2, v2) ==> l2.take(k as int) == locs && v2.take(k as int) == vs,
        decreases count - k,
    {
        let name = parts[k].as_str();
        let res = fs.lookup(current, name);
        let found = match res {
            Ok(x) => x,
            Err(e) => {
                proof {
                    if fs.reliable() && e is NotFound {
                        assert forall|l: DirEntryLoc, w: FcbView| !#[trigger] walks_to(b, fs.disk(), fs.fat(), whole, l, w) by {
                            if walks_to(b, fs.disk(), fs.fat(), whole, l, w) {
                                let (l2, v2) = choose|l2: Seq<DirEntryLoc>, v2: Seq<FcbView>|
                                    #[trigger] walked(b, fs.disk(), fs.fat(), whole, l2, v2) && l2.last() == l && v2.last() == w;
                                assert(l2.take(k as int) == locs && v2.take(k as int) == vs);
                                let t = texts(parts@);
                                assert(whole[k as int] == t[k as int]);
                                assert(t[k as int] == parts@[k as int]@);
                                assert(first_named(b, fs.disk(), fs.fat(), l2[k as int], upper_chars(whole[k as int]), v2[k as int]));
                                if k > 0 {
                                    assert(v2[k - 1] == v2.take(k as int)[k - 1]);
                                }
                                let lk = l2[k as int];
                                assert(lk.dir_start == current);
                                fs.lemma_wf();
                                crate::lookup::lemma_readable_slot_counted(b, fs.fat(), current.0 as int, lk.entry_index as int);
                                assert(slot_named(b, fs.disk(), fs.fat(), current.0 as int, lk.entry_index as int, upper_chars(parts@[k as int]@)));
                            }
                        }
                    }
                    if fs.reliable() && walk_ok(b, fs.disk(), fs.fat(), whole) {
                        let (l2, v2) = choose|l2: Seq<DirEntryLoc>, v2: Seq<FcbView>|
                            #[trigger] walked(b, fs.disk(), fs.fat(), whole, l2, v2) && forall|kk: int|
                                0 <= kk < whole.len() ==> crate::layout::has_chain(b, fs.fat(), (#[trigger] l2[kk]).dir_start.0 as int);
                        assert(l2.take(k as int) == locs && v2.take(k as int) == vs);
                        let t = texts(parts@);
                        assert(whole[k as int] == t[k as int]);
                        assert(t[k as int] == parts@[k as int]@);
                        if k > 0 {
                            assert(v2[k - 1] == v2.take(k as int)[k - 1]);
                        }
                        assert(l2[k as int].dir_start == current);
                        assert(crate::layout::has_chain(b, fs.fat(), l2[k as int].dir_start.0 as int));
                        assert(text_name_ok(whole[k as int]));
                        lemma_name_ok_of_text(name);
                        assert(walks_to(b, fs.disk(), fs.fat(), whole, l2.last(), v2.last()));
                    }
                }
                return Err(e);
            },
        };
        proof {
            let t = texts(parts@);
            let p = t.take(k + 1);
            assert(p.drop_last() =~= t.take(k as int));
            assert(p.last() == parts@[k as int]@);
            let (l2, f2) = found;
            assert(first_named(fs.boot_view(), fs.disk(), fs.fat(), l2, upper_chars(p.last()), f2@));
            assert(l2.dir_start == current);
            let locs2 = locs.push(l2);
            let vs2 = vs.push(f2@);
            assert forall|j: int| 0 <= j < p.len() implies first_named(
                fs.boot_view(),
                fs.disk(),
                fs.fat(),
                #[trigger] locs2[j],
                upper_chars(p[j]),
                vs2[j],
            ) by {
                if j < k {
                    assert(locs2[j] == locs[j] && vs2[j] == vs[j] && p[j] == t.take(k as int)[j]);
                }
            }
            assert forall|j: int| 0 < j < p.len() implies (#[trigger] locs2[j]).dir_start.0 == vs2[j - 1].start_cluster by {
                if j < k {
                    assert(locs2[j] == locs[j] && vs2[j - 1] == vs[j - 1]);
                }
            }
            assert forall|l3: Seq<DirEntryLoc>, v3: Seq<FcbView>|
                #[trigger] walked(b, fs.disk(), fs.fat(), whole, l3, v3) implies l3.take(k + 1) == locs2 && v3.take(k + 1) == vs2 by {
                assert(l3.take(k as int) == locs && v3.take(k as int) == vs);
                assert(whole[k as int] == t[k as int]);
                if k > 0 {
                    assert(v3[k - 1] == v3.take(k as int)[k - 1]);
                }
                assert(first_named(b, fs.disk(), fs.fat(), l3[k as int], upper_chars(whole[k as int]), v3[k as int]));
                law_lookup_finds_created(b, fs.disk(), fs.fat(), l2, l3[k as int], upper_chars(p.last()), f2@, v3[k as int]);
                assert(l3.take(k + 1) =~= locs2);
                assert(v3.take(k + 1) =~= vs2);
            }
            locs = locs2;
            vs = vs2;
            assert(walked(fs.boot_view(), fs.disk(), fs.fat(), p, locs, vs));
        }
        current = found.1.start_cluster;
        last = Some(found);
        k = k + 1;
    }
    Ok(last)
}

/// Resolves the path `raw`, taken from the working directory `cwd`, to the root or to the
/// entry its last part names.
pub fn resolve_target<D: BufferedBlockDevice>(fs: &MyFileSystem<D>, cwd: &str, raw: &str) -> (r: Result<ResolvedTarget, FsError>)
    requires
        fs.wf(),
    ensures
        raw@.len() == 0 ==> r is Err && r->Err_0 is InvalidPath,
        r matches Ok(ResolvedTarget::Root { path }) ==> raw@.len() > 0 && path_parts(joined_path(cwd@, raw@)).len() == 0 && path@
            == seq!['/'],
        r matches Ok(ResolvedTarget::Entry { loc, fcb, path }) ==> {
            let parts = path_parts(joined_path(cwd@, raw@));
            &&& raw@.len() > 0
            &&& path@ == path_text(parts)
            &&& walks_to(fs.boot_view(), fs.disk(), fs.fat(), parts, loc, fcb@)
        },
        raw@.len() > 0 && path_parts(joined_path(cwd@, raw@)).len() == 0 ==> r is Ok,
        fs.reliable() && (r matches Err(FsError::NotFound(_))) ==> !exists|l: DirEntryLoc, w: FcbView|
            #[trigger] walks_to(fs.boot_view(), fs.disk(), fs.fat(), path_parts(joined_path(cwd@, raw@)), l, w),
        fs.reliable() && r is Err ==> (r->Err_0 is InvalidPath && raw@.len() == 0) || r->Err_0 is InvalidName || r->Err_0 is NotFound
            || r->Err_0 is CorruptFs,
        fs.reliable() && raw@.len() > 0 && walk_ok(fs.boot_view(), fs.disk(), fs.fat(), path_parts(joined_path(cwd@, raw@))) ==> r is Ok,
{
    let parts = canonical_parts(cwd, raw)?;
    let path = render_path(&parts);
    if parts.len() == 0 {
        return Ok(ResolvedTarget::Root { path });
    }
    let found = walk_parts(fs, &parts, parts.len());
    proof {
        assert(texts(parts@).take(parts@.len() as int) =~= texts(parts@));
    }
    match found? {
        Some((loc, fcb)) => Ok(ResolvedTarget::Entry { loc, fcb, path }),
        None => Err(FsError::InvalidPath(String::from_str("invalid path"))),
    }
}

/// The directory a new entry at path `raw` goes into, and its name: every part but the last
/// names the directory, the last part is the name.
pub fn resolve_parent_and_name<D: BufferedBlockDevice>(fs: &MyFileSystem<D>, cwd: &str, raw: &str) -> (r: Result<(ClusterId, String), FsError>)
    requires
        fs.wf(),
    ensures
        raw@.len() == 0 ==> r is Err && r->Err_0 is InvalidPath,
        raw@.len() > 0 && path_parts(joined_path(cwd@, raw@)).len() == 0 ==> r is Err && r->Err_0 is InvalidPath,
        r matches Ok((c, name)) ==> {
            let parts = path_parts(joined_path(cwd@, raw@));
            &&& raw@.len() > 0
            &&& parts.len() >= 1
            &&& name@ == parts.last()
            &&& parts.len() == 1 ==> c.0 == ROOT_DIR_START
            &&& parts.len() > 1 ==> exists|l: DirEntryLoc, w: FcbView|
                #[trigger] walks_to(fs.boot_view(), fs.disk(), fs.fat(), parts.drop_last(), l, w) && kind_of_attr(w.attr) == Some(
                    NodeKind::Directory,
                ) && c.0 == w.start_cluster
        },
        fs.reliable() && (r matches Err(FsError::NotFound(_))) ==> !exists|l: DirEntryLoc, w: FcbView|
            #[trigger] walks_to(fs.boot_view(), fs.disk(), fs.fat(), path_parts(joined_path(cwd@, raw@)).drop_last(), l, w),
        fs.reliable() && (r matches Err(FsError::NotADirectory(_))) ==> exists|l: DirEntryLoc, w: FcbView|
            #[trigger] walks_to(fs.boot_view(), fs.disk(), fs.fat(), path_parts(joined_path(cwd@, raw@)).drop_last(), l, w) && kind_of_attr(
                w.attr,
            ) == Some(NodeKind::File),
        fs.reliable() && r is Err ==> (r->Err_0 is InvalidPath && (raw@.len() == 0 || path_parts(joined_path(cwd@, raw@)).len() == 0))
            || r->Err_0 is InvalidName || r->Err_0 is NotFound || r->Err_0 is CorruptFs || r->Err_0 is NotADirectory,
        fs.reliable() && raw@.len() > 0 && path_parts(joined_path(cwd@, raw@)).len() > 0 && walk_ok(
            fs.boot_view(),
            fs.disk(),
            fs.fat(),
            path_parts(joined_path(cwd@, raw@)).drop_last(),
        ) && (forall|l: DirEntryLoc, w: FcbView|
            #[trigger] walks_to(fs.boot_view(), fs.disk(), fs.fat(), path_parts(joined_path(cwd@, raw@)).drop_last(), l, w) ==> kind_of_attr(
                w.attr,
            ) == Some(NodeKind::Directory)) ==> r is Ok,
{
    let parts = canonical_parts(cwd, raw)?;
    let n = parts.len();
    if n == 0 {
        return Err(FsError::InvalidPath(String::from_str("invalid path")));
    }
    let name = parts[n - 1].clone();
    proof {
        let t = texts(parts@);
        assert(t.take(n - 1) =~= t.drop_last());
        assert(t.last() == parts@[n - 1]@);
    }
    match walk_parts(fs, &parts, n - 1)? {
        None => Ok((fs.root_dir_cluster(), name)),
        Some((_, fcb)) => match fcb.kind()? {
            NodeKind::Directory => Ok((fcb.start_cluster, name)),
            NodeKind::File => Err(FsError::NotADirectory(fcb.short_name())),
        },
    }
}

} // verus!
