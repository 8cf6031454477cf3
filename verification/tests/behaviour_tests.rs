use chrono::Datelike;
use chrono::Timelike;
use myfs::error::NodeTarget;
use myfs::paths::canonicalize_path;
use myfs::paths::resolve_parent_and_name;
use myfs::paths::resolve_target;
use myfs::paths::ResolvedTarget;
use myfs::fs::root_dir_start_cluster;
use myfs::ClusterId;
use myfs::DirEntryLoc;
use myfs::FatEntry;
use myfs::FsConfig;
use myfs::FsError;
use myfs::MemoryBlockDevice;
use myfs::MyFileSystem;
use myfs::NodeId;
use myfs::NodeKind;
use myfs::U16Date;
use myfs::U16Time;
use myfs::UtcDateTime;

fn mkmemfs() -> MyFileSystem<MemoryBlockDevice> {
    MyFileSystem::<MemoryBlockDevice>::format_memory(FsConfig::default()).unwrap()
}

#[test]
fn written_bytes_read_back_at_any_offset() {
    let mut fs = mkmemfs();
    let loc = fs.create_file(fs.root_dir_cluster(), "F.BIN").unwrap();
    let first: Vec<u8> = (0..1500u32).map(|i| (i % 251) as u8).collect();
    assert_eq!(fs.write_file_at(loc, 0, &first).unwrap(), first.len());
    let patch = vec![7u8; 300];
    assert_eq!(fs.write_file_at(loc, 900, &patch).unwrap(), 300);
    assert_eq!(fs.read_file_at(loc, 900, 300).unwrap(), patch);
    assert_eq!(fs.read_file_at(loc, 0, 900).unwrap(), first[..900].to_vec());
    assert_eq!(fs.read_file_at(loc, 1200, 1000).unwrap(), first[1200..].to_vec());
    assert_eq!(fs.read_file_at(loc, 5000, 10).unwrap(), Vec::<u8>::new());
}

#[test]
fn writing_past_the_end_fills_the_gap_with_zeros() {
    let mut fs = mkmemfs();
    let loc = fs.create_file(fs.root_dir_cluster(), "GAP.BIN").unwrap();
    fs.write_file_at(loc, 2000, &[1, 2, 3]).unwrap();
    assert_eq!(fs.stat(loc).unwrap().size, 2003);
    let all = fs.read_file_at(loc, 0, 3000).unwrap();
    assert_eq!(all.len(), 2003);
    assert!(all[..2000].iter().all(|b| *b == 0));
    assert_eq!(&all[2000..], &[1, 2, 3]);
}

#[test]
fn duplicate_names_are_refused_with_message() {
    let mut fs = mkmemfs();
    fs.create_file(fs.root_dir_cluster(), "a.txt").unwrap();
    match fs.create_file(fs.root_dir_cluster(), "A.TXT") {
        Err(FsError::InvalidPath(msg)) => assert_eq!(msg, "A.TXT already exists"),
        other => panic!("unexpected {other:?}"),
    }
    match fs.mkdir(fs.root_dir_cluster(), "a.TXT") {
        Err(FsError::InvalidPath(msg)) => assert_eq!(msg, "A.TXT already exists"),
        other => panic!("unexpected {other:?}"),
    }
    assert!(matches!(fs.create_file(fs.root_dir_cluster(), "bad-name"), Err(FsError::InvalidName(n)) if n == "bad-name"));
}

#[test]
fn lookup_reports_missing_names_with_their_path() {
    let fs = mkmemfs();
    match fs.lookup(fs.root_dir_cluster(), "nope.txt") {
        Err(FsError::NotFound(msg)) => assert_eq!(msg, "2/NOPE.TXT"),
        other => panic!("unexpected {other:?}"),
    }
}

#[test]
fn wrong_kinds_are_refused_and_leave_entries() {
    let mut fs = mkmemfs();
    let dir = fs.mkdir(fs.root_dir_cluster(), "DOCS").unwrap();
    let file = fs.create_file(fs.root_dir_cluster(), "A.TXT").unwrap();
    assert!(matches!(fs.remove_file(dir), Err(FsError::IsADirectory(n)) if n == "DOCS"));
    assert!(matches!(fs.rmdir(file), Err(FsError::NotADirectory(n)) if n == "A.TXT"));
    assert!(matches!(fs.open(dir), Err(FsError::IsADirectory(n)) if n == "DOCS"));
    assert!(fs.lookup(fs.root_dir_cluster(), "DOCS").is_ok());
    assert!(fs.lookup(fs.root_dir_cluster(), "A.TXT").is_ok());
    let file_node = NodeId::from(file);
    assert!(matches!(fs.lookup_node(file_node, "X"), Err(FsError::NotADirectory(n)) if n == "A.TXT"));
}

#[test]
fn empty_slots_are_not_found() {
    let fs = mkmemfs();
    let loc = DirEntryLoc { dir_start: root_dir_start_cluster(), entry_index: 5 };
    assert!(matches!(fs.stat(loc), Err(FsError::NotFoundAt(l)) if l == loc));
    assert!(matches!(fs.read_fcb_at(loc), Err(FsError::NotFoundAt(_))));
}

#[test]
fn removed_files_free_their_clusters_and_slots_are_reused() {
    let mut fs = mkmemfs();
    let a = fs.create_file(fs.root_dir_cluster(), "A.BIN").unwrap();
    fs.write_file_at(a, 0, &[9u8; 3000]).unwrap();
    let start = fs.read_fcb_at(a).unwrap().start_cluster;
    assert_eq!(start, ClusterId(3));
    fs.remove_file(a).unwrap();
    assert_eq!(fs.read_fat(start).unwrap(), FatEntry::Free);
    assert!(fs.lookup(fs.root_dir_cluster(), "A.BIN").is_err());
    let b = fs.create_file(fs.root_dir_cluster(), "B.BIN").unwrap();
    assert_eq!(b.entry_index, a.entry_index);
}

#[test]
fn mkdir_takes_the_lowest_free_cluster_and_starts_empty() {
    let mut fs = mkmemfs();
    let d = fs.mkdir(fs.root_dir_cluster(), "D1").unwrap();
    let meta = fs.stat(d).unwrap();
    assert_eq!(meta.start_cluster, ClusterId(3));
    assert_eq!(meta.size, 0);
    assert_eq!(fs.read_fat(ClusterId(3)).unwrap(), FatEntry::EndOfChain);
    assert!(fs.dir_entries(meta.start_cluster).unwrap().collect_entries().unwrap().is_empty());
    assert_eq!(fs.stat_root().unwrap().size, 24);
}

#[test]
fn set_mtime_restamps_entry_and_open_files() {
    let mut fs = mkmemfs();
    let loc = fs.create_file(fs.root_dir_cluster(), "T.TXT").unwrap();
    let h = fs.open(loc).unwrap();
    let t = UtcDateTime { year: 2030, month: 12, day: 31, hour: 23, minute: 59, second: 59 };
    fs.set_mtime(loc, t).unwrap();
    let meta = fs.stat(loc).unwrap();
    assert_eq!(meta.mdate, U16Date::from_ymd(2030, 12, 31).unwrap());
    assert_eq!(meta.mtime, U16Time::from_hms(23, 59, 58));
    let open = fs.open_files();
    assert_eq!(open.len(), 1);
    assert_eq!(open[0].handle, h);
    assert_eq!(open[0].fcb.mdate, meta.mdate);
    let bad = UtcDateTime { year: 1900, ..t };
    assert!(matches!(fs.set_mtime(loc, bad), Err(FsError::InvalidConfig(_))));
    assert_eq!(fs.stat(loc).unwrap().mdate, meta.mdate);
}

#[test]
fn root_node_is_a_directory_without_entry() {
    let mut fs = mkmemfs();
    assert_eq!(fs.root_node(), NodeId::root());
    assert!(matches!(fs.open_node(fs.root_node()), Err(FsError::IsADirectory(n)) if n == "/"));
    let meta = fs.stat_node(fs.root_node()).unwrap();
    assert_eq!(meta.short_name, "/");
    assert_eq!(meta.loc, None);
    assert_eq!(meta.mtime, U16Time::empty());
    assert_eq!(meta.mdate, U16Date::empty());
}

#[test]
fn node_numbers_pack_the_entry_location() {
    let loc = DirEntryLoc { dir_start: ClusterId(5), entry_index: 7 };
    let node = NodeId::from(loc);
    assert_eq!(u64::from(node), (5u64 << 32) | 7);
    assert_eq!(DirEntryLoc::try_from(node).unwrap(), loc);
    assert!(DirEntryLoc::try_from(NodeId::root()).is_err());
    assert!(matches!(node.target(), NodeTarget::Leaf(l) if l == loc));
    assert!(matches!(NodeId::root().target(), NodeTarget::Root));
}

#[test]
fn display_fat_lists_every_data_cluster() {
    let mut fs = MyFileSystem::<MemoryBlockDevice>::format_memory(FsConfig {
        block_size: 128,
        block_count: 8,
        blocks_per_cluster: 1,
    })
    .unwrap();
    let text = fs.display_fat();
    let lines: Vec<&str> = text.lines().collect();
    assert_eq!(lines[0], "2\t->\tEOC");
    assert!(lines[1..].iter().all(|l| l.ends_with("\t->\tFREE")));
    let loc = fs.create_file(fs.root_dir_cluster(), "X").unwrap();
    fs.write_file_at(loc, 0, &[1u8; 200]).unwrap();
    let text = fs.display_fat();
    assert!(text.starts_with("2\t->\tEOC\n3\t->\t4\n4\t->\tEOC\n5\t->\tFREE\n"));
}

#[test]
fn handles_reject_bad_seeks_and_unknown_handles() {
    let mut fs = mkmemfs();
    let loc = fs.create_file(fs.root_dir_cluster(), "S.BIN").unwrap();
    let h = fs.open(loc).unwrap();
    fs.write(h, &[1, 2, 3, 4]).unwrap();
    assert!(matches!(fs.seek(h, 5), Err(FsError::SeekOutOfBounds(5))));
    fs.seek(h, 2).unwrap();
    assert_eq!(fs.read(h, 10).unwrap(), vec![3, 4]);
    fs.close(h).unwrap();
    assert!(matches!(fs.close(h), Err(FsError::InvalidHandle(_))));
    assert!(matches!(fs.read(h, 1), Err(FsError::InvalidHandle(_))));
    assert_eq!(fs.find_open_handle(loc), None);
}

#[test]
fn sync_writes_identical_fat_copies_once() {
    let mut fs = mkmemfs();
    let loc = fs.create_file(fs.root_dir_cluster(), "A").unwrap();
    fs.write_file_at(loc, 0, &[5u8; 10]).unwrap();
    assert!(fs.fat_dirty());
    fs.sync().unwrap();
    assert!(!fs.fat_dirty());
    let b1 = fs.read_device_block(myfs::BlockId(1)).unwrap();
    let b2 = fs.read_device_block(myfs::BlockId(2)).unwrap();
    assert_eq!(b1, b2);
    // entry for cluster 3 is end-of-chain (0xFFFF), little endian at offset 6
    assert_eq!(&b1[4..8], &[0xFF, 0xFF, 0xFF, 0xFF]);
    fs.sync().unwrap();
    assert_eq!(fs.read_device_block(myfs::BlockId(1)).unwrap(), b1);
}

#[test]
fn dir_entry_reports_kind_size_and_node() {
    let mut fs = mkmemfs();
    let d = fs.mkdir(fs.root_dir_cluster(), "SUB").unwrap();
    let f = fs.create_file(fs.root_dir_cluster(), "F.TXT").unwrap();
    fs.write_file_at(f, 0, b"hello").unwrap();
    let sub = fs.read_fcb_at(d).unwrap().start_cluster;
    fs.create_file(sub, "IN.TXT").unwrap();
    let entries = fs.dir_entries(fs.root_dir_cluster()).unwrap().collect_entries().unwrap();
    assert_eq!(entries.len(), 2);
    assert_eq!(entries[0].kind, NodeKind::Directory);
    assert_eq!(entries[0].size, 24);
    assert_eq!(entries[0].node_id, NodeId::from(d));
    assert_eq!(entries[1].kind, NodeKind::File);
    assert_eq!(entries[1].size, 5);
    assert_eq!(entries[1].start_cluster, fs.read_fcb_at(f).unwrap().start_cluster);
}

#[test]
fn paths_are_joined_folded_and_upper_cased() {
    assert_eq!(canonicalize_path("/", "docs/a.txt").unwrap(), "/DOCS/A.TXT");
    assert_eq!(canonicalize_path("/DOCS", "../x/./y").unwrap(), "/X/Y");
    assert_eq!(canonicalize_path("/DOCS", "/abs//b/").unwrap(), "/ABS/B");
    assert_eq!(canonicalize_path("/A/B", "../..").unwrap(), "/");
    assert_eq!(canonicalize_path("/", "..").unwrap(), "/");
    assert!(matches!(canonicalize_path("/", ""), Err(FsError::InvalidPath(_))));
}

#[test]
fn paths_resolve_through_directories() {
    let mut fs = mkmemfs();
    let docs = fs.mkdir(fs.root_dir_cluster(), "DOCS").unwrap();
    let docs_cluster = fs.read_fcb_at(docs).unwrap().start_cluster;
    let readme = fs.create_file(docs_cluster, "README.TXT").unwrap();
    match resolve_target(&fs, "/DOCS", "readme.txt").unwrap() {
        ResolvedTarget::Entry { loc, path, .. } => {
            assert_eq!(loc, readme);
            assert_eq!(path, "/DOCS/README.TXT");
        }
        other => panic!("unexpected {other:?}"),
    }
    assert!(matches!(resolve_target(&fs, "/DOCS", "..").unwrap(), ResolvedTarget::Root { path } if path == "/"));
    assert!(matches!(resolve_target(&fs, "/", "nope"), Err(FsError::NotFound(_))));
    let (parent, name) = resolve_parent_and_name(&fs, "/", "docs/new.txt").unwrap();
    assert_eq!(parent, docs_cluster);
    assert_eq!(name, "NEW.TXT");
    let (parent, name) = resolve_parent_and_name(&fs, "/DOCS", "../top").unwrap();
    assert_eq!(parent, fs.root_dir_cluster());
    assert_eq!(name, "TOP");
    assert!(matches!(resolve_parent_and_name(&fs, "/", "/"), Err(FsError::InvalidPath(_))));
    assert!(matches!(
        resolve_parent_and_name(&fs, "/", "docs/readme.txt/x"),
        Err(FsError::NotADirectory(n)) if n == "README.TXT"
    ));
    let target = resolve_target(&fs, "/", "docs").unwrap();
    assert_eq!(target.loc(), Some(docs));
    assert_eq!(target.as_dir_cluster().unwrap(), docs_cluster);
}

#[test]
fn parents_and_dot_names_are_found_by_node() {
    let mut fs = mkmemfs();
    let docs = fs.mkdir(fs.root_dir_cluster(), "DOCS").unwrap();
    let docs_cluster = fs.read_fcb_at(docs).unwrap().start_cluster;
    let sub = fs.mkdir(docs_cluster, "SUB").unwrap();
    let sub_node = NodeId::from(sub);
    let docs_node = NodeId::from(docs);
    assert_eq!(fs.parent_of(sub_node).unwrap(), docs_node);
    assert_eq!(fs.parent_of(docs_node).unwrap(), NodeId::root());
    assert_eq!(fs.parent_of(NodeId::root()).unwrap(), NodeId::root());
    let missing = NodeId::from(DirEntryLoc { dir_start: ClusterId(2), entry_index: 9 });
    match fs.parent_of(missing) {
        Err(FsError::CorruptFs(msg)) => assert_eq!(msg, "cannot find parent directory for 200000009"),
        other => panic!("unexpected {other:?}"),
    }
    assert_eq!(fs.lookup_meta(sub_node, "..").unwrap().node_id, docs_node);
    assert_eq!(fs.lookup_meta(sub_node, ".").unwrap().node_id, sub_node);
    assert_eq!(fs.lookup_meta(docs_node, "sub").unwrap().loc, Some(sub));
    assert_eq!(fs.node_dir_cluster(NodeId::root()).unwrap(), fs.root_dir_cluster());
    let f = fs.create_file(fs.root_dir_cluster(), "F").unwrap();
    assert!(matches!(fs.node_dir_cluster(NodeId::from(f)), Err(FsError::NotADirectory(_))));
}

#[test]
fn stamps_unpack_to_their_calendar_fields() {
    let date = U16Date::from_ymd(2031, 7, 9).unwrap();
    let nd = chrono::NaiveDate::try_from(date).unwrap();
    assert_eq!((nd.year(), nd.month(), nd.day()), (2031, 7, 9));
    assert_eq!(U16Date::try_from(nd).unwrap(), date);
    let time = U16Time::from_hms(13, 45, 20);
    let nt = chrono::NaiveTime::try_from(time).unwrap();
    assert_eq!((nt.hour(), nt.minute(), nt.second()), (13, 45, 20));
    assert_eq!(U16Time::try_from(nt).unwrap(), time);
    let mut fs = mkmemfs();
    let loc = fs.create_file(fs.root_dir_cluster(), "S.TXT").unwrap();
    let t = UtcDateTime { year: 2031, month: 7, day: 9, hour: 13, minute: 45, second: 21 };
    fs.set_mtime(loc, t).unwrap();
    let entries = fs.dir_entries(fs.root_dir_cluster()).unwrap().collect_entries().unwrap();
    let expected = chrono::NaiveDate::from_ymd_opt(2031, 7, 9)
        .unwrap()
        .and_hms_opt(13, 45, 20)
        .unwrap();
    assert_eq!(entries[0].mdatetime, expected);
}

#[test]
fn new_directories_hold_no_entries_and_are_found_by_name() {
    let mut fs = mkmemfs();
    let root = fs.root_dir_cluster();
    for k in 0..40 {
        fs.create_file(root, &format!("F{k}")).unwrap();
    }
    let d = fs.mkdir(root, "NEWDIR").unwrap();
    let (found, fcb) = fs.lookup(root, "newdir").unwrap();
    assert_eq!(found, d);
    assert_eq!(fcb.kind().unwrap(), NodeKind::Directory);
    assert!(fs.dir_entries(fcb.start_cluster).unwrap().collect_entries().unwrap().is_empty());
    assert!(matches!(resolve_target(&fs, "/", "nothing/x"), Err(FsError::NotFound(_))));
    assert!(matches!(resolve_target(&fs, "/", "newdir/x"), Err(FsError::NotFound(_))));
    fs.rmdir(d).unwrap();
    assert!(matches!(fs.lookup(root, "newdir"), Err(FsError::NotFound(_))));
    assert_eq!(fs.read_fat(fcb.start_cluster).unwrap(), FatEntry::Free);
}

#[test]
fn values_are_shown_as_text() {
    assert_eq!(FatEntry::Free.to_text(), "FREE");
    assert_eq!(FatEntry::EndOfChain.to_text(), "EOC");
    assert_eq!(FatEntry::Next(ClusterId(4711)).to_text(), "4711");
    assert_eq!(myfs::FileHandle(0).to_text(), "0");
    assert_eq!(myfs::FileHandle(4294967295).to_text(), "4294967295");
    let loc = DirEntryLoc { dir_start: ClusterId(12), entry_index: 305 };
    assert_eq!(loc.to_text(), "12:305");
    assert_eq!(NodeId::root().to_text(), "<root>");
    assert_eq!(NodeId::from(loc).to_text(), "c00000131");
}

#[test]
fn changing_directory_accepts_directories_only() {
    let mut fs = mkmemfs();
    let docs = fs.mkdir(fs.root_dir_cluster(), "DOCS").unwrap();
    let docs_cluster = fs.read_fcb_at(docs).unwrap().start_cluster;
    fs.create_file(fs.root_dir_cluster(), "F.TXT").unwrap();
    let (c, p) = resolve_target(&fs, "/DOCS", "..").unwrap().into_cwd().unwrap().unwrap();
    assert_eq!(c, fs.root_dir_cluster());
    assert_eq!(p, "/");
    let (c, p) = resolve_target(&fs, "/", "docs").unwrap().into_cwd().unwrap().unwrap();
    assert_eq!(c, docs_cluster);
    assert_eq!(p, "/DOCS");
    assert!(resolve_target(&fs, "/", "f.txt").unwrap().into_cwd().unwrap().is_none());
}

#[test]
fn reads_of_nothing_and_writes_to_open_files_succeed() {
    let mut fs = mkmemfs();
    let loc = fs.create_file(fs.root_dir_cluster(), "E.BIN").unwrap();
    let h = fs.open(loc).unwrap();
    assert_eq!(fs.read(h, 0).unwrap(), Vec::<u8>::new());
    assert_eq!(fs.read(h, 10).unwrap(), Vec::<u8>::new());
    assert_eq!(fs.write(h, &[1, 2, 3]).unwrap(), 3);
    fs.seek(h, 0).unwrap();
    assert_eq!(fs.read(h, 10).unwrap(), vec![1, 2, 3]);
    let d = fs.mkdir(fs.root_dir_cluster(), "D").unwrap();
    assert!(matches!(fs.read_file_at(d, 0, 1), Err(FsError::IsADirectory(n)) if n == "D"));
}

#[test]
fn synced_blocks_hold_the_boot_sector_and_fat_that_mounting_reads() {
    let mut fs = mkmemfs();
    let loc = fs.create_file(fs.root_dir_cluster(), "P.BIN").unwrap();
    fs.write_file_at(loc, 0, &vec![9u8; 1500]).unwrap();
    fs.sync().unwrap();
    let block0 = fs.read_device_block(myfs::BlockId(0)).unwrap();
    assert_eq!(myfs::BootSector::read_from_prefix(&block0).unwrap(), *fs.boot_sector());
    let fat_block = fs.read_device_block(myfs::BlockId(1)).unwrap();
    for c in 2..16u16 {
        let i = 2 * c as usize;
        let raw = u16::from_le_bytes([fat_block[i], fat_block[i + 1]]);
        assert_eq!(FatEntry::from_raw(raw), fs.read_fat(ClusterId(c)).unwrap());
    }
    assert_eq!(fs.read_fat(ClusterId(3)).unwrap(), FatEntry::Next(ClusterId(4)));
    assert_eq!(fs.read_fat(ClusterId(4)).unwrap(), FatEntry::EndOfChain);
}

#[test]
fn a_file_is_open_once_and_a_closed_handle_is_released() {
    let mut fs = mkmemfs();
    let loc = fs.create_file(fs.root_dir_cluster(), "O.BIN").unwrap();
    let h1 = fs.open(loc).unwrap();
    assert!(matches!(fs.open(loc), Err(FsError::AlreadyOpen(l)) if l == loc));
    assert_eq!(fs.open_files().len(), 1);
    fs.close(h1).unwrap();
    assert_eq!(fs.find_open_handle(loc), None);
    assert!(matches!(fs.close(h1), Err(FsError::InvalidHandle(h)) if h == h1));
    let h2 = fs.open(loc).unwrap();
    assert_ne!(h1, h2);
    assert_eq!(fs.find_open_handle(loc), Some(h2));
}

fn invalid_config_message(r: Result<(), FsError>) -> String {
    match r {
        Err(FsError::InvalidConfig(m)) => m,
        other => panic!("expected InvalidConfig, got {:?}", other),
    }
}

#[test]
fn configuration_refusals_name_the_offending_values() {
    let msg = |bs: u16, bc: u16, bpc: u16| {
        invalid_config_message(FsConfig { block_size: bs, block_count: bc, blocks_per_cluster: bpc }.validate())
    };
    assert_eq!(msg(0, 128, 1), "block size must be at least 1");
    assert_eq!(msg(96, 128, 1), "block size 96 is not a power of 2");
    assert_eq!(msg(8, 128, 1), "boot sector does not fit in block size 8");
    assert_eq!(msg(128, 128, 0), "blocks per cluster must be at least 1");
    assert_eq!(msg(1024, 128, 3), "blocks per cluster 3 is not a power of 2");
    assert_eq!(msg(16, 128, 1), "cluster size 16 smaller than directory entry size 24");
    assert_eq!(msg(128, 2, 1), "block count 2 is too small for geometry");
}

#[test]
fn corrupt_records_are_reported_with_their_raw_values() {
    assert!(matches!(
        NodeKind::from_attr(myfs::FcbAttr(0x7f)),
        Err(FsError::CorruptFs(m)) if m == "unknown attr byte: 0x7f"
    ));
    assert!(matches!(
        U16Date(0x001f).to_naive_date(),
        Err(FsError::CorruptFs(m)) if m == "invalid FAT date: 0x001f"
    ));
    assert!(matches!(
        U16Time(0xffff).to_naive_time(),
        Err(FsError::CorruptFs(m)) if m == "invalid FAT time: 0xffff"
    ));
    let fs = mkmemfs();
    assert!(matches!(
        fs.read_fat(ClusterId(1)),
        Err(FsError::CorruptFs(m)) if m == "cluster 1 outside data region"
    ));
}

#[test]
fn nested_directories_grow_and_shrink() {
    let mut fs = mkmemfs();
    let root = fs.root_dir_cluster();
    let d = fs.mkdir(root, "SUB").unwrap();
    let sub = fs.stat(d).unwrap().start_cluster;
    let inner = fs.mkdir(sub, "INNER").unwrap();
    let f = fs.create_file(sub, "F.TXT").unwrap();
    assert_eq!(fs.write_file_at(f, 0, &[7u8; 3000]).unwrap(), 3000);
    let start = fs.stat(f).unwrap().start_cluster;
    fs.remove_file(f).unwrap();
    assert_eq!(fs.read_fat(start).unwrap(), FatEntry::Free);
    assert_eq!(fs.read_cluster_bytes(start).unwrap(), vec![0u8; fs.cluster_size()]);
    assert!(matches!(fs.lookup(sub, "F.TXT"), Err(FsError::NotFound(_))));
    fs.rmdir(inner).unwrap();
    assert!(matches!(fs.lookup(sub, "INNER"), Err(FsError::NotFound(_))));
    assert!(fs.lookup(root, "SUB").is_ok());
}

#[test]
fn a_full_disk_still_takes_entries_in_free_slots() {
    let mut fs = mkmemfs();
    let root = fs.root_dir_cluster();
    let big = fs.create_file(root, "BIG").unwrap();
    let cs = fs.cluster_size();
    assert!(matches!(fs.write_file_at(big, 0, &vec![1u8; cs * 200]), Err(FsError::NoSpace)));
    assert!(matches!(fs.mkdir(root, "D"), Err(FsError::NoSpace)));
    let small = fs.create_file(root, "SMALL").unwrap();
    assert_eq!(small.dir_start, root);
    assert_eq!(fs.stat(small).unwrap().size, 0);
}
