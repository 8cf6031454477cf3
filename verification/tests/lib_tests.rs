use myfs::fs::root_dir_start_cluster;
use myfs::fs::DEFAULT_BLOCK_SIZE;
use myfs::myfs::MAX_OPEN_FILES;
use myfs::config::get_fat_block_count;
use myfs::BlockId;
use myfs::ChainIter;
use myfs::ClusterId;
use myfs::DirEntry;
use myfs::DirSlot;
use myfs::FatEntry;
use myfs::Fcb;
use myfs::FsConfig;
use myfs::FsError;
use myfs::MemoryBlockDevice;
use myfs::MyFileSystem;
use myfs::NodeKind;

fn mkmemfs() -> MyFileSystem<MemoryBlockDevice> {
    MyFileSystem::<MemoryBlockDevice>::format_memory(FsConfig::default()).expect("filesystem should format")
}

fn read_fat_copy_bytes(fs: &MyFileSystem<MemoryBlockDevice>, copy: usize) -> Vec<u8> {
    let fat_start = usize::from(fs.boot_sector().fat_start_block.0);
    let fat_blocks = usize::from(fs.boot_sector().fat_block_count);
    let mut out = Vec::with_capacity(fat_blocks * usize::from(fs.boot_sector().block_size));
    for block in 0..fat_blocks {
        let block_id = BlockId(u16::try_from(fat_start + copy * fat_blocks + block).unwrap());
        out.extend_from_slice(&fs.read_device_block(block_id).unwrap());
    }
    out
}

fn collect_dir_entries(fs: &MyFileSystem<MemoryBlockDevice>, dir_start: ClusterId) -> Vec<DirEntry> {
    fs.dir_entries(dir_start).unwrap().collect_entries().unwrap()
}

fn chain_of(fs: &MyFileSystem<MemoryBlockDevice>, start: ClusterId) -> Vec<ClusterId> {
    let mut it = ChainIter::new(fs, start).unwrap();
    let mut out = Vec::new();
    while let Some(next) = it.next() {
        out.push(next.unwrap());
    }
    out
}

#[test]
fn lib_parse_dir_slot_recognizes_unused_and_deleted() {
    let unused = [0u8; Fcb::SIZE];
    assert!(matches!(DirSlot::try_from(unused.as_slice()).unwrap(), DirSlot::Unused));

    let mut deleted = [0u8; Fcb::SIZE];
    deleted[0] = DirSlot::SLOT_DELETED;
    assert!(matches!(DirSlot::try_from(deleted.as_slice()).unwrap(), DirSlot::Deleted));
}

#[test]
fn fs_config_validation_rejects_bad_values() {
    assert!(FsConfig { block_size: 8, block_count: 128, blocks_per_cluster: 1 }.validate().is_err());
    assert!(FsConfig { block_size: 128, block_count: 2, blocks_per_cluster: 1 }.validate().is_err());
    assert!(FsConfig { block_size: 16, block_count: 128, blocks_per_cluster: 1 }.validate().is_err());
    assert!(FsConfig { block_size: 128, block_count: 128, blocks_per_cluster: 0 }.validate().is_err());
    assert!(FsConfig { block_size: 128, block_count: 128, blocks_per_cluster: 16 }.validate().is_ok());
    assert!(FsConfig { block_size: 96, block_count: 128, blocks_per_cluster: 1 }.validate().is_err());
    assert!(FsConfig { block_size: 1024, block_count: 128, blocks_per_cluster: 3 }.validate().is_err());
}

#[test]
fn format_writes_boot_and_two_fat_copies() {
    let fs = mkmemfs();
    let boot_block = fs.read_device_block(BlockId(0)).unwrap();
    assert_eq!(u16::from_le_bytes([boot_block[0], boot_block[1]]), DEFAULT_BLOCK_SIZE as u16);

    let fat1 = fs.read_device_block(BlockId(1)).unwrap();
    let fat2 = fs.read_device_block(BlockId(2)).unwrap();
    assert_eq!(fat1, fat2);
    assert_eq!(fs.read_fat(root_dir_start_cluster()).unwrap(), FatEntry::EndOfChain);
    assert_eq!(collect_dir_entries(&fs, fs.root_dir_cluster()).len(), 0);
}

#[test]
fn format_respects_blocks_per_cluster() {
    let fs = MyFileSystem::<MemoryBlockDevice>::format_memory(FsConfig {
        block_size: 128,
        block_count: 256,
        blocks_per_cluster: 4,
    })
    .unwrap();
    assert_eq!(fs.boot_sector().blocks_per_cluster, 4);
    assert_eq!(fs.cluster_size(), 512);
    assert_eq!(fs.cluster_blocks(root_dir_start_cluster()).unwrap().len(), 4);
}

#[test]
fn format_accepts_large_non_default_block_size() {
    let fs = MyFileSystem::<MemoryBlockDevice>::format_memory(FsConfig {
        block_size: 2048,
        block_count: 128,
        blocks_per_cluster: 2,
    })
    .unwrap();
    assert_eq!(fs.boot_sector().block_size, 2048);
    assert_eq!(usize::from(fs.boot_sector().block_size), 2048);
    assert_eq!(fs.cluster_size(), 4096);
}

#[test]
fn format_rejects_cluster_smaller_than_one_fcb() {
    let result = MyFileSystem::<MemoryBlockDevice>::format_memory(FsConfig {
        block_size: 16,
        block_count: 128,
        blocks_per_cluster: 1,
    });
    assert!(matches!(result, Err(FsError::InvalidConfig(_))));
}

#[test]
fn root_directory_chain_grows_like_normal_directory() {
    let mut fs = MyFileSystem::<MemoryBlockDevice>::format_memory(FsConfig {
        block_size: 64,
        block_count: 256,
        blocks_per_cluster: 1,
    })
    .unwrap();
    for idx in 0..4 {
        fs.create_file(fs.root_dir_cluster(), &format!("R{idx}.TXT")).unwrap();
    }
    let chain = chain_of(&fs, fs.root_dir_cluster());
    assert_eq!(chain.len(), 2);
    assert_eq!(chain[0], root_dir_start_cluster());
}

#[test]
fn fat_block_count_computation_does_not_oscillate() {
    assert_eq!(get_fat_block_count(128, 256, 2, 4), 2);
}

#[test]
fn node_oriented_api_resolves_and_stats() {
    let mut fs = mkmemfs();
    let docs_loc = fs.mkdir(fs.root_dir_cluster(), "DOCS").unwrap();
    let docs_node = fs.lookup_node(fs.root_node(), "DOCS").unwrap();
    let docs_meta = fs.stat_node(docs_node).unwrap();
    assert_eq!(docs_meta.loc, Some(docs_loc));
    assert_eq!(docs_meta.short_name, "DOCS");
    assert_eq!(docs_meta.kind, NodeKind::Directory);

    let readme_loc = fs.create_file(docs_meta.start_cluster, "README.TXT").unwrap();
    let readme_node = fs.lookup_node(docs_node, "README.TXT").unwrap();
    let readme_meta = fs.stat_node(readme_node).unwrap();
    assert_eq!(readme_meta.loc, Some(readme_loc));
    assert_eq!(readme_meta.short_name, "README.TXT");

    let entries = fs.dir_entries_node(docs_node).unwrap().collect_entries().unwrap();
    assert_eq!(entries.len(), 1);
    assert_eq!(entries[0].node_id, readme_node);

    let handle = fs.open_node(readme_node).unwrap();
    fs.close(handle).unwrap();
}

#[test]
fn packed_fcb_slots_can_cross_block_boundaries() {
    let mut fs = MyFileSystem::<MemoryBlockDevice>::format_memory(FsConfig {
        block_size: 64,
        block_count: 256,
        blocks_per_cluster: 2,
    })
    .unwrap();

    let a = fs.create_file(fs.root_dir_cluster(), "A.TXT").unwrap();
    let b = fs.create_file(fs.root_dir_cluster(), "B.TXT").unwrap();
    let c = fs.create_file(fs.root_dir_cluster(), "C.TXT").unwrap();
    let d = fs.create_file(fs.root_dir_cluster(), "D.TXT").unwrap();

    assert_eq!(a.entry_index, 0);
    assert_eq!(b.entry_index, 1);
    assert_eq!(c.entry_index, 2);
    assert_eq!(d.entry_index, 3);

    assert_eq!(fs.read_fcb_at(d).unwrap().short_name(), "D.TXT");
    let names = collect_dir_entries(&fs, fs.root_dir_cluster())
        .into_iter()
        .map(|entry| entry.short_name)
        .collect::<Vec<_>>();
    assert_eq!(names, vec!["A.TXT", "B.TXT", "C.TXT", "D.TXT"]);
}

#[test]
fn io_works_with_multi_block_clusters() {
    let mut fs = MyFileSystem::<MemoryBlockDevice>::format_memory(FsConfig {
        block_size: 128,
        block_count: 256,
        blocks_per_cluster: 4,
    })
    .unwrap();

    let file_loc = fs.create_file(fs.root_dir_cluster(), "DATA.BIN").unwrap();
    let handle = fs.open(file_loc).unwrap();
    let payload = vec![0xCD; fs.cluster_size() + 37];
    assert_eq!(fs.write(handle, &payload).unwrap(), payload.len());
    fs.seek(handle, 0).unwrap();
    assert_eq!(fs.read(handle, payload.len()).unwrap(), payload);
}

#[test]
fn io_works_with_large_blocks_and_clusters() {
    let mut fs = MyFileSystem::<MemoryBlockDevice>::format_memory(FsConfig {
        block_size: 2048,
        block_count: 128,
        blocks_per_cluster: 8,
    })
    .unwrap();

    let file_loc = fs.create_file(fs.root_dir_cluster(), "BIG.BIN").unwrap();
    let handle = fs.open(file_loc).unwrap();
    let payload = vec![0x5A; fs.cluster_size() * 2 + 11];
    assert_eq!(fs.write(handle, &payload).unwrap(), payload.len());
    fs.seek(handle, 0).unwrap();
    assert_eq!(fs.read(handle, payload.len()).unwrap(), payload);
}

#[test]
fn fat_copies_stay_in_sync_after_mutations() {
    let mut fs = mkmemfs();
    let file_loc = fs.create_file(fs.root_dir_cluster(), "SYNC.BIN").unwrap();
    let handle = fs.open(file_loc).unwrap();
    let payload = vec![0xEF; DEFAULT_BLOCK_SIZE + 99];
    fs.write(handle, &payload).unwrap();
    fs.close(handle).unwrap();
    fs.remove_file(file_loc).unwrap();
    fs.sync().unwrap();

    assert_eq!(read_fat_copy_bytes(&fs, 0), read_fat_copy_bytes(&fs, 1));
}

#[test]
fn fat_cache_defers_disk_updates_until_sync() {
    let mut fs = mkmemfs();
    let fat1_before = read_fat_copy_bytes(&fs, 0);
    let fat2_before = read_fat_copy_bytes(&fs, 1);

    let file_loc = fs.create_file(fs.root_dir_cluster(), "CACHE.BIN").unwrap();
    let handle = fs.open(file_loc).unwrap();
    fs.write(handle, &[0xAA; 32]).unwrap();
    fs.close(handle).unwrap();

    assert!(fs.fat_dirty());
    assert_ne!(fs.read_fat(fs.read_fcb_at(file_loc).unwrap().start_cluster).unwrap(), FatEntry::Free);
    assert_eq!(read_fat_copy_bytes(&fs, 0), fat1_before);
    assert_eq!(read_fat_copy_bytes(&fs, 1), fat2_before);

    fs.sync().unwrap();

    assert!(!fs.fat_dirty());
    assert_eq!(read_fat_copy_bytes(&fs, 0), read_fat_copy_bytes(&fs, 1));
    assert_ne!(read_fat_copy_bytes(&fs, 0), fat1_before);
}

#[test]
fn creates_lists_and_removes_directories() {
    let mut fs = mkmemfs();
    let docs_loc = fs.mkdir(fs.root_dir_cluster(), "DOCS").unwrap();
    let docs_cluster = fs.read_fcb_at(docs_loc).unwrap().start_cluster;
    let readme_loc = fs.create_file(docs_cluster, "README.TXT").unwrap();

    let root = collect_dir_entries(&fs, fs.root_dir_cluster());
    assert_eq!(root.len(), 1);
    assert_eq!(root[0].short_name, "DOCS");
    assert_eq!(root[0].kind, NodeKind::Directory);
    assert_eq!(root[0].loc, docs_loc);

    let docs = collect_dir_entries(&fs, docs_cluster);
    assert_eq!(docs.len(), 1);
    assert_eq!(docs[0].short_name, "README.TXT");
    assert_eq!(docs[0].loc, readme_loc);

    assert!(matches!(fs.rmdir(docs_loc), Err(FsError::DirectoryNotEmpty(_))));

    fs.remove_file(readme_loc).unwrap();
    fs.rmdir(docs_loc).unwrap();
    assert!(collect_dir_entries(&fs, fs.root_dir_cluster()).is_empty());
}

#[test]
fn writes_reads_and_seeks_across_clusters() {
    let mut fs = mkmemfs();
    let file_loc = fs.create_file(fs.root_dir_cluster(), "DATA.BIN").unwrap();
    let handle = fs.open(file_loc).unwrap();
    let payload = [0xAB; DEFAULT_BLOCK_SIZE + 200];
    let written = fs.write(handle, &payload).unwrap();
    assert_eq!(written, payload.len());
    fs.seek(handle, 0).unwrap();
    let read_back = fs.read(handle, payload.len()).unwrap();
    assert_eq!(read_back, payload);
    fs.close(handle).unwrap();

    let stat = fs.stat(file_loc).unwrap();
    assert_eq!(stat.size, payload.len() as u32);
    assert_ne!(stat.start_cluster, ClusterId::free());
    let start = fs.read_fcb_at(file_loc).unwrap().start_cluster;
    assert_eq!(chain_of(&fs, start).len(), 2);
}

#[test]
fn supports_lookup_and_root_stat_from_disk() {
    let mut fs = mkmemfs();
    let docs_loc = fs.mkdir(fs.root_dir_cluster(), "DOCS").unwrap();
    let docs_fcb = fs.read_fcb_at(docs_loc).unwrap();
    let readme_loc = fs.create_file(docs_fcb.start_cluster, "A.TXT").unwrap();

    let root_meta = fs.stat_root().unwrap();
    assert_eq!(root_meta.kind, NodeKind::Directory);
    assert_eq!(root_meta.start_cluster, root_dir_start_cluster());

    let (found_docs, _) = fs.lookup(fs.root_dir_cluster(), "DOCS").unwrap();
    let (found_readme, _) = fs.lookup(docs_fcb.start_cluster, "A.TXT").unwrap();
    assert_eq!(found_docs, docs_loc);
    assert_eq!(found_readme, readme_loc);
}

#[test]
fn enforces_open_file_rules() {
    let mut fs = mkmemfs();
    let file_loc = fs.create_file(fs.root_dir_cluster(), "ONE.TXT").unwrap();
    let handle = fs.open(file_loc).unwrap();
    assert!(matches!(fs.open(file_loc), Err(FsError::AlreadyOpen(_))));
    assert!(matches!(fs.remove_file(file_loc), Err(FsError::FileOpen(_))));
    fs.close(handle).unwrap();
    fs.remove_file(file_loc).unwrap();

    for idx in 0..MAX_OPEN_FILES {
        let loc = fs.create_file(fs.root_dir_cluster(), &format!("F{idx}.TXT")).unwrap();
        fs.open(loc).unwrap();
    }
    let last_loc = fs.create_file(fs.root_dir_cluster(), "LAST.TXT").unwrap();
    assert!(matches!(fs.open(last_loc), Err(FsError::TooManyOpenFiles)));
}
