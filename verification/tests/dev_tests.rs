use myfs::dev::BufferedBlockDevice;
use myfs::dev::PhysicalBlockDevice;
use myfs::BlockId;
use myfs::LogicalBlockDevice;
use myfs::MemoryBackend;
use myfs::PhysicalBlockId;

#[test]
fn memory_backend_supports_physical_buffer_io() {
    let mut dev = MemoryBackend::new(4, 3);
    dev.write_physical_block(PhysicalBlockId(1), &[9, 8, 7, 6]).unwrap();

    let mut out = [0u8; 4];
    dev.read_physical_block(PhysicalBlockId(1), &mut out).unwrap();
    assert_eq!(out, [9, 8, 7, 6]);

    dev.zero_physical_block(PhysicalBlockId(1)).unwrap();
    dev.read_physical_block(PhysicalBlockId(1), &mut out).unwrap();
    assert_eq!(out, [0, 0, 0, 0]);
}

#[test]
fn logical_block_device_reads_and_writes_multiple_physical_blocks() {
    let inner = MemoryBackend::new(4, 8);
    let mut dev = LogicalBlockDevice::new(inner, 8).unwrap();
    assert_eq!(dev.block_size(), 8);
    assert_eq!(dev.block_count(), 4);

    dev.write_block_from(BlockId(1), &[1, 2, 3, 4, 5, 6, 7, 8]).unwrap();

    let mut out = [0u8; 8];
    dev.read_block_into(BlockId(1), &mut out).unwrap();
    assert_eq!(out, [1, 2, 3, 4, 5, 6, 7, 8]);
}

#[test]
fn logical_block_device_over_memory_supports_equal_size_blocks() {
    let inner = MemoryBackend::new(8, 4);
    let mut dev = LogicalBlockDevice::new(inner, 8).unwrap();
    assert_eq!(dev.block_size(), 8);
    assert_eq!(dev.block_count(), 4);

    dev.write_block_from(BlockId(2), &[1, 2, 3, 4, 5, 6, 7, 8]).unwrap();

    let mut out = [0u8; 8];
    dev.read_block_into(BlockId(2), &mut out).unwrap();
    assert_eq!(out, [1, 2, 3, 4, 5, 6, 7, 8]);

    dev.zero_block(BlockId(2)).unwrap();
    dev.read_block_into(BlockId(2), &mut out).unwrap();
    assert_eq!(out, [0, 0, 0, 0, 0, 0, 0, 0]);
}

#[test]
fn logical_block_device_rejects_invalid_block_size_relation() {
    let inner = MemoryBackend::new(8, 8);
    assert!(LogicalBlockDevice::new(inner, 4).is_err());

    let inner = MemoryBackend::new(6, 8);
    assert!(LogicalBlockDevice::new(inner, 8).is_err());
}

#[test]
fn logical_block_device_rejects_partial_tail() {
    let inner = MemoryBackend::new(4, 7);
    assert!(LogicalBlockDevice::new(inner, 8).is_err());
}

#[test]
fn memory_backend_rejects_out_of_range_and_short_buffers() {
    let mut dev = MemoryBackend::new(4, 3);
    let mut out = [0u8; 4];
    assert!(dev.read_physical_block(PhysicalBlockId(3), &mut out).is_err());
    assert!(dev.write_physical_block(PhysicalBlockId(0), &[1, 2, 3]).is_err());
    let mut short = [0u8; 3];
    assert!(dev.read_physical_block(PhysicalBlockId(0), &mut short).is_err());
}

#[test]
fn logical_block_device_keeps_other_blocks() {
    let inner = MemoryBackend::new(4, 8);
    let mut dev = LogicalBlockDevice::new(inner, 8).unwrap();
    dev.write_block_from(BlockId(0), &[1; 8]).unwrap();
    dev.write_block_from(BlockId(1), &[2; 8]).unwrap();
    dev.zero_block(BlockId(0)).unwrap();
    let mut out = [9u8; 8];
    dev.read_block_into(BlockId(1), &mut out).unwrap();
    assert_eq!(out, [2; 8]);
    dev.read_block_into(BlockId(0), &mut out).unwrap();
    assert_eq!(out, [0; 8]);
    assert!(dev.read_block_into(BlockId(4), &mut out).is_err());
}
