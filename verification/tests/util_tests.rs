use myfs::fs::FCB_SIZE;
use myfs::util::decode_name_part;
use myfs::util::normalize_component;
use myfs::DirSlot;

#[test]
fn util_normalize_component_enforces_83_names() {
    assert_eq!(normalize_component("readme.txt").unwrap(), "README.TXT");
    assert!(normalize_component("too_long_name.txt").is_err());
    assert!(normalize_component("bad-name.txt").is_err());
    assert!(normalize_component(".").is_err());
}

#[test]
fn util_parse_dir_slot_recognizes_unused_and_deleted() {
    let unused = [0u8; FCB_SIZE];
    assert!(matches!(DirSlot::try_from(unused.as_slice()).unwrap(), DirSlot::Unused));

    let mut deleted = [0u8; FCB_SIZE];
    deleted[0] = DirSlot::SLOT_DELETED;
    assert!(matches!(DirSlot::try_from(deleted.as_slice()).unwrap(), DirSlot::Deleted));
}

#[test]
fn stored_name_parts_lose_trailing_spaces() {
    assert_eq!(decode_name_part(b"README  "), "README");
    assert_eq!(decode_name_part(b"   "), "");
    assert_eq!(decode_name_part(b"A B "), "A B");
}
