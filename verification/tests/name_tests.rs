use myfs::fs::FCB_SIZE;
use myfs::name::normalize_component;
use myfs::DirSlot;
use myfs::ShortName;

#[test]
fn name_normalize_component_enforces_83_names() {
    assert_eq!(normalize_component("readme.txt").unwrap(), "README.TXT");
    assert!(normalize_component("too_long_name.txt").is_err());
    assert!(normalize_component("bad-name.txt").is_err());
    assert!(normalize_component(".").is_err());
}

#[test]
fn name_parse_dir_slot_recognizes_unused_and_deleted() {
    let unused = [0u8; FCB_SIZE];
    assert!(matches!(DirSlot::try_from(unused.as_slice()).unwrap(), DirSlot::Unused));

    let mut deleted = [0u8; FCB_SIZE];
    deleted[0] = DirSlot::SLOT_DELETED;
    assert!(matches!(DirSlot::try_from(deleted.as_slice()).unwrap(), DirSlot::Deleted));
}

#[test]
fn short_names_are_padded_and_shown_without_padding() {
    let n = ShortName::parse("ab.c").unwrap();
    assert_eq!(&n.base, b"AB      ");
    assert_eq!(&n.ext, b"C  ");
    assert_eq!(n.to_text(), "AB.C");
    let bare = ShortName::parse("NOEXT").unwrap();
    assert_eq!(bare.to_text(), "NOEXT");
    assert!(ShortName::parse("").is_err());
    assert!(ShortName::parse("NINECHARS.TXT").is_err());
    assert!(ShortName::parse("A.LONG").is_err());
    assert!(normalize_component("..").is_err());
    assert!(normalize_component("").is_err());
}

#[test]
fn short_dir_slot_bytes_are_refused() {
    assert!(DirSlot::try_from([0u8; FCB_SIZE - 1].as_slice()).is_err());
}

#[test]
fn stored_names_parse_back_to_themselves() {
    for text in ["readme.txt", "A.TXT", "x_1", "abcdefgh.ijk"] {
        let n = ShortName::parse(text).unwrap();
        let shown = n.to_text();
        assert_eq!(shown, text.to_ascii_uppercase());
        let again = ShortName::parse(&shown).unwrap();
        assert_eq!(again.to_text(), shown);
        assert_eq!(again, n);
    }
}
