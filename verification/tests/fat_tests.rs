use myfs::ClusterId;
use myfs::FatEntry;

#[test]
fn fat_entry_converts_both_ways() {
    assert_eq!(u16::from(FatEntry::Free), ClusterId::FAT_FREE);
    assert_eq!(u16::from(FatEntry::EndOfChain), ClusterId::FAT_EOC);
    assert_eq!(u16::from(FatEntry::Next(ClusterId(7))), 7);
    assert_eq!(FatEntry::from(ClusterId::FAT_FREE), FatEntry::Free);
    assert_eq!(FatEntry::from(ClusterId::FAT_EOC), FatEntry::EndOfChain);
    assert_eq!(FatEntry::from(11), FatEntry::Next(ClusterId(11)));
}

#[test]
fn fat_entry_raw_values_round_trip() {
    for raw in [0u16, 1, 2, 3, 0x1234, 0xFFFE, 0xFFFF] {
        assert_eq!(u16::from(FatEntry::from(raw)), raw);
    }
}
