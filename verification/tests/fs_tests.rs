use chrono::Datelike;
use chrono::NaiveDate;
use chrono::NaiveTime;
use chrono::Timelike;
use chrono::Utc;
use myfs::fs::root_dir_start_cluster;
use myfs::BlockId;
use myfs::BootSector;
use myfs::ClusterId;
use myfs::Fcb;
use myfs::FcbAttr;
use myfs::NodeKind;
use myfs::U16Date;
use myfs::U16Time;
use myfs::UtcDateTime;

fn utc_now() -> UtcDateTime {
    let t = Utc::now();
    UtcDateTime {
        year: t.year(),
        month: t.month(),
        day: t.day(),
        hour: t.hour(),
        minute: t.minute(),
        second: t.second(),
    }
}

#[test]
fn node_kind_and_attr_convert_both_ways() {
    assert_eq!(FcbAttr::from(NodeKind::File), FcbAttr::file());
    assert_eq!(FcbAttr::from(NodeKind::Directory), FcbAttr::directory());
    assert_eq!(NodeKind::try_from(FcbAttr::file()).unwrap(), NodeKind::File);
    assert_eq!(NodeKind::try_from(FcbAttr::directory()).unwrap(), NodeKind::Directory);
    assert!(NodeKind::try_from(FcbAttr(0x7F)).is_err());
}

#[test]
fn fcb_new_keeps_requested_minimal_fields() {
    let fcb = Fcb::new("A.TXT", NodeKind::File, ClusterId::free(), 0, utc_now()).unwrap();
    assert_eq!(fcb.attr, FcbAttr::file());
    assert_eq!(fcb.start_cluster, ClusterId::free());
    assert_eq!(fcb.size, 0);
    assert_eq!(fcb.short_name(), "A.TXT");
    assert_ne!(fcb.mtime, U16Time::empty());
    assert_ne!(fcb.mdate, U16Date::empty());
}

#[test]
fn boot_sector_bytes_round_trip() {
    let boot = BootSector {
        block_size: 1024,
        block_count: 128,
        blocks_per_cluster: 1,
        fat_start_block: BlockId(1),
        fat_block_count: 1,
        fat_copies: 2,
        data_start_block: BlockId(3),
        root_dir_start_cluster: root_dir_start_cluster(),
    };
    assert_eq!(boot.as_bytes().len(), BootSector::SIZE);
    assert_eq!(BootSector::read_from_prefix(&boot.as_bytes()).unwrap(), boot);
}

#[test]
fn fcb_bytes_round_trip() {
    let fcb = Fcb::new("A.TXT", NodeKind::File, ClusterId(7), 123, utc_now()).unwrap();
    assert_eq!(fcb.as_bytes().len(), Fcb::SIZE);
    assert_eq!(Fcb::try_from(fcb.as_bytes().as_slice()).unwrap(), fcb);
}

#[test]
fn write_to_slice_rejects_short_buffer() {
    let fcb = Fcb::new("A.TXT", NodeKind::File, ClusterId::free(), 0, utc_now()).unwrap();
    let mut short = [0u8; Fcb::SIZE - 1];
    assert!(fcb.write_to_slice(&mut short).is_err());
}

#[test]
fn u16_date_converts_both_ways() {
    let date = NaiveDate::from_ymd_opt(2026, 4, 25).unwrap();
    let encoded = U16Date::try_from(date).unwrap();
    assert_eq!(NaiveDate::try_from(encoded).unwrap(), date);
}

#[test]
fn u16_time_converts_both_ways() {
    let time = NaiveTime::from_hms_opt(12, 34, 56).unwrap();
    let encoded = U16Time::try_from(time).unwrap();
    assert_eq!(NaiveTime::try_from(encoded).unwrap(), time);
    let time_odd = NaiveTime::from_hms_opt(12, 34, 57).unwrap();
    let encoded_odd = U16Time::try_from(time_odd).unwrap();
    assert_eq!(NaiveTime::try_from(encoded_odd).unwrap(), time);
}

#[test]
fn packed_stamps_have_exact_values() {
    // 2026-04-25: (46 << 9) | (4 << 5) | 25
    assert_eq!(U16Date::from_ymd(2026, 4, 25).unwrap().0, (46 << 9) | (4 << 5) | 25);
    // 12:34:56: (12 << 11) | (34 << 5) | 28
    assert_eq!(U16Time::from_hms(12, 34, 56).0, (12 << 11) | (34 << 5) | 28);
    assert_eq!(U16Date::from_ymd(2026, 4, 25).unwrap().ymd(), (2026, 4, 25));
    assert_eq!(U16Time::from_hms(12, 34, 57).hms(), (12, 34, 56));
}

#[test]
fn dates_outside_the_fat_years_are_refused() {
    assert!(U16Date::from_ymd(1979, 12, 31).is_err());
    assert!(U16Date::from_ymd(2108, 1, 1).is_err());
    assert!(U16Date::from_ymd(1980, 1, 1).is_ok());
    assert!(U16Date::from_ymd(2107, 12, 31).is_ok());
    assert!(NaiveDate::try_from(U16Date::empty()).is_err());
    assert!(NaiveTime::try_from(U16Time::empty()).is_err());
}

#[test]
fn fcb_new_refuses_bad_names_and_years() {
    let t = UtcDateTime { year: 2024, month: 5, day: 6, hour: 7, minute: 8, second: 10 };
    assert!(Fcb::new("bad-name.txt", NodeKind::File, ClusterId(0), 0, t).is_err());
    let old = UtcDateTime { year: 1970, month: 1, day: 1, hour: 0, minute: 0, second: 0 };
    assert!(matches!(
        Fcb::new("A.TXT", NodeKind::File, ClusterId(0), 0, old),
        Err(myfs::FsError::InvalidConfig(_))
    ));
    let fcb = Fcb::new("a.txt", NodeKind::Directory, ClusterId(9), 5, t).unwrap();
    assert_eq!(fcb.short_name(), "A.TXT");
    assert_eq!(fcb.attr, FcbAttr::directory());
    assert_eq!(fcb.mdate, U16Date::from_ymd(2024, 5, 6).unwrap());
    assert_eq!(fcb.mtime, U16Time::from_hms(7, 8, 10));
}

#[test]
fn fcb_decodes_written_slice() {
    let t = UtcDateTime { year: 2000, month: 2, day: 29, hour: 23, minute: 59, second: 58 };
    let fcb = Fcb::new("LONGNAME.BIN", NodeKind::File, ClusterId(300), 0x01020304, t).unwrap();
    let mut buf = [0u8; Fcb::SIZE];
    fcb.write_to_slice(&mut buf).unwrap();
    assert_eq!(buf.to_vec(), fcb.as_bytes());
    assert_eq!(Fcb::decode(&buf), fcb);
    assert_eq!(&buf[0..8], b"LONGNAME");
    assert_eq!(&buf[8..11], b"BIN");
    assert_eq!(buf[11], 0x20);
    assert_eq!(&buf[20..24], &[0x04, 0x03, 0x02, 0x01]);
}
