//! Single fields: permissions, sizes, dates and names.

use ls_rust::file_info::{FileKind, Metadata, Timestamp};
use ls_rust::utils::{
    clock_field, color_of, colorize_name, format_block_size, format_permissions,
    format_size_human, format_time, kib_of_blocks, triplet, NameColor,
};

fn metadata(kind: FileKind, mode: u32) -> Metadata {
    Metadata { kind, mode, size: 0, blocks: 0, nlink: 1, uid: 0, gid: 0, modified: None }
}

#[test]
fn triplet_reads_the_low_three_bits() {
    assert_eq!(triplet(0), "---");
    assert_eq!(triplet(1), "--x");
    assert_eq!(triplet(2), "-w-");
    assert_eq!(triplet(3), "-wx");
    assert_eq!(triplet(4), "r--");
    assert_eq!(triplet(5), "r-x");
    assert_eq!(triplet(6), "rw-");
    assert_eq!(triplet(7), "rwx");
    assert_eq!(triplet(0o750), "---");
    assert_eq!(triplet(0o757), "rwx");
}

#[test]
fn permissions_show_kind_and_three_triplets() {
    assert_eq!(format_permissions(&metadata(FileKind::Regular, 0o100644)), "-rw-r--r--");
    assert_eq!(format_permissions(&metadata(FileKind::Directory, 0o040755)), "drwxr-xr-x");
    assert_eq!(format_permissions(&metadata(FileKind::Symlink, 0o120777)), "lrwxrwxrwx");
    assert_eq!(format_permissions(&metadata(FileKind::Other, 0o140000)), "----------");
    assert_eq!(format_permissions(&metadata(FileKind::Regular, 0o104421)), "-r---w---x");
    assert_eq!(format_permissions(&metadata(FileKind::Regular, u32::MAX)), "-rwxrwxrwx");
}

#[test]
fn block_size_is_kib_rounded_up_in_eight_columns() {
    let mut m = metadata(FileKind::Regular, 0o100644);
    assert_eq!(format_block_size(&m), "       0");
    m.blocks = 1;
    assert_eq!(format_block_size(&m), "       1");
    m.blocks = 8;
    assert_eq!(format_block_size(&m), "       4");
    m.blocks = 9;
    assert_eq!(format_block_size(&m), "       5");
    m.blocks = 199_999_999;
    assert_eq!(format_block_size(&m), "100000000");
    assert_eq!(kib_of_blocks(u64::MAX), 1 << 63);
    assert_eq!(kib_of_blocks(2), 1);
    assert_eq!(kib_of_blocks(3), 2);
}

#[test]
fn sizes_below_1024_stand_in_the_order_of_their_texts() {
    let mut before = format_size_human(0);
    for size in 1..1024u64 {
        let text = format_size_human(size);
        assert_eq!(text.len(), 4);
        assert!(before < text, "{:?} and {:?}", before, text);
        assert_eq!(text.trim_start().parse::<u64>().unwrap(), size);
        before = text;
    }
    assert_eq!(format_size_human(1023), "1023");
    assert!(format_size_human(1024).ends_with('K'));
}

#[test]
fn colour_follows_kind_and_mode() {
    assert_eq!(color_of(&metadata(FileKind::Directory, 0o040000)), NameColor::Blue);
    assert_eq!(color_of(&metadata(FileKind::Directory, 0o040755)), NameColor::Blue);
    assert_eq!(color_of(&metadata(FileKind::Regular, 0o100755)), NameColor::Red);
    assert_eq!(color_of(&metadata(FileKind::Regular, 0o100001)), NameColor::Red);
    assert_eq!(color_of(&metadata(FileKind::Regular, 0o100010)), NameColor::Red);
    assert_eq!(color_of(&metadata(FileKind::Regular, 0o100644)), NameColor::Green);
    assert_eq!(color_of(&metadata(FileKind::Regular, 0o100004)), NameColor::Green);
    assert_eq!(color_of(&metadata(FileKind::Regular, 0o100640)), NameColor::White);
    assert_eq!(color_of(&metadata(FileKind::Symlink, 0o120000)), NameColor::White);
}

#[test]
fn names_are_plain_where_colours_are_off() {
    colored::control::set_override(false);
    assert_eq!(colorize_name("subdir", &metadata(FileKind::Directory, 0o040755)), "subdir");
    assert_eq!(colorize_name("run.sh", &metadata(FileKind::Regular, 0o100755)), "run.sh");
    assert_eq!(colorize_name("notes", &metadata(FileKind::Regular, 0o100644)), "notes");
    assert_eq!(colorize_name("secret", &metadata(FileKind::Regular, 0o100600)), "secret");
}

#[test]
fn date_is_the_local_month_day_hour_and_minute() {
    for secs in [0i64, 1_700_000_000, 951_782_400, -86_400, 4_102_444_800] {
        let expected = chrono::DateTime::from_timestamp(secs, 0)
            .unwrap()
            .with_timezone(&chrono::Local)
            .format("%b %d %H:%M")
            .to_string();
        let text = format_time(Timestamp { secs, nanos: 0 });
        assert_eq!(text, expected);
        assert_eq!(text.len(), 12);
        let bytes = text.as_bytes();
        assert!(bytes[..3].iter().all(|b| b.is_ascii_alphabetic()));
        assert_eq!(bytes[3], b' ');
        assert!(bytes[4].is_ascii_digit() && bytes[5].is_ascii_digit());
        assert_eq!(bytes[6], b' ');
        assert!(bytes[7].is_ascii_digit() && bytes[8].is_ascii_digit());
        assert_eq!(bytes[9], b':');
        assert!(bytes[10].is_ascii_digit() && bytes[11].is_ascii_digit());
    }
}

#[test]
fn a_time_beyond_the_calendar_is_question_marks() {
    assert!(chrono::DateTime::from_timestamp(i64::MAX, 0).is_none());
    assert_eq!(format_time(Timestamp { secs: i64::MAX, nanos: 0 }), "??? ?? ??:??");
    assert_eq!(format_time(Timestamp { secs: i64::MIN, nanos: 0 }), "??? ?? ??:??");
    assert_eq!(format_time(Timestamp { secs: 0, nanos: u32::MAX }), "??? ?? ??:??");
    assert_eq!(clock_field(None), "??? ?? ??:??");
    assert_eq!(clock_field(Some("Jan 15 10:30".to_string())), "Jan 15 10:30");
}
