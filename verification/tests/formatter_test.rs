//! Single lines in each format.

use ls_rust::file_info::{FileInfo, FileKind, Metadata, Timestamp};
use ls_rust::formatter::{format_long_with, label_of, render, FileInfoFormatter, Format};

fn metadata(kind: FileKind, mode: u32, size: u64) -> Metadata {
    Metadata {
        kind,
        mode,
        size,
        blocks: 8,
        nlink: 1,
        uid: 0,
        gid: 0,
        modified: Some(Timestamp { secs: 1_700_000_000, nanos: 0 }),
    }
}

fn test_file(size: u64) -> FileInfo {
    FileInfo::from_path(
        "/tmp/dir/test.txt".to_string(),
        metadata(FileKind::Regular, 0o100644, size),
        None,
    )
}

fn local_date(secs: i64) -> String {
    chrono::DateTime::from_timestamp(secs, 0)
        .unwrap()
        .with_timezone(&chrono::Local)
        .format("%b %d %H:%M")
        .to_string()
}

fn name_of_user(uid: u32) -> String {
    match users::get_user_by_uid(uid) {
        Some(user) => user.name().to_string_lossy().to_string(),
        None => uid.to_string(),
    }
}

fn name_of_group(gid: u32) -> String {
    match users::get_group_by_gid(gid) {
        Some(group) => group.name().to_string_lossy().to_string(),
        None => gid.to_string(),
    }
}

#[test]
fn test_format_name() {
    colored::control::set_override(false);
    let file_info = test_file(0);
    let formatter =
        FileInfoFormatter { file_info: &file_info, format: Format::Name, human_readable: false };
    let output = formatter.to_string();
    assert!(output.contains("test.txt"));
    assert_eq!(output, "test.txt");
}

#[test]
fn test_format_with_size() {
    colored::control::set_override(false);
    let file_info = test_file(13);
    let formatter =
        FileInfoFormatter { file_info: &file_info, format: Format::WithSize, human_readable: true };
    let output = formatter.to_string();
    assert!(output.contains("test.txt"));
    assert!(output.len() > "test.txt".len());
    assert_eq!(output, "  13 test.txt");
}

#[test]
fn test_format_long() {
    colored::control::set_override(false);
    let file_info = test_file(0);
    let formatter =
        FileInfoFormatter { file_info: &file_info, format: Format::Long, human_readable: false };
    let output = formatter.to_string();
    assert!(output.starts_with("-") || output.starts_with("d") || output.starts_with("l"));
    assert!(output.contains("test.txt"));
}

#[test]
fn long_line_holds_what_was_looked_up() {
    colored::control::set_override(false);
    let file_info = test_file(13);
    let formatter =
        FileInfoFormatter { file_info: &file_info, format: Format::Long, human_readable: false };
    let expected = format!(
        "-rw-r--r--   1 {} {}       13 {} test.txt",
        name_of_user(0),
        name_of_group(0),
        local_date(1_700_000_000)
    );
    assert_eq!(formatter.format_long(), expected);
    assert_eq!(formatter.to_string(), expected);
}

#[test]
fn thirteen_bytes_for_human_readers_are_13_without_a_unit() {
    colored::control::set_override(false);
    let file_info = test_file(13);
    let formatter =
        FileInfoFormatter { file_info: &file_info, format: Format::Long, human_readable: true };
    let line = formatter.to_string();
    let columns: Vec<&str> = line.split_whitespace().collect();
    assert_eq!(columns[4], "13");
    assert!(line.contains("       13 "));
}

#[test]
fn an_id_without_a_name_is_written_in_decimal() {
    colored::control::set_override(false);
    let mut file_info = test_file(1);
    file_info.metadata.uid = 4_123_456_789;
    file_info.metadata.gid = 4_123_456_788;
    let formatter =
        FileInfoFormatter { file_info: &file_info, format: Format::Long, human_readable: false };
    let line = formatter.to_string();
    let expected = format!(" {} {} ", name_of_user(4_123_456_789), name_of_group(4_123_456_788));
    assert!(line.contains(&expected));
    assert_eq!(label_of(42, None), "42");
    assert_eq!(label_of(0, None), "0");
    assert_eq!(label_of(u32::MAX, None), "4294967295");
    assert_eq!(label_of(42, Some("alice".to_string())), "alice");
}

#[test]
fn long_line_from_given_texts() {
    let file_info = test_file(1234);
    assert_eq!(
        format_long_with(&file_info, false, "alice", "staff", "Jan 15 10:30", "test.txt"),
        "-rw-r--r--   1 alice staff     1234 Jan 15 10:30 test.txt"
    );
    assert_eq!(
        format_long_with(&file_info, true, "alice", "staff", "Jan 15 10:30", "test.txt"),
        "-rw-r--r--   1 alice staff     1.2K Jan 15 10:30 test.txt"
    );
    let mut many = test_file(123_456_789_012);
    many.metadata.nlink = 1234;
    many.metadata.kind = FileKind::Directory;
    many.metadata.mode = 0o040750;
    assert_eq!(
        format_long_with(&many, false, "root", "wheel", "Dec 01 00:00", "big"),
        "drwxr-x--- 1234 root wheel 123456789012 Dec 01 00:00 big"
    );
}

#[test]
fn symlink_line_ends_with_name_arrow_target() {
    let link = FileInfo::from_path(
        "/tmp/dir/link.txt".to_string(),
        metadata(FileKind::Symlink, 0o120777, 10),
        Some("target.txt".to_string()),
    );
    let line = format_long_with(&link, false, "alice", "staff", "Jan 15 10:30", "link.txt");
    assert_eq!(line, "lrwxrwxrwx   1 alice staff       10 Jan 15 10:30 link.txt -> target.txt");
    assert!(line.ends_with("link.txt -> target.txt"));

    // A link whose target could not be read has no arrow.
    let broken = FileInfo::from_path(
        "/tmp/dir/link.txt".to_string(),
        metadata(FileKind::Symlink, 0o120777, 10),
        None,
    );
    let line = format_long_with(&broken, false, "alice", "staff", "Jan 15 10:30", "link.txt");
    assert!(line.ends_with(" link.txt"));

    // What is no link has no target.
    let plain = FileInfo::from_path(
        "/tmp/dir/file".to_string(),
        metadata(FileKind::Regular, 0o100644, 10),
        Some("elsewhere".to_string()),
    );
    assert!(plain.link_target.is_none());
    assert!(plain.symlink_target().is_none());
    assert_eq!(link.symlink_target(), Some(&"target.txt".to_string()));
}

#[test]
fn render_in_each_format() {
    let file_info = test_file(5000);
    assert_eq!(render(&file_info, Format::Name, false, "o", "g", "c", "test.txt"), "test.txt");
    assert_eq!(
        render(&file_info, Format::WithSize, false, "o", "g", "c", "test.txt"),
        "       4 test.txt"
    );
    assert_eq!(
        render(&file_info, Format::WithSize, true, "o", "g", "c", "test.txt"),
        "4.9K test.txt"
    );
    assert_eq!(
        render(&file_info, Format::Long, true, "o", "g", "Jan 15 10:30", "test.txt"),
        "-rw-r--r--   1 o g     4.9K Jan 15 10:30 test.txt"
    );
}

/// Reads the fixed columns of a long line back.
fn read_back(line: &str) -> (char, u64, u64, String) {
    let tag = line.chars().next().unwrap();
    let mut rest = &line[10..];
    let mut columns = Vec::new();
    for _ in 0..4 {
        rest = rest.trim_start_matches(' ');
        let end = rest.find(' ').unwrap();
        columns.push(&rest[..end]);
        rest = &rest[end..];
    }
    let column = &rest[14..];
    let name = if tag == 'l' {
        match column.find(" -> ") {
            Some(at) => &column[..at],
            None => column,
        }
    } else {
        column
    };
    (tag, columns[0].parse().unwrap(), columns[3].parse().unwrap(), name.to_string())
}

#[test]
fn long_line_reads_back() {
    let mut info = test_file(987_654);
    info.metadata.nlink = 12;
    info.file_name = "  two words.txt".to_string();
    let line = format_long_with(&info, false, "alice", "staff", "Jan 15 10:30", &info.file_name);
    assert_eq!(read_back(&line), ('-', 12, 987_654, "  two words.txt".to_string()));

    let link = FileInfo::from_path(
        "/tmp/dir/link.txt".to_string(),
        metadata(FileKind::Symlink, 0o120777, 10),
        Some("a -> b".to_string()),
    );
    let line = format_long_with(&link, true, "1000", "1000", "??? ?? ??:??", "link.txt");
    assert_eq!(read_back(&line), ('l', 1, 10, "link.txt".to_string()));

    let mut dir = test_file(4096);
    dir.metadata.kind = FileKind::Directory;
    dir.metadata.nlink = 123_456;
    let line = format_long_with(&dir, false, "a", "b", "Feb 29 23:59", "dir");
    assert_eq!(read_back(&line), ('d', 123_456, 4096, "dir".to_string()));
}
