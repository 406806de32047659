//! Names as they are written where colours are on.

use ls_rust::file_info::{FileInfo, FileKind, Metadata};
use ls_rust::formatter::{FileInfoFormatter, Format};
use ls_rust::utils::colorize_name;

fn metadata(kind: FileKind, mode: u32) -> Metadata {
    Metadata { kind, mode, size: 0, blocks: 0, nlink: 1, uid: 0, gid: 0, modified: None }
}

#[test]
fn names_are_painted_where_colours_are_on() {
    colored::control::set_override(true);
    assert_eq!(
        colorize_name("subdir", &metadata(FileKind::Directory, 0o040755)),
        "\u{1b}[34msubdir\u{1b}[0m"
    );
    assert_eq!(
        colorize_name("run.sh", &metadata(FileKind::Regular, 0o100755)),
        "\u{1b}[31mrun.sh\u{1b}[0m"
    );
    assert_eq!(
        colorize_name("notes", &metadata(FileKind::Regular, 0o100644)),
        "\u{1b}[32mnotes\u{1b}[0m"
    );
    assert_eq!(
        colorize_name("secret", &metadata(FileKind::Regular, 0o100600)),
        "\u{1b}[37msecret\u{1b}[0m"
    );
}

#[test]
fn a_painted_name_stands_in_the_line() {
    colored::control::set_override(true);
    let info = FileInfo::from_entry(
        "/tmp/d/subdir".to_string(),
        "subdir".to_string(),
        metadata(FileKind::Directory, 0o040755),
        None,
    );
    let formatter = FileInfoFormatter { file_info: &info, format: Format::Name, human_readable: false };
    assert_eq!(formatter.to_string(), "\u{1b}[34msubdir\u{1b}[0m");
    let formatter =
        FileInfoFormatter { file_info: &info, format: Format::WithSize, human_readable: false };
    assert_eq!(formatter.to_string(), "       0 \u{1b}[34msubdir\u{1b}[0m");
}
