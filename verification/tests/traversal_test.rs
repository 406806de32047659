//! The steps of a traversal.

use ls_rust::directory::DirItem;
use ls_rust::file_info::{FileInfo, FileKind, Metadata};
use ls_rust::formatter::Format;
use ls_rust::traversal::{total_of, Args, Output, Resolved};

fn args(paths: &[&str]) -> Args {
    Args {
        long: false,
        all: false,
        size: false,
        human_readable: false,
        recursive: false,
        time: false,
        reverse: false,
        one: false,
        paths: paths.iter().map(|p| p.to_string()).collect(),
    }
}

fn entry(name: &str, kind: FileKind, blocks: u64) -> FileInfo {
    let metadata =
        Metadata { kind, mode: 0o100644, size: 0, blocks, nlink: 1, uid: 0, gid: 0, modified: None };
    FileInfo::from_entry(format!("/r/{}", name), name.to_string(), metadata, None)
}

#[test]
fn format_follows_the_switches() {
    let mut a = args(&[]);
    assert_eq!(a.get_format(), Format::Name);
    a.size = true;
    assert_eq!(a.get_format(), Format::WithSize);
    a.long = true;
    assert_eq!(a.get_format(), Format::Long);
    a.one = true;
    assert_eq!(a.get_format(), Format::Name);
    a.long = false;
    a.size = false;
    assert_eq!(a.get_format(), Format::Name);
}

#[test]
fn options_are_read_from_the_switches() {
    let mut a = args(&[]);
    a.long = true;
    a.all = true;
    a.time = true;
    a.human_readable = true;
    let options = a.options();
    assert_eq!(options.format, Format::Long);
    assert!(options.long && options.show_all && options.human_readable);
    assert!(options.sort.by_time && !options.sort.reverse);
    assert!(!options.recursive);
}

#[test]
fn a_run_begins_with_the_root_paths() {
    let traversal = args(&["a", "b", "c"]).run();
    assert_eq!(traversal.next_path(), Some(&"a".to_string()));
    assert_eq!(traversal.pending.len(), 3);
    assert!(traversal.pending.iter().all(|p| p.show_header && p.depth == 0));
    // The last one pending is the next: the first root has no blank line before it.
    assert!(!traversal.pending[2].blank_before);
    assert!(traversal.pending[1].blank_before && traversal.pending[0].blank_before);
    assert_eq!(traversal.pending[0].path, "c");

    let single = args(&["only"]).run();
    assert!(!single.pending[0].show_header && !single.pending[0].blank_before);
    let none = args(&[]).run();
    assert_eq!(none.next_path(), Some(&".".to_string()));
    assert!(!none.pending[0].show_header);
}

#[test]
fn a_step_without_a_path_does_nothing() {
    let mut traversal = args(&["a"]).run();
    let lines = traversal.list_path(Resolved::Directory(Vec::new()));
    assert!(lines.is_empty());
    assert_eq!(traversal.next_path(), None);
    let lines = traversal.list_path(Resolved::Missing("gone".to_string()));
    assert!(lines.is_empty());
    assert!(traversal.finish().is_empty());
}

#[test]
fn subdirectories_are_queued_before_what_was_pending() {
    let mut a = args(&["/r", "/s"]);
    a.recursive = true;
    let mut traversal = a.run();
    let lines = traversal.list_path(Resolved::Directory(vec![
        DirItem::Found(entry("z", FileKind::Directory, 0)),
        DirItem::Found(entry("y", FileKind::Regular, 0)),
        DirItem::Found(entry("x", FileKind::Directory, 0)),
        DirItem::Found(entry(".w", FileKind::Directory, 0)),
    ]));
    assert_eq!(lines.len(), 4);
    assert!(matches!(&lines[0], Output::Header { path } if path == "/r"));
    assert!(matches!(&lines[1], Output::Entry(info) if info.file_name == "x"));
    let queue: Vec<(&str, usize, bool, bool)> = traversal
        .pending
        .iter()
        .rev()
        .map(|p| (p.path.as_str(), p.depth, p.show_header, p.blank_before))
        .collect();
    assert_eq!(
        queue,
        vec![("/r/x", 1, true, true), ("/r/z", 1, true, true), ("/s", 0, true, true)]
    );
}

#[test]
fn depth_stops_at_the_largest_number() {
    let mut a = args(&["/r"]);
    a.recursive = true;
    let mut traversal = a.run();
    traversal.pending[0].depth = usize::MAX;
    traversal.list_subdirectories(&vec![entry("d", FileKind::Directory, 0)], usize::MAX);
    assert_eq!(traversal.pending[1].depth, usize::MAX);
    traversal.list_subdirectories(&vec![entry("e", FileKind::Directory, 0)], 41);
    assert_eq!(traversal.pending[2].depth, 42);
}

#[test]
fn below_a_root_a_recursive_run_always_has_headers() {
    let mut a = args(&["/r"]);
    a.recursive = true;
    let mut traversal = a.run();
    traversal.pending[0].depth = 3;
    traversal.pending[0].show_header = false;
    let lines = traversal.list_path(Resolved::Unreadable("denied".to_string()));
    assert_eq!(lines.len(), 2);
    assert!(matches!(&lines[0], Output::Header { path } if path == "/r"));
    assert!(matches!(&lines[1], Output::Failure { path, error } if path == "/r" && error == "denied"));
    assert!(lines[1].is_error() && !lines[0].is_error());
    assert!(traversal.finish().is_empty());
}

#[test]
fn lines_are_written_as_they_are_named() {
    let options = args(&[]).options();
    assert_eq!(Output::Blank.text(&options), "");
    assert_eq!(Output::Header { path: "/a/b".to_string() }.text(&options), "/a/b:");
    assert_eq!(Output::Total { kib: 0 }.text(&options), "total 0");
    assert_eq!(
        Output::Total { kib: u128::MAX }.text(&options),
        "total 340282366920938463463374607431768211455"
    );
    assert_eq!(Output::Warning { error: "oops".to_string() }.text(&options), "ls: oops");
    assert_eq!(
        Output::Failure { path: "/p".to_string(), error: "gone".to_string() }.text(&options),
        "ls: /p: gone"
    );
    assert!(Output::Warning { error: String::new() }.is_error());
    assert!(!Output::Blank.is_error());
    assert!(!Output::Total { kib: 1 }.is_error());
}

#[test]
fn an_entry_line_is_written_in_the_format_of_the_options() {
    colored::control::set_override(false);
    let mut a = args(&[]);
    a.size = true;
    let info = entry("name", FileKind::Regular, 3);
    assert_eq!(a.display_file(&info), "       2 name");
    assert_eq!(Output::Entry(info).text(&a.options()), "       2 name");
}

#[test]
fn total_adds_up_without_overflow() {
    assert_eq!(total_of(&Vec::new()), 0);
    let entries = vec![
        entry("a", FileKind::Regular, u64::MAX),
        entry("b", FileKind::Regular, u64::MAX),
        entry("c", FileKind::Regular, 1),
    ];
    assert_eq!(total_of(&entries), (1u128 << 64) + 1);
}
