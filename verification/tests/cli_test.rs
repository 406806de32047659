//! Whole listings, driven as a caller drives them: each path that the
//! traversal asks for is answered from a directory tree held in memory.

use ls_rust::directory::DirItem;
use ls_rust::file_info::{FileInfo, FileKind, Metadata, Timestamp};
use ls_rust::traversal::{Args, Resolved};

fn args(paths: &[&str]) -> Args {
    Args {
        long: false,
        all: false,
        size: false,
        human_readable: false,
        recursive: false,
        time: false,
        reverse: false,
        one: false,
        paths: paths.iter().map(|p| p.to_string()).collect(),
    }
}

fn regular(dir: &str, name: &str, size: u64) -> FileInfo {
    let metadata = Metadata {
        kind: FileKind::Regular,
        mode: 0o100644,
        size,
        blocks: if size == 0 { 0 } else { 8 },
        nlink: 1,
        uid: 0,
        gid: 0,
        modified: Some(Timestamp { secs: 1_700_000_000, nanos: 0 }),
    };
    FileInfo::from_entry(format!("{}/{}", dir, name), name.to_string(), metadata, None)
}

fn directory_of(dir: &str, files: &[(&str, u64)]) -> Resolved {
    Resolved::Directory(
        files.iter().map(|(name, size)| DirItem::Found(regular(dir, name, *size))).collect(),
    )
}

fn missing() -> Resolved {
    Resolved::Missing("No such file or directory (os error 2)".to_string())
}

/// Runs a listing to its end and gives what went to the output and what
/// went to the error stream.
fn run(args: &Args, resolve: &dyn Fn(&str) -> Resolved) -> (String, String) {
    colored::control::set_override(false);
    let mut traversal = args.run();
    let mut out = String::new();
    let mut err = String::new();
    let mut lines = Vec::new();
    loop {
        let path = match traversal.next_path() {
            Some(path) => path.clone(),
            None => break,
        };
        lines.extend(traversal.list_path(resolve(&path)));
    }
    let options = traversal.options;
    lines.extend(traversal.finish());
    for line in &lines {
        let text = line.text(&options);
        let stream = if line.is_error() { &mut err } else { &mut out };
        stream.push_str(&text);
        stream.push('\n');
    }
    (out, err)
}

#[test]
fn test_list_directory() {
    let resolve = |path: &str| match path {
        "/tmp/d" => directory_of("/tmp/d", &[("file1.txt", 0), ("file2.txt", 0)]),
        _ => missing(),
    };
    let (out, err) = run(&args(&["/tmp/d"]), &resolve);
    assert!(out.contains("file1.txt"));
    assert!(out.contains("file2.txt"));
    assert_eq!(out, "file1.txt\nfile2.txt\n");
    assert_eq!(err, "");
}

#[test]
fn test_list_all_files() {
    let resolve = |path: &str| match path {
        "/tmp/d" => directory_of("/tmp/d", &[("visible.txt", 0), (".hidden", 0)]),
        _ => missing(),
    };
    let (out, _) = run(&args(&["/tmp/d"]), &resolve);
    assert!(out.contains("visible.txt"));
    assert!(!out.contains(".hidden"));

    let mut all = args(&["/tmp/d"]);
    all.all = true;
    let (out, _) = run(&all, &resolve);
    assert!(out.contains("visible.txt"));
    assert!(out.contains(".hidden"));
    assert_eq!(out, ".hidden\nvisible.txt\n");
}

#[test]
fn test_long_format() {
    let resolve = |path: &str| match path {
        "/tmp/d" => directory_of("/tmp/d", &[("test.txt", 13)]),
        _ => missing(),
    };
    let mut long = args(&["/tmp/d"]);
    long.long = true;
    let (out, _) = run(&long, &resolve);
    assert!(out.contains("test.txt"));
    assert!(out.starts_with("total"));
    assert!(out.contains("-rw"));
}

#[test]
fn test_size_display() {
    let resolve = |path: &str| match path {
        "/tmp/d" => directory_of("/tmp/d", &[("test.txt", 5)]),
        _ => missing(),
    };
    let mut sized = args(&["/tmp/d"]);
    sized.size = true;
    let (out, _) = run(&sized, &resolve);
    assert!(out.contains("test.txt"));
    // Spaces, digits, a space, the name: eight blocks of 512 bytes are 4 KiB.
    assert_eq!(out, "       4 test.txt\n");
}

#[test]
fn test_single_column() {
    let resolve = |path: &str| match path {
        "/tmp/d" => directory_of("/tmp/d", &[("file2.txt", 0), ("file1.txt", 0)]),
        _ => missing(),
    };
    let mut one = args(&["/tmp/d"]);
    one.one = true;
    let (out, _) = run(&one, &resolve);
    assert!(out.contains("file1.txt\nfile2.txt"));
}

#[test]
fn test_multiple_paths() {
    let resolve = |path: &str| match path {
        "/tmp/one" => directory_of("/tmp/one", &[("file1.txt", 0)]),
        "/tmp/two" => directory_of("/tmp/two", &[("file2.txt", 0)]),
        _ => missing(),
    };
    let (out, _) = run(&args(&["/tmp/one", "/tmp/two"]), &resolve);
    assert!(out.contains(&format!("{}:", "/tmp/one")));
    assert!(out.contains(&format!("{}:", "/tmp/two")));
    assert!(out.contains("file1.txt"));
    assert!(out.contains("file2.txt"));
}

#[test]
fn test_nonexistent_path() {
    let resolve = |_: &str| missing();
    let (out, err) = run(&args(&["/nonexistent/path/that/should/not/exist"]), &resolve);
    // The run goes on to its end and the failure is reported.
    assert!(err.contains("No such file or directory"));
    assert_eq!(
        err,
        "ls: /nonexistent/path/that/should/not/exist: No such file or directory (os error 2)\n"
    );
    assert_eq!(out, "");
}

#[test]
fn test_list_single_file() {
    let resolve = |path: &str| match path {
        "/tmp/d/single.txt" => Resolved::File(FileInfo::from_path(
            path.to_string(),
            regular("/tmp/d", "single.txt", 0).metadata,
            None,
        )),
        _ => missing(),
    };
    let (out, _) = run(&args(&["/tmp/d/single.txt"]), &resolve);
    assert!(out.contains("single.txt"));
    assert_eq!(out, "single.txt\n");
}

#[test]
fn test_human_readable_sizes() {
    let resolve = |path: &str| match path {
        "/tmp/d" => directory_of("/tmp/d", &[("test.txt", 5000)]),
        _ => missing(),
    };
    let mut long = args(&["/tmp/d"]);
    long.long = true;
    long.human_readable = true;
    let (out, _) = run(&long, &resolve);
    assert!(out.contains("test.txt"));
    assert!(out.contains("    4.9K "));

    let mut sized = args(&["/tmp/d"]);
    sized.size = true;
    sized.human_readable = true;
    let (out, _) = run(&sized, &resolve);
    assert!(out.contains("test.txt"));
    assert_eq!(out, "4.9K test.txt\n");
}

#[test]
fn no_path_lists_the_current_directory() {
    let resolve = |path: &str| match path {
        "." => directory_of(".", &[("here.txt", 0)]),
        _ => missing(),
    };
    let (out, err) = run(&args(&[]), &resolve);
    assert_eq!(out, "here.txt\n");
    assert_eq!(err, "");
}

#[test]
fn one_column_wins_over_long_but_the_total_stays() {
    let resolve = |path: &str| match path {
        "/tmp/d" => directory_of("/tmp/d", &[("a", 1), ("b", 1)]),
        _ => missing(),
    };
    let mut both = args(&["/tmp/d"]);
    both.long = true;
    both.one = true;
    let (out, _) = run(&both, &resolve);
    assert_eq!(out, "total 8\na\nb\n");
}

#[test]
fn failures_of_root_paths_come_last_and_do_not_stop_the_run() {
    let resolve = |path: &str| match path {
        "/tmp/two" => directory_of("/tmp/two", &[("file2.txt", 0)]),
        "/tmp/locked" => Resolved::Unreadable("Permission denied (os error 13)".to_string()),
        _ => missing(),
    };
    let (out, err) = run(&args(&["/gone", "/tmp/locked", "/tmp/two"]), &resolve);
    // A path that is not there has no header; a directory that cannot be read has one.
    assert_eq!(out, "\n/tmp/locked:\n\n/tmp/two:\nfile2.txt\n");
    assert_eq!(
        err,
        "ls: /gone: No such file or directory (os error 2)\nls: /tmp/locked: Permission denied (os error 13)\n"
    );
}

#[test]
fn entries_that_cannot_be_read_are_reported_and_skipped() {
    let resolve = |path: &str| match path {
        "/tmp/d" => Resolved::Directory(vec![
            DirItem::Found(regular("/tmp/d", "b.txt", 0)),
            DirItem::Unreadable { name: "stale".to_string(), error: "Stale file handle".to_string() },
            DirItem::Unreadable { name: ".lost".to_string(), error: "Input/output error".to_string() },
            DirItem::Broken { error: "Bad descriptor".to_string() },
            DirItem::Found(regular("/tmp/d", "a.txt", 0)),
        ]),
        _ => missing(),
    };
    let (out, err) = run(&args(&["/tmp/d"]), &resolve);
    assert_eq!(out, "a.txt\nb.txt\n");
    assert_eq!(err, "ls: Stale file handle\nls: Bad descriptor\n");

    let mut all = args(&["/tmp/d"]);
    all.all = true;
    let (_, err) = run(&all, &resolve);
    assert_eq!(err, "ls: Stale file handle\nls: Input/output error\nls: Bad descriptor\n");
}
