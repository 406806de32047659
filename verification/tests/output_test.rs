//! The shape of what a listing writes: order, headers, totals and the
//! long line.

use ls_rust::directory::DirItem;
use ls_rust::file_info::{FileInfo, FileKind, Metadata, Timestamp};
use ls_rust::traversal::{Args, Resolved};

fn args(paths: &[&str]) -> Args {
    Args {
        long: false,
        all: false,
        size: false,
        human_readable: false,
        recursive: false,
        time: false,
        reverse: false,
        one: false,
        paths: paths.iter().map(|p| p.to_string()).collect(),
    }
}

fn entry(dir: &str, name: &str, kind: FileKind, mode: u32, size: u64, secs: i64) -> FileInfo {
    let metadata = Metadata {
        kind,
        mode,
        size,
        blocks: if size == 0 { 0 } else { 8 },
        nlink: 1,
        uid: 0,
        gid: 0,
        modified: Some(Timestamp { secs, nanos: 0 }),
    };
    FileInfo::from_entry(format!("{}/{}", dir, name), name.to_string(), metadata, None)
}

fn regular(dir: &str, name: &str, size: u64) -> FileInfo {
    entry(dir, name, FileKind::Regular, 0o100644, size, 1_700_000_000)
}

fn subdir(dir: &str, name: &str) -> FileInfo {
    entry(dir, name, FileKind::Directory, 0o040755, 4096, 1_700_000_000)
}

fn found(entries: Vec<FileInfo>) -> Resolved {
    Resolved::Directory(entries.into_iter().map(DirItem::Found).collect())
}

fn missing() -> Resolved {
    Resolved::Missing("No such file or directory (os error 2)".to_string())
}

fn run(args: &Args, resolve: &dyn Fn(&str) -> Resolved) -> (String, String) {
    colored::control::set_override(false);
    let mut traversal = args.run();
    let mut out = String::new();
    let mut err = String::new();
    loop {
        let path = match traversal.next_path() {
            Some(path) => path.clone(),
            None => break,
        };
        let options = traversal.options;
        for line in traversal.list_path(resolve(&path)) {
            let text = line.text(&options);
            let stream = if line.is_error() { &mut err } else { &mut out };
            stream.push_str(&text);
            stream.push('\n');
        }
    }
    let options = traversal.options;
    for line in traversal.finish() {
        err.push_str(&line.text(&options));
        err.push('\n');
    }
    (out, err)
}

#[test]
fn test_directory_color() {
    let resolve = |path: &str| match path {
        "/tmp/d" => found(vec![subdir("/tmp/d", "subdir")]),
        _ => missing(),
    };
    let (out, _) = run(&args(&["/tmp/d"]), &resolve);
    assert!(out.contains("subdir"));
}

#[test]
fn test_executable_color() {
    let resolve = |path: &str| match path {
        "/tmp/d" => found(vec![entry(
            "/tmp/d",
            "executable.sh",
            FileKind::Regular,
            0o100755,
            0,
            1_700_000_000,
        )]),
        _ => missing(),
    };
    let (out, _) = run(&args(&["/tmp/d"]), &resolve);
    assert!(out.contains("executable.sh"));
}

#[test]
fn test_alphabetical_sorting() {
    let resolve = |path: &str| match path {
        "/tmp/d" => found(vec![
            regular("/tmp/d", "zebra.txt", 0),
            regular("/tmp/d", "apple.txt", 0),
            regular("/tmp/d", "banana.txt", 0),
        ]),
        _ => missing(),
    };
    let mut one = args(&["/tmp/d"]);
    one.one = true;
    let (out, _) = run(&one, &resolve);
    assert!(out.contains("apple.txt\nbanana.txt\nzebra.txt"));
}

#[test]
fn test_case_insensitive_sorting() {
    let resolve = |path: &str| match path {
        "/tmp/d" => found(vec![
            regular("/tmp/d", "Cherry.txt", 0),
            regular("/tmp/d", "banana.txt", 0),
            regular("/tmp/d", "Apple.txt", 0),
        ]),
        _ => missing(),
    };
    let mut one = args(&["/tmp/d"]);
    one.one = true;
    let (out, _) = run(&one, &resolve);
    assert!(out.contains("Apple.txt\nbanana.txt\nCherry.txt"));
}

#[test]
fn test_long_format_structure() {
    let resolve = |path: &str| match path {
        "/tmp/d" => found(vec![regular("/tmp/d", "test.txt", 7)]),
        _ => missing(),
    };
    let mut long = args(&["/tmp/d"]);
    long.long = true;
    let (out, _) = run(&long, &resolve);
    assert!(out.starts_with("total"));
    assert!(out.contains("-rw-r--r--"));
    assert!(out.contains("test.txt"));
    let line = out.lines().nth(1).unwrap();
    assert!(line.starts_with("-rw-r--r--   1 "));
    assert!(line.ends_with(" test.txt"));
}

#[test]
fn test_symlink_display() {
    let link = FileInfo::from_path(
        "/tmp/d/link.txt".to_string(),
        Metadata {
            kind: FileKind::Symlink,
            mode: 0o120777,
            size: 17,
            blocks: 0,
            nlink: 1,
            uid: 0,
            gid: 0,
            modified: Some(Timestamp { secs: 1_700_000_000, nanos: 0 }),
        },
        Some("/tmp/d/target.txt".to_string()),
    );
    let resolve = move |path: &str| match path {
        "/tmp/d/link.txt" => Resolved::File(FileInfo::from_entry(
            link.path.clone(),
            link.file_name.clone(),
            link.metadata,
            link.link_target.clone(),
        )),
        _ => missing(),
    };
    let mut long = args(&["/tmp/d/link.txt"]);
    long.long = true;
    let (out, _) = run(&long, &resolve);
    assert!(out.contains("link.txt ->"));
    assert!(out.contains("target.txt"));
    assert!(out.starts_with("lrwxrwxrwx"));
    assert!(out.ends_with("link.txt -> /tmp/d/target.txt\n"));
}

#[test]
fn test_empty_directory() {
    let resolve = |path: &str| match path {
        "/tmp/d" => found(vec![]),
        _ => missing(),
    };
    let (out, err) = run(&args(&["/tmp/d"]), &resolve);
    assert!(out.is_empty());
    assert!(err.is_empty());
}

#[test]
fn empty_directory_in_long_format_has_a_total_of_zero() {
    let resolve = |path: &str| match path {
        "/tmp/d" => found(vec![]),
        _ => missing(),
    };
    let mut long = args(&["/tmp/d"]);
    long.long = true;
    let (out, _) = run(&long, &resolve);
    assert_eq!(out, "total 0\n");
}

#[test]
fn test_total_blocks() {
    let resolve = |path: &str| match path {
        "/tmp/d" => found(vec![regular("/tmp/d", "file1.txt", 5), regular("/tmp/d", "file2.txt", 5)]),
        _ => missing(),
    };
    let mut long = args(&["/tmp/d"]);
    long.long = true;
    let (out, _) = run(&long, &resolve);
    let first = out.lines().next().unwrap();
    assert!(first.starts_with("total "));
    assert!(first["total ".len()..].chars().all(|c| c.is_ascii_digit()));
    assert_eq!(first, "total 8");
}

#[test]
fn total_rounds_each_entry_up() {
    let mut a = regular("/tmp/d", "a", 1);
    a.metadata.blocks = 1;
    let mut b = regular("/tmp/d", "b", 1);
    b.metadata.blocks = 3;
    let resolve = move |path: &str| match path {
        "/tmp/d" => found(vec![
            FileInfo::from_entry(a.path.clone(), a.file_name.clone(), a.metadata, None),
            FileInfo::from_entry(b.path.clone(), b.file_name.clone(), b.metadata, None),
        ]),
        _ => missing(),
    };
    let mut long = args(&["/tmp/d"]);
    long.long = true;
    long.one = true;
    let (out, _) = run(&long, &resolve);
    // One block is 1 KiB rounded up, three blocks are 2.
    assert_eq!(out, "total 3\na\nb\n");
}

#[test]
fn test_multiple_paths_headers() {
    let resolve = |path: &str| match path {
        "/tmp/one" => found(vec![regular("/tmp/one", "file1.txt", 0)]),
        "/tmp/two" => found(vec![regular("/tmp/two", "file2.txt", 0)]),
        _ => missing(),
    };
    let (output, _) = run(&args(&["/tmp/one", "/tmp/two"]), &resolve);
    assert!(output.contains(&format!("{}:", "/tmp/one")));
    assert!(output.contains(&format!("{}:", "/tmp/two")));

    let lines: Vec<&str> = output.lines().collect();
    let mut found_blank = false;
    for i in 1..lines.len() {
        if lines[i].is_empty() && !lines[i - 1].is_empty() {
            found_blank = true;
            break;
        }
    }
    assert!(found_blank, "Should have blank line between multiple path listings");
    assert_eq!(output, "/tmp/one:\nfile1.txt\n\n/tmp/two:\nfile2.txt\n");

    let (single, _) = run(&args(&["/tmp/one"]), &resolve);
    assert_eq!(single, "file1.txt\n");
}

#[test]
fn recursion_visits_subdirectories_by_name_whatever_the_display_order() {
    let resolve = |path: &str| match path {
        "/r" => found(vec![
            entry("/r", "b", FileKind::Directory, 0o040755, 0, 300),
            entry("/r", "a", FileKind::Directory, 0o040755, 0, 100),
            entry("/r", "B", FileKind::Directory, 0o040755, 0, 200),
            entry("/r", ".git", FileKind::Directory, 0o040755, 0, 400),
            entry("/r", "f", FileKind::Regular, 0o100644, 0, 500),
        ]),
        "/r/a" => found(vec![subdir("/r/a", "deep")]),
        "/r/a/deep" => found(vec![]),
        "/r/b" => found(vec![regular("/r/b", "x", 0)]),
        "/r/B" => missing(),
        _ => missing(),
    };
    let mut recursive = args(&["/r"]);
    recursive.recursive = true;
    recursive.all = true;
    let (out, err) = run(&recursive, &resolve);
    assert_eq!(
        out,
        ".git\na\nb\nB\nf\n\n\n/r/a:\ndeep\n\n/r/a/deep:\n\n/r/b:\nx\n"
    );
    // The failure below the root is reported at once, with its path.
    assert_eq!(err, "ls: /r/B: No such file or directory (os error 2)\n");

    // By time, reversed: the listing changes, the visits do not.
    recursive.time = true;
    recursive.reverse = true;
    let (out, _) = run(&recursive, &resolve);
    assert_eq!(
        out,
        "a\nB\nb\n.git\nf\n\n\n/r/a:\ndeep\n\n/r/a/deep:\n\n/r/b:\nx\n"
    );
}
