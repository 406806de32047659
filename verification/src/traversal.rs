//! The traversal: which paths are listed in which order, and which lines
//! each of them gives. The caller looks each path up and hands back what
//! it found; the traversal decides what is written and where to go next.

use crate::directory::{
    collect_entries, get_subdirectories, listed_entries, reported_errors, reversed, subdirectories,
    DirItem,
};
use crate::file_info::FileInfo;
use crate::formatter::{is_line_of, FileInfoFormatter, Format};
use crate::directory::visited;
use crate::sorting::{
    bytes_le, bytes_lt, display_order, lemma_bytes_le_total, lemma_filtered_alike,
    lemma_mapped_alike, lemma_stable_order, lemma_display_order_strict_weak,
    lemma_visit_order_strict_weak, name_bytes, pointees, sort_directories, sort_entries,
    stable_sorted, visit_order, SortConfig,
};
use vstd::relations::sorted_by;
use vstd::seq_lib::lemma_sorted_unique;
use crate::text::{decimal, decimal_string};
use crate::utils::{blocks_in_kib, kib_of_blocks};
use vstd::prelude::*;

verus! {

/// The options of a run, as the command line gave them.
pub struct Args {
    /// Use the long format.
    pub long: bool,
    /// Show hidden entries too.
    pub all: bool,
    /// Show sizes.
    pub size: bool,
    /// Write sizes for human readers.
    pub human_readable: bool,
    /// List subdirectories recursively.
    pub recursive: bool,
    /// Order by modification time, newest first.
    pub time: bool,
    /// Reverse the order.
    pub reverse: bool,
    /// One entry per line.
    pub one: bool,
    /// The paths to list.
    pub paths: Vec<String>,
}

/// What a traversal needs to know of the options.
#[derive(Clone, Copy, Debug, PartialEq, Eq, Structural)]
pub struct Options {
    /// The format of entry lines.
    pub format: Format,
    /// Whether sizes are written for human readers.
    pub human_readable: bool,
    /// Whether hidden entries are listed.
    pub show_all: bool,
    /// Whether a directory's listing begins with a total.
    pub long: bool,
    /// Whether subdirectories are listed too.
    pub recursive: bool,
    /// The order of a listing.
    pub sort: SortConfig,
}

/// A path that is still to be listed.
pub struct Pending {
    /// The path.
    pub path: String,
    /// Whether a header is asked for, should the path be a directory.
    pub show_header: bool,
    /// How far below a root path this one lies.
    pub depth: usize,
    /// Whether a blank line comes first.
    pub blank_before: bool,
}

/// What the caller found at a path.
pub enum Resolved {
    /// A single file.
    File(FileInfo),
    /// A directory and what was read of it.
    Directory(Vec<DirItem>),
    /// A directory that could not be read.
    Unreadable(String),
    /// Nothing that could be looked at.
    Missing(String),
}

/// One line of output.
pub enum Output {
    /// An empty line.
    Blank,
    /// The header of a directory.
    Header { path: String },
    /// The total of a directory in long format.
    Total { kib: u128 },
    /// An entry.
    Entry(FileInfo),
    /// An entry that could not be read, for the error stream.
    Warning { error: String },
    /// A path that could not be listed, for the error stream.
    Failure { path: String, error: String },
}

/// A run in progress.
pub struct Traversal {
    /// The options.
    pub options: Options,
    /// The paths still to list; the last one is next.
    pub pending: Vec<Pending>,
    /// The failures of root paths, which are reported at the end.
    pub deferred: Vec<Output>,
}

/// The format that the switches choose: one entry per line means names
/// only, whatever else is set; then long wins over sizes.
pub open spec fn chosen_format(one: bool, long: bool, size: bool) -> Format {
    if one {
        Format::Name
    } else if long {
        Format::Long
    } else if size {
        Format::WithSize
    } else {
        Format::Name
    }
}

/// The root paths of a run: the paths given, or `.` where none was.
pub open spec fn root_paths(paths: Seq<String>) -> Seq<Seq<char>> {
    if paths.len() == 0 {
        seq![seq!['.']]
    } else {
        paths.map_values(|p: String| p@)
    }
}

/// Whether `task` is the root path `path` at place `index` of `count`:
/// root paths have a header and are set apart by blank lines only where
/// there are several.
pub open spec fn is_root_task(task: Pending, path: Seq<char>, index: int, count: int) -> bool {
    &&& task.path@ == path
    &&& task.depth == 0
    &&& task.show_header == (count > 1)
    &&& task.blank_before == (count > 1 && index > 0)
}

/// The depth one level further down; it stops at the largest number.
pub open spec fn next_depth(depth: usize) -> usize {
    if depth < usize::MAX {
        (depth + 1) as usize
    } else {
        depth
    }
}

/// The task of listing the subdirectory `dir` of a directory at `depth`.
pub open spec fn nested_task(dir: FileInfo, depth: usize) -> Pending {
    Pending { path: dir.path, show_header: true, depth: next_depth(depth), blank_before: true }
}

/// The subdirectories to visit below a directory at `depth`, in the order
/// of the visits: those that are not hidden, by name.
pub open spec fn nested_tasks(entries: Seq<FileInfo>, depth: usize) -> Seq<Pending> {
    visits(entries).map_values(|dir: FileInfo| nested_task(dir, depth))
}

/// The subdirectories of a listing in the order in which they are
/// visited.
pub open spec fn visits(entries: Seq<FileInfo>) -> Seq<FileInfo> {
    stable_sorted(subdirectories(entries), visit_order())
}

/// The names of the subdirectories of a listing, byte by byte, in the
/// order in which they are visited.
pub open spec fn visited_names(entries: Seq<FileInfo>) -> Seq<Seq<u8>> {
    visits(entries).map_values(name_bytes())
}

/// The visits below a listing go by name: only directories that are not
/// hidden are visited, each as often as it is listed, and no name comes
/// before the name of an earlier visit.
pub proof fn lemma_visits_in_name_order(entries: Seq<FileInfo>)
    ensures
        visits(entries).to_multiset() == subdirectories(entries).to_multiset(),
        sorted_by(visited_names(entries), bytes_le()),
        forall|a: int, b: int|
            0 <= a < b < visits(entries).len() ==> !bytes_lt(
                name_bytes()(#[trigger] visits(entries)[b]),
                name_bytes()(#[trigger] visits(entries)[a]),
            ),
{
    lemma_visit_order_strict_weak();
    lemma_stable_order(subdirectories(entries), visit_order());
    let before = visit_order();
    let v = visits(entries);
    assert forall|a: int, b: int| 0 <= a < b < v.len() implies !bytes_lt(
        name_bytes()(#[trigger] v[b]),
        name_bytes()(#[trigger] v[a]),
    ) by {
        assert(!before(v[b], v[a]));
    }
    let names = visited_names(entries);
    let le = bytes_le();
    assert forall|a: int, b: int| 0 <= a < b < names.len() implies #[trigger] le(
        names[a],
        names[b],
    ) by {
        assert(!bytes_lt(name_bytes()(v[b]), name_bytes()(v[a])));
    }
}

/// The order of the visits does not depend on the order of the listing:
/// however a listing is ordered for display, the subdirectories below it
/// are visited in the same order of names.
pub proof fn lemma_visits_ignore_display_order(
    entries: Seq<FileInfo>,
    first: SortConfig,
    second: SortConfig,
)
    ensures
        visited_names(stable_sorted(entries, display_order(first))) == visited_names(
            stable_sorted(entries, display_order(second)),
        ),
{
    let e1 = stable_sorted(entries, display_order(first));
    let e2 = stable_sorted(entries, display_order(second));
    lemma_display_order_strict_weak(first);
    lemma_display_order_strict_weak(second);
    lemma_stable_order(entries, display_order(first));
    lemma_stable_order(entries, display_order(second));
    lemma_filtered_alike(e1, e2, visited());
    lemma_visits_in_name_order(e1);
    lemma_visits_in_name_order(e2);
    lemma_mapped_alike(visits(e1), visits(e2), name_bytes());
    lemma_bytes_le_total();
    lemma_sorted_unique(visited_names(e1), visited_names(e2), bytes_le());
}

/// The total of a listing: the allocated sizes of its entries, each in
/// units of 1024 bytes and rounded up, added together.
pub open spec fn total_kib(entries: Seq<FileInfo>) -> nat
    decreases entries.len(),
{
    if entries.len() == 0 {
        0
    } else {
        total_kib(entries.drop_last()) + blocks_in_kib(entries.last().metadata.blocks as nat)
    }
}

/// Whether the listing of `task` begins with a header: where one was
/// asked for, and always below a root path of a recursive run.
pub open spec fn shows_header(task: Pending, options: Options) -> bool {
    task.show_header || (options.recursive && task.depth > 0)
}

/// The lines before a listing: the blank line, and for a directory the
/// header.
pub open spec fn lead_in(task: Pending, options: Options, directory: bool) -> Seq<Output> {
    (if task.blank_before {
        seq![Output::Blank]
    } else {
        Seq::empty()
    }) + (if directory && shows_header(task, options) {
        seq![Output::Header { path: task.path }]
    } else {
        Seq::empty()
    })
}

/// The entries of a directory as they are listed: those collected, in the
/// order of the options.
pub open spec fn shown_entries(items: Seq<DirItem>, options: Options) -> Seq<FileInfo> {
    stable_sorted(listed_entries(items, options.show_all), display_order(options.sort))
}

/// The lines that report entries that could not be read.
pub open spec fn warning_lines(errors: Seq<String>) -> Seq<Output> {
    errors.map_values(|e: String| Output::Warning { error: e })
}

/// The lines of entries.
pub open spec fn entry_lines(entries: Seq<FileInfo>) -> Seq<Output> {
    entries.map_values(|info: FileInfo| Output::Entry(info))
}

/// The lines of a directory's own listing: the entries that could not be
/// read, the total where the long switch is set, then the entries.
pub open spec fn directory_lines(items: Seq<DirItem>, options: Options) -> Seq<Output> {
    warning_lines(reported_errors(items, options.show_all)) + (if options.long {
        seq![Output::Total { kib: total_kib(shown_entries(items, options)) as u128 }]
    } else {
        Seq::empty()
    }) + entry_lines(shown_entries(items, options))
}

/// The failure of `task` as a line.
pub open spec fn failure_of(task: Pending, error: String) -> Output {
    Output::Failure { path: task.path, error }
}

/// The lines that listing `task` gives at once, for what was found. The
/// failure of a path below a root is among them; that of a root path is
/// kept for the end.
pub open spec fn step_lines(task: Pending, options: Options, found: Resolved) -> Seq<Output> {
    match found {
        Resolved::File(info) => lead_in(task, options, false) + seq![Output::Entry(info)],
        Resolved::Directory(items) => lead_in(task, options, true) + directory_lines(
            items@,
            options,
        ),
        Resolved::Unreadable(error) => lead_in(task, options, true) + (if task.depth == 0 {
            Seq::empty()
        } else {
            seq![failure_of(task, error)]
        }),
        Resolved::Missing(error) => lead_in(task, options, false) + (if task.depth == 0 {
            Seq::empty()
        } else {
            seq![failure_of(task, error)]
        }),
    }
}

/// The failures that listing `task` adds to those kept for the end.
pub open spec fn step_deferred(task: Pending, found: Resolved) -> Seq<Output> {
    match found {
        Resolved::Unreadable(error) => if task.depth == 0 {
            seq![failure_of(task, error)]
        } else {
            Seq::empty()
        },
        Resolved::Missing(error) => if task.depth == 0 {
            seq![failure_of(task, error)]
        } else {
            Seq::empty()
        },
        _ => Seq::empty(),
    }
}

/// The paths that listing `task` adds, in the order in which they are to
/// be listed: the subdirectories of a directory in a recursive run.
pub open spec fn step_tasks(task: Pending, options: Options, found: Resolved) -> Seq<Pending> {
    match found {
        Resolved::Directory(items) => if options.recursive {
            nested_tasks(shown_entries(items@, options), task.depth)
        } else {
            Seq::empty()
        },
        _ => Seq::empty(),
    }
}

/// The text of a line that is no entry.
pub open spec fn plain_text(output: Output) -> Seq<char> {
    match output {
        Output::Blank => Seq::empty(),
        Output::Header { path } => path@ + seq![':'],
        Output::Total { kib } => seq!['t', 'o', 't', 'a', 'l', ' '] + decimal(kib as nat),
        Output::Entry(info) => Seq::empty(),
        Output::Warning { error } => seq!['l', 's', ':', ' '] + error@,
        Output::Failure { path, error } => seq!['l', 's', ':', ' '] + path@ + seq![':', ' ']
            + error@,
    }
}

impl Output {
    pub open spec fn is_error_spec(&self) -> bool {
        self is Warning || self is Failure
    }

    /// Whether the line belongs on the error stream.
    #[verifier::when_used_as_spec(is_error_spec)]
    pub fn is_error(&self) -> (b: bool)
        ensures
            b == self.is_error_spec(),
    {
        match self {
            Output::Warning { .. } => true,
            Output::Failure { .. } => true,
            _ => false,
        }
    }

    /// Writes the line. An entry is written in the format of the options;
    /// its line holds what was looked up for it.
    pub fn text(&self, options: &Options) -> (line: String)
        ensures
            match *self {
                Output::Entry(info) => is_line_of(
                    line@,
                    info,
                    options.format,
                    options.human_readable,
                ),
                _ => line@ == plain_text(*self),
            },
    {
        let mut line = String::new();
        match self {
            Output::Blank => {},
            Output::Header { path } => {
                line.append(path.as_str());
                line.push(':');
            },
            Output::Total { kib } => {
                line.append("total ");
                let digits = decimal_string(*kib);
                line.append(digits.as_str());
                proof {
                    reveal_strlit("total ");
                    assert("total "@ =~= seq!['t', 'o', 't', 'a', 'l', ' ']);
                }
            },
            Output::Entry(info) => {
                let formatter = FileInfoFormatter {
                    file_info: info,
                    format: options.format,
                    human_readable: options.human_readable,
                };
                return formatter.to_string();
            },
            Output::Warning { error } => {
                line.append("ls: ");
                line.append(error.as_str());
                proof {
                    reveal_strlit("ls: ");
                    assert("ls: "@ =~= seq!['l', 's', ':', ' ']);
                }
            },
            Output::Failure { path, error } => {
                line.append("ls: ");
                line.append(path.as_str());
                line.append(": ");
                line.append(error.as_str());
                proof {
                    reveal_strlit("ls: ");
                    reveal_strlit(": ");
                    assert("ls: "@ =~= seq!['l', 's', ':', ' ']);
                    assert(": "@ =~= seq![':', ' ']);
                }
            },
        }
        proof {
            assert(line@ =~= plain_text(*self));
        }
        line
    }
}

impl Args {
    pub open spec fn get_format_spec(&self) -> Format {
        chosen_format(self.one, self.long, self.size)
    }

    /// The format of entry lines: one entry per line means names only;
    /// then the long format wins over sizes.
    #[verifier::when_used_as_spec(get_format_spec)]
    pub fn get_format(&self) -> (format: Format)
        ensures
            format == chosen_format(self.one, self.long, self.size),
    {
        if self.one {
            Format::Name
        } else if self.long {
            Format::Long
        } else if self.size {
            Format::WithSize
        } else {
            Format::Name
        }
    }

    pub open spec fn options_spec(&self) -> Options {
        Options {
            format: chosen_format(self.one, self.long, self.size),
            human_readable: self.human_readable,
            show_all: self.all,
            long: self.long,
            recursive: self.recursive,
            sort: SortConfig { by_time: self.time, reverse: self.reverse },
        }
    }

    /// What a traversal needs to know of the options.
    #[verifier::when_used_as_spec(options_spec)]
    pub fn options(&self) -> (options: Options)
        ensures
            options == self.options_spec(),
    {
        Options {
            format: self.get_format(),
            human_readable: self.human_readable,
            show_all: self.all,
            long: self.long,
            recursive: self.recursive,
            sort: SortConfig::new(self.time, self.reverse),
        }
    }

    /// Writes the line of one entry in the format of the options.
    pub fn display_file(&self, file_info: &FileInfo) -> (line: String)
        ensures
            is_line_of(
                line@,
                *file_info,
                chosen_format(self.one, self.long, self.size),
                self.human_readable,
            ),
    {
        let formatter = FileInfoFormatter {
            file_info,
            format: self.get_format(),
            human_readable: self.human_readable,
        };
        formatter.to_string()
    }

    /// Begins a run: the traversal that lists the root paths in the order
    /// given, or `.` where none is given. With several root paths each
    /// directory gets a header, and a blank line stands before each but
    /// the first.
    pub fn run(&self) -> (traversal: Traversal)
        ensures
            traversal.options == self.options_spec(),
            traversal.deferred@.len() == 0,
            traversal.queue().len() == root_paths(self.paths@).len(),
            forall|i: int|
                0 <= i < traversal.queue().len() ==> is_root_task(
                    #[trigger] traversal.queue()[i],
                    root_paths(self.paths@)[i],
                    i,
                    root_paths(self.paths@).len() as int,
                ),
    {
        let mut pending: Vec<Pending> = Vec::new();
        let count = self.paths.len();
        if count == 0 {
            let mut dot = String::new();
            dot.push('.');
            pending.push(Pending { path: dot, show_header: false, depth: 0, blank_before: false });
            proof {
                assert(pending@.reverse()[0] == pending@[0]);
                assert(pending@[0].path@ =~= seq!['.']);
            }
        } else {
            let mut i: usize = count;
            while i > 0
                invariant
                    i <= count,
                    count == self.paths.len(),
                    pending.len() == count - i,
                    forall|k: int|
                        0 <= k < pending.len() ==> is_root_task(
                            #[trigger] pending[k],
                            self.paths[count - 1 - k]@,
                            count - 1 - k,
                            count as int,
                        ),
                decreases i,
            {
                i = i - 1;
                pending.push(
                    Pending {
                        path: self.paths[i].clone(),
                        show_header: count > 1,
                        depth: 0,
                        blank_before: count > 1 && i > 0,
                    },
                );
            }
            proof {
                assert forall|k: int| 0 <= k < pending@.reverse().len() implies is_root_task(
                    #[trigger] pending@.reverse()[k],
                    root_paths(self.paths@)[k],
                    k,
                    count as int,
                ) by {
                    assert(pending@.reverse()[k] == pending[count - 1 - k]);
                }
            }
        }
        Traversal { options: self.options(), pending, deferred: Vec::new() }
    }
}

/// Adds the lines that report `errors`, in their order.
fn push_warnings(lines: &mut Vec<Output>, errors: Vec<String>)
    ensures
        final(lines)@ == old(lines)@ + warning_lines(errors@),
{
    let ghost start = errors@;
    let n = errors.len();
    let mut rest = reversed(errors);
    while rest.len() > 0
        invariant
            rest.len() <= n,
            start.len() == n,
            rest@ == start.reverse().subrange(0, rest.len() as int),
            lines@ == old(lines)@ + warning_lines(start.subrange(0, n - rest.len())),
        decreases rest.len(),
    {
        let ghost done = n - rest.len();
        let error = rest.pop().unwrap();
        lines.push(Output::Warning { error });
        proof {
            assert(rest@ =~= start.reverse().subrange(0, rest.len() as int));
            assert(warning_lines(start.subrange(0, done + 1)) =~= warning_lines(
                start.subrange(0, done),
            ).push(Output::Warning { error: start[done] }));
            assert(lines@ =~= old(lines)@ + warning_lines(start.subrange(0, done + 1)));
        }
    }
    proof {
        assert(start.subrange(0, n as int) =~= start);
    }
}

/// Adds the lines of `entries`, in their order.
fn push_entries(lines: &mut Vec<Output>, entries: Vec<FileInfo>)
    ensures
        final(lines)@ == old(lines)@ + entry_lines(entries@),
{
    let ghost start = entries@;
    let n = entries.len();
    let mut rest = reversed(entries);
    while rest.len() > 0
        invariant
            rest.len() <= n,
            start.len() == n,
            rest@ == start.reverse().subrange(0, rest.len() as int),
            lines@ == old(lines)@ + entry_lines(start.subrange(0, n - rest.len())),
        decreases rest.len(),
    {
        let ghost done = n - rest.len();
        let info = rest.pop().unwrap();
        lines.push(Output::Entry(info));
        proof {
            assert(rest@ =~= start.reverse().subrange(0, rest.len() as int));
            assert(entry_lines(start.subrange(0, done + 1)) =~= entry_lines(
                start.subrange(0, done),
            ).push(Output::Entry(start[done])));
            assert(lines@ =~= old(lines)@ + entry_lines(start.subrange(0, done + 1)));
        }
    }
    proof {
        assert(start.subrange(0, n as int) =~= start);
    }
}

/// Adds up the total of a listing.
pub fn total_of(entries: &Vec<FileInfo>) -> (total: u128)
    ensures
        total == total_kib(entries@),
{
    let mut total: u128 = 0;
    let mut i: usize = 0;
    while i < entries.len()
        invariant
            i <= entries.len(),
            total == total_kib(entries@.subrange(0, i as int)),
            total <= i * 0x8000_0000_0000_0000,
        decreases entries.len() - i,
    {
        proof {
            assert(entries@.subrange(0, i + 1).drop_last() =~= entries@.subrange(0, i as int));
            assert((i + 1) * 0x8000_0000_0000_0000 == i * 0x8000_0000_0000_0000
                + 0x8000_0000_0000_0000) by (nonlinear_arith);
            assert(i * 0x8000_0000_0000_0000 <= 0xffff_ffff_ffff_ffff * 0x8000_0000_0000_0000)
                by (nonlinear_arith)
                requires
                    i <= 0xffff_ffff_ffff_ffff,
            ;
        }
        total = total + kib_of_blocks(entries[i].blocks()) as u128;
        i = i + 1;
    }
    proof {
        assert(entries@.subrange(0, i as int) =~= entries@);
    }
    total
}

impl Traversal {
    /// The paths still to list, in the order in which they will be.
    pub open spec fn queue(&self) -> Seq<Pending> {
        self.pending@.reverse()
    }

    /// The path to look up next, if any is left.
    pub fn next_path(&self) -> (path: Option<&String>)
        ensures
            match path {
                Some(p) => self.queue().len() > 0 && *p == self.queue()[0].path,
                None => self.queue().len() == 0,
            },
    {
        let n = self.pending.len();
        if n == 0 {
            None
        } else {
            Some(&self.pending[n - 1].path)
        }
    }

    /// Puts the subdirectories of a listing first in the queue: those that
    /// are not hidden, in the order of their names whatever the order of
    /// the listing.
    pub fn list_subdirectories(&mut self, entries: &Vec<FileInfo>, depth: usize)
        ensures
            final(self).queue() == nested_tasks(entries@, depth) + old(self).queue(),
            final(self).options == old(self).options,
            final(self).deferred == old(self).deferred,
    {
        let mut dirs = get_subdirectories(entries.as_slice());
        sort_directories(&mut dirs);
        let next = if depth < usize::MAX {
            depth + 1
        } else {
            depth
        };
        let ghost tasks = nested_tasks(entries@, depth);
        let n = dirs.len();
        let mut i: usize = n;
        proof {
            assert(tasks.len() == n);
            assert(tasks.subrange(n as int, n as int) =~= Seq::<Pending>::empty());
            assert(self.pending@.reverse() =~= tasks.subrange(n as int, n as int) + old(
                self,
            ).queue());
        }
        while i > 0
            invariant
                i <= n,
                n == dirs.len(),
                tasks == nested_tasks(entries@, depth),
                tasks.len() == n,
                pointees(dirs@) == stable_sorted(subdirectories(entries@), visit_order()),
                next == next_depth(depth),
                self.queue() == tasks.subrange(i as int, n as int) + old(self).queue(),
                self.options == old(self).options,
                self.deferred == old(self).deferred,
            decreases i,
        {
            i = i - 1;
            let ghost held = self.pending@;
            let task = Pending {
                path: dirs[i].path.clone(),
                show_header: true,
                depth: next,
                blank_before: true,
            };
            proof {
                assert(pointees(dirs@)[i as int] == *dirs[i as int]);
                assert(task == tasks[i as int]);
            }
            self.pending.push(task);
            proof {
                assert(self.pending@.reverse() =~= seq![task] + held.reverse());
                assert(tasks.subrange(i as int, n as int) =~= seq![task] + tasks.subrange(
                    i + 1,
                    n as int,
                ));
            }
        }
        proof {
            assert(tasks.subrange(0, n as int) =~= tasks);
        }
    }

    /// Lists the next path, given what was found there. Gives the lines
    /// to write now, takes the path off the queue, puts the
    /// subdirectories to visit in its place, and keeps the failure of a
    /// root path for the end. With nothing left to list, nothing happens.
    pub fn list_path(&mut self, found: Resolved) -> (lines: Vec<Output>)
        ensures
            final(self).options == old(self).options,
            old(self).queue().len() == 0 ==> lines@.len() == 0 && final(self).queue()
                == old(self).queue() && final(self).deferred@ == old(self).deferred@,
            old(self).queue().len() > 0 ==> {
                let task = old(self).queue()[0];
                &&& lines@ == step_lines(task, old(self).options, found)
                &&& final(self).queue() == step_tasks(task, old(self).options, found) + old(
                    self,
                ).queue().drop_first()
                &&& final(self).deferred@ == old(self).deferred@ + step_deferred(task, found)
            },
    {
        let mut lines: Vec<Output> = Vec::new();
        if self.pending.len() == 0 {
            return lines;
        }
        let ghost first = self.queue()[0];
        let ghost start_pending = self.pending@;
        let task = self.pending.pop().unwrap();
        let options = self.options;
        proof {
            assert(first == task);
            assert(self.pending@.reverse() =~= start_pending.reverse().drop_first());
        }
        if task.blank_before {
            lines.push(Output::Blank);
        }
        let header = task.show_header || (options.recursive && task.depth > 0);
        let at_root = task.depth == 0;
        match found {
            Resolved::File(info) => {
                lines.push(Output::Entry(info));
                proof {
                    assert(lines@ =~= step_lines(task, options, found));
                    assert(self.queue() =~= step_tasks(task, options, found) + old(
                        self,
                    ).queue().drop_first());
                    assert(self.deferred@ =~= old(self).deferred@ + step_deferred(task, found));
                }
            },
            Resolved::Directory(items) => {
                if header {
                    lines.push(Output::Header { path: task.path });
                }
                let ghost lead = lines@;
                proof {
                    assert(lead =~= lead_in(task, options, true));
                }
                let listing = collect_entries(items, options.show_all);
                let mut entries = listing.entries;
                sort_entries(&mut entries, &options.sort);
                push_warnings(&mut lines, listing.errors);
                if options.long {
                    lines.push(Output::Total { kib: total_of(&entries) });
                }
                if options.recursive {
                    self.list_subdirectories(&entries, task.depth);
                }
                push_entries(&mut lines, entries);
                proof {
                    assert(lines@ =~= step_lines(task, options, found));
                    assert(self.queue() =~= step_tasks(task, options, found) + old(
                        self,
                    ).queue().drop_first());
                    assert(self.deferred@ =~= old(self).deferred@ + step_deferred(task, found));
                }
            },
            Resolved::Unreadable(error) => {
                if header {
                    lines.push(Output::Header { path: task.path.clone() });
                }
                let failure = Output::Failure { path: task.path, error };
                if at_root {
                    self.deferred.push(failure);
                } else {
                    lines.push(failure);
                }
                proof {
                    assert(lines@ =~= step_lines(task, options, found));
                    assert(self.queue() =~= step_tasks(task, options, found) + old(
                        self,
                    ).queue().drop_first());
                    assert(self.deferred@ =~= old(self).deferred@ + step_deferred(task, found));
                }
            },
            Resolved::Missing(error) => {
                let failure = Output::Failure { path: task.path, error };
                if at_root {
                    self.deferred.push(failure);
                } else {
                    lines.push(failure);
                }
                proof {
                    assert(lines@ =~= step_lines(task, options, found));
                    assert(self.queue() =~= step_tasks(task, options, found) + old(
                        self,
                    ).queue().drop_first());
                    assert(self.deferred@ =~= old(self).deferred@ + step_deferred(task, found));
                }
            },
        }
        lines
    }

    /// Ends the run: gives the failures of root paths, in the order in
    /// which they were met.
    pub fn finish(self) -> (lines: Vec<Output>)
        ensures
            lines@ == self.deferred@,
    {
        self.deferred
    }
}

} // verus!
