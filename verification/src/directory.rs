//! What a directory holds: the entries that are listed, the failures that
//! are reported, and the subdirectories that a recursive listing visits.

use crate::file_info::{is_hidden_name, name_is_hidden, FileInfo};
use crate::sorting::pointees;
use vstd::prelude::*;

verus! {

/// One position in a directory as it was read.
pub enum DirItem {
    /// An entry and its metadata.
    Found(FileInfo),
    /// An entry whose metadata could not be read.
    Unreadable { name: String, error: String },
    /// A position at which reading the directory itself failed.
    Broken { error: String },
}

/// What was collected from a directory.
pub struct Listing {
    /// The entries to list, in the order in which they were read.
    pub entries: Vec<FileInfo>,
    /// The failures to report, in the order in which they were met.
    pub errors: Vec<String>,
}

/// Whether an entry called `name` is left out: it is hidden and hidden
/// entries are not asked for.
pub open spec fn is_left_out(name: Seq<char>, show_all: bool) -> bool {
    is_hidden_name(name) && !show_all
}

/// The entries that are listed: those that were found and are not left
/// out, in the order in which they were read.
pub open spec fn listed_entries(items: Seq<DirItem>, show_all: bool) -> Seq<FileInfo>
    decreases items.len(),
{
    if items.len() == 0 {
        Seq::empty()
    } else {
        let rest = listed_entries(items.drop_last(), show_all);
        match items.last() {
            DirItem::Found(info) => if is_left_out(info.file_name@, show_all) {
                rest
            } else {
                rest.push(info)
            },
            _ => rest,
        }
    }
}

/// The failures that are reported: every failure of the directory itself,
/// and those of the entries that are not left out, in the order in which
/// they were met.
pub open spec fn reported_errors(items: Seq<DirItem>, show_all: bool) -> Seq<String>
    decreases items.len(),
{
    if items.len() == 0 {
        Seq::empty()
    } else {
        let rest = reported_errors(items.drop_last(), show_all);
        match items.last() {
            DirItem::Found(_) => rest,
            DirItem::Unreadable { name, error } => if is_left_out(name@, show_all) {
                rest
            } else {
                rest.push(error)
            },
            DirItem::Broken { error } => rest.push(error),
        }
    }
}

/// What is listed of a directory. No entry that is left out is listed:
/// without `show_all`, no entry whose name begins with a period. Every
/// entry that was found and is not left out is listed: with `show_all`,
/// every entry that was found.
pub proof fn lemma_listed_entries(items: Seq<DirItem>, show_all: bool)
    ensures
        forall|k: int|
            0 <= k < listed_entries(items, show_all).len() ==> !is_left_out(
                (#[trigger] listed_entries(items, show_all)[k]).file_name@,
                show_all,
            ),
        forall|i: int|
            0 <= i < items.len() && (#[trigger] items[i]) is Found && !is_left_out(
                items[i]->Found_0.file_name@,
                show_all,
            ) ==> listed_entries(items, show_all).contains(items[i]->Found_0),
    decreases items.len(),
{
    if items.len() > 0 {
        let front = items.drop_last();
        lemma_listed_entries(front, show_all);
        let rest = listed_entries(front, show_all);
        let all = listed_entries(items, show_all);
        assert forall|i: int|
            0 <= i < items.len() && (#[trigger] items[i]) is Found && !is_left_out(
                items[i]->Found_0.file_name@,
                show_all,
            ) implies all.contains(items[i]->Found_0) by {
            if i < front.len() {
                assert(front[i] == items[i]);
                let w = choose|w: int| 0 <= w < rest.len() && rest[w] == items[i]->Found_0;
                assert(all[w] == rest[w]);
            } else {
                assert(all[all.len() - 1] == items[i]->Found_0);
            }
        }
    }
}

/// The items in the opposite order.
pub fn reversed<T>(items: Vec<T>) -> (back: Vec<T>)
    ensures
        back@ == items@.reverse(),
{
    let mut items = items;
    let ghost start = items@;
    let mut back: Vec<T> = Vec::new();
    while items.len() > 0
        invariant
            items.len() + back.len() == start.len(),
            items@ == start.subrange(0, items.len() as int),
            back@ == start.reverse().subrange(0, back.len() as int),
        decreases items.len(),
    {
        let x = items.pop().unwrap();
        back.push(x);
        proof {
            assert(items@ =~= start.subrange(0, items.len() as int));
            assert(back@ =~= start.reverse().subrange(0, back.len() as int));
        }
    }
    proof {
        assert(back@ =~= start.reverse());
    }
    back
}

/// Collects the entries of a directory from what was read of it. A hidden
/// entry is left out unless `show_all` is set. An entry that could not be
/// read is skipped and its failure kept for the report; the rest is
/// collected all the same.
pub fn collect_entries(items: Vec<DirItem>, show_all: bool) -> (listing: Listing)
    ensures
        listing.entries@ == listed_entries(items@, show_all),
        listing.errors@ == reported_errors(items@, show_all),
        forall|k: int|
            0 <= k < listing.entries.len() ==> show_all || !(#[trigger] listing.entries[k]).is_hidden_spec(),
{
    let ghost start = items@;
    let n = items.len();
    let mut rest = reversed(items);
    let mut entries: Vec<FileInfo> = Vec::new();
    let mut errors: Vec<String> = Vec::new();
    while rest.len() > 0
        invariant
            rest.len() <= n,
            start.len() == n,
            rest@ == start.reverse().subrange(0, rest.len() as int),
            entries@ == listed_entries(start.subrange(0, n - rest.len()), show_all),
            errors@ == reported_errors(start.subrange(0, n - rest.len()), show_all),
            forall|k: int|
                0 <= k < entries.len() ==> show_all || !(#[trigger] entries[k]).is_hidden_spec(),
        decreases rest.len(),
    {
        let ghost done = n - rest.len();
        let item = rest.pop().unwrap();
        proof {
            assert(item == start[done]);
            assert(start.subrange(0, done + 1).drop_last() =~= start.subrange(0, done));
            assert(start.subrange(0, done + 1).last() == item);
            assert(rest@ =~= start.reverse().subrange(0, rest.len() as int));
        }
        match item {
            DirItem::Found(info) => {
                if show_all || !info.is_hidden() {
                    entries.push(info);
                }
            },
            DirItem::Unreadable { name, error } => {
                if show_all || !name_is_hidden(name.as_str()) {
                    errors.push(error);
                }
            },
            DirItem::Broken { error } => {
                errors.push(error);
            },
        }
    }
    proof {
        assert(start.subrange(0, n as int) =~= start);
    }
    Listing { entries, errors }
}

/// Whether a recursive listing goes into an entry: it is a directory and
/// not hidden.
pub open spec fn is_visited(info: FileInfo) -> bool {
    info.is_dir_spec() && !info.is_hidden_spec()
}

/// The entries a recursive listing goes into, in the order in which they
/// are listed.
pub open spec fn subdirectories(entries: Seq<FileInfo>) -> Seq<FileInfo> {
    entries.filter(visited())
}

/// [`is_visited`] as a property of entries.
pub open spec fn visited() -> spec_fn(FileInfo) -> bool {
    |info: FileInfo| is_visited(info)
}

/// Picks the directories that are not hidden.
pub fn get_subdirectories(entries: &[FileInfo]) -> (dirs: Vec<&FileInfo>)
    ensures
        pointees(dirs@) == subdirectories(entries@),
{
    let mut dirs: Vec<&FileInfo> = Vec::new();
    let mut i: usize = 0;
    proof {
        reveal(Seq::filter);
        assert(entries@.subrange(0, 0) =~= Seq::<FileInfo>::empty());
        assert(pointees(dirs@) =~= Seq::<FileInfo>::empty());
    }
    while i < entries.len()
        invariant
            i <= entries.len(),
            pointees(dirs@) == subdirectories(entries@.subrange(0, i as int)),
        decreases entries.len() - i,
    {
        let entry = &entries[i];
        let ghost held = dirs@;
        proof {
            reveal(Seq::filter);
            assert(entries@.subrange(0, i + 1).drop_last() =~= entries@.subrange(0, i as int));
            assert(entries@.subrange(0, i + 1).last() == *entry);
        }
        if entry.is_dir() && !entry.is_hidden() {
            dirs.push(entry);
            proof {
                assert(pointees(dirs@) =~= pointees(held).push(*entry));
            }
        }
        i = i + 1;
    }
    proof {
        assert(entries@.subrange(0, i as int) =~= entries@);
    }
    dirs
}

} // verus!
