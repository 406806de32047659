//! The entry record: a snapshot of one filesystem object, taken once and
//! read-only afterwards.

use vstd::prelude::*;

verus! {

/// What kind of object an entry is.
#[derive(Clone, Copy, Debug, PartialEq, Eq, Structural)]
pub enum FileKind {
    Regular,
    Directory,
    Symlink,
    Other,
}

/// A point in time: whole seconds after the start of 1970 (UTC), negative
/// before it, and the nanoseconds into that second.
#[derive(Clone, Copy, Debug, PartialEq, Eq, Structural)]
pub struct Timestamp {
    pub secs: i64,
    pub nanos: u32,
}

impl Timestamp {
    /// The start of 1970, the oldest time an entry is taken to have.
    pub open spec fn epoch_spec() -> Timestamp {
        Timestamp { secs: 0, nanos: 0 }
    }

    #[verifier::when_used_as_spec(epoch_spec)]
    pub fn epoch() -> (t: Timestamp)
        ensures
            t == Self::epoch_spec(),
    {
        Timestamp { secs: 0, nanos: 0 }
    }

    /// Whether `self` is strictly earlier than `other`.
    pub open spec fn is_before(self, other: Timestamp) -> bool {
        self.secs < other.secs || (self.secs == other.secs && self.nanos < other.nanos)
    }

    /// Whether `self` is strictly earlier than `other`.
    pub fn before(&self, other: &Timestamp) -> (b: bool)
        ensures
            b == self.is_before(*other),
    {
        self.secs < other.secs || (self.secs == other.secs && self.nanos < other.nanos)
    }
}

/// What the filesystem reported of an entry when it was looked at.
#[derive(Clone, Copy, Debug, PartialEq, Eq, Structural)]
pub struct Metadata {
    /// The type tag.
    pub kind: FileKind,
    /// The mode word; its low nine bits are the permissions.
    pub mode: u32,
    /// Size in bytes.
    pub size: u64,
    /// Number of 512-byte blocks allocated.
    pub blocks: u64,
    /// Number of hard links.
    pub nlink: u64,
    /// Owner id.
    pub uid: u32,
    /// Group id.
    pub gid: u32,
    /// Time of the last modification, where the filesystem has one.
    pub modified: Option<Timestamp>,
}

impl Metadata {
    pub open spec fn is_dir_spec(&self) -> bool {
        self.kind == FileKind::Directory
    }

    /// Whether the entry is a directory.
    #[verifier::when_used_as_spec(is_dir_spec)]
    pub fn is_dir(&self) -> (b: bool)
        ensures
            b == self.is_dir_spec(),
    {
        match self.kind {
            FileKind::Directory => true,
            _ => false,
        }
    }

    pub open spec fn is_symlink_spec(&self) -> bool {
        self.kind == FileKind::Symlink
    }

    /// Whether the entry is a symbolic link.
    #[verifier::when_used_as_spec(is_symlink_spec)]
    pub fn is_symlink(&self) -> (b: bool)
        ensures
            b == self.is_symlink_spec(),
    {
        match self.kind {
            FileKind::Symlink => true,
            _ => false,
        }
    }
}

/// One filesystem object: where it is, what it is called and what the
/// filesystem reported of it.
pub struct FileInfo {
    /// Path by which the entry was reached.
    pub path: String,
    /// Base name, fixed when the record is made.
    pub file_name: String,
    /// The metadata snapshot.
    pub metadata: Metadata,
    /// Where a symbolic link points, if that could be read.
    pub link_target: Option<String>,
}

/// The final component of `path` as `std::path::Path::file_name` gives it.
pub uninterp spec fn final_component(path: Seq<char>) -> Option<Seq<char>>;

/// `Path::file_name` of `path`: its final component, or `None` where the
/// path has none (it ends in `..`, or is a root or empty).
#[verifier::external_body]
fn path_file_name(path: &str) -> (name: Option<String>)
    ensures
        match name {
            Some(n) => final_component(path@) == Some(n@),
            None => final_component(path@).is_none(),
        },
{
    match std::path::Path::new(path).file_name() {
        Some(name) => Some(name.to_string_lossy().to_string()),
        None => None,
    }
}

/// The base name a single-path record gets: the path's final component, or
/// `.` where it has none.
pub open spec fn base_name_or_dot(component: Option<Seq<char>>) -> Seq<char> {
    match component {
        Some(n) => n,
        None => seq!['.'],
    }
}

/// The base name to use, given the final component of a path, if any.
pub fn base_name(component: Option<String>) -> (name: String)
    ensures
        name@ == base_name_or_dot(
            match component {
                Some(n) => Some(n@),
                None => None,
            },
        ),
{
    match component {
        Some(n) => n,
        None => {
            let mut dot = String::new();
            dot.push('.');
            dot
        },
    }
}

/// Whether a base name marks a hidden entry: it begins with a period.
pub open spec fn is_hidden_name(name: Seq<char>) -> bool {
    name.len() > 0 && name[0] == '.'
}

/// Whether `name` begins with a period.
pub fn name_is_hidden(name: &str) -> (b: bool)
    ensures
        b == is_hidden_name(name@),
{
    !name.is_empty() && name.get_char(0) == '.'
}

impl FileInfo {
    /// The link target kept for a record of the given kind: only a
    /// symbolic link has one.
    pub open spec fn kept_target(kind: FileKind, target: Option<String>) -> Option<String> {
        if kind == FileKind::Symlink {
            target
        } else {
            None
        }
    }

    /// Makes the record of a directory entry from what was read of it.
    pub fn from_entry(
        path: String,
        file_name: String,
        metadata: Metadata,
        link_target: Option<String>,
    ) -> (info: FileInfo)
        ensures
            info.path == path,
            info.file_name == file_name,
            info.metadata == metadata,
            info.link_target == Self::kept_target(metadata.kind, link_target),
    {
        let kept = if metadata.is_symlink() {
            link_target
        } else {
            None
        };
        FileInfo { path, file_name, metadata, link_target: kept }
    }

    /// Makes the record of a single path from what was read of it; the
    /// base name is the path's final component, or `.` where it has none.
    pub fn from_path(path: String, metadata: Metadata, link_target: Option<String>) -> (info:
        FileInfo)
        ensures
            info.path == path,
            info.file_name@ == base_name_or_dot(final_component(path@)),
            info.metadata == metadata,
            info.link_target == Self::kept_target(metadata.kind, link_target),
    {
        let file_name = base_name(path_file_name(path.as_str()));
        Self::from_entry(path, file_name, metadata, link_target)
    }

    pub open spec fn modified_time_spec(&self) -> Timestamp {
        match self.metadata.modified {
            Some(t) => t,
            None => Timestamp::epoch_spec(),
        }
    }

    /// The modification time by which entries are ordered and dated: an
    /// entry without one counts as modified at the start of 1970.
    #[verifier::when_used_as_spec(modified_time_spec)]
    pub fn modified_time(&self) -> (t: Timestamp)
        ensures
            t == self.modified_time_spec(),
    {
        match self.metadata.modified {
            Some(t) => t,
            None => Timestamp::epoch(),
        }
    }

    /// Number of 512-byte blocks allocated.
    pub fn blocks(&self) -> (n: u64)
        ensures
            n == self.metadata.blocks,
    {
        self.metadata.blocks
    }

    pub open spec fn is_hidden_spec(&self) -> bool {
        is_hidden_name(self.file_name@)
    }

    /// Whether the entry is hidden: its base name begins with a period.
    #[verifier::when_used_as_spec(is_hidden_spec)]
    pub fn is_hidden(&self) -> (b: bool)
        ensures
            b == self.is_hidden_spec(),
    {
        name_is_hidden(self.file_name.as_str())
    }

    pub open spec fn is_dir_spec(&self) -> bool {
        self.metadata.kind == FileKind::Directory
    }

    /// Whether the entry is a directory.
    #[verifier::when_used_as_spec(is_dir_spec)]
    pub fn is_dir(&self) -> (b: bool)
        ensures
            b == self.is_dir_spec(),
    {
        self.metadata.is_dir()
    }

    pub open spec fn symlink_target_spec(&self) -> Option<Seq<char>> {
        if self.metadata.kind == FileKind::Symlink {
            match self.link_target {
                Some(t) => Some(t@),
                None => None,
            }
        } else {
            None
        }
    }

    /// Where the entry points, if it is a symbolic link whose target was
    /// read.
    pub fn symlink_target(&self) -> (target: Option<&String>)
        ensures
            match target {
                Some(t) => self.symlink_target_spec() == Some(t@),
                None => self.symlink_target_spec().is_none(),
            },
    {
        if self.metadata.is_symlink() {
            self.link_target.as_ref()
        } else {
            None
        }
    }

    /// Size in bytes.
    pub fn size(&self) -> (n: u64)
        ensures
            n == self.metadata.size,
    {
        self.metadata.size
    }

    /// Owner id.
    pub fn uid(&self) -> (id: u32)
        ensures
            id == self.metadata.uid,
    {
        self.metadata.uid
    }

    /// Group id.
    pub fn gid(&self) -> (id: u32)
        ensures
            id == self.metadata.gid,
    {
        self.metadata.gid
    }

    /// Number of hard links.
    pub fn nlink(&self) -> (n: u64)
        ensures
            n == self.metadata.nlink,
    {
        self.metadata.nlink
    }

    /// Time of the last modification, where the filesystem has one.
    pub fn modified(&self) -> (t: Option<Timestamp>)
        ensures
            t == self.metadata.modified,
    {
        self.metadata.modified
    }
}

} // verus!
