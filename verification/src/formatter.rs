//! The text of one output line for an entry, in each of the three
//! formats.

use crate::file_info::FileInfo;
use crate::text::{append_padded, decimal, decimal_string, pad_left};
use crate::utils::{
    blocks_in_kib, colorize_name, format_block_size, format_permissions, format_size_human,
    calendar_holds, format_time, human_size, is_date_of, is_shown_name, name_color,
    permissions_text, unknown_clock,
};
use vstd::prelude::*;

verus! {

/// How an entry is shown.
#[derive(Clone, Copy, Debug, PartialEq, Eq, Structural)]
pub enum Format {
    /// The name only.
    Name,
    /// The size, then the name.
    WithSize,
    /// Permissions, links, owner, group, size, date and name.
    Long,
}

/// An entry together with the way it is to be shown.
pub struct FileInfoFormatter<'a> {
    /// The entry.
    pub file_info: &'a FileInfo,
    /// The format of the line.
    pub format: Format,
    /// Whether sizes are written for human readers.
    pub human_readable: bool,
}

/// How an owner or a group is shown: by name where the id has one, else
/// by the id in decimal.
pub open spec fn identity_label(id: u32, name: Option<Seq<char>>) -> Seq<char> {
    match name {
        Some(n) => n,
        None => decimal(id as nat),
    }
}

/// The size column of a long line: the size for human readers or the
/// plain byte count, right-justified in eight characters.
pub open spec fn size_column(size: nat, human_readable: bool) -> Seq<char> {
    pad_left(
        if human_readable {
            human_size(size)
        } else {
            decimal(size)
        },
        8,
    )
}

/// The name column of a long line: the name as shown, followed for a
/// symbolic link by an arrow and the target.
pub open spec fn name_column(shown: Seq<char>, target: Option<Seq<char>>) -> Seq<char> {
    match target {
        Some(t) => shown + seq![' ', '-', '>', ' '] + t,
        None => shown,
    }
}

/// The columns of a long line before the name: permissions, link count,
/// owner, group, size and date, each followed by one space.
pub open spec fn long_columns(
    info: FileInfo,
    human_readable: bool,
    owner: Seq<char>,
    group: Seq<char>,
    clock: Seq<char>,
) -> Seq<char> {
    permissions_text(info.metadata) + seq![' '] + pad_left(decimal(info.metadata.nlink as nat), 3)
        + seq![' '] + owner + seq![' '] + group + seq![' '] + size_column(
        info.metadata.size as nat,
        human_readable,
    ) + seq![' '] + clock + seq![' ']
}

/// A long line: the columns, then the name column.
pub open spec fn long_line(
    info: FileInfo,
    human_readable: bool,
    owner: Seq<char>,
    group: Seq<char>,
    clock: Seq<char>,
    shown: Seq<char>,
) -> Seq<char> {
    long_columns(info, human_readable, owner, group, clock) + name_column(
        shown,
        info.symlink_target_spec(),
    )
}

/// The size that stands before a name: the size for human readers, or the
/// allocated blocks in units of 1024 bytes, right-justified in eight
/// characters.
pub open spec fn size_token(info: FileInfo, human_readable: bool) -> Seq<char> {
    if human_readable {
        human_size(info.metadata.size as nat)
    } else {
        pad_left(decimal(blocks_in_kib(info.metadata.blocks as nat)), 8)
    }
}

/// The line of an entry in a format, given the texts that come from
/// outside: the labels of owner and group, the date, and the name as
/// shown. Only a long line holds the first three.
pub open spec fn rendered(
    info: FileInfo,
    format: Format,
    human_readable: bool,
    owner: Seq<char>,
    group: Seq<char>,
    clock: Seq<char>,
    shown: Seq<char>,
) -> Seq<char> {
    match format {
        Format::Name => shown,
        Format::WithSize => size_token(info, human_readable) + seq![' '] + shown,
        Format::Long => long_line(info, human_readable, owner, group, clock, shown),
    }
}

/// Whether `text` is a line for the entry: the line of some labels for
/// owner and group, a date for the time of its modification and the name
/// in one of the forms in which it may be shown.
pub open spec fn is_line_of(
    text: Seq<char>,
    info: FileInfo,
    format: Format,
    human_readable: bool,
) -> bool {
    exists|owner: Seq<char>, group: Seq<char>, clock: Seq<char>, shown: Seq<char>|
        is_date_of(clock, info.modified_time_spec()) && is_shown_name(
            shown,
            info.file_name@,
            name_color(info.metadata),
        )
            && #[trigger] rendered(info, format, human_readable, owner, group, clock, shown)
            == text
}

/// `users::get_user_by_uid` and the name of the user it finds, read with
/// `to_string_lossy`; `None` where the system knows no user of that id.
#[verifier::external_body]
fn user_name(uid: u32) -> (name: Option<String>) {
    match users::get_user_by_uid(uid) {
        Some(user) => Some(user.name().to_string_lossy().to_string()),
        None => None,
    }
}

/// `users::get_group_by_gid` and the name of the group it finds, read with
/// `to_string_lossy`; `None` where the system knows no group of that id.
#[verifier::external_body]
fn group_name(gid: u32) -> (name: Option<String>) {
    match users::get_group_by_gid(gid) {
        Some(group) => Some(group.name().to_string_lossy().to_string()),
        None => None,
    }
}

/// The label of an owner or a group, given the name that was found for
/// the id, if any.
pub fn label_of(id: u32, name: Option<String>) -> (label: String)
    ensures
        label@ == identity_label(
            id,
            match name {
                Some(n) => Some(n@),
                None => None,
            },
        ),
{
    match name {
        Some(n) => n,
        None => decimal_string(id as u128),
    }
}

/// Writes the size before a name.
pub fn format_size_token(info: &FileInfo, human_readable: bool) -> (text: String)
    ensures
        text@ == size_token(*info, human_readable),
{
    if human_readable {
        format_size_human(info.size())
    } else {
        format_block_size(&info.metadata)
    }
}

/// Writes a long line from the entry and the texts that come from
/// outside.
pub fn format_long_with(
    info: &FileInfo,
    human_readable: bool,
    owner: &str,
    group: &str,
    clock: &str,
    shown: &str,
) -> (line: String)
    ensures
        line@ == long_line(*info, human_readable, owner@, group@, clock@, shown@),
{
    let mut line = format_permissions(&info.metadata);
    line.push(' ');
    let links = decimal_string(info.nlink() as u128);
    append_padded(&mut line, links.as_str(), 3);
    line.push(' ');
    line.append(owner);
    line.push(' ');
    line.append(group);
    line.push(' ');
    let size = if human_readable {
        format_size_human(info.size())
    } else {
        decimal_string(info.size() as u128)
    };
    append_padded(&mut line, size.as_str(), 8);
    line.push(' ');
    line.append(clock);
    line.push(' ');
    proof {
        assert(line@ =~= long_columns(*info, human_readable, owner@, group@, clock@));
    }
    line.append(shown);
    match info.symlink_target() {
        Some(target) => {
            line.append(" -> ");
            line.append(target.as_str());
            proof {
                reveal_strlit(" -> ");
                assert(" -> "@ =~= seq![' ', '-', '>', ' ']);
                assert(line@ =~= long_line(*info, human_readable, owner@, group@, clock@, shown@));
            }
        },
        None => {},
    }
    line
}

/// Writes the line of an entry in a format from the entry and the texts
/// that come from outside.
pub fn render(
    info: &FileInfo,
    format: Format,
    human_readable: bool,
    owner: &str,
    group: &str,
    clock: &str,
    shown: &str,
) -> (line: String)
    ensures
        line@ == rendered(*info, format, human_readable, owner@, group@, clock@, shown@),
{
    match format {
        Format::Name => {
            let mut line = String::new();
            line.append(shown);
            proof {
                assert(line@ =~= shown@);
            }
            line
        },
        Format::WithSize => {
            let mut line = format_size_token(info, human_readable);
            line.push(' ');
            line.append(shown);
            proof {
                assert(line@ =~= size_token(*info, human_readable) + seq![' '] + shown@);
            }
            line
        },
        Format::Long => format_long_with(info, human_readable, owner, group, clock, shown),
    }
}

impl FileInfoFormatter<'_> {
    /// Writes the long line of the entry: looks up the names of owner and
    /// group, writes the date in local time and gives the name its colour.
    pub fn format_long(&self) -> (line: String)
        ensures
            is_line_of(line@, *self.file_info, Format::Long, self.human_readable),
    {
        let info = self.file_info;
        let owner = label_of(info.uid(), user_name(info.uid()));
        let group = label_of(info.gid(), group_name(info.gid()));
        let clock = format_time(info.modified_time());
        let shown = colorize_name(info.file_name.as_str(), &info.metadata);
        let line = format_long_with(
            info,
            self.human_readable,
            owner.as_str(),
            group.as_str(),
            clock.as_str(),
            shown.as_str(),
        );
        proof {
            assert(rendered(
                *info,
                Format::Long,
                self.human_readable,
                owner@,
                group@,
                clock@,
                shown@,
            ) == line@);
        }
        line
    }

    /// Writes the line of the entry in the chosen format.
    pub fn to_string(&self) -> (line: String)
        ensures
            is_line_of(line@, *self.file_info, self.format, self.human_readable),
    {
        let info = self.file_info;
        match self.format {
            Format::Long => self.format_long(),
            _ => {
                let shown = colorize_name(info.file_name.as_str(), &info.metadata);
                let line = render(info, self.format, self.human_readable, "", "", "", shown.as_str());
                proof {
                    // These formats hold no date: any date of the entry's time will do.
                    let time = info.modified_time_spec();
                    let clock = if calendar_holds(time.secs as int, time.nanos as int) {
                        seq!['J', 'a', 'n', ' ', '0', '1', ' ', '0', '0', ':', '0', '0']
                    } else {
                        unknown_clock()
                    };
                    assert(is_date_of(clock, time));
                    assert(rendered(
                        *info,
                        self.format,
                        self.human_readable,
                        ""@,
                        ""@,
                        clock,
                        shown@,
                    ) == line@);
                }
                line
            },
        }
    }
}

} // verus!
