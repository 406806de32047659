//! Reading a long line back: the columns that can be told apart again,
//! and the proof that they give back what was written.

use crate::file_info::{FileInfo, FileKind};
use crate::formatter::{long_line, name_column, size_column};
use crate::text::{decimal, digit_char, pad_left, spaces};
use crate::utils::{is_date_field, lemma_human_size_of_bytes, permissions_text, type_char};
use vstd::prelude::*;

verus! {

/// The number of characters before the first space of `text`.
pub open spec fn word_len(text: Seq<char>) -> nat
    decreases text.len(),
{
    if text.len() == 0 || text[0] == ' ' {
        0
    } else {
        1 + word_len(text.drop_first())
    }
}

/// The number of spaces that `text` begins with.
pub open spec fn space_len(text: Seq<char>) -> nat
    decreases text.len(),
{
    if text.len() == 0 || text[0] != ' ' {
        0
    } else {
        1 + space_len(text.drop_first())
    }
}

/// `text` up to its first space.
pub open spec fn first_word(text: Seq<char>) -> Seq<char> {
    text.take(word_len(text) as int)
}

/// `text` from its first space on.
pub open spec fn after_word(text: Seq<char>) -> Seq<char> {
    text.skip(word_len(text) as int)
}

/// `text` without the spaces that it begins with.
pub open spec fn skip_spaces(text: Seq<char>) -> Seq<char> {
    text.skip(space_len(text) as int)
}

/// What is left of a line once the next column has been read: the spaces
/// before it and the column itself are taken off.
pub open spec fn after_column(text: Seq<char>) -> Seq<char> {
    after_word(skip_spaces(text))
}

/// The next column of a line.
pub open spec fn next_column(text: Seq<char>) -> Seq<char> {
    first_word(skip_spaces(text))
}

/// The digit that a character stands for; 0 for any other character.
pub open spec fn digit_value(c: char) -> nat {
    if c == '1' {
        1
    } else if c == '2' {
        2
    } else if c == '3' {
        3
    } else if c == '4' {
        4
    } else if c == '5' {
        5
    } else if c == '6' {
        6
    } else if c == '7' {
        7
    } else if c == '8' {
        8
    } else if c == '9' {
        9
    } else {
        0
    }
}

/// The number that a decimal numeral stands for.
pub open spec fn number(digits: Seq<char>) -> nat
    decreases digits.len(),
{
    if digits.len() == 0 {
        0
    } else {
        number(digits.drop_last()) * 10 + digit_value(digits.last())
    }
}

/// Whether the arrow ` -> ` stands at the start of `text`.
pub open spec fn starts_with_arrow(text: Seq<char>) -> bool {
    text.len() >= 4 && text[0] == ' ' && text[1] == '-' && text[2] == '>' && text[3] == ' '
}

/// The position of the first arrow in `text`; its length where it holds
/// none.
pub open spec fn first_arrow(text: Seq<char>) -> nat
    decreases text.len(),
{
    if text.len() == 0 || starts_with_arrow(text) {
        0
    } else {
        1 + first_arrow(text.drop_first())
    }
}

/// The kind that a type character stands for. A dash stands for a regular
/// file, though other kinds are written with it too.
pub open spec fn kind_of_tag(tag: char) -> FileKind {
    if tag == 'd' {
        FileKind::Directory
    } else if tag == 'l' {
        FileKind::Symlink
    } else {
        FileKind::Regular
    }
}

/// The kind read from a long line: from its first character.
pub open spec fn read_kind(line: Seq<char>) -> FileKind {
    kind_of_tag(line[0])
}

/// The link count read from a long line: the column after the ten
/// characters of the permissions.
pub open spec fn read_links(line: Seq<char>) -> nat {
    number(next_column(line.skip(10)))
}

/// What follows the columns of link count, owner and group.
pub open spec fn after_group(line: Seq<char>) -> Seq<char> {
    after_column(after_column(after_column(line.skip(10))))
}

/// The size read from a long line: the column after the group.
pub open spec fn read_size(line: Seq<char>) -> nat {
    number(next_column(after_group(line)))
}

/// The name column of a long line: what follows the size, a space, the
/// twelve characters of the date and another space.
pub open spec fn read_name_column(line: Seq<char>) -> Seq<char> {
    after_column(after_group(line)).skip(14)
}

/// The base name read from a long line: the name column, for a symbolic
/// link up to the first arrow.
pub open spec fn read_name(line: Seq<char>) -> Seq<char> {
    let column = read_name_column(line);
    if line[0] == 'l' {
        column.take(first_arrow(column) as int)
    } else {
        column
    }
}

/// Whether `text` can stand in a column: it is not empty and holds no
/// space.
pub open spec fn is_word(text: Seq<char>) -> bool {
    text.len() > 0 && forall|i: int| 0 <= i < text.len() ==> text[i] != ' '
}

/// A word in front of a space, or at the very end, is read as a whole.
pub proof fn lemma_word_len(word: Seq<char>, rest: Seq<char>)
    requires
        forall|i: int| 0 <= i < word.len() ==> word[i] != ' ',
        rest.len() == 0 || rest[0] == ' ',
    ensures
        word_len(word + rest) == word.len(),
    decreases word.len(),
{
    if word.len() == 0 {
        assert(word + rest =~= rest);
    } else {
        assert((word + rest)[0] == word[0]);
        assert((word + rest).drop_first() =~= word.drop_first() + rest);
        lemma_word_len(word.drop_first(), rest);
    }
}

/// Spaces in front of anything else are skipped as a whole.
pub proof fn lemma_space_len(count: nat, rest: Seq<char>)
    requires
        rest.len() == 0 || rest[0] != ' ',
    ensures
        space_len(spaces(count) + rest) == count,
    decreases count,
{
    if count == 0 {
        assert(spaces(count) + rest =~= rest);
    } else {
        assert((spaces(count) + rest)[0] == ' ');
        assert((spaces(count) + rest).drop_first() =~= spaces((count - 1) as nat) + rest);
        lemma_space_len((count - 1) as nat, rest);
    }
}

/// A column is read back: after any number of spaces, a word in front of
/// a space is the next column, and what follows it is left.
pub proof fn lemma_column(count: nat, word: Seq<char>, rest: Seq<char>)
    requires
        is_word(word),
        rest.len() == 0 || rest[0] == ' ',
    ensures
        next_column(spaces(count) + word + rest) == word,
        after_column(spaces(count) + word + rest) == rest,
{
    let text = spaces(count) + word + rest;
    assert(text =~= spaces(count) + (word + rest));
    assert((word + rest)[0] == word[0]);
    lemma_space_len(count, word + rest);
    assert(skip_spaces(text) =~= word + rest);
    lemma_word_len(word, rest);
    assert(first_word(word + rest) =~= word);
    assert(after_word(word + rest) =~= rest);
}

/// A numeral is a word, and stands for its number.
pub proof fn lemma_decimal(n: nat)
    ensures
        is_word(decimal(n)),
        number(decimal(n)) == n,
    decreases n,
{
    if n < 10 {
        assert(decimal(n).drop_last() =~= Seq::<char>::empty());
        assert(number(decimal(n).drop_last()) == 0);
    } else {
        lemma_decimal(n / 10);
        let front = decimal(n / 10);
        assert(decimal(n).drop_last() =~= front);
        assert(decimal(n).last() == digit_char(n % 10));
    }
}

/// A number right-justified in a column: some spaces, then the numeral.
pub proof fn lemma_padded_numeral(n: nat, width: nat) -> (count: nat)
    ensures
        pad_left(decimal(n), width) == spaces(count) + decimal(n),
{
    let text = decimal(n);
    if text.len() < width {
        (width - text.len()) as nat
    } else {
        assert(text =~= spaces(0) + text);
        0
    }
}

/// The first arrow of a text that begins with `name` and goes on with an
/// arrow stands right after `name`, unless an arrow begins earlier.
pub open spec fn arrow_follows(name: Seq<char>, column: Seq<char>) -> bool {
    first_arrow(column) == name.len()
}

/// A line of the shape of a long line: the permissions, then each column
/// after a space.
pub open spec fn line_of_columns(
    permissions: Seq<char>,
    links: Seq<char>,
    owner: Seq<char>,
    group: Seq<char>,
    size: Seq<char>,
    clock: Seq<char>,
    column: Seq<char>,
) -> Seq<char> {
    permissions + seq![' '] + links + seq![' '] + owner + seq![' '] + group + seq![' '] + size
        + seq![' '] + clock + seq![' '] + column
}

/// The columns of a line of that shape are read back, where the
/// permissions take ten characters, the date twelve, and the numbers are
/// right-justified numerals.
pub proof fn lemma_line_of_columns(
    permissions: Seq<char>,
    k1: nat,
    links: Seq<char>,
    owner: Seq<char>,
    group: Seq<char>,
    k4: nat,
    size: Seq<char>,
    clock: Seq<char>,
    column: Seq<char>,
)
    requires
        permissions.len() == 10,
        is_word(links),
        is_word(owner),
        is_word(group),
        is_word(size),
        clock.len() == 12,
    ensures
        ({
            let line = line_of_columns(
                permissions,
                spaces(k1) + links,
                owner,
                group,
                spaces(k4) + size,
                clock,
                column,
            );
            &&& line[0] == permissions[0]
            &&& next_column(line.skip(10)) == links
            &&& next_column(after_group(line)) == size
            &&& read_name_column(line) == column
        }),
{
    let line = line_of_columns(
        permissions,
        spaces(k1) + links,
        owner,
        group,
        spaces(k4) + size,
        clock,
        column,
    );
    let tail5 = spaces(1) + clock + spaces(1) + column;
    let tail4 = spaces(k4 + 1) + size + tail5;
    let tail3 = spaces(1) + group + tail4;
    let tail2 = spaces(1) + owner + tail3;
    let tail1 = spaces(k1 + 1) + links + tail2;
    assert(line =~= permissions + tail1) by {
        assert(seq![' '] =~= spaces(1));
        assert(spaces(1) + spaces(k1) =~= spaces(k1 + 1));
        assert(spaces(1) + spaces(k4) =~= spaces(k4 + 1));
    }
    assert((permissions + tail1).skip(10) =~= tail1);
    assert(tail5[0] == ' ');
    assert(tail4[0] == ' ');
    assert(tail3[0] == ' ');
    assert(tail2[0] == ' ');
    assert(next_column(tail1) == links && after_column(tail1) == tail2) by {
        lemma_column(k1 + 1, links, tail2);
    }
    assert(after_column(tail2) == tail3) by {
        lemma_column(1, owner, tail3);
    }
    assert(after_column(tail3) == tail4) by {
        lemma_column(1, group, tail4);
    }
    assert(next_column(tail4) == size && after_column(tail4) == tail5) by {
        lemma_column(k4 + 1, size, tail5);
    }
    assert(tail5.skip(14) =~= column);
}

/// The permissions take ten characters, the first of which shows the
/// kind.
pub proof fn lemma_permissions_shape(info: FileInfo)
    ensures
        permissions_text(info.metadata).len() == 10,
        permissions_text(info.metadata)[0] == type_char(info.metadata.kind),
{
}

/// A long line is a line of columns.
pub proof fn lemma_long_line_shape(
    info: FileInfo,
    human_readable: bool,
    owner: Seq<char>,
    group: Seq<char>,
    clock: Seq<char>,
    shown: Seq<char>,
)
    ensures
        long_line(info, human_readable, owner, group, clock, shown) == line_of_columns(
            permissions_text(info.metadata),
            pad_left(decimal(info.metadata.nlink as nat), 3),
            owner,
            group,
            size_column(info.metadata.size as nat, human_readable),
            clock,
            name_column(shown, info.symlink_target_spec()),
        ),
{
}

/// What is read from a line of columns, told of the line's parts.
proof fn lemma_read_back(
    line: Seq<char>,
    kind: FileKind,
    nlink: nat,
    size: nat,
    name: Seq<char>,
    column: Seq<char>,
)
    requires
        kind != FileKind::Other,
        line.len() > 0,
        line[0] == type_char(kind),
        next_column(line.skip(10)) == decimal(nlink),
        next_column(after_group(line)) == decimal(size),
        read_name_column(line) == column,
        kind == FileKind::Symlink ==> first_arrow(column) == name.len() && column.take(
            name.len() as int,
        ) == name,
        kind != FileKind::Symlink ==> column == name,
    ensures
        read_kind(line) == kind,
        read_links(line) == nlink,
        read_size(line) == size,
        read_name(line) == name,
{
    lemma_decimal(nlink);
    lemma_decimal(size);
}

/// A long line can be read back. Where owner and group are written as
/// words, the name is written without colour, and the size is written in
/// bytes (as it is unless sizes are for human readers and reach 1024),
/// the line gives back the kind of the entry, its link count, its size
/// and its base name. The kind must be one that has a type character of
/// its own; and the name of a symbolic link must not hold an arrow before
/// the one that is written after it.
pub proof fn lemma_long_line_round_trip(
    info: FileInfo,
    human_readable: bool,
    owner: Seq<char>,
    group: Seq<char>,
    clock: Seq<char>,
)
    requires
        is_word(owner),
        is_word(group),
        is_date_field(clock),
        !human_readable || info.metadata.size < 1024,
        info.metadata.kind != FileKind::Other,
        info.metadata.kind == FileKind::Symlink ==> arrow_follows(
            info.file_name@,
            name_column(info.file_name@, info.symlink_target_spec()),
        ),
    ensures
        ({
            let line = long_line(info, human_readable, owner, group, clock, info.file_name@);
            &&& read_kind(line) == info.metadata.kind
            &&& read_links(line) == info.metadata.nlink
            &&& read_size(line) == info.metadata.size
            &&& read_name(line) == info.file_name@
        }),
{
    let line = long_line(info, human_readable, owner, group, clock, info.file_name@);
    let permissions = permissions_text(info.metadata);
    let links = decimal(info.metadata.nlink as nat);
    let size = decimal(info.metadata.size as nat);
    let column = name_column(info.file_name@, info.symlink_target_spec());
    lemma_decimal(info.metadata.nlink as nat);
    lemma_decimal(info.metadata.size as nat);
    let k1 = lemma_padded_numeral(info.metadata.nlink as nat, 3);
    let k4 = lemma_size_column(info.metadata.size as nat, human_readable);
    lemma_permissions_shape(info);
    lemma_long_line_shape(info, human_readable, owner, group, clock, info.file_name@);
    lemma_line_of_columns(permissions, k1, links, owner, group, k4, size, clock, column);
    lemma_name_in_column(info);
    lemma_read_back(
        line,
        info.metadata.kind,
        info.metadata.nlink as nat,
        info.metadata.size as nat,
        info.file_name@,
        column,
    );
}

/// The name column begins with the name, and is the name for an entry
/// that is no symbolic link.
proof fn lemma_name_in_column(info: FileInfo)
    ensures
        ({
            let column = name_column(info.file_name@, info.symlink_target_spec());
            &&& column.take(info.file_name@.len() as int) == info.file_name@
            &&& info.metadata.kind != FileKind::Symlink ==> column == info.file_name@
        }),
{
    let column = name_column(info.file_name@, info.symlink_target_spec());
    assert(column.take(info.file_name@.len() as int) =~= info.file_name@);
}

/// The size column is the numeral of the size after some spaces, where
/// the size is written in bytes.
proof fn lemma_size_column(size: nat, human_readable: bool) -> (count: nat)
    requires
        !human_readable || size < 1024,
    ensures
        size_column(size, human_readable) == spaces(count) + decimal(size),
{
    if human_readable {
        lemma_human_size_of_bytes(size);
        let inner = lemma_padded_numeral(size, 4);
        let text = spaces(inner) + decimal(size);
        assert(text.len() == 4);
        assert(pad_left(text, 8) =~= spaces(4) + text);
        assert(spaces(4) + (spaces(inner) + decimal(size)) =~= spaces(4 + inner) + decimal(size));
        4 + inner
    } else {
        lemma_padded_numeral(size, 8)
    }
}

} // verus!
