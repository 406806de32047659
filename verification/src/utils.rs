//! The text of single fields: permission strings, sizes, block counts,
//! dates and painted names.

use crate::file_info::{FileKind, Metadata, Timestamp};
use crate::text::{
    append_chars, append_padded, decimal, decimal_digits, decimal_string, digit_char, pad_left,
};
use vstd::prelude::*;

verus! {

/// The factor by which a unit exceeds the one before it.
pub const UNIT_STEP: u64 = 1024;

/// The first integer that a 53-bit significand cannot hold exactly.
pub const SIGNIFICAND_LIMIT: u64 = 0x20_0000_0000_0000;

/// `1024` to the power `k`: the number of bytes in one unit of index `k`.
pub open spec fn unit_scale(k: nat) -> nat
    decreases k,
{
    if k == 0 {
        1
    } else {
        1024 * unit_scale((k - 1) as nat)
    }
}

/// How often `size` is divided by 1024 before it is shown: once for each
/// unit that it reaches, five times at most.
pub open spec fn unit_index(size: nat) -> nat {
    if size < unit_scale(1) {
        0
    } else if size < unit_scale(2) {
        1
    } else if size < unit_scale(3) {
        2
    } else if size < unit_scale(4) {
        3
    } else if size < unit_scale(5) {
        4
    } else {
        5
    }
}

/// The letter of the unit of index `k`; the bytes themselves (index 0)
/// have none.
pub open spec fn unit_letter(k: nat) -> char {
    if k == 1 {
        'K'
    } else if k == 2 {
        'M'
    } else if k == 3 {
        'G'
    } else if k == 4 {
        'T'
    } else {
        'P'
    }
}

/// `n / d` rounded to the nearest integer, a tie going to the even one.
pub open spec fn nearest_even(n: nat, d: nat) -> nat {
    let q = n / d;
    let r = n % d;
    if 2 * r > d || (2 * r == d && q % 2 == 1) {
        q + 1
    } else {
        q
    }
}

/// The spacing of the numbers with a 53-bit significand around `n`: 1
/// below 2^53, doubling with each further bit.
pub open spec fn significand_step(n: nat) -> nat
    decreases n,
{
    if n < SIGNIFICAND_LIMIT {
        1
    } else {
        2 * significand_step(n / 2)
    }
}

/// `n` rounded to 53 significant bits, a tie going to the even
/// significand. Sizes are scaled as such numbers, so that a size of
/// 2^53 bytes or more is rounded once before it is divided.
pub open spec fn to_significand(n: nat) -> nat {
    nearest_even(n, significand_step(n)) * significand_step(n)
}

/// A size for human readers. Below 1024 the byte count, right-justified in
/// four characters. From there on the size in the largest unit of K, M, G,
/// T, P that it reaches, followed by the unit's letter: with one decimal
/// place while the scaled value is below ten, rounded to a whole number
/// (right-justified in three characters) from ten on.
pub open spec fn human_size(size: nat) -> Seq<char> {
    let k = unit_index(size);
    if k == 0 {
        pad_left(decimal(size), 4)
    } else {
        let v = to_significand(size);
        let d = unit_scale(k);
        if v >= 10 * d {
            pad_left(decimal(nearest_even(v, d)), 3).push(unit_letter(k))
        } else {
            let tenths = nearest_even(10 * v, d);
            (decimal(tenths / 10).push('.') + decimal(tenths % 10)).push(unit_letter(k))
        }
    }
}

proof fn lemma_unit_scales()
    ensures
        unit_scale(1) == 0x400,
        unit_scale(2) == 0x10_0000,
        unit_scale(3) == 0x4000_0000,
        unit_scale(4) == 0x100_0000_0000,
        unit_scale(5) == 0x4_0000_0000_0000,
{
    reveal_with_fuel(unit_scale, 6);
}

/// The unit that `size` is shown in: its index and the bytes in one.
fn unit_of(size: u64) -> (unit: (u8, u64))
    ensures
        unit.0 == unit_index(size as nat),
        unit.1 == unit_scale(unit.0 as nat),
        unit.0 <= 5,
        unit.1 >= 1,
{
    proof {
        lemma_unit_scales();
        reveal_with_fuel(unit_scale, 2);
    }
    let mut k: u8 = 0;
    let mut d: u64 = 1;
    while k < 5 && size / d >= UNIT_STEP
        invariant
            k <= 5,
            d >= 1,
            d == unit_scale(k as nat),
            d <= 0x4_0000_0000_0000,
            k < 5 ==> d <= 0x100_0000_0000,
            k > 0 ==> size >= d,
            forall|j: nat| 1 <= j <= k ==> size >= #[trigger] unit_scale(j),
        decreases 5 - k,
    {
        proof {
            lemma_unit_scales();
            assert(size >= d * 1024) by (nonlinear_arith)
                requires
                    size / d >= 1024,
                    d > 0,
            ;
            reveal_with_fuel(unit_scale, 2);
        }
        d = d * UNIT_STEP;
        k = k + 1;
    }
    proof {
        lemma_unit_scales();
        if k < 5 {
            assert(size < d * 1024) by (nonlinear_arith)
                requires
                    size / d < 1024,
                    d > 0,
            ;
            assert(unit_scale((k + 1) as nat) == 1024 * unit_scale(k as nat)) by {
                reveal_with_fuel(unit_scale, 2);
            }
        }
    }
    (k, d)
}

fn unit_letter_of(k: u8) -> (c: char)
    ensures
        c == unit_letter(k as nat),
{
    if k == 1 {
        'K'
    } else if k == 2 {
        'M'
    } else if k == 3 {
        'G'
    } else if k == 4 {
        'T'
    } else {
        'P'
    }
}

fn round_half_even(n: u128, d: u128) -> (q: u128)
    requires
        0 < d <= u64::MAX,
        n <= 0x1_0000_0000_0000_0000_0000,
    ensures
        q == nearest_even(n as nat, d as nat),
        q <= n / d + 1,
{
    let q = n / d;
    let r = n % d;
    if 2 * r > d || (2 * r == d && q % 2 == 1) {
        q + 1
    } else {
        q
    }
}

/// `size` rounded to 53 significant bits.
fn rounded_to_significand(size: u64) -> (v: u128)
    ensures
        v == to_significand(size as nat),
        v <= 0x2_0000_0000_0000_0000,
        size < SIGNIFICAND_LIMIT ==> v == size,
{
    let mut step: u64 = 1;
    let mut rest: u64 = size;
    while rest >= SIGNIFICAND_LIMIT
        invariant
            1 <= step <= 0x1000,
            size < SIGNIFICAND_LIMIT ==> step == 1,
            rest as nat * step as nat <= size,
            rest == size as nat / step as nat,
            significand_step(size as nat) == step * significand_step(rest as nat),
        decreases rest,
    {
        proof {
            assert(step < 0x800) by (nonlinear_arith)
                requires
                    rest as nat * step as nat <= size,
                    rest >= 0x20_0000_0000_0000,
                    size <= 0xffff_ffff_ffff_ffff,
            ;
            assert((rest / 2) as nat * (step * 2) as nat <= size) by (nonlinear_arith)
                requires
                    rest as nat * step as nat <= size,
            ;
            assert(size as nat / (step as nat * 2) == (size as nat / step as nat) / 2) by {
                vstd::arithmetic::div_mod::lemma_div_denominator(size as int, step as int, 2);
            }
            assert(step * (2 * significand_step((rest / 2) as nat)) == (step * 2)
                * significand_step((rest / 2) as nat)) by (nonlinear_arith);
        }
        step = step * 2;
        rest = rest / 2;
    }
    let q = round_half_even(size as u128, step as u128);
    proof {
        assert(q * step <= size + step) by (nonlinear_arith)
            requires
                q <= size as int / step as int + 1,
                step >= 1,
                size >= 0,
        ;
        assert(significand_step(rest as nat) == 1);
        assert(significand_step(size as nat) == step) by (nonlinear_arith)
            requires
                significand_step(size as nat) == step * significand_step(rest as nat),
                significand_step(rest as nat) == 1,
        ;
    }
    q * (step as u128)
}

/// Writes a byte count for human readers: see [`human_size`].
pub fn format_size_human(size: u64) -> (text: String)
    ensures
        text@ == human_size(size as nat),
{
    let (k, d) = unit_of(size);
    let mut text = String::new();
    if k == 0 {
        let digits = decimal_string(size as u128);
        append_padded(&mut text, digits.as_str(), 4);
    } else {
        let v = rounded_to_significand(size);
        let scale = d as u128;
        if v >= 10 * scale {
            let whole = round_half_even(v, scale);
            let digits = decimal_string(whole);
            append_padded(&mut text, digits.as_str(), 3);
        } else {
            let tenths = round_half_even(10 * v, scale);
            let whole = decimal_digits(tenths / 10);
            let tenth = decimal_digits(tenths % 10);
            append_chars(&mut text, &whole);
            text.push('.');
            append_chars(&mut text, &tenth);
        }
        text.push(unit_letter_of(k));
    }
    text
}

/// Whether `a` comes strictly before `b` as strings compare: at the first
/// position where they differ `a` has the smaller character, or `a` ends
/// there and `b` goes on.
pub open spec fn text_lt(a: Seq<char>, b: Seq<char>) -> bool
    decreases a.len(),
{
    if b.len() == 0 {
        false
    } else if a.len() == 0 {
        true
    } else if a[0] != b[0] {
        a[0] < b[0]
    } else {
        text_lt(a.drop_first(), b.drop_first())
    }
}

/// The four characters that show a byte count below 1024.
pub open spec fn byte_count_field(n: nat) -> Seq<char> {
    seq![
        if n < 1000 { ' ' } else { digit_char(n / 1000) },
        if n < 100 { ' ' } else { digit_char((n / 100) % 10) },
        if n < 10 { ' ' } else { digit_char((n / 10) % 10) },
        digit_char(n % 10),
    ]
}

/// Below 1024 a size is shown as its byte count in four characters,
/// without a unit.
pub proof fn lemma_human_size_of_bytes(size: nat)
    requires
        size < 1024,
    ensures
        human_size(size) == pad_left(decimal(size), 4),
        human_size(size) == byte_count_field(size),
        human_size(size).len() == 4,
{
    reveal_with_fuel(unit_scale, 2);
    reveal_with_fuel(decimal, 4);
    if size < 10 {
        assert(decimal(size) =~= seq![digit_char(size)]);
    } else if size < 100 {
        assert(decimal(size) =~= seq![digit_char(size / 10), digit_char(size % 10)]);
    } else if size < 1000 {
        assert(decimal(size) =~= seq![
            digit_char(size / 100),
            digit_char((size / 10) % 10),
            digit_char(size % 10),
        ]);
    } else {
        assert(decimal(size) =~= seq![
            digit_char(size / 1000),
            digit_char((size / 100) % 10),
            digit_char((size / 10) % 10),
            digit_char(size % 10),
        ]);
    }
    assert(pad_left(decimal(size), 4) =~= byte_count_field(size));
}

/// From 1024 on a size is shown with the letter of its unit at the end.
pub proof fn lemma_human_size_of_units(size: nat)
    requires
        size >= 1024,
    ensures
        unit_index(size) >= 1,
        human_size(size).len() > 0,
        human_size(size).last() == unit_letter(unit_index(size)),
{
    reveal_with_fuel(unit_scale, 2);
}

/// Below 1024 the texts of sizes stand in the order of the sizes: the
/// smaller size has the text that compares smaller.
pub proof fn lemma_human_size_monotonic(s1: nat, s2: nat)
    requires
        s1 < s2 < 1024,
    ensures
        text_lt(human_size(s1), human_size(s2)),
{
    lemma_human_size_of_bytes(s1);
    lemma_human_size_of_bytes(s2);
    lemma_fields_in_order(s1, s2);
}

proof fn lemma_fields_in_order(s1: nat, s2: nat)
    requires
        s1 < s2 < 1024,
    ensures
        text_lt(byte_count_field(s1), byte_count_field(s2)),
{
    lemma_field_by_digits(s1);
    lemma_field_by_digits(s2);
    lemma_digit_fields_in_order(
        s1 / 1000,
        (s1 / 100) % 10,
        (s1 / 10) % 10,
        s1 % 10,
        s2 / 1000,
        (s2 / 100) % 10,
        (s2 / 10) % 10,
        s2 % 10,
    );
}

/// The four characters that show the number with the digits `d3 d2 d1
/// d0`: leading zeros are spaces.
spec fn digit_field(d3: nat, d2: nat, d1: nat, d0: nat) -> Seq<char> {
    seq![
        if d3 == 0 { ' ' } else { digit_char(d3) },
        if d3 == 0 && d2 == 0 { ' ' } else { digit_char(d2) },
        if d3 == 0 && d2 == 0 && d1 == 0 { ' ' } else { digit_char(d1) },
        digit_char(d0),
    ]
}

proof fn lemma_field_by_digits(n: nat)
    requires
        n < 10000,
    ensures
        byte_count_field(n) == digit_field(n / 1000, (n / 100) % 10, (n / 10) % 10, n % 10),
        n == 1000 * (n / 1000) + 100 * ((n / 100) % 10) + 10 * ((n / 10) % 10) + n % 10,
        n / 1000 < 10,
{
    assert(n < 1000 <==> n / 1000 == 0);
    assert(n < 100 <==> n / 1000 == 0 && (n / 100) % 10 == 0);
    assert(n < 10 <==> n / 1000 == 0 && (n / 100) % 10 == 0 && (n / 10) % 10 == 0);
    assert(byte_count_field(n) =~= digit_field(n / 1000, (n / 100) % 10, (n / 10) % 10, n % 10));
}

proof fn lemma_digit_fields_in_order(
    d3: nat,
    d2: nat,
    d1: nat,
    d0: nat,
    e3: nat,
    e2: nat,
    e1: nat,
    e0: nat,
)
    requires
        d3 < 10 && d2 < 10 && d1 < 10 && d0 < 10,
        e3 < 10 && e2 < 10 && e1 < 10 && e0 < 10,
        1000 * d3 + 100 * d2 + 10 * d1 + d0 < 1000 * e3 + 100 * e2 + 10 * e1 + e0,
    ensures
        text_lt(digit_field(d3, d2, d1, d0), digit_field(e3, e2, e1, e0)),
{
    let a = digit_field(d3, d2, d1, d0);
    let b = digit_field(e3, e2, e1, e0);
    let a1 = a.drop_first();
    let b1 = b.drop_first();
    let a2 = a1.drop_first();
    let b2 = b1.drop_first();
    let a3 = a2.drop_first();
    let b3 = b2.drop_first();
    assert(a1[0] == a[1] && a2[0] == a[2] && a3[0] == a[3]);
    assert(b1[0] == b[1] && b2[0] == b[2] && b3[0] == b[3]);
    assert(a3.len() == 1 && b3.len() == 1);
    lemma_digit_chars_in_order();
    if d3 != e3 {
        assert(d3 < e3);
        assert(a[0] < b[0]);
    } else if d2 != e2 {
        assert(d2 < e2);
        assert(a[0] == b[0]);
        assert(a[1] < b[1]);
        assert(text_lt(a1, b1));
    } else if d1 != e1 {
        assert(d1 < e1);
        assert(a[0] == b[0] && a[1] == b[1]);
        assert(a[2] < b[2]);
        assert(text_lt(a2, b2));
        assert(text_lt(a1, b1));
    } else {
        assert(d0 < e0);
        assert(a[0] == b[0] && a[1] == b[1] && a[2] == b[2]);
        assert(a[3] < b[3]);
        assert(text_lt(a3, b3));
        assert(text_lt(a2, b2));
        assert(text_lt(a1, b1));
    }
}

/// A space comes before every digit, and the digits come in their order.
proof fn lemma_digit_chars_in_order()
    ensures
        forall|d: nat| d < 10 ==> ' ' < #[trigger] digit_char(d),
        forall|d: nat, e: nat| d < e < 10 ==> #[trigger] digit_char(d) < #[trigger] digit_char(e),
{
}

/// One `rwx` triplet, read from the low three bits of `mode`: each letter
/// where its bit is set, a dash where it is not.
pub open spec fn triplet_text(mode: u32) -> Seq<char> {
    seq![
        if mode & 0b100 != 0 { 'r' } else { '-' },
        if mode & 0b010 != 0 { 'w' } else { '-' },
        if mode & 0b001 != 0 { 'x' } else { '-' },
    ]
}

/// Writes the low three bits of `mode` as an `rwx` triplet.
pub fn triplet(mode: u32) -> (text: String)
    ensures
        text@ == triplet_text(mode),
{
    let mut text = String::new();
    text.push(if mode & 0b100 != 0 { 'r' } else { '-' });
    text.push(if mode & 0b010 != 0 { 'w' } else { '-' });
    text.push(if mode & 0b001 != 0 { 'x' } else { '-' });
    proof {
        assert(text@ =~= triplet_text(mode));
    }
    text
}

/// The character that shows an entry's kind: `d` for a directory, `l` for
/// a symbolic link, a dash for anything else.
pub open spec fn type_char(kind: FileKind) -> char {
    match kind {
        FileKind::Directory => 'd',
        FileKind::Symlink => 'l',
        _ => '-',
    }
}

/// The ten characters of a permission string: the type character, then
/// the triplets of owner, group and others.
pub open spec fn permissions_text(metadata: Metadata) -> Seq<char> {
    seq![type_char(metadata.kind)] + triplet_text(metadata.mode >> 6) + triplet_text(
        metadata.mode >> 3,
    ) + triplet_text(metadata.mode)
}

/// Writes the permission string of an entry, such as `drwxr-xr-x`.
pub fn format_permissions(metadata: &Metadata) -> (text: String)
    ensures
        text@ == permissions_text(*metadata),
        text@.len() == 10,
{
    let mode = metadata.mode;
    let file_type = if metadata.is_dir() {
        'd'
    } else if metadata.is_symlink() {
        'l'
    } else {
        '-'
    };
    let user = triplet(mode >> 6);
    let group = triplet(mode >> 3);
    let other = triplet(mode);
    let mut text = String::new();
    text.push(file_type);
    text.append(user.as_str());
    text.append(group.as_str());
    text.append(other.as_str());
    proof {
        assert(text@ =~= permissions_text(*metadata));
    }
    text
}

/// The size of `blocks` blocks of 512 bytes in units of 1024 bytes,
/// rounded up.
pub open spec fn blocks_in_kib(blocks: nat) -> nat {
    (blocks * 512 + 1023) / 1024
}

/// Computes [`blocks_in_kib`].
pub fn kib_of_blocks(blocks: u64) -> (kib: u64)
    ensures
        kib == blocks_in_kib(blocks as nat),
{
    blocks / 2 + blocks % 2
}

/// Writes the allocated size of an entry in units of 1024 bytes,
/// right-justified in eight characters.
pub fn format_block_size(metadata: &Metadata) -> (text: String)
    ensures
        text@ == pad_left(decimal(blocks_in_kib(metadata.blocks as nat)), 8),
{
    let digits = decimal_string(kib_of_blocks(metadata.blocks) as u128);
    let mut text = String::new();
    append_padded(&mut text, digits.as_str(), 8);
    text
}

/// The colour in which a name is shown.
#[derive(Clone, Copy, Debug, PartialEq, Eq, Structural)]
pub enum NameColor {
    Blue,
    Red,
    Green,
    White,
}

/// The colour of an entry's name: blue for a directory; otherwise red
/// where anyone may execute it, green where everyone may read it, and
/// white for the rest.
pub open spec fn name_color(metadata: Metadata) -> NameColor {
    if metadata.kind == FileKind::Directory {
        NameColor::Blue
    } else if metadata.mode & 0o111 != 0 {
        NameColor::Red
    } else if metadata.mode & 0o004 != 0 {
        NameColor::Green
    } else {
        NameColor::White
    }
}

/// Chooses the colour of an entry's name.
pub fn color_of(metadata: &Metadata) -> (color: NameColor)
    ensures
        color == name_color(*metadata),
{
    if metadata.is_dir() {
        NameColor::Blue
    } else if metadata.mode & 0o111 != 0 {
        NameColor::Red
    } else if metadata.mode & 0o004 != 0 {
        NameColor::Green
    } else {
        NameColor::White
    }
}

/// The last digit of a colour's terminal code (`34` is blue).
pub open spec fn color_digit(color: NameColor) -> char {
    match color {
        NameColor::Red => '1',
        NameColor::Green => '2',
        NameColor::Blue => '4',
        NameColor::White => '7',
    }
}

/// `name` between the escape sequence that switches `color` on and the one
/// that resets it.
pub open spec fn painted(name: Seq<char>, color: NameColor) -> Seq<char> {
    seq!['\u{1b}', '[', '3', color_digit(color), 'm'] + name + seq!['\u{1b}', '[', '0', 'm']
}

/// What a name may look like once it has been given a colour. Whether
/// colours are written at all is decided by the environment, so the name
/// comes back either as it is or painted; a name that itself holds an
/// escape character may come back with further sequences inside it.
pub open spec fn is_shown_name(shown: Seq<char>, name: Seq<char>, color: NameColor) -> bool {
    shown == name || name.contains('\u{1b}') || shown == painted(name, color)
}

/// `Colorize::blue` on `name`, written out with `to_string`: the name
/// itself where colours are off, else the name in blue.
#[verifier::external_body]
fn paint_blue(name: &str) -> (shown: String)
    ensures
        is_shown_name(shown@, name@, NameColor::Blue),
{
    colored::Colorize::blue(name).to_string()
}

/// `Colorize::red` on `name`, written out with `to_string`: the name
/// itself where colours are off, else the name in red.
#[verifier::external_body]
fn paint_red(name: &str) -> (shown: String)
    ensures
        is_shown_name(shown@, name@, NameColor::Red),
{
    colored::Colorize::red(name).to_string()
}

/// `Colorize::green` on `name`, written out with `to_string`: the name
/// itself where colours are off, else the name in green.
#[verifier::external_body]
fn paint_green(name: &str) -> (shown: String)
    ensures
        is_shown_name(shown@, name@, NameColor::Green),
{
    colored::Colorize::green(name).to_string()
}

/// `Colorize::white` on `name`, written out with `to_string`: the name
/// itself where colours are off, else the name in white.
#[verifier::external_body]
fn paint_white(name: &str) -> (shown: String)
    ensures
        is_shown_name(shown@, name@, NameColor::White),
{
    colored::Colorize::white(name).to_string()
}

/// Gives `name` the colour that suits the entry. The result is the name
/// as it will be written: see [`is_shown_name`].
pub fn colorize_name(name: &str, metadata: &Metadata) -> (shown: String)
    ensures
        is_shown_name(shown@, name@, name_color(*metadata)),
{
    match color_of(metadata) {
        NameColor::Blue => paint_blue(name),
        NameColor::Red => paint_red(name),
        NameColor::Green => paint_green(name),
        NameColor::White => paint_white(name),
    }
}

pub open spec fn is_digit(c: char) -> bool {
    '0' <= c && c <= '9'
}

pub open spec fn is_letter(c: char) -> bool {
    ('a' <= c && c <= 'z') || ('A' <= c && c <= 'Z')
}

/// The shape of a date field: twelve characters in three groups, with
/// spaces after the third and the sixth and nowhere else.
pub open spec fn is_date_field(text: Seq<char>) -> bool {
    &&& text.len() == 12
    &&& forall|i: int| 0 <= i < 12 ==> (#[trigger] text[i] == ' ' <==> (i == 3 || i == 6))
}

/// A date as it is written: the month's three letters, the day of the
/// month, and hour and minute, such as `Jan 15 10:30`.
pub open spec fn is_clock_text(text: Seq<char>) -> bool {
    &&& text.len() == 12
    &&& is_letter(text[0]) && is_letter(text[1]) && is_letter(text[2])
    &&& text[3] == ' '
    &&& is_digit(text[4]) && is_digit(text[5])
    &&& text[6] == ' '
    &&& is_digit(text[7]) && is_digit(text[8])
    &&& text[9] == ':'
    &&& is_digit(text[10]) && is_digit(text[11])
}

/// What stands in the date field of a time that the calendar cannot hold.
pub open spec fn unknown_clock() -> Seq<char> {
    seq!['?', '?', '?', ' ', '?', '?', ' ', '?', '?', ':', '?', '?']
}

/// Whether the calendar can hold the time `secs` seconds and `nanos`
/// nanoseconds after the start of 1970: whether
/// `chrono::DateTime::from_timestamp` has a value for it.
pub uninterp spec fn calendar_holds(secs: int, nanos: int) -> bool;

/// `DateTime::from_timestamp`, moved to the local time zone with
/// `with_timezone(&Local)` and written with `format("%b %d %H:%M")`: the
/// month's three-letter name, then day, hour and minute with two digits
/// each. `None` where the calendar cannot hold the time. Which local time
/// comes out depends on the machine's time zone.
#[verifier::external_body]
fn local_clock(secs: i64, nanos: u32) -> (text: Option<String>)
    ensures
        text.is_some() == calendar_holds(secs as int, nanos as int),
        match text {
            Some(t) => is_clock_text(t@),
            None => true,
        },
{
    match chrono::DateTime::from_timestamp(secs, nanos) {
        Some(utc) => Some(utc.with_timezone(&chrono::Local).format("%b %d %H:%M").to_string()),
        None => None,
    }
}

/// The date field for a time, given what the calendar made of it: that
/// text, or question marks in the same columns where it had none.
pub fn clock_field(text: Option<String>) -> (field: String)
    ensures
        field@ == match text {
            Some(t) => t@,
            None => unknown_clock(),
        },
{
    match text {
        Some(t) => t,
        None => {
            let mut field = String::new();
            field.append("??? ?? ??:??");
            proof {
                reveal_strlit("??? ?? ??:??");
                assert(field@ =~= unknown_clock());
            }
            field
        },
    }
}

/// Whether `text` may stand for `time` in a date field: a written date
/// where the calendar holds the time, question marks where it does not.
pub open spec fn is_date_of(text: Seq<char>, time: Timestamp) -> bool {
    if calendar_holds(time.secs as int, time.nanos as int) {
        is_clock_text(text)
    } else {
        text == unknown_clock()
    }
}

/// Writes a time as a date in local time, such as `Jan 15 10:30`. A time
/// that the calendar cannot hold is written as `??? ?? ??:??`. Either way
/// the text is a date field.
pub fn format_time(time: Timestamp) -> (text: String)
    ensures
        is_date_of(text@, time),
        is_date_field(text@),
{
    let text = clock_field(local_clock(time.secs, time.nanos));
    proof {
        lemma_clock_text_is_date_field(text@);
    }
    text
}

/// Both a written date and the question marks that stand in for one have
/// the shape of a date field.
pub proof fn lemma_clock_text_is_date_field(text: Seq<char>)
    requires
        is_clock_text(text) || text == unknown_clock(),
    ensures
        is_date_field(text),
{
}

} // verus!
