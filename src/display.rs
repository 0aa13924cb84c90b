use crate::entry::{EntryKind, Meta};
use vstd::prelude::*;

verus! {

/// How entries are shown: inline, one detailed line each, or as a tree
/// descending at most the given number of levels.
#[derive(Clone, Copy, Debug, PartialEq, Eq, Structural)]
pub enum DisplayMode {
    Long,
    Short,
    Tree(usize),
}

/// The marker shown before an entry's name.
pub open spec fn glyph(kind: EntryKind) -> Seq<char> {
    match kind {
        EntryKind::File => "📄"@,
        EntryKind::Dir => "📁"@,
        EntryKind::Symlink => "🔗"@,
        EntryKind::Other => "❓"@,
    }
}

/// The digit characters, least value first.
pub open spec fn digit_chars() -> Seq<char> {
    "0123456789"@
}

/// The digit of value `d` (below 10).
pub open spec fn digit(d: nat) -> Seq<char> {
    digit_chars().subrange(d as int, d as int + 1)
}

/// `n` in octal, most significant digit first.
pub open spec fn octal_digits(n: nat) -> Seq<char>
    decreases n,
{
    if n < 8 {
        digit(n)
    } else {
        octal_digits(n / 8) + digit(n % 8)
    }
}

/// `n` in decimal, most significant digit first.
pub open spec fn decimal_digits(n: nat) -> Seq<char>
    decreases n,
{
    if n < 10 {
        digit(n)
    } else {
        decimal_digits(n / 10) + digit(n % 10)
    }
}

/// `n` spaces.
pub open spec fn spaces(n: nat) -> Seq<char> {
    Seq::new(n, |i: int| ' ')
}

/// `s` right-aligned in a field of `width` characters.
pub open spec fn pad_left(s: Seq<char>, width: nat) -> Seq<char> {
    if s.len() < width {
        spaces((width - s.len()) as nat) + s
    } else {
        s
    }
}

/// `s` left-aligned in a field of `width` characters.
pub open spec fn pad_right(s: Seq<char>, width: nat) -> Seq<char> {
    if s.len() < width {
        s + spaces((width - s.len()) as nat)
    } else {
        s
    }
}

/// The permission bits shown: owner, group and other read-write-execute.
pub open spec fn permission_bits(mode: u32) -> nat {
    (mode & 0o777u32) as nat
}

/// The short form: marker and name, followed by two spaces.
pub open spec fn short_text(name: Seq<char>, meta: Meta) -> Seq<char> {
    glyph(meta.kind) + " "@ + name + "  "@
}

/// The long form: marker, octal permissions, size, modification time, name.
pub open spec fn long_text(name: Seq<char>, meta: Meta, time: Seq<char>) -> Seq<char> {
    glyph(meta.kind) + " | "@ + pad_left(octal_digits(permission_bits(meta.mode)), 4) + " | "@ + pad_left(
        decimal_digits(meta.size as nat),
        10,
    ) + "  | "@ + time + " | "@ + pad_right(name, 20)
}

/// The tree branch drawn before an entry at `depth`.
pub open spec fn branch(depth: nat) -> Seq<char>
    decreases depth,
{
    if depth == 0 {
        "├──"@
    } else {
        branch((depth - 1) as nat) + "──"@
    }
}

/// The tree form: branch, marker and name.
pub open spec fn tree_text(name: Seq<char>, meta: Meta, depth: nat) -> Seq<char> {
    branch(depth) + glyph(meta.kind) + " "@ + name
}

/// Whether chrono's calendar can show the time `secs` seconds and `nanos`
/// nanoseconds after the Unix epoch (a generous subset of its range: about
/// 250,000 years either side).
pub open spec fn time_in_range(secs: i64, nanos: u32) -> bool {
    nanos < 1_000_000_000 && -8_000_000_000_000 <= secs <= 8_000_000_000_000
}

/// Whether the time `secs` seconds after the Unix epoch lies, in every time
/// zone, within the years 0 to 9999 (a day's margin at each end).
pub open spec fn four_digit_year(secs: i64) -> bool {
    -62_000_000_000 <= secs <= 253_000_000_000
}

/// `t` has the shape `YYYY-MM-DD HH:MM:SS`: digits, with `-`, ` ` and `:`
/// in their places.
pub open spec fn timestamp_shape(t: Seq<char>) -> bool {
    &&& t.len() == 19
    &&& forall|i: int| 0 <= i < 19 ==> if i == 4 || i == 7 {
        #[trigger] t[i] == '-'
    } else if i == 10 {
        t[i] == ' '
    } else if i == 13 || i == 16 {
        t[i] == ':'
    } else {
        '0' <= t[i] <= '9'
    }
}

/// Relies on chrono: `DateTime::from_timestamp` gives `Some` for every time
/// whose day fits its calendar (years within about 262,000 of year 0) and
/// whose nanoseconds are below one second; the time is then shifted to the
/// machine's time zone and formatted as `YYYY-MM-DD HH:MM:SS`. chrono
/// writes `%Y` zero-padded to four digits for the years 0 to 9999 and the
/// other fields as two digits, and a time zone's offset is under one day.
#[verifier::external_body]
fn local_time_text(secs: i64, nanos: u32) -> (r: Option<String>)
    ensures
        time_in_range(secs, nanos) ==> r is Some,
        time_in_range(secs, nanos) && four_digit_year(secs) ==> r is Some && timestamp_shape(r->0@),
{
    match chrono::DateTime::from_timestamp(secs, nanos) {
        Some(t) => Some(t.with_timezone(&chrono::Local).format("%Y-%m-%d %H:%M:%S").to_string()),
        None => None,
    }
}

fn glyph_str(kind: EntryKind) -> (r: &'static str)
    ensures
        r@ == glyph(kind),
{
    match kind {
        EntryKind::File => "📄",
        EntryKind::Dir => "📁",
        EntryKind::Symlink => "🔗",
        EntryKind::Other => "❓",
    }
}

/// Appends the digit of value `d` to `out`.
fn append_digit(out: &mut String, d: u64)
    requires
        d < 10,
    ensures
        final(out)@ == old(out)@ + digit(d as nat),
{
    proof {
        reveal_strlit("0123456789");
    }
    let s = "0123456789".substring_char(d as usize, d as usize + 1);
    out.append(s);
}

/// Appends `n` in octal to `out`.
fn append_octal(out: &mut String, n: u64)
    ensures
        final(out)@ == old(out)@ + octal_digits(n as nat),
    decreases n,
{
    if n >= 8 {
        append_octal(out, n / 8);
    }
    append_digit(out, n % 8);
    assert(final(out)@ =~= old(out)@ + octal_digits(n as nat));
}

/// Appends `n` in decimal to `out`.
fn append_decimal(out: &mut String, n: u64)
    ensures
        final(out)@ == old(out)@ + decimal_digits(n as nat),
    decreases n,
{
    if n >= 10 {
        append_decimal(out, n / 10);
    }
    append_digit(out, n % 10);
    assert(final(out)@ =~= old(out)@ + decimal_digits(n as nat));
}

/// Appends `n` spaces to `out`.
fn append_spaces(out: &mut String, n: usize)
    ensures
        final(out)@ == old(out)@ + spaces(n as nat),
{
    let mut i: usize = 0;
    proof {
        reveal_strlit(" ");
    }
    while i < n
        invariant
            i <= n,
            out@ == old(out)@ + spaces(i as nat),
        decreases n - i,
    {
        out.append(" ");
        proof {
            reveal_strlit(" ");
        }
        assert(spaces(i as nat) + " "@ =~= spaces((i + 1) as nat));
        i = i + 1;
    }
}

/// Appends `s` right-aligned in `width` characters.
fn append_padded_left(out: &mut String, s: &str, width: usize)
    ensures
        final(out)@ == old(out)@ + pad_left(s@, width as nat),
{
    let len = s.unicode_len();
    if len < width {
        append_spaces(out, width - len);
    }
    out.append(s);
}

/// Appends `s` left-aligned in `width` characters.
fn append_padded_right(out: &mut String, s: &str, width: usize)
    ensures
        final(out)@ == old(out)@ + pad_right(s@, width as nat),
{
    let len = s.unicode_len();
    out.append(s);
    if len < width {
        append_spaces(out, width - len);
    }
}

/// The short form of an entry.
pub fn display_short(name: &str, meta: &Meta) -> (r: String)
    ensures
        r@ == short_text(name@, *meta),
{
    let mut out = String::new();
    out.append(glyph_str(meta.kind));
    out.append(" ");
    out.append(name);
    out.append("  ");
    assert(out@ =~= short_text(name@, *meta));
    out
}

/// The long form of an entry, given its modification time as text.
pub fn long_line(name: &str, meta: &Meta, time: &str) -> (r: String)
    ensures
        r@ == long_text(name@, *meta, time@),
{
    let mut out = String::new();
    out.append(glyph_str(meta.kind));
    out.append(" | ");
    let mut perms = String::new();
    append_octal(&mut perms, (meta.mode & 0o777u32) as u64);
    append_padded_left(&mut out, perms.as_str(), 4);
    out.append(" | ");
    let mut size = String::new();
    append_decimal(&mut size, meta.size);
    append_padded_left(&mut out, size.as_str(), 10);
    out.append("  | ");
    out.append(time);
    out.append(" | ");
    append_padded_right(&mut out, name, 20);
    assert(out@ =~= long_text(name@, *meta, time@));
    out
}

/// The long form of an entry, with its modification time in the machine's
/// time zone; `None` only when that time lies outside the calendar's range.
pub fn display_long(name: &str, meta: &Meta) -> (r: Option<String>)
    ensures
        time_in_range(meta.modified_secs, meta.modified_nanos) ==> r is Some,
        r matches Some(l) ==> exists|time: Seq<char>|
            {
                &&& l@ == #[trigger] long_text(name@, *meta, time)
                &&& time_in_range(meta.modified_secs, meta.modified_nanos) && four_digit_year(meta.modified_secs)
                    ==> timestamp_shape(time)
            },
{
    match local_time_text(meta.modified_secs, meta.modified_nanos) {
        Some(time) => {
            let line = long_line(name, meta, time.as_str());
            assert(line@ == long_text(name@, *meta, time@) && (time_in_range(meta.modified_secs, meta.modified_nanos)
                && four_digit_year(meta.modified_secs) ==> timestamp_shape(time@)));
            Some(line)
        },
        None => None,
    }
}

/// The tree form of an entry at `depth`.
pub fn display_tree(name: &str, meta: &Meta, depth: usize) -> (r: String)
    ensures
        r@ == tree_text(name@, *meta, depth as nat),
{
    let mut out = String::new();
    out.append("├──");
    let mut i: usize = 0;
    proof {
        reveal_strlit("├──");
    }
    while i < depth
        invariant
            i <= depth,
            out@ == branch(i as nat),
        decreases depth - i,
    {
        out.append("──");
        i = i + 1;
    }
    out.append(glyph_str(meta.kind));
    out.append(" ");
    out.append(name);
    out
}

} // verus!
