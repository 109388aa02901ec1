//! Text helpers of the command line tools: aligned tables, and sizes and
//! durations split into the units in which they are shown.

use vstd::prelude::*;
use std::sync::Arc;
use std::sync::atomic::{AtomicBool, Ordering};
use vstd::string::*;

verus! {

/// A decimal digit.
pub open spec fn digit_char(d: nat) -> char {
    if d == 0 { '0' } else if d == 1 { '1' } else if d == 2 { '2' } else if d == 3 { '3' } else if d == 4 {
        '4'
    } else if d == 5 { '5' } else if d == 6 { '6' } else if d == 7 { '7' } else if d == 8 { '8' } else { '9' }
}

/// A number in decimal.
pub open spec fn decimal(n: nat) -> Seq<char>
    decreases n,
{
    if n < 10 {
        seq![digit_char(n)]
    } else {
        decimal(n / 10).push(digit_char(n % 10))
    }
}

pub(crate) fn push_digit(out: &mut String, d: u64)
    requires
        d < 10,
    ensures
        final(out)@ == old(out)@.push(digit_char(d as nat)),
{
    proof {
        reveal_strlit("0");
        reveal_strlit("1");
        reveal_strlit("2");
        reveal_strlit("3");
        reveal_strlit("4");
        reveal_strlit("5");
        reveal_strlit("6");
        reveal_strlit("7");
        reveal_strlit("8");
        reveal_strlit("9");
    }
    match d {
        0 => out.append("0"),
        1 => out.append("1"),
        2 => out.append("2"),
        3 => out.append("3"),
        4 => out.append("4"),
        5 => out.append("5"),
        6 => out.append("6"),
        7 => out.append("7"),
        8 => out.append("8"),
        _ => out.append("9"),
    }
    proof {
        assert(out@ =~= old(out)@.push(digit_char(d as nat)));
    }
}

pub(crate) fn push_decimal(out: &mut String, n: u64)
    ensures
        final(out)@ == old(out)@ + decimal(n as nat),
    decreases n,
{
    if n >= 10 {
        push_decimal(out, n / 10);
    }
    push_digit(out, n % 10);
    proof {
        assert(out@ =~= old(out)@ + decimal(n as nat));
    }
}

/// `s` after as many `fill` characters as bring it to `width`.
pub open spec fn padded(s: Seq<char>, width: nat, fill: char) -> Seq<char> {
    if s.len() >= width {
        s
    } else {
        Seq::new((width - s.len()) as nat, |_i: int| fill) + s
    }
}

/// How many digits `n` has in decimal.
fn decimal_width(n: u64) -> (width: u64)
    ensures
        width == decimal(n as nat).len(),
{
    let mut w: u64 = 1;
    let mut m: u64 = n;
    while m >= 10
        invariant
            1 <= w,
            w + m <= n + 1,
            decimal(n as nat).len() == decimal(m as nat).len() + w - 1,
        decreases m,
    {
        proof {
            assert(decimal(m as nat) == decimal((m / 10) as nat).push(digit_char((m % 10) as nat)));
        }
        m = m / 10;
        w = w + 1;
    }
    w
}

/// Appends `n` in decimal, after as many `fill` characters as bring it to
/// `width`.
pub(crate) fn push_padded(out: &mut String, n: u64, width: usize, fill: &str)
    requires
        fill@.len() == 1,
    ensures
        final(out)@ == old(out)@ + padded(decimal(n as nat), width as nat, fill@[0]),
{
    let w = decimal_width(n);
    let width = width as u64;
    let mut i: u64 = w;
    let ghost start = out@;
    while i < width
        invariant
            w <= i,
            i <= width || w > width,
            w >= width ==> i == w,
            fill@.len() == 1,
            out@ == start + Seq::new((i - w) as nat, |_j: int| fill@[0]),
        decreases width - i,
    {
        out.append(fill);
        proof {
            assert(start + Seq::new((i + 1 - w) as nat, |_j: int| fill@[0])
                =~= start + Seq::new((i - w) as nat, |_j: int| fill@[0]) + fill@);
        }
        i = i + 1;
    }
    let ghost filled = out@;
    push_decimal(out, n);
    proof {
        if w >= width {
            assert(filled =~= start);
            assert(padded(decimal(n as nat), width as nat, fill@[0]) == decimal(n as nat));
        } else {
            assert(i == width);
        }
        assert(out@ =~= start + padded(decimal(n as nat), width as nat, fill@[0]));
    }
}

/// The larger of two lengths.
pub open spec fn wider(a: nat, b: nat) -> nat {
    if a >= b {
        a
    } else {
        b
    }
}

/// The cells of a table, each as its characters.
pub open spec fn table_cells(table: Seq<Vec<String>>) -> Seq<Seq<Seq<char>>> {
    table.map_values(|row: Vec<String>| row@.map_values(|cell: String| cell@))
}

/// The width of each column of `rows`: as many columns as the longest row
/// has, each as wide as its widest cell.
pub open spec fn column_widths(rows: Seq<Seq<Seq<char>>>) -> Seq<nat>
    decreases rows.len(),
{
    if rows.len() == 0 {
        Seq::empty()
    } else {
        let before = column_widths(rows.drop_last());
        let row = rows.last();
        Seq::new(
            wider(before.len(), row.len()),
            |c: int|
                wider(
                    if c < before.len() {
                        before[c]
                    } else {
                        0
                    },
                    if c < row.len() {
                        row[c].len()
                    } else {
                        0
                    },
                ),
        )
    }
}

/// `n` spaces.
pub open spec fn spaces(n: int) -> Seq<char> {
    Seq::new(if n > 0 { n as nat } else { 0 }, |i: int| ' ')
}

/// A cell as it is written out: a space before it unless it comes first,
/// and spaces after it up to the width of its column unless its column is
/// the last one.
pub open spec fn written_cell(cell: Seq<char>, index: int, width: nat, last_column: int) -> Seq<char> {
    (if index != 0 {
        seq![' ']
    } else {
        Seq::empty()
    }) + cell + (if index == last_column {
        Seq::empty()
    } else {
        spaces(width - cell.len())
    })
}

/// The first `count` cells of a row as they are written out.
pub open spec fn written_cells(row: Seq<Seq<char>>, widths: Seq<nat>, last_column: int, count: int) -> Seq<char>
    decreases count,
{
    if count <= 0 {
        Seq::empty()
    } else {
        written_cells(row, widths, last_column, count - 1) + written_cell(
            row[count - 1],
            count - 1,
            widths[count - 1],
            last_column,
        )
    }
}

/// The first `count` rows of a table as they are written out, each on a
/// line of its own.
pub open spec fn written_rows(rows: Seq<Seq<Seq<char>>>, widths: Seq<nat>, count: int) -> Seq<char>
    decreases count,
{
    if count <= 0 {
        Seq::empty()
    } else {
        written_rows(rows, widths, count - 1) + written_cells(
            rows[count - 1],
            widths,
            widths.len() - 1,
            rows[count - 1].len() as int,
        ) + seq!['\n']
    }
}

/// A table as text: its cells in aligned columns.
pub open spec fn table_text(rows: Seq<Seq<Seq<char>>>) -> Seq<char> {
    written_rows(rows, column_widths(rows), rows.len() as int)
}

proof fn lemma_widths_cover(rows: Seq<Seq<Seq<char>>>, r: int)
    requires
        0 <= r < rows.len(),
    ensures
        rows[r].len() <= column_widths(rows).len(),
    decreases rows.len(),
{
    if r < rows.len() - 1 {
        assert(rows.drop_last()[r] == rows[r]);
        lemma_widths_cover(rows.drop_last(), r);
    }
}

fn append_spaces(output: &mut String, count: usize)
    ensures
        final(output)@ == old(output)@ + spaces(count as int),
{
    let mut i: usize = 0;
    proof {
        reveal_strlit(" ");
        assert(spaces(0) =~= Seq::<char>::empty());
    }
    while i < count
        invariant
            0 <= i <= count,
            output@ == old(output)@ + spaces(i as int),
        decreases count - i,
    {
        proof {
            reveal_strlit(" ");
        }
        output.append(" ");
        i = i + 1;
        proof {
            assert(spaces(i as int) =~= spaces(i - 1) + seq![' ']);
        }
    }
}

/// Lays out a table as text: each row on a line, its cells separated by a
/// space and padded to the width of their column, but for the last column.
pub fn table_to_string(table: &[Vec<String>]) -> (output: String)
    requires
        forall|r: int, c: int|
            #![trigger table@[r]@[c]]
            0 <= r < table@.len() && 0 <= c < table@[r]@.len() ==> table@[r]@[c]@.len() <= usize::MAX,
    ensures
        output@ == table_text(table_cells(table@)),
{
    let ghost rows = table_cells(table@);
    let mut widths: Vec<usize> = Vec::new();
    let mut max_column_count: usize = 0;
    let mut r: usize = 0;
    proof {
        assert(rows.take(0) =~= Seq::<Seq<Seq<char>>>::empty());
    }
    while r < table.len()
        invariant
            rows == table_cells(table@),
            0 <= r <= table@.len(),
            widths@.map_values(|w: usize| w as nat) == column_widths(rows.take(r as int)),
            max_column_count == widths@.len(),
            forall|q: int, c: int|
                #![trigger table@[q]@[c]]
                0 <= q < table@.len() && 0 <= c < table@[q]@.len() ==> table@[q]@[c]@.len() <= usize::MAX,
        decreases table@.len() - r,
    {
        let row = &table[r];
        let ghost before = widths@;
        let column_count = if widths.len() >= row.len() {
            widths.len()
        } else {
            row.len()
        };
        if column_count > max_column_count {
            max_column_count = column_count;
        }
        while widths.len() < column_count
            invariant
                widths@.len() <= column_count,
                before.len() <= widths@.len(),
                forall|c: int| 0 <= c < before.len() ==> #[trigger] widths@[c] == before[c],
                forall|c: int| before.len() <= c < widths@.len() ==> #[trigger] widths@[c] == 0,
            decreases column_count - widths@.len(),
        {
            widths.push(0);
        }
        let mut c: usize = 0;
        while c < row.len()
            invariant
                row == &table@[r as int],
                widths@.len() == column_count,
                column_count >= row@.len(),
                column_count >= before.len(),
                0 <= c <= row@.len(),
                forall|k: int|
                    #![trigger widths@[k]]
                    0 <= k < column_count ==> widths@[k] as nat == if k < c {
                        wider(
                            if k < before.len() {
                                before[k] as nat
                            } else {
                                0
                            },
                            row@[k]@.len(),
                        )
                    } else if k < before.len() {
                        before[k] as nat
                    } else {
                        0
                    },
                forall|q: int, k: int|
                    #![trigger table@[q]@[k]]
                    0 <= q < table@.len() && 0 <= k < table@[q]@.len() ==> table@[q]@[k]@.len() <= usize::MAX,
                0 <= r < table@.len(),
            decreases row@.len() - c,
        {
            let length = row[c].as_str().unicode_len();
            if length > widths[c] {
                widths.set(c, length);
            }
            c = c + 1;
        }
        r = r + 1;
        proof {
            let taken = rows.take(r as int);
            assert(taken.drop_last() =~= rows.take(r - 1));
            assert(taken.last() == rows[r - 1]);
            assert(rows[r - 1] == table@[r - 1]@.map_values(|cell: String| cell@));
            assert(widths@.map_values(|w: usize| w as nat) =~= column_widths(taken));
        }
    }
    proof {
        assert(rows.take(rows.len() as int) =~= rows);
    }
    let ghost widths_spec = column_widths(rows);
    let mut output = String::new();
    let mut r: usize = 0;
    proof {
        assert(output@ =~= written_rows(rows, widths_spec, 0));
    }
    while r < table.len()
        invariant
            rows == table_cells(table@),
            widths_spec == column_widths(rows),
            widths@.map_values(|w: usize| w as nat) == widths_spec,
            max_column_count == widths@.len(),
            0 <= r <= table@.len(),
            output@ == written_rows(rows, widths_spec, r as int),
        decreases table@.len() - r,
    {
        let row = &table[r];
        proof {
            lemma_widths_cover(rows, r as int);
            assert(rows[r as int].len() == row@.len());
        }
        let ghost line_start = output@;
        let mut c: usize = 0;
        while c < row.len()
            invariant
                row == &table@[r as int],
                rows == table_cells(table@),
                widths_spec == column_widths(rows),
                widths@.map_values(|w: usize| w as nat) == widths_spec,
                max_column_count == widths@.len(),
                row@.len() <= widths@.len(),
                0 <= r < table@.len(),
                0 <= c <= row@.len(),
                output@ == line_start + written_cells(rows[r as int], widths_spec, widths_spec.len() - 1, c as int),
            decreases row@.len() - c,
        {
            let ghost cell_start = output@;
            let cell = &row[c];
            if c != 0 {
                proof {
                    reveal_strlit(" ");
                }
                output.append(" ");
            }
            let length = cell.as_str().unicode_len();
            output.append(cell.as_str());
            let width = widths[c];
            if c != max_column_count - 1 && length < width {
                append_spaces(&mut output, width - length);
            }
            proof {
                let cells = rows[r as int];
                assert(cells[c as int] == cell@);
                assert(widths_spec[c as int] == width as nat);
                assert(written_cells(cells, widths_spec, widths_spec.len() - 1, c + 1)
                    == written_cells(cells, widths_spec, widths_spec.len() - 1, c as int) + written_cell(
                    cells[c as int],
                    c as int,
                    widths_spec[c as int],
                    widths_spec.len() - 1,
                ));
                if c != max_column_count - 1 && !(length < width) {
                    assert(spaces(width - length) =~= Seq::<char>::empty());
                }
                if c != 0 {
                    assert(output@ =~= line_start + written_cells(cells, widths_spec, widths_spec.len() - 1, c + 1));
                } else {
                    assert(output@ =~= line_start + written_cells(cells, widths_spec, widths_spec.len() - 1, c + 1));
                }
            }
            c = c + 1;
        }
        proof {
            reveal_strlit("\n");
        }
        output.append("\n");
        r = r + 1;
        proof {
            assert(output@ =~= written_rows(rows, widths_spec, r as int));
        }
    }
    output
}

/// A duration in whole seconds, shown in days, hours, minutes and
/// seconds.
#[derive(Copy, Clone, Debug, PartialEq, Eq)]
pub struct ReadableDuration(pub u64);

/// The parts of a duration: days, hours, minutes and seconds, and from
/// which part on it is shown.
#[derive(Copy, Clone, Debug, PartialEq, Eq)]
pub struct DurationParts {
    pub days: u64,
    pub hours: u64,
    pub minutes: u64,
    pub secs: u64,
    pub show_days: bool,
    pub show_hours: bool,
    pub show_minutes: bool,
}

impl ReadableDuration {
    /// The duration split into days, hours, minutes and seconds; the days
    /// are shown where there are any, the hours where those or the days
    /// are, the minutes where any larger part is.
    pub fn parts(&self) -> (parts: DurationParts)
        ensures
            parts.days == self.0 / 86400,
            parts.hours == (self.0 % 86400) / 3600,
            parts.minutes == (self.0 % 3600) / 60,
            parts.secs == self.0 % 60,
            parts.show_days == (parts.days > 0),
            parts.show_hours == (parts.show_days || parts.hours > 0),
            parts.show_minutes == (parts.show_hours || parts.minutes > 0),
    {
        let mut secs = self.0;
        let days = secs / (60 * 60 * 24);
        secs = secs - days * (60 * 60 * 24);
        let hours = secs / (60 * 60);
        secs = secs - hours * (60 * 60);
        let minutes = secs / 60;
        secs = secs - minutes * 60;
        proof {
            let t = self.0 as int;
            assert(t - (t / 86400) * 86400 == t % 86400) by (nonlinear_arith);
            let a = t % 86400;
            assert(a - (a / 3600) * 3600 == a % 3600) by (nonlinear_arith);
            vstd::arithmetic::div_mod::lemma_mod_mod(t, 3600, 24);
            assert(a % 3600 == t % 3600);
            let b = a % 3600;
            assert(b - (b / 60) * 60 == b % 60) by (nonlinear_arith);
            vstd::arithmetic::div_mod::lemma_mod_mod(t, 60, 60);
            assert(b % 60 == t % 60);
        }
        let show_days = days > 0;
        let show_hours = show_days || hours > 0;
        let show_minutes = show_hours || minutes > 0;
        DurationParts { days, hours, minutes, secs, show_days, show_hours, show_minutes }
    }
}

/// A number of bytes, shown in the largest decimal unit that it reaches.
#[derive(Copy, Clone, Debug, PartialEq, Eq)]
pub struct ReadableSize(pub u64);

/// The unit in which a size is shown.
#[derive(Copy, Clone, Debug, PartialEq, Eq, Structural)]
pub enum SizeUnit {
    Bytes,
    Kilobytes,
    Megabytes,
    Gigabytes,
    Terabytes,
}

/// How many bytes make one of `unit`.
pub open spec fn unit_bytes(unit: SizeUnit) -> nat {
    match unit {
        SizeUnit::Bytes => 1,
        SizeUnit::Kilobytes => 1000,
        SizeUnit::Megabytes => 1000_000,
        SizeUnit::Gigabytes => 1000_000_000,
        SizeUnit::Terabytes => 1000_000_000_000,
    }
}

/// The largest unit that `bytes` reaches.
pub open spec fn size_unit(bytes: u64) -> SizeUnit {
    if bytes >= 1000_000_000_000 {
        SizeUnit::Terabytes
    } else if bytes >= 1000_000_000 {
        SizeUnit::Gigabytes
    } else if bytes >= 1000_000 {
        SizeUnit::Megabytes
    } else if bytes >= 1000 {
        SizeUnit::Kilobytes
    } else {
        SizeUnit::Bytes
    }
}

impl ReadableSize {
    /// The size in its largest unit: the whole units, the thousandths of
    /// a unit that are left, and the unit. Sizes under a kilobyte are shown
    /// in bytes, with no fraction.
    pub fn parts(&self) -> (parts: (u64, u64, SizeUnit))
        ensures
            parts.2 == size_unit(self.0),
            parts.0 == (self.0 as nat) / unit_bytes(parts.2),
            parts.1 == (if parts.2 == SizeUnit::Bytes {
                0
            } else {
                ((self.0 as nat) % unit_bytes(parts.2)) / (unit_bytes(parts.2) / 1000)
            }),
    {
        let bytes = self.0;
        let (multiplier, unit): (u64, SizeUnit) = if bytes >= 1000_000_000_000 {
            (1000_000_000_000, SizeUnit::Terabytes)
        } else if bytes >= 1000_000_000 {
            (1000_000_000, SizeUnit::Gigabytes)
        } else if bytes >= 1000_000 {
            (1000_000, SizeUnit::Megabytes)
        } else if bytes >= 1000 {
            (1000, SizeUnit::Kilobytes)
        } else {
            proof {
                assert(bytes as nat / 1 == bytes);
            }
            return (bytes, 0, SizeUnit::Bytes);
        };
        let whole = bytes / multiplier;
        proof {
            assert(whole * multiplier <= bytes) by (nonlinear_arith)
                requires
                    whole == bytes / multiplier,
                    multiplier > 0,
            ;
            assert(bytes - whole * multiplier == bytes % multiplier) by (nonlinear_arith)
                requires
                    whole == bytes / multiplier,
                    multiplier > 0,
            ;
        }
        let fract = (bytes - whole * multiplier) / (multiplier / 1000);
        (whole, fract, unit)
    }
}

/// The name of a unit larger than a byte.
pub open spec fn unit_name(unit: SizeUnit) -> Seq<char> {
    match unit {
        SizeUnit::Kilobytes => seq!['K', 'B'],
        SizeUnit::Megabytes => seq!['M', 'B'],
        SizeUnit::Gigabytes => seq!['G', 'B'],
        _ => seq!['T', 'B'],
    }
}

/// A size as text: under a kilobyte, the bytes right-aligned in seven
/// places; else the whole units right-aligned in three places, a point,
/// the thousandths in three digits, a space and the unit.
pub open spec fn size_text(bytes: u64) -> Seq<char> {
    let unit = size_unit(bytes);
    if unit == SizeUnit::Bytes {
        padded(decimal(bytes as nat), 7, ' ')
    } else {
        let m = unit_bytes(unit);
        padded(decimal((bytes as nat) / m), 3, ' ') + seq!['.'] + padded(decimal(((bytes as nat) % m) / (m / 1000)), 3, '0')
            + seq![' '] + unit_name(unit)
    }
}

impl ReadableSize {
    pub fn to_text(&self) -> (text: String)
        ensures
            text@ == size_text(self.0),
    {
        let (whole, fract, unit) = self.parts();
        let mut text = String::new();
        proof {
            reveal_strlit(" ");
            reveal_strlit("0");
            reveal_strlit(".");
            reveal_strlit("KB");
            reveal_strlit("MB");
            reveal_strlit("GB");
            reveal_strlit("TB");
        }
        if unit == SizeUnit::Bytes {
            push_padded(&mut text, whole, 7, " ");
            proof {
                assert(" "@[0] == ' ');
                assert((self.0 as nat) / 1 == self.0);
                assert(text@ =~= size_text(self.0));
            }
        } else {
            push_padded(&mut text, whole, 3, " ");
            text.append(".");
            push_padded(&mut text, fract, 3, "0");
            text.append(" ");
            match unit {
                SizeUnit::Kilobytes => text.append("KB"),
                SizeUnit::Megabytes => text.append("MB"),
                SizeUnit::Gigabytes => text.append("GB"),
                _ => text.append("TB"),
            }
            proof {
                assert(" "@[0] == ' ');
                assert("0"@[0] == '0');
                assert("KB"@ =~= seq!['K', 'B']);
                assert("MB"@ =~= seq!['M', 'B']);
                assert("GB"@ =~= seq!['G', 'B']);
                assert("TB"@ =~= seq!['T', 'B']);
                assert(text@ =~= size_text(self.0));
            }
        }
        text
    }
}

/// A duration in seconds as text: the days where there are any, then the
/// hours where those or the days are shown, then the minutes where any
/// larger part is, each of the last three in two digits or more.
pub open spec fn readable_duration_text(t: u64) -> Seq<char> {
    let days = (t as nat) / 86400;
    let hours = ((t as nat) % 86400) / 3600;
    let minutes = ((t as nat) % 3600) / 60;
    let secs = (t as nat) % 60;
    let show_days = days > 0;
    let show_hours = show_days || hours > 0;
    let show_minutes = show_hours || minutes > 0;
    (if show_days { decimal(days) + seq![' ', 'd', 'a', 'y', 's', ' '] } else { Seq::empty() })
        + (if show_hours { padded(decimal(hours), 2, '0') + seq!['h'] } else { Seq::empty() })
        + (if show_minutes { padded(decimal(minutes), 2, '0') + seq!['m'] } else { Seq::empty() })
        + padded(decimal(secs), 2, '0') + seq!['s']
}

impl ReadableDuration {
    pub fn to_text(&self) -> (text: String)
        ensures
            text@ == readable_duration_text(self.0),
    {
        let parts = self.parts();
        let mut text = String::new();
        proof {
            reveal_strlit(" days ");
            reveal_strlit("0");
            reveal_strlit("h");
            reveal_strlit("m");
            reveal_strlit("s");
            assert(" days "@ =~= seq![' ', 'd', 'a', 'y', 's', ' ']);
            assert("0"@[0] == '0');
            assert("h"@ =~= seq!['h']);
            assert("m"@ =~= seq!['m']);
            assert("s"@ =~= seq!['s']);
        }
        let ghost start = text@;
        if parts.show_days {
            push_decimal(&mut text, parts.days);
            text.append(" days ");
        }
        let ghost after_days = text@;
        if parts.show_hours {
            push_padded(&mut text, parts.hours, 2, "0");
            text.append("h");
        }
        let ghost after_hours = text@;
        if parts.show_minutes {
            push_padded(&mut text, parts.minutes, 2, "0");
            text.append("m");
        }
        let ghost after_minutes = text@;
        push_padded(&mut text, parts.secs, 2, "0");
        text.append("s");
        proof {
            let t = self.0;
            assert(start =~= Seq::<char>::empty());
            assert(after_days =~= (if parts.show_days { decimal((t as nat) / 86400) + seq![' ', 'd', 'a', 'y', 's', ' '] } else { Seq::empty() }));
            assert(text@ =~= readable_duration_text(self.0));
        }
        text
    }
}

/// An address, shown as sixteen hexadecimal digits.
#[derive(Copy, Clone, Debug, PartialEq, Eq)]
pub struct ReadableAddress(pub u64);

/// Whether an interrupt was asked for: a flag that a handler raises.
#[derive(Clone)]
pub struct Sigint {
    pub flag: Arc<AtomicBool>,
}

impl Sigint {
    /// Watches `flag`.
    pub fn new(flag: Arc<AtomicBool>) -> (sigint: Sigint)
        ensures
            sigint.flag == flag,
    {
        Sigint { flag }
    }

    /// Whether the flag was raised; it can be raised at any time, so
    /// nothing is known of the answer beforehand.
    pub fn was_sent(&self) -> bool {
        self.flag.load(Ordering::Relaxed)
    }
}

/// Something written to, seen as the other kind of writer.
pub struct IoAdapter<T>(pub T);

impl<T> IoAdapter<T> {
    pub fn new(fp: T) -> (adapter: IoAdapter<T>)
        ensures
            adapter.0 == fp,
    {
        IoAdapter(fp)
    }
}

} // verus!
