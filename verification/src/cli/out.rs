//! The lines a command prints, and how numbers are written in them.

use crate::double::{nearest53, round_div, rounded, to_nearest53};
use crate::text::{cat2, cat3, cat4, cat5, chars_of, decimal, decimal_of};
use vstd::prelude::*;
use vstd::string::*;

verus! {

/// How a command speaks: as text or as one document, in colour or not.
#[derive(Debug, Clone, Copy, PartialEq, Eq, Structural)]
pub struct Output {
    pub json: bool,
    pub quiet: bool,
    pub color: bool,
}

/// Text in a colour, where colour is on.
pub open spec fn painted(color: bool, text: Seq<char>, code: Seq<char>) -> Seq<char> {
    if color {
        "\x1b["@ + code + "m"@ + text + "\x1b[0m"@
    } else {
        text
    }
}

/// Text followed by spaces up to a width.
pub open spec fn padded(text: Seq<char>, width: int) -> Seq<char> {
    if text.len() >= width {
        text
    } else {
        text + Seq::new((width - text.len()) as nat, |i: int| ' ')
    }
}

/// Text with spaces before it up to a width.
pub open spec fn aligned(text: Seq<char>, width: int) -> Seq<char> {
    if text.len() >= width {
        text
    } else {
        Seq::new((width - text.len()) as nat, |i: int| ' ') + text
    }
}

fn spaces(n: usize) -> (out: String)
    ensures
        out@ == Seq::new(n as nat, |i: int| ' '),
{
    let mut out = String::new();
    let mut i: usize = 0;
    assert(out@ =~= Seq::new(0, |i: int| ' '));
    while i < n
        invariant
            i <= n,
            out@ == Seq::new(i as nat, |i: int| ' '),
        decreases n - i,
    {
        out.push(' ');
        assert(out@ =~= Seq::new((i + 1) as nat, |i: int| ' '));
        i = i + 1;
    }
    out
}

/// Text followed by spaces up to a width.
pub fn pad(text: &str, width: usize) -> (out: String)
    ensures
        out@ == padded(text@, width as int),
{
    let n: usize = chars_of(text).len();
    if n >= width {
        text.to_owned()
    } else {
        let s = spaces(width - n);
        cat2(text, s.as_str())
    }
}

/// Text with spaces before it up to a width.
pub fn align(text: &str, width: usize) -> (out: String)
    ensures
        out@ == aligned(text@, width as int),
{
    let n: usize = chars_of(text).len();
    if n >= width {
        text.to_owned()
    } else {
        let s = spaces(width - n);
        cat2(s.as_str(), text)
    }
}

/// A `label  value` row.
pub open spec fn row(color: bool, label: Seq<char>, value: Seq<char>) -> Seq<char> {
    "  "@ + padded(painted(color, label, "2"@), 22) + " "@ + value
}

/// A line that may have been suppressed.
pub open spec fn shown(line: Option<String>) -> Option<Seq<char>> {
    match line {
        Some(s) => Some(s@),
        None => None,
    }
}

impl Output {
    /// `--json` turns colour off: the escape codes would land inside the
    /// document. So does a request for no colour, and a stream that is not a
    /// terminal.
    pub fn new(json: bool, no_color: bool, quiet: bool, terminal: bool) -> (o: Self)
        ensures
            o == (Output { json, quiet, color: !no_color && !json && terminal }),
    {
        Output { json, quiet, color: !no_color && !json && terminal }
    }

    /// A line of data, unless the document is all that is printed.
    pub fn line(&self, text: &str) -> (r: Option<String>)
        ensures
            shown(r) == if self.json || self.quiet {
                None
            } else {
                Some(text@)
            },
    {
        if self.json || self.quiet {
            None
        } else {
            Some(text.to_owned())
        }
    }

    /// A section heading.
    pub fn heading(&self, text: &str) -> (r: Option<String>)
        ensures
            shown(r) == if self.json || self.quiet {
                None
            } else {
                Some(painted(self.color, text@, "1"@))
            },
    {
        let t = self.bold(text);
        self.line(t.as_str())
    }

    /// A `label  value` row, the label padded to a fixed width.
    pub fn field(&self, label: &str, value: &str) -> (r: Option<String>)
        ensures
            shown(r) == if self.json || self.quiet {
                None
            } else {
                Some(row(self.color, label@, value@))
            },
    {
        let t = self.row_of(label, value);
        self.line(t.as_str())
    }

    /// A `label  value` row, whether or not rows are printed.
    pub fn row_of(&self, label: &str, value: &str) -> (s: String)
        ensures
            s@ == row(self.color, label@, value@),
    {
        let l = self.dim(label);
        let l = pad(l.as_str(), 22);
        cat4("  ", l.as_str(), " ", value)
    }

    pub fn ok_mark(&self) -> (s: String)
        ensures
            s@ == painted(self.color, "ok"@, "32"@),
    {
        self.paint("ok", "32")
    }

    pub fn fail_mark(&self) -> (s: String)
        ensures
            s@ == painted(self.color, "fail"@, "31"@),
    {
        self.paint("fail", "31")
    }

    pub fn warn_mark(&self) -> (s: String)
        ensures
            s@ == painted(self.color, "warn"@, "33"@),
    {
        self.paint("warn", "33")
    }

    pub fn bold(&self, text: &str) -> (s: String)
        ensures
            s@ == painted(self.color, text@, "1"@),
    {
        self.paint(text, "1")
    }

    pub fn dim(&self, text: &str) -> (s: String)
        ensures
            s@ == painted(self.color, text@, "2"@),
    {
        self.paint(text, "2")
    }

    /// Text in a colour, where colour is on.
    pub fn paint(&self, text: &str, code: &str) -> (s: String)
        ensures
            s@ == painted(self.color, text@, code@),
    {
        if self.color {
            cat5("\x1b[", code, "m", text, "\x1b[0m")
        } else {
            text.to_owned()
        }
    }
}

/// The binary unit that a size is written in: the largest below it, and no
/// larger than the tebibyte.
pub open spec fn size_unit(n: nat) -> u8 {
    if n < 0x400 {
        0
    } else if n < 0x10_0000 {
        1
    } else if n < 0x4000_0000 {
        2
    } else if n < 0x100_0000_0000 {
        3
    } else {
        4
    }
}

/// Bytes in a unit.
pub open spec fn unit_size(unit: u8) -> nat {
    match unit {
        0 => 1,
        1 => 0x400,
        2 => 0x10_0000,
        3 => 0x4000_0000,
        _ => 0x100_0000_0000,
    }
}

/// The name of a unit, after a space.
pub open spec fn unit_name(unit: u8) -> Seq<char> {
    match unit {
        0 => " B"@,
        1 => " KiB"@,
        2 => " MiB"@,
        3 => " GiB"@,
        _ => " TiB"@,
    }
}

/// A number of tenths, with its decimal point.
pub open spec fn tenths(n: nat) -> Seq<char> {
    decimal(n / 10) + "."@ + decimal(n % 10)
}

/// A size in its unit: whole from a hundred up, to a tenth below.
pub open spec fn size_text(n: nat) -> Seq<char> {
    let v = nearest53(n);
    let unit = size_unit(v);
    if unit == 0 {
        decimal(n) + " B"@
    } else if v >= 100 * unit_size(unit) {
        decimal(rounded(v, unit_size(unit))) + unit_name(unit)
    } else {
        tenths(rounded(v * 10, unit_size(unit))) + unit_name(unit)
    }
}

/// Bytes as a human reads them, in binary units.
pub fn bytes(n: u64) -> (out: String)
    ensures
        out@ == size_text(n as nat),
{
    let v: u128 = to_nearest53(n);
    let (unit, size): (u8, u128) = if v < 0x400 {
        (0, 1)
    } else if v < 0x10_0000 {
        (1, 0x400)
    } else if v < 0x4000_0000 {
        (2, 0x10_0000)
    } else if v < 0x100_0000_0000 {
        (3, 0x4000_0000)
    } else {
        (4, 0x100_0000_0000)
    };
    let name: &str = match unit {
        0 => " B",
        1 => " KiB",
        2 => " MiB",
        3 => " GiB",
        _ => " TiB",
    };
    if unit == 0 {
        let d = decimal_of(n);
        cat2(d.as_str(), " B")
    } else if v >= 100 * size {
        let q = round_div(v, size);
        assert(q <= 0xffff_ffff_ffff_ffff) by {
            assert(v as int / (size as int) <= 0x40_0000_0000_0000) by (nonlinear_arith)
                requires
                    v <= 0x1_0000_0000_0000_0000,
                    size >= 0x400,
            ;
        }
        let d = decimal_of(q as u64);
        cat2(d.as_str(), name)
    } else {
        let q = round_div(v * 10, size);
        assert(q <= 1000) by {
            assert((v * 10) as int / (size as int) < 1000) by (nonlinear_arith)
                requires
                    v < 100 * size,
                    size >= 0x400,
                    v >= 0,
            ;
        }
        let whole = decimal_of((q / 10) as u64);
        let tenth = decimal_of((q % 10) as u64);
        cat4(whole.as_str(), ".", tenth.as_str(), name)
    }
}

/// Digits with a comma before every group of three, counted from the end.
pub open spec fn grouped(digits: Seq<char>) -> Seq<char>
    decreases digits.len(),
{
    if digits.len() <= 3 {
        digits
    } else {
        grouped(digits.take(digits.len() - 3)) + ","@ + digits.skip(digits.len() - 3)
    }
}

fn group(digits: &Vec<char>, n: usize) -> (out: String)
    requires
        n <= digits.len(),
    ensures
        out@ == grouped(digits@.take(n as int)),
    decreases n,
{
    let ghost d = digits@.take(n as int);
    if n <= 3 {
        assert(digits@.subrange(0, n as int) =~= d);
        crate::text::string_of(digits, 0, n)
    } else {
        let head = group(digits, n - 3);
        let tail = crate::text::string_of(digits, n - 3, n);
        assert(d.take(d.len() - 3) =~= digits@.take(n - 3));
        assert(d.skip(d.len() - 3) =~= digits@.subrange(n - 3, n as int));
        cat3(head.as_str(), ",", tail.as_str())
    }
}

/// A count with thousands separators.
pub fn count(n: u64) -> (out: String)
    ensures
        out@ == grouped(decimal(n as nat)),
{
    let d = decimal_of(n);
    let digits = chars_of(d.as_str());
    assert(digits@.take(digits@.len() as int) =~= digits@);
    group(&digits, digits.len())
}

} // verus!
