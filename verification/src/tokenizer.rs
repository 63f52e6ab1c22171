//! Splits a report into its `key: value` lines.

use vstd::prelude::*;
use crate::text::{chars_of, find_char, position, slice_of, trim, trim_bounds, trimmed};

verus! {

/// One structured line of a report.
///
/// `column` is the offset, in characters, of the separator; where the key
/// holds a comma, of the first comma instead.
#[derive(Debug, Clone, PartialEq, Eq)]
pub struct Line {
    pub column: usize,
    pub key: String,
    pub value: String,
}

/// What a line holds, as plain values.
pub struct LineView {
    pub column: nat,
    pub key: Seq<char>,
    pub value: Seq<char>,
}

impl View for Line {
    type V = LineView;

    open spec fn view(&self) -> LineView {
        LineView { column: self.column as nat, key: self.key@, value: self.value@ }
    }
}

/// The views of a sequence of lines.
pub open spec fn lines_view(lines: Seq<Line>) -> Seq<LineView> {
    lines.map_values(|l: Line| l@)
}

/// The view of an optional line.
pub open spec fn option_view(line: Option<Line>) -> Option<LineView> {
    match line {
        Some(l) => Some(l@),
        None => None,
    }
}

/// What one physical line stands for. A line that is blank or holds no `:`
/// stands for nothing. Otherwise the first `:` separates key and value,
/// both trimmed, and the column is the offset of the first `,` of the key
/// part, or that of the separator where the key part holds no comma.
pub open spec fn parse_line_spec(line: Seq<char>) -> Option<LineView> {
    let sep = position(line, ':') as int;
    let key_part = line.subrange(0, sep);
    let comma = position(key_part, ',') as int;
    if trim(line).len() == 0 || sep == line.len() {
        None
    } else {
        Some(
            LineView {
                column: (if comma < sep { comma } else { sep }) as nat,
                key: trim(key_part),
                value: trim(line.subrange(sep + 1, line.len() as int)),
            },
        )
    }
}

/// The lines of a report, in order. Physical lines end at `'\n'`; those
/// that stand for nothing are left out.
pub open spec fn tokenize_spec(raw: Seq<char>) -> Seq<LineView>
    decreases raw.len(),
{
    if raw.len() == 0 {
        Seq::empty()
    } else {
        let end = position(raw, '\n') as int;
        let rest = if end < raw.len() {
            raw.subrange(end + 1, raw.len() as int)
        } else {
            Seq::empty()
        };
        match parse_line_spec(raw.subrange(0, end)) {
            Some(l) => seq![l] + tokenize_spec(rest),
            None => tokenize_spec(rest),
        }
    }
}

/// Reads one physical line, given as its characters.
pub fn line_from_chars(line: &Vec<char>) -> (r: Option<Line>)
    ensures
        option_view(r) == parse_line_spec(line@),
{
    let n = line.len();
    assert(line@.subrange(0, n as int) =~= line@);
    let (a, b) = trim_bounds(line, 0, n);
    let sep = find_char(line, 0, n, ':');
    if a == b || sep == n {
        return None;
    }
    let comma = find_char(line, 0, sep, ',');
    let column = if comma < sep { comma } else { sep };
    let key = trimmed(line, 0, sep);
    let value = trimmed(line, sep + 1, n);
    Some(Line { column, key, value })
}

/// Reads one physical line.
pub fn parse_line(line: &str) -> (r: Option<Line>)
    ensures
        option_view(r) == parse_line_spec(line@),
{
    let chars = chars_of(line);
    line_from_chars(&chars)
}

/// Splits a report into its structured lines.
pub fn tokenize(raw: &str) -> (lines: Vec<Line>)
    ensures
        lines_view(lines@) == tokenize_spec(raw@),
{
    let chars = chars_of(raw);
    let n = chars.len();
    let mut lines: Vec<Line> = Vec::new();
    let mut start: usize = 0;
    assert(chars@.subrange(0, n as int) =~= chars@);
    assert(lines_view(lines@) =~= Seq::<LineView>::empty());
    while start < n
        invariant
            start <= n == chars.len(),
            tokenize_spec(chars@) == lines_view(lines@) + tokenize_spec(
                chars@.subrange(start as int, n as int),
            ),
        decreases n - start,
    {
        let ghost rest = chars@.subrange(start as int, n as int);
        let ghost before = lines_view(lines@);
        let end = find_char(&chars, start, n, '\n');
        let physical = slice_of(&chars, start, end);
        let next: usize = if end < n { end + 1 } else { n };
        proof {
            assert(rest.subrange(0, end - start) =~= physical@);
            assert(chars@.subrange(next as int, n as int) =~= if end - start < rest.len() {
                rest.subrange(end - start + 1, rest.len() as int)
            } else {
                Seq::empty()
            });
        }
        match line_from_chars(&physical) {
            Some(l) => {
                lines.push(l);
                proof {
                    assert(lines_view(lines@) =~= before.push(l@));
                    assert(before.push(l@) + tokenize_spec(chars@.subrange(next as int, n as int))
                        =~= before + (seq![l@] + tokenize_spec(
                        chars@.subrange(next as int, n as int),
                    )));
                }
            },
            None => {},
        }
        start = next;
    }
    assert(lines_view(lines@) + Seq::<LineView>::empty() =~= lines_view(lines@));
    lines
}

} // verus!
