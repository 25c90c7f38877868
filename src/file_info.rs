use vstd::prelude::*;
use crate::text::{decimal, push_char, push_decimal};

verus! {

/// A span of source text: `length` characters starting at `offset`.
#[derive(Debug, PartialEq, Eq, Clone, Copy, Structural)]
pub struct FileInfo {
    pub length: usize,
    pub offset: usize,
}

pub type FI = FileInfo;

impl FileInfo {
    /// One past the last character of the span.
    pub open spec fn end(self) -> int {
        self.offset + self.length
    }

    pub fn new(length: usize, offset: usize) -> (r: FileInfo)
        ensures
            r.length == length,
            r.offset == offset,
    {
        FileInfo { length, offset }
    }

    pub fn zero() -> (r: FileInfo)
        ensures
            r.length == 0,
            r.offset == 0,
    {
        FileInfo { length: 0, offset: 0 }
    }

    /// Moves the end of the span forward by one character and the start
    /// along with it: a span that tracks a cursor.
    pub fn inc(&mut self)
        requires
            old(self).length < usize::MAX,
            old(self).offset < usize::MAX,
        ensures
            final(self).length == old(self).length + 1,
            final(self).offset == old(self).offset + 1,
    {
        self.length = self.length + 1;
        self.offset = self.offset + 1;
    }

    /// The span that starts where `start` starts and is as long as the
    /// distance the cursor travelled since `start`.
    pub fn len_diff(&self, start: &FileInfo) -> (r: FileInfo)
        requires
            start.length <= self.length,
        ensures
            r.length == self.length - start.length,
            r.offset == start.offset,
    {
        FileInfo::new(self.length - start.length, start.offset)
    }

    /// The span from the start of `self` to the later of the two ends: the
    /// union of the two spans.
    pub fn merge(&self, end: &FileInfo) -> (r: FileInfo)
        requires
            self.offset <= end.end(),
            self.end() <= usize::MAX,
            end.end() <= usize::MAX,
        ensures
            r.offset == self.offset,
            r.end() == if self.end() >= end.end() {
                self.end()
            } else {
                end.end()
            },
    {
        let self_end = self.offset + self.length;
        let end_end = end.offset + end.length;
        let last = if self_end >= end_end {
            self_end
        } else {
            end_end
        };
        FileInfo::new(last - self.offset, self.offset)
    }
}

/// A line number right-aligned in three columns, then `: `.
pub open spec fn gutter(n: nat) -> Seq<char> {
    if n < 10 {
        "  "@ + decimal(n) + ": "@
    } else if n < 100 {
        " "@ + decimal(n) + ": "@
    } else {
        decimal(n) + ": "@
    }
}

/// Where a walk over the first `k` characters of `s` stands: the line
/// number, the column, and the start and number of the last line that has
/// a character other than a blank before position `k`.
pub open spec fn scan(s: Seq<char>, k: int) -> (nat, nat, int, nat)
    decreases k,
{
    if k <= 0 {
        (1, 1, 0, 1)
    } else {
        let (l, col, ps, pn) = scan(s, k - 1);
        let c = s[k - 1];
        if c == '\n' {
            (l + 1, 1, ps, pn)
        } else if c == ' ' || c == '\t' {
            (l, col + 1, ps, pn)
        } else {
            (l, col + 1, (k - 1) - (col - 1), l)
        }
    }
}

/// The characters of `s` from `from` to `to`, each line break followed by
/// the gutter of the next line; the line at `from` has number `n`.
pub open spec fn render(s: Seq<char>, from: int, to: int, n: nat) -> Seq<char>
    decreases to - from,
{
    if to <= from {
        Seq::empty()
    } else if s[to - 1] == '\n' {
        render(s, from, to - 1, n) + "\n"@ + gutter(n + breaks(s, from, to - 1) + 1)
    } else {
        render(s, from, to - 1, n).push(s[to - 1])
    }
}

/// The number of line breaks among `s[from..to]`.
pub open spec fn breaks(s: Seq<char>, from: int, to: int) -> nat
    decreases to - from,
{
    if to <= from {
        0
    } else {
        breaks(s, from, to - 1) + if s[to - 1] == '\n' {
            1nat
        } else {
            0nat
        }
    }
}

/// The end of the line that holds position `k`, past its line break.
pub open spec fn line_end(s: Seq<char>, k: int) -> int
    decreases s.len() - k,
{
    if k >= s.len() {
        s.len() as int
    } else if s[k] == '\n' {
        k + 1
    } else {
        line_end(s, k + 1)
    }
}

/// `n` dashes.
pub open spec fn dashes(n: nat) -> Seq<char> {
    Seq::new(n, |i: int| '-')
}

/// The source lines from the last one with a character other than a blank
/// before the span up to the one holding the span's start, numbered; then
/// `color`, and a marker line with a caret under the span's start.
pub open spec fn underline_text(s: Seq<char>, off: int, color: Seq<char>) -> Seq<char> {
    let (l, col, ps, pn) = scan(s, off);
    let text = gutter(pn) + render(s, ps, off, pn) + s.subrange(off, line_end(s, off));
    let text = if text.len() > 0 && text.last() == '\n' {
        text
    } else {
        text + "\n"@
    };
    text + color + "     "@ + dashes((col - 1) as nat) + "^"@ + if color.len() > 0 {
        "\x1b[0m"@
    } else {
        Seq::empty()
    }
}

/// The source around the span `fi`, with its start marked in red.
pub fn underline_error(input: &str, fi: &FileInfo) -> (r: String)
    requires
        fi.offset <= input@.len() < usize::MAX,
    ensures
        r@ == underline_text(input@, fi.offset as int, "\x1b[31m"@),
{
    underline(input, fi, "\x1b[31m")
}

fn push_gutter(out: &mut String, n: usize)
    ensures
        final(out)@ == old(out)@ + gutter(n as nat),
{
    if n < 10 {
        out.append("  ");
    } else if n < 100 {
        out.append(" ");
    }
    push_decimal(out, n as u128);
    out.append(": ");
}

/// The source around the span `fi`: the lines from the last one before it
/// that holds more than blanks, through the line where it starts, each
/// with its number; then `color` and a line with a caret under the span's
/// first character.
pub fn underline(input: &str, fi: &FileInfo, color: &str) -> (r: String)
    requires
        fi.offset <= input@.len() < usize::MAX,
    ensures
        r@ == underline_text(input@, fi.offset as int, color@),
{
    let n = input.unicode_len();
    let mut cs: Vec<char> = Vec::new();
    let mut i: usize = 0;
    while i < n
        invariant
            i <= n,
            n == input@.len(),
            cs@ == input@.subrange(0, i as int),
        decreases n - i,
    {
        cs.push(input.get_char(i));
        assert(cs@ =~= input@.subrange(0, i + 1));
        i = i + 1;
    }
    assert(cs@ == input@);
    let ghost s = input@;

    let mut offset: usize = 0;
    let mut col: usize = 1;
    let mut l_num: usize = 1;
    let mut prev_line_offset: usize = 0;
    let mut prev_line_num: usize = 1;
    while offset < fi.offset
        invariant
            offset <= fi.offset <= n,
            n < usize::MAX,
            cs@ == s,
            n == s.len(),
            scan(s, offset as int) == (l_num as nat, col as nat, prev_line_offset as int, prev_line_num as nat),
            1 <= l_num,
            1 <= col,
            l_num + col <= offset + 2,
            1 <= prev_line_num <= prev_line_offset + 1,
            prev_line_offset <= offset,
        decreases fi.offset - offset,
    {
        let c = cs[offset];
        if c == '\n' {
            l_num = l_num + 1;
            col = 1;
        } else if c == ' ' || c == '\t' {
            col = col + 1;
        } else {
            prev_line_offset = offset - (col - 1);
            prev_line_num = l_num;
            col = col + 1;
        }
        offset = offset + 1;
    }

    let mut out_str = String::new();
    push_gutter(&mut out_str, prev_line_num);
    let ghost head = out_str@;
    let mut line_number = prev_line_num;
    let mut k = prev_line_offset;
    while k < fi.offset
        invariant
            prev_line_offset <= k <= fi.offset <= n,
            n < usize::MAX,
            cs@ == s,
            n == s.len(),
            line_number == prev_line_num + breaks(s, prev_line_offset as int, k as int),
            1 <= line_number <= k + 1,
            out_str@ == head + render(s, prev_line_offset as int, k as int, prev_line_num as nat),
        decreases fi.offset - k,
    {
        let c = cs[k];
        if c == '\n' {
            line_number = line_number + 1;
            out_str.append("\n");
            push_gutter(&mut out_str, line_number);
        } else {
            push_char(&mut out_str, c);
        }
        k = k + 1;
    }
    let ghost body = out_str@;
    let mut e = fi.offset;
    while e < n && cs[e] != '\n'
        invariant
            fi.offset <= e <= n,
            cs@ == s,
            n == s.len(),
            line_end(s, fi.offset as int) == line_end(s, e as int),
        decreases n - e,
    {
        e = e + 1;
    }
    if e < n {
        e = e + 1;
    }
    let mut k = fi.offset;
    while k < e
        invariant
            fi.offset <= k <= e <= n,
            cs@ == s,
            n == s.len(),
            out_str@ == body + s.subrange(fi.offset as int, k as int),
        decreases e - k,
    {
        push_char(&mut out_str, cs[k]);
        assert(out_str@ =~= body + s.subrange(fi.offset as int, k + 1));
        k = k + 1;
    }
    proof {
        lemma_render_last(s, prev_line_offset as int, fi.offset as int, prev_line_num as nat);
        lemma_gutter_last(prev_line_num as nat);
        let rest = s.subrange(fi.offset as int, e as int);
        if rest.len() > 0 {
            assert(out_str@.last() == rest.last());
        }
    }
    if !(e > fi.offset && cs[e - 1] == '\n') {
        out_str.append("\n");
    }
    out_str.append(color);
    out_str.append("     ");
    let ghost before_dashes = out_str@;
    let mut d: usize = 1;
    while d < col
        invariant
            1 <= d <= col,
            out_str@ == before_dashes + dashes((d - 1) as nat),
        decreases col - d,
    {
        out_str.append("-");
        proof {
            reveal_strlit("-");
            assert(dashes((d - 1) as nat) + "-"@ =~= dashes(d as nat));
        }
        d = d + 1;
    }
    out_str.append("^");
    if !color.is_empty() {
        out_str.append("\x1b[0m");
    }
    out_str
}

/// A rendered stretch of text never ends with a line break.
proof fn lemma_render_last(s: Seq<char>, from: int, to: int, n: nat)
    ensures
        render(s, from, to, n).len() > 0 ==> render(s, from, to, n).last() != '\n',
    decreases to - from,
{
    if to > from {
        if s[to - 1] == '\n' {
            lemma_gutter_last(n + breaks(s, from, to - 1) + 1);
        }
    }
}

/// A gutter ends with a space.
proof fn lemma_gutter_last(n: nat)
    ensures
        gutter(n).len() > 0,
        gutter(n).last() == ' ',
{
    reveal_strlit(": ");
    assert((": "@).last() == ' ');
}

} // verus!
