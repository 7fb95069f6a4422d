use vstd::prelude::*;

use crate::text::string_of;

verus! {

// The dotenv text format. A file is a sequence of lines separated by `\n`.
// A line is blank, a comment (`#` to the end of the line), or a definition
// `[export ]NAME=VALUE`, optionally followed by blanks and a comment that
// starts after at least one blank. Blanks are spaces, tabs and carriage
// returns. A name is an ASCII letter or `_` followed by ASCII letters,
// digits and `_`. A value is single-quoted (verbatim up to the next `'`),
// double-quoted (up to the next unescaped `"`), or unquoted (up to the end
// of the line or a trailing comment, without the blanks before them; it may
// hold blanks, but no unescaped quote). No value spans two lines.

pub open spec fn is_blank(c: char) -> bool {
    c == ' ' || c == '\t' || c == '\r'
}

pub open spec fn is_name_head(c: char) -> bool {
    ('a' <= c && c <= 'z') || ('A' <= c && c <= 'Z') || c == '_'
}

pub open spec fn is_name_tail(c: char) -> bool {
    is_name_head(c) || ('0' <= c && c <= '9')
}

/// The first position at or after `i` that does not hold a blank.
pub open spec fn skip_blanks(s: Seq<char>, i: int) -> int
    decreases s.len() - i,
{
    if 0 <= i < s.len() && is_blank(s[i]) {
        skip_blanks(s, i + 1)
    } else {
        i
    }
}

/// The end of the line that holds `i`: the next `\n`, or the end of `s`.
pub open spec fn line_end(s: Seq<char>, i: int) -> int
    decreases s.len() - i,
{
    if 0 <= i < s.len() && s[i] != '\n' {
        line_end(s, i + 1)
    } else {
        i
    }
}

/// The end of the name that starts at `i`.
pub open spec fn name_end(s: Seq<char>, i: int) -> int
    decreases s.len() - i,
{
    if 0 <= i < s.len() && is_name_tail(s[i]) {
        name_end(s, i + 1)
    } else {
        i
    }
}

/// The end of an unquoted value that starts at `i`: the first newline,
/// quote, or backslash with nothing after it on its line, or the first run
/// of blanks that the end of the line or a comment follows. A backslash
/// keeps the character after it in the value.
pub open spec fn unquoted_end(s: Seq<char>, i: int) -> int
    decreases s.len() - i,
{
    if i < 0 || i >= s.len() {
        i
    } else if s[i] == '\\' {
        if i + 1 < s.len() && s[i + 1] != '\n' {
            unquoted_end(s, i + 2)
        } else {
            i
        }
    } else if s[i] == '\n' || s[i] == '"' || s[i] == '\'' {
        i
    } else if is_blank(s[i]) {
        let t = skip_blanks(s, i);
        if t <= i || t >= s.len() || s[t] == '\n' || s[t] == '#' {
            i
        } else {
            unquoted_end(s, t)
        }
    } else {
        unquoted_end(s, i + 1)
    }
}

/// The position of the `'` that closes a single-quoted value whose content
/// starts at `i`, if it is on the same line.
pub open spec fn single_close(s: Seq<char>, i: int) -> Option<int>
    decreases s.len() - i,
{
    if i < 0 || i >= s.len() || s[i] == '\n' {
        None
    } else if s[i] == '\'' {
        Some(i)
    } else {
        single_close(s, i + 1)
    }
}

/// The position of the `"` that closes a double-quoted value whose content
/// starts at `i`, if it is on the same line; a backslash escapes the
/// character after it.
pub open spec fn double_close(s: Seq<char>, i: int) -> Option<int>
    decreases s.len() - i,
{
    if i < 0 || i >= s.len() || s[i] == '\n' {
        None
    } else if s[i] == '"' {
        Some(i)
    } else if s[i] == '\\' {
        if i + 1 < s.len() && s[i + 1] != '\n' {
            double_close(s, i + 2)
        } else {
            None
        }
    } else {
        double_close(s, i + 1)
    }
}

/// How a value is written.
#[derive(Clone, Copy, PartialEq, Eq, Structural, Debug)]
pub enum ValueKind {
    /// Bare: expanded, then unescaped.
    Unquoted,
    /// In `'...'`: taken verbatim.
    SingleQuoted,
    /// In `"..."`: expanded, then unescaped.
    DoubleQuoted,
}

/// A definition as it stands in the text.
pub struct Token {
    pub name: Seq<char>,
    pub kind: ValueKind,
    /// The value's text, without its quotes.
    pub text: Seq<char>,
    /// Where the value's text, quotes included, starts and ends.
    pub start: int,
    pub end: int,
}

/// The value token at `v`: its kind, where its content starts and ends, and
/// where the token ends.
pub open spec fn value_at(s: Seq<char>, v: int) -> Option<(ValueKind, int, int, int)> {
    if 0 <= v < s.len() && s[v] == '\'' {
        match single_close(s, v + 1) {
            Some(j) => Some((ValueKind::SingleQuoted, v + 1, j, j + 1)),
            None => None,
        }
    } else if 0 <= v < s.len() && s[v] == '"' {
        match double_close(s, v + 1) {
            Some(j) => Some((ValueKind::DoubleQuoted, v + 1, j, j + 1)),
            None => None,
        }
    } else {
        let j = unquoted_end(s, v);
        Some((ValueKind::Unquoted, v, j, j))
    }
}

/// The line holding `a` starts with `export` and a blank there.
pub open spec fn has_export(s: Seq<char>, a: int) -> bool {
    0 <= a && a + 6 < s.len() && s.subrange(a, a + 6) == seq!['e', 'x', 'p', 'o', 'r', 't']
        && is_blank(s[a + 6])
}

/// What follows a value that ends at `end`, on a line that ends at `e`, is
/// blanks and perhaps a comment.
pub open spec fn tail_ok(s: Seq<char>, end: int, e: int) -> bool {
    let t = skip_blanks(s, end);
    t == e || (t > end && t < s.len() && s[t] == '#')
}

/// What a line holds.
pub enum LineScan {
    Blank,
    Def(Token),
    Bad,
}

/// The line that starts at `i`.
pub open spec fn scan_line(s: Seq<char>, i: int) -> LineScan {
    let e = line_end(s, i);
    let a = skip_blanks(s, i);
    if a >= e {
        LineScan::Blank
    } else if s[a] == '#' {
        LineScan::Blank
    } else {
        let b = if has_export(s, a) { skip_blanks(s, a + 6) } else { a };
        if !(b < s.len() && is_name_head(s[b])) {
            LineScan::Bad
        } else {
            let n = name_end(s, b);
            if !(n < s.len() && s[n] == '=') {
                LineScan::Bad
            } else {
                match value_at(s, n + 1) {
                    None => LineScan::Bad,
                    Some((kind, from, to, end)) => if tail_ok(s, end, e) {
                        LineScan::Def(
                            Token {
                                name: s.subrange(b, n),
                                kind,
                                text: s.subrange(from, to),
                                start: n + 1,
                                end,
                            },
                        )
                    } else {
                        LineScan::Bad
                    },
                }
            }
        }
    }
}

/// The definitions of the lines from the one that starts at `i` (numbered
/// `line`, from 0) to the end, or the number of the first line that does not
/// conform.
pub open spec fn scan_from(s: Seq<char>, i: int, line: nat) -> Result<Seq<Token>, nat>
    decreases s.len() - i,
{
    let e = line_end(s, i);
    let more = if i <= e < s.len() {
        scan_from(s, e + 1, line + 1)
    } else {
        Ok(Seq::empty())
    };
    match scan_line(s, i) {
        LineScan::Bad => Err(line),
        LineScan::Blank => more,
        LineScan::Def(t) => match more {
            Ok(ts) => Ok(seq![t] + ts),
            Err(l) => Err(l),
        },
    }
}

/// The definitions of a whole text, or the number of its first bad line.
pub open spec fn scan_text(s: Seq<char>) -> Result<Seq<Token>, nat> {
    scan_from(s, 0, 0)
}

/// The definitions found so far in front of what the rest of the text gives.
pub open spec fn prepend(done: Seq<Token>, r: Result<Seq<Token>, nat>) -> Result<Seq<Token>, nat> {
    match r {
        Ok(ts) => Ok(done + ts),
        Err(l) => Err(l),
    }
}

/// A definition as it stands in the text.
pub struct Definition {
    pub name: String,
    pub kind: ValueKind,
    /// The value's text, without its quotes.
    pub text: Vec<char>,
    /// Where the value's text, quotes included, starts (in characters).
    pub start: usize,
    /// Where it ends.
    pub end: usize,
}

impl View for Definition {
    type V = Token;

    open spec fn view(&self) -> Token {
        Token {
            name: self.name@,
            kind: self.kind,
            text: self.text@,
            start: self.start as int,
            end: self.end as int,
        }
    }
}

/// The views of a sequence of definitions.
pub open spec fn tokens_of(ds: Seq<Definition>) -> Seq<Token> {
    ds.map_values(|d: Definition| d@)
}

enum Line {
    Blank,
    Def(Definition),
    Bad,
}

fn blank(c: char) -> (r: bool)
    ensures
        r == is_blank(c),
{
    c == ' ' || c == '\t' || c == '\r'
}

fn name_head(c: char) -> (r: bool)
    ensures
        r == is_name_head(c),
{
    ('a' <= c && c <= 'z') || ('A' <= c && c <= 'Z') || c == '_'
}

fn name_tail(c: char) -> (r: bool)
    ensures
        r == is_name_tail(c),
{
    name_head(c) || ('0' <= c && c <= '9')
}

fn skip_blanks_at(s: &[char], i: usize) -> (r: usize)
    requires
        i <= s.len(),
    ensures
        r == skip_blanks(s@, i as int),
        i <= r <= s.len(),
{
    let mut j = i;
    while j < s.len() && blank(s[j])
        invariant
            i <= j <= s.len(),
            skip_blanks(s@, i as int) == skip_blanks(s@, j as int),
        decreases s.len() - j,
    {
        j += 1;
    }
    j
}

fn line_end_at(s: &[char], i: usize) -> (r: usize)
    requires
        i <= s.len(),
    ensures
        r == line_end(s@, i as int),
        i <= r <= s.len(),
{
    let mut j = i;
    while j < s.len() && s[j] != '\n'
        invariant
            i <= j <= s.len(),
            line_end(s@, i as int) == line_end(s@, j as int),
        decreases s.len() - j,
    {
        j += 1;
    }
    j
}

fn name_end_at(s: &[char], i: usize) -> (r: usize)
    requires
        i <= s.len(),
    ensures
        r == name_end(s@, i as int),
        i <= r <= s.len(),
{
    let mut j = i;
    while j < s.len() && name_tail(s[j])
        invariant
            i <= j <= s.len(),
            name_end(s@, i as int) == name_end(s@, j as int),
        decreases s.len() - j,
    {
        j += 1;
    }
    j
}

fn unquoted_end_at(s: &[char], i: usize) -> (r: usize)
    requires
        i <= s.len(),
    ensures
        r == unquoted_end(s@, i as int),
        i <= r <= s.len(),
{
    let mut j = i;
    while j < s.len()
        invariant
            i <= j <= s.len(),
            unquoted_end(s@, i as int) == unquoted_end(s@, j as int),
        decreases s.len() - j,
    {
        let c = s[j];
        if c == '\\' {
            if j + 1 < s.len() && s[j + 1] != '\n' {
                j += 2;
            } else {
                return j;
            }
        } else if c == '\n' || c == '"' || c == '\'' {
            return j;
        } else if blank(c) {
            let t = skip_blanks_at(s, j);
            if t <= j || t >= s.len() || s[t] == '\n' || s[t] == '#' {
                return j;
            }
            j = t;
        } else {
            j += 1;
        }
    }
    j
}

fn single_close_at(s: &[char], i: usize) -> (r: Option<usize>)
    requires
        i <= s.len(),
    ensures
        match single_close(s@, i as int) {
            Some(j) => r == Some(j as usize) && i <= j < s.len(),
            None => r is None,
        },
{
    let mut j = i;
    while j < s.len() && s[j] != '\n'
        invariant
            i <= j <= s.len(),
            single_close(s@, i as int) == single_close(s@, j as int),
        decreases s.len() - j,
    {
        if s[j] == '\'' {
            return Some(j);
        }
        j += 1;
    }
    None
}

fn double_close_at(s: &[char], i: usize) -> (r: Option<usize>)
    requires
        i <= s.len(),
    ensures
        match double_close(s@, i as int) {
            Some(j) => r == Some(j as usize) && i <= j < s.len(),
            None => r is None,
        },
{
    let mut j = i;
    while j < s.len() && s[j] != '\n'
        invariant
            i <= j <= s.len(),
            double_close(s@, i as int) == double_close(s@, j as int),
        decreases s.len() - j,
    {
        if s[j] == '"' {
            return Some(j);
        }
        if s[j] == '\\' {
            if j + 1 < s.len() && s[j + 1] != '\n' {
                j += 2;
            } else {
                return None;
            }
        } else {
            j += 1;
        }
    }
    None
}

fn value_at_pos(s: &[char], v: usize) -> (r: Option<(ValueKind, usize, usize, usize)>)
    requires
        v <= s.len(),
    ensures
        match value_at(s@, v as int) {
            Some((k, a, b, e)) => r == Some((k, a as usize, b as usize, e as usize)) && v <= a <= b
                <= e <= s.len(),
            None => r is None,
        },
{
    if v < s.len() && s[v] == '\'' {
        match single_close_at(s, v + 1) {
            Some(j) => Some((ValueKind::SingleQuoted, v + 1, j, j + 1)),
            None => None,
        }
    } else if v < s.len() && s[v] == '"' {
        match double_close_at(s, v + 1) {
            Some(j) => Some((ValueKind::DoubleQuoted, v + 1, j, j + 1)),
            None => None,
        }
    } else {
        let j = unquoted_end_at(s, v);
        Some((ValueKind::Unquoted, v, j, j))
    }
}

fn export_at(s: &[char], a: usize) -> (r: bool)
    requires
        a <= s.len(),
    ensures
        r == has_export(s@, a as int),
{
    if s.len() - a > 6 && s[a] == 'e' && s[a + 1] == 'x' && s[a + 2] == 'p' && s[a + 3] == 'o'
        && s[a + 4] == 'r' && s[a + 5] == 't' && blank(s[a + 6]) {
        assert(s@.subrange(a as int, a + 6) =~= seq!['e', 'x', 'p', 'o', 'r', 't']);
        true
    } else {
        proof {
            if a + 6 < s.len() && s@.subrange(a as int, a + 6) == seq!['e', 'x', 'p', 'o', 'r', 't'] {
                assert(s@.subrange(a as int, a + 6)[0] == s@[a as int]);
                assert(s@.subrange(a as int, a + 6)[1] == s@[a + 1]);
                assert(s@.subrange(a as int, a + 6)[2] == s@[a + 2]);
                assert(s@.subrange(a as int, a + 6)[3] == s@[a + 3]);
                assert(s@.subrange(a as int, a + 6)[4] == s@[a + 4]);
                assert(s@.subrange(a as int, a + 6)[5] == s@[a + 5]);
            }
        }
        false
    }
}

fn slice_vec(s: &[char], from: usize, to: usize) -> (r: Vec<char>)
    requires
        from <= to <= s.len(),
    ensures
        r@ == s@.subrange(from as int, to as int),
{
    let mut v: Vec<char> = Vec::new();
    let mut j = from;
    while j < to
        invariant
            from <= j <= to <= s.len(),
            v@ == s@.subrange(from as int, j as int),
        decreases to - j,
    {
        v.push(s[j]);
        j += 1;
        assert(v@ =~= s@.subrange(from as int, j as int));
    }
    v
}

fn scan_line_at(s: &[char], i: usize) -> (r: Line)
    requires
        i <= s.len(),
    ensures
        match scan_line(s@, i as int) {
            LineScan::Blank => r is Blank,
            LineScan::Bad => r is Bad,
            LineScan::Def(t) => r is Def && r->Def_0@ == t,
        },
        r is Def ==> r->Def_0.start <= r->Def_0.end <= s.len(),
{
    let e = line_end_at(s, i);
    let a = skip_blanks_at(s, i);
    if a >= e {
        return Line::Blank;
    }
    if s[a] == '#' {
        return Line::Blank;
    }
    let b = if export_at(s, a) {
        skip_blanks_at(s, a + 6)
    } else {
        a
    };
    if !(b < s.len() && name_head(s[b])) {
        return Line::Bad;
    }
    let n = name_end_at(s, b);
    if !(n < s.len() && s[n] == '=') {
        return Line::Bad;
    }
    match value_at_pos(s, n + 1) {
        None => Line::Bad,
        Some((kind, from, to, end)) => {
            let t = skip_blanks_at(s, end);
            if t == e || (t > end && t < s.len() && s[t] == '#') {
                let name = string_of(&s[b..n]);
                let text = slice_vec(s, from, to);
                Line::Def(Definition { name, kind, text, start: n + 1, end })
            } else {
                Line::Bad
            }
        },
    }
}

/// Splits a text into its definitions, or gives the number (from 0) of its
/// first line that does not conform.
pub fn scan(s: &[char]) -> (r: Result<Vec<Definition>, usize>)
    ensures
        match scan_text(s@) {
            Ok(ts) => r is Ok && tokens_of(r->Ok_0@) == ts,
            Err(l) => r is Err && r->Err_0 == l,
        },
        r is Ok ==> forall|k: int|
            0 <= k < r->Ok_0.len() ==> (#[trigger] r->Ok_0[k]).start <= r->Ok_0[k].end <= s.len(),
{
    let mut i: usize = 0;
    let mut line: usize = 0;
    let mut defs: Vec<Definition> = Vec::new();
    loop
        invariant
            i <= s.len(),
            line <= i,
            forall|k: int| 0 <= k < defs.len() ==> (#[trigger] defs[k]).start <= defs[k].end <= s.len(),
            scan_text(s@) == prepend(tokens_of(defs@), scan_from(s@, i as int, line as nat)),
        decreases s.len() - i,
    {
        let e = line_end_at(s, i);
        let ghost done = tokens_of(defs@);
        let ghost more = if i <= e < s.len() {
            scan_from(s@, e + 1, (line + 1) as nat)
        } else {
            Ok(Seq::empty())
        };
        match scan_line_at(s, i) {
            Line::Bad => {
                return Err(line);
            },
            Line::Blank => {},
            Line::Def(d) => {
                defs.push(d);
                assert(tokens_of(defs@) =~= done.push(d@));
                assert(prepend(done, scan_from(s@, i as int, line as nat)) == prepend(
                    tokens_of(defs@),
                    more,
                )) by {
                    match more {
                        Ok(ts) => {
                            assert(done + (seq![d@] + ts) =~= done.push(d@) + ts);
                        },
                        Err(l) => {},
                    }
                }
            },
        }
        if e < s.len() {
            i = e + 1;
            line += 1;
        } else {
            assert(tokens_of(defs@) + Seq::<Token>::empty() =~= tokens_of(defs@));
            return Ok(defs);
        }
    }
}

} // verus!
