use vstd::prelude::*;

use crate::grammar::{
    double_close, has_export, is_blank, is_name_head, is_name_tail, line_end, name_end, scan_line,
    single_close, skip_blanks, tail_ok, unquoted_end, value_at, LineScan, Token, ValueKind,
};
use crate::grammar::scan_from;
use crate::laws::writes_value;
use crate::document::{in_place_spans, model_of, referenced_of};
use crate::grammar::scan_text;
use crate::document::{def_expansion, forward_ref};
use crate::laws::{
    is_last_def, lemma_edited_not_expanded, lemma_edited_params, lemma_written_value_reads_back, value_edits,
};
use crate::names::{lemma_map_of_dom, lemma_map_of_index, map_of, unique_names};
use crate::writer::replaced_text;
use crate::writer::{
    appended_edits, backslashed, edit_at, escape_text, escaped_char, in_place_edits, is_special,
    needs_quotes, rewrite,
};

verus! {

/// Where a line starts, it ends at the next newline or at the end of the
/// text, and holds no newline before that.
pub proof fn lemma_line_end(s: Seq<char>, i: int)
    requires
        0 <= i <= s.len(),
    ensures
        i <= line_end(s, i) <= s.len(),
        line_end(s, i) < s.len() ==> s[line_end(s, i)] == '\n',
        forall|k: int| i <= k < line_end(s, i) ==> s[k] != '\n',
    decreases s.len() - i,
{
    if i < s.len() && s[i] != '\n' {
        lemma_line_end(s, i + 1);
    }
}

/// The line of `s` that starts at `i` stands at `j` in `t`, with what ends
/// it (a newline, or the end of the text).
pub open spec fn line_agree(s: Seq<char>, i: int, t: Seq<char>, j: int) -> bool {
    let e = line_end(s, i);
    &&& 0 <= i <= e <= s.len()
    &&& e < s.len() ==> s[e] == '\n'
    &&& forall|k: int| i <= k < e ==> s[k] != '\n'
    &&& 0 <= j
    &&& j + (e - i) <= t.len()
    &&& forall|k: int| i <= k < e ==> s[k] == #[trigger] t[k - i + j]
    &&& (e < s.len()) == (j + (e - i) < t.len())
    &&& e < s.len() ==> t[j + (e - i)] == '\n'
}

proof fn lemma_same_char(s: Seq<char>, i: int, t: Seq<char>, j: int, x: int)
    requires
        line_agree(s, i, t, j),
        i <= x < line_end(s, i),
    ensures
        t[x + (j - i)] == s[x],
        s[x] != '\n',
        x + (j - i) < t.len(),
{
    assert(s[x] == t[x - i + j]);
}

proof fn lemma_line_end_frame(s: Seq<char>, i: int, t: Seq<char>, j: int, x: int)
    requires
        line_agree(s, i, t, j),
        i <= x <= line_end(s, i),
    ensures
        line_end(t, x + (j - i)) == line_end(s, i) + (j - i),
    decreases line_end(s, i) - x,
{
    let d = j - i;
    let e = line_end(s, i);
    lemma_line_end(s, x);
    assert(line_end(s, x) == e) by {
        lemma_line_end_same(s, i, x);
    }
    if x < e {
        lemma_same_char(s, i, t, j, x);
        lemma_line_end_frame(s, i, t, j, x + 1);
    }
}

proof fn lemma_line_end_same(s: Seq<char>, i: int, x: int)
    requires
        0 <= i <= x <= line_end(s, i),
        line_end(s, i) <= s.len(),
    ensures
        line_end(s, x) == line_end(s, i),
    decreases x - i,
{
    if x > i {
        lemma_line_end(s, i);
        assert(s[i] != '\n');
        lemma_line_end_same(s, i + 1, x);
    }
}

proof fn lemma_skip_blanks_frame(s: Seq<char>, i: int, t: Seq<char>, j: int, x: int)
    requires
        line_agree(s, i, t, j),
        i <= x <= line_end(s, i),
    ensures
        skip_blanks(t, x + (j - i)) == skip_blanks(s, x) + (j - i),
        x <= skip_blanks(s, x) <= line_end(s, i),
    decreases line_end(s, i) - x,
{
    let e = line_end(s, i);
    if x < e {
        lemma_same_char(s, i, t, j, x);
        if is_blank(s[x]) {
            lemma_skip_blanks_frame(s, i, t, j, x + 1);
        }
    }
}

proof fn lemma_name_end_frame(s: Seq<char>, i: int, t: Seq<char>, j: int, x: int)
    requires
        line_agree(s, i, t, j),
        i <= x <= line_end(s, i),
    ensures
        name_end(t, x + (j - i)) == name_end(s, x) + (j - i),
        x <= name_end(s, x) <= line_end(s, i),
    decreases line_end(s, i) - x,
{
    let e = line_end(s, i);
    if x < e {
        lemma_same_char(s, i, t, j, x);
        if is_name_tail(s[x]) {
            lemma_name_end_frame(s, i, t, j, x + 1);
        }
    }
}

proof fn lemma_unquoted_end_frame(s: Seq<char>, i: int, t: Seq<char>, j: int, x: int)
    requires
        line_agree(s, i, t, j),
        i <= x <= line_end(s, i),
    ensures
        unquoted_end(t, x + (j - i)) == unquoted_end(s, x) + (j - i),
        x <= unquoted_end(s, x) <= line_end(s, i),
    decreases line_end(s, i) - x,
{
    let e = line_end(s, i);
    let d = j - i;
    if x < e {
        lemma_same_char(s, i, t, j, x);
        if s[x] == '\\' {
            if x + 1 < e {
                lemma_same_char(s, i, t, j, x + 1);
                lemma_unquoted_end_frame(s, i, t, j, x + 2);
            }
        } else if is_blank(s[x]) {
            lemma_skip_blanks_frame(s, i, t, j, x);
            let b = skip_blanks(s, x);
            if b < e {
                lemma_same_char(s, i, t, j, b);
                if b > x && s[b] != '#' {
                    lemma_unquoted_end_frame(s, i, t, j, b);
                }
            }
        } else if !(s[x] == '"' || s[x] == '\'') {
            lemma_unquoted_end_frame(s, i, t, j, x + 1);
        }
    }
}

pub open spec fn shift_opt(o: Option<int>, d: int) -> Option<int> {
    match o {
        Some(x) => Some(x + d),
        None => None,
    }
}

proof fn lemma_single_close_frame(s: Seq<char>, i: int, t: Seq<char>, j: int, x: int)
    requires
        line_agree(s, i, t, j),
        i <= x <= line_end(s, i),
    ensures
        single_close(t, x + (j - i)) == shift_opt(single_close(s, x), j - i),
        single_close(s, x) matches Some(c) ==> x <= c < line_end(s, i) && s[c] == '\'',
    decreases line_end(s, i) - x,
{
    let e = line_end(s, i);
    if x < e {
        lemma_same_char(s, i, t, j, x);
        if s[x] != '\'' {
            lemma_single_close_frame(s, i, t, j, x + 1);
        }
    }
}

proof fn lemma_double_close_frame(s: Seq<char>, i: int, t: Seq<char>, j: int, x: int)
    requires
        line_agree(s, i, t, j),
        i <= x <= line_end(s, i),
    ensures
        double_close(t, x + (j - i)) == shift_opt(double_close(s, x), j - i),
        double_close(s, x) matches Some(c) ==> x <= c < line_end(s, i) && s[c] == '"',
    decreases line_end(s, i) - x,
{
    let e = line_end(s, i);
    if x < e {
        lemma_same_char(s, i, t, j, x);
        if s[x] != '"' {
            if s[x] == '\\' {
                if x + 1 < e {
                    lemma_same_char(s, i, t, j, x + 1);
                    lemma_double_close_frame(s, i, t, j, x + 2);
                }
            } else {
                lemma_double_close_frame(s, i, t, j, x + 1);
            }
        }
    }
}

proof fn lemma_export_frame(s: Seq<char>, i: int, t: Seq<char>, j: int, x: int)
    requires
        line_agree(s, i, t, j),
        i <= x < line_end(s, i),
    ensures
        has_export(t, x + (j - i)) == has_export(s, x),
{
    let e = line_end(s, i);
    let d = j - i;
    let word = seq!['e', 'x', 'p', 'o', 'r', 't'];
    if x + 6 < e {
        assert forall|k: int| 0 <= k < 6 implies #[trigger] t.subrange(x + d, x + d + 6)[k] == s.subrange(
            x,
            x + 6,
        )[k] by {
            lemma_same_char(s, i, t, j, x + k);
        }
        lemma_same_char(s, i, t, j, x + 6);
        assert(t.subrange(x + d, x + d + 6) =~= s.subrange(x, x + 6));
    } else {
        if has_export(s, x) {
            let k = e - x;
            assert(0 <= k <= 6);
            if k < 6 {
                assert(s.subrange(x, x + 6)[k] == s[e]);
                assert(word[k] != '\n');
            } else {
                assert(s[x + 6] == '\n');
            }
        }
        if has_export(t, x + d) {
            let k = e - x;
            if k < 6 {
                assert(t.subrange(x + d, x + d + 6)[k] == t[e + d]);
                assert(word[k] != '\n');
            } else {
                assert(t[x + d + 6] == '\n');
            }
        }
    }
}

pub open spec fn shift_value(o: Option<(crate::grammar::ValueKind, int, int, int)>, d: int) -> Option<
    (crate::grammar::ValueKind, int, int, int),
> {
    match o {
        Some((k, a, b, c)) => Some((k, a + d, b + d, c + d)),
        None => None,
    }
}

proof fn lemma_value_at_frame(s: Seq<char>, i: int, t: Seq<char>, j: int, v: int)
    requires
        line_agree(s, i, t, j),
        i <= v <= line_end(s, i),
    ensures
        value_at(t, v + (j - i)) == shift_value(value_at(s, v), j - i),
        value_at(s, v) matches Some((k, a, b, c)) ==> v <= a <= b <= c <= line_end(s, i),
{
    let e = line_end(s, i);
    let d = j - i;
    if v < e {
        lemma_same_char(s, i, t, j, v);
        lemma_single_close_frame(s, i, t, j, v + 1);
        lemma_double_close_frame(s, i, t, j, v + 1);
    } else {
        assert(!(0 <= v < s.len() && (s[v] == '\'' || s[v] == '"')));
        assert(!(0 <= v + d < t.len() && (t[v + d] == '\'' || t[v + d] == '"')));
    }
    lemma_unquoted_end_frame(s, i, t, j, v);
}

proof fn lemma_tail_frame(s: Seq<char>, i: int, t: Seq<char>, j: int, end: int)
    requires
        line_agree(s, i, t, j),
        i <= end <= line_end(s, i),
    ensures
        tail_ok(t, end + (j - i), line_end(s, i) + (j - i)) == tail_ok(s, end, line_end(s, i)),
{
    lemma_skip_blanks_frame(s, i, t, j, end);
    let b = skip_blanks(s, end);
    if b < line_end(s, i) {
        lemma_same_char(s, i, t, j, b);
    }
}

pub open spec fn shift_token(tk: Token, d: int) -> Token {
    Token { start: tk.start + d, end: tk.end + d, ..tk }
}

pub open spec fn shift_line(l: LineScan, d: int) -> LineScan {
    match l {
        LineScan::Def(tk) => LineScan::Def(shift_token(tk, d)),
        LineScan::Blank => LineScan::Blank,
        LineScan::Bad => LineScan::Bad,
    }
}

proof fn lemma_sub_frame(s: Seq<char>, i: int, t: Seq<char>, j: int, a: int, b: int)
    requires
        line_agree(s, i, t, j),
        i <= a <= b <= line_end(s, i),
    ensures
        t.subrange(a + (j - i), b + (j - i)) == s.subrange(a, b),
{
    assert forall|k: int| 0 <= k < b - a implies #[trigger] t.subrange(a + (j - i), b + (j - i))[k]
        == s.subrange(a, b)[k] by {
        lemma_same_char(s, i, t, j, a + k);
    }
    assert(t.subrange(a + (j - i), b + (j - i)) =~= s.subrange(a, b));
}

/// A line scans the same wherever it stands.
pub proof fn lemma_scan_line_frame(s: Seq<char>, i: int, t: Seq<char>, j: int)
    requires
        line_agree(s, i, t, j),
    ensures
        scan_line(t, j) == shift_line(scan_line(s, i), j - i),
        scan_line(s, i) matches LineScan::Def(tk) ==> i < tk.start <= tk.end <= line_end(s, i),
{
    let e = line_end(s, i);
    let d = j - i;
    lemma_line_end_frame(s, i, t, j, i);
    lemma_skip_blanks_frame(s, i, t, j, i);
    let a = skip_blanks(s, i);
    if a < e {
        lemma_same_char(s, i, t, j, a);
        if s[a] != '#' {
            lemma_export_frame(s, i, t, j, a);
            let b = if has_export(s, a) {
                assert(a + 6 < e) by {
                    if a + 6 >= e {
                        let k = e - a;
                        if e < s.len() {
                            if k < 6 {
                                assert(s.subrange(a, a + 6)[k] == s[e]);
                            }
                        }
                    }
                }
                lemma_skip_blanks_frame(s, i, t, j, a + 6);
                skip_blanks(s, a + 6)
            } else {
                a
            };
            if b < e {
                lemma_same_char(s, i, t, j, b);
                if is_name_head(s[b]) {
                    lemma_name_end_frame(s, i, t, j, b);
                    let n = name_end(s, b);
                    if n < e {
                        lemma_same_char(s, i, t, j, n);
                        if s[n] == '=' {
                            lemma_value_at_frame(s, i, t, j, n + 1);
                            match value_at(s, n + 1) {
                                Some((kind, from, to, end)) => {
                                    lemma_tail_frame(s, i, t, j, end);
                                    lemma_sub_frame(s, i, t, j, b, n);
                                    lemma_sub_frame(s, i, t, j, from, to);
                                },
                                None => {},
                            }
                        }
                    } else {
                        assert(!(n < s.len() && s[n] == '='));
                        assert(!(n + d < t.len() && t[n + d] == '='));
                    }
                }
            } else {
                assert(!(b < s.len() && is_name_head(s[b])));
                assert(!(b + d < t.len() && is_name_head(t[b + d])));
            }
        }
    }
}

/// `s[lo..hi]` stands at `lo + d` in `t`.
pub open spec fn agree_range(s: Seq<char>, t: Seq<char>, lo: int, hi: int, d: int) -> bool {
    &&& 0 <= lo <= hi <= s.len()
    &&& 0 <= lo + d
    &&& hi + d <= t.len()
    &&& forall|k: int| lo <= k < hi ==> s[k] == #[trigger] t[k + d]
}

proof fn lemma_skip_blanks_partial(s: Seq<char>, t: Seq<char>, x: int, hi: int, d: int)
    requires
        agree_range(s, t, x, hi, d),
        skip_blanks(s, x) < hi,
    ensures
        skip_blanks(t, x + d) == skip_blanks(s, x) + d,
    decreases hi - x,
{
    lemma_skip_blanks_bounds(s, x);
    assert(s[x] == t[x + d]);
    if is_blank(s[x]) {
        lemma_skip_blanks_partial(s, t, x + 1, hi, d);
    }
}

proof fn lemma_name_end_partial(s: Seq<char>, t: Seq<char>, x: int, hi: int, d: int)
    requires
        agree_range(s, t, x, hi, d),
        name_end(s, x) < hi,
    ensures
        name_end(t, x + d) == name_end(s, x) + d,
    decreases hi - x,
{
    lemma_name_end_bounds(s, x);
    assert(s[x] == t[x + d]);
    if is_name_tail(s[x]) {
        lemma_name_end_partial(s, t, x + 1, hi, d);
    }
}

proof fn lemma_skip_blanks_bounds(s: Seq<char>, x: int)
    requires
        0 <= x <= s.len(),
    ensures
        x <= skip_blanks(s, x) <= s.len(),
        forall|k: int| x <= k < skip_blanks(s, x) ==> is_blank(#[trigger] s[k]),
        skip_blanks(s, x) < s.len() ==> !is_blank(s[skip_blanks(s, x)]),
    decreases s.len() - x,
{
    if x < s.len() && is_blank(s[x]) {
        lemma_skip_blanks_bounds(s, x + 1);
    }
}

proof fn lemma_name_end_bounds(s: Seq<char>, x: int)
    requires
        0 <= x <= s.len(),
    ensures
        x <= name_end(s, x) <= s.len(),
        forall|k: int| x <= k < name_end(s, x) ==> is_name_tail(#[trigger] s[k]),
    decreases s.len() - x,
{
    if x < s.len() && is_name_tail(s[x]) {
        lemma_name_end_bounds(s, x + 1);
    }
}

proof fn lemma_line_end_at(t: Seq<char>, x: int, y: int)
    requires
        0 <= x <= y <= t.len(),
        forall|k: int| x <= k < y ==> t[k] != '\n',
        y == t.len() || t[y] == '\n',
    ensures
        line_end(t, x) == y,
    decreases y - x,
{
    if x < y {
        lemma_line_end_at(t, x + 1, y);
    }
}

proof fn lemma_double_close_backslashed(t: Seq<char>, x: int, v: Seq<char>)
    requires
        0 <= x,
        x + backslashed(v).len() < t.len(),
        t.subrange(x, x + backslashed(v).len()) == backslashed(v),
        t[x + backslashed(v).len()] == '"',
        forall|k: int| 0 <= k < v.len() ==> v[k] != '\n',
    ensures
        double_close(t, x) == Some(x + backslashed(v).len()),
    decreases v.len(),
{
    let bs = backslashed(v);
    if v.len() > 0 {
        let rest = backslashed(v.skip(1));
        assert(bs == escaped_char(v[0]) + rest);
        let w = escaped_char(v[0]).len();
        assert(t.subrange(x + w, x + bs.len()) =~= rest) by {
            assert forall|k: int| 0 <= k < rest.len() implies t.subrange(x + w, x + bs.len())[k] == rest[k] by {
                assert(t.subrange(x, x + bs.len())[w + k] == bs[w + k]);
            }
        }
        assert forall|k: int| 0 <= k < v.skip(1).len() implies v.skip(1)[k] != '\n' by {
            assert(v.skip(1)[k] == v[k + 1]);
        }
        assert(t[x] == bs[0]) by {
            assert(t.subrange(x, x + bs.len())[0] == bs[0]);
        }
        if is_special(v[0]) {
            assert(t[x + 1] == bs[1]) by {
                assert(t.subrange(x, x + bs.len())[1] == bs[1]);
            }
            assert(v[0] != '\n');
        }
        lemma_double_close_backslashed(t, x + w, v.skip(1));
    } else {
        assert(bs.len() == 0);
    }
}

/// A value can be written on one line and read back: it holds no newline,
/// and where it is written bare, each run of blanks in it is followed,
/// within the value, by a character other than `#`.
pub open spec fn line_safe(v: Seq<char>) -> bool {
    &&& forall|k: int| 0 <= k < v.len() ==> v[k] != '\n'
    &&& !needs_quotes(v) ==> forall|k: int|
        0 <= k < v.len() && is_blank(#[trigger] v[k]) ==> skip_blanks(v, k) < v.len() && v[skip_blanks(
            v,
            k,
        )] != '#'
}

/// After position `z` comes the end of the line, or blanks and then the
/// end of the line or a comment.
pub open spec fn tail_shape(t: Seq<char>, z: int) -> bool {
    ||| z == t.len()
    ||| t[z] == '\n'
    ||| (is_blank(t[z]) && (skip_blanks(t, z) >= t.len() || t[skip_blanks(t, z)] == '\n' || t[skip_blanks(
        t,
        z,
    )] == '#'))
}

proof fn lemma_unquoted_bare(t: Seq<char>, x: int, v: Seq<char>, k: int)
    requires
        0 <= x,
        0 <= k <= v.len(),
        x + v.len() <= t.len(),
        t.subrange(x, x + v.len()) == v,
        forall|q: int| 0 <= q < v.len() ==> !is_special(#[trigger] v[q]) && v[q] != '\n',
        forall|q: int|
            0 <= q < v.len() && is_blank(#[trigger] v[q]) ==> skip_blanks(v, q) < v.len() && v[skip_blanks(
                v,
                q,
            )] != '#',
        tail_shape(t, x + v.len()),
    ensures
        unquoted_end(t, x + k) == x + v.len(),
    decreases v.len() - k,
{
    let z = x + v.len();
    if k == v.len() {
        if z < t.len() && is_blank(t[z]) {
            lemma_skip_blanks_bounds(t, z);
        }
    } else {
        assert(t[x + k] == v[k]) by {
            assert(t.subrange(x, z)[k] == v[k]);
        }
        if is_blank(v[k]) {
            let m = skip_blanks(v, k);
            assert(agree_range(v, t, k, v.len() as int, x)) by {
                assert forall|q: int| k <= q < v.len() implies v[q] == #[trigger] t[q + x] by {
                    assert(t.subrange(x, z)[q] == v[q]);
                }
            }
            lemma_skip_blanks_partial(v, t, k, v.len() as int, x);
            lemma_skip_blanks_bounds(v, k);
            assert(t[m + x] == v[m]) by {
                assert(t.subrange(x, z)[m] == v[m]);
            }
            lemma_unquoted_bare(t, x, v, m);
        } else {
            lemma_unquoted_bare(t, x, v, k + 1);
        }
    }
}

proof fn lemma_backslashed_no_newline(v: Seq<char>)
    requires
        forall|k: int| 0 <= k < v.len() ==> v[k] != '\n',
    ensures
        forall|k: int| 0 <= k < backslashed(v).len() ==> backslashed(v)[k] != '\n',
    decreases v.len(),
{
    if v.len() > 0 {
        assert forall|k: int| 0 <= k < v.skip(1).len() implies v.skip(1)[k] != '\n' by {
            assert(v.skip(1)[k] == v[k + 1]);
        }
        lemma_backslashed_no_newline(v.skip(1));
        let bs = backslashed(v);
        let rest = backslashed(v.skip(1));
        let w = escaped_char(v[0]);
        assert(bs == w + rest);
        assert forall|k: int| 0 <= k < bs.len() implies bs[k] != '\n' by {
            if k < w.len() {
                assert(bs[k] == w[k]);
            } else {
                assert(bs[k] == rest[k - w.len()]);
            }
        }
    }
}

proof fn lemma_escape_no_newline(v: Seq<char>)
    requires
        forall|k: int| 0 <= k < v.len() ==> v[k] != '\n',
    ensures
        forall|k: int| 0 <= k < escape_text(v).len() ==> escape_text(v)[k] != '\n',
{
    lemma_backslashed_no_newline(v);
    if needs_quotes(v) {
        let bs = backslashed(v);
        let w = escape_text(v);
        assert forall|k: int| 0 <= k < w.len() implies w[k] != '\n' by {
            if 0 < k < w.len() - 1 {
                assert(w[k] == bs[k - 1]);
            }
        }
    }
}

proof fn lemma_self_agree(s: Seq<char>, i: int)
    requires
        0 <= i <= s.len(),
    ensures
        line_agree(s, i, s, i),
{
    lemma_line_end(s, i);
}

/// The line of a definition whose value is put down anew, by the writer,
/// scans as the same definition with the new value.
#[verifier::rlimit(100)]
#[verifier::spinoff_prover]
pub proof fn lemma_edited_line(s: Seq<char>, i: int, t: Seq<char>, j: int, v: Seq<char>)
    requires
        0 <= i <= s.len(),
        0 <= j,
        scan_line(s, i) is Def,
        line_safe(v),
        ({
            let tk = scan_line(s, i)->Def_0;
            let e = line_end(s, i);
            let w = escape_text(v);
            let d1 = j - i;
            let d2 = d1 + w.len() - (tk.end - tk.start);
            &&& agree_range(s, t, i, tk.start, d1)
            &&& tk.start + d1 + w.len() <= t.len()
            &&& t.subrange(tk.start + d1, tk.start + d1 + w.len()) == w
            &&& agree_range(s, t, tk.end, e, d2)
            &&& (e < s.len()) == (e + d2 < t.len())
            &&& e < s.len() ==> t[e + d2] == '\n'
        }),
    ensures
        ({
            let tk = scan_line(s, i)->Def_0;
            let e = line_end(s, i);
            let w = escape_text(v);
            let d1 = j - i;
            let d2 = d1 + w.len() - (tk.end - tk.start);
            &&& line_end(t, j) == e + d2
            &&& scan_line(t, j) is Def
            &&& scan_line(t, j)->Def_0.name == tk.name
            &&& scan_line(t, j)->Def_0.start == tk.start + d1
            &&& scan_line(t, j)->Def_0.end == tk.start + d1 + w.len()
            &&& writes_value(scan_line(t, j)->Def_0, v)
        }),
{
    let tk = scan_line(s, i)->Def_0;
    let e = line_end(s, i);
    let w = escape_text(v);
    let d1 = j - i;
    let d2 = d1 + w.len() - (tk.end - tk.start);
    let a = tk.start;
    let b = tk.end;
    lemma_self_agree(s, i);
    lemma_scan_line_frame(s, i, s, i);
    let a0 = skip_blanks(s, i);
    lemma_skip_blanks_frame(s, i, s, i, i);
    assert(a0 < e);
    let ex = has_export(s, a0);
    let bn = if ex { skip_blanks(s, a0 + 6) } else { a0 };
    if ex {
        assert(a0 + 6 < e) by {
            if a0 + 6 >= e {
                let k = e - a0;
                if e < s.len() && k < 6 {
                    assert(s.subrange(a0, a0 + 6)[k] == s[e]);
                }
            }
        }
        lemma_skip_blanks_frame(s, i, s, i, a0 + 6);
    }
    let n = name_end(s, bn);
    lemma_name_end_frame(s, i, s, i, bn);
    assert(n + 1 == a);
    lemma_value_at_frame(s, i, s, i, n + 1);
    let (kind0, from0, to0, end0) = value_at(s, n + 1)->0;
    assert(end0 == b);
    assert(tail_ok(s, b, e));
    // The line of t ends where the line of s does, moved.
    lemma_line_end(s, i);
    lemma_escape_no_newline(v);
    assert forall|k: int| j <= k < e + d2 implies t[k] != '\n' by {
        if k < a + d1 {
            assert(s[k - d1] == t[(k - d1) + d1]);
        } else if k < a + d1 + w.len() {
            assert(t.subrange(a + d1, a + d1 + w.len())[k - (a + d1)] == w[k - (a + d1)]);
        } else {
            assert(s[k - d2] == t[(k - d2) + d2]);
        }
    }
    lemma_line_end_at(t, j, e + d2);
    // The part before the value scans the same.
    lemma_skip_blanks_partial(s, t, i, a, d1);
    assert(t[a0 + d1] == s[a0]);
    assert(has_export(t, a0 + d1) == ex) by {
        if a0 + 6 < a {
            assert forall|k: int| 0 <= k < 6 implies #[trigger] t.subrange(a0 + d1, a0 + d1 + 6)[k]
                == s.subrange(a0, a0 + 6)[k] by {
                assert(s[a0 + k] == t[(a0 + k) + d1]);
            }
            assert(t.subrange(a0 + d1, a0 + d1 + 6) =~= s.subrange(a0, a0 + 6));
            assert(s[a0 + 6] == t[(a0 + 6) + d1]);
        } else {
            assert(!ex);
            assert(t[n + d1] == s[n]);
            if has_export(t, a0 + d1) {
                assert(t.subrange(a0 + d1, a0 + d1 + 6)[n - a0] == t[n + d1]);
            }
        }
    }
    if ex {
        lemma_skip_blanks_partial(s, t, a0 + 6, a, d1);
    }
    assert(t[bn + d1] == s[bn]);
    lemma_name_end_partial(s, t, bn, a, d1);
    assert(t[n + d1] == s[n]);
    assert(t.subrange(bn + d1, n + d1) =~= s.subrange(bn, n)) by {
        assert forall|k: int| 0 <= k < n - bn implies #[trigger] t.subrange(bn + d1, n + d1)[k] == s.subrange(
            bn,
            n,
        )[k] by {
            assert(s[bn + k] == t[(bn + k) + d1]);
        }
    }
    // What follows the value scans the same.
    lemma_line_end_same(s, i, b);
    assert(line_agree(s, b, t, b + d2)) by {
        assert forall|k: int| b <= k < e implies s[k] == #[trigger] t[k - b + (b + d2)] by {
            assert(s[k] == t[k + d2]);
        }
    }
    lemma_tail_frame(s, b, t, b + d2, b);
    // The value itself.
    let va = a + d1;
    if needs_quotes(v) {
        let bs = backslashed(v);
        assert(w == seq!['"'] + bs + seq!['"']);
        assert(t[va] == '"') by {
            assert(t.subrange(va, va + w.len())[0] == w[0]);
        }
        assert(t.subrange(va + 1, va + 1 + bs.len()) =~= bs) by {
            assert forall|k: int| 0 <= k < bs.len() implies #[trigger] t.subrange(va + 1, va + 1 + bs.len())[k]
                == bs[k] by {
                assert(t.subrange(va, va + w.len())[k + 1] == w[k + 1]);
            }
        }
        assert(t[va + 1 + bs.len()] == '"') by {
            assert(t.subrange(va, va + w.len())[bs.len() + 1int] == w[bs.len() + 1int]);
        }
        lemma_double_close_backslashed(t, va + 1, v);
    } else {
        assert(w == v);
        assert forall|q: int| 0 <= q < v.len() implies !is_special(#[trigger] v[q]) && v[q] != '\n' by {
            if is_special(v[q]) {
                assert(needs_quotes(v));
            }
        }
        let z = va + v.len();
        assert(z == b + d2);
        assert(tail_shape(t, z)) by {
            lemma_skip_blanks_frame(s, b, t, b + d2, b);
            lemma_skip_blanks_bounds(s, b);
            if b < e {
                assert(t[z] == s[b]);
                let sb = skip_blanks(s, b);
                assert(sb > b);
                if sb < e {
                    assert(t[sb + d2] == s[sb]);
                }
            }
        }
        lemma_unquoted_bare(t, va, v, 0);
        if v.len() > 0 {
            assert(t[va] == v[0]) by {
                assert(t.subrange(va, va + w.len())[0] == w[0]);
            }
        } else {
            if z < t.len() {
                if b < e {
                    assert(t[z] == s[b]);
                    lemma_skip_blanks_bounds(s, b);
                }
            }
        }
    }
}

proof fn lemma_rewrite_copy(s: Seq<char>, p: int, q: int, es: Seq<(usize, usize, Seq<char>)>)
    requires
        0 <= p <= q <= s.len(),
        forall|x: int| p <= x < q ==> #[trigger] edit_at(es, x) is None,
    ensures
        rewrite(s, p, es) == s.subrange(p, q) + rewrite(s, q, es),
    decreases q - p,
{
    if p < q {
        assert(edit_at(es, p) is None);
        lemma_rewrite_copy(s, p + 1, q, es);
        assert(s.subrange(p, q) =~= seq![s[p]] + s.subrange(p + 1, q));
    } else {
        assert(s.subrange(p, q) =~= Seq::<char>::empty());
    }
}

/// Each definition stands after the start of the line it is read from,
/// and the starts grow.
proof fn lemma_scan_positions(s: Seq<char>, i: int, l: nat)
    requires
        0 <= i <= s.len(),
        scan_from(s, i, l) is Ok,
    ensures
        forall|k: int|
            0 <= k < scan_from(s, i, l)->Ok_0.len() ==> i < (#[trigger] scan_from(s, i, l)->Ok_0[k]).start
                <= scan_from(s, i, l)->Ok_0[k].end <= s.len(),
        forall|k1: int, k2: int|
            0 <= k1 < k2 < scan_from(s, i, l)->Ok_0.len() ==> (#[trigger] scan_from(s, i, l)->Ok_0[k1]).start
                < (#[trigger] scan_from(s, i, l)->Ok_0[k2]).start,
    decreases s.len() - i,
{
    let e = line_end(s, i);
    lemma_line_end(s, i);
    lemma_self_agree(s, i);
    lemma_scan_line_frame(s, i, s, i);
    let ts = scan_from(s, i, l)->Ok_0;
    if e < s.len() {
        lemma_scan_positions(s, e + 1, l + 1);
        let rest = scan_from(s, e + 1, l + 1)->Ok_0;
        match scan_line(s, i) {
            LineScan::Def(tk) => {
                assert(ts == seq![tk] + rest);
                assert forall|k: int| 0 <= k < ts.len() implies i < (#[trigger] ts[k]).start <= ts[k].end
                    <= s.len() by {
                    if k > 0 {
                        assert(ts[k] == rest[k - 1]);
                    }
                }
                assert forall|k1: int, k2: int| 0 <= k1 < k2 < ts.len() implies (#[trigger] ts[k1]).start
                    < (#[trigger] ts[k2]).start by {
                    assert(ts[k2] == rest[k2 - 1]);
                    if k1 > 0 {
                        assert(ts[k1] == rest[k1 - 1]);
                    }
                }
            },
            _ => {
                assert(ts == rest);
            },
        }
    }
}

/// The edit that a definition gets: its old value's end and the new text.
pub open spec fn edit_for(v: Option<Seq<char>>, end: int) -> Option<(int, Seq<char>)> {
    match v {
        Some(x) => Some((end, escape_text(x))),
        None => None,
    }
}

/// The edits `es` replace the values of the definitions `ts` (read from
/// positions `lo` to `hi`) by `vals` where those are given, and start
/// nowhere else in that range.
pub open spec fn edits_fit(
    ts: Seq<Token>,
    vals: Seq<Option<Seq<char>>>,
    es: Seq<(usize, usize, Seq<char>)>,
    lo: int,
    hi: int,
) -> bool {
    &&& vals.len() == ts.len()
    &&& forall|k: int| 0 <= k < ts.len() ==> edit_at(es, (#[trigger] ts[k]).start) == edit_for(vals[k], ts[k].end)
    &&& forall|k: int| 0 <= k < vals.len() && (#[trigger] vals[k]) is Some ==> line_safe(vals[k]->0)
    &&& forall|x: int|
        lo <= x <= hi && (forall|k: int| 0 <= k < ts.len() ==> (#[trigger] ts[k]).start != x)
            ==> #[trigger] edit_at(es, x) is None
}

/// `us` are the definitions `ts` with the values `vals` written where given.
pub open spec fn rewritten_tokens(ts: Seq<Token>, us: Seq<Token>, vals: Seq<Option<Seq<char>>>) -> bool {
    &&& ts.len() == us.len()
    &&& forall|k: int|
        0 <= k < ts.len() ==> {
            &&& (#[trigger] us[k]).name == ts[k].name
            &&& match vals[k] {
                Some(v) => writes_value(us[k], v),
                None => us[k].kind == ts[k].kind && us[k].text == ts[k].text,
            }
        }
}

proof fn lemma_line_rest(s: Seq<char>, i: int, e: int, es: Seq<(usize, usize, Seq<char>)>)
    requires
        0 <= i <= e <= s.len(),
        e == line_end(s, i),
        e < s.len() ==> s[e] == '\n',
        edit_at(es, e) is None,
    ensures
        rewrite(s, e, es) == (if e < s.len() {
            seq!['\n'] + rewrite(s, e + 1, es)
        } else {
            Seq::<char>::empty()
        }),
{
}

/// The text a line of `s` becomes when the value of its definition, if
/// `v` is given, is written anew.
pub open spec fn new_line(s: Seq<char>, i: int, v: Option<Seq<char>>) -> Seq<char> {
    let e = line_end(s, i);
    match (scan_line(s, i), v) {
        (LineScan::Def(tk), Some(x)) => s.subrange(i, tk.start) + escape_text(x) + s.subrange(tk.end, e),
        _ => s.subrange(i, e),
    }
}

/// What a line's rewrite is followed by.
pub open spec fn line_tail(s: Seq<char>, i: int, rest: Seq<char>) -> Seq<char> {
    if line_end(s, i) < s.len() {
        seq!['\n'] + rest
    } else {
        Seq::empty()
    }
}

/// The value that the first definition read from `i` gets, if any.
pub open spec fn first_val(s: Seq<char>, i: int, vals: Seq<Option<Seq<char>>>) -> Option<Seq<char>> {
    if scan_line(s, i) is Def {
        vals[0]
    } else {
        None
    }
}

#[verifier::rlimit(100)]
#[verifier::spinoff_prover]
proof fn lemma_line_rewrite(
    s: Seq<char>,
    i: int,
    l: nat,
    es: Seq<(usize, usize, Seq<char>)>,
    vals: Seq<Option<Seq<char>>>,
)
    requires
        0 <= i <= s.len(),
        scan_from(s, i, l) is Ok,
        edits_fit(scan_from(s, i, l)->Ok_0, vals, es, i, s.len() as int),
    ensures
        rewrite(s, i, es) == new_line(s, i, first_val(s, i, vals)) + line_tail(
            s,
            i,
            rewrite(s, line_end(s, i) + 1, es),
        ),
        first_val(s, i, vals) matches Some(v) ==> line_safe(v),
{
    let e = line_end(s, i);
    lemma_line_end(s, i);
    lemma_self_agree(s, i);
    lemma_scan_line_frame(s, i, s, i);
    lemma_scan_positions(s, i, l);
    let ts = scan_from(s, i, l)->Ok_0;
    if e < s.len() {
        lemma_scan_positions(s, e + 1, l + 1);
    }
    let rest = if e < s.len() {
        scan_from(s, e + 1, l + 1)->Ok_0
    } else {
        Seq::<Token>::empty()
    };
    let is_def = scan_line(s, i) is Def;
    assert(ts == if is_def {
        seq![scan_line(s, i)->Def_0] + rest
    } else {
        rest
    });
    let tail = line_tail(s, i, rewrite(s, e + 1, es));
    let fv = first_val(s, i, vals);
    if is_def {
        assert(vals[0] is Some ==> line_safe(vals[0]->0));
    }
    // No edit starts on this line but at the value of its definition.
    assert forall|x: int| i <= x <= e && !(is_def && x == ts[0].start) implies #[trigger] edit_at(es, x) is None by {
        assert forall|k: int| 0 <= k < ts.len() implies (#[trigger] ts[k]).start != x by {
            if is_def && k > 0 {
                assert(ts[k] == rest[k - 1]);
            }
            if !is_def {
                assert(ts[k] == rest[k]);
            }
        }
    }
    if is_def && fv is Some {
        let tk = scan_line(s, i)->Def_0;
        let w = escape_text(fv->0);
        assert(ts[0] == tk);
        assert(edit_at(es, tk.start) == Some((tk.end, w)));
        lemma_rewrite_copy(s, i, tk.start, es);
        if tk.end < e {
            lemma_rewrite_copy(s, tk.end + 1, e, es);
            lemma_line_rest(s, i, e, es);
            assert(s.subrange(tk.end, e) =~= seq![s[tk.end]] + s.subrange(tk.end + 1, e));
        } else {
            assert(s.subrange(tk.end, e) =~= Seq::<char>::empty());
        }
        assert(rewrite(s, i, es) =~= new_line(s, i, fv) + tail);
    } else {
        if is_def {
            assert(edit_at(es, ts[0].start) == edit_for(vals[0], ts[0].end));
        }
        lemma_rewrite_copy(s, i, e, es);
        lemma_line_rest(s, i, e, es);
    }
}

#[verifier::rlimit(100)]
#[verifier::spinoff_prover]
proof fn lemma_line_scan(s: Seq<char>, i: int, t: Seq<char>, j: int, v: Option<Seq<char>>, rest: Seq<char>)
    requires
        0 <= i <= s.len(),
        0 <= j <= t.len(),
        !(scan_line(s, i) is Bad),
        v is Some ==> scan_line(s, i) is Def && line_safe(v->0),
        t.subrange(j, t.len() as int) == new_line(s, i, v) + line_tail(s, i, rest),
    ensures
        line_end(t, j) == j + new_line(s, i, v).len(),
        line_end(s, i) < s.len() ==> j + new_line(s, i, v).len() < t.len() && t.subrange(
            j + new_line(s, i, v).len() + 1,
            t.len() as int,
        ) == rest,
        line_end(s, i) == s.len() ==> j + new_line(s, i, v).len() == t.len(),
        scan_line(t, j) is Def == scan_line(s, i) is Def,
        !(scan_line(t, j) is Bad),
        scan_line(s, i) is Def ==> scan_line(t, j)->Def_0.name == scan_line(s, i)->Def_0.name && match v {
            Some(x) => writes_value(scan_line(t, j)->Def_0, x),
            None => scan_line(t, j)->Def_0.kind == scan_line(s, i)->Def_0.kind && scan_line(t, j)->Def_0.text
                == scan_line(s, i)->Def_0.text,
        },
{
    let e = line_end(s, i);
    lemma_line_end(s, i);
    lemma_self_agree(s, i);
    lemma_scan_line_frame(s, i, s, i);
    let nl = new_line(s, i, v);
    let tail = line_tail(s, i, rest);
    let d = j - i;
    let et = j + nl.len();
    assert(t.subrange(j, t.len() as int).len() == t.len() - j);
    assert(t.len() == j + nl.len() + tail.len());
    if e < s.len() {
        assert(t[et] == '\n') by {
            assert(t.subrange(j, t.len() as int)[et - j] == (nl + tail)[et - j]);
        }
        assert(t.subrange(et + 1, t.len() as int) =~= rest) by {
            assert forall|k: int| 0 <= k < t.len() - (et + 1) implies #[trigger] t.subrange(et + 1, t.len() as int)[k]
                == rest[k] by {
                assert(t.subrange(j, t.len() as int)[et + 1 + k - j] == (nl + tail)[et + 1 + k - j]);
            }
        }
    }
    match v {
        Some(x) => {
            let tk = scan_line(s, i)->Def_0;
            let w = escape_text(x);
            let d2 = d + w.len() - (tk.end - tk.start);
            assert(agree_range(s, t, i, tk.start, d)) by {
                assert forall|k: int| i <= k < tk.start implies s[k] == #[trigger] t[k + d] by {
                    assert(t.subrange(j, t.len() as int)[k - i] == (nl + tail)[k - i]);
                }
            }
            assert(t.subrange(tk.start + d, tk.start + d + w.len()) =~= w) by {
                assert forall|k: int| 0 <= k < w.len() implies #[trigger] t.subrange(
                    tk.start + d,
                    tk.start + d + w.len(),
                )[k] == w[k] by {
                    assert(t.subrange(j, t.len() as int)[tk.start - i + k] == (nl + tail)[tk.start - i + k]);
                }
            }
            assert(agree_range(s, t, tk.end, e, d2)) by {
                assert forall|k: int| tk.end <= k < e implies s[k] == #[trigger] t[k + d2] by {
                    assert(t.subrange(j, t.len() as int)[k + d2 - j] == (nl + tail)[k + d2 - j]);
                }
            }
            lemma_edited_line(s, i, t, j, x);
        },
        None => {
            assert(line_agree(s, i, t, j)) by {
                assert forall|k: int| i <= k < e implies s[k] == #[trigger] t[k - i + j] by {
                    assert(t.subrange(j, t.len() as int)[k - i] == (nl + tail)[k - i]);
                }
            }
            lemma_line_end_frame(s, i, t, j, i);
            lemma_scan_line_frame(s, i, t, j);
        },
    }
}


/// The definitions read after the first line, and their values.
pub open spec fn rest_vals(s: Seq<char>, i: int, vals: Seq<Option<Seq<char>>>) -> Seq<Option<Seq<char>>> {
    if scan_line(s, i) is Def {
        vals.skip(1)
    } else {
        vals
    }
}

#[verifier::rlimit(100)]
#[verifier::spinoff_prover]
proof fn lemma_fit_rest(
    s: Seq<char>,
    i: int,
    l: nat,
    es: Seq<(usize, usize, Seq<char>)>,
    vals: Seq<Option<Seq<char>>>,
)
    requires
        0 <= i <= s.len(),
        line_end(s, i) < s.len(),
        scan_from(s, i, l) is Ok,
        edits_fit(scan_from(s, i, l)->Ok_0, vals, es, i, s.len() as int),
    ensures
        scan_from(s, line_end(s, i) + 1, l + 1) is Ok,
        scan_from(s, i, l)->Ok_0 == if scan_line(s, i) is Def {
            seq![scan_line(s, i)->Def_0] + scan_from(s, line_end(s, i) + 1, l + 1)->Ok_0
        } else {
            scan_from(s, line_end(s, i) + 1, l + 1)->Ok_0
        },
        edits_fit(
            scan_from(s, line_end(s, i) + 1, l + 1)->Ok_0,
            rest_vals(s, i, vals),
            es,
            line_end(s, i) + 1,
            s.len() as int,
        ),
{
    let e = line_end(s, i);
    lemma_line_end(s, i);
    let ts = scan_from(s, i, l)->Ok_0;
    let rest = scan_from(s, e + 1, l + 1)->Ok_0;
    let is_def = scan_line(s, i) is Def;
    let vals_rest = rest_vals(s, i, vals);
    assert(ts == if is_def {
        seq![scan_line(s, i)->Def_0] + rest
    } else {
        rest
    });
    assert forall|k: int| 0 <= k < rest.len() implies edit_at(es, (#[trigger] rest[k]).start) == edit_for(
        vals_rest[k],
        rest[k].end,
    ) by {
        if is_def {
            assert(rest[k] == ts[k + 1]);
            assert(vals_rest[k] == vals[k + 1]);
        } else {
            assert(rest[k] == ts[k]);
        }
    }
    assert forall|k: int| 0 <= k < vals_rest.len() && (#[trigger] vals_rest[k]) is Some implies line_safe(
        vals_rest[k]->0,
    ) by {
        if is_def {
            assert(vals_rest[k] == vals[k + 1]);
        }
    }
    assert forall|x: int|
        e + 1 <= x <= s.len() && (forall|k: int| 0 <= k < rest.len() ==> (#[trigger] rest[k]).start != x) implies #[trigger] edit_at(
        es,
        x,
    ) is None by {
        lemma_self_agree(s, i);
        lemma_scan_line_frame(s, i, s, i);
        assert forall|k: int| 0 <= k < ts.len() implies (#[trigger] ts[k]).start != x by {
            if is_def {
                if k > 0 {
                    assert(ts[k] == rest[k - 1]);
                }
            } else {
                assert(ts[k] == rest[k]);
            }
        }
    }
}


proof fn lemma_join(
    ts: Seq<Token>,
    rest: Seq<Token>,
    us: Seq<Token>,
    us_rest: Seq<Token>,
    vals: Seq<Option<Seq<char>>>,
    vals_rest: Seq<Option<Seq<char>>>,
    is_def: bool,
)
    requires
        rewritten_tokens(rest, us_rest, vals_rest),
        vals.len() == ts.len(),
        is_def ==> ts.len() > 0 && us.len() > 0 && ts.drop_first() == rest && us.drop_first() == us_rest
            && vals_rest == vals.skip(1) && us[0].name == ts[0].name && match vals[0] {
            Some(v) => writes_value(us[0], v),
            None => us[0].kind == ts[0].kind && us[0].text == ts[0].text,
        },
        !is_def ==> ts == rest && us == us_rest && vals_rest == vals,
    ensures
        rewritten_tokens(ts, us, vals),
{
    if is_def {
        assert forall|k: int| 0 <= k < ts.len() implies {
            &&& (#[trigger] us[k]).name == ts[k].name
            &&& match vals[k] {
                Some(v) => writes_value(us[k], v),
                None => us[k].kind == ts[k].kind && us[k].text == ts[k].text,
            }
        } by {
            if k > 0 {
                assert(us[k] == us_rest[k - 1]);
                assert(ts[k] == rest[k - 1]);
                assert(vals[k] == vals_rest[k - 1]);
            }
        }
    }
}


#[verifier::rlimit(100)]
#[verifier::spinoff_prover]
proof fn lemma_rescan(
    s: Seq<char>,
    i: int,
    l: nat,
    es: Seq<(usize, usize, Seq<char>)>,
    vals: Seq<Option<Seq<char>>>,
    t: Seq<char>,
    j: int,
)
    requires
        0 <= i <= s.len(),
        0 <= j <= t.len(),
        scan_from(s, i, l) is Ok,
        edits_fit(scan_from(s, i, l)->Ok_0, vals, es, i, s.len() as int),
        t.subrange(j, t.len() as int) == rewrite(s, i, es),
    ensures
        scan_from(t, j, l) is Ok,
        rewritten_tokens(scan_from(s, i, l)->Ok_0, scan_from(t, j, l)->Ok_0, vals),
    decreases s.len() - i,
{
    let e = line_end(s, i);
    lemma_line_end(s, i);
    lemma_line_rewrite(s, i, l, es, vals);
    let fv = first_val(s, i, vals);
    let nl = new_line(s, i, fv);
    let rs = rewrite(s, e + 1, es);
    lemma_line_scan(s, i, t, j, fv, rs);
    let et = j + nl.len();
    assert(line_end(t, j) == et);
    let ts = scan_from(s, i, l)->Ok_0;
    let is_def = scan_line(s, i) is Def;
    if e < s.len() {
        lemma_fit_rest(s, i, l, es, vals);
        let rest = scan_from(s, e + 1, l + 1)->Ok_0;
        let vals_rest = rest_vals(s, i, vals);
        assert(t.subrange(et + 1, t.len() as int) == rs);
        lemma_rescan(s, e + 1, l + 1, es, vals_rest, t, et + 1);
        let us_rest = scan_from(t, et + 1, l + 1)->Ok_0;
        assert(j <= et < t.len());
        let us = scan_from(t, j, l)->Ok_0;
        if is_def {
            let uk = scan_line(t, j)->Def_0;
            assert(us == seq![uk] + us_rest);
            assert(us.drop_first() =~= us_rest);
            assert(ts.drop_first() =~= rest);
            assert(vals_rest == vals.skip(1));
        } else {
            assert(us == us_rest);
        }
        lemma_join(ts, rest, us, us_rest, vals, vals_rest, is_def);
    } else {
        assert(et == t.len());
        if is_def {
            let us = scan_from(t, j, l)->Ok_0;
            assert(us == seq![scan_line(t, j)->Def_0]);
            assert(ts == seq![scan_line(s, i)->Def_0]);
        }
    }
}

proof fn lemma_model_spans(ts: Seq<Token>, n: Seq<char>)
    ensures
        model_of(ts).spans.contains_key(n) == model_of(ts).params.contains_key(n),
        model_of(ts).spans.contains_key(n) ==> exists|k: int|
            0 <= k < ts.len() && ts[k].name == n && #[trigger] is_last_def(ts, k) && model_of(ts).spans[n] == (
                ts[k].start as usize,
                ts[k].end as usize,
            ),
    decreases ts.len(),
{
    if ts.len() > 0 {
        let q = ts.drop_last();
        lemma_model_spans(q, n);
        if ts.last().name == n {
            assert(is_last_def(ts, ts.len() - 1));
        } else if model_of(q).spans.contains_key(n) {
            let k = choose|k: int|
                0 <= k < q.len() && q[k].name == n && #[trigger] is_last_def(q, k) && model_of(q).spans[n] == (
                    q[k].start as usize,
                    q[k].end as usize,
                );
            assert forall|j: int| k < j < ts.len() implies (#[trigger] ts[j]).name != ts[k].name by {
                if j < ts.len() - 1 {
                    assert(q[j] == ts[j]);
                }
            }
            assert(is_last_def(ts, k));
        }
    }
}

/// With every edit going in place, nothing is appended.
proof fn lemma_nothing_appended(spans: Map<Seq<char>, (usize, usize)>, edits: Seq<(Seq<char>, Seq<char>)>)
    requires
        forall|q: int| 0 <= q < edits.len() ==> spans.contains_key(#[trigger] edits[q].0),
    ensures
        appended_edits(spans, edits).len() == 0,
    decreases edits.len(),
{
    if edits.len() > 0 {
        assert(edits.last() == edits[edits.len() - 1]);
        assert forall|q: int| 0 <= q < edits.drop_last().len() implies spans.contains_key(
            #[trigger] edits.drop_last()[q].0,
        ) by {
            assert(edits.drop_last()[q] == edits[q]);
        }
        lemma_nothing_appended(spans, edits.drop_last());
    }
}

/// The edit that the first of `edits` whose name's span starts at `x`
/// gives.
pub open spec fn named_edit(
    spans: Map<Seq<char>, (usize, usize)>,
    edits: Seq<(Seq<char>, Seq<char>)>,
    x: int,
) -> Option<(int, Seq<char>)>
    decreases edits.len(),
{
    if edits.len() == 0 {
        None
    } else {
        let r = named_edit(spans, edits.drop_last(), x);
        let n = edits.last().0;
        if r is Some {
            r
        } else if spans.contains_key(n) && spans[n].0 == x {
            Some((spans[n].1 as int, escape_text(edits.last().1)))
        } else {
            None
        }
    }
}

proof fn lemma_edit_at_push(es: Seq<(usize, usize, Seq<char>)>, y: (usize, usize, Seq<char>), x: int)
    ensures
        edit_at(es.push(y), x) == match edit_at(es, x) {
            Some(r) => Some(r),
            None => if y.0 == x {
                Some((y.1 as int, y.2))
            } else {
                None
            },
        },
    decreases es.len(),
{
    if es.len() == 0 {
        assert(es.push(y)[0] == y);
        assert(es.push(y).skip(1) =~= Seq::<(usize, usize, Seq<char>)>::empty());
        assert(edit_at(Seq::<(usize, usize, Seq<char>)>::empty(), x) is None);
    } else {
        assert(es.push(y)[0] == es[0]);
        assert(es.push(y).skip(1) =~= es.skip(1).push(y));
        lemma_edit_at_push(es.skip(1), y, x);
    }
}

proof fn lemma_edit_at_named(spans: Map<Seq<char>, (usize, usize)>, edits: Seq<(Seq<char>, Seq<char>)>, x: int)
    ensures
        edit_at(in_place_edits(spans, edits), x) == named_edit(spans, edits, x),
    decreases edits.len(),
{
    if edits.len() > 0 {
        lemma_edit_at_named(spans, edits.drop_last(), x);
        let n = edits.last().0;
        if spans.contains_key(n) {
            lemma_edit_at_push(
                in_place_edits(spans, edits.drop_last()),
                (spans[n].0, spans[n].1, escape_text(edits.last().1)),
                x,
            );
        }
    }
}

proof fn lemma_named_edit(spans: Map<Seq<char>, (usize, usize)>, edits: Seq<(Seq<char>, Seq<char>)>, x: int)
    ensures
        named_edit(spans, edits, x) is Some <==> exists|q: int|
            0 <= q < edits.len() && spans.contains_key((#[trigger] edits[q]).0) && spans[edits[q].0].0 == x,
        named_edit(spans, edits, x) is Some ==> exists|q: int|
            0 <= q < edits.len() && spans.contains_key((#[trigger] edits[q]).0) && spans[edits[q].0].0 == x
                && named_edit(spans, edits, x) == Some((spans[edits[q].0].1 as int, escape_text(edits[q].1))),
    decreases edits.len(),
{
    if edits.len() > 0 {
        let p = edits.drop_last();
        lemma_named_edit(spans, p, x);
        assert forall|q: int| 0 <= q < p.len() implies #[trigger] p[q] == edits[q] by {}
        let q0 = edits.len() - 1;
        assert(edits.last() == edits[q0]);
        if named_edit(spans, p, x) is Some {
            let q = choose|q: int|
                0 <= q < p.len() && spans.contains_key((#[trigger] p[q]).0) && spans[p[q].0].0 == x
                    && named_edit(spans, p, x) == Some((spans[p[q].0].1 as int, escape_text(p[q].1)));
            assert(edits[q] == p[q]);
        } else {
            if exists|q: int| 0 <= q < edits.len() && spans.contains_key((#[trigger] edits[q]).0) && spans[edits[q].0].0 == x {
                let q = choose|q: int|
                    0 <= q < edits.len() && spans.contains_key((#[trigger] edits[q]).0) && spans[edits[q].0].0 == x;
                if q < q0 {
                    assert(p[q] == edits[q]);
                }
            }
        }
    }
}

/// Reading back a text in which the writer has put new values for names
/// that may be replaced in place gives the parameters of the original text
/// updated by those values, and every definition that was not edited keeps
/// the text and quoting of its value. Values must fit on one line (see
/// [`line_safe`]).
#[verifier::rlimit(100)]
#[verifier::spinoff_prover]
pub proof fn lemma_round_trip(src: Seq<char>, edits: Seq<(Seq<char>, Seq<char>)>)
    requires
        src.len() <= usize::MAX,
        scan_text(src) is Ok,
        unique_names(edits),
        forall|q: int|
            0 <= q < edits.len() ==> in_place_spans(model_of(scan_text(src)->Ok_0)).contains_key(
                (#[trigger] edits[q]).0,
            ) && line_safe(edits[q].1),
    ensures
        scan_text(replaced_text(src, in_place_spans(model_of(scan_text(src)->Ok_0)), edits)) is Ok,
        model_of(scan_text(replaced_text(src, in_place_spans(model_of(scan_text(src)->Ok_0)), edits))->Ok_0).params
            == model_of(scan_text(src)->Ok_0).params.union_prefer_right(map_of(edits)),
        value_edits(
            scan_text(src)->Ok_0,
            scan_text(replaced_text(src, in_place_spans(model_of(scan_text(src)->Ok_0)), edits))->Ok_0,
            map_of(edits),
        ),
{
    let ts = scan_text(src)->Ok_0;
    let m = model_of(ts);
    let spans = in_place_spans(m);
    let es = in_place_edits(spans, edits);
    let t = replaced_text(src, spans, edits);
    let em = map_of(edits);
    lemma_nothing_appended(spans, edits);
    assert(t == rewrite(src, 0, es));
    lemma_scan_positions(src, 0, 0);
    let vals = Seq::new(
        ts.len(),
        |k: int|
            if em.contains_key(ts[k].name) && is_last_def(ts, k) {
                Some(em[ts[k].name])
            } else {
                None
            },
    );
    // The last definition of a name with a span is where the span is.
    assert forall|n: Seq<char>| #[trigger] spans.contains_key(n) implies exists|k: int|
        0 <= k < ts.len() && ts[k].name == n && is_last_def(ts, k) && spans[n].0 as int == ts[k].start
            && spans[n].1 as int == ts[k].end by {
        lemma_model_spans(ts, n);
        let k = choose|k: int|
            0 <= k < ts.len() && ts[k].name == n && #[trigger] is_last_def(ts, k) && m.spans[n] == (
                ts[k].start as usize,
                ts[k].end as usize,
            );
    }
    // Starts tell definitions apart.
    assert forall|k1: int, k2: int|
        0 <= k1 < ts.len() && 0 <= k2 < ts.len() && (#[trigger] ts[k1]).start == (#[trigger] ts[k2]).start implies k1
        == k2 by {
        if k1 < k2 {
            assert(ts[k1].start < ts[k2].start);
        }
        if k2 < k1 {
            assert(ts[k2].start < ts[k1].start);
        }
    }
    assert(edits_fit(ts, vals, es, 0, src.len() as int)) by {
        assert forall|k: int| 0 <= k < ts.len() implies edit_at(es, (#[trigger] ts[k]).start) == edit_for(
            vals[k],
            ts[k].end,
        ) by {
            let x = ts[k].start;
            lemma_edit_at_named(spans, edits, x);
            lemma_named_edit(spans, edits, x);
            if named_edit(spans, edits, x) is Some {
                let q = choose|q: int|
                    0 <= q < edits.len() && spans.contains_key((#[trigger] edits[q]).0) && spans[edits[q].0].0 == x
                        && named_edit(spans, edits, x) == Some(
                        (spans[edits[q].0].1 as int, escape_text(edits[q].1)),
                    );
                let n = edits[q].0;
                let k2 = choose|k2: int|
                    0 <= k2 < ts.len() && ts[k2].name == n && is_last_def(ts, k2) && spans[n].0 as int
                        == ts[k2].start && spans[n].1 as int == ts[k2].end;
                assert(ts[k2].start == ts[k].start);
                assert(k2 == k);
                lemma_map_of_index(edits, q);
                assert(em.contains_key(n) && em[n] == edits[q].1);
            } else {
                if em.contains_key(ts[k].name) && is_last_def(ts, k) {
                    let n = ts[k].name;
                    lemma_map_of_dom(edits, n);
                    let q = choose|q: int| 0 <= q < edits.len() && edits[q].0 == n;
                    assert(spans.contains_key(edits[q].0));
                    let k2 = choose|k2: int|
                        0 <= k2 < ts.len() && ts[k2].name == n && is_last_def(ts, k2) && spans[n].0 as int
                            == ts[k2].start && spans[n].1 as int == ts[k2].end;
                    assert(k2 == k) by {
                        if k2 < k {
                            assert(ts[k].name != ts[k2].name);
                        }
                        if k < k2 {
                            assert(ts[k2].name != ts[k].name);
                        }
                    }
                    assert(false);
                }
            }
        }
        assert forall|k: int| 0 <= k < vals.len() && (#[trigger] vals[k]) is Some implies line_safe(vals[k]->0) by {
            let n = ts[k].name;
            lemma_map_of_dom(edits, n);
            let q = choose|q: int| 0 <= q < edits.len() && edits[q].0 == n;
            lemma_map_of_index(edits, q);
            assert(line_safe(edits[q].1));
        }
        assert forall|x: int|
            0 <= x <= src.len() && (forall|k: int| 0 <= k < ts.len() ==> (#[trigger] ts[k]).start != x) implies #[trigger] edit_at(
            es,
            x,
        ) is None by {
            lemma_edit_at_named(spans, edits, x);
            lemma_named_edit(spans, edits, x);
            if named_edit(spans, edits, x) is Some {
                let q = choose|q: int|
                    0 <= q < edits.len() && spans.contains_key((#[trigger] edits[q]).0) && spans[edits[q].0].0 == x;
                let n = edits[q].0;
                let k2 = choose|k2: int|
                    0 <= k2 < ts.len() && ts[k2].name == n && is_last_def(ts, k2) && spans[n].0 as int
                        == ts[k2].start && spans[n].1 as int == ts[k2].end;
                assert(ts[k2].start == x);
            }
        }
    }
    assert(t.subrange(0, t.len() as int) =~= t);
    lemma_rescan(src, 0, 0, es, vals, t, 0);
    let us = scan_text(t)->Ok_0;
    assert(value_edits(ts, us, em)) by {
        assert forall|k: int| 0 <= k < ts.len() implies {
            &&& (#[trigger] us[k]).name == ts[k].name
            &&& if em.contains_key(ts[k].name) && is_last_def(ts, k) {
                crate::laws::writes_value(us[k], em[ts[k].name])
            } else {
                us[k].kind == ts[k].kind && us[k].text == ts[k].text
            }
        } by {
            assert(vals[k] == if em.contains_key(ts[k].name) && is_last_def(ts, k) {
                Some(em[ts[k].name])
            } else {
                None
            });
        }
    }
    assert forall|n: Seq<char>| #[trigger] em.contains_key(n) implies m.params.contains_key(n)
        && !m.backward.contains(n) by {
        lemma_map_of_dom(edits, n);
        let q = choose|q: int| 0 <= q < edits.len() && edits[q].0 == n;
        assert(spans.contains_key(edits[q].0));
        lemma_model_spans(ts, n);
        assert(!referenced_of(m).contains(n));
    }
    lemma_edited_params(ts, us, em);
}

proof fn lemma_model_missing(ts: Seq<Token>, n: Seq<char>)
    requires
        model_of(ts).missing.contains_key(n),
    ensures
        exists|k: int|
            0 <= k < ts.len() && ts[k].name == n && #[trigger] is_last_def(ts, k) && model_of(ts).missing[n]
                == def_expansion(ts[k], model_of(ts.take(k)).params).unresolved,
    decreases ts.len(),
{
    let q = ts.drop_last();
    let k0 = ts.len() - 1;
    if ts.last().name == n {
        assert(is_last_def(ts, k0));
        assert(ts.take(k0) =~= q);
    } else {
        lemma_model_missing(q, n);
        let k = choose|k: int|
            0 <= k < q.len() && q[k].name == n && #[trigger] is_last_def(q, k) && model_of(q).missing[n]
                == def_expansion(q[k], model_of(q.take(k)).params).unresolved;
        assert forall|j: int| k < j < ts.len() implies (#[trigger] ts[j]).name != ts[k].name by {
            if j < ts.len() - 1 {
                assert(q[j] == ts[j]);
            }
        }
        assert(is_last_def(ts, k));
        assert(q.take(k) =~= ts.take(k));
        assert(q[k] == ts[k]);
    }
}

/// Writing the same values twice in a row, each time into the text the
/// previous write gave, gives the parameters of writing them once.
#[verifier::rlimit(100)]
#[verifier::spinoff_prover]
pub proof fn lemma_write_twice(src: Seq<char>, edits: Seq<(Seq<char>, Seq<char>)>)
    requires
        src.len() <= usize::MAX,
        scan_text(src) is Ok,
        unique_names(edits),
        forall|q: int|
            0 <= q < edits.len() ==> in_place_spans(model_of(scan_text(src)->Ok_0)).contains_key(
                (#[trigger] edits[q]).0,
            ) && line_safe(edits[q].1),
        replaced_text(src, in_place_spans(model_of(scan_text(src)->Ok_0)), edits).len() <= usize::MAX,
    ensures
        ({
            let once = replaced_text(src, in_place_spans(model_of(scan_text(src)->Ok_0)), edits);
            let twice = replaced_text(once, in_place_spans(model_of(scan_text(once)->Ok_0)), edits);
            &&& scan_text(once) is Ok
            &&& scan_text(twice) is Ok
            &&& model_of(scan_text(twice)->Ok_0).params == model_of(scan_text(once)->Ok_0).params
            &&& model_of(scan_text(once)->Ok_0).params == model_of(scan_text(src)->Ok_0).params.union_prefer_right(
                map_of(edits),
            )
        }),
{
    let ts = scan_text(src)->Ok_0;
    let em = map_of(edits);
    lemma_round_trip(src, edits);
    let once = replaced_text(src, in_place_spans(model_of(ts)), edits);
    let us = scan_text(once)->Ok_0;
    let mu = model_of(us);
    let m = model_of(ts);
    assert forall|n: Seq<char>| #[trigger] em.contains_key(n) implies m.params.contains_key(n)
        && !m.backward.contains(n) by {
        lemma_map_of_dom(edits, n);
        let q = choose|q: int| 0 <= q < edits.len() && edits[q].0 == n;
        assert(in_place_spans(m).contains_key(edits[q].0));
        lemma_model_spans(ts, n);
        assert(!referenced_of(m).contains(n));
    }
    assert forall|q: int| 0 <= q < edits.len() implies in_place_spans(mu).contains_key((#[trigger] edits[q]).0)
        && line_safe(edits[q].1) by {
        let n = edits[q].0;
        lemma_map_of_dom(edits, n);
        assert(em.contains_key(n));
        lemma_edited_not_expanded(ts, us, em, n);
        lemma_model_spans(us, n);
        assert(mu.params.contains_key(n));
        assert(!forward_ref(mu, n)) by {
            if mu.missing.contains_key(n) {
                lemma_model_missing(us, n);
                let k = choose|k: int|
                    0 <= k < us.len() && us[k].name == n && #[trigger] is_last_def(us, k) && mu.missing[n]
                        == def_expansion(us[k], model_of(us.take(k)).params).unresolved;
                assert(is_last_def(ts, k)) by {
                    assert forall|j: int| k < j < ts.len() implies (#[trigger] ts[j]).name != ts[k].name by {
                        assert(us[j].name != us[k].name);
                    }
                }
                assert(us[k].name == ts[k].name);
                lemma_written_value_reads_back(us[k], em[n], model_of(us.take(k)).params);
            }
        }
    }
    lemma_round_trip(once, edits);
    assert(mu.params.union_prefer_right(em) =~= mu.params);
}

} // verus!
