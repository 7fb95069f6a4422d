use vstd::prelude::*;

use crate::document::DotenvFile;
use crate::names::{NameMap, VarMap};
use crate::text::{chars_of, string_of};

verus! {

/// Whether `c` has the Unicode White_Space property.
pub uninterp spec fn white_space(c: char) -> bool;

/// Relies on `char::is_whitespace`: its result depends on the character alone.
#[verifier::external_body]
pub(crate) fn is_whitespace(c: char) -> (r: bool)
    ensures
        r == white_space(c),
{
    c.is_whitespace()
}

/// A character that is backslash-escaped when a value is written.
pub open spec fn is_special(c: char) -> bool {
    c == '\\' || c == '$' || c == '"' || c == '\''
}

/// A value is written in double quotes when it holds a special character or
/// would change if leading and trailing white space were trimmed.
pub open spec fn needs_quotes(v: Seq<char>) -> bool {
    (exists|i: int| 0 <= i < v.len() && is_special(#[trigger] v[i])) || (v.len() > 0 && (white_space(
        v[0],
    ) || white_space(v.last())))
}

/// How one character of a value is written inside double quotes.
pub open spec fn escaped_char(c: char) -> Seq<char> {
    if is_special(c) {
        seq!['\\', c]
    } else {
        seq![c]
    }
}

/// A value with each special character backslash-escaped.
pub open spec fn backslashed(v: Seq<char>) -> Seq<char>
    decreases v.len(),
{
    if v.len() == 0 {
        Seq::empty()
    } else {
        escaped_char(v[0]) + backslashed(v.skip(1))
    }
}

/// How a value is written in a dotenv file.
pub open spec fn escape_text(v: Seq<char>) -> Seq<char> {
    if needs_quotes(v) {
        seq!['"'] + backslashed(v) + seq!['"']
    } else {
        v
    }
}

pub proof fn lemma_backslashed_concat(a: Seq<char>, b: Seq<char>)
    ensures
        backslashed(a + b) == backslashed(a) + backslashed(b),
    decreases a.len(),
{
    if a.len() == 0 {
        assert(a + b =~= b);
        assert(backslashed(a) + backslashed(b) =~= backslashed(b));
    } else {
        assert((a + b).skip(1) =~= a.skip(1) + b);
        assert((a + b)[0] == a[0]);
        lemma_backslashed_concat(a.skip(1), b);
        assert(escaped_char(a[0]) + (backslashed(a.skip(1)) + backslashed(b)) =~= (escaped_char(a[0])
            + backslashed(a.skip(1))) + backslashed(b));
    }
}

pub proof fn lemma_backslashed_push(v: Seq<char>, c: char)
    ensures
        backslashed(v.push(c)) == backslashed(v) + escaped_char(c),
{
    assert(v.push(c) =~= v + seq![c]);
    lemma_backslashed_concat(v, seq![c]);
    assert(seq![c].skip(1) =~= Seq::<char>::empty());
    assert(seq![c][0] == c);
    assert(backslashed(Seq::<char>::empty()) == Seq::<char>::empty());
    assert(backslashed(seq![c]) =~= escaped_char(c) + backslashed(Seq::<char>::empty()));
}

/// Escapes a value so that it's valid in a dotenv file.
pub fn escape(value: &str) -> (r: String)
    ensures
        r@ == escape_text(value@),
{
    let v = chars_of(value);
    let mut special = false;
    let mut i: usize = 0;
    while i < v.len()
        invariant
            i <= v.len(),
            v@ == value@,
            special == exists|j: int| 0 <= j < i && is_special(#[trigger] v@[j]),
        decreases v.len() - i,
    {
        let c = v[i];
        if c == '\\' || c == '$' || c == '"' || c == '\'' {
            special = true;
        }
        i += 1;
    }
    let quoted = special || (v.len() > 0 && (is_whitespace(v[0]) || is_whitespace(v[v.len() - 1])));
    if !quoted {
        return string_of(v.as_slice());
    }
    let mut out: Vec<char> = Vec::new();
    out.push('"');
    let mut i: usize = 0;
    while i < v.len()
        invariant
            i <= v.len(),
            out@ == seq!['"'] + backslashed(v@.take(i as int)),
        decreases v.len() - i,
    {
        let c = v[i];
        if c == '\\' || c == '$' || c == '"' || c == '\'' {
            out.push('\\');
        }
        out.push(c);
        proof {
            assert(v@.take(i + 1) =~= v@.take(i as int).push(c));
            lemma_backslashed_push(v@.take(i as int), c);
        }
        assert(out@ =~= seq!['"'] + backslashed(v@.take(i + 1)));
        i += 1;
    }
    out.push('"');
    assert(v@.take(i as int) =~= v@);
    string_of(out.as_slice())
}

/// The edits that go in place, in the order given: where the old value
/// starts and ends, and the new value as written.
pub open spec fn in_place_edits(
    spans: Map<Seq<char>, (usize, usize)>,
    edits: Seq<(Seq<char>, Seq<char>)>,
) -> Seq<(usize, usize, Seq<char>)>
    decreases edits.len(),
{
    if edits.len() == 0 {
        Seq::empty()
    } else {
        let rest = in_place_edits(spans, edits.drop_last());
        let e = edits.last();
        if spans.contains_key(e.0) {
            rest.push((spans[e.0].0, spans[e.0].1, escape_text(e.1)))
        } else {
            rest
        }
    }
}

/// The edits that are appended, in the order given.
pub open spec fn appended_edits(
    spans: Map<Seq<char>, (usize, usize)>,
    edits: Seq<(Seq<char>, Seq<char>)>,
) -> Seq<(Seq<char>, Seq<char>)>
    decreases edits.len(),
{
    if edits.len() == 0 {
        Seq::empty()
    } else {
        let rest = appended_edits(spans, edits.drop_last());
        if spans.contains_key(edits.last().0) {
            rest
        } else {
            rest.push(edits.last())
        }
    }
}

/// The first edit whose old value starts at `p`: where it ends, and the new
/// text.
pub open spec fn edit_at(es: Seq<(usize, usize, Seq<char>)>, p: int) -> Option<(int, Seq<char>)>
    decreases es.len(),
{
    if es.len() == 0 {
        None
    } else if es[0].0 == p {
        Some((es[0].1 as int, es[0].2))
    } else {
        edit_at(es.skip(1), p)
    }
}

/// `src` from position `p` on, with each edited span replaced by its new
/// text.
pub open spec fn rewrite(src: Seq<char>, p: int, es: Seq<(usize, usize, Seq<char>)>) -> Seq<char>
    decreases src.len() - p, 1nat,
{
    if p < 0 || p > src.len() {
        Seq::empty()
    } else {
        match edit_at(es, p) {
            Some((end, t)) => if p <= end <= src.len() {
                t + copy_from(src, end, es)
            } else {
                copy_from(src, p, es)
            },
            None => copy_from(src, p, es),
        }
    }
}

/// `src[p]`, then the rewritten text after it.
pub open spec fn copy_from(src: Seq<char>, p: int, es: Seq<(usize, usize, Seq<char>)>) -> Seq<char>
    decreases src.len() - p, 0nat,
{
    if 0 <= p < src.len() {
        seq![src[p]] + rewrite(src, p + 1, es)
    } else {
        Seq::empty()
    }
}

/// The lines `NAME=VALUE` for the appended edits.
pub open spec fn appended_lines(adds: Seq<(Seq<char>, Seq<char>)>) -> Seq<char>
    decreases adds.len(),
{
    if adds.len() == 0 {
        Seq::empty()
    } else {
        appended_lines(adds.drop_last()) + adds.last().0 + seq!['='] + escape_text(adds.last().1) + seq![
            '\n',
        ]
    }
}

/// The text that applying `edits` to `src` gives, where `spans` says where
/// the values that may be replaced in place stand: those are replaced, and
/// the other edits are appended as new lines, after a newline where the text
/// does not end with one.
pub open spec fn replaced_text(
    src: Seq<char>,
    spans: Map<Seq<char>, (usize, usize)>,
    edits: Seq<(Seq<char>, Seq<char>)>,
) -> Seq<char> {
    let body = rewrite(src, 0, in_place_edits(spans, edits));
    let adds = appended_edits(spans, edits);
    if adds.len() == 0 {
        body
    } else if body.len() > 0 && body.last() != '\n' {
        body + seq!['\n'] + appended_lines(adds)
    } else {
        body + appended_lines(adds)
    }
}

fn find_edit(es: &Vec<(usize, usize, Vec<char>)>, p: usize) -> (r: Option<usize>)
    ensures
        match edit_at(es.deep_view(), p as int) {
            Some((end, t)) => r is Some && r->0 < es.len() && es[r->0 as int].1 == end
                && es[r->0 as int].2@ == t && es[r->0 as int].0 == p,
            None => r is None,
        },
{
    let ghost all = es.deep_view();
    assert(all.skip(0) =~= all);
    let mut k: usize = 0;
    while k < es.len()
        invariant
            k <= es.len(),
            all == es.deep_view(),
            edit_at(all, p as int) == edit_at(all.skip(k as int), p as int),
        decreases es.len() - k,
    {
        assert(all.skip(k as int)[0] == all[k as int]);
        if es[k].0 == p {
            assert(es[k as int].2.deep_view() =~= es[k as int].2@);
            return Some(k);
        }
        assert(all.skip(k as int).skip(1) =~= all.skip(k + 1));
        k += 1;
    }
    None
}

fn push_all(out: &mut Vec<char>, cs: &[char])
    ensures
        final(out)@ == old(out)@ + cs@,
{
    let mut i: usize = 0;
    while i < cs.len()
        invariant
            i <= cs.len(),
            out@ == old(out)@ + cs@.take(i as int),
        decreases cs.len() - i,
    {
        out.push(cs[i]);
        i += 1;
        assert(out@ =~= old(out)@ + cs@.take(i as int));
    }
    assert(cs@.take(i as int) =~= cs@);
}

impl DotenvFile {
    /// Replaces the parameter values in this file, returning the modified
    /// contents.
    ///
    /// Variables that may be replaced in place are; the others are appended
    /// to the end of the file. Any parameters not provided to this function
    /// that exist in the file will be left as-is.
    pub fn replace(&self, replacements: VarMap) -> (r: String)
        requires
            self.wf(),
            replacements.wf(),
        ensures
            r@ == replaced_text(self.source_view(), self.spans(), replacements.pairs()),
    {
        let ghost spans = self.spans();
        let ghost edits = replacements.pairs();
        let mut es: Vec<(usize, usize, Vec<char>)> = Vec::new();
        let mut adds: Vec<usize> = Vec::new();
        let mut i: usize = 0;
        while i < replacements.len()
            invariant
                i <= edits.len(),
                self.wf(),
                spans == self.spans(),
                edits == replacements.pairs(),
                es.deep_view() == in_place_edits(spans, edits.take(i as int)),
                adds@.map_values(|k: usize| edits[k as int]) == appended_edits(spans, edits.take(i as int)),
                forall|k: int| 0 <= k < adds.len() ==> adds[k] < edits.len(),
                forall|k: int| 0 <= k < es.len() ==> (#[trigger] es[k]).0 <= es[k].1 <= self.source_view().len(),
            decreases edits.len() - i,
        {
            assert(edits.take(i + 1).drop_last() =~= edits.take(i as int));
            assert(edits.take(i + 1).last() == edits[i as int]);
            let name = replacements.name_at(i);
            match self.value_span(name) {
                Some((a, b)) => {
                    let text = chars_of(escape(replacements.value_at(i).as_str()).as_str());
                    let ghost before = es.deep_view();
                    assert(text.deep_view() =~= text@);
                    es.push((a, b, text));
                    assert(es.deep_view() =~= before.push((a, b, text@)));
                },
                None => {
                    let ghost before = adds@.map_values(|k: usize| edits[k as int]);
                    adds.push(i);
                    assert(adds@.map_values(|k: usize| edits[k as int]) =~= before.push(edits[i as int]));
                },
            }
            i += 1;
        }
        assert(edits.take(i as int) =~= edits);
        let src = chars_of(self.source().as_str());
        let ghost es_v = es.deep_view();
        let mut out: Vec<char> = Vec::new();
        let mut p: usize = 0;
        loop
            invariant_except_break
                out@ + rewrite(src@, p as int, es_v) == rewrite(src@, 0, es_v),
            invariant
                p <= src.len(),
                src@ == self.source_view(),
                es_v == es.deep_view(),
                forall|k: int| 0 <= k < es.len() ==> (#[trigger] es[k]).0 <= es[k].1 <= src.len(),
            ensures
                out@ == rewrite(src@, 0, es_v),
            decreases src.len() - p,
        {
            match find_edit(&es, p) {
                Some(k) => {
                    let end = es[k].1;
                    let ghost before = out@;
                    push_all(&mut out, es[k].2.as_slice());
                    if end < src.len() {
                        out.push(src[end]);
                        assert(out@ + rewrite(src@, end + 1, es_v) =~= before + rewrite(src@, p as int, es_v));
                        p = end + 1;
                    } else {
                        assert(out@ =~= before + rewrite(src@, p as int, es_v));
                        break;
                    }
                },
                None => {
                    if p == src.len() {
                        assert(out@ =~= out@ + rewrite(src@, p as int, es_v));
                        break;
                    }
                    let ghost before = out@;
                    out.push(src[p]);
                    assert(out@ + rewrite(src@, p + 1, es_v) =~= before + rewrite(src@, p as int, es_v));
                    p += 1;
                },
            }
        }
        let ghost body = out@;
        let ghost adds_v = appended_edits(spans, edits);
        if adds.len() > 0 {
            if out.len() > 0 && out[out.len() - 1] != '\n' {
                out.push('\n');
            }
            let ghost head = out@;
            let mut j: usize = 0;
            while j < adds.len()
                invariant
                    j <= adds.len(),
                    edits == replacements.pairs(),
                    replacements.wf(),
                    adds@.map_values(|k: usize| edits[k as int]) == adds_v,
                    forall|k: int| 0 <= k < adds.len() ==> adds[k] < edits.len(),
                    out@ == head + appended_lines(adds_v.take(j as int)),
                decreases adds.len() - j,
            {
                let k = adds[j];
                assert(adds_v[j as int] == edits[k as int]);
                let name = replacements.name_at(k);
                let value = escape(replacements.value_at(k).as_str());
                let ghost before = out@;
                push_all(&mut out, chars_of(name.as_str()).as_slice());
                out.push('=');
                push_all(&mut out, chars_of(value.as_str()).as_slice());
                out.push('\n');
                assert(adds_v.take(j + 1).drop_last() =~= adds_v.take(j as int));
                assert(out@ =~= head + appended_lines(adds_v.take(j + 1)));
                j += 1;
            }
            assert(adds_v.take(j as int) =~= adds_v);
        }
        string_of(out.as_slice())
    }
}

} // verus!
