use vstd::prelude::*;

use crate::document::{apply_def, def_expansion, def_value, model_of};
use crate::expand::{expand_all, expand_braced, expand_unbraced, substitute, Expansion};
use crate::grammar::{Token, ValueKind};
use crate::sync::{close_in_time, decision, Choice, SkipReason, SyncMode, Timestamp};
use crate::unescape::unescape_text;
use crate::writer::{backslashed, escape_text, is_special, needs_quotes, white_space};

verus! {

/// A value with no special character and no white space at either end is
/// written bare.
pub proof fn lemma_escape_bare(v: Seq<char>)
    requires
        forall|i: int| 0 <= i < v.len() ==> !is_special(#[trigger] v[i]),
        v.len() > 0 ==> !white_space(v[0]) && !white_space(v.last()),
    ensures
        escape_text(v) == v,
{
}

/// Removing one layer of escaping from a backslashed value gives the value.
pub proof fn lemma_unescape_backslashed(v: Seq<char>)
    ensures
        unescape_text(backslashed(v)) == v,
    decreases v.len(),
{
    if v.len() > 0 {
        let s = backslashed(v);
        let rest = backslashed(v.skip(1));
        lemma_unescape_backslashed(v.skip(1));
        if is_special(v[0]) {
            assert(s == seq!['\\', v[0]] + rest);
            assert(s.skip(2) =~= rest);
            assert(s[1] == v[0]);
        } else {
            assert(s == seq![v[0]] + rest);
            assert(s.skip(1) =~= rest);
        }
        assert(v =~= seq![v[0]] + v.skip(1));
    }
}

/// Expansion leaves a backslashed value as it is and meets no reference.
pub proof fn lemma_expand_backslashed(v: Seq<char>, p: Map<Seq<char>, Seq<char>>)
    ensures
        expand_all(backslashed(v), p) == (Expansion {
            text: backslashed(v),
            expanded: Seq::empty(),
            unresolved: Seq::empty(),
        }),
    decreases v.len(),
{
    let s = backslashed(v);
    if v.len() == 0 {
        assert(s =~= Seq::<char>::empty());
    } else {
        let rest = backslashed(v.skip(1));
        lemma_expand_backslashed(v.skip(1), p);
        if is_special(v[0]) {
            assert(s == seq!['\\', v[0]] + rest);
            assert(s.skip(2) =~= rest);
            assert(s[1] == v[0]);
            assert(seq!['\\', s[1]] + rest =~= s);
        } else {
            assert(s == seq![v[0]] + rest);
            assert(s.skip(1) =~= rest);
            assert(seq![s[0]] + rest =~= s);
        }
    }
}

/// A value that holds a special character is written in double quotes,
/// and removing one layer of escaping from what stands between them gives
/// the value back.
pub proof fn lemma_escape_quoted(v: Seq<char>)
    requires
        exists|i: int| 0 <= i < v.len() && is_special(#[trigger] v[i]),
    ensures
        escape_text(v).len() >= 2,
        escape_text(v)[0] == '"',
        escape_text(v).last() == '"',
        unescape_text(escape_text(v).subrange(1, escape_text(v).len() - 1)) == v,
{
    let w = escape_text(v);
    assert(needs_quotes(v));
    assert(w == seq!['"'] + backslashed(v) + seq!['"']);
    assert(w.subrange(1, w.len() - 1) =~= backslashed(v));
    lemma_unescape_backslashed(v);
}

/// Under `sync`, `push` and `pull`, a unit whose two sides were modified
/// less than a minute apart is left alone as unchanged.
pub proof fn lemma_close_times_unchanged(mode: SyncMode, local: Timestamp, remote: Timestamp)
    requires
        mode == SyncMode::Sync || mode == SyncMode::Push || mode == SyncMode::Pull,
        close_in_time(local, remote),
    ensures
        decision(mode, Some(local), Some(remote)) == Choice::Skip(SkipReason::Unchanged),
{
}

/// No name in `e` is in `s`.
pub open spec fn avoids(e: Seq<Seq<char>>, s: Set<Seq<char>>) -> bool {
    forall|i: int| 0 <= i < e.len() ==> !s.contains(#[trigger] e[i])
}

/// Two parameter maps with the same names that may differ only on `s`.
pub open spec fn agree_off(env_a: Map<Seq<char>, Seq<char>>, env_b: Map<Seq<char>, Seq<char>>, s: Set<Seq<char>>) -> bool {
    &&& env_a.dom() == env_b.dom()
    &&& forall|n: Seq<char>| #[trigger] env_a.contains_key(n) && !s.contains(n) ==> env_a[n] == env_b[n]
}

proof fn lemma_substitute_frame(
    env_a: Map<Seq<char>, Seq<char>>,
    env_b: Map<Seq<char>, Seq<char>>,
    s: Set<Seq<char>>,
    name: Seq<char>,
    e: Expansion,
)
    requires
        agree_off(env_a, env_b, s),
        avoids(substitute(env_a, name, e).expanded, s),
    ensures
        avoids(e.expanded, s),
        substitute(env_a, name, e) == substitute(env_b, name, e),
{
    if env_a.contains_key(name) {
        let x = substitute(env_a, name, e).expanded;
        assert(x[0] == name);
        assert(!s.contains(name));
        assert forall|i: int| 0 <= i < e.expanded.len() implies !s.contains(#[trigger] e.expanded[i]) by {
            assert(x[i + 1] == e.expanded[i]);
        }
    }
}

/// Expansion reads only the parameters it substitutes: maps that agree on
/// those give the same result.
pub proof fn lemma_expand_frame(
    t: Seq<char>,
    env_a: Map<Seq<char>, Seq<char>>,
    env_b: Map<Seq<char>, Seq<char>>,
    s: Set<Seq<char>>,
)
    requires
        agree_off(env_a, env_b, s),
        avoids(expand_all(t, env_a).expanded, s),
    ensures
        expand_all(t, env_a) == expand_all(t, env_b),
    decreases t.len(), 1nat,
{
    if t.len() == 0 {
    } else if t[0] == '\\' {
        if t.len() == 1 {
            lemma_expand_frame(t.skip(1), env_a, env_b, s);
        } else {
            lemma_expand_frame(t.skip(2), env_a, env_b, s);
        }
    } else if t[0] == '$' && t.len() >= 2 && t[1] == '{' {
        lemma_braced_frame(Seq::empty(), false, t.skip(2), env_a, env_b, s);
    } else if t[0] == '$' && t.len() >= 2 && crate::expand::is_name_start(t[1]) {
        lemma_unbraced_frame(seq![t[1]], t.skip(2), env_a, env_b, s);
    } else {
        lemma_expand_frame(t.skip(1), env_a, env_b, s);
    }
}

proof fn lemma_braced_frame(
    name: Seq<char>,
    invalid: bool,
    rest: Seq<char>,
    env_a: Map<Seq<char>, Seq<char>>,
    env_b: Map<Seq<char>, Seq<char>>,
    s: Set<Seq<char>>,
)
    requires
        agree_off(env_a, env_b, s),
        avoids(expand_braced(name, invalid, rest, env_a).expanded, s),
    ensures
        expand_braced(name, invalid, rest, env_a) == expand_braced(name, invalid, rest, env_b),
    decreases rest.len(), 2nat,
{
    if rest.len() == 0 {
        lemma_expand_frame(rest, env_a, env_b, s);
    } else if crate::expand::is_name_char(rest[0]) {
        lemma_braced_frame(name.push(rest[0]), invalid, rest.skip(1), env_a, env_b, s);
    } else if rest[0] == '}' {
        if invalid {
            lemma_expand_frame(rest.skip(1), env_a, env_b, s);
        } else {
            lemma_substitute_frame(env_a, env_b, s, name, expand_all(rest.skip(1), env_a));
            lemma_expand_frame(rest.skip(1), env_a, env_b, s);
            lemma_substitute_frame(env_a, env_b, s, name, expand_all(rest.skip(1), env_b));
        }
    } else {
        lemma_braced_frame(name, true, rest.skip(1), env_a, env_b, s);
    }
}

proof fn lemma_unbraced_frame(
    name: Seq<char>,
    rest: Seq<char>,
    env_a: Map<Seq<char>, Seq<char>>,
    env_b: Map<Seq<char>, Seq<char>>,
    s: Set<Seq<char>>,
)
    requires
        agree_off(env_a, env_b, s),
        avoids(expand_unbraced(name, rest, env_a).expanded, s),
    ensures
        expand_unbraced(name, rest, env_a) == expand_unbraced(name, rest, env_b),
    decreases rest.len(), 2nat,
{
    if rest.len() > 0 && crate::expand::is_name_char(rest[0]) {
        lemma_unbraced_frame(name.push(rest[0]), rest.skip(1), env_a, env_b, s);
    } else {
        lemma_substitute_frame(env_a, env_b, s, name, expand_all(rest, env_a));
        lemma_expand_frame(rest, env_a, env_b, s);
        lemma_substitute_frame(env_a, env_b, s, name, expand_all(rest, env_b));
    }
}

/// Expansion leaves a value without special characters as it is.
pub proof fn lemma_expand_plain(v: Seq<char>, p: Map<Seq<char>, Seq<char>>)
    requires
        forall|i: int| 0 <= i < v.len() ==> !is_special(#[trigger] v[i]),
    ensures
        expand_all(v, p) == (Expansion { text: v, expanded: Seq::empty(), unresolved: Seq::empty() }),
    decreases v.len(),
{
    if v.len() > 0 {
        assert(!is_special(v[0]));
        assert forall|i: int| 0 <= i < v.skip(1).len() implies !is_special(#[trigger] v.skip(1)[i]) by {
            assert(v.skip(1)[i] == v[i + 1]);
        }
        lemma_expand_plain(v.skip(1), p);
        assert(seq![v[0]] + v.skip(1) =~= v);
    } else {
        assert(v =~= Seq::<char>::empty());
    }
}

/// Unescaping leaves a value without backslashes as it is.
pub proof fn lemma_unescape_plain(v: Seq<char>)
    requires
        forall|i: int| 0 <= i < v.len() ==> !is_special(#[trigger] v[i]),
    ensures
        unescape_text(v) == v,
    decreases v.len(),
{
    if v.len() > 0 {
        assert(!is_special(v[0]));
        assert forall|i: int| 0 <= i < v.skip(1).len() implies !is_special(#[trigger] v.skip(1)[i]) by {
            assert(v.skip(1)[i] == v[i + 1]);
        }
        lemma_unescape_plain(v.skip(1));
        assert(seq![v[0]] + v.skip(1) =~= v);
    }
}

/// `t` is how the writer puts down value `v`: bare where `v` has no special
/// character, else backslashed in double quotes.
pub open spec fn writes_value(t: Token, v: Seq<char>) -> bool {
    ||| (t.kind == ValueKind::DoubleQuoted && t.text == backslashed(v))
    ||| (t.kind == ValueKind::Unquoted && t.text == v && forall|i: int|
        0 <= i < v.len() ==> !is_special(#[trigger] v[i]))
}

/// A value as the writer puts it down reads back as itself, expands no
/// name, and depends on no other variable.
pub proof fn lemma_written_value_reads_back(t: Token, v: Seq<char>, env: Map<Seq<char>, Seq<char>>)
    requires
        writes_value(t, v),
    ensures
        def_value(t, env) == v,
        def_expansion(t, env).expanded.len() == 0,
        def_expansion(t, env).unresolved.len() == 0,
{
    if t.kind == ValueKind::DoubleQuoted {
        lemma_expand_backslashed(v, env);
        lemma_unescape_backslashed(v);
    } else {
        lemma_expand_plain(v, env);
        lemma_unescape_plain(v);
    }
}

/// No later definition has the name of definition `k`.
pub open spec fn is_last_def(ts: Seq<Token>, k: int) -> bool {
    forall|j: int| k < j < ts.len() ==> (#[trigger] ts[j]).name != ts[k].name
}

/// `us` is `ts` with the value of the last definition of each name of
/// `edits` written anew, and nothing else changed but positions.
pub open spec fn value_edits(ts: Seq<Token>, us: Seq<Token>, edits: Map<Seq<char>, Seq<char>>) -> bool {
    &&& ts.len() == us.len()
    &&& forall|k: int|
        0 <= k < ts.len() ==> {
            &&& (#[trigger] us[k]).name == ts[k].name
            &&& if edits.contains_key(ts[k].name) && is_last_def(ts, k) {
                writes_value(us[k], edits[ts[k].name])
            } else {
                us[k].kind == ts[k].kind && us[k].text == ts[k].text
            }
        }
}

/// The edited names whose last definition is among the first `j`.
pub open spec fn edited_before(ts: Seq<Token>, edits: Map<Seq<char>, Seq<char>>, j: int) -> Set<Seq<char>> {
    Set::new(
        |n: Seq<char>|
            edits.contains_key(n) && exists|k: int|
                0 <= k < j && ts[k].name == n && #[trigger] is_last_def(ts, k),
    )
}

proof fn lemma_model_step(ts: Seq<Token>, j: int)
    requires
        0 <= j < ts.len(),
    ensures
        model_of(ts.take(j + 1)) == apply_def(model_of(ts.take(j)), ts[j]),
{
    assert(ts.take(j + 1).drop_last() =~= ts.take(j));
    assert(ts.take(j + 1).last() == ts[j]);
}

proof fn lemma_defined_before(ts: Seq<Token>, k: int, j: int)
    requires
        0 <= k < j <= ts.len(),
    ensures
        model_of(ts.take(j)).params.contains_key(ts[k].name),
    decreases j,
{
    lemma_model_step(ts, j - 1);
    if k < j - 1 {
        lemma_defined_before(ts, k, j - 1);
    }
}

proof fn lemma_has_last_def(ts: Seq<Token>, n: Seq<char>)
    requires
        model_of(ts).params.contains_key(n),
    ensures
        exists|k: int| 0 <= k < ts.len() && ts[k].name == n && #[trigger] is_last_def(ts, k),
    decreases ts.len(),
{
    let q = ts.drop_last();
    if ts.last().name == n {
        assert(is_last_def(ts, ts.len() - 1));
    } else {
        lemma_has_last_def(q, n);
        let k = choose|k: int| 0 <= k < q.len() && q[k].name == n && #[trigger] is_last_def(q, k);
        assert forall|j: int| k < j < ts.len() implies (#[trigger] ts[j]).name != ts[k].name by {
            if j < ts.len() - 1 {
                assert(q[j] == ts[j]);
            }
        }
        assert(is_last_def(ts, k));
    }
}

proof fn lemma_backward_kept(ts: Seq<Token>, j: int, m: int, n: Seq<char>)
    requires
        0 <= j < m <= ts.len(),
        def_expansion(ts[j], model_of(ts.take(j)).params).expanded.contains(n),
        n != ts[j].name,
        forall|k: int| j < k < m ==> (#[trigger] ts[k]).name != n,
    ensures
        model_of(ts.take(m)).backward.contains(n),
    decreases m - j,
{
    lemma_model_step(ts, m - 1);
    if m > j + 1 {
        lemma_backward_kept(ts, j, m - 1, n);
    }
}

proof fn lemma_edited_prefix(ts: Seq<Token>, us: Seq<Token>, edits: Map<Seq<char>, Seq<char>>, j: int)
    requires
        value_edits(ts, us, edits),
        forall|n: Seq<char>| #[trigger] edits.contains_key(n) ==> !model_of(ts).backward.contains(n),
        0 <= j <= ts.len(),
    ensures
        model_of(us.take(j)).params == model_of(ts.take(j)).params.union_prefer_right(
            edits.restrict(edited_before(ts, edits, j)),
        ),
    decreases j,
{
    let e = edited_before(ts, edits, j);
    if j == 0 {
        assert(model_of(ts.take(0)).params.union_prefer_right(edits.restrict(e)) =~= Map::empty());
    } else {
        let i = j - 1;
        lemma_edited_prefix(ts, us, edits, i);
        lemma_model_step(ts, i);
        lemma_model_step(us, i);
        let ei = edited_before(ts, edits, i);
        let p = model_of(ts.take(i)).params;
        let q = model_of(us.take(i)).params;
        let t = ts[i];
        let u = us[i];
        assert(q == p.union_prefer_right(edits.restrict(ei)));
        assert(ei.subset_of(p.dom())) by {
            assert forall|n: Seq<char>| ei.contains(n) implies p.contains_key(n) by {
                let k = choose|k: int| 0 <= k < i && ts[k].name == n && #[trigger] is_last_def(ts, k);
                lemma_defined_before(ts, k, i);
            }
        }
        assert(!ei.contains(t.name)) by {
            if ei.contains(t.name) {
                let k = choose|k: int| 0 <= k < i && ts[k].name == t.name && #[trigger] is_last_def(ts, k);
                assert(ts[i].name != ts[k].name);
            }
        }
        if edits.contains_key(t.name) && is_last_def(ts, i) {
            lemma_written_value_reads_back(u, edits[t.name], q);
            assert(e =~= ei.insert(t.name)) by {
                assert forall|n: Seq<char>| e.contains(n) <==> ei.insert(t.name).contains(n) by {
                    if e.contains(n) && n != t.name {
                        let k = choose|k: int| 0 <= k < j && ts[k].name == n && #[trigger] is_last_def(ts, k);
                        assert(k != i);
                    }
                    if n == t.name {
                        assert(is_last_def(ts, i));
                    }
                }
            }
            assert(model_of(us.take(j)).params =~= model_of(ts.take(j)).params.union_prefer_right(
                edits.restrict(e),
            ));
        } else {
            assert(e =~= ei) by {
                assert forall|n: Seq<char>| e.contains(n) implies ei.contains(n) by {
                    let k = choose|k: int| 0 <= k < j && ts[k].name == n && #[trigger] is_last_def(ts, k);
                    if k == i {
                        assert(false);
                    }
                }
            }
            assert(def_value(u, q) == def_value(t, p)) by {
                if t.kind != ValueKind::SingleQuoted {
                    assert(agree_off(p, q, ei)) by {
                        assert(q.dom() =~= p.dom());
                    }
                    lemma_avoids_edited(ts, edits, i);
                    lemma_expand_frame(t.text, p, q, ei);
                }
            }
            assert(model_of(us.take(j)).params =~= model_of(ts.take(j)).params.union_prefer_right(
                edits.restrict(e),
            ));
        }
    }
}

proof fn lemma_avoids_edited(ts: Seq<Token>, edits: Map<Seq<char>, Seq<char>>, i: int)
    requires
        forall|n: Seq<char>| #[trigger] edits.contains_key(n) ==> !model_of(ts).backward.contains(n),
        0 <= i < ts.len(),
    ensures
        avoids(def_expansion(ts[i], model_of(ts.take(i)).params).expanded, edited_before(ts, edits, i)),
{
    let p = model_of(ts.take(i)).params;
    let ei = edited_before(ts, edits, i);
    let x = def_expansion(ts[i], p).expanded;
    assert forall|y: int| 0 <= y < x.len() implies !ei.contains(#[trigger] x[y]) by {
        let n = x[y];
        if ei.contains(n) {
            let k = choose|k: int| 0 <= k < i && ts[k].name == n && #[trigger] is_last_def(ts, k);
            assert(ts[i].name != ts[k].name);
            assert(x.contains(n));
            assert forall|z: int| i < z < ts.len() implies (#[trigger] ts[z]).name != n by {
                assert(ts[z].name != ts[k].name);
            }
            lemma_backward_kept(ts, i, ts.len() as int, n);
            assert(ts.take(ts.len() as int) =~= ts);
        }
    }
}

proof fn lemma_backward_origin(ts: Seq<Token>, m: int, n: Seq<char>)
    requires
        0 <= m <= ts.len(),
        model_of(ts.take(m)).backward.contains(n),
    ensures
        exists|j: int|
            0 <= j < m && #[trigger] def_expansion(ts[j], model_of(ts.take(j)).params).expanded.contains(n)
                && forall|k: int| j < k < m ==> (#[trigger] ts[k]).name != n,
    decreases m,
{
    if m == 0 {
        assert(model_of(ts.take(0)).backward =~= Set::empty());
    } else {
        lemma_model_step(ts, m - 1);
        let prev = model_of(ts.take(m - 1));
        let x = def_expansion(ts[m - 1], prev.params);
        assert(n != ts[m - 1].name);
        if x.expanded.contains(n) {
            assert(def_expansion(ts[m - 1], model_of(ts.take(m - 1)).params).expanded.contains(n));
        } else {
            assert(prev.backward.contains(n));
            lemma_backward_origin(ts, m - 1, n);
            let j = choose|j: int|
                0 <= j < m - 1 && #[trigger] def_expansion(ts[j], model_of(ts.take(j)).params).expanded.contains(n)
                    && forall|k: int| j < k < m - 1 ==> (#[trigger] ts[k]).name != n;
            assert forall|k: int| j < k < m implies (#[trigger] ts[k]).name != n by {
            }
        }
    }
}

/// After values are written anew, no later definition expands an edited
/// name: the edited names can be written in place again.
pub(crate) proof fn lemma_edited_not_expanded(ts: Seq<Token>, us: Seq<Token>, edits: Map<Seq<char>, Seq<char>>, n: Seq<char>)
    requires
        value_edits(ts, us, edits),
        forall|x: Seq<char>| #[trigger]
            edits.contains_key(x) ==> model_of(ts).params.contains_key(x) && !model_of(ts).backward.contains(x),
        edits.contains_key(n),
    ensures
        !model_of(us).backward.contains(n),
{
    if model_of(us).backward.contains(n) {
        assert(us.take(us.len() as int) =~= us);
        lemma_backward_origin(us, us.len() as int, n);
        let j = choose|j: int|
            0 <= j < us.len() && #[trigger] def_expansion(us[j], model_of(us.take(j)).params).expanded.contains(n)
                && forall|k: int| j < k < us.len() ==> (#[trigger] us[k]).name != n;
        lemma_has_last_def(ts, n);
        let k0 = choose|k: int| 0 <= k < ts.len() && ts[k].name == n && #[trigger] is_last_def(ts, k);
        assert(us[k0].name == n);
        let q = model_of(us.take(j)).params;
        let p = model_of(ts.take(j)).params;
        if edits.contains_key(ts[j].name) && is_last_def(ts, j) {
            lemma_written_value_reads_back(us[j], edits[ts[j].name], q);
        } else {
            assert(j > k0) by {
                if j < k0 {
                    assert(us[k0].name != n);
                }
            }
            lemma_edited_prefix(ts, us, edits, j);
            let ej = edited_before(ts, edits, j);
            assert(ej.subset_of(p.dom())) by {
                assert forall|x: Seq<char>| ej.contains(x) implies p.contains_key(x) by {
                    let k = choose|k: int| 0 <= k < j && ts[k].name == x && #[trigger] is_last_def(ts, k);
                    lemma_defined_before(ts, k, j);
                }
            }
            assert(q.dom() =~= p.dom());
            if ts[j].kind != ValueKind::SingleQuoted {
                lemma_avoids_edited(ts, edits, j);
                lemma_expand_frame(ts[j].text, p, q, ej);
            }
            assert(def_expansion(ts[j], p).expanded.contains(n));
            assert forall|z: int| j < z < ts.len() implies (#[trigger] ts[z]).name != n by {
                assert(us[z].name != n);
            }
            assert(ts[j].name != n) by {
                assert(ts[j].name != ts[k0].name);
            }
            lemma_backward_kept(ts, j, ts.len() as int, n);
            assert(ts.take(ts.len() as int) =~= ts);
        }
    }
}

/// Writing new values in place of the last definitions of names that no
/// later definition expands changes the parameters by exactly those values.
pub proof fn lemma_edited_params(ts: Seq<Token>, us: Seq<Token>, edits: Map<Seq<char>, Seq<char>>)
    requires
        value_edits(ts, us, edits),
        forall|n: Seq<char>| #[trigger]
            edits.contains_key(n) ==> model_of(ts).params.contains_key(n) && !model_of(ts).backward.contains(n),
    ensures
        model_of(us).params == model_of(ts).params.union_prefer_right(edits),
{
    lemma_edited_prefix(ts, us, edits, ts.len() as int);
    assert(ts.take(ts.len() as int) =~= ts);
    assert(us.take(us.len() as int) =~= us);
    assert(edited_before(ts, edits, ts.len() as int) =~= edits.dom()) by {
        assert forall|n: Seq<char>| edits.contains_key(n) implies edited_before(ts, edits, ts.len() as int).contains(n) by {
            lemma_has_last_def(ts, n);
        }
    }
    assert(edits.restrict(edits.dom()) =~= edits);
}

} // verus!
