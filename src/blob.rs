use vstd::prelude::*;

use crate::text::{chars_of, string_of};

verus! {

broadcast use vstd::string::group_string_axioms;

/// `s` split at each `#` (a text without `#` is one part).
pub open spec fn split_hash(s: Seq<char>) -> Seq<Seq<char>>
    decreases s.len(),
{
    if s.len() == 0 {
        seq![Seq::empty()]
    } else {
        let r = split_hash(s.drop_last());
        if s.last() == '#' {
            r.push(Seq::empty())
        } else {
            r.update(r.len() - 1, r.last().push(s.last()))
        }
    }
}

/// A part of a local path that a blob name template can insert.
#[derive(Clone, Copy, PartialEq, Eq, Structural, Debug)]
pub enum PathPart {
    /// The file name (`#name#`).
    Name,
    /// The file name without its extension (`#stem#`).
    Stem,
    /// The extension (`#ext#`).
    Ext,
}

/// Why a blob name could not be formed.
#[derive(PartialEq, Eq, Debug)]
pub enum BlobNameError {
    /// A placeholder other than `name`, `stem` or `ext`.
    InvalidPlaceholder(String),
    /// The path has no such part.
    MissingPart(PathPart),
    /// The template has an odd number of `#`.
    Malformed,
}

/// What a blob name template gives.
pub enum BlobName {
    Name(Seq<char>),
    Invalid(Seq<char>),
    Missing(PathPart),
    Malformed,
}

/// `prefix` in front of a name; an error stays as it is.
pub open spec fn prefixed(prefix: Seq<char>, b: BlobName) -> BlobName {
    match b {
        BlobName::Name(n) => BlobName::Name(prefix + n),
        other => other,
    }
}

/// The name formed from the template parts from `k` on: even parts are
/// literal, odd parts are placeholders; the number of parts must be odd.
pub open spec fn fill_from(
    parts: Seq<Seq<char>>,
    k: int,
    name: Option<Seq<char>>,
    stem: Option<Seq<char>>,
    ext: Option<Seq<char>>,
) -> BlobName
    decreases parts.len() - k,
{
    if k < 0 || k >= parts.len() {
        if parts.len() % 2 == 1 {
            BlobName::Name(Seq::empty())
        } else {
            BlobName::Malformed
        }
    } else if k % 2 == 0 {
        prefixed(parts[k], fill_from(parts, k + 1, name, stem, ext))
    } else {
        let (part, value) = if parts[k] == "name"@ {
            (PathPart::Name, name)
        } else if parts[k] == "stem"@ {
            (PathPart::Stem, stem)
        } else if parts[k] == "ext"@ {
            (PathPart::Ext, ext)
        } else {
            (PathPart::Name, None)
        };
        if parts[k] != "name"@ && parts[k] != "stem"@ && parts[k] != "ext"@ {
            BlobName::Invalid(parts[k])
        } else {
            match value {
                Some(v) => prefixed(v, fill_from(parts, k + 1, name, stem, ext)),
                None => BlobName::Missing(part),
            }
        }
    }
}

/// The blob name that `template` gives for a local path with the given
/// parts.
pub open spec fn blob_name_of(
    template: Seq<char>,
    name: Option<Seq<char>>,
    stem: Option<Seq<char>>,
    ext: Option<Seq<char>>,
) -> BlobName {
    fill_from(split_hash(template), 0, name, stem, ext)
}

pub proof fn lemma_prefixed_assoc(a: Seq<char>, b: Seq<char>, x: BlobName)
    ensures
        prefixed(a, prefixed(b, x)) == prefixed(a + b, x),
{
    match x {
        BlobName::Name(n) => {
            assert(a + (b + n) =~= (a + b) + n);
        },
        _ => {},
    }
}

pub open spec fn opt_view(s: Option<&str>) -> Option<Seq<char>> {
    match s {
        Some(x) => Some(x@),
        None => None,
    }
}

fn split_parts(s: &str) -> (r: Vec<Vec<char>>)
    ensures
        r.deep_view() == split_hash(s@),
{
    let cs = chars_of(s);
    let mut parts: Vec<Vec<char>> = Vec::new();
    let mut cur: Vec<char> = Vec::new();
    let mut i: usize = 0;
    while i < cs.len()
        invariant
            i <= cs.len(),
            cs@ == s@,
            parts.deep_view().push(cur@) == split_hash(cs@.take(i as int)),
        decreases cs.len() - i,
    {
        let ghost before = split_hash(cs@.take(i as int));
        assert(cs@.take(i + 1).drop_last() =~= cs@.take(i as int));
        if cs[i] == '#' {
            let ghost pv = parts.deep_view();
            assert(cur.deep_view() =~= cur@);
            parts.push(cur);
            assert(parts.deep_view() =~= pv.push(cur@));
            cur = Vec::new();
            assert(parts.deep_view().push(cur@) =~= before.push(Seq::empty()));
        } else {
            cur.push(cs[i]);
            assert(parts.deep_view().push(cur@) =~= before.update(before.len() - 1, before.last().push(cs@[i as int])));
        }
        i += 1;
    }
    assert(cs@.take(i as int) =~= cs@);
    let ghost pv = parts.deep_view();
    assert(cur.deep_view() =~= cur@);
    parts.push(cur);
    assert(parts.deep_view() =~= pv.push(cur@));
    parts
}

fn is_word(part: &Vec<char>, w: &str) -> (r: bool)
    ensures
        r == (part@ == w@),
{
    let cs = chars_of(w);
    if part.len() != cs.len() {
        return false;
    }
    let mut i: usize = 0;
    while i < cs.len()
        invariant
            i <= cs.len(),
            part.len() == cs.len(),
            cs@ == w@,
            forall|j: int| 0 <= j < i ==> part@[j] == cs@[j],
        decreases cs.len() - i,
    {
        if part[i] != cs[i] {
            return false;
        }
        i += 1;
    }
    assert(part@ =~= cs@);
    true
}

/// Forms the name of the remote blob for a local path from `template`,
/// where `#name#`, `#stem#` and `#ext#` stand for the path's file name,
/// file stem and extension.
pub fn blob_name(template: &str, name: Option<&str>, stem: Option<&str>, ext: Option<&str>) -> (r: Result<String, BlobNameError>)
    ensures
        match blob_name_of(template@, opt_view(name), opt_view(stem), opt_view(ext)) {
            BlobName::Name(n) => r is Ok && r->Ok_0@ == n,
            BlobName::Invalid(p) => r is Err && r->Err_0 is InvalidPlaceholder
                && r->Err_0->InvalidPlaceholder_0@ == p,
            BlobName::Missing(part) => r == Err::<String, BlobNameError>(BlobNameError::MissingPart(part)),
            BlobName::Malformed => r == Err::<String, BlobNameError>(BlobNameError::Malformed),
        },
{
    let parts = split_parts(template);
    let ghost ps = parts.deep_view();
    let ghost (nv, sv, ev) = (opt_view(name), opt_view(stem), opt_view(ext));
    let mut out: Vec<char> = Vec::new();
    let mut k: usize = 0;
    while k < parts.len()
        invariant
            k <= parts.len(),
            ps == parts.deep_view(),
            nv == opt_view(name),
            sv == opt_view(stem),
            ev == opt_view(ext),
            blob_name_of(template@, nv, sv, ev) == prefixed(out@, fill_from(ps, k as int, nv, sv, ev)),
        decreases parts.len() - k,
    {
        assert(ps[k as int] == parts[k as int]@) by {
            assert(parts[k as int].deep_view() =~= parts[k as int]@);
        }
        let ghost before = out@;
        let ghost piece: Seq<char>;
        if k % 2 == 0 {
            push_chars(&mut out, &parts[k]);
            proof {
                piece = ps[k as int];
            }
        } else {
            let part = &parts[k];
            let value = if is_word(part, "name") {
                match name {
                    Some(v) => v,
                    None => {
                        return Err(BlobNameError::MissingPart(PathPart::Name));
                    },
                }
            } else if is_word(part, "stem") {
                match stem {
                    Some(v) => v,
                    None => {
                        return Err(BlobNameError::MissingPart(PathPart::Stem));
                    },
                }
            } else if is_word(part, "ext") {
                match ext {
                    Some(v) => v,
                    None => {
                        return Err(BlobNameError::MissingPart(PathPart::Ext));
                    },
                }
            } else {
                return Err(BlobNameError::InvalidPlaceholder(string_of(part.as_slice())));
            };
            let vs = chars_of(value);
            push_chars(&mut out, &vs);
            proof {
                piece = value@;
            }
        }
        assert(fill_from(ps, k as int, nv, sv, ev) == prefixed(piece, fill_from(ps, k + 1, nv, sv, ev)));
        assert(out@ == before + piece);
        proof {
            lemma_prefixed_assoc(before, piece, fill_from(ps, k + 1, nv, sv, ev));
        }
        k += 1;
    }
    if parts.len() % 2 == 1 {
        assert(out@ + Seq::<char>::empty() =~= out@);
        Ok(string_of(out.as_slice()))
    } else {
        Err(BlobNameError::Malformed)
    }
}

/// The names that occur more than once in `s`, each once, in the order in
/// which they first recur.
pub open spec fn repeated(s: Seq<Seq<char>>) -> Seq<Seq<char>>
    decreases s.len(),
{
    if s.len() == 0 {
        Seq::empty()
    } else {
        let d = repeated(s.drop_last());
        if s.drop_last().contains(s.last()) && !d.contains(s.last()) {
            d.push(s.last())
        } else {
            d
        }
    }
}

pub open spec fn views(v: Seq<String>) -> Seq<Seq<char>> {
    v.map_values(|s: String| s@)
}

fn contains_name(v: &Vec<String>, x: &String) -> (r: bool)
    ensures
        r == views(v@).contains(x@),
{
    let mut i: usize = 0;
    while i < v.len()
        invariant
            i <= v.len(),
            forall|j: int| 0 <= j < i ==> v@[j]@ != x@,
        decreases v.len() - i,
    {
        if v[i] == *x {
            assert(views(v@)[i as int] == x@);
            return true;
        }
        i += 1;
    }
    proof {
        if views(v@).contains(x@) {
            let j = choose|j: int| 0 <= j < views(v@).len() && views(v@)[j] == x@;
            assert(v@[j]@ == x@);
        }
    }
    false
}

/// The blob names that more than one local path would get.
pub fn repeated_names(names: &Vec<String>) -> (r: Vec<String>)
    ensures
        views(r@) == repeated(views(names@)),
{
    let ghost all = views(names@);
    let mut seen: Vec<String> = Vec::new();
    let mut dups: Vec<String> = Vec::new();
    let mut i: usize = 0;
    while i < names.len()
        invariant
            i <= names.len(),
            all == views(names@),
            views(seen@) == all.take(i as int),
            views(dups@) == repeated(all.take(i as int)),
        decreases names.len() - i,
    {
        let x = &names[i];
        assert(all.take(i + 1).drop_last() =~= all.take(i as int));
        assert(all.take(i + 1).last() == x@);
        if contains_name(&seen, x) && !contains_name(&dups, x) {
            let ghost d = views(dups@);
            dups.push(x.clone());
            assert(views(dups@) =~= d.push(x@));
        }
        let ghost sv = views(seen@);
        seen.push(x.clone());
        assert(views(seen@) =~= sv.push(x@));
        assert(all.take(i + 1) =~= all.take(i as int).push(x@));
        i += 1;
    }
    assert(all.take(i as int) =~= all);
    dups
}

fn push_chars(out: &mut Vec<char>, cs: &Vec<char>)
    ensures
        final(out)@ == old(out)@ + cs@,
{
    let mut i: usize = 0;
    while i < cs.len()
        invariant
            i <= cs.len(),
            out@ == old(out)@ + cs@.take(i as int),
        decreases cs.len() - i,
    {
        out.push(cs[i]);
        i += 1;
        assert(out@ =~= old(out)@ + cs@.take(i as int));
    }
    assert(cs@.take(i as int) =~= cs@);
}

} // verus!
