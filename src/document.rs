use vstd::prelude::*;

use crate::expand::{expand, expand_all, Expansion};
use crate::grammar::{scan, scan_text, tokens_of, Token, ValueKind};
use crate::names::{lemma_listed_all, lemma_listed_step, lemma_map_of_index, listed_before, NameMap, VarMap};
use crate::sync::Timestamp;
use crate::text::{chars_of, string_of};
use crate::unescape::{unescape, unescape_text};

verus! {

/// What a document knows once some of its definitions have been read.
pub struct DocModel {
    /// The value of each name.
    pub params: Map<Seq<char>, Seq<char>>,
    /// Where the value of each name's last definition stands.
    pub spans: Map<Seq<char>, (usize, usize)>,
    /// Names whose last definition a later definition expanded.
    pub backward: Set<Seq<char>>,
    /// For each name, the names its last definition referenced while they
    /// were still unbound.
    pub missing: Map<Seq<char>, Seq<Seq<char>>>,
}

pub open spec fn no_expansion() -> Expansion {
    Expansion { text: Seq::empty(), expanded: Seq::empty(), unresolved: Seq::empty() }
}

/// The expansion that a definition's value goes through, given the values
/// defined before it.
pub open spec fn def_expansion(t: Token, env: Map<Seq<char>, Seq<char>>) -> Expansion {
    if t.kind == ValueKind::SingleQuoted {
        no_expansion()
    } else {
        expand_all(t.text, env)
    }
}

/// The value a definition gives its name: verbatim when single-quoted, else
/// expanded and then unescaped.
pub open spec fn def_value(t: Token, env: Map<Seq<char>, Seq<char>>) -> Seq<char> {
    if t.kind == ValueKind::SingleQuoted {
        t.text
    } else {
        unescape_text(expand_all(t.text, env).text)
    }
}

pub open spec fn empty_model() -> DocModel {
    DocModel { params: Map::empty(), spans: Map::empty(), backward: Set::empty(), missing: Map::empty() }
}

/// Reading one more definition: it replaces any earlier definition of its
/// name, and the names it expands become unsafe to edit in place.
pub open spec fn apply_def(m: DocModel, t: Token) -> DocModel {
    let x = def_expansion(t, m.params);
    DocModel {
        params: m.params.insert(t.name, def_value(t, m.params)),
        spans: m.spans.insert(t.name, (t.start as usize, t.end as usize)),
        backward: (m.backward + x.expanded.to_set()).remove(t.name),
        missing: m.missing.insert(t.name, x.unresolved),
    }
}

/// The model after reading `ts` in order.
pub open spec fn model_of(ts: Seq<Token>) -> DocModel
    decreases ts.len(),
{
    if ts.len() == 0 {
        empty_model()
    } else {
        apply_def(model_of(ts.drop_last()), ts.last())
    }
}

/// The last definition of `n` referenced a name that was unbound then and
/// is defined later in the file.
pub open spec fn forward_ref(m: DocModel, n: Seq<char>) -> bool {
    m.missing.contains_key(n) && exists|i: int|
        0 <= i < m.missing[n].len() && m.missing[n][i] != n && m.params.contains_key(
            #[trigger] m.missing[n][i],
        )
}

/// Names that may not be replaced in place.
pub open spec fn referenced_of(m: DocModel) -> Set<Seq<char>> {
    m.backward + Set::new(|n: Seq<char>| forward_ref(m, n))
}

/// The spans of the names that may be replaced in place.
pub open spec fn in_place_spans(m: DocModel) -> Map<Seq<char>, (usize, usize)> {
    m.spans.restrict(m.spans.dom() - referenced_of(m))
}

/// A text that does not conform to the dotenv grammar.
#[derive(Clone, Copy, PartialEq, Eq, Structural, Debug)]
pub struct ParseError {
    /// Index, from 0, of the first line that does not conform.
    pub line: usize,
}

/// A loaded dotenv file.
pub struct DotenvFile {
    /// The source text of the file, as it was read.
    source: String,
    /// The variables defined in the file.
    parameters: VarMap,
    /// Where the value of each variable that may be replaced in place
    /// stands in the source, in characters.
    value_spans: NameMap<(usize, usize)>,
    /// Variables that may not be replaced in place: a later definition
    /// expanded them, or they expand a name defined later.
    referenced: NameMap<()>,
    /// The last modified date, if available.
    last_modified: Option<Timestamp>,
}

impl DotenvFile {
    pub closed spec fn source_view(&self) -> Seq<char> {
        self.source@
    }

    pub closed spec fn modified(&self) -> Option<Timestamp> {
        self.last_modified
    }

    /// When the file was last modified, where that is known.
    pub fn last_modified(&self) -> (r: Option<Timestamp>)
        ensures
            r == self.modified(),
    {
        self.last_modified
    }

    /// The value of each variable.
    pub closed spec fn params(&self) -> Map<Seq<char>, Seq<char>> {
        self.parameters.map()
    }

    /// Where the value of each variable that may be replaced in place stands.
    pub closed spec fn spans(&self) -> Map<Seq<char>, (usize, usize)> {
        self.value_spans.map()
    }

    /// The variables that may not be replaced in place.
    pub closed spec fn referenced_set(&self) -> Set<Seq<char>> {
        self.referenced.map().dom()
    }

    pub closed spec fn wf(&self) -> bool {
        &&& self.parameters.wf()
        &&& self.value_spans.wf()
        &&& self.referenced.wf()
        &&& forall|n: Seq<char>| #[trigger]
            self.value_spans.map().contains_key(n) ==> self.value_spans.map()[n].0
                <= self.value_spans.map()[n].1 <= self.source@.len()
    }

    /// The document that a text whose definitions are `ts` gives.
    pub open spec fn is_model_of(&self, source: Seq<char>, ts: Seq<Token>) -> bool {
        let m = model_of(ts);
        &&& self.source_view() == source
        &&& self.params() == m.params
        &&& self.spans() == in_place_spans(m)
        &&& self.referenced_set() == referenced_of(m)
    }

    /// An empty document.
    pub fn empty() -> (r: DotenvFile)
        ensures
            r.wf(),
            r.is_model_of(Seq::empty(), Seq::empty()),
            r.modified() is None,
    {
        let r = DotenvFile {
            source: String::new(),
            parameters: NameMap::new(),
            value_spans: NameMap::new(),
            referenced: NameMap::new(),
            last_modified: None,
        };
        assert(in_place_spans(empty_model()) =~= Map::empty());
        assert(referenced_of(empty_model()) =~= Set::empty());
        r
    }

    /// The source text, as it was read.
    pub fn source(&self) -> (r: &String)
        ensures
            r@ == self.source_view(),
    {
        &self.source
    }

    /// The variables defined in the file.
    pub fn parameters(&self) -> (r: &VarMap)
        requires
            self.wf(),
        ensures
            r.wf(),
            r.map() == self.params(),
    {
        &self.parameters
    }

    /// Where the value of `name` stands, if it may be replaced in place.
    pub fn value_span(&self, name: &String) -> (r: Option<(usize, usize)>)
        requires
            self.wf(),
        ensures
            match r {
                Some(s) => self.spans().contains_key(name@) && self.spans()[name@] == s && s.0 <= s.1
                    <= self.source_view().len(),
                None => !self.spans().contains_key(name@),
            },
    {
        match self.value_spans.get(name) {
            Some(s) => Some(*s),
            None => None,
        }
    }

    /// Whether `name` may not be replaced in place.
    pub fn is_referenced(&self, name: &String) -> (r: bool)
        requires
            self.wf(),
        ensures
            r == self.referenced_set().contains(name@),
    {
        self.referenced.contains_key(name)
    }

    /// Parses a text as a dotenv file.
    ///
    /// Definitions are read top to bottom: a value is expanded against the
    /// values defined above it, and a later definition of a name replaces an
    /// earlier one.
    pub fn parse(source: &str) -> (r: Result<DotenvFile, ParseError>)
        ensures
            match scan_text(source@) {
                Ok(ts) => r is Ok && r->Ok_0.wf() && r->Ok_0.is_model_of(source@, ts)
                    && r->Ok_0.modified() is None,
                Err(l) => r is Err && r->Err_0.line == l,
            },
    {
        let chars = chars_of(source);
        let defs = match scan(chars.as_slice()) {
            Ok(defs) => defs,
            Err(line) => {
                return Err(ParseError { line });
            },
        };
        let ghost ts = tokens_of(defs@);
        let mut parameters: VarMap = NameMap::new();
        let mut spans: NameMap<(usize, usize)> = NameMap::new();
        let mut backward: NameMap<()> = NameMap::new();
        let mut missing: NameMap<Vec<String>> = NameMap::new();
        let mut k: usize = 0;
        while k < defs.len()
            invariant
                k <= defs.len(),
                ts == tokens_of(defs@),
                forall|j: int| 0 <= j < defs.len() ==> (#[trigger] defs[j]).start <= defs[j].end <= chars.len(),
                parameters.wf(),
                spans.wf(),
                backward.wf(),
                missing.wf(),
                parameters.map() == model_of(ts.take(k as int)).params,
                spans.map() == model_of(ts.take(k as int)).spans,
                backward.map().dom() == model_of(ts.take(k as int)).backward,
                missing.map() == model_of(ts.take(k as int)).missing,
                forall|n: Seq<char>| #[trigger]
                    spans.map().contains_key(n) ==> spans.map()[n].0 <= spans.map()[n].1 <= chars.len(),
            decreases defs.len() - k,
        {
            let d = &defs[k];
            let ghost t = ts[k as int];
            let ghost m = model_of(ts.take(k as int));
            assert(ts.take(k + 1).drop_last() =~= ts.take(k as int));
            assert(t == d@);
            let (value, expanded, unresolved) = if d.kind == ValueKind::SingleQuoted {
                let v = string_of(d.text.as_slice());
                let e: Vec<String> = Vec::new();
                let u: Vec<String> = Vec::new();
                assert(e@.map_values(|s: String| s@) =~= Seq::<Seq<char>>::empty());
                assert(u@.map_values(|s: String| s@) =~= Seq::<Seq<char>>::empty());
                (v, e, u)
            } else {
                let mut ex = expand(d.text.clone(), &parameters);
                let out = ex.remaining();
                let (e, u) = ex.into_names();
                let mut un = unescape(out);
                let v = un.remaining();
                assert(e@.map_values(|s: String| s@) =~= def_expansion(t, m.params).expanded);
                assert(u@.map_values(|s: String| s@) =~= def_expansion(t, m.params).unresolved);
                (string_of(v.as_slice()), e, u)
            };
            let ghost exp = expanded@.map_values(|s: String| s@);
            assert(unresolved.deep_view() =~= unresolved@.map_values(|s: String| s@));
            let mut j: usize = 0;
            while j < expanded.len()
                invariant
                    j <= expanded.len(),
                    exp == expanded@.map_values(|s: String| s@),
                    backward.wf(),
                    backward.map().dom() == m.backward + exp.take(j as int).to_set(),
                decreases expanded.len() - j,
            {
                let ghost before = backward.map().dom();
                backward.insert(expanded[j].clone(), ());
                assert(backward.map().dom() =~= m.backward + exp.take(j + 1).to_set()) by {
                    assert(exp.take(j + 1) =~= exp.take(j as int) + seq![exp[j as int]]);
                    Seq::lemma_to_set_insert_commutes(exp.take(j as int), exp[j as int]);
                }
                j += 1;
            }
            assert(exp.take(j as int) =~= exp);
            backward.remove(&d.name);
            missing.insert(d.name.clone(), unresolved);
            parameters.insert(d.name.clone(), value);
            spans.insert(d.name.clone(), (d.start, d.end));
            assert(backward.map().dom() =~= model_of(ts.take(k + 1)).backward);
            k += 1;
        }
        assert(ts.take(k as int) =~= ts);
        let ghost m = model_of(ts);
        let referenced = Self::referenced_names(&parameters, backward, &missing);
        let mut value_spans: NameMap<(usize, usize)> = NameMap::new();
        let mut i: usize = 0;
        while i < spans.len()
            invariant
                i <= spans.pairs().len(),
                spans.wf(),
                referenced.wf(),
                value_spans.wf(),
                spans.map() == m.spans,
                referenced.map().dom() == referenced_of(m),
                forall|n: Seq<char>| #[trigger]
                    spans.map().contains_key(n) ==> spans.map()[n].0 <= spans.map()[n].1 <= chars.len(),
                value_spans.map() == m.spans.restrict(
                    Set::new(|n: Seq<char>| listed_before(spans.pairs(), i as int, n))
                        - referenced_of(m),
                ),
            decreases spans.pairs().len() - i,
        {
            let name = spans.name_at(i);
            proof {
                lemma_map_of_index(spans.pairs(), i as int);
            }
            if !referenced.contains_key(name) {
                value_spans.insert(name.clone(), *spans.value_at(i));
            }
            assert(value_spans.map() =~= m.spans.restrict(
                Set::new(|n: Seq<char>| listed_before(spans.pairs(), i + 1, n))
                    - referenced_of(m),
            )) by {
                assert forall|n: Seq<char>| #[trigger] listed_before(spans.pairs(), i + 1, n)
                    <==> (listed_before(spans.pairs(), i as int, n) || n == name@) by {
                    lemma_listed_step(spans.pairs(), i as int, n);
                }
            }
            i += 1;
        }
        assert(value_spans.map() =~= in_place_spans(m)) by {
            assert forall|n: Seq<char>| m.spans.contains_key(n) implies
                (listed_before(spans.pairs(), i as int, n)) by {
                crate::names::lemma_map_of_dom(spans.pairs(), n);
            }
        }
        Ok(DotenvFile {
            source: string_of(chars.as_slice()),
            parameters,
            value_spans,
            referenced,
            last_modified: None,
        })
    }

    /// The names that may not be replaced in place: those a later
    /// definition expanded, and those whose last definition referenced a
    /// name defined later.
    fn referenced_names(
        parameters: &VarMap,
        backward: NameMap<()>,
        missing: &NameMap<Vec<String>>,
    ) -> (r: NameMap<()>)
        requires
            parameters.wf(),
            backward.wf(),
            missing.wf(),
        ensures
            r.wf(),
            r.map().dom() == backward.map().dom() + Set::new(
                |n: Seq<char>|
                    forward_ref(
                        DocModel {
                            params: parameters.map(),
                            spans: Map::empty(),
                            backward: Set::empty(),
                            missing: missing.map(),
                        },
                        n,
                    ),
            ),
    {
        let ghost fm = DocModel {
            params: parameters.map(),
            spans: Map::empty(),
            backward: Set::empty(),
            missing: missing.map(),
        };
        let ghost b0 = backward.map().dom();
        let mut r = backward;
        let mut i: usize = 0;
        while i < missing.len()
            invariant
                i <= missing.pairs().len(),
                parameters.wf(),
                missing.wf(),
                r.wf(),
                fm.params == parameters.map(),
                fm.missing == missing.map(),
                r.map().dom() == b0 + Set::new(
                    |n: Seq<char>|
                        forward_ref(fm, n) && listed_before(missing.pairs(), i as int, n),
                ),
            decreases missing.pairs().len() - i,
        {
            let name = missing.name_at(i);
            let list = missing.value_at(i);
            proof {
                lemma_map_of_index(missing.pairs(), i as int);
            }
            let mut found = false;
            let mut j: usize = 0;
            while j < list.len()
                invariant
                    j <= list.len(),
                    parameters.wf(),
                    fm.params == parameters.map(),
                    list.deep_view() == fm.missing[name@],
                    found == exists|q: int|
                        0 <= q < j && fm.missing[name@][q] != name@ && fm.params.contains_key(
                            #[trigger] fm.missing[name@][q],
                        ),
                decreases list.len() - j,
            {
                assert(list.deep_view()[j as int] == list[j as int]@);
                if list[j] != *name && parameters.contains_key(&list[j]) {
                    found = true;
                }
                j += 1;
            }
            let ghost before = r.map().dom();
            if found {
                r.insert(name.clone(), ());
            }
            assert(r.map().dom() =~= b0 + Set::new(
                |n: Seq<char>|
                    forward_ref(fm, n) && listed_before(missing.pairs(), i + 1, n),
            )) by {
                assert forall|n: Seq<char>| #[trigger] listed_before(missing.pairs(), i + 1, n)
                    <==> (listed_before(missing.pairs(), i as int, n) || n == name@) by {
                    lemma_listed_step(missing.pairs(), i as int, n);
                }
            }
            i += 1;
        }
        assert(r.map().dom() =~= b0 + Set::new(|n: Seq<char>| forward_ref(fm, n))) by {
            assert forall|n: Seq<char>| forward_ref(fm, n) implies
                (listed_before(missing.pairs(), i as int, n)) by {
                crate::names::lemma_map_of_dom(missing.pairs(), n);
            }
        }
        r
    }

    /// The same document, loaded from storage last modified at `t`.
    pub fn with_last_modified(self, t: Option<Timestamp>) -> (r: DotenvFile)
        ensures
            r.source_view() == self.source_view(),
            r.params() == self.params(),
            r.spans() == self.spans(),
            r.referenced_set() == self.referenced_set(),
            self.wf() ==> r.wf(),
            r.modified() == t,
    {
        DotenvFile { last_modified: t, ..self }
    }
}

impl Default for DotenvFile {
    fn default() -> (r: DotenvFile)
        ensures
            r.wf(),
            r.is_model_of(Seq::empty(), Seq::empty()),
            r.modified() is None,
    {
        DotenvFile::empty()
    }
}

} // verus!
