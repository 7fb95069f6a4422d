use vstd::prelude::*;

use crate::names::VarMap;
use crate::text::{chars_of, string_of};

verus! {

/// Whether `c` has the Unicode Alphabetic property.
pub uninterp spec fn alphabetic(c: char) -> bool;

/// Relies on `char::is_alphabetic`: its result depends on the character alone.
#[verifier::external_body]
fn is_alphabetic(c: char) -> (r: bool)
    ensures
        r == alphabetic(c),
{
    c.is_alphabetic()
}

/// A character that may start a parameter name.
pub open spec fn is_name_start(c: char) -> bool {
    c == '_' || alphabetic(c)
}

/// A character that may continue a parameter name.
pub open spec fn is_name_char(c: char) -> bool {
    is_name_start(c) || ('0' <= c && c <= '9')
}

/// Whether `c` may start a parameter name.
pub fn name_start(c: char) -> (r: bool)
    ensures
        r == is_name_start(c),
{
    c == '_' || is_alphabetic(c)
}

/// Whether `c` may continue a parameter name.
pub fn name_char(c: char) -> (r: bool)
    ensures
        r == is_name_char(c),
{
    name_start(c) || ('0' <= c && c <= '9')
}

/// What an expansion produces: the text, the names that were substituted,
/// and the names that were referenced while unbound, each in order.
pub struct Expansion {
    pub text: Seq<char>,
    pub expanded: Seq<Seq<char>>,
    pub unresolved: Seq<Seq<char>>,
}

/// `cs` emitted verbatim in front of `e`.
pub open spec fn emit(cs: Seq<char>, e: Expansion) -> Expansion {
    Expansion { text: cs + e.text, ..e }
}

/// A reference to `name` in front of `e`: its value where it is bound,
/// nothing where it is not.
pub open spec fn substitute(p: Map<Seq<char>, Seq<char>>, name: Seq<char>, e: Expansion) -> Expansion {
    if p.contains_key(name) {
        Expansion { text: p[name] + e.text, expanded: seq![name] + e.expanded, unresolved: e.unresolved }
    } else {
        Expansion { text: e.text, expanded: e.expanded, unresolved: seq![name] + e.unresolved }
    }
}

/// Bash-style parameter expansion of `s` against `p`: `$NAME` and `${NAME}`
/// are replaced by the value of `NAME` (nothing where it is unbound), a
/// backslash keeps the character after it from starting an expansion (both
/// are kept), and substituted values are not scanned again.
pub open spec fn expand_all(s: Seq<char>, p: Map<Seq<char>, Seq<char>>) -> Expansion
    decreases s.len(), 1nat,
{
    if s.len() == 0 {
        Expansion { text: Seq::empty(), expanded: Seq::empty(), unresolved: Seq::empty() }
    } else if s[0] == '\\' {
        if s.len() == 1 {
            emit(seq!['\\'], expand_all(s.skip(1), p))
        } else {
            emit(seq!['\\', s[1]], expand_all(s.skip(2), p))
        }
    } else if s[0] == '$' && s.len() >= 2 && s[1] == '{' {
        expand_braced(Seq::empty(), false, s.skip(2), p)
    } else if s[0] == '$' && s.len() >= 2 && is_name_start(s[1]) {
        expand_unbraced(seq![s[1]], s.skip(2), p)
    } else {
        emit(seq![s[0]], expand_all(s.skip(1), p))
    }
}

/// The rest of a braced reference `${name...`: name characters extend the
/// name, any other character but `}` spoils it (`invalid`), `}` closes it
/// (a spoiled or unbound name gives nothing), and where the input ends first
/// `${` and the name characters read are given back.
pub open spec fn expand_braced(
    name: Seq<char>,
    invalid: bool,
    rest: Seq<char>,
    p: Map<Seq<char>, Seq<char>>,
) -> Expansion
    decreases rest.len(), 2nat,
{
    if rest.len() == 0 {
        emit(seq!['$', '{'] + name, expand_all(rest, p))
    } else if is_name_char(rest[0]) {
        expand_braced(name.push(rest[0]), invalid, rest.skip(1), p)
    } else if rest[0] == '}' {
        if invalid {
            expand_all(rest.skip(1), p)
        } else {
            substitute(p, name, expand_all(rest.skip(1), p))
        }
    } else {
        expand_braced(name, true, rest.skip(1), p)
    }
}

/// The rest of an unbraced reference `$name...`: the name takes every name
/// character that follows.
pub open spec fn expand_unbraced(name: Seq<char>, rest: Seq<char>, p: Map<Seq<char>, Seq<char>>) -> Expansion
    decreases rest.len(), 2nat,
{
    if rest.len() > 0 && is_name_char(rest[0]) {
        expand_unbraced(name.push(rest[0]), rest.skip(1), p)
    } else {
        substitute(p, name, expand_all(rest, p))
    }
}

/// Where the expansion stands between two characters.
enum State {
    /// Normal characters outside of an expansion.
    NotExpanding,
    /// A backslash was read: the next character is passed on unexpanded.
    Escape,
    /// These characters are to be returned first.
    Buffered { value: Vec<char>, at: usize },
    /// A `$` was read.
    StartExpansion,
    /// Inside `${...}`.
    BracedExpansion { name: Vec<char>, invalid: bool },
    /// Inside `$name`.
    UnbracedExpansion { name: Vec<char> },
}

/// Performs bash-style parameter expansion on a character sequence.
pub fn expand<'a>(chars: Vec<char>, parameters: &'a VarMap) -> (r: Expand<'a>)
    requires
        parameters.wf(),
    ensures
        r.wf(),
        r.params() == parameters.map(),
        r.pending() == expand_all(chars@, parameters.map()),
        r.expanded_so_far() == Seq::<Seq<char>>::empty(),
        r.unresolved_so_far() == Seq::<Seq<char>>::empty(),
{
    let r = Expand {
        chars,
        pos: 0,
        parameters,
        state: State::NotExpanding,
        expanded: Vec::new(),
        unresolved: Vec::new(),
    };
    assert(r.rest() =~= r.chars@);
    r
}

/// Bash-style parameter expansion, one character at a time. It keeps the
/// names it substitutes and those it finds unbound.
pub struct Expand<'a> {
    chars: Vec<char>,
    pos: usize,
    parameters: &'a VarMap,
    state: State,
    expanded: Vec<String>,
    unresolved: Vec<String>,
}

impl<'a> Expand<'a> {
    /// The input not read yet.
    closed spec fn rest(&self) -> Seq<char> {
        self.chars@.skip(self.pos as int)
    }

    /// The parameters expanded against.
    pub closed spec fn params(&self) -> Map<Seq<char>, Seq<char>> {
        self.parameters.map()
    }

    pub closed spec fn wf(&self) -> bool {
        &&& self.pos <= self.chars.len()
        &&& self.parameters.wf()
        &&& match self.state {
            State::Buffered { value, at } => at <= value.len(),
            _ => true,
        }
    }

    /// What this expansion has still to produce.
    pub closed spec fn pending(&self) -> Expansion {
        let p = self.params();
        let rest = self.rest();
        match self.state {
            State::NotExpanding => expand_all(rest, p),
            State::Escape => expand_all(seq!['\\'] + rest, p),
            State::Buffered { value, at } => emit(value@.skip(at as int), expand_all(rest, p)),
            State::StartExpansion => expand_all(seq!['$'] + rest, p),
            State::BracedExpansion { name, invalid } => expand_braced(name@, invalid, rest, p),
            State::UnbracedExpansion { name } => expand_unbraced(name@, rest, p),
        }
    }

    /// The names substituted so far, in order.
    pub closed spec fn expanded_so_far(&self) -> Seq<Seq<char>> {
        self.expanded@.map_values(|s: String| s@)
    }

    /// The names found unbound so far, in order.
    pub closed spec fn unresolved_so_far(&self) -> Seq<Seq<char>> {
        self.unresolved@.map_values(|s: String| s@)
    }

    spec fn rank(&self) -> nat {
        3 * self.rest().len() + match self.state {
            State::NotExpanding => 0nat,
            State::Buffered { .. } => 1nat,
            _ => 2nat,
        }
    }

    /// The next expanded character, if any is left.
    pub fn next(&mut self) -> (r: Option<char>)
        requires
            old(self).wf(),
        ensures
            final(self).wf(),
            final(self).params() == old(self).params(),
            old(self).pending().text.len() == 0 ==> r is None,
            r is None ==> final(self).pending().text.len() == 0 && final(self).pending().expanded.len()
                == 0 && final(self).pending().unresolved.len() == 0,
            old(self).pending().text.len() > 0 ==> r == Some(old(self).pending().text[0])
                && final(self).pending().text == old(self).pending().text.drop_first(),
            final(self).expanded_so_far() + final(self).pending().expanded == old(self).expanded_so_far()
                + old(self).pending().expanded,
            final(self).unresolved_so_far() + final(self).pending().unresolved
                == old(self).unresolved_so_far() + old(self).pending().unresolved,
    {
        let ghost p = self.params();
        let ghost text0 = self.pending().text;
        let ghost exp0 = self.expanded_so_far() + self.pending().expanded;
        let ghost unr0 = self.unresolved_so_far() + self.pending().unresolved;
        loop
            invariant
                self.wf(),
                p == old(self).params(),
                text0 == old(self).pending().text,
                exp0 == old(self).expanded_so_far() + old(self).pending().expanded,
                unr0 == old(self).unresolved_so_far() + old(self).pending().unresolved,
                self.params() == p,
                self.pending().text == text0,
                self.expanded_so_far() + self.pending().expanded == exp0,
                self.unresolved_so_far() + self.pending().unresolved == unr0,
            decreases self.rank(),
        {
            let ghost rest = self.rest();
            let ghost pend = self.pending();
            let mut st = State::NotExpanding;
            core::mem::swap(&mut self.state, &mut st);
            match st {
                State::NotExpanding => {
                    if self.pos >= self.chars.len() {
                        assert(rest =~= Seq::<char>::empty());
                        return None;
                    }
                    let c = self.chars[self.pos];
                    self.pos += 1;
                    assert(self.rest() =~= rest.skip(1));
                    if c == '$' {
                        self.state = State::StartExpansion;
                        assert(seq!['$'] + rest.skip(1) =~= rest);
                        continue;
                    } else if c == '\\' {
                        self.state = State::Escape;
                        assert(seq!['\\'] + rest.skip(1) =~= rest);
                        continue;
                    }
                    assert(pend.text.drop_first() =~= self.pending().text);
                    return Some(c);
                },
                State::Escape => {
                    let ghost s = seq!['\\'] + rest;
                    let mut value: Vec<char> = Vec::new();
                    value.push('\\');
                    if self.pos < self.chars.len() {
                        value.push(self.chars[self.pos]);
                        self.pos += 1;
                        assert(s.skip(2) =~= self.rest());
                        assert(value@ =~= seq!['\\', s[1]]);
                    } else {
                        assert(s.skip(1) =~= self.rest());
                        assert(value@ =~= seq!['\\']);
                    }
                    self.state = State::Buffered { value, at: 0 };
                    assert(value@.skip(0) =~= value@);
                    continue;
                },
                State::Buffered { value, at } => {
                    if at < value.len() {
                        let c = value[at];
                        self.state = State::Buffered { value, at: at + 1 };
                        assert(value@.skip(at as int).drop_first() =~= value@.skip(at + 1));
                        assert(pend.text.drop_first() =~= self.pending().text);
                        return Some(c);
                    }
                    assert(value@.skip(at as int) + expand_all(rest, p).text =~= expand_all(rest, p).text);
                    continue;
                },
                State::StartExpansion => {
                    let ghost s = seq!['$'] + rest;
                    if self.pos < self.chars.len() && self.chars[self.pos] == '{' {
                        self.pos += 1;
                        assert(s.skip(2) =~= self.rest());
                        let name: Vec<char> = Vec::new();
                        assert(name@ =~= Seq::<char>::empty());
                        self.state = State::BracedExpansion { name, invalid: false };
                        continue;
                    }
                    if self.pos < self.chars.len() && name_start(self.chars[self.pos]) {
                        let c = self.chars[self.pos];
                        self.pos += 1;
                        assert(s.skip(2) =~= self.rest());
                        let mut name: Vec<char> = Vec::new();
                        name.push(c);
                        assert(name@ =~= seq![s[1]]);
                        self.state = State::UnbracedExpansion { name };
                        continue;
                    }
                    assert(s.skip(1) =~= rest);
                    assert(pend.text.drop_first() =~= self.pending().text);
                    return Some('$');
                },
                State::BracedExpansion { mut name, invalid } => {
                    if self.pos < self.chars.len() {
                        let c = self.chars[self.pos];
                        self.pos += 1;
                        assert(self.rest() =~= rest.skip(1));
                        if name_char(c) {
                            name.push(c);
                            self.state = State::BracedExpansion { name, invalid };
                            continue;
                        }
                        if c == '}' && !invalid {
                            let key = string_of(name.as_slice());
                            match self.parameters.get(&key) {
                                Some(v) => {
                                    let ghost before = self.expanded_so_far();
                                    self.expanded.push(key);
                                    assert(self.expanded_so_far() =~= before.push(name@));
                                    let value = chars_of(v.as_str());
                                    self.state = State::Buffered { value, at: 0 };
                                    assert(value@.skip(0) =~= value@);
                                    assert(self.expanded_so_far() + self.pending().expanded =~= before
                                        + pend.expanded);
                                },
                                None => {
                                    let ghost before = self.unresolved_so_far();
                                    self.unresolved.push(key);
                                    assert(self.unresolved_so_far() =~= before.push(name@));
                                    assert(self.unresolved_so_far() + self.pending().unresolved
                                        =~= before + pend.unresolved);
                                },
                            }
                            continue;
                        }
                        if c == '}' {
                            continue;
                        }
                        self.state = State::BracedExpansion { name, invalid: true };
                        continue;
                    }
                    assert(rest =~= Seq::<char>::empty());
                    let mut value: Vec<char> = Vec::new();
                    value.push('$');
                    value.push('{');
                    let mut i: usize = 0;
                    while i < name.len()
                        invariant
                            i <= name.len(),
                            value@ == seq!['$', '{'] + name@.take(i as int),
                        decreases name.len() - i,
                    {
                        value.push(name[i]);
                        i += 1;
                        assert(value@ =~= seq!['$', '{'] + name@.take(i as int));
                    }
                    assert(name@.take(i as int) =~= name@);
                    assert(value@.skip(0) =~= value@);
                    self.state = State::Buffered { value, at: 0 };
                    continue;
                },
                State::UnbracedExpansion { mut name } => {
                    if self.pos < self.chars.len() && name_char(self.chars[self.pos]) {
                        let c = self.chars[self.pos];
                        self.pos += 1;
                        assert(self.rest() =~= rest.skip(1));
                        name.push(c);
                        self.state = State::UnbracedExpansion { name };
                        continue;
                    }
                    let key = string_of(name.as_slice());
                    match self.parameters.get(&key) {
                        Some(v) => {
                            let ghost before = self.expanded_so_far();
                            self.expanded.push(key);
                            assert(self.expanded_so_far() =~= before.push(name@));
                            let value = chars_of(v.as_str());
                            self.state = State::Buffered { value, at: 0 };
                            assert(value@.skip(0) =~= value@);
                            assert(self.expanded_so_far() + self.pending().expanded =~= before
                                + pend.expanded);
                        },
                        None => {
                            let ghost before = self.unresolved_so_far();
                            self.unresolved.push(key);
                            assert(self.unresolved_so_far() =~= before.push(name@));
                            assert(self.unresolved_so_far() + self.pending().unresolved
                                =~= before + pend.unresolved);
                        },
                    }
                    continue;
                },
            }
        }
    }

    /// Everything this expansion has still to produce; the names it meets
    /// are recorded as it goes.
    pub fn remaining(&mut self) -> (r: Vec<char>)
        requires
            old(self).wf(),
        ensures
            final(self).wf(),
            final(self).params() == old(self).params(),
            r@ == old(self).pending().text,
            final(self).expanded_so_far() == old(self).expanded_so_far() + old(self).pending().expanded,
            final(self).unresolved_so_far() == old(self).unresolved_so_far()
                + old(self).pending().unresolved,
    {
        let mut out: Vec<char> = Vec::new();
        loop
            invariant
                self.wf(),
                self.params() == old(self).params(),
                out@ + self.pending().text == old(self).pending().text,
                self.expanded_so_far() + self.pending().expanded == old(self).expanded_so_far()
                    + old(self).pending().expanded,
                self.unresolved_so_far() + self.pending().unresolved == old(self).unresolved_so_far()
                    + old(self).pending().unresolved,
            decreases self.pending().text.len(),
        {
            match self.next() {
                Some(c) => {
                    out.push(c);
                    assert(out@ + self.pending().text =~= old(self).pending().text);
                },
                None => {
                    assert(out@ =~= old(self).pending().text);
                    assert(self.expanded_so_far() + self.pending().expanded =~= self.expanded_so_far());
                    assert(self.unresolved_so_far() + self.pending().unresolved
                        =~= self.unresolved_so_far());
                    return out;
                },
            }
        }
    }

    /// Ends the expansion, giving back the names it substituted and the
    /// names it found unbound.
    pub fn into_names(self) -> (r: (Vec<String>, Vec<String>))
        ensures
            r.0@.map_values(|s: String| s@) == self.expanded_so_far(),
            r.1@.map_values(|s: String| s@) == self.unresolved_so_far(),
    {
        (self.expanded, self.unresolved)
    }

    /// The names substituted so far, in the order they were expanded.
    pub fn expanded_names(&self) -> (r: &Vec<String>)
        ensures
            r@.map_values(|s: String| s@) == self.expanded_so_far(),
    {
        &self.expanded
    }

    /// The names referenced while unbound so far, in order.
    pub fn unresolved_names(&self) -> (r: &Vec<String>)
        ensures
            r@.map_values(|s: String| s@) == self.unresolved_so_far(),
    {
        &self.unresolved
    }
}

} // verus!
