use vstd::prelude::*;

verus! {

/// One layer of backslash escaping removed: a backslash stands for the
/// character after it, and a backslash at the very end stands for nothing.
pub open spec fn unescape_text(s: Seq<char>) -> Seq<char>
    decreases s.len(),
{
    if s.len() == 0 {
        Seq::empty()
    } else if s[0] == '\\' {
        if s.len() == 1 {
            Seq::empty()
        } else {
            seq![s[1]] + unescape_text(s.skip(2))
        }
    } else {
        seq![s[0]] + unescape_text(s.skip(1))
    }
}

/// Unescapes a character sequence using bash escaping rules.
pub fn unescape(chars: Vec<char>) -> (r: Unescape)
    ensures
        r.pending() == unescape_text(chars@),
{
    let r = Unescape { chars, pos: 0 };
    assert(r.chars@.skip(0) =~= r.chars@);
    r
}

/// Bash-style unescaping, one character at a time.
pub struct Unescape {
    chars: Vec<char>,
    pos: usize,
}

impl Unescape {
    #[verifier::type_invariant]
    spec fn position_in_bounds(&self) -> bool {
        self.pos <= self.chars.len()
    }

    /// The input not read yet.
    pub closed spec fn rest(&self) -> Seq<char> {
        self.chars@.skip(self.pos as int)
    }

    /// The characters this unescaping has still to produce.
    pub open spec fn pending(&self) -> Seq<char> {
        unescape_text(self.rest())
    }

    /// The next unescaped character, if any is left.
    pub fn next(&mut self) -> (r: Option<char>)
        ensures
            old(self).pending().len() == 0 ==> r is None && final(self).pending().len() == 0,
            old(self).pending().len() > 0 ==> r == Some(old(self).pending()[0])
                && final(self).pending() == old(self).pending().drop_first(),
    {
        proof {
            use_type_invariant(&*self);
        }
        if self.pos >= self.chars.len() {
            assert(self.rest() =~= Seq::<char>::empty());
            return None;
        }
        let ghost rest = self.rest();
        let c = self.chars[self.pos];
        self.pos += 1;
        if c == '\\' {
            if self.pos < self.chars.len() {
                let d = self.chars[self.pos];
                self.pos += 1;
                assert(self.rest() =~= rest.skip(2));
                assert(unescape_text(rest) == seq![d] + unescape_text(rest.skip(2)));
                assert((seq![d] + unescape_text(rest.skip(2))).drop_first() =~= unescape_text(rest.skip(2)));
                Some(d)
            } else {
                assert(self.rest() =~= Seq::<char>::empty());
                None
            }
        } else {
            assert(self.rest() =~= rest.skip(1));
            assert((seq![c] + unescape_text(rest.skip(1))).drop_first() =~= unescape_text(rest.skip(1)));
            Some(c)
        }
    }

    /// Everything this unescaping has still to produce.
    pub fn remaining(&mut self) -> (r: Vec<char>)
        ensures
            r@ == old(self).pending(),
            final(self).pending().len() == 0,
    {
        let mut out: Vec<char> = Vec::new();
        loop
            invariant
                out@ + self.pending() == old(self).pending(),
            decreases self.pending().len(),
        {
            let ghost before = self.pending();
            match self.next() {
                Some(c) => {
                    out.push(c);
                    assert(out@ + self.pending() =~= old(self).pending());
                },
                None => {
                    assert(out@ =~= old(self).pending());
                    return out;
                },
            }
        }
    }
}

} // verus!
