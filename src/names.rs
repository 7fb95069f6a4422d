use vstd::prelude::*;

verus! {

/// No two pairs share a name.
pub open spec fn unique_names<A>(p: Seq<(Seq<char>, A)>) -> bool {
    forall|i: int, j: int| 0 <= i < p.len() && 0 <= j < p.len() && i != j ==> p[i].0 != p[j].0
}

/// The mapping that a sequence of pairs describes (a later pair wins).
pub open spec fn map_of<A>(p: Seq<(Seq<char>, A)>) -> Map<Seq<char>, A>
    decreases p.len(),
{
    if p.len() == 0 {
        Map::empty()
    } else {
        map_of(p.drop_last()).insert(p.last().0, p.last().1)
    }
}

/// Position of `k` among the names of `p`, if it is there.
pub open spec fn position_of<A>(p: Seq<(Seq<char>, A)>, k: Seq<char>) -> Option<int> {
    if exists|i: int| 0 <= i < p.len() && p[i].0 == k {
        Some(choose|i: int| 0 <= i < p.len() && p[i].0 == k)
    } else {
        None
    }
}

/// `n` is the name of one of the first `i` pairs.
pub open spec fn listed_before<A>(p: Seq<(Seq<char>, A)>, i: int, n: Seq<char>) -> bool {
    exists|q: int| 0 <= q < i && p[q].0 == n
}

pub proof fn lemma_listed_step<A>(p: Seq<(Seq<char>, A)>, i: int, n: Seq<char>)
    requires
        0 <= i < p.len(),
    ensures
        listed_before(p, i + 1, n) <==> listed_before(p, i, n) || n == p[i].0,
{
    if listed_before(p, i + 1, n) {
        let q = choose|q: int| 0 <= q < i + 1 && p[q].0 == n;
        if q < i {
            assert(listed_before(p, i, n));
        }
    }
}

pub proof fn lemma_listed_all<A>(p: Seq<(Seq<char>, A)>, n: Seq<char>)
    ensures
        map_of(p).contains_key(n) <==> listed_before(p, p.len() as int, n),
{
    lemma_map_of_dom(p, n);
}

pub proof fn lemma_map_of_dom<A>(p: Seq<(Seq<char>, A)>, k: Seq<char>)
    ensures
        map_of(p).contains_key(k) <==> exists|i: int| 0 <= i < p.len() && p[i].0 == k,
    decreases p.len(),
{
    if p.len() > 0 {
        lemma_map_of_dom(p.drop_last(), k);
        if map_of(p.drop_last()).contains_key(k) {
            let i = choose|i: int| 0 <= i < p.drop_last().len() && p.drop_last()[i].0 == k;
            assert(p[i].0 == k);
        }
        if exists|i: int| 0 <= i < p.len() && p[i].0 == k {
            let i = choose|i: int| 0 <= i < p.len() && p[i].0 == k;
            if i < p.len() - 1 {
                assert(p.drop_last()[i].0 == k);
            }
        }
    }
}

pub proof fn lemma_map_of_index<A>(p: Seq<(Seq<char>, A)>, i: int)
    requires
        unique_names(p),
        0 <= i < p.len(),
    ensures
        map_of(p).contains_key(p[i].0),
        map_of(p)[p[i].0] == p[i].1,
    decreases p.len(),
{
    if i < p.len() - 1 {
        let q = p.drop_last();
        assert(q[i] == p[i]);
        lemma_map_of_index(q, i);
    }
}

pub proof fn lemma_map_of_push<A>(p: Seq<(Seq<char>, A)>, k: Seq<char>, v: A)
    ensures
        map_of(p.push((k, v))) == map_of(p).insert(k, v),
{
    assert(p.push((k, v)).drop_last() == p);
}

pub proof fn lemma_map_of_update<A>(p: Seq<(Seq<char>, A)>, i: int, v: A)
    requires
        unique_names(p),
        0 <= i < p.len(),
    ensures
        map_of(p.update(i, (p[i].0, v))) == map_of(p).insert(p[i].0, v),
    decreases p.len(),
{
    let q = p.update(i, (p[i].0, v));
    if i == p.len() - 1 {
        assert(q.drop_last() == p.drop_last());
    } else {
        assert(q.drop_last() == p.drop_last().update(i, (p[i].0, v)));
        lemma_map_of_update(p.drop_last(), i, v);
        assert(p.last().0 != p[i].0);
        assert(map_of(q) =~= map_of(p).insert(p[i].0, v));
    }
}

pub proof fn lemma_map_of_remove<A>(p: Seq<(Seq<char>, A)>, i: int)
    requires
        unique_names(p),
        0 <= i < p.len(),
    ensures
        map_of(p.remove(i)) == map_of(p).remove(p[i].0),
    decreases p.len(),
{
    let q = p.remove(i);
    if i == p.len() - 1 {
        assert(q == p.drop_last());
        lemma_map_of_dom(p.drop_last(), p[i].0);
        assert(!map_of(p.drop_last()).contains_key(p[i].0)) by {
            if map_of(p.drop_last()).contains_key(p[i].0) {
                let j = choose|j: int| 0 <= j < p.drop_last().len() && p.drop_last()[j].0 == p[i].0;
                assert(p[j].0 == p[i].0);
            }
        }
        assert(map_of(q) =~= map_of(p).remove(p[i].0));
    } else {
        assert(q.drop_last() == p.drop_last().remove(i));
        assert(q.last() == p.last());
        lemma_map_of_remove(p.drop_last(), i);
        assert(p.last().0 != p[i].0);
        assert(map_of(q) =~= map_of(p).remove(p[i].0));
    }
}

/// An insertion-ordered map from names to values, with unique names.
pub struct NameMap<V: DeepView> {
    entries: Vec<(String, V)>,
}

impl<V: DeepView> NameMap<V> {
    /// The (name, value) pairs in insertion order.
    pub closed spec fn pairs(&self) -> Seq<(Seq<char>, V::V)> {
        self.entries@.map_values(|e: (String, V)| (e.0@, e.1.deep_view()))
    }

    /// Well-formed: no name occurs twice.
    pub open spec fn wf(&self) -> bool {
        unique_names(self.pairs())
    }

    /// The map that the pairs describe.
    pub open spec fn map(&self) -> Map<Seq<char>, V::V> {
        map_of(self.pairs())
    }

    /// An empty map.
    pub fn new() -> (r: Self)
        ensures
            r.wf(),
            r.pairs() == Seq::<(Seq<char>, V::V)>::empty(),
            r.map() == Map::<Seq<char>, V::V>::empty(),
    {
        let r = NameMap { entries: Vec::new() };
        assert(r.pairs() =~= Seq::<(Seq<char>, V::V)>::empty());
        r
    }

    /// The number of names.
    pub fn len(&self) -> (r: usize)
        ensures
            r == self.pairs().len(),
    {
        self.entries.len()
    }

    /// The name at position `i`.
    pub fn name_at(&self, i: usize) -> (r: &String)
        requires
            i < self.pairs().len(),
        ensures
            r@ == self.pairs()[i as int].0,
    {
        &self.entries[i].0
    }

    /// The value at position `i`.
    pub fn value_at(&self, i: usize) -> (r: &V)
        requires
            i < self.pairs().len(),
        ensures
            r.deep_view() == self.pairs()[i as int].1,
    {
        &self.entries[i].1
    }

    /// The position of `name`, if it is there.
    pub fn position(&self, name: &String) -> (r: Option<usize>)
        ensures
            match r {
                Some(i) => i < self.pairs().len() && self.pairs()[i as int].0 == name@,
                None => !self.map().contains_key(name@),
            },
    {
        let mut i: usize = 0;
        while i < self.entries.len()
            invariant
                i <= self.entries.len(),
                forall|j: int| 0 <= j < i ==> self.pairs()[j].0 != name@,
            decreases self.entries.len() - i,
        {
            if self.entries[i].0 == *name {
                return Some(i);
            }
            i += 1;
        }
        proof {
            lemma_map_of_dom(self.pairs(), name@);
        }
        None
    }

    /// Whether `name` is in the map.
    pub fn contains_key(&self, name: &String) -> (r: bool)
        requires
            self.wf(),
        ensures
            r == self.map().contains_key(name@),
    {
        match self.position(name) {
            Some(i) => {
                proof {
                    lemma_map_of_index(self.pairs(), i as int);
                }
                true
            },
            None => false,
        }
    }

    /// The value of `name`, if it is there.
    pub fn get(&self, name: &String) -> (r: Option<&V>)
        requires
            self.wf(),
        ensures
            match r {
                Some(v) => self.map().contains_key(name@) && self.map()[name@] == v.deep_view(),
                None => !self.map().contains_key(name@),
            },
    {
        match self.position(name) {
            Some(i) => {
                proof {
                    lemma_map_of_index(self.pairs(), i as int);
                }
                Some(&self.entries[i].1)
            },
            None => None,
        }
    }

    /// Sets the value of `name`: in place where it is already there, else at
    /// the end.
    pub fn insert(&mut self, name: String, value: V)
        requires
            old(self).wf(),
        ensures
            final(self).wf(),
            final(self).map() == old(self).map().insert(name@, value.deep_view()),
            match position_of(old(self).pairs(), name@) {
                Some(i) => final(self).pairs() == old(self).pairs().update(i, (name@, value.deep_view())),
                None => final(self).pairs() == old(self).pairs().push((name@, value.deep_view())),
            },
    {
        let ghost p = self.pairs();
        let ghost v = value.deep_view();
        match self.position(&name) {
            Some(i) => {
                proof {
                    lemma_map_of_update(p, i as int, v);
                    assert(position_of(p, name@) == Some(i as int)) by {
                        let j = choose|j: int| 0 <= j < p.len() && p[j].0 == name@;
                        assert(j == i);
                    }
                }
                self.entries.set(i, (name, value));
                assert(self.pairs() =~= p.update(i as int, (p[i as int].0, v)));
            },
            None => {
                proof {
                    lemma_map_of_push(p, name@, v);
                    lemma_map_of_dom(p, name@);
                }
                self.entries.push((name, value));
                assert(self.pairs() =~= p.push((name@, v)));
            },
        }
    }

    /// Removes `name`, if it is there.
    pub fn remove(&mut self, name: &String)
        requires
            old(self).wf(),
        ensures
            final(self).wf(),
            final(self).map() == old(self).map().remove(name@),
    {
        let ghost p = self.pairs();
        match self.position(name) {
            Some(i) => {
                proof {
                    lemma_map_of_remove(p, i as int);
                }
                self.entries.remove(i);
                assert(self.pairs() =~= p.remove(i as int));
            },
            None => {
                assert(old(self).map().remove(name@) =~= old(self).map());
            },
        }
    }
}

/// A map from variable names to their values.
pub type VarMap = NameMap<String>;

} // verus!
