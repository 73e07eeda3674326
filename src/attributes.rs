//! The attributes of a tag: a mapping from keys to values, both borrowed from
//! the parsed text.
use vstd::prelude::*;
use crate::grammar::{PairChars, pairs_map};
use crate::text::same_text;

verus! {

/// The pair at `i` is the last one in `ps` with key `k`.
pub open spec fn last_with_key(ps: Seq<PairChars>, k: Seq<char>, i: int) -> bool {
    &&& 0 <= i < ps.len()
    &&& ps[i].0 == k
    &&& forall|j: int| i < j < ps.len() ==> (#[trigger] ps[j]).0 != k
}

/// A key is mapped exactly when some pair has it, and to the value of the last
/// pair that has it.
pub proof fn lemma_pairs_map_lookup(ps: Seq<PairChars>, k: Seq<char>)
    ensures
        pairs_map(ps).contains_key(k) <==> exists|i: int| 0 <= i < ps.len() && (#[trigger] ps[i]).0 == k,
        forall|i: int| last_with_key(ps, k, i) ==> pairs_map(ps)[k] == (#[trigger] ps[i]).1,
    decreases ps.len(),
{
    if ps.len() > 0 {
        let init = ps.drop_last();
        lemma_pairs_map_lookup(init, k);
        if ps.last().0 != k {
            assert forall|i: int| last_with_key(ps, k, i) implies last_with_key(init, k, i) by {
                assert(i != ps.len() - 1);
                assert forall|j: int| i < j < init.len() implies (#[trigger] init[j]).0 != k by {
                    assert(init[j] == ps[j]);
                }
            }
            if pairs_map(ps).contains_key(k) {
                let i = choose|i: int| 0 <= i < init.len() && (#[trigger] init[i]).0 == k;
                assert(ps[i] == init[i]);
            }
            if exists|i: int| 0 <= i < ps.len() && (#[trigger] ps[i]).0 == k {
                let i = choose|i: int| 0 <= i < ps.len() && (#[trigger] ps[i]).0 == k;
                assert(init[i] == ps[i]);
            }
        } else {
            assert forall|i: int| last_with_key(ps, k, i) implies i == ps.len() - 1 by {
                if i < ps.len() - 1 {
                    assert(ps[ps.len() - 1].0 != k);
                }
            }
            assert(ps[ps.len() - 1].0 == k);
        }
    }
}

/// Setting the value of the last pair with a key sets the key in the mapping.
pub proof fn lemma_pairs_map_update(ps: Seq<PairChars>, i: int, v: Seq<char>)
    requires
        last_with_key(ps, ps[i].0, i),
    ensures
        pairs_map(ps.update(i, (ps[i].0, v))) == pairs_map(ps).insert(ps[i].0, v),
    decreases ps.len(),
{
    let k = ps[i].0;
    let qs = ps.update(i, (k, v));
    if i == ps.len() - 1 {
        assert(qs.drop_last() =~= ps.drop_last());
        assert(pairs_map(qs) =~= pairs_map(ps).insert(k, v));
    } else {
        let init = ps.drop_last();
        assert(ps.last().0 != k);
        assert forall|j: int| i < j < init.len() implies (#[trigger] init[j]).0 != k by {
            assert(init[j] == ps[j]);
        }
        lemma_pairs_map_update(init, i, v);
        assert(qs.drop_last() =~= init.update(i, (k, v)));
        assert(pairs_map(qs) =~= pairs_map(ps).insert(k, v));
    }
}

/// HTML attributes: each key, borrowed from the parsed text, mapped to its
/// value. Keys are unique; setting a key again replaces its value.
#[derive(Debug)]
pub struct Attributes<'i> {
    kvs: Vec<(&'i str, &'i str)>,
}

impl<'i> View for Attributes<'i> {
    type V = Map<Seq<char>, Seq<char>>;

    closed spec fn view(&self) -> Map<Seq<char>, Seq<char>> {
        pairs_map(self.pairs())
    }
}

impl<'i> Attributes<'i> {
    /// The entries in the order of their first insertion, as characters.
    closed spec fn pairs(&self) -> Seq<PairChars> {
        self.kvs@.map_values(|p: (&'i str, &'i str)| (p.0@, p.1@))
    }

    #[verifier::type_invariant]
    closed spec fn keys_unique(&self) -> bool {
        forall|i: int, j: int|
            0 <= i < j < self.kvs@.len() ==> (#[trigger] self.kvs@[i]).0@ != (#[trigger] self.kvs@[j]).0@
    }

    /// No attributes.
    pub fn new() -> (r: Attributes<'i>)
        ensures
            r@ == Map::<Seq<char>, Seq<char>>::empty(),
    {
        let r = Attributes { kvs: Vec::new() };
        assert(r.pairs() =~= Seq::<PairChars>::empty());
        r
    }

    /// The index of the entry with key `k`, if there is one.
    fn find(&self, k: &str) -> (r: Option<usize>)
        ensures
            match r {
                Some(i) => i < self.kvs@.len() && last_with_key(self.pairs(), k@, i as int),
                None => forall|i: int| 0 <= i < self.kvs@.len() ==> (#[trigger] self.kvs@[i]).0@ != k@,
            },
    {
        let mut i: usize = 0;
        while i < self.kvs.len()
            invariant
                i <= self.kvs@.len(),
                forall|j: int| 0 <= j < i ==> (#[trigger] self.kvs@[j]).0@ != k@,
            decreases self.kvs@.len() - i,
        {
            if same_text(self.kvs[i].0, k) {
                proof {
                    use_type_invariant(self);
                }
                assert forall|j: int| i < j < self.pairs().len() implies (#[trigger] self.pairs()[j]).0 != k@ by {
                    assert(self.pairs()[j].0 == self.kvs@[j].0@);
                    assert(self.kvs@[j].0@ != self.kvs@[i as int].0@);
                }
                return Some(i);
            }
            i = i + 1;
        }
        None
    }

    /// Maps `key` to `value`, replacing any value that `key` had.
    pub fn insert(&mut self, key: &'i str, value: &'i str)
        ensures
            final(self)@ == old(self)@.insert(key@, value@),
    {
        proof {
            use_type_invariant(&*self);
        }
        let found = self.find(key);
        let ghost before = self.pairs();
        let mut kvs: Vec<(&'i str, &'i str)> = Vec::new();
        std::mem::swap(&mut self.kvs, &mut kvs);
        match found {
            Some(i) => {
                proof {
                    lemma_pairs_map_update(before, i as int, value@);
                }
                kvs.set(i, (key, value));
                self.kvs = kvs;
                assert(self.pairs() =~= before.update(i as int, (key@, value@)));
            },
            None => {
                kvs.push((key, value));
                self.kvs = kvs;
                assert(self.pairs().drop_last() =~= before);
            },
        }
    }

    /// The value of `key`, if it has one.
    pub fn get(&self, key: &str) -> (r: Option<&'i str>)
        ensures
            r is Some <==> self@.contains_key(key@),
            r is Some ==> r->0@ == self@[key@],
    {
        proof {
            lemma_pairs_map_lookup(self.pairs(), key@);
        }
        match self.find(key) {
            Some(i) => Some(self.kvs[i].1),
            None => {
                assert forall|i: int| 0 <= i < self.pairs().len() implies (#[trigger] self.pairs()[i]).0 != key@ by {
                    assert(self.pairs()[i].0 == self.kvs@[i].0@);
                }
                None
            },
        }
    }

    /// Whether every key of `self` is mapped by `other` to the same value.
    fn covered_by(&self, other: &Attributes<'i>) -> (r: bool)
        ensures
            r == (forall|k: Seq<char>|
                #[trigger] self@.contains_key(k) ==> other@.contains_key(k) && other@[k] == self@[k]),
    {
        proof {
            use_type_invariant(self);
        }
        let mut i: usize = 0;
        while i < self.kvs.len()
            invariant
                i <= self.kvs@.len(),
                forall|j: int, l: int|
                    0 <= j < l < self.kvs@.len() ==> (#[trigger] self.kvs@[j]).0@ != (#[trigger] self.kvs@[l]).0@,
                forall|j: int| 0 <= j < i ==> {
                    let k = (#[trigger] self.kvs@[j]).0@;
                    other@.contains_key(k) && other@[k] == self.kvs@[j].1@
                },
            decreases self.kvs@.len() - i,
        {
            let (key, value) = self.kvs[i];
            proof {
                lemma_pairs_map_lookup(self.pairs(), key@);
                assert(self.pairs()[i as int] == (key@, value@));
                assert forall|j: int| i < j < self.pairs().len() implies (#[trigger] self.pairs()[j]).0 != key@ by {
                    assert(self.pairs()[j].0 == self.kvs@[j].0@);
                }
                assert(last_with_key(self.pairs(), key@, i as int));
                assert(self@.contains_key(key@) && self@[key@] == value@);
            }
            match other.get(key) {
                Some(v) => {
                    if !same_text(v, value) {
                        return false;
                    }
                },
                None => {
                    return false;
                },
            }
            i = i + 1;
        }
        proof {
            assert forall|k: Seq<char>| #[trigger] self@.contains_key(k) implies other@.contains_key(k) && other@[k] == self@[k] by {
                lemma_pairs_map_lookup(self.pairs(), k);
                let j = choose|j: int| 0 <= j < self.pairs().len() && (#[trigger] self.pairs()[j]).0 == k;
                assert(self.pairs()[j].0 == self.kvs@[j].0@);
                assert forall|l: int| j < l < self.pairs().len() implies (#[trigger] self.pairs()[l]).0 != k by {
                    assert(self.pairs()[l].0 == self.kvs@[l].0@);
                }
                assert(last_with_key(self.pairs(), k, j));
            }
        }
        true
    }

    /// Whether there are no attributes.
    pub fn is_empty(&self) -> (r: bool)
        ensures
            r == (self@ == Map::<Seq<char>, Seq<char>>::empty()),
    {
        if self.kvs.len() == 0 {
            assert(self.pairs() =~= Seq::<PairChars>::empty());
            true
        } else {
            proof {
                let k = self.pairs()[0].0;
                lemma_pairs_map_lookup(self.pairs(), k);
                assert(self@.contains_key(k));
            }
            false
        }
    }
}

impl<'i> PartialEq for Attributes<'i> {
    fn eq(&self, other: &Attributes<'i>) -> (r: bool) {
        let r = self.covered_by(other) && other.covered_by(self);
        if r {
            assert(self@ =~= other@);
        }
        r
    }
}

impl<'i> vstd::std_specs::cmp::PartialEqSpecImpl for Attributes<'i> {
    open spec fn obeys_eq_spec() -> bool {
        true
    }

    open spec fn eq_spec(&self, other: &Attributes<'i>) -> bool {
        self@ == other@
    }
}

} // verus!
