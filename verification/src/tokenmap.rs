//! An association list from tokens to values with unique keys: the
//! matcher's replacement for a hash map keyed by token text, with a
//! `Map` view that proofs can work against.

use vstd::prelude::*;
use crate::token::Token;

verus! {

#[derive(Debug)]
pub struct TokenMap<V> {
    pub entries: Vec<(Token, V)>,
}

/// The `Map` that an entry list stands for; a later entry for the same
/// key would win, but well-formed maps have unique keys.
pub open spec fn assoc_map<V: View>(es: Seq<(Token, V)>) -> Map<Seq<char>, V::V>
    decreases es.len(),
{
    if es.len() == 0 {
        Map::empty()
    } else {
        assoc_map(es.drop_last()).insert(es.last().0@, es.last().1@)
    }
}

pub open spec fn uniq_keys<V>(es: Seq<(Token, V)>) -> bool {
    forall|i: int, j: int| 0 <= i < j < es.len() ==> es[i].0@ != es[j].0@
}

pub proof fn lemma_assoc_contains<V: View>(es: Seq<(Token, V)>, t: Seq<char>)
    ensures
        assoc_map(es).contains_key(t) <==> exists|i: int| 0 <= i < es.len() && es[i].0@ == t,
    decreases es.len(),
{
    if es.len() > 0 {
        let rest = es.drop_last();
        lemma_assoc_contains(rest, t);
        if es.last().0@ == t {
            assert(es[es.len() - 1].0@ == t);
        } else {
            if exists|i: int| 0 <= i < rest.len() && rest[i].0@ == t {
                let i = choose|i: int| 0 <= i < rest.len() && rest[i].0@ == t;
                assert(es[i].0@ == t);
            }
            if exists|i: int| 0 <= i < es.len() && es[i].0@ == t {
                let i = choose|i: int| 0 <= i < es.len() && es[i].0@ == t;
                assert(i < es.len() - 1);
                assert(rest[i].0@ == t);
            }
        }
    }
}

pub proof fn lemma_assoc_index<V: View>(es: Seq<(Token, V)>, i: int)
    requires
        uniq_keys(es),
        0 <= i < es.len(),
    ensures
        assoc_map(es).contains_key(es[i].0@),
        assoc_map(es)[es[i].0@] == es[i].1@,
    decreases es.len(),
{
    let rest = es.drop_last();
    assert(uniq_keys(rest)) by {
        assert(forall|p: int, q: int|
            0 <= p < q < rest.len() ==> rest[p].0@ != rest[q].0@) by {
            assert(forall|p: int, q: int|
                0 <= p < q < rest.len() ==> es[p].0@ != es[q].0@);
        }
    }
    if i == es.len() - 1 {
    } else {
        lemma_assoc_index(rest, i);
        assert(es.last().0@ != es[i].0@);
        assert(rest[i] == es[i]);
    }
}

pub proof fn lemma_assoc_push<V: View>(es: Seq<(Token, V)>, e: (Token, V))
    requires
        uniq_keys(es),
        forall|i: int| 0 <= i < es.len() ==> es[i].0@ != e.0@,
    ensures
        assoc_map(es.push(e)) == assoc_map(es).insert(e.0@, e.1@),
        uniq_keys(es.push(e)),
{
    assert(es.push(e).drop_last() =~= es);
    assert(es.push(e).last() == e);
    assert forall|i: int, j: int| 0 <= i < j < es.push(e).len() implies es.push(e)[i].0@
        != es.push(e)[j].0@ by {
        if j < es.len() {
            assert(es[i].0@ != es[j].0@);
        } else {
            assert(es[i].0@ != e.0@);
        }
    }
}

pub proof fn lemma_assoc_update<V: View>(es: Seq<(Token, V)>, p: int, e: (Token, V))
    requires
        uniq_keys(es),
        0 <= p < es.len(),
        e.0@ == es[p].0@,
    ensures
        assoc_map(es.update(p, e)) == assoc_map(es).insert(e.0@, e.1@),
        uniq_keys(es.update(p, e)),
    decreases es.len(),
{
    let up = es.update(p, e);
    assert forall|i: int, j: int| 0 <= i < j < up.len() implies up[i].0@ != up[j].0@ by {
        assert(es[i].0@ != es[j].0@);
    }
    if p == es.len() - 1 {
        assert(up.drop_last() =~= es.drop_last());
        assert(up.last() == e);
        assert(assoc_map(up) == assoc_map(es.drop_last()).insert(e.0@, e.1@));
        assert(assoc_map(es) == assoc_map(es.drop_last()).insert(es.last().0@, es.last().1@));
        assert(assoc_map(es.drop_last()).insert(es.last().0@, es.last().1@).insert(e.0@, e.1@)
            =~= assoc_map(es.drop_last()).insert(e.0@, e.1@));
    } else {
        let rest = es.drop_last();
        assert(uniq_keys(rest)) by {
            assert(forall|i: int, j: int|
                0 <= i < j < rest.len() ==> es[i].0@ != es[j].0@);
        }
        assert(up.drop_last() =~= rest.update(p, e));
        assert(up.last() == es.last());
        lemma_assoc_update(rest, p, e);
        assert(es.last().0@ != e.0@) by {
            assert(es[p].0@ != es[es.len() - 1].0@);
        }
        assert(assoc_map(up) == assoc_map(rest).insert(e.0@, e.1@).insert(
            es.last().0@,
            es.last().1@,
        ));
        assert(assoc_map(rest).insert(e.0@, e.1@).insert(es.last().0@, es.last().1@)
            =~= assoc_map(rest).insert(es.last().0@, es.last().1@).insert(e.0@, e.1@));
    }
}

impl<V: View> TokenMap<V> {
    pub open spec fn wf_keys(&self) -> bool {
        uniq_keys(self.entries@)
    }

    pub open spec fn map(&self) -> Map<Seq<char>, V::V> {
        assoc_map(self.entries@)
    }

    pub fn empty() -> (r: Self)
        ensures
            r.map() == Map::<Seq<char>, V::V>::empty(),
            r.wf_keys(),
            r.entries@.len() == 0,
    {
        TokenMap { entries: Vec::new() }
    }

    /// The position of `t`'s entry, when there is one.
    pub fn position(&self, t: &Token) -> (r: Option<usize>)
        ensures
            match r {
                Some(i) => i < self.entries@.len() && self.entries@[i as int].0@ == t@,
                None => forall|i: int| 0 <= i < self.entries@.len() ==> self.entries@[i].0@ != t@,
            },
    {
        let n = self.entries.len();
        let mut i: usize = 0;
        while i < n
            invariant
                n == self.entries@.len(),
                i <= n,
                forall|j: int| 0 <= j < i ==> self.entries@[j].0@ != t@,
            decreases n - i,
        {
            if self.entries[i].0.eq_token(t) {
                return Some(i);
            }
            i = i + 1;
        }
        None
    }

    pub fn contains_key(&self, t: &Token) -> (r: bool)
        ensures
            r == self.map().contains_key(t@),
    {
        proof {
            lemma_assoc_contains(self.entries@, t@);
        }
        match self.position(t) {
            Some(_) => true,
            None => false,
        }
    }

    pub fn get(&self, t: &Token) -> (r: Option<&V>)
        requires
            self.wf_keys(),
        ensures
            match r {
                Some(v) => self.map().contains_key(t@) && v@ == self.map()[t@],
                None => !self.map().contains_key(t@),
            },
    {
        proof {
            lemma_assoc_contains(self.entries@, t@);
        }
        match self.position(t) {
            Some(i) => {
                proof {
                    lemma_assoc_index(self.entries@, i as int);
                }
                Some(&self.entries[i].1)
            },
            None => None,
        }
    }
}

} // verus!
