//! A single-pass cursor over the entries of a map term.
use vstd::prelude::*;

use crate::map::{
    distinct_pair_keys, entries, is_map, lemma_entries_map, lemma_sorted_unique, map_of,
    unique_keys,
};
use crate::term::{Env, Error, Term, Value, sorted_entries};

verus! {

/// A cursor over the entries of one map term. Each step yields the entry at
/// the cursor and moves past it; once past the last entry it yields nothing,
/// and it cannot be restarted. It holds no resource beyond itself, so
/// dropping it is its only release, and that happens once.
pub struct MapIterator {
    map: Term,
    pos: usize,
}

impl MapIterator {
    /// The map term this cursor walks.
    pub closed spec fn source(&self) -> Term {
        self.map
    }

    /// How many entries this cursor has yielded.
    pub closed spec fn position(&self) -> int {
        self.pos as int
    }

    /// The cursor walks a map term of `env` and stands within its entries.
    pub open spec fn wf(&self, env: &Env) -> bool {
        &&& is_map(env, self.source())
        &&& 0 <= self.position() <= entries(env, self.source()).len()
    }

    /// A cursor at the first entry of `map`, or `None` if `map` is not a map
    /// term.
    pub fn new(map: Term, env: &Env) -> (r: Option<MapIterator>)
        requires
            env.wf(),
            env.valid(map),
        ensures
            r is Some <==> is_map(env, map),
            r matches Some(it) ==> it.wf(env) && it.source() == map && it.position() == 0,
    {
        match env.value(map) {
            Value::Mapping(_) => Some(MapIterator { map, pos: 0 }),
            _ => None,
        }
    }

    /// A cursor at the first entry of `term`; `BadArg` if `term` is not a map.
    pub fn decode(term: Term, env: &Env) -> (r: Result<MapIterator, Error>)
        requires
            env.wf(),
            env.valid(term),
        ensures
            r is Ok <==> is_map(env, term),
            r matches Ok(it) ==> it.wf(env) && it.source() == term && it.position() == 0,
            r matches Err(e) ==> e == Error::BadArg,
    {
        match MapIterator::new(term, env) {
            Some(it) => Ok(it),
            None => Err(Error::BadArg),
        }
    }

    /// The entry at the cursor, as a `(key, value)` pair, and the cursor
    /// moved past it; `None`, with the cursor left where it is, once every
    /// entry has been yielded.
    pub fn next(&mut self, env: &Env) -> (r: Option<(Term, Term)>)
        requires
            env.wf(),
            old(self).wf(env),
        ensures
            final(self).wf(env),
            final(self).source() == old(self).source(),
            old(self).position() < entries(env, old(self).source()).len() ==> {
                let e = entries(env, old(self).source())[old(self).position()];
                &&& r matches Some(p) && p.0@ == e.0 && p.1@ == e.1 && env.valid(p.0)
                    && env.valid(p.1)
                &&& final(self).position() == old(self).position() + 1
            },
            old(self).position() >= entries(env, old(self).source()).len() ==> r is None
                && final(self).position() == old(self).position(),
    {
        match env.value(self.map) {
            Value::Mapping(es) => {
                if self.pos < es.len() {
                    let (k, v) = es[self.pos];
                    self.pos = self.pos + 1;
                    Some((Term::from_handle(k), Term::from_handle(v)))
                } else {
                    None
                }
            },
            _ => None,
        }
    }

    /// Every entry that this cursor has yet to yield, in order, leaving it
    /// exhausted. From a fresh cursor: each entry of the map exactly once.
    pub fn collect_pairs(&mut self, env: &Env) -> (r: Vec<(Term, Term)>)
        requires
            env.wf(),
            old(self).wf(env),
            old(self).position() == 0,
        ensures
            final(self).wf(env),
            final(self).source() == old(self).source(),
            r@.len() == map_of(env, old(self).source()).len(),
            distinct_pair_keys(r@),
            forall|i: int|
                0 <= i < r@.len() ==> #[trigger] map_of(env, old(self).source()).contains_key(
                    r@[i].0@,
                ) && map_of(env, old(self).source())[r@[i].0@] == r@[i].1@,
            forall|k: usize|
                #[trigger] map_of(env, old(self).source()).contains_key(k) ==> exists|i: int|
                    0 <= i < r@.len() && r@[i].0@ == k,
            final(self).next_is_none(env),
    {
        let ghost es = entries(env, self.source());
        proof {
            lemma_sorted_unique(es, self.source()@ as int);
            lemma_entries_map(es);
        }
        let mut r: Vec<(Term, Term)> = Vec::new();
        loop
            invariant
                env.wf(),
                self.wf(env),
                self.source() == old(self).source(),
                es == entries(env, self.source()),
                unique_keys(es),
                r@.len() == self.position(),
                forall|i: int|
                    0 <= i < r@.len() ==> r@[i].0@ == es[i].0 && r@[i].1@ == es[i].1,
            ensures
                self.position() == es.len(),
            decreases es.len() - self.position(),
        {
            match self.next(env) {
                Some(p) => {
                    r.push(p);
                },
                None => {
                    break ;
                },
            }
        }
        proof {
            let m = map_of(env, self.source());
            assert forall|x: int, y: int|
                0 <= x < r@.len() && 0 <= y < r@.len() && x != y implies r@[x].0@ != r@[y].0@ by {
                assert(es[x].0 != es[y].0);
            }
            assert forall|i: int|
                0 <= i < r@.len() implies #[trigger] m.contains_key(r@[i].0@) && m[r@[i].0@]
                == r@[i].1@ by {
                assert(es.contains(es[i]));
            }
            assert forall|k: usize| #[trigger] m.contains_key(k) implies exists|i: int|
                0 <= i < r@.len() && r@[i].0@ == k by {
                assert(es.contains((k, m[k])));
                let i = choose|i: int| 0 <= i < es.len() && es[i] == (k, m[k]);
                assert(r@[i].0@ == k);
            }
        }
        r
    }

    /// The cursor has yielded every entry.
    pub open spec fn next_is_none(&self, env: &Env) -> bool {
        self.position() == entries(env, self.source()).len()
    }
}

/// What `next` yields, in order, is the map itself: one entry for each key,
/// no key twice, each with the value that a lookup of the key gives.
pub proof fn iteration_yields_map(env: &Env, m: Term)
    requires
        env.wf(),
        is_map(env, m),
    ensures
        entries(env, m).len() == map_of(env, m).len(),
        unique_keys(entries(env, m)),
        forall|i: int|
            0 <= i < entries(env, m).len() ==> #[trigger] map_of(env, m).contains_key(
                entries(env, m)[i].0,
            ) && map_of(env, m)[entries(env, m)[i].0] == entries(env, m)[i].1,
        forall|k: usize|
            #[trigger] map_of(env, m).contains_key(k) ==> exists|i: int|
                0 <= i < entries(env, m).len() && entries(env, m)[i].0 == k,
{
    let es = entries(env, m);
    assert(sorted_entries(es, m@ as int));
    lemma_sorted_unique(es, m@ as int);
    lemma_entries_map(es);
    assert forall|i: int| 0 <= i < es.len() implies #[trigger] map_of(env, m).contains_key(
        es[i].0,
    ) && map_of(env, m)[es[i].0] == es[i].1 by {
        assert(es.contains(es[i]));
    }
    assert forall|k: usize| #[trigger] map_of(env, m).contains_key(k) implies exists|i: int|
        0 <= i < es.len() && es[i].0 == k by {
        assert(es.contains((k, map_of(env, m)[k])));
    }
}

} // verus!
