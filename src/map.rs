//! Access to map terms. A map term is immutable: every operation that
//! changes a map returns a new term and leaves the given one as it was.
use vstd::prelude::*;

use crate::term::{Env, Error, Term, Value, extends, sorted_entries};

verus! {

/// The map whose entries are `es`, a later entry overriding an earlier one.
pub open spec fn entries_map(es: Seq<(usize, usize)>) -> Map<usize, usize>
    decreases es.len(),
{
    if es.len() == 0 {
        Map::empty()
    } else {
        entries_map(es.drop_last()).insert(es.last().0, es.last().1)
    }
}

/// No key occurs in two entries.
pub open spec fn unique_keys(es: Seq<(usize, usize)>) -> bool {
    forall|i: int, j: int| 0 <= i < es.len() && 0 <= j < es.len() && i != j ==> es[i].0 != es[j].0
}

/// `t` is a map term of `env`.
pub open spec fn is_map(env: &Env, t: Term) -> bool {
    env.valid(t) && env.val(t) is Mapping
}

/// The entries of a map term, sorted by key.
pub open spec fn entries(env: &Env, t: Term) -> Seq<(usize, usize)> {
    env.val(t)->Mapping_0
}

/// The mapping, from key handles to value handles, that a map term denotes.
pub open spec fn map_of(env: &Env, t: Term) -> Map<usize, usize> {
    entries_map(entries(env, t))
}

pub(crate) proof fn lemma_sorted_unique(es: Seq<(usize, usize)>, bound: int)
    requires
        sorted_entries(es, bound),
    ensures
        unique_keys(es),
{
    assert forall|i: int, j: int|
        0 <= i < es.len() && 0 <= j < es.len() && i != j implies es[i].0 != es[j].0 by {
        if i < j {
            assert(es[i].0 < es[j].0);
        } else {
            assert(es[j].0 < es[i].0);
        }
    }
}

/// With unique keys, the map holds exactly the entries, one key for each.
pub(crate) proof fn lemma_entries_map(es: Seq<(usize, usize)>)
    requires
        unique_keys(es),
    ensures
        entries_map(es).dom().finite(),
        entries_map(es).len() == es.len(),
        forall|k: usize, v: usize|
            #[trigger] es.contains((k, v)) ==> entries_map(es).contains_key(k) && entries_map(
                es,
            )[k] == v,
        forall|k: usize| #[trigger]
            entries_map(es).contains_key(k) ==> es.contains((k, entries_map(es)[k])),
    decreases es.len(),
{
    if es.len() > 0 {
        let p = es.drop_last();
        let last = es.last();
        let n = es.len() - 1;
        assert(unique_keys(p)) by {
            assert forall|i: int, j: int|
                0 <= i < p.len() && 0 <= j < p.len() && i != j implies p[i].0 != p[j].0 by {
                assert(p[i] == es[i] && p[j] == es[j]);
            }
        }
        lemma_entries_map(p);
        let mp = entries_map(p);
        assert(!mp.contains_key(last.0)) by {
            if mp.contains_key(last.0) {
                assert(p.contains((last.0, mp[last.0])));
                let i = choose|i: int| 0 <= i < p.len() && p[i] == (last.0, mp[last.0]);
                assert(es[i].0 == es[n].0);
            }
        }
        assert forall|k: usize, v: usize| #[trigger] es.contains((k, v)) implies entries_map(
            es,
        ).contains_key(k) && entries_map(es)[k] == v by {
            let i = choose|i: int| 0 <= i < es.len() && es[i] == (k, v);
            if i < n {
                assert(p[i] == (k, v));
                assert(p.contains((k, v)));
                assert(es[i].0 != es[n].0);
            }
        }
        assert forall|k: usize| #[trigger]
            entries_map(es).contains_key(k) implies es.contains((k, entries_map(es)[k])) by {
            if k == last.0 {
                assert(es[n] == (k, entries_map(es)[k]));
            } else {
                assert(mp.contains_key(k));
                assert(p.contains((k, mp[k])));
                let i = choose|i: int| 0 <= i < p.len() && p[i] == (k, mp[k]);
                assert(es[i] == (k, mp[k]));
            }
        }
    }
}

/// A sequence of entries with unique keys that holds exactly the pairs of
/// `m` denotes `m`.
proof fn lemma_entries_denote(es: Seq<(usize, usize)>, m: Map<usize, usize>)
    requires
        unique_keys(es),
        forall|k: usize, v: usize| #[trigger]
            es.contains((k, v)) <==> (m.contains_key(k) && m[k] == v),
    ensures
        entries_map(es) == m,
{
    lemma_entries_map(es);
    assert forall|k: usize| m.contains_key(k) implies #[trigger] entries_map(es).contains_key(k) by {
        assert(es.contains((k, m[k])));
    }
    assert(entries_map(es) =~= m);
}

/// Replacing the entry of key `k` by `(k, v)` sets `k` to `v`.
proof fn lemma_replace_entry(es: Seq<(usize, usize)>, bound: int, i: int, k: usize, v: usize)
    requires
        sorted_entries(es, bound),
        0 <= i < es.len(),
        es[i].0 == k,
        v < bound,
    ensures
        sorted_entries(es.update(i, (k, v)), bound),
        entries_map(es.update(i, (k, v))) == entries_map(es).insert(k, v),
{
    let n = es.update(i, (k, v));
    let m = entries_map(es).insert(k, v);
    lemma_sorted_unique(es, bound);
    lemma_entries_map(es);
    assert(sorted_entries(n, bound));
    lemma_sorted_unique(n, bound);
    assert forall|a: usize, b: usize| #[trigger] n.contains((a, b)) <==> (m.contains_key(a) && m[a]
        == b) by {
        if n.contains((a, b)) {
            let j = choose|j: int| 0 <= j < n.len() && n[j] == (a, b);
            if j != i {
                assert(es[j] == (a, b));
                assert(es.contains((a, b)));
            }
        }
        if m.contains_key(a) && m[a] == b {
            if a == k {
                assert(n[i] == (a, b));
            } else {
                assert(es.contains((a, b)));
                let j = choose|j: int| 0 <= j < es.len() && es[j] == (a, b);
                assert(n[j] == (a, b));
            }
        }
    }
    lemma_entries_denote(n, m);
}

/// Inserting `(k, v)` where no entry has key `k` adds `k`, set to `v`.
proof fn lemma_insert_entry(es: Seq<(usize, usize)>, bound: int, p: int, k: usize, v: usize)
    requires
        sorted_entries(es, bound),
        0 <= p <= es.len(),
        forall|j: int| 0 <= j < p ==> es[j].0 < k,
        forall|j: int| p <= j < es.len() ==> es[j].0 > k,
        k < bound,
        v < bound,
    ensures
        sorted_entries(es.insert(p, (k, v)), bound),
        entries_map(es.insert(p, (k, v))) == entries_map(es).insert(k, v),
{
    let n = es.insert(p, (k, v));
    let m = entries_map(es).insert(k, v);
    lemma_sorted_unique(es, bound);
    lemma_entries_map(es);
    assert forall|i: int, j: int| 0 <= i < j < n.len() implies n[i].0 < n[j].0 by {
        if j < p {
        } else if j == p {
        } else if i < p {
        } else if i == p {
        } else {
            assert(n[i] == es[i - 1] && n[j] == es[j - 1]);
        }
    }
    assert(sorted_entries(n, bound));
    lemma_sorted_unique(n, bound);
    assert forall|a: usize, b: usize| #[trigger] n.contains((a, b)) <==> (m.contains_key(a) && m[a]
        == b) by {
        if n.contains((a, b)) {
            let j = choose|j: int| 0 <= j < n.len() && n[j] == (a, b);
            if j < p {
                assert(es[j] == (a, b));
                assert(es.contains((a, b)));
            } else if j > p {
                assert(es[j - 1] == (a, b));
                assert(es.contains((a, b)));
            }
        }
        if m.contains_key(a) && m[a] == b {
            if a == k {
                assert(n[p] == (a, b));
            } else {
                assert(es.contains((a, b)));
                let j = choose|j: int| 0 <= j < es.len() && es[j] == (a, b);
                if j < p {
                    assert(n[j] == (a, b));
                } else {
                    assert(n[j + 1] == (a, b));
                }
            }
        }
    }
    lemma_entries_denote(n, m);
}

/// Dropping the entry of key `es[i].0` removes that key.
proof fn lemma_remove_entry(es: Seq<(usize, usize)>, bound: int, i: int)
    requires
        sorted_entries(es, bound),
        0 <= i < es.len(),
    ensures
        sorted_entries(es.remove(i), bound),
        entries_map(es.remove(i)) == entries_map(es).remove(es[i].0),
{
    let n = es.remove(i);
    let k = es[i].0;
    let m = entries_map(es).remove(k);
    lemma_sorted_unique(es, bound);
    lemma_entries_map(es);
    assert forall|a: int, b: int| 0 <= a < b < n.len() implies n[a].0 < n[b].0 by {
        if b < i {
        } else if a < i {
            assert(n[b] == es[b + 1]);
        } else {
            assert(n[a] == es[a + 1] && n[b] == es[b + 1]);
        }
    }
    assert(sorted_entries(n, bound));
    lemma_sorted_unique(n, bound);
    assert forall|a: usize, b: usize| #[trigger] n.contains((a, b)) <==> (m.contains_key(a) && m[a]
        == b) by {
        if n.contains((a, b)) {
            let j = choose|j: int| 0 <= j < n.len() && n[j] == (a, b);
            if j < i {
                assert(es[j] == (a, b));
                assert(es.contains((a, b)));
            } else {
                assert(es[j + 1] == (a, b));
                assert(es.contains((a, b)));
            }
        }
        if m.contains_key(a) && m[a] == b {
            assert(es.contains((a, b)));
            let j = choose|j: int| 0 <= j < es.len() && es[j] == (a, b);
            if j < i {
                assert(n[j] == (a, b));
            } else {
                assert(n[j - 1] == (a, b));
            }
        }
    }
    lemma_entries_denote(n, m);
}

fn copy_entries(es: &Vec<(usize, usize)>) -> (r: Vec<(usize, usize)>)
    ensures
        r@ == es@,
{
    let mut r: Vec<(usize, usize)> = Vec::new();
    let mut i: usize = 0;
    while i < es.len()
        invariant
            i <= es@.len(),
            r@ == es@.subrange(0, i as int),
        decreases es@.len() - i,
    {
        r.push(es[i]);
        i += 1;
        assert(r@ =~= es@.subrange(0, i as int));
    }
    assert(r@ =~= es@);
    r
}

/// The entries of a map term, copied, or `None` if the term is not a map.
fn entries_copy(env: &Env, t: Term) -> (r: Option<Vec<(usize, usize)>>)
    requires
        env.wf(),
        env.valid(t),
    ensures
        r is Some <==> is_map(env, t),
        r matches Some(es) ==> es@ == entries(env, t) && sorted_entries(es@, t@ as int),
{
    match env.value(t) {
        Value::Mapping(es) => Some(copy_entries(es)),
        _ => None,
    }
}

/// The `(key, value)` handle pairs of two arrays of equal length, position
/// by position.
pub open spec fn zip_handles(ks: Seq<Term>, vs: Seq<Term>) -> Seq<(usize, usize)> {
    Seq::new(ks.len(), |i: int| (ks[i]@, vs[i]@))
}

/// The handle pairs of a sequence of term pairs.
pub open spec fn pair_handles(ps: Seq<(Term, Term)>) -> Seq<(usize, usize)> {
    Seq::new(ps.len(), |i: int| (ps[i].0@, ps[i].1@))
}

/// No two positions of `ks` hold the same term.
pub open spec fn distinct_terms(ks: Seq<Term>) -> bool {
    forall|i: int, j: int| 0 <= i < ks.len() && 0 <= j < ks.len() && i != j ==> ks[i]@ != ks[j]@
}

/// No two pairs of `ps` have the same key.
pub open spec fn distinct_pair_keys(ps: Seq<(Term, Term)>) -> bool {
    forall|i: int, j: int| 0 <= i < ps.len() && 0 <= j < ps.len() && i != j ==> ps[i].0@ != ps[j].0@
}

/// Every term of `ts` belongs to `env`.
pub open spec fn all_valid(env: &Env, ts: Seq<Term>) -> bool {
    forall|i: int| 0 <= i < ts.len() ==> env.valid(#[trigger] ts[i])
}

/// An entry sequence and a pair sequence that hold the same pairs denote the
/// same map, where both have unique keys.
proof fn lemma_same_pairs(es: Seq<(usize, usize)>, zs: Seq<(usize, usize)>)
    requires
        unique_keys(es),
        unique_keys(zs),
        forall|a: usize, b: usize| #[trigger] es.contains((a, b)) <==> zs.contains((a, b)),
    ensures
        entries_map(es) == entries_map(zs),
{
    lemma_entries_map(zs);
    let m = entries_map(zs);
    assert forall|a: usize, b: usize| #[trigger] es.contains((a, b)) <==> (m.contains_key(a) && m[a]
        == b) by {
        if m.contains_key(a) && m[a] == b {
            assert(zs.contains((a, m[a])));
        }
    }
    lemma_entries_denote(es, m);
}

/// Where `k` stands among sorted entries: `Ok` with its index, or `Err` with
/// the index at which an entry for it would keep them sorted.
fn find_key(es: &Vec<(usize, usize)>, k: usize) -> (r: Result<usize, usize>)
    requires
        forall|i: int, j: int| 0 <= i < j < es@.len() ==> es@[i].0 < es@[j].0,
    ensures
        r matches Ok(i) ==> i < es@.len() && es@[i as int].0 == k,
        r matches Err(p) ==> p <= es@.len() && (forall|j: int| 0 <= j < p ==> es@[j].0 < k) && (
        forall|j: int| p <= j < es@.len() ==> es@[j].0 > k),
{
    let mut i: usize = 0;
    while i < es.len() && es[i].0 < k
        invariant
            i <= es@.len(),
            forall|j: int| 0 <= j < i ==> es@[j].0 < k,
        decreases es@.len() - i,
    {
        i += 1;
    }
    if i < es.len() && es[i].0 == k {
        Ok(i)
    } else {
        assert forall|j: int| i <= j < es@.len() implies es@[j].0 > k by {
            if j > i {
                assert(es@[i as int].0 < es@[j].0);
            }
        }
        Err(i)
    }
}

/// A new, empty map term.
pub fn map_new(env: &mut Env) -> (t: Term)
    requires
        old(env).wf(),
    ensures
        final(env).wf(),
        extends(final(env)@, old(env)@),
        is_map(final(env), t),
        map_of(final(env), t) == Map::<usize, usize>::empty(),
        map_of(final(env), t).len() == 0,
{
    let t = env.intern(Value::Mapping(Vec::new()));
    proof {
        assert(entries(env, t) =~= Seq::<(usize, usize)>::empty());
        lemma_entries_map(entries(env, t));
    }
    t
}

impl Term {
    /// A new, empty map term.
    pub fn map_new(env: &mut Env) -> (t: Term)
        requires
            old(env).wf(),
        ensures
            final(env).wf(),
            extends(final(env)@, old(env)@),
            is_map(final(env), t),
            map_of(final(env), t) == Map::<usize, usize>::empty(),
            map_of(final(env), t).len() == 0,
    {
        map_new(env)
    }

    /// A new map term that maps `keys[i]` to `values[i]` for each `i`. Fails
    /// with `BadArg` if the arrays differ in length or a key occurs twice.
    pub fn map_from_arrays(env: &mut Env, keys: &Vec<Term>, values: &Vec<Term>) -> (r: Result<
        Term,
        Error,
    >)
        requires
            old(env).wf(),
            all_valid(old(env), keys@),
            all_valid(old(env), values@),
        ensures
            final(env).wf(),
            extends(final(env)@, old(env)@),
            r is Ok <==> keys@.len() == values@.len() && distinct_terms(keys@),
            r matches Ok(m) ==> is_map(final(env), m) && map_of(final(env), m) == entries_map(
                zip_handles(keys@, values@),
            ),
            r matches Err(e) ==> e == Error::BadArg && final(env)@ == old(env)@,
    {
        if keys.len() != values.len() {
            return Err(Error::BadArg);
        }
        let ghost z = zip_handles(keys@, values@);
        let ghost bound = env@.len() as int;
        let mut es: Vec<(usize, usize)> = Vec::new();
        let mut i: usize = 0;
        while i < keys.len()
            invariant
                env.wf(),
                bound == env@.len(),
                keys@.len() == values@.len(),
                all_valid(env, keys@),
                all_valid(env, values@),
                z == zip_handles(keys@, values@),
                i <= keys@.len(),
                sorted_entries(es@, bound),
                distinct_terms(keys@.subrange(0, i as int)),
                forall|a: usize, b: usize| #[trigger]
                    es@.contains((a, b)) <==> z.subrange(0, i as int).contains((a, b)),
            decreases keys@.len() - i,
        {
            let k = keys[i].handle();
            let v = values[i].handle();
            assert(env.valid(keys@[i as int]) && env.valid(values@[i as int]));
            let ghost prev = es@;
            assert(forall|a: usize, b: usize| #[trigger]
                prev.contains((a, b)) <==> z.subrange(0, i as int).contains((a, b)));
            match find_key(&es, k) {
                Ok(t) => {
                    proof {
                        assert(prev.contains(prev[t as int]));
                        let b = prev[t as int].1;
                        assert(z.subrange(0, i as int).contains((k, b)));
                        let j = choose|j: int|
                            0 <= j < i && z.subrange(0, i as int)[j] == (k, b);
                        assert(z[j] == (k, b));
                        assert(keys@[j]@ == keys@[i as int]@);
                        if distinct_terms(keys@) {
                            assert(false);
                        }
                    }
                    return Err(Error::BadArg);
                },
                Err(p) => {
                    es.insert(p, (k, v));
                    proof {
                        lemma_insert_entry(prev, bound, p as int, k, v);
                        let zi = z.subrange(0, i as int);
                        let zn = z.subrange(0, i + 1);
                        assert(zn =~= zi.push((k, v)));
                        assert forall|a: usize, b: usize| #[trigger]
                            es@.contains((a, b)) <==> zn.contains((a, b)) by {
                            if es@.contains((a, b)) {
                                let j = choose|j: int| 0 <= j < es@.len() && es@[j] == (a, b);
                                if j < p {
                                    assert(prev[j] == (a, b));
                                    assert(prev.contains((a, b)));
                                } else if j > p {
                                    assert(prev[j - 1] == (a, b));
                                    assert(prev.contains((a, b)));
                                }
                                if (a, b) != (k, v) {
                                    let q = choose|q: int| 0 <= q < zi.len() && zi[q] == (a, b);
                                    assert(zn[q] == (a, b));
                                } else {
                                    assert(zn[i as int] == (a, b));
                                }
                            }
                            if zn.contains((a, b)) {
                                let q = choose|q: int| 0 <= q < zn.len() && zn[q] == (a, b);
                                if q < i {
                                    assert(zi[q] == (a, b));
                                    assert(zi.contains((a, b)));
                                    assert(prev.contains((a, b)));
                                    let j = choose|j: int| 0 <= j < prev.len() && prev[j] == (a, b);
                                    if j < p {
                                        assert(es@[j] == (a, b));
                                    } else {
                                        assert(es@[j + 1] == (a, b));
                                    }
                                } else {
                                    assert(es@[p as int] == (a, b));
                                }
                            }
                        }
                        let ks = keys@.subrange(0, i + 1);
                        assert forall|x: int, y: int|
                            0 <= x < ks.len() && 0 <= y < ks.len() && x != y implies ks[x]@
                            != ks[y]@ by {
                            if x < i && y < i {
                                assert(ks[x] == keys@.subrange(0, i as int)[x]);
                                assert(ks[y] == keys@.subrange(0, i as int)[y]);
                            } else {
                                let w = if x < i { x } else { y };
                                let (a, b) = z[w];
                                assert(zi[w] == (a, b));
                                assert(zi.contains((a, b)));
                                assert(prev.contains((a, b)));
                                let j = choose|j: int| 0 <= j < prev.len() && prev[j] == (a, b);
                                assert(prev[j].0 != k);
                            }
                        }
                    }
                },
            }
            i += 1;
        }
        proof {
            assert(z.subrange(0, keys@.len() as int) =~= z);
            assert(keys@.subrange(0, keys@.len() as int) =~= keys@);
            lemma_sorted_unique(es@, bound);
            assert(unique_keys(z));
            lemma_same_pairs(es@, z);
        }
        let ghost after = es@;
        let m = env.intern(Value::Mapping(es));
        proof {
            assert(entries(env, m) == after);
        }
        Ok(m)
    }

    /// A new map term that maps the first term of each pair to the second.
    /// Fails with `BadArg` if a key occurs twice.
    pub fn map_from_pairs(env: &mut Env, pairs: &Vec<(Term, Term)>) -> (r: Result<Term, Error>)
        requires
            old(env).wf(),
            forall|i: int|
                0 <= i < pairs@.len() ==> old(env).valid(#[trigger] pairs@[i].0) && old(
                    env,
                ).valid(pairs@[i].1),
        ensures
            final(env).wf(),
            extends(final(env)@, old(env)@),
            r is Ok <==> distinct_pair_keys(pairs@),
            r matches Ok(m) ==> is_map(final(env), m) && map_of(final(env), m) == entries_map(
                pair_handles(pairs@),
            ),
            r matches Err(e) ==> e == Error::BadArg && final(env)@ == old(env)@,
    {
        let mut keys: Vec<Term> = Vec::new();
        let mut values: Vec<Term> = Vec::new();
        let mut i: usize = 0;
        while i < pairs.len()
            invariant
                i <= pairs@.len(),
                keys@.len() == i,
                values@.len() == i,
                forall|j: int| 0 <= j < i ==> keys@[j] == pairs@[j].0 && values@[j] == pairs@[j].1,
            decreases pairs@.len() - i,
        {
            keys.push(pairs[i].0);
            values.push(pairs[i].1);
            i += 1;
        }
        proof {
            assert(zip_handles(keys@, values@) =~= pair_handles(pairs@));
            if distinct_terms(keys@) {
                assert forall|x: int, y: int|
                    0 <= x < pairs@.len() && 0 <= y < pairs@.len() && x != y implies pairs@[x].0@
                    != pairs@[y].0@ by {
                    assert(keys@[x] == pairs@[x].0 && keys@[y] == pairs@[y].0);
                }
            }
            if distinct_pair_keys(pairs@) {
                assert forall|x: int, y: int|
                    0 <= x < keys@.len() && 0 <= y < keys@.len() && x != y implies keys@[x]@
                    != keys@[y]@ by {
                    assert(keys@[x] == pairs@[x].0 && keys@[y] == pairs@[y].0);
                }
            }
        }
        Term::map_from_arrays(env, &keys, &values)
    }

    /// The value stored under `key` in this map term. Fails with `BadArg`
    /// if this term is not a map or `key` is absent.
    pub fn map_get(self, env: &Env, key: Term) -> (r: Result<Term, Error>)
        requires
            env.wf(),
            env.valid(self),
        ensures
            r is Ok <==> is_map(env, self) && map_of(env, self).contains_key(key@),
            r matches Ok(v) ==> env.valid(v) && v@ == map_of(env, self)[key@],
            r matches Err(e) ==> e == Error::BadArg,
    {
        match env.value(self) {
            Value::Mapping(es) => {
                proof {
                    lemma_sorted_unique(es@, self@ as int);
                    lemma_entries_map(es@);
                }
                match find_key(es, key.handle()) {
                    Ok(i) => {
                        proof {
                            assert(es@.contains(es@[i as int]));
                        }
                        Ok(Term::from_handle(es[i].1))
                    },
                    Err(_) => {
                        proof {
                            if map_of(env, self).contains_key(key@) {
                                assert(es@.contains((key@, map_of(env, self)[key@])));
                            }
                        }
                        Err(Error::BadArg)
                    },
                }
            },
            _ => Err(Error::BadArg),
        }
    }

    /// The number of entries of this map term. Fails with `BadArg` if this
    /// term is not a map.
    pub fn map_size(self, env: &Env) -> (r: Result<usize, Error>)
        requires
            env.wf(),
            env.valid(self),
        ensures
            r is Ok <==> is_map(env, self),
            r matches Ok(n) ==> n == map_of(env, self).len(),
            r matches Err(e) ==> e == Error::BadArg,
    {
        match env.value(self) {
            Value::Mapping(es) => {
                proof {
                    lemma_sorted_unique(es@, self@ as int);
                    lemma_entries_map(es@);
                }
                Ok(es.len())
            },
            _ => Err(Error::BadArg),
        }
    }
    /// A copy of this map term with `key` set to `value`, inserted or
    /// overwritten. Fails with `BadArg` if this term is not a map.
    pub fn map_put(self, env: &mut Env, key: Term, value: Term) -> (r: Result<Term, Error>)
        requires
            old(env).wf(),
            old(env).valid(self),
            old(env).valid(key),
            old(env).valid(value),
        ensures
            final(env).wf(),
            extends(final(env)@, old(env)@),
            r is Ok <==> is_map(old(env), self),
            r matches Ok(m) ==> is_map(final(env), m) && map_of(final(env), m) == map_of(
                old(env),
                self,
            ).insert(key@, value@),
            r matches Err(e) ==> e == Error::BadArg && final(env)@ == old(env)@,
    {
        let mut es = match entries_copy(env, self) {
            Some(es) => es,
            None => return Err(Error::BadArg),
        };
        let ghost before = es@;
        let ghost bound = env@.len() as int;
        let k = key.handle();
        let v = value.handle();
        proof {
            assert(sorted_entries(before, bound));
        }
        match find_key(&es, k) {
            Ok(i) => {
                es.set(i, (k, v));
                proof {
                    lemma_replace_entry(before, bound, i as int, k, v);
                }
            },
            Err(p) => {
                es.insert(p, (k, v));
                proof {
                    lemma_insert_entry(before, bound, p as int, k, v);
                }
            },
        }
        let ghost after = es@;
        let m = env.intern(Value::Mapping(es));
        proof {
            assert(entries(env, m) == after);
        }
        Ok(m)
    }

    /// A copy of this map term without `key`; this very term if `key` is
    /// absent. Fails with `BadArg` if this term is not a map.
    pub fn map_remove(self, env: &mut Env, key: Term) -> (r: Result<Term, Error>)
        requires
            old(env).wf(),
            old(env).valid(self),
        ensures
            final(env).wf(),
            extends(final(env)@, old(env)@),
            r is Ok <==> is_map(old(env), self),
            r matches Ok(m) ==> is_map(final(env), m) && map_of(final(env), m) == map_of(
                old(env),
                self,
            ).remove(key@),
            !map_of(old(env), self).contains_key(key@) ==> (r is Ok ==> r == Ok::<Term, Error>(self)),
            r matches Err(e) ==> e == Error::BadArg && final(env)@ == old(env)@,
    {
        let mut es = match entries_copy(env, self) {
            Some(es) => es,
            None => return Err(Error::BadArg),
        };
        let ghost before = es@;
        let ghost bound = env@.len() as int;
        proof {
            lemma_sorted_unique(before, bound);
            lemma_entries_map(before);
        }
        match find_key(&es, key.handle()) {
            Ok(i) => {
                es.remove(i);
                proof {
                    assert(before.contains(before[i as int]));
                    lemma_remove_entry(before, bound, i as int);
                }
                let ghost after = es@;
                let m = env.intern(Value::Mapping(es));
                proof {
                    assert(entries(env, m) == after);
                }
                Ok(m)
            },
            Err(_) => {
                proof {
                    if map_of(env, self).contains_key(key@) {
                        assert(before.contains((key@, map_of(env, self)[key@])));
                    }
                    assert(map_of(env, self).remove(key@) =~= map_of(env, self));
                }
                Ok(self)
            },
        }
    }

    /// A copy of this map term with the value of the existing `key` replaced
    /// by `value`. Fails with `BadArg` if this term is not a map or `key` is
    /// absent; it never inserts.
    pub fn map_update(self, env: &mut Env, key: Term, value: Term) -> (r: Result<Term, Error>)
        requires
            old(env).wf(),
            old(env).valid(self),
            old(env).valid(value),
        ensures
            final(env).wf(),
            extends(final(env)@, old(env)@),
            r is Ok <==> is_map(old(env), self) && map_of(old(env), self).contains_key(key@),
            r matches Ok(m) ==> is_map(final(env), m) && map_of(final(env), m) == map_of(
                old(env),
                self,
            ).insert(key@, value@),
            r matches Err(e) ==> e == Error::BadArg && final(env)@ == old(env)@,
    {
        let mut es = match entries_copy(env, self) {
            Some(es) => es,
            None => return Err(Error::BadArg),
        };
        let ghost before = es@;
        let ghost bound = env@.len() as int;
        proof {
            lemma_sorted_unique(before, bound);
            lemma_entries_map(before);
        }
        let v = value.handle();
        match find_key(&es, key.handle()) {
            Ok(i) => {
                let k = es[i].0;
                es.set(i, (k, v));
                proof {
                    assert(before.contains(before[i as int]));
                    lemma_replace_entry(before, bound, i as int, k, v);
                }
                let ghost after = es@;
                let m = env.intern(Value::Mapping(es));
                proof {
                    assert(entries(env, m) == after);
                }
                Ok(m)
            },
            Err(_) => {
                proof {
                    if map_of(env, self).contains_key(key@) {
                        assert(before.contains((key@, map_of(env, self)[key@])));
                    }
                }
                Err(Error::BadArg)
            },
        }
    }
}


/// A map term has finitely many keys, one for each entry.
proof fn lemma_map_of(env: &Env, m: Term)
    requires
        env.wf(),
        is_map(env, m),
    ensures
        map_of(env, m).dom().finite(),
        map_of(env, m).len() == entries(env, m).len(),
{
    assert(sorted_entries(entries(env, m), m@ as int));
    lemma_sorted_unique(entries(env, m), m@ as int);
    lemma_entries_map(entries(env, m));
}

/// A map built from arrays of equal length with distinct keys maps each key
/// to the value at the same position, and has one entry for each key.
pub proof fn from_arrays_then_get(ks: Seq<Term>, vs: Seq<Term>)
    requires
        ks.len() == vs.len(),
        distinct_terms(ks),
    ensures
        entries_map(zip_handles(ks, vs)).len() == ks.len(),
        forall|i: int|
            0 <= i < ks.len() ==> #[trigger] entries_map(zip_handles(ks, vs)).contains_key(
                ks[i]@,
            ) && entries_map(zip_handles(ks, vs))[ks[i]@] == vs[i]@,
{
    let z = zip_handles(ks, vs);
    assert(unique_keys(z));
    lemma_entries_map(z);
    assert forall|i: int| 0 <= i < ks.len() implies #[trigger] entries_map(z).contains_key(ks[i]@)
        && entries_map(z)[ks[i]@] == vs[i]@ by {
        assert(z[i] == (ks[i]@, vs[i]@));
        assert(z.contains((ks[i]@, vs[i]@)));
    }
}

/// After a put of `k` to `v`, a lookup of `k` gives `v`; the size grows by
/// one if `k` was absent and stays the same if it was present.
pub proof fn put_then_get(env: &Env, m: Term, k: usize, v: usize)
    requires
        env.wf(),
        is_map(env, m),
    ensures
        map_of(env, m).insert(k, v).contains_key(k),
        map_of(env, m).insert(k, v)[k] == v,
        map_of(env, m).contains_key(k) ==> map_of(env, m).insert(k, v).len() == map_of(
            env,
            m,
        ).len(),
        !map_of(env, m).contains_key(k) ==> map_of(env, m).insert(k, v).len() == map_of(
            env,
            m,
        ).len() + 1,
{
    lemma_map_of(env, m);
    if map_of(env, m).contains_key(k) {
        assert(map_of(env, m).insert(k, v).dom() =~= map_of(env, m).dom());
    }
}

/// Removing a present key takes one from the size and leaves the key absent;
/// removing an absent key leaves the same keys with the same values.
pub proof fn remove_then_get(env: &Env, m: Term, k: usize)
    requires
        env.wf(),
        is_map(env, m),
    ensures
        !map_of(env, m).remove(k).contains_key(k),
        map_of(env, m).contains_key(k) ==> map_of(env, m).remove(k).len() + 1 == map_of(
            env,
            m,
        ).len(),
        !map_of(env, m).contains_key(k) ==> map_of(env, m).remove(k) == map_of(env, m),
{
    lemma_map_of(env, m);
    if !map_of(env, m).contains_key(k) {
        assert(map_of(env, m).remove(k) =~= map_of(env, m));
    }
}

/// An update of a present key `k` to `v` makes a lookup of `k` give `v` and
/// keeps the size.
pub proof fn update_then_get(env: &Env, m: Term, k: usize, v: usize)
    requires
        env.wf(),
        is_map(env, m),
        map_of(env, m).contains_key(k),
    ensures
        map_of(env, m).insert(k, v)[k] == v,
        map_of(env, m).insert(k, v).len() == map_of(env, m).len(),
{
    put_then_get(env, m, k, v);
}

} // verus!
