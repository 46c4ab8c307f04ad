use rustler::{map_new, Env, Error, MapIterator, Term};

fn ints(env: &mut Env, ns: &[i64]) -> Vec<Term> {
    ns.iter().map(|n| env.integer(*n)).collect()
}

#[test]
fn new_map_has_size_zero() {
    let mut env = Env::new();
    let m = Term::map_new(&mut env);
    assert_eq!(m.map_size(&env), Ok(0));
    let m2 = map_new(&mut env);
    assert_eq!(m2, m);
}

#[test]
fn from_arrays_then_get_each_key() {
    let mut env = Env::new();
    let keys = vec![env.binary("foo"), env.binary("bar"), env.atom("baz")];
    let values = ints(&mut env, &[1, 2, 3]);
    let m = Term::map_from_arrays(&mut env, &keys, &values).unwrap();
    assert_eq!(m.map_size(&env), Ok(3));
    for i in 0..3 {
        assert_eq!(m.map_get(&env, keys[i]), Ok(values[i]));
    }
}

#[test]
fn from_arrays_length_mismatch_is_badarg() {
    let mut env = Env::new();
    let keys = ints(&mut env, &[1, 2]);
    let values = ints(&mut env, &[1]);
    assert_eq!(Term::map_from_arrays(&mut env, &keys, &values), Err(Error::BadArg));
}

#[test]
fn from_arrays_duplicate_key_is_badarg() {
    let mut env = Env::new();
    let keys = ints(&mut env, &[7, 7]);
    let values = ints(&mut env, &[1, 2]);
    assert_eq!(Term::map_from_arrays(&mut env, &keys, &values), Err(Error::BadArg));
}

#[test]
fn from_pairs_matches_from_arrays() {
    let mut env = Env::new();
    let foo = env.binary("foo");
    let bar = env.binary("bar");
    let one = env.integer(1);
    let two = env.integer(2);
    let a = Term::map_from_pairs(&mut env, &vec![(foo, one), (bar, two)]).unwrap();
    let b = Term::map_from_arrays(&mut env, &vec![bar, foo], &vec![two, one]).unwrap();
    assert_eq!(a, b);
    assert_eq!(a.map_get(&env, bar), Ok(two));
    assert_eq!(Term::map_from_pairs(&mut env, &vec![(foo, one), (foo, two)]), Err(Error::BadArg));
}

#[test]
fn put_new_key_grows_size() {
    let mut env = Env::new();
    let m = Term::map_new(&mut env);
    let k = env.atom("k");
    let v = env.integer(10);
    let m1 = m.map_put(&mut env, k, v).unwrap();
    assert_eq!(m1.map_get(&env, k), Ok(v));
    assert_eq!(m1.map_size(&env), Ok(1));
    assert_eq!(m.map_size(&env), Ok(0));
}

#[test]
fn put_existing_key_overwrites() {
    let mut env = Env::new();
    let m = Term::map_new(&mut env);
    let k = env.atom("k");
    let v = env.integer(10);
    let w = env.integer(20);
    let m1 = m.map_put(&mut env, k, v).unwrap();
    let m2 = m1.map_put(&mut env, k, w).unwrap();
    assert_eq!(m2.map_get(&env, k), Ok(w));
    assert_eq!(m2.map_size(&env), Ok(1));
    assert_eq!(m1.map_get(&env, k), Ok(v));
}

#[test]
fn remove_present_key() {
    let mut env = Env::new();
    let keys = ints(&mut env, &[1, 2, 3]);
    let values = ints(&mut env, &[4, 5, 6]);
    let m = Term::map_from_arrays(&mut env, &keys, &values).unwrap();
    let r = m.map_remove(&mut env, keys[1]).unwrap();
    assert_eq!(r.map_size(&env), Ok(2));
    assert_eq!(r.map_get(&env, keys[1]), Err(Error::BadArg));
    assert_eq!(r.map_get(&env, keys[0]), Ok(values[0]));
    assert_eq!(m.map_get(&env, keys[1]), Ok(values[1]));
}

#[test]
fn remove_absent_key_returns_equal_map() {
    let mut env = Env::new();
    let keys = ints(&mut env, &[1, 2]);
    let values = ints(&mut env, &[3, 4]);
    let m = Term::map_from_arrays(&mut env, &keys, &values).unwrap();
    let absent = env.integer(99);
    let r = m.map_remove(&mut env, absent).unwrap();
    assert_eq!(r, m);
    assert_eq!(r.map_size(&env), Ok(2));
}

#[test]
fn update_absent_key_is_badarg() {
    let mut env = Env::new();
    let m = Term::map_new(&mut env);
    let k = env.atom("k");
    let v = env.integer(1);
    assert_eq!(m.map_update(&mut env, k, v), Err(Error::BadArg));
}

#[test]
fn update_present_key_keeps_size() {
    let mut env = Env::new();
    let keys = ints(&mut env, &[1, 2]);
    let values = ints(&mut env, &[3, 4]);
    let m = Term::map_from_arrays(&mut env, &keys, &values).unwrap();
    let w = env.integer(30);
    let u = m.map_update(&mut env, keys[0], w).unwrap();
    assert_eq!(u.map_get(&env, keys[0]), Ok(w));
    assert_eq!(u.map_size(&env), Ok(2));
}

#[test]
fn operations_on_non_map_fail() {
    let mut env = Env::new();
    let t = env.integer(5);
    let k = env.atom("k");
    let v = env.integer(1);
    assert_eq!(t.map_get(&env, k), Err(Error::BadArg));
    assert_eq!(t.map_size(&env), Err(Error::BadArg));
    assert_eq!(t.map_put(&mut env, k, v), Err(Error::BadArg));
    assert_eq!(t.map_remove(&mut env, k), Err(Error::BadArg));
    assert_eq!(t.map_update(&mut env, k, v), Err(Error::BadArg));
    assert!(MapIterator::new(t, &env).is_none());
    assert!(MapIterator::decode(t, &env).is_err());
}

#[test]
fn equal_maps_are_the_same_term() {
    let mut env = Env::new();
    let m = Term::map_new(&mut env);
    let a = env.atom("a");
    let b = env.atom("b");
    let one = env.integer(1);
    let two = env.integer(2);
    let ab = m.map_put(&mut env, a, one).unwrap().map_put(&mut env, b, two).unwrap();
    let ba = m.map_put(&mut env, b, two).unwrap().map_put(&mut env, a, one).unwrap();
    assert_eq!(ab, ba);
    let nested = ab.map_put(&mut env, ab, one).unwrap();
    assert_eq!(nested.map_get(&env, ba), Ok(one));
}

#[test]
fn iterator_yields_each_entry_once() {
    let mut env = Env::new();
    let keys = ints(&mut env, &[3, 1, 2]);
    let values = ints(&mut env, &[30, 10, 20]);
    let m = Term::map_from_arrays(&mut env, &keys, &values).unwrap();
    let mut it = MapIterator::new(m, &env).unwrap();
    let mut seen = Vec::new();
    while let Some((k, v)) = it.next(&env) {
        assert_eq!(m.map_get(&env, k), Ok(v));
        assert!(!seen.contains(&k));
        seen.push(k);
    }
    assert_eq!(seen.len(), 3);
    assert_eq!(it.next(&env), None);
}

#[test]
fn collect_pairs_covers_the_map() {
    let mut env = Env::new();
    let keys = ints(&mut env, &[5, 6]);
    let values = ints(&mut env, &[50, 60]);
    let m = Term::map_from_arrays(&mut env, &keys, &values).unwrap();
    let mut it = MapIterator::decode(m, &env).unwrap();
    let pairs = it.collect_pairs(&env);
    assert_eq!(pairs.len(), 2);
    assert!(pairs.contains(&(keys[0], values[0])));
    assert!(pairs.contains(&(keys[1], values[1])));
    assert_eq!(it.next(&env), None);
}

#[test]
fn iterator_over_empty_map_ends_at_once() {
    let mut env = Env::new();
    let m = Term::map_new(&mut env);
    let mut it = MapIterator::new(m, &env).unwrap();
    assert_eq!(it.next(&env), None);
}
