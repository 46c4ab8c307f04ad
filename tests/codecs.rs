use rustler::untagged::{
    transcoder_decorator, GenError, SumTypeDescription, Untagged, VariantDesc, VariantFields,
};
use rustler::{Decoder, Encoder, Env, Error, RangeValue, Term};

fn range_term(env: &mut Env, tag: Option<&str>, step: Option<i64>) -> Term {
    let mut m = Term::map_new(env);
    if let Some(tag) = tag {
        let k = env.atom("__struct__");
        let v = env.atom(tag);
        m = m.map_put(env, k, v).unwrap();
    }
    let first = env.atom("first");
    let last = env.atom("last");
    let one = env.integer(1);
    let five = env.integer(5);
    m = m.map_put(env, first, one).unwrap();
    m = m.map_put(env, last, five).unwrap();
    if let Some(s) = step {
        let k = env.atom("step");
        let v = env.integer(s);
        m = m.map_put(env, k, v).unwrap();
    }
    m
}

#[test]
fn range_decodes_bounds() {
    let mut env = Env::new();
    let t = range_term(&mut env, Some("Elixir.Range"), None);
    let r = RangeValue::<i64>::decode(t, &env).unwrap();
    assert_eq!((r.first, r.last), (1, 5));
}

#[test]
fn range_with_unit_step_decodes() {
    let mut env = Env::new();
    let t = range_term(&mut env, Some("Elixir.Range"), Some(1));
    let r = RangeValue::<i64>::decode_record(t, &env).unwrap();
    assert_eq!((r.first, r.last), (1, 5));
}

#[test]
fn range_with_other_step_is_badarg() {
    let mut env = Env::new();
    let t = range_term(&mut env, Some("Elixir.Range"), Some(2));
    assert!(matches!(RangeValue::<i64>::decode(t, &env), Err(Error::BadArg)));
}

#[test]
fn range_with_wrong_or_missing_tag_is_badarg() {
    let mut env = Env::new();
    let wrong = range_term(&mut env, Some("Elixir.MapSet"), None);
    assert!(matches!(RangeValue::<i64>::decode(wrong, &env), Err(Error::BadArg)));
    let missing = range_term(&mut env, None, None);
    assert!(matches!(RangeValue::<i64>::decode(missing, &env), Err(Error::BadArg)));
    let not_map = env.integer(3);
    assert!(matches!(RangeValue::<i64>::decode(not_map, &env), Err(Error::BadArg)));
}

#[test]
fn range_with_undecodable_bound_is_badarg() {
    let mut env = Env::new();
    let t = range_term(&mut env, Some("Elixir.Range"), None);
    let first = env.atom("first");
    let s = env.binary("one");
    let t = t.map_put(&mut env, first, s).unwrap();
    assert!(matches!(RangeValue::<i64>::decode(t, &env), Err(Error::BadArg)));
}

#[test]
fn untagged_integer_selects_first() {
    let mut env = Env::new();
    let t = env.integer(42);
    match Untagged::<i64, String>::decode(t, &env) {
        Ok(Untagged::First(n)) => assert_eq!(n, 42),
        other => panic!("unexpected {:?}", other),
    }
}

#[test]
fn untagged_string_selects_second() {
    let mut env = Env::new();
    let t = env.binary("hello");
    match Untagged::<i64, String>::decode(t, &env) {
        Ok(Untagged::Second(s)) => assert_eq!(s, "hello"),
        other => panic!("unexpected {:?}", other),
    }
}

#[test]
fn untagged_no_match_is_invalid_variant() {
    let mut env = Env::new();
    let t = env.atom("neither");
    assert!(matches!(Untagged::<i64, String>::decode(t, &env), Err(Error::InvalidVariant)));
}

#[test]
fn untagged_overlap_prefers_earlier_variant() {
    let mut env = Env::new();
    let t = env.integer(7);
    assert!(matches!(Untagged::<i64, i64>::decode(t, &env), Ok(Untagged::First(7))));
}

#[test]
fn untagged_encoding_is_transparent() {
    let mut env = Env::new();
    let a = Untagged::<i64, String>::First(9).encode(&mut env);
    let b = 9i64.encode(&mut env);
    assert_eq!(a, b);
    let c = Untagged::<i64, String>::Second("x".to_string()).encode(&mut env);
    let d = env.binary("x");
    assert_eq!(c, d);
    assert_ne!(a, c);
    assert_eq!(Untagged::<i64, String>::decode(c, &env).ok().map(|v| matches!(v, Untagged::Second(_))), Some(true));
}

fn newtype(name: &str, ty: &str) -> VariantDesc {
    VariantDesc { name: name.to_string(), fields: VariantFields::Unnamed(vec![ty.to_string()]) }
}

fn description(variants: Option<Vec<VariantDesc>>, decode: bool, encode: bool) -> SumTypeDescription {
    SumTypeDescription { name: "Payload".to_string(), variants, decode, encode }
}

#[test]
fn generator_plans_newtype_variants_in_order() {
    let desc = description(Some(vec![newtype("A", "i64"), newtype("B", "String")]), true, true);
    let plan = transcoder_decorator(&desc).unwrap();
    assert_eq!(
        plan.decoder.unwrap(),
        vec![("A".to_string(), "i64".to_string()), ("B".to_string(), "String".to_string())]
    );
    assert_eq!(plan.encoder.unwrap(), vec!["A".to_string(), "B".to_string()]);
}

#[test]
fn generator_emits_only_what_is_asked() {
    let desc = description(Some(vec![newtype("A", "i64")]), true, false);
    let plan = transcoder_decorator(&desc).unwrap();
    assert!(plan.decoder.is_some());
    assert!(plan.encoder.is_none());
    let desc = description(Some(vec![newtype("A", "i64")]), false, true);
    let plan = transcoder_decorator(&desc).unwrap();
    assert!(plan.decoder.is_none());
    assert!(plan.encoder.is_some());
}

#[test]
fn generator_rejects_two_field_variant() {
    let two = VariantDesc {
        name: "C".to_string(),
        fields: VariantFields::Unnamed(vec!["i64".to_string(), "i64".to_string()]),
    };
    let desc = description(Some(vec![newtype("A", "i64"), two]), true, true);
    assert_eq!(transcoder_decorator(&desc).err(), Some(GenError::NotNewtype(1)));
}

#[test]
fn generator_rejects_struct_like_and_unit_variants() {
    let named = VariantDesc { name: "S".to_string(), fields: VariantFields::Named(vec!["x".to_string()]) };
    let desc = description(Some(vec![named, newtype("A", "i64")]), true, true);
    assert_eq!(transcoder_decorator(&desc).err(), Some(GenError::NotNewtype(0)));
    let unit = VariantDesc { name: "U".to_string(), fields: VariantFields::Unit };
    let desc = description(Some(vec![newtype("A", "i64"), unit]), true, false);
    assert_eq!(transcoder_decorator(&desc).err(), Some(GenError::NotNewtype(1)));
}

#[test]
fn generator_rejects_non_enum() {
    let desc = description(None, true, true);
    assert_eq!(transcoder_decorator(&desc).err(), Some(GenError::NotAnEnum));
}
