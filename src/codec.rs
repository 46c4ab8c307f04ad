//! Decoding terms into native values and encoding native values as terms,
//! and the decoder of range records.
use vstd::prelude::*;

use crate::map::{is_map, map_of};
use crate::term::{Env, Error, Term, Val, extends};

verus! {

/// A native type that can be read back from a term.
pub trait Decoder: Sized {
    /// The term of handle `h` has the shape this type reads.
    spec fn accepts(env: &Env, h: usize) -> bool;

    /// `v` is what this type reads from the term of handle `h`.
    spec fn decodes_to(env: &Env, h: usize, v: Self) -> bool;

    /// The error of a term that this type does not read.
    spec fn rejection() -> Error;

    fn decode(term: Term, env: &Env) -> (r: Result<Self, Error>)
        requires
            env.wf(),
            env.valid(term),
        ensures
            r is Ok <==> Self::accepts(env, term@),
            r matches Ok(v) ==> Self::decodes_to(env, term@, v),
            r matches Err(e) ==> e == Self::rejection(),
    ;
}

/// A native value that can be written as a term.
pub trait Encoder {
    /// The value of the term that encodes `self`.
    spec fn encoded(&self) -> Val;

    fn encode(&self, env: &mut Env) -> (t: Term)
        requires
            old(env).wf(),
        ensures
            final(env).wf(),
            extends(final(env)@, old(env)@),
            final(env).valid(t),
            final(env).val(t) == self.encoded(),
    ;
}

impl Decoder for i64 {
    open spec fn accepts(env: &Env, h: usize) -> bool {
        env@[h as int] is Integer
    }

    open spec fn decodes_to(env: &Env, h: usize, v: i64) -> bool {
        env@[h as int] == Val::Integer(v as int)
    }

    open spec fn rejection() -> Error {
        Error::BadArg
    }

    fn decode(term: Term, env: &Env) -> (r: Result<i64, Error>) {
        match env.value(term) {
            crate::term::Value::Integer(n) => Ok(*n),
            _ => Err(Error::BadArg),
        }
    }
}

impl Decoder for String {
    open spec fn accepts(env: &Env, h: usize) -> bool {
        env@[h as int] is Binary
    }

    open spec fn decodes_to(env: &Env, h: usize, v: String) -> bool {
        env@[h as int] == Val::Binary(v@)
    }

    open spec fn rejection() -> Error {
        Error::BadArg
    }

    fn decode(term: Term, env: &Env) -> (r: Result<String, Error>) {
        match env.value(term) {
            crate::term::Value::Binary(s) => Ok(s.clone()),
            _ => Err(Error::BadArg),
        }
    }
}

impl Encoder for i64 {
    open spec fn encoded(&self) -> Val {
        Val::Integer(*self as int)
    }

    fn encode(&self, env: &mut Env) -> (t: Term) {
        env.integer(*self)
    }
}

impl Encoder for String {
    open spec fn encoded(&self) -> Val {
        Val::Binary(self@)
    }

    fn encode(&self, env: &mut Env) -> (t: Term) {
        env.binary(self.as_str())
    }
}

/// The handle of the atom named `name`, if `env` holds it.
pub open spec fn atom_handle(env: &Env, name: Seq<char>) -> Option<usize> {
    if exists|a: usize| a < env@.len() && env@[a as int] == Val::Atom(name) {
        Some(choose|a: usize| a < env@.len() && env@[a as int] == Val::Atom(name))
    } else {
        None
    }
}

/// An atom term of a well-formed environment is the one atom of its name.
pub proof fn atom_handle_of(env: &Env, t: Term, name: Seq<char>)
    requires
        env.wf(),
        env.valid(t),
        env.val(t) == Val::Atom(name),
    ensures
        atom_handle(env, name) == Some(t@),
{
    let c = choose|c: usize| c < env@.len() && env@[c as int] == Val::Atom(name);
    if c != t@ {
        if c < t@ {
            assert(env@[c as int] != env@[t@ as int]);
        } else {
            assert(env@[t@ as int] != env@[c as int]);
        }
    }
}

/// The handle of the value stored in map term `m` under the atom `name`.
pub open spec fn field(env: &Env, m: Term, name: Seq<char>) -> Option<usize> {
    match atom_handle(env, name) {
        Some(a) => if map_of(env, m).contains_key(a) {
            Some(map_of(env, m)[a])
        } else {
            None
        },
        None => None,
    }
}

/// The term stored in map term `m` under the atom `name`.
fn get_field(m: Term, env: &Env, name: &str) -> (r: Option<Term>)
    requires
        env.wf(),
        env.valid(m),
    ensures
        r is Some <==> is_map(env, m) && field(env, m, name@) is Some,
        r matches Some(t) ==> env.valid(t) && field(env, m, name@) == Some(t@),
{
    match env.find_atom(name) {
        Some(a) => {
            proof {
                atom_handle_of(env, a, name@);
            }
            match m.map_get(env, a) {
                Ok(v) => Some(v),
                Err(_) => None,
            }
        },
        None => {
            proof {
                if exists|c: usize| c < env@.len() && env@[c as int] == Val::Atom(name@) {
                    let c = choose|c: usize| c < env@.len() && env@[c as int] == Val::Atom(name@);
                    assert(env@.contains(env@[c as int]));
                }
            }
            None
        },
    }
}

/// An inclusive range `[first, last]` read from a range record.
#[derive(Debug)]
pub struct RangeValue<T> {
    pub first: T,
    pub last: T,
}

/// `t` is a map whose `__struct__` is the atom `Elixir.Range`.
pub open spec fn range_tagged(env: &Env, t: Term) -> bool {
    &&& is_map(env, t)
    &&& field(env, t, "__struct__"@) matches Some(tag) && env@[tag as int] == Val::Atom(
        "Elixir.Range"@,
    )
}

/// The record tag, first bound, last bound and optional step of a range
/// record are in place, apart from how the bounds decode: the tag is the
/// atom `Elixir.Range`, and a step, if present, is the integer 1.
pub open spec fn range_record(env: &Env, t: Term) -> bool {
    &&& range_tagged(env, t)
    &&& field(env, t, "first"@) is Some
    &&& field(env, t, "last"@) is Some
    &&& field(env, t, "step"@) matches Some(s) ==> env@[s as int] == Val::Integer(1)
}

impl<T: Decoder> Decoder for RangeValue<T> {
    open spec fn accepts(env: &Env, h: usize) -> bool {
        let t = choose|t: Term| t@ == h;
        &&& range_record(env, t)
        &&& T::accepts(env, field(env, t, "first"@)->0)
        &&& T::accepts(env, field(env, t, "last"@)->0)
    }

    open spec fn decodes_to(env: &Env, h: usize, v: RangeValue<T>) -> bool {
        let t = choose|t: Term| t@ == h;
        &&& T::decodes_to(env, field(env, t, "first"@)->0, v.first)
        &&& T::decodes_to(env, field(env, t, "last"@)->0, v.last)
    }

    open spec fn rejection() -> Error {
        Error::BadArg
    }

    fn decode(term: Term, env: &Env) -> (r: Result<RangeValue<T>, Error>) {
        RangeValue::decode_record(term, env)
    }
}

impl<T: Decoder> RangeValue<T> {
    /// Reads a range record: a map whose `__struct__` is the atom
    /// `Elixir.Range`, whose `first` and `last` decode as `T`, and whose
    /// `step`, if present, is 1. Every mismatch, a bound that does not
    /// decode included, is `BadArg`.
    pub fn decode_record(term: Term, env: &Env) -> (r: Result<RangeValue<T>, Error>)
        requires
            env.wf(),
            env.valid(term),
        ensures
            r is Ok <==> range_record(env, term) && T::accepts(
                env,
                field(env, term, "first"@)->0,
            ) && T::accepts(env, field(env, term, "last"@)->0),
            r matches Ok(v) ==> T::decodes_to(env, field(env, term, "first"@)->0, v.first)
                && T::decodes_to(env, field(env, term, "last"@)->0, v.last),
            r matches Err(e) ==> e == Error::BadArg,
    {
        let tag = match get_field(term, env, "__struct__") {
            Some(t) => t,
            None => return Err(Error::BadArg),
        };
        match env.find_atom("Elixir.Range") {
            Some(a) => {
                if a.handle() != tag.handle() {
                    proof {
                        if a@ < tag@ {
                            assert(env@[a@ as int] != env@[tag@ as int]);
                        } else {
                            assert(env@[tag@ as int] != env@[a@ as int]);
                        }
                    }
                    return Err(Error::BadArg);
                }
            },
            None => {
                proof {
                    assert(env@.contains(env@[tag@ as int]));
                }
                return Err(Error::BadArg);
            },
        }
        let first_term = match get_field(term, env, "first") {
            Some(t) => t,
            None => return Err(Error::BadArg),
        };
        let first = match T::decode(first_term, env) {
            Ok(v) => v,
            Err(_) => return Err(Error::BadArg),
        };
        let last_term = match get_field(term, env, "last") {
            Some(t) => t,
            None => return Err(Error::BadArg),
        };
        let last = match T::decode(last_term, env) {
            Ok(v) => v,
            Err(_) => return Err(Error::BadArg),
        };
        match get_field(term, env, "step") {
            Some(s) => match i64::decode(s, env) {
                Ok(n) => {
                    if n != 1 {
                        return Err(Error::BadArg);
                    }
                },
                Err(e) => return Err(e),
            },
            None => {},
        }
        Ok(RangeValue { first, last })
    }
}

} // verus!
