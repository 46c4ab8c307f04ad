//! Sum types whose terms carry no variant tag: each variant wraps one
//! payload, and a term is read as the first variant, in declaration order,
//! whose payload decoder accepts it.
//!
//! Two parts: the decoding and encoding that such a type gets at run time,
//! and the checks and plan of the generator that derives that code from the
//! description of the type.
use vstd::prelude::*;

use crate::codec::{Decoder, Encoder};
use crate::term::{Env, Error, Term, Val};

verus! {

/// An untagged sum of two payload types, tried in the order `First`,
/// `Second`.
#[derive(Debug)]
pub enum Untagged<A, B> {
    First(A),
    Second(B),
}

impl<A: Decoder, B: Decoder> Decoder for Untagged<A, B> {
    open spec fn accepts(env: &Env, h: usize) -> bool {
        A::accepts(env, h) || B::accepts(env, h)
    }

    open spec fn decodes_to(env: &Env, h: usize, v: Untagged<A, B>) -> bool {
        if A::accepts(env, h) {
            v matches Untagged::First(a) && A::decodes_to(env, h, a)
        } else {
            v matches Untagged::Second(b) && B::decodes_to(env, h, b)
        }
    }

    open spec fn rejection() -> Error {
        Error::InvalidVariant
    }

    fn decode(term: Term, env: &Env) -> (r: Result<Untagged<A, B>, Error>) {
        if let Ok(a) = A::decode(term, env) {
            return Ok(Untagged::First(a));
        }
        if let Ok(b) = B::decode(term, env) {
            return Ok(Untagged::Second(b));
        }
        Err(Error::InvalidVariant)
    }
}

impl<A: Encoder, B: Encoder> Encoder for Untagged<A, B> {
    open spec fn encoded(&self) -> Val {
        match self {
            Untagged::First(a) => a.encoded(),
            Untagged::Second(b) => b.encoded(),
        }
    }

    fn encode(&self, env: &mut Env) -> (t: Term) {
        match self {
            Untagged::First(a) => a.encode(env),
            Untagged::Second(b) => b.encode(env),
        }
    }
}

/// Where both payload decoders accept a term, the earlier variant is the one
/// read.
pub proof fn earlier_variant_wins<A: Decoder, B: Decoder>(
    env: &Env,
    h: usize,
    v: Untagged<A, B>,
)
    requires
        A::accepts(env, h),
        B::accepts(env, h),
        Untagged::<A, B>::decodes_to(env, h, v),
    ensures
        v matches Untagged::First(a) && A::decodes_to(env, h, a),
{
}

/// Encoding a variant gives the same value as encoding its payload.
pub proof fn encoding_is_transparent<A: Encoder, B: Encoder>(v: Untagged<A, B>)
    ensures
        v matches Untagged::First(a) ==> v.encoded() == a.encoded(),
        v matches Untagged::Second(b) ==> v.encoded() == b.encoded(),
{
}

/// The fields of a variant in a type description: none, unnamed fields given
/// by their types, or named fields given by their names.
#[derive(Debug)]
pub enum VariantFields {
    Unit,
    Unnamed(Vec<String>),
    Named(Vec<String>),
}

/// A variant of a type description.
#[derive(Debug)]
pub struct VariantDesc {
    pub name: String,
    pub fields: VariantFields,
}

/// The description of a type that the generator is applied to: its name, its
/// variants in declaration order (`None` if it is not an enum), and which of
/// decoding and encoding are asked for.
#[derive(Debug)]
pub struct SumTypeDescription {
    pub name: String,
    pub variants: Option<Vec<VariantDesc>>,
    pub decode: bool,
    pub encode: bool,
}

/// Why a description cannot be derived.
#[derive(Clone, Copy, Debug, PartialEq, Eq, Structural)]
pub enum GenError {
    /// The type is not an enum.
    NotAnEnum,
    /// The variant at this position does not wrap exactly one unnamed field.
    NotNewtype(usize),
}

/// What the generator emits: for decoding, each variant's name and payload
/// type in the order of trial; for encoding, the variants to dispatch on.
#[derive(Debug)]
pub struct CodecPlan {
    pub decoder: Option<Vec<(String, String)>>,
    pub encoder: Option<Vec<String>>,
}

/// Every variant wraps exactly one unnamed field.
pub open spec fn all_newtype(vs: Seq<VariantDesc>) -> bool {
    forall|j: int| 0 <= j < vs.len() ==> is_newtype(#[trigger] vs[j])
}

/// The variant wraps exactly one unnamed field.
pub open spec fn is_newtype(v: VariantDesc) -> bool {
    v.fields matches VariantFields::Unnamed(ts) && ts@.len() == 1
}

/// The payload type of a newtype variant.
pub open spec fn payload_of(v: VariantDesc) -> Seq<char> {
    v.fields->Unnamed_0@[0]@
}

/// The decoding arms: variant name and payload type, in declaration order.
pub open spec fn decode_plan(vs: Seq<VariantDesc>, d: Seq<(String, String)>) -> bool {
    &&& d.len() == vs.len()
    &&& forall|i: int|
        0 <= i < vs.len() ==> #[trigger] d[i].0@ == vs[i].name@ && d[i].1@ == payload_of(vs[i])
}

/// The encoding arms: variant names in declaration order.
pub open spec fn encode_plan(vs: Seq<VariantDesc>, e: Seq<String>) -> bool {
    &&& e.len() == vs.len()
    &&& forall|i: int| 0 <= i < vs.len() ==> #[trigger] e[i]@ == vs[i].name@
}

fn check_newtype(v: &VariantDesc) -> (r: bool)
    ensures
        r == is_newtype(*v),
{
    match &v.fields {
        VariantFields::Unnamed(ts) => ts.len() == 1,
        _ => false,
    }
}

/// The decoding arms of newtype variants, in declaration order.
pub fn gen_decoder(vs: &Vec<VariantDesc>) -> (d: Vec<(String, String)>)
    requires
        forall|i: int| 0 <= i < vs@.len() ==> is_newtype(#[trigger] vs@[i]),
    ensures
        decode_plan(vs@, d@),
{
    let mut d: Vec<(String, String)> = Vec::new();
    let mut i: usize = 0;
    while i < vs.len()
        invariant
            forall|j: int| 0 <= j < vs@.len() ==> is_newtype(#[trigger] vs@[j]),
            i <= vs@.len(),
            decode_plan(vs@.subrange(0, i as int), d@),
        decreases vs@.len() - i,
    {
        let v = &vs[i];
        assert(is_newtype(vs@[i as int]));
        let ty = match &v.fields {
            VariantFields::Unnamed(ts) => ts[0].clone(),
            _ => String::new(),
        };
        d.push((v.name.clone(), ty));
        i += 1;
        assert forall|j: int| 0 <= j < i implies #[trigger] d@[j].0@ == vs@.subrange(
            0,
            i as int,
        )[j].name@ && d@[j].1@ == payload_of(vs@.subrange(0, i as int)[j]) by {
            if j < i - 1 {
                assert(vs@.subrange(0, i - 1)[j] == vs@.subrange(0, i as int)[j]);
            }
        }
    }
    assert(vs@.subrange(0, vs@.len() as int) =~= vs@);
    d
}

/// The encoding arms of the variants, in declaration order.
pub fn gen_encoder(vs: &Vec<VariantDesc>) -> (e: Vec<String>)
    ensures
        encode_plan(vs@, e@),
{
    let mut e: Vec<String> = Vec::new();
    let mut i: usize = 0;
    while i < vs.len()
        invariant
            i <= vs@.len(),
            encode_plan(vs@.subrange(0, i as int), e@),
        decreases vs@.len() - i,
    {
        e.push(vs[i].name.clone());
        i += 1;
        assert forall|j: int| 0 <= j < i implies #[trigger] e@[j]@ == vs@.subrange(
            0,
            i as int,
        )[j].name@ by {
            if j < i - 1 {
                assert(vs@.subrange(0, i - 1)[j] == vs@.subrange(0, i as int)[j]);
            }
        }
    }
    assert(vs@.subrange(0, vs@.len() as int) =~= vs@);
    e
}

/// Checks a description and plans the code derived for it: an error for a
/// type that is not an enum, or for the first variant that does not wrap
/// exactly one unnamed field; otherwise the decoding arms if decoding is
/// asked for and the encoding arms if encoding is.
pub fn transcoder_decorator(desc: &SumTypeDescription) -> (r: Result<CodecPlan, GenError>)
    ensures
        (r matches Err(GenError::NotAnEnum)) <==> desc.variants is None,
        r matches Err(GenError::NotNewtype(i)) ==> desc.variants matches Some(vs) && i
            < vs@.len() && !is_newtype(vs@[i as int]) && all_newtype(vs@.take(i as int)),
        r is Ok <==> (desc.variants matches Some(vs) && all_newtype(vs@)),
        r matches Ok(plan) ==> (plan.decoder is Some <==> desc.decode) && (plan.encoder is Some
            <==> desc.encode),
        r matches Ok(plan) ==> (plan.decoder matches Some(d) ==> decode_plan(
            desc.variants->0@,
            d@,
        )),
        r matches Ok(plan) ==> (plan.encoder matches Some(e) ==> encode_plan(
            desc.variants->0@,
            e@,
        )),
{
    let vs = match &desc.variants {
        Some(vs) => vs,
        None => return Err(GenError::NotAnEnum),
    };
    let mut i: usize = 0;
    while i < vs.len()
        invariant
            desc.variants == Some(*vs),
            i <= vs@.len(),
            forall|j: int| 0 <= j < i ==> is_newtype(#[trigger] vs@[j]),
        decreases vs@.len() - i,
    {
        if !check_newtype(&vs[i]) {
            assert(!is_newtype(vs@[i as int]));
            assert(!all_newtype(vs@));
            assert(all_newtype(vs@.take(i as int)));
            return Err(GenError::NotNewtype(i));
        }
        i += 1;
    }
    let decoder = if desc.decode {
        Some(gen_decoder(vs))
    } else {
        None
    };
    let encoder = if desc.encode {
        Some(gen_encoder(vs))
    } else {
        None
    };
    Ok(CodecPlan { decoder, encoder })
}

} // verus!
