//! Terms, and the environment that owns them.
//!
//! An `Env` is the store of every value created or observed during one call
//! into the host runtime. A `Term` is a handle into that store. Values are
//! interned: the store never holds the same value twice, so two terms denote
//! equal values exactly when they are the same handle. Maps keep their
//! entries sorted by key handle, which makes equal maps equal entry
//! sequences. The store only grows, so a term keeps its meaning for as long
//! as its environment lives.
use vstd::prelude::*;

verus! {

/// The single error kind of term access: a wrong shape, a missing key, or bad
/// input. `InvalidVariant` is raised by untagged decoding when no variant
/// accepts a term.
#[derive(Clone, Copy, Debug, PartialEq, Eq, Structural)]
pub enum Error {
    BadArg,
    InvalidVariant,
}

/// The mathematical value a term denotes. A map is its sequence of
/// `(key, value)` handle pairs, sorted by key.
pub enum Val {
    Integer(int),
    Atom(Seq<char>),
    Binary(Seq<char>),
    Mapping(Seq<(usize, usize)>),
}

/// Keys strictly increasing, and every handle below `bound`.
pub open spec fn sorted_entries(es: Seq<(usize, usize)>, bound: int) -> bool {
    &&& forall|i: int, j: int| 0 <= i < j < es.len() ==> es[i].0 < es[j].0
    &&& forall|i: int| 0 <= i < es.len() ==> es[i].0 < bound && es[i].1 < bound
}

/// No value stored twice, and each map refers only to values stored before it.
pub open spec fn well_formed(vals: Seq<Val>) -> bool {
    &&& forall|i: int, j: int| 0 <= i < j < vals.len() ==> vals[i] != vals[j]
    &&& forall|i: int|
        0 <= i < vals.len() ==> (#[trigger] vals[i] is Mapping ==> sorted_entries(vals[i]->Mapping_0, i))
}

/// `new` keeps every value of `old` under the same handle.
pub open spec fn extends(new: Seq<Val>, old: Seq<Val>) -> bool {
    &&& old.len() <= new.len()
    &&& forall|i: int| 0 <= i < old.len() ==> new[i] == old[i]
}

/// A value held by an `Env`, as it is stored.
pub enum Value {
    Integer(i64),
    Atom(String),
    Binary(String),
    Mapping(Vec<(usize, usize)>),
}

impl View for Value {
    type V = Val;

    open spec fn view(&self) -> Val {
        match self {
            Value::Integer(n) => Val::Integer(*n as int),
            Value::Atom(s) => Val::Atom(s@),
            Value::Binary(s) => Val::Binary(s@),
            Value::Mapping(es) => Val::Mapping(es@),
        }
    }
}

/// A handle to a value owned by an `Env`.
#[derive(Clone, Copy, Debug, PartialEq, Eq, Structural)]
pub struct Term {
    idx: usize,
}

impl View for Term {
    type V = usize;

    closed spec fn view(&self) -> usize {
        self.idx
    }
}

/// The store of the values of one call into the host runtime.
pub struct Env {
    vals: Vec<Value>,
}

impl View for Env {
    type V = Seq<Val>;

    closed spec fn view(&self) -> Seq<Val> {
        self.vals@.map_values(|v: Value| v@)
    }
}

fn same_entries(a: &Vec<(usize, usize)>, b: &Vec<(usize, usize)>) -> (r: bool)
    ensures
        r == (a@ == b@),
{
    if a.len() != b.len() {
        return false;
    }
    let mut i: usize = 0;
    while i < a.len()
        invariant
            a@.len() == b@.len(),
            i <= a@.len(),
            forall|j: int| 0 <= j < i ==> a@[j] == b@[j],
        decreases a@.len() - i,
    {
        if a[i].0 != b[i].0 || a[i].1 != b[i].1 {
            return false;
        }
        i += 1;
    }
    assert(a@ =~= b@);
    true
}

fn same_value(a: &Value, b: &Value) -> (r: bool)
    ensures
        r == (a@ == b@),
{
    match a {
        Value::Integer(x) => match b {
            Value::Integer(y) => *x == *y,
            _ => false,
        },
        Value::Atom(x) => match b {
            Value::Atom(y) => x.eq(y),
            _ => false,
        },
        Value::Binary(x) => match b {
            Value::Binary(y) => x.eq(y),
            _ => false,
        },
        Value::Mapping(x) => match b {
            Value::Mapping(y) => same_entries(x, y),
            _ => false,
        },
    }
}

impl Term {
    /// The term with the given handle; it denotes something only where the
    /// handle is below the length of its environment.
    pub(crate) fn from_handle(idx: usize) -> (t: Term)
        ensures
            t@ == idx,
    {
        Term { idx }
    }

    pub(crate) fn handle(self) -> (r: usize)
        ensures
            r == self@,
    {
        self.idx
    }
}

impl Env {
    pub open spec fn wf(&self) -> bool {
        well_formed(self@)
    }

    /// The term was issued by this environment.
    pub open spec fn valid(&self, t: Term) -> bool {
        t@ < self@.len()
    }

    /// The value that a valid term denotes.
    pub open spec fn val(&self, t: Term) -> Val {
        self@[t@ as int]
    }

    /// A fresh environment that holds no value.
    pub fn new() -> (r: Env)
        ensures
            r.wf(),
            r@ == Seq::<Val>::empty(),
    {
        let r = Env { vals: Vec::new() };
        assert(r@ =~= Seq::<Val>::empty());
        r
    }

    pub(crate) fn value(&self, t: Term) -> (r: &Value)
        requires
            self.valid(t),
        ensures
            r@ == self.val(t),
    {
        &self.vals[t.idx]
    }

    /// The handle of `v` if this environment holds it.
    pub(crate) fn lookup(&self, v: &Value) -> (r: Option<Term>)
        ensures
            r matches Some(t) ==> self.valid(t) && self.val(t) == v@,
            r is None ==> !self@.contains(v@),
    {
        let mut i: usize = 0;
        while i < self.vals.len()
            invariant
                i <= self@.len(),
                self@.len() == self.vals@.len(),
                forall|j: int| 0 <= j < i ==> self@[j] != v@,
            decreases self.vals@.len() - i,
        {
            if same_value(&self.vals[i], v) {
                return Some(Term { idx: i });
            }
            i += 1;
        }
        None
    }

    /// The handle of `v`, which is stored first if this environment does not
    /// hold it yet.
    pub(crate) fn intern(&mut self, v: Value) -> (t: Term)
        requires
            old(self).wf(),
            v@ is Mapping ==> sorted_entries(v@->Mapping_0, old(self)@.len() as int),
        ensures
            final(self).wf(),
            final(self).valid(t),
            final(self).val(t) == v@,
            old(self)@.contains(v@) ==> final(self)@ == old(self)@,
            !old(self)@.contains(v@) ==> final(self)@ == old(self)@.push(v@),
    {
        match self.lookup(&v) {
            Some(t) => t,
            None => {
                let ghost before = self@;
                let idx = self.vals.len();
                self.vals.push(v);
                assert(self@ =~= before.push(v@));
                assert forall|i: int, j: int| 0 <= i < j < self@.len() implies self@[i]
                    != self@[j] by {
                    if j == idx as int {
                        assert(before.contains(before[i]));
                    }
                }
                Term { idx }
            },
        }
    }

    /// The integer `n` as a term.
    pub fn integer(&mut self, n: i64) -> (t: Term)
        requires
            old(self).wf(),
        ensures
            final(self).wf(),
            extends(final(self)@, old(self)@),
            final(self).valid(t),
            final(self).val(t) == Val::Integer(n as int),
    {
        self.intern(Value::Integer(n))
    }

    /// The atom named `name` as a term.
    pub fn atom(&mut self, name: &str) -> (t: Term)
        requires
            old(self).wf(),
        ensures
            final(self).wf(),
            extends(final(self)@, old(self)@),
            final(self).valid(t),
            final(self).val(t) == Val::Atom(name@),
    {
        self.intern(Value::Atom(name.to_owned()))
    }

    /// The binary `s` as a term.
    pub fn binary(&mut self, s: &str) -> (t: Term)
        requires
            old(self).wf(),
        ensures
            final(self).wf(),
            extends(final(self)@, old(self)@),
            final(self).valid(t),
            final(self).val(t) == Val::Binary(s@),
    {
        self.intern(Value::Binary(s.to_owned()))
    }

    /// The atom named `name`, if this environment holds it.
    pub fn find_atom(&self, name: &str) -> (r: Option<Term>)
        ensures
            r matches Some(t) ==> self.valid(t) && self.val(t) == Val::Atom(name@),
            r is None ==> !self@.contains(Val::Atom(name@)),
    {
        self.lookup(&Value::Atom(name.to_owned()))
    }
}

} // verus!
