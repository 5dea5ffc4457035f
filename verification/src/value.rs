//! Values, argument keys and the engine's error taxonomy.

use vstd::prelude::*;

verus! {

/// Mathematical content of a [`Value`]: what contracts and proofs speak of.
pub enum ValSpec {
    Num(u64),
    Text(Seq<u8>),
}

/// A concrete value: what input cells hold, what the interner canonicalizes
/// and what derived queries compute.
#[derive(Debug, PartialEq, Eq)]
pub enum Value {
    /// A plain number.
    Num(u64),
    /// A byte string.
    Text(Vec<u8>),
}

impl View for Value {
    type V = ValSpec;

    open spec fn view(&self) -> ValSpec {
        match self {
            Value::Num(n) => ValSpec::Num(*n),
            Value::Text(b) => ValSpec::Text(b@),
        }
    }
}

/// Copies a byte string.
pub fn clone_bytes(v: &Vec<u8>) -> (r: Vec<u8>)
    ensures
        r@ == v@,
{
    let mut r: Vec<u8> = Vec::new();
    let mut i: usize = 0;
    while i < v.len()
        invariant
            i <= v.len(),
            r@ == v@.subrange(0, i as int),
        decreases v.len() - i,
    {
        r.push(v[i]);
        i = i + 1;
        proof {
            assert(r@ == v@.subrange(0, i as int));
        }
    }
    proof {
        assert(v@.subrange(0, v@.len() as int) == v@);
    }
    r
}

impl Clone for Value {
    /// Cloning preserves the content.
    fn clone(&self) -> (r: Self)
        ensures
            r@ == self@,
    {
        match self {
            Value::Num(n) => Value::Num(*n),
            Value::Text(b) => Value::Text(clone_bytes(b)),
        }
    }
}

/// Decides equality of two byte strings.
pub fn bytes_eq(a: &Vec<u8>, b: &Vec<u8>) -> (r: bool)
    ensures
        r == (a@ == b@),
{
    if a.len() != b.len() {
        return false;
    }
    let mut i: usize = 0;
    while i < a.len()
        invariant
            i <= a.len(),
            a@.len() == b@.len(),
            forall|j: int| 0 <= j < i ==> a@[j] == b@[j],
        decreases a.len() - i,
    {
        if a[i] != b[i] {
            return false;
        }
        i = i + 1;
    }
    proof {
        assert(a@ =~= b@);
    }
    true
}

/// Decides content equality of two values: the canonicalization relation of
/// the interner and the "did the result actually change" test of the memo
/// tables.
pub fn value_eq(a: &Value, b: &Value) -> (r: bool)
    ensures
        r == (a@ == b@),
{
    match (a, b) {
        (Value::Num(x), Value::Num(y)) => x == y,
        (Value::Text(x), Value::Text(y)) => bytes_eq(x, y),
        (Value::Num(_), Value::Text(_)) => false,
        (Value::Text(_), Value::Num(_)) => false,
    }
}

/// The argument key of a derived query: a unit key, an input-cell handle, an
/// interned identifier, or a plain number.
#[derive(Clone, Copy, Debug, PartialEq, Eq, Structural)]
pub enum Key {
    Unit,
    Cell(u64),
    Interned(u64),
    Num(u64),
}

/// Why an engine call failed.
#[derive(Clone, Copy, Debug, PartialEq, Eq, Structural)]
pub enum EngineError {
    /// A computation transitively re-entered itself for the same key.
    Cycle,
    /// Lookup of an interned identifier that is not currently live.
    StaleId,
    /// A query body read an input cell that was never created.
    UnknownCell,
    /// The query body itself failed; the attempt is not cached.
    QueryFailed,
}

} // verus!
