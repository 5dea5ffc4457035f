//! The resumable interface between the engine and the bodies of derived
//! queries.

use vstd::prelude::*;
use crate::value::{Key, ValSpec, Value};

verus! {

/// Spec-level mirror of [`Step`].
pub enum StepSpec {
    Done(ValSpec),
    ReadCell(u64),
    ReadDerived(u64, Key),
    ReadInterned(u64),
    Fail,
}

/// One resumption step of a derived query body. The engine runs a body by
/// repeatedly handing it the values it has read for it so far and performing
/// the read it requests next; every requested read is recorded as a
/// dependency, so the dependency list is exactly the body's real read set.
pub enum Step {
    /// The body finished with this result.
    Done(Value),
    /// The body wants the current value of an input cell.
    ReadCell(u64),
    /// The body wants the result of another derived query.
    ReadDerived(u64, Key),
    /// The body wants the content of an interned identifier.
    ReadInterned(u64),
    /// The body failed; the engine caches nothing and propagates the failure.
    Fail,
}

impl View for Step {
    type V = StepSpec;

    open spec fn view(&self) -> StepSpec {
        match self {
            Step::Done(v) => StepSpec::Done(v@),
            Step::ReadCell(c) => StepSpec::ReadCell(*c),
            Step::ReadDerived(g, k) => StepSpec::ReadDerived(*g, *k),
            Step::ReadInterned(id) => StepSpec::ReadInterned(*id),
            Step::Fail => StepSpec::Fail,
        }
    }
}

/// The views of the values read so far.
pub open spec fn views_of(s: Seq<Value>) -> Seq<ValSpec> {
    s.map_values(|v: Value| v@)
}

/// Whether the body of query `f` on `key` never reads another derived query,
/// whatever it has read so far.
pub open spec fn no_derived_reads<Q: Queries>(q: Q, f: u64, key: Key) -> bool {
    forall|reads: Seq<ValSpec>| !((#[trigger] q.step_spec(f, key, reads)) is ReadDerived)
}

/// Whether the body of query `f` on `key` immediately reads itself: the
/// simplest cyclic query.
pub open spec fn self_cycle<Q: Queries>(q: Q, f: u64, key: Key) -> bool {
    q.step_spec(f, key, Seq::empty()) == StepSpec::ReadDerived(f, key)
}

/// Whether the body of query `f` on `key` finishes immediately, reading
/// nothing: the shape of a constant query.
pub open spec fn no_read_query<Q: Queries>(q: Q, f: u64, key: Key) -> bool {
    q.step_spec(f, key, Seq::empty()) is Done
}

/// Whether the body of query `f` on `key` reads exactly the interned value
/// `id` and then finishes: the shape of a query over an interned input.
pub open spec fn single_intern_query<Q: Queries>(q: Q, f: u64, key: Key, id: u64) -> bool {
    &&& q.step_spec(f, key, Seq::empty()) == StepSpec::ReadInterned(id)
    &&& forall|reads: Seq<ValSpec>|
        reads.len() > 0 ==> (#[trigger] q.step_spec(f, key, reads)) is Done
}

/// Whether the body of query `f` on `key` reads exactly the derived query
/// `(fl, kl)` and then finishes: the shape of a one-level derived chain.
pub open spec fn single_derived_query<Q: Queries>(q: Q, f: u64, key: Key, fl: u64, kl: Key) -> bool {
    &&& q.step_spec(f, key, Seq::empty()) == StepSpec::ReadDerived(fl, kl)
    &&& forall|reads: Seq<ValSpec>|
        reads.len() > 0 ==> (#[trigger] q.step_spec(f, key, reads)) is Done
}

/// Whether the body of query `f` on `key` reads exactly input cell `c` and
/// then finishes: the shape of a plain input-derived query.
pub open spec fn single_cell_query<Q: Queries>(q: Q, f: u64, key: Key, c: u64) -> bool {
    &&& q.step_spec(f, key, Seq::empty()) == StepSpec::ReadCell(c)
    &&& forall|reads: Seq<ValSpec>|
        reads.len() > 0 ==> (#[trigger] q.step_spec(f, key, reads)) is Done
}

/// A set of derived queries, addressed by a numeric query identity. This is
/// the registration interface of the engine: one implementation describes
/// every derived query a database can answer.
pub trait Queries: Sized {
    /// Mathematical description of one resumption step of the body of query
    /// `f` on `key`, given the values read so far: query bodies are pure
    /// functions of what they read, which is what makes caching sound.
    spec fn step_spec(&self, f: u64, key: Key, reads: Seq<ValSpec>) -> StepSpec;

    /// A well-founded rank: a body may only read derived queries of strictly
    /// smaller rank, so the dependency graph of a verified query set is
    /// acyclic. The engine still detects cycles dynamically, so a query set
    /// written outside these contracts fails with a cycle error instead of
    /// hanging.
    spec fn rank(&self, f: u64, key: Key) -> nat;

    /// A bound on how many reads one run of the body of `f` on `key` makes.
    spec fn read_bound(&self, f: u64, key: Key) -> nat;

    /// One resumption step of the body of query `f` on `key`.
    fn step(&self, f: u64, key: Key, reads: &Vec<Value>) -> (s: Step)
        ensures
            s@ == self.step_spec(f, key, views_of(reads@)),
            (s@ matches StepSpec::ReadDerived(g, k2) ==> self.rank(g, k2) < self.rank(f, key)),
            !(s@ is Done) && !(s@ is Fail) ==> reads@.len() < self.read_bound(f, key),
    ;
}

} // verus!
