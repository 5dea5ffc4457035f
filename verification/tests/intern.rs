use memodb::db::Database;
use memodb::queries::HelloWorld;
use memodb::step::{Queries, Step, StepSpec};
use memodb::value::{EngineError, Key, ValSpec, Value};

#[test]
fn intern_canonicalizes() {
    let mut db = Database::new(HelloWorld);
    let a = db.intern(Value::Text(b"potato".to_vec()));
    let b = db.intern(Value::Text(b"potato".to_vec()));
    // equal content: same identifier
    assert_eq!(a, b);
    let c = db.intern(Value::Text(b"tomato".to_vec()));
    // distinct content: distinct identifier
    assert_ne!(a, c);
    let d = db.intern(Value::Num(7));
    let e = db.intern(Value::Num(7));
    assert_eq!(d, e);
    assert_ne!(d, a);
}

#[test]
fn lookup_returns_the_content() {
    let mut db = Database::new(HelloWorld);
    let a = db.intern(Value::Text(b"potato".to_vec()));
    assert_eq!(db.lookup_interned(a), Ok(Value::Text(b"potato".to_vec())));
}

#[test]
fn released_identifier_goes_stale() {
    let mut db = Database::new(HelloWorld);
    let a = db.intern(Value::Text(b"potato".to_vec()));
    assert_eq!(db.release_interned(a), Ok(()));
    assert_eq!(db.lookup_interned(a), Err(EngineError::StaleId));
    assert_eq!(db.release_interned(a), Err(EngineError::StaleId));
}

#[test]
fn lookup_of_unknown_identifier_fails() {
    let db = Database::new(HelloWorld);
    assert_eq!(db.lookup_interned(42), Err(EngineError::StaleId));
}

#[test]
fn reference_counting_keeps_shared_content_live() {
    let mut db = Database::new(HelloWorld);
    let a = db.intern(Value::Num(1));
    let b = db.intern(Value::Num(1));
    assert_eq!(a, b);
    // two outstanding references: one release keeps it live
    assert_eq!(db.release_interned(a), Ok(()));
    assert_eq!(db.lookup_interned(a), Ok(Value::Num(1)));
    assert_eq!(db.release_interned(a), Ok(()));
    assert_eq!(db.lookup_interned(a), Err(EngineError::StaleId));
}

/// A query set whose single body immediately reads itself.
struct SelfCycle;

impl Queries for SelfCycle {
    fn step_spec(&self, _f: u64, _key: Key, _reads: vstd::seq::Seq<ValSpec>) -> StepSpec {
        panic!()
    }

    fn rank(&self, _f: u64, _key: Key) -> vstd::prelude::nat {
        panic!()
    }

    fn read_bound(&self, _f: u64, _key: Key) -> vstd::prelude::nat {
        panic!()
    }

    fn step(&self, f: u64, key: Key, _reads: &Vec<Value>) -> Step {
        Step::ReadDerived(f, key)
    }
}

/// A query set with a two-query cycle: query 0 reads query 1 and query 1
/// reads query 0.
struct MutualCycle;

impl Queries for MutualCycle {
    fn step_spec(&self, _f: u64, _key: Key, _reads: vstd::seq::Seq<ValSpec>) -> StepSpec {
        panic!()
    }

    fn rank(&self, _f: u64, _key: Key) -> vstd::prelude::nat {
        panic!()
    }

    fn read_bound(&self, _f: u64, _key: Key) -> vstd::prelude::nat {
        panic!()
    }

    fn step(&self, f: u64, key: Key, _reads: &Vec<Value>) -> Step {
        Step::ReadDerived(1 - f, key)
    }
}

/// A query set whose single body always fails.
struct AlwaysFails;

impl Queries for AlwaysFails {
    fn step_spec(&self, _f: u64, _key: Key, _reads: vstd::seq::Seq<ValSpec>) -> StepSpec {
        panic!()
    }

    fn rank(&self, _f: u64, _key: Key) -> vstd::prelude::nat {
        panic!()
    }

    fn read_bound(&self, _f: u64, _key: Key) -> vstd::prelude::nat {
        panic!()
    }

    fn step(&self, _f: u64, _key: Key, _reads: &Vec<Value>) -> Step {
        Step::Fail
    }
}

#[test]
fn direct_cycle_is_detected() {
    let mut db = Database::new(SelfCycle);
    assert_eq!(db.invoke(0, Key::Unit), Err(EngineError::Cycle));
}

#[test]
fn indirect_cycle_is_detected() {
    let mut db = Database::new(MutualCycle);
    assert_eq!(db.invoke(0, Key::Num(5)), Err(EngineError::Cycle));
    assert_eq!(db.invoke(1, Key::Num(5)), Err(EngineError::Cycle));
}

#[test]
fn failed_body_is_propagated_and_not_cached() {
    let mut db = Database::new(AlwaysFails);
    assert_eq!(db.invoke(0, Key::Unit), Err(EngineError::QueryFailed));
    assert_eq!(db.cached_len(0), 0);
    assert_eq!(db.invoke(0, Key::Unit), Err(EngineError::QueryFailed));
}
