use memodb::db::Database;
use memodb::queries::{
    constant, interned_length, length, run_constant, run_string_length, HelloWorld, Input,
    TestDatabase, CONSTANT_QUERY, LENGTH_QUERY, PARITY_QUERY,
};
use memodb::value::{EngineError, Key, Value};

#[test]
fn idempotent_read() {
    let mut db = Database::new(HelloWorld);
    let input = Input::new(&mut db, b"hello".to_vec());
    let first = db.invoke(LENGTH_QUERY, input.key()).unwrap();
    assert_eq!(first, Value::Num(5));
    let after_cold = db.recomputations();
    assert_eq!(after_cold, 1);
    for _ in 0..5 {
        let again = db.invoke(LENGTH_QUERY, input.key()).unwrap();
        assert_eq!(again, first);
    }
    // no intervening writes: zero extra query-body executions
    assert_eq!(db.recomputations(), after_cold);
}

#[test]
fn invalidation_on_change() {
    let mut db = Database::new(HelloWorld);
    let input = Input::new(&mut db, b"".to_vec());
    assert_eq!(db.invoke(LENGTH_QUERY, input.key()).unwrap(), Value::Num(0));

    input.set_text(&mut db, b"A".to_vec());
    let before = db.recomputations();
    assert_eq!(db.invoke(LENGTH_QUERY, input.key()).unwrap(), Value::Num(1));
    // a write that changed the content triggers exactly one recomputation
    assert_eq!(db.recomputations(), before + 1);

    let n = 17;
    input.set_text(&mut db, vec![b'A'; n]);
    let before = db.recomputations();
    assert_eq!(
        db.invoke(LENGTH_QUERY, input.key()).unwrap(),
        Value::Num(n as u64)
    );
    assert_eq!(db.recomputations(), before + 1);

    // and only one: the next read is a pure hit
    assert_eq!(
        db.invoke(LENGTH_QUERY, input.key()).unwrap(),
        Value::Num(n as u64)
    );
    assert_eq!(db.recomputations(), before + 1);
}

#[test]
fn early_cutoff() {
    let mut db = Database::new(HelloWorld);
    let input = Input::new(&mut db, b"AB".to_vec());
    assert_eq!(db.invoke(PARITY_QUERY, input.key()).unwrap(), Value::Num(0));
    // cold: both parity and the length it reads ran
    assert_eq!(db.recomputations(), 2);

    // a write that leaves the length unchanged: length recomputes (once),
    // parity only re-verifies
    input.set_text(&mut db, b"BA".to_vec());
    let before = db.recomputations();
    assert_eq!(db.invoke(PARITY_QUERY, input.key()).unwrap(), Value::Num(0));
    assert_eq!(db.recomputations(), before + 1);

    // a write that changes the length recomputes both
    input.set_text(&mut db, b"ABC".to_vec());
    let before = db.recomputations();
    assert_eq!(db.invoke(PARITY_QUERY, input.key()).unwrap(), Value::Num(1));
    assert_eq!(db.recomputations(), before + 2);
}

#[test]
fn constant_is_permanently_valid() {
    let mut db = Database::new(HelloWorld);
    assert_eq!(db.invoke(CONSTANT_QUERY, Key::Unit).unwrap(), Value::Num(44));
    assert_eq!(db.recomputations(), 1);
    // even after input writes, a dependency-free memo re-verifies for free
    let input = Input::new(&mut db, b"x".to_vec());
    input.set_text(&mut db, b"y".to_vec());
    assert_eq!(db.invoke(CONSTANT_QUERY, Key::Unit).unwrap(), Value::Num(44));
    assert_eq!(db.recomputations(), 1);
}

#[test]
fn unknown_cell_is_an_error() {
    let mut db = Database::new(HelloWorld);
    assert_eq!(
        db.invoke(LENGTH_QUERY, Key::Cell(99)),
        Err(EngineError::UnknownCell)
    );
}

#[test]
fn run_string_length_drives_the_memo() {
    let mut db = TestDatabase::new();
    assert_eq!(
        run_string_length(&mut db, b"hello, world!".to_vec()),
        Ok(Value::Num(13))
    );
    assert_eq!(run_string_length(&mut db, b"".to_vec()), Ok(Value::Num(0)));
}

#[test]
fn run_constant_returns_the_constant() {
    let mut db = TestDatabase::new();
    assert_eq!(run_constant(&mut db), Ok(Value::Num(44)));
    assert_eq!(run_constant(&mut db), Ok(Value::Num(44)));
}

#[test]
fn query_bodies_compute_lengths() {
    assert_eq!(length(&b"hello".to_vec()), 5);
    assert_eq!(interned_length(&b"".to_vec()), 0);
    assert_eq!(constant(), 44);
}

#[test]
fn revision_advances_once_per_write() {
    let mut db = Database::new(HelloWorld);
    let r0 = db.revision();
    let input = Input::new(&mut db, b"a".to_vec());
    // registering a cell does not advance the clock
    assert_eq!(db.revision(), r0);
    input.set_text(&mut db, b"b".to_vec());
    assert_eq!(db.revision(), r0 + 1);
    input.set_text(&mut db, b"c".to_vec());
    assert_eq!(db.revision(), r0 + 2);
}

#[test]
fn cell_handles_write_through_the_database() {
    let mut db = Database::new(HelloWorld);
    let h = db.new_cell(Value::Num(3));
    h.set(&mut db, Value::Num(9));
    assert_eq!(db.read_cell(h), Value::Num(9));
}

#[test]
fn reads_do_not_advance_the_revision() {
    let mut db = Database::new(HelloWorld);
    let input = Input::new(&mut db, b"abc".to_vec());
    let r0 = db.revision();
    db.invoke(LENGTH_QUERY, input.key()).unwrap();
    db.invoke(LENGTH_QUERY, input.key()).unwrap();
    assert_eq!(input.text(&db), b"abc".to_vec());
    assert_eq!(db.revision(), r0);
}
