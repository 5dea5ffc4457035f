use memodb::db::Database;
use memodb::queries::{
    fill_length_cache, HelloWorld, Input, InternedInput, INTERNED_LENGTH_QUERY, LENGTH_QUERY,
};
use memodb::value::{Key, Value};

fn text_of(i: u64) -> Vec<u8> {
    vec![65u8; i as usize]
}

#[test]
fn input_no_lru() {
    let mut db = Database::new(HelloWorld);
    assert_eq!(db.cached_len(LENGTH_QUERY), 0);

    for i in 0..32 {
        let input = Input::new(&mut db, text_of(i));
        let p = db.invoke(LENGTH_QUERY, input.key()).unwrap();
        assert_eq!(p, Value::Num(i));
    }
    assert_eq!(db.cached_len(LENGTH_QUERY), 32);

    // allocate some more
    for i in 32..256 {
        let input = Input::new(&mut db, text_of(i));
        let p = db.invoke(LENGTH_QUERY, input.key()).unwrap();
        assert_eq!(p, Value::Num(i));
    }
    assert_eq!(db.cached_len(LENGTH_QUERY), 256);
}

#[test]
fn input_lru() {
    let mut db = Database::new(HelloWorld);
    db.set_lru_capacity(LENGTH_QUERY, 32);
    assert_eq!(db.cached_len(LENGTH_QUERY), 0);

    for i in 0..32 {
        let input = Input::new(&mut db, text_of(i));
        let p = db.invoke(LENGTH_QUERY, input.key()).unwrap();
        assert_eq!(p, Value::Num(i));
    }
    assert_eq!(db.cached_len(LENGTH_QUERY), 32);

    // make sure these are LRU'd.
    for i in 32..256 {
        let input = Input::new(&mut db, text_of(i));
        let p = db.invoke(LENGTH_QUERY, input.key()).unwrap();
        assert_eq!(p, Value::Num(i));
    }
    assert_eq!(db.cached_len(LENGTH_QUERY), 32);
}

#[test]
fn intern_no_lru() {
    let mut db = Database::new(HelloWorld);
    assert_eq!(db.cached_len(INTERNED_LENGTH_QUERY), 0);

    for i in 0..32 {
        let input = InternedInput::new(&mut db, text_of(i));
        let p = db.invoke(INTERNED_LENGTH_QUERY, input.key()).unwrap();
        assert_eq!(p, Value::Num(i));
    }
    assert_eq!(db.cached_len(INTERNED_LENGTH_QUERY), 32);

    // allocate some more
    for i in 32..256 {
        let input = InternedInput::new(&mut db, text_of(i));
        let p = db.invoke(INTERNED_LENGTH_QUERY, input.key()).unwrap();
        assert_eq!(p, Value::Num(i));
    }
    assert_eq!(db.cached_len(INTERNED_LENGTH_QUERY), 256);
}

#[test]
fn intern_lru() {
    let mut db = Database::new(HelloWorld);
    db.set_lru_capacity(INTERNED_LENGTH_QUERY, 32);
    assert_eq!(db.cached_len(INTERNED_LENGTH_QUERY), 0);

    for i in 0..32 {
        let input = InternedInput::new(&mut db, text_of(i));
        let p = db.invoke(INTERNED_LENGTH_QUERY, input.key()).unwrap();
        assert_eq!(p, Value::Num(i));
    }
    assert_eq!(db.cached_len(INTERNED_LENGTH_QUERY), 32);

    // make sure these are LRU'd.
    for i in 32..256 {
        let input = InternedInput::new(&mut db, text_of(i));
        let p = db.invoke(INTERNED_LENGTH_QUERY, input.key()).unwrap();
        assert_eq!(p, Value::Num(i));
    }
    assert_eq!(db.cached_len(INTERNED_LENGTH_QUERY), 32);
}

#[test]
fn memory_intern_lru() {
    let mut db = Database::new(HelloWorld);
    db.set_lru_capacity(INTERNED_LENGTH_QUERY, 32);
    assert_eq!(db.cached_len(INTERNED_LENGTH_QUERY), 0);

    for i in 0..32 {
        let id = db.intern(Value::Text(text_of(i)));
        let p = db.invoke(INTERNED_LENGTH_QUERY, Key::Interned(id)).unwrap();
        assert_eq!(p, Value::Num(i));
    }
    assert_eq!(db.cached_len(INTERNED_LENGTH_QUERY), 32);

    for i in 32..256 {
        let id = db.intern(Value::Text(text_of(i)));
        let p = db.invoke(INTERNED_LENGTH_QUERY, Key::Interned(id)).unwrap();
        assert_eq!(p, Value::Num(i));
    }
    assert_eq!(db.cached_len(INTERNED_LENGTH_QUERY), 32);
}

#[test]
fn memory_intern_no_lru() {
    let mut db = Database::new(HelloWorld);

    for i in 0..32 {
        let id = db.intern(Value::Text(text_of(i)));
        let p = db.invoke(INTERNED_LENGTH_QUERY, Key::Interned(id)).unwrap();
        assert_eq!(p, Value::Num(i));
    }
    assert_eq!(db.cached_len(INTERNED_LENGTH_QUERY), 32);

    for i in 32..256 {
        let id = db.intern(Value::Text(text_of(i)));
        let p = db.invoke(INTERNED_LENGTH_QUERY, Key::Interned(id)).unwrap();
        assert_eq!(p, Value::Num(i));
    }
    assert_eq!(db.cached_len(INTERNED_LENGTH_QUERY), 256);
}

#[test]
fn memory_input_lru() {
    let mut db = Database::new(HelloWorld);
    db.set_lru_capacity(LENGTH_QUERY, 32);

    for i in 0..32 {
        let h = db.new_cell(Value::Text(text_of(i)));
        let p = db.invoke(LENGTH_QUERY, Key::Cell(h.id)).unwrap();
        assert_eq!(p, Value::Num(i));
    }
    assert_eq!(db.cached_len(LENGTH_QUERY), 32);

    for i in 32..256 {
        let h = db.new_cell(Value::Text(text_of(i)));
        let p = db.invoke(LENGTH_QUERY, Key::Cell(h.id)).unwrap();
        assert_eq!(p, Value::Num(i));
    }
    assert_eq!(db.cached_len(LENGTH_QUERY), 32);
}

#[test]
fn memory_input_no_lru() {
    let mut db = Database::new(HelloWorld);

    for i in 0..32 {
        let h = db.new_cell(Value::Text(text_of(i)));
        let p = db.invoke(LENGTH_QUERY, Key::Cell(h.id)).unwrap();
        assert_eq!(p, Value::Num(i));
    }
    assert_eq!(db.cached_len(LENGTH_QUERY), 32);

    for i in 32..256 {
        let h = db.new_cell(Value::Text(text_of(i)));
        let p = db.invoke(LENGTH_QUERY, Key::Cell(h.id)).unwrap();
        assert_eq!(p, Value::Num(i));
    }
    assert_eq!(db.cached_len(LENGTH_QUERY), 256);
}

#[test]
fn evicted_value_is_recomputed() {
    let mut db = Database::new(HelloWorld);
    db.set_lru_capacity(LENGTH_QUERY, 2);
    let a = Input::new(&mut db, text_of(3));
    let b = Input::new(&mut db, text_of(4));
    let c = Input::new(&mut db, text_of(5));
    assert_eq!(db.invoke(LENGTH_QUERY, a.key()).unwrap(), Value::Num(3));
    assert_eq!(db.invoke(LENGTH_QUERY, b.key()).unwrap(), Value::Num(4));
    assert_eq!(db.invoke(LENGTH_QUERY, c.key()).unwrap(), Value::Num(5));
    assert_eq!(db.cached_len(LENGTH_QUERY), 2);
    // `a` was the least recently used and is gone; asking again recomputes
    // the identical value
    let before = db.recomputations();
    assert_eq!(db.invoke(LENGTH_QUERY, a.key()).unwrap(), Value::Num(3));
    assert_eq!(db.recomputations(), before + 1);
}

#[test]
fn shrinking_capacity_evicts() {
    let mut db = Database::new(HelloWorld);
    for i in 0..10 {
        let input = Input::new(&mut db, text_of(i));
        db.invoke(LENGTH_QUERY, input.key()).unwrap();
    }
    assert_eq!(db.cached_len(LENGTH_QUERY), 10);
    db.set_lru_capacity(LENGTH_QUERY, 3);
    assert_eq!(db.cached_len(LENGTH_QUERY), 3);
}

#[test]
fn fill_respects_the_configured_bound() {
    let mut db = Database::new(HelloWorld);
    db.set_lru_capacity(LENGTH_QUERY, 32);
    fill_length_cache(&mut db, 256);
    assert_eq!(db.cached_len(LENGTH_QUERY), 32);

    let mut db = Database::new(HelloWorld);
    fill_length_cache(&mut db, 256);
    assert_eq!(db.cached_len(LENGTH_QUERY), 256);
}
