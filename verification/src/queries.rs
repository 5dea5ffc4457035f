//! A small query set over the engine: a string-length query over a mutable
//! input cell, the same over an interned string, and a constant query.

use vstd::prelude::*;
use crate::db::{CellHandle, Database};
use crate::memo::{only_cell_deps, DepTarget};
use crate::step::{no_derived_reads, no_read_query, single_cell_query, single_derived_query, single_intern_query, views_of, Queries, Step, StepSpec};
use crate::value::{EngineError, Key, ValSpec, Value};

verus! {

/// Query identity of the string-length query over an input cell.
pub const LENGTH_QUERY: u64 = 0;

/// Query identity of the constant query.
pub const CONSTANT_QUERY: u64 = 1;

/// Query identity of the string-length query over an interned string.
pub const INTERNED_LENGTH_QUERY: u64 = 2;

/// Query identity of the parity query, which reads the `length` query: a
/// two-level dependency, so an input write whose recomputed length is
/// unchanged leaves parity re-verified without recomputation (early cutoff).
pub const PARITY_QUERY: u64 = 3;

/// The length a value counts as: the byte length of a text, zero otherwise.
pub open spec fn text_len(v: ValSpec) -> u64 {
    match v {
        ValSpec::Text(s) => s.len() as u64,
        ValSpec::Num(_) => 0,
    }
}

/// The number a value counts as: itself for a number, zero for a text.
pub open spec fn num_of(v: ValSpec) -> u64 {
    match v {
        ValSpec::Num(n) => n,
        ValSpec::Text(_) => 0,
    }
}

/// Body of the `length` (and `interned_length`) query: the length of the
/// text it read.
pub fn length(text: &Vec<u8>) -> (n: usize)
    ensures
        n == text@.len(),
{
    text.len()
}

/// Body of the `interned_length` query; an interned string measures the same
/// as a plain one.
pub fn interned_length(text: &Vec<u8>) -> (n: usize)
    ensures
        n == text@.len(),
{
    text.len()
}

/// Body of the `constant` query: no reads, always the same number.
pub fn constant() -> (n: u64)
    ensures
        n == 44,
{
    44
}

/// The length a concrete value counts as.
fn value_text_len(v: &Value) -> (n: u64)
    ensures
        n == text_len(v@),
{
    match v {
        Value::Text(b) => length(b) as u64,
        Value::Num(_) => 0,
    }
}

/// The query set of this database: `length` over the cell in its key,
/// `interned_length` over the interned string in its key, and `constant`.
pub struct HelloWorld;

impl Queries for HelloWorld {
    open spec fn step_spec(&self, f: u64, key: Key, reads: Seq<ValSpec>) -> StepSpec {
        if f == LENGTH_QUERY {
            match key {
                Key::Cell(c) => if reads.len() == 0 {
                    StepSpec::ReadCell(c)
                } else {
                    StepSpec::Done(ValSpec::Num(text_len(reads[0])))
                },
                _ => StepSpec::Done(ValSpec::Num(0)),
            }
        } else if f == INTERNED_LENGTH_QUERY {
            match key {
                Key::Interned(id) => if reads.len() == 0 {
                    StepSpec::ReadInterned(id)
                } else {
                    StepSpec::Done(ValSpec::Num(text_len(reads[0])))
                },
                _ => StepSpec::Done(ValSpec::Num(0)),
            }
        } else if f == PARITY_QUERY {
            match key {
                Key::Cell(c) => if reads.len() == 0 {
                    StepSpec::ReadDerived(LENGTH_QUERY, key)
                } else {
                    StepSpec::Done(ValSpec::Num(num_of(reads[0]) % 2))
                },
                _ => StepSpec::Done(ValSpec::Num(0)),
            }
        } else {
            StepSpec::Done(ValSpec::Num(44))
        }
    }

    open spec fn rank(&self, f: u64, key: Key) -> nat {
        if f == PARITY_QUERY {
            1
        } else {
            0
        }
    }

    open spec fn read_bound(&self, f: u64, key: Key) -> nat {
        1
    }

    fn step(&self, f: u64, key: Key, reads: &Vec<Value>) -> (s: Step) {
        proof {
            assert(views_of(reads@).len() == reads@.len());
            if reads@.len() > 0 {
                assert(views_of(reads@)[0] == reads@[0]@);
            }
        }
        if f == LENGTH_QUERY {
            match key {
                Key::Cell(c) => {
                    if reads.len() == 0 {
                        Step::ReadCell(c)
                    } else {
                        Step::Done(Value::Num(value_text_len(&reads[0])))
                    }
                },
                _ => Step::Done(Value::Num(0)),
            }
        } else if f == INTERNED_LENGTH_QUERY {
            match key {
                Key::Interned(id) => {
                    if reads.len() == 0 {
                        Step::ReadInterned(id)
                    } else {
                        Step::Done(Value::Num(value_text_len(&reads[0])))
                    }
                },
                _ => Step::Done(Value::Num(0)),
            }
        } else if f == PARITY_QUERY {
            match key {
                Key::Cell(_) => {
                    if reads.len() == 0 {
                        Step::ReadDerived(LENGTH_QUERY, key)
                    } else {
                        let n = match &reads[0] {
                            Value::Num(n) => *n,
                            Value::Text(_) => 0,
                        };
                        Step::Done(Value::Num(n % 2))
                    }
                },
                _ => Step::Done(Value::Num(0)),
            }
        } else {
            Step::Done(Value::Num(constant()))
        }
    }
}

/// The `length` query reads exactly the input cell in its key and then
/// finishes, so the engine's contracts on single-cell queries apply to it:
/// after a write that changes the cell, the next `invoke` recomputes exactly
/// once on the current content, and after a write that leaves every recorded
/// cell unchanged, `invoke` returns the cached value without recomputing.
pub proof fn lemma_length_is_single_cell(c: u64)
    ensures
        single_cell_query(HelloWorld, LENGTH_QUERY, Key::Cell(c), c),
        no_derived_reads(HelloWorld, LENGTH_QUERY, Key::Cell(c)),
{
    assert forall|reads: Seq<ValSpec>| !((#[trigger] HelloWorld.step_spec(
        LENGTH_QUERY,
        Key::Cell(c),
        reads,
    )) is ReadDerived) by {}
    assert(HelloWorld.step_spec(LENGTH_QUERY, Key::Cell(c), Seq::empty())
        == StepSpec::ReadCell(c));
    assert forall|reads: Seq<ValSpec>| reads.len() > 0 implies (#[trigger] HelloWorld.step_spec(
        LENGTH_QUERY,
        Key::Cell(c),
        reads,
    )) is Done by {
        assert(HelloWorld.step_spec(LENGTH_QUERY, Key::Cell(c), reads) == StepSpec::Done(
            ValSpec::Num(text_len(reads[0])),
        ));
    }
}

/// The `parity` query reads exactly the derived `length` query on the same
/// key and then finishes, so the engine's derived-chain contracts apply to
/// the pair: a cold read stores a memo depending exactly on `length`, and a
/// later write that leaves the recomputed length unchanged confirms parity
/// without running its body (the two-level early cutoff).
pub proof fn lemma_parity_reads_length(c: u64)
    ensures
        single_derived_query(
            HelloWorld,
            PARITY_QUERY,
            Key::Cell(c),
            LENGTH_QUERY,
            Key::Cell(c),
        ),
{
    assert(HelloWorld.step_spec(PARITY_QUERY, Key::Cell(c), Seq::empty())
        == StepSpec::ReadDerived(LENGTH_QUERY, Key::Cell(c)));
    assert forall|reads: Seq<ValSpec>| reads.len() > 0 implies (#[trigger] HelloWorld.step_spec(
        PARITY_QUERY,
        Key::Cell(c),
        reads,
    )) is Done by {}
}

/// The `constant` query reads nothing and always finishes with 44, so once
/// computed its memo records no dependencies and stays valid through any
/// input write.
pub proof fn lemma_constant_is_no_read()
    ensures
        no_read_query(HelloWorld, CONSTANT_QUERY, Key::Unit),
        HelloWorld.step_spec(CONSTANT_QUERY, Key::Unit, Seq::empty()) == StepSpec::Done(
            ValSpec::Num(44),
        ),
        no_derived_reads(HelloWorld, CONSTANT_QUERY, Key::Unit),
{
    assert forall|reads: Seq<ValSpec>| !((#[trigger] HelloWorld.step_spec(
        CONSTANT_QUERY,
        Key::Unit,
        reads,
    )) is ReadDerived) by {}
}

/// The `interned_length` query reads exactly the interned value in its key
/// and then finishes, so the engine's contracts on interned-value queries
/// apply to it: a live identifier gives the content's length, a released one
/// the stale-identifier error.
pub proof fn lemma_interned_length_is_single_intern(id: u64)
    ensures
        single_intern_query(HelloWorld, INTERNED_LENGTH_QUERY, Key::Interned(id), id),
{
    assert(HelloWorld.step_spec(INTERNED_LENGTH_QUERY, Key::Interned(id), Seq::empty())
        == StepSpec::ReadInterned(id));
    assert forall|reads: Seq<ValSpec>| reads.len() > 0 implies (#[trigger] HelloWorld.step_spec(
        INTERNED_LENGTH_QUERY,
        Key::Interned(id),
        reads,
    )) is Done by {}
}

/// What a database looks like to a query body: the read-only capability
/// surface.
pub trait Db {
    /// The current revision of the revision clock.
    fn current_revision(&self) -> u64;
}

impl<Q: Queries> Db for Database<Q> {
    fn current_revision(&self) -> u64 {
        self.revision()
    }
}

/// A mutable text input: a typed handle to an input cell holding a text
/// value.
#[derive(Clone, Copy, Debug, PartialEq, Eq, Structural)]
pub struct Input {
    pub handle: CellHandle,
}

impl Input {
    /// Registers a new text input.
    pub fn new<Q: Queries>(db: &mut Database<Q>, text: Vec<u8>) -> (r: Input)
        requires
            old(db).inv(),
        ensures
            final(db).inv(),
            r.handle.id == old(db).n_cells(),
            final(db).n_cells() == old(db).n_cells() + 1,
            final(db).cell_value(r.handle.id as int) == ValSpec::Text(text@),
            final(db).rev() == old(db).rev(),
            final(db).caches_agree(*old(db)),
            final(db).prog() == old(db).prog(),
            final(db).recompute_count() == old(db).recompute_count(),
            forall|c: int|
                0 <= c < old(db).n_cells() ==> final(db).cell_value(c) == old(db).cell_value(c)
                    && final(db).cell_changed_at(c) == old(db).cell_changed_at(c),
    {
        let handle = db.new_cell(Value::Text(text));
        Input { handle }
    }

    /// Reads the current text of this input.
    pub fn text<Q: Queries>(&self, db: &Database<Q>) -> (r: Vec<u8>)
        requires
            db.inv(),
            (self.handle.id as int) < db.n_cells(),
            db.cell_value(self.handle.id as int) is Text,
        ensures
            db.cell_value(self.handle.id as int) == ValSpec::Text(r@),
    {
        match db.read_cell(self.handle) {
            Value::Text(b) => b,
            Value::Num(_) => Vec::new(),
        }
    }

    /// Overwrites the text of this input, advancing the revision clock.
    pub fn set_text<Q: Queries>(&self, db: &mut Database<Q>, text: Vec<u8>)
        requires
            old(db).inv(),
            (self.handle.id as int) < old(db).n_cells(),
            old(db).rev() < u64::MAX,
        ensures
            final(db).inv(),
            final(db).rev() == old(db).rev() + 1,
            final(db).n_cells() == old(db).n_cells(),
            final(db).cell_value(self.handle.id as int) == ValSpec::Text(text@),
            final(db).cell_changed_at(self.handle.id as int) == final(db).rev(),
            final(db).caches_agree(*old(db)),
            final(db).prog() == old(db).prog(),
            final(db).recompute_count() == old(db).recompute_count(),
    {
        db.write_cell(self.handle, Value::Text(text));
    }

    /// The argument key under which derived queries see this input.
    pub fn key(&self) -> (k: Key)
        ensures
            k == Key::Cell(self.handle.id),
    {
        Key::Cell(self.handle.id)
    }
}

/// An interned text: a typed handle to an interner slot. Equal content
/// always gets the same identifier.
#[derive(Clone, Copy, Debug, PartialEq, Eq, Structural)]
pub struct InternedInput {
    pub id: u64,
}

impl InternedInput {
    /// Interns the text and wraps its canonical identifier.
    pub fn new<Q: Queries>(db: &mut Database<Q>, text: Vec<u8>) -> (r: InternedInput)
        requires
            old(db).inv(),
            old(db).intern_state().n_slots() < u64::MAX,
        ensures
            final(db).inv(),
            final(db).intern_state().live(r.id as int),
            final(db).intern_state().content_of(r.id as int) == ValSpec::Text(text@),
            final(db).same_inputs(*old(db)),
            final(db).caches_agree(*old(db)),
            final(db).prog() == old(db).prog(),
            final(db).recompute_count() == old(db).recompute_count(),
            old(db).intern_state().has(ValSpec::Text(text@)) ==> old(db).intern_state().live(
                r.id as int,
            ) && old(db).intern_state().content_of(r.id as int) == ValSpec::Text(text@),
    {
        let id = db.intern(Value::Text(text));
        InternedInput { id }
    }

    /// Reads the interned text; stale identifiers fail.
    pub fn text<Q: Queries>(&self, db: &Database<Q>) -> (r: Result<Vec<u8>, EngineError>)
        requires
            db.inv(),
        ensures
            (db.intern_state().live(self.id as int) && db.intern_state().content_of(self.id as int)
                is Text) ==> (r matches Ok(b) && db.intern_state().content_of(self.id as int)
                == ValSpec::Text(b@)),
            !db.intern_state().live(self.id as int) ==> r == Err::<Vec<u8>, EngineError>(
                EngineError::StaleId,
            ),
    {
        match db.lookup_interned(self.id) {
            Ok(Value::Text(b)) => Ok(b),
            Ok(Value::Num(_)) => Ok(Vec::new()),
            Err(e) => Err(e),
        }
    }

    /// The argument key under which derived queries see this interned text.
    pub fn key(&self) -> (k: Key)
        ensures
            k == Key::Interned(self.id),
    {
        Key::Interned(self.id)
    }
}

/// The LRU-bound and no-LRU baseline laws, composed from `invoke`'s per-call
/// guarantees: registering `n` fresh inputs and reading `length` once for
/// each leaves exactly `min(n, cap)` live cached results when the query's
/// capacity is `cap > 0`, and all `n` when the capacity is `0` (unbounded).
pub fn fill_length_cache(db: &mut Database<HelloWorld>, n: u64)
    requires
        old(db).inv(),
        old(db).cached_count(LENGTH_QUERY) == 0,
        forall|k: Key| old(db).memo_of(LENGTH_QUERY, k) is None,
    ensures
        final(db).inv(),
        final(db).capacity_of(LENGTH_QUERY) == old(db).capacity_of(LENGTH_QUERY),
        final(db).cached_count(LENGTH_QUERY) == (if old(db).capacity_of(LENGTH_QUERY) == 0 {
            n as nat
        } else if n <= old(db).capacity_of(LENGTH_QUERY) {
            n as nat
        } else {
            old(db).capacity_of(LENGTH_QUERY) as nat
        }),
{
    let ghost cap = old(db).capacity_of(LENGTH_QUERY);
    let mut i: u64 = 0;
    while i < n
        invariant
            db.inv(),
            i <= n,
            db.capacity_of(LENGTH_QUERY) == cap,
            db.cached_count(LENGTH_QUERY) == (if cap == 0 {
                i as nat
            } else if i <= cap {
                i as nat
            } else {
                cap as nat
            }),
            forall|c: u64|
                c >= db.n_cells() ==> (#[trigger] db.memo_of(LENGTH_QUERY, Key::Cell(c))) is None,
        decreases n - i,
    {
        let h = db.new_cell(Value::Num(i));
        let ghost mid = *db;
        proof {
            lemma_length_is_single_cell(h.id);
            assert(mid.memo_of(LENGTH_QUERY, Key::Cell(h.id)) is None);
            assert(mid.prog() == HelloWorld);
        }
        let res = db.invoke(LENGTH_QUERY, Key::Cell(h.id));
        proof {
            assert(res is Ok);
            assert forall|c: u64| c >= db.n_cells() implies (#[trigger] db.memo_of(
                LENGTH_QUERY,
                Key::Cell(c),
            )) is None by {
                assert(mid.memo_of(LENGTH_QUERY, Key::Cell(c)) is None);
                assert(db.memo_of(LENGTH_QUERY, Key::Cell(c)) == mid.memo_of(
                    LENGTH_QUERY,
                    Key::Cell(c),
                ) || db.memo_of(LENGTH_QUERY, Key::Cell(c)) is None);
            }
        }
        i = i + 1;
    }
}

/// A ready-made database over [`HelloWorld`] with one text input registered,
/// the shape the string-length scenarios run against.
pub struct TestDatabase {
    pub db: Database<HelloWorld>,
    pub input: CellHandle,
}

impl TestDatabase {
    /// The database is well-formed, its input cell exists and was stamped no
    /// later than the current revision, and the memos of the two queries the
    /// scenarios drive — if present — have the shape those queries store:
    /// `length` depends on exactly the input cell, `constant` on nothing and
    /// holds 44.
    pub open spec fn wf(self) -> bool {
        &&& self.db.inv()
        &&& (self.input.id as int) < self.db.n_cells()
        &&& self.db.cell_changed_at(self.input.id as int) <= self.db.rev()
        &&& match self.db.memo_of(LENGTH_QUERY, Key::Cell(self.input.id)) {
            Some(m) => m.verified_at <= self.db.rev() && m.deps.len() == 1 && m.deps[0].target
                == DepTarget::Cell(self.input.id) && m.deps[0].snap <= self.db.rev(),
            None => true,
        }
        &&& match self.db.memo_of(CONSTANT_QUERY, Key::Unit) {
            Some(m) => m.value == ValSpec::Num(44) && m.deps.len() == 0,
            None => true,
        }
    }

    /// A fresh database: revision 1, one input cell holding the empty text,
    /// no memos, nothing interned, every capacity unbounded.
    pub fn new() -> (r: TestDatabase)
        ensures
            r.wf(),
            r.db.rev() == 1,
            r.db.recompute_count() == 0,
            r.input.id == 0,
            r.db.n_cells() == 1,
            r.db.cell_value(0) == ValSpec::Text(Seq::empty()),
            r.db.cell_changed_at(0) == 1,
            forall|g: u64, k: Key| r.db.memo_of(g, k) is None,
            forall|g: u64| r.db.cached_count(g) == 0 && r.db.capacity_of(g) == 0,
            r.db.intern_state().n_slots() == 0,
    {
        let mut db = Database::<HelloWorld>::new(HelloWorld);
        let input = db.new_cell(Value::Text(Vec::new()));
        TestDatabase { db, input }
    }
}

impl Default for TestDatabase {
    /// Same as [`TestDatabase::new`].
    fn default() -> (r: TestDatabase)
        ensures
            r.wf(),
            r.db.rev() == 1,
            r.db.recompute_count() == 0,
            r.input.id == 0,
            r.db.n_cells() == 1,
            r.db.cell_value(0) == ValSpec::Text(Seq::empty()),
            forall|g: u64, k: Key| r.db.memo_of(g, k) is None,
    {
        TestDatabase::new()
    }
}

/// Sets the input string — advancing the revision clock by exactly one tick —
/// and reads the `length` query through the memo tables: the result is the
/// new text's length, freshly memoized.
pub fn run_string_length(db: &mut TestDatabase, text: Vec<u8>) -> (r: Result<Value, EngineError>)
    requires
        old(db).wf(),
        old(db).db.rev() < u64::MAX,
    ensures
        final(db).wf(),
        final(db).input == old(db).input,
        final(db).db.rev() == old(db).db.rev() + 1,
        final(db).db.n_cells() == old(db).db.n_cells(),
        final(db).db.cell_value(old(db).input.id as int) == ValSpec::Text(text@),
        final(db).db.cell_changed_at(old(db).input.id as int) == final(db).db.rev(),
        r matches Ok(v) && v@ == ValSpec::Num(text@.len() as u64),
        r matches Ok(v) ==> (final(db).db.memo_of(LENGTH_QUERY, Key::Cell(old(db).input.id))
            matches Some(m) && m.value == v@ && m.verified_at == final(db).db.rev()),
        old(db).db.recompute_count() < u64::MAX ==> final(db).db.recompute_count() == old(db).db.recompute_count() + 1,
{
    let h = db.input;
    db.db.write_cell(h, Value::Text(text));
    let ghost mid = db.db;
    let res = db.db.invoke(LENGTH_QUERY, Key::Cell(h.id));
    proof {
        lemma_length_is_single_cell(h.id);
        assert(mid.memo_of(LENGTH_QUERY, Key::Cell(h.id)) == old(db).db.memo_of(
            LENGTH_QUERY,
            Key::Cell(h.id),
        ));
        assert(mid.memo_of(CONSTANT_QUERY, Key::Unit) == old(db).db.memo_of(
            CONSTANT_QUERY,
            Key::Unit,
        ));
        assert(HelloWorld.step_spec(
            LENGTH_QUERY,
            Key::Cell(h.id),
            seq![ValSpec::Text(text@)],
        ) == StepSpec::Done(ValSpec::Num(text@.len() as u64)));
        match old(db).db.memo_of(LENGTH_QUERY, Key::Cell(h.id)) {
            Some(m) => {
                assert(m.verified_at < mid.rev());
                assert(mid.cell_changed_at(h.id as int) > m.deps[0].snap);
            },
            None => {},
        }
    }
    res
}

/// Reads the `constant` query through the memo tables: always 44, the
/// inputs and the revision clock untouched; once computed, later calls are
/// answered from the dependency-free memo without running the body.
pub fn run_constant(db: &mut TestDatabase) -> (r: Result<Value, EngineError>)
    requires
        old(db).wf(),
    ensures
        final(db).wf(),
        final(db).input == old(db).input,
        final(db).db.same_inputs(old(db).db),
        r matches Ok(v) && v@ == ValSpec::Num(44),
        r matches Ok(v) ==> (final(db).db.memo_of(CONSTANT_QUERY, Key::Unit) matches Some(m)
            && m.value == v@ && m.deps.len() == 0),
        old(db).db.memo_of(CONSTANT_QUERY, Key::Unit) is Some ==> final(db).db.recompute_count()
            == old(db).db.recompute_count(),
{
    let res = db.db.invoke(CONSTANT_QUERY, Key::Unit);
    proof {
        lemma_constant_is_no_read();
        match old(db).db.memo_of(CONSTANT_QUERY, Key::Unit) {
            Some(m) => {
                assert(crate::db::cell_deps_clean(old(db).db, m.deps));
                assert(only_cell_deps(m.deps));
            },
            None => {},
        }
    }
    res
}

} // verus!

