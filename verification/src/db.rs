//! The database: revision clock, input store, interner and the memo tables,
//! with the verification algorithm behind `invoke`.

use vstd::prelude::*;
use crate::interner::Interner;
use crate::memo::{clone_deps, only_cell_deps, Dep, DepTarget, MemoSpec, MemoTable};
use crate::step::{no_derived_reads, no_read_query, self_cycle, single_cell_query, single_derived_query, single_intern_query, Queries, Step, StepSpec};
use crate::value::{EngineError, Key, ValSpec, Value};

verus! {

/// One mutable input cell: its current value and the revision at which it
/// was last set.
pub struct InputCell {
    pub value: Value,
    pub changed_at: u64,
}

/// A stable handle to an input cell; cells are never deleted.
#[derive(Clone, Copy, Debug, PartialEq, Eq, Structural)]
pub struct CellHandle {
    pub id: u64,
}

impl CellHandle {
    /// Writes this cell: advances the revision clock by one tick and stamps
    /// the cell with the new revision.
    pub fn set<Q: Queries>(self, db: &mut Database<Q>, v: Value)
        requires
            old(db).inv(),
            (self.id as int) < old(db).n_cells(),
            old(db).rev() < u64::MAX,
        ensures
            final(db).inv(),
            final(db).rev() == old(db).rev() + 1,
            final(db).n_cells() == old(db).n_cells(),
            final(db).cell_value(self.id as int) == v@,
            final(db).cell_changed_at(self.id as int) == final(db).rev(),
            forall|c: int|
                0 <= c < old(db).n_cells() && c != self.id ==> final(db).cell_value(c) == old(db).cell_value(c) && final(db).cell_changed_at(c) == old(db).cell_changed_at(c),
            final(db).caches_agree(*old(db)),
            final(db).intern_state() == old(db).intern_state(),
            final(db).prog() == old(db).prog(),
            final(db).recompute_count() == old(db).recompute_count(),
    {
        db.write_cell(self, v);
    }
}

/// One recorded dependency is well-formed for the query `g` on `key` that
/// recorded it: an input dependency names an existing cell, and a derived
/// dependency names a query of strictly smaller rank.
pub open spec fn dep_inv<Q: Queries>(q: Q, n_cells: nat, g: u64, key: Key, d: Dep) -> bool {
    match d.target {
        DepTarget::Cell(c) => (c as nat) < n_cells,
        DepTarget::Derived(g2, k2) => q.rank(g2, k2) < q.rank(g, key),
    }
}

/// A memo is well-formed: it was verified no later than the current revision,
/// its value did not change after it was last verified, and every recorded
/// dependency is well-formed.
pub open spec fn entry_inv<Q: Queries>(
    q: Q,
    n_cells: nat,
    rev: u64,
    g: u64,
    key: Key,
    m: MemoSpec,
) -> bool {
    &&& m.verified_at <= rev
    &&& m.changed_at <= m.verified_at
    &&& forall|d: int| 0 <= d < m.deps.len() ==> dep_inv(q, n_cells, g, key, #[trigger] m.deps[d])
}

/// Lifts [`entry_inv`] over an optional memo.
pub open spec fn memo_inv_opt<Q: Queries>(
    q: Q,
    n_cells: nat,
    rev: u64,
    g: u64,
    k: Key,
    m: Option<MemoSpec>,
) -> bool {
    match m {
        Some(mm) => entry_inv(q, n_cells, rev, g, k, mm),
        None => true,
    }
}

/// Every recorded dependency is an input-cell dependency whose cell has not
/// changed since the recorded snapshot: such a memo re-verifies clean
/// without recomputation.
pub open spec fn cell_deps_clean<Q: Queries>(d: Database<Q>, deps: Seq<Dep>) -> bool {
    forall|i: int|
        0 <= i < deps.len() ==> match (#[trigger] deps[i]).target {
            DepTarget::Cell(c) => (c as nat) < d.n_cells() && d.cell_changed_at(c as int)
                <= deps[i].snap,
            DepTarget::Derived(_, _) => false,
        }
}

/// The two-level early-cutoff scenario: the memo of `(f, key)` depends on
/// exactly the derived query `(fl, kl)`; that query reads exactly input cell
/// `c`, whose content changed since the recorded snapshot, but its body now
/// computes the very value already cached for it; and that value's
/// `changed_at` is within what the downstream memo recorded. Re-reading
/// `(f, key)` then recomputes the dependency once, finds it unchanged, and
/// confirms the downstream memo without running its body.
pub open spec fn derived_cutoff_scenario<Q: Queries>(
    d: Database<Q>,
    f: u64,
    key: Key,
    mg: MemoSpec,
    fl: u64,
    kl: Key,
    c: u64,
) -> bool {
    &&& d.memo_of(f, key) == Some(mg)
    &&& mg.verified_at < d.rev()
    &&& mg.deps.len() == 1
    &&& mg.deps[0].target == DepTarget::Derived(fl, kl)
    &&& match d.memo_of(fl, kl) {
        Some(ml) => {
            &&& ml.verified_at < d.rev()
            &&& single_cell_query(d.prog(), fl, kl, c)
            &&& (c as int) < d.n_cells()
            &&& ml.deps.len() == 1
            &&& ml.deps[0].target == DepTarget::Cell(c)
            &&& d.cell_changed_at(c as int) > ml.deps[0].snap
            &&& StepSpec::Done(ml.value) == d.prog().step_spec(
                fl,
                kl,
                seq![d.cell_value(c as int)],
            )
            &&& ml.changed_at <= mg.deps[0].snap
        },
        None => false,
    }
}

/// One memo table is well-formed for query `g` under the given query set,
/// cell count and revision.
pub open spec fn table_wf<Q: Queries>(q: Q, n_cells: nat, rev: u64, g: u64, t: MemoTable) -> bool {
    &&& t.keys_unique()
    &&& forall|k: Key| memo_inv_opt(q, n_cells, rev, g, k, #[trigger] t.memo_of(k))
}

/// The database: owns the revision clock, the input cells, the interner and
/// one memo table per derived query. It is the single object through which
/// callers set inputs and invoke derived queries; a write needs `&mut`
/// access, so a write during an active derived-query call is rejected by the
/// borrow checker rather than at run time.
pub struct Database<Q: Queries> {
    queries: Q,
    revision: u64,
    cells: Vec<InputCell>,
    interner: Interner,
    tables: Vec<MemoTable>,
    tick: u64,
    recomputes: u64,
}

impl<Q: Queries> Database<Q> {
    /// The current revision of the revision clock.
    pub closed spec fn rev(self) -> u64 {
        self.revision
    }

    /// How many input cells exist.
    pub closed spec fn n_cells(self) -> nat {
        self.cells@.len()
    }

    /// The content of input cell `c`.
    pub closed spec fn cell_value(self, c: int) -> ValSpec {
        self.cells@[c].value@
    }

    /// The revision at which input cell `c` was last set.
    pub closed spec fn cell_changed_at(self, c: int) -> u64 {
        self.cells@[c].changed_at
    }

    /// The interner owned by this database.
    pub closed spec fn intern_state(self) -> Interner {
        self.interner
    }

    /// The query set this database answers for.
    pub closed spec fn prog(self) -> Q {
        self.queries
    }

    /// How many query bodies have been executed so far: the cache-miss
    /// counter of the instrumentation hook.
    pub closed spec fn recompute_count(self) -> u64 {
        self.recomputes
    }

    /// The configured LRU capacity of query `f` (`0` = unbounded).
    pub closed spec fn capacity_of(self, f: u64) -> u64 {
        if (f as int) < self.tables@.len() {
            self.tables@[f as int].capacity
        } else {
            0
        }
    }

    /// How many cached results query `f` currently holds.
    pub closed spec fn cached_count(self, f: u64) -> nat {
        if (f as int) < self.tables@.len() {
            self.tables@[f as int].entries@.len()
        } else {
            0
        }
    }

    /// The memo stored for query `f` on `key`, if any.
    pub closed spec fn memo_of(self, f: u64, key: Key) -> Option<MemoSpec> {
        if (f as int) < self.tables@.len() {
            self.tables@[f as int].memo_of(key)
        } else {
            None
        }
    }

    /// Both databases hold the same inputs at the same revision.
    pub open spec fn same_inputs(self, other: Self) -> bool {
        &&& self.rev() == other.rev()
        &&& self.n_cells() == other.n_cells()
        &&& forall|c: int|
            0 <= c < other.n_cells() ==> self.cell_value(c) == other.cell_value(c)
                && self.cell_changed_at(c) == other.cell_changed_at(c)
    }

    /// Both databases store the same memos.
    pub open spec fn memos_agree(self, other: Self) -> bool {
        forall|g: u64, k: Key| self.memo_of(g, k) == other.memo_of(g, k)
    }

    /// Both databases store the same memos, counts and capacities.
    pub open spec fn caches_agree(self, other: Self) -> bool {
        &&& self.memos_agree(other)
        &&& forall|g: u64|
            self.cached_count(g) == other.cached_count(g) && self.capacity_of(g)
                == other.capacity_of(g)
    }

    /// Internal invariant of one memo table.
    pub closed spec fn table_inv(self, g: int) -> bool {
        table_wf(self.queries, self.cells@.len(), self.revision, g as u64, self.tables@[g])
    }

    /// Core well-formedness: tables are well-formed and nothing was stamped
    /// past the current revision.
    pub closed spec fn core_inv(self) -> bool {
        &&& self.interner.wf()
        &&& forall|g: int| 0 <= g < self.tables@.len() ==> self.table_inv(g)
        &&& forall|c: int| 0 <= c < self.cells@.len() ==> self.cells@[c].changed_at <= self.revision
    }

    /// Every table respects its configured capacity.
    pub closed spec fn caps_ok(self) -> bool {
        forall|g: int|
            0 <= g < self.tables@.len() ==> (self.tables@[g].capacity == 0 || self.tables@[g].entries@.len()
                <= self.tables@[g].capacity)
    }

    /// The public well-formedness of a database; established by `new` and
    /// preserved by every operation.
    pub closed spec fn inv(self) -> bool {
        self.core_inv() && self.caps_ok()
    }

    /// A fresh database over the given query set: revision 1, no cells, no
    /// memos, nothing interned, every capacity unbounded.
    pub fn new(queries: Q) -> (r: Self)
        ensures
            r.inv(),
            r.rev() == 1,
            r.n_cells() == 0,
            r.recompute_count() == 0,
            r.prog() == queries,
            r.intern_state().wf(),
            r.intern_state().n_slots() == 0,
            forall|g: u64, k: Key| r.memo_of(g, k) is None,
            forall|g: u64| r.cached_count(g) == 0 && r.capacity_of(g) == 0,
    {
        Database {
            queries,
            revision: 1,
            cells: Vec::new(),
            interner: Interner::new(),
            tables: Vec::new(),
            tick: 0,
            recomputes: 0,
        }
    }

    /// Registers a new input cell holding `v`; its `changed_at` is the
    /// current revision, and the clock does not advance.
    pub fn new_cell(&mut self, v: Value) -> (h: CellHandle)
        requires
            old(self).inv(),
        ensures
            final(self).inv(),
            h.id == old(self).n_cells(),
            final(self).n_cells() == old(self).n_cells() + 1,
            final(self).cell_value(h.id as int) == v@,
            final(self).cell_changed_at(h.id as int) == old(self).rev(),
            final(self).rev() == old(self).rev(),
            forall|c: int|
                0 <= c < old(self).n_cells() ==> final(self).cell_value(c) == old(self).cell_value(
                    c,
                ) && final(self).cell_changed_at(c) == old(self).cell_changed_at(c),
            final(self).caches_agree(*old(self)),
            final(self).intern_state() == old(self).intern_state(),
            final(self).prog() == old(self).prog(),
            final(self).recompute_count() == old(self).recompute_count(),
    {
        let id = self.cells.len() as u64;
        let changed_at = self.revision;
        self.cells.push(InputCell { value: v, changed_at });
        proof {
            assert forall|g: int| 0 <= g < self.tables@.len() implies self.table_inv(g) by {
                assert(old(self).table_inv(g));
                let t = self.tables@[g];
                assert forall|k: Key| memo_inv_opt(
                    self.queries,
                    self.cells@.len(),
                    self.revision,
                    g as u64,
                    k,
                    #[trigger] t.memo_of(k),
                ) by {
                    assert(memo_inv_opt(
                        old(self).queries,
                        old(self).cells@.len(),
                        old(self).revision,
                        g as u64,
                        k,
                        t.memo_of(k),
                    ));
                }
            }
        }
        CellHandle { id }
    }

    /// Reads the current value of an input cell; pure, no side effect.
    pub fn read_cell(&self, h: CellHandle) -> (v: Value)
        requires
            self.inv(),
            (h.id as int) < self.n_cells(),
        ensures
            v@ == self.cell_value(h.id as int),
    {
        let n = self.cells.len();
        proof {
            assert(n == self.cells@.len());
        }
        self.cells[h.id as usize].value.clone()
    }

    /// Writes an input cell: advances the revision clock by one tick and
    /// stamps the cell with the new revision. Exclusive (`&mut`) access makes
    /// a write during an active read impossible by construction.
    pub fn write_cell(&mut self, h: CellHandle, v: Value)
        requires
            old(self).inv(),
            (h.id as int) < old(self).n_cells(),
            old(self).rev() < u64::MAX,
        ensures
            final(self).inv(),
            final(self).rev() == old(self).rev() + 1,
            final(self).n_cells() == old(self).n_cells(),
            final(self).cell_value(h.id as int) == v@,
            final(self).cell_changed_at(h.id as int) == final(self).rev(),
            forall|c: int|
                0 <= c < old(self).n_cells() && c != h.id ==> final(self).cell_value(c) == old(self).cell_value(c) && final(self).cell_changed_at(c) == old(self).cell_changed_at(c),
            final(self).caches_agree(*old(self)),
            final(self).intern_state() == old(self).intern_state(),
            final(self).prog() == old(self).prog(),
            final(self).recompute_count() == old(self).recompute_count(),
    {
        let n = self.cells.len();
        proof {
            assert(n == self.cells@.len());
        }
        self.revision = self.revision + 1;
        let changed_at = self.revision;
        self.cells[h.id as usize] = InputCell { value: v, changed_at };
        proof {
            assert forall|g: int| 0 <= g < self.tables@.len() implies self.table_inv(g) by {
                assert(old(self).table_inv(g));
                let t = self.tables@[g];
                assert forall|k: Key| memo_inv_opt(
                    self.queries,
                    self.cells@.len(),
                    self.revision,
                    g as u64,
                    k,
                    #[trigger] t.memo_of(k),
                ) by {
                    assert(memo_inv_opt(
                        old(self).queries,
                        old(self).cells@.len(),
                        old(self).revision,
                        g as u64,
                        k,
                        t.memo_of(k),
                    ));
                }
            }
        }
    }

    /// Interns a value: equal content always yields the same identifier.
    pub fn intern(&mut self, v: Value) -> (id: u64)
        requires
            old(self).inv(),
            old(self).intern_state().n_slots() < u64::MAX,
        ensures
            final(self).inv(),
            final(self).intern_state().wf(),
            final(self).intern_state().live(id as int),
            final(self).intern_state().content_of(id as int) == v@,
            old(self).intern_state().has(v@) ==> old(self).intern_state().live(id as int) && old(self).intern_state().content_of(id as int) == v@ && final(self).intern_state().n_slots()
                == old(self).intern_state().n_slots(),
            !old(self).intern_state().has(v@) ==> id == old(self).intern_state().n_slots() && final(self).intern_state().n_slots() == old(self).intern_state().n_slots() + 1,
            forall|j: int|
                j != id && 0 <= j < old(self).intern_state().n_slots() ==> (final(self).intern_state().live(j) <==> old(self).intern_state().live(j)) && final(self).intern_state().content_of(j) == old(self).intern_state().content_of(j),
            final(self).same_inputs(*old(self)),
            final(self).caches_agree(*old(self)),
            final(self).prog() == old(self).prog(),
            final(self).recompute_count() == old(self).recompute_count(),
    {
        let id = self.interner.intern(v);
        proof {
            assert forall|g: int| 0 <= g < self.tables@.len() implies self.table_inv(g) by {
                assert(old(self).table_inv(g));
                let t = self.tables@[g];
                assert forall|k: Key| memo_inv_opt(
                    self.queries,
                    self.cells@.len(),
                    self.revision,
                    g as u64,
                    k,
                    #[trigger] t.memo_of(k),
                ) by {
                    assert(memo_inv_opt(
                        old(self).queries,
                        old(self).cells@.len(),
                        old(self).revision,
                        g as u64,
                        k,
                        t.memo_of(k),
                    ));
                }
            }
        }
        id
    }

    /// Looks up interned content; a released or never-issued identifier gives
    /// a stale-identifier error.
    pub fn lookup_interned(&self, id: u64) -> (r: Result<Value, EngineError>)
        requires
            self.inv(),
        ensures
            self.intern_state().live(id as int) ==> (r matches Ok(v) && v@
                == self.intern_state().content_of(id as int)),
            !self.intern_state().live(id as int) ==> r == Err::<Value, EngineError>(
                EngineError::StaleId,
            ),
    {
        self.interner.lookup(id)
    }

    /// Releases one reference of an interned identifier.
    pub fn release_interned(&mut self, id: u64) -> (r: Result<(), EngineError>)
        requires
            old(self).inv(),
        ensures
            final(self).inv(),
            !old(self).intern_state().live(id as int) ==> r == Err::<(), EngineError>(
                EngineError::StaleId,
            ) && final(self).intern_state() == old(self).intern_state(),
            old(self).intern_state().live(id as int) ==> r is Ok && {
                &&& old(self).intern_state().refs_of(id as int) > 1 ==> final(self).intern_state().live(id as int) && final(self).intern_state().content_of(id as int)
                    == old(self).intern_state().content_of(id as int) && final(self).intern_state().refs_of(id as int) == old(self).intern_state().refs_of(id as int) - 1
                &&& old(self).intern_state().refs_of(id as int) == 1 ==> !final(self).intern_state().live(id as int)
            },
            forall|j: int|
                j != id && 0 <= j < old(self).intern_state().n_slots() ==> (final(self).intern_state().live(j) <==> old(self).intern_state().live(j)) && final(self).intern_state().content_of(j) == old(self).intern_state().content_of(j),
            final(self).same_inputs(*old(self)),
            final(self).caches_agree(*old(self)),
            final(self).prog() == old(self).prog(),
            final(self).recompute_count() == old(self).recompute_count(),
    {
        let r = self.interner.release(id);
        proof {
            assert forall|g: int| 0 <= g < self.tables@.len() implies self.table_inv(g) by {
                assert(old(self).table_inv(g));
                let t = self.tables@[g];
                assert forall|k: Key| memo_inv_opt(
                    self.queries,
                    self.cells@.len(),
                    self.revision,
                    g as u64,
                    k,
                    #[trigger] t.memo_of(k),
                ) by {
                    assert(memo_inv_opt(
                        old(self).queries,
                        old(self).cells@.len(),
                        old(self).revision,
                        g as u64,
                        k,
                        t.memo_of(k),
                    ));
                }
            }
        }
        r
    }

    /// Advances the LRU clock.
    fn next_tick(&mut self) -> (t: u64)
        ensures
            *final(self) == (Database { tick: final(self).tick, ..*old(self) }),
    {
        if self.tick < u64::MAX {
            self.tick = self.tick + 1;
        }
        self.tick
    }

    /// Counts one execution of a query body.
    fn bump_recomputes(&mut self)
        ensures
            *final(self) == (Database { recomputes: final(self).recomputes, ..*old(self) }),
            final(self).recomputes >= old(self).recomputes,
            old(self).recomputes < u64::MAX ==> final(self).recomputes == old(self).recomputes + 1,
    {
        if self.recomputes < u64::MAX {
            self.recomputes = self.recomputes + 1;
        }
    }

    /// Grows the table vector until query `f` has a table.
    fn ensure_table(&mut self, f: u64)
        ensures
            *final(self) == (Database { tables: final(self).tables, ..*old(self) }),
            final(self).tables@.len() > f,
            final(self).tables@.len() >= old(self).tables@.len(),
            forall|g: int|
                0 <= g < old(self).tables@.len() ==> final(self).tables@[g] == old(self).tables@[g],
            forall|g: int|
                old(self).tables@.len() <= g < final(self).tables@.len() ==> final(self).tables@[g].entries@.len() == 0 && final(self).tables@[g].capacity == 0,
            old(self).tables@.len() > f ==> *final(self) == *old(self),
    {
        while self.tables.len() as u64 <= f
            invariant
                *self == (Database { tables: self.tables, ..*old(self) }),
                old(self).tables@.len() > f ==> *self == *old(self),
                self.tables@.len() >= old(self).tables@.len(),
                forall|g: int|
                    0 <= g < old(self).tables@.len() ==> self.tables@[g] == old(self).tables@[g],
                forall|g: int|
                    old(self).tables@.len() <= g < self.tables@.len() ==> self.tables@[g].entries@.len()
                        == 0 && self.tables@[g].capacity == 0,
            decreases f + 1 - self.tables@.len(),
        {
            self.tables.push(MemoTable::new());
        }
    }

    /// Extending the table vector with empty tables changes nothing a
    /// contract can see.
    proof fn lemma_tables_extended(a: Self, b: Self)
        requires
            b == (Database { tables: b.tables, ..a }),
            b.tables@.len() >= a.tables@.len(),
            forall|g: int| 0 <= g < a.tables@.len() ==> b.tables@[g] == a.tables@[g],
            forall|g: int|
                a.tables@.len() <= g < b.tables@.len() ==> b.tables@[g].entries@.len() == 0
                    && b.tables@[g].capacity == 0,
        ensures
            b.caches_agree(a),
            a.core_inv() ==> b.core_inv(),
            a.caps_ok() ==> b.caps_ok(),
    {
        assert forall|g: u64, k: Key| b.memo_of(g, k) == a.memo_of(g, k) by {
            if (g as int) < a.tables@.len() {
            } else if (g as int) < b.tables@.len() {
                assert(!b.tables@[g as int].has_key(k));
            }
        }
        if a.core_inv() {
            assert forall|g: int| 0 <= g < b.tables@.len() implies b.table_inv(g) by {
                if g < a.tables@.len() {
                    assert(a.table_inv(g));
                }
            }
        }
    }

    /// Turns a query identity into a table index, once its table exists.
    fn table_index(&self, f: u64) -> (i: usize)
        requires
            (f as int) < self.tables@.len(),
        ensures
            i == f,
    {
        let n = self.tables.len();
        proof {
            assert(n == self.tables@.len());
        }
        f as usize
    }

    /// Configures the LRU capacity of query `f` (`0` = unbounded) and, when
    /// the bound shrank, immediately evicts down to it.
    pub fn set_lru_capacity(&mut self, f: u64, cap: u64)
        requires
            old(self).inv(),
        ensures
            final(self).inv(),
            final(self).capacity_of(f) == cap,
            forall|g: u64| g != f ==> final(self).capacity_of(g) == old(self).capacity_of(g),
            forall|g: u64, k: Key|
                g != f ==> final(self).memo_of(g, k) == old(self).memo_of(g, k),
            forall|g: u64| g != f ==> final(self).cached_count(g) == old(self).cached_count(g),
            forall|k: Key|
                final(self).memo_of(f, k) is Some ==> final(self).memo_of(f, k) == old(self).memo_of(f, k),
            final(self).cached_count(f) == (if cap == 0 || old(self).cached_count(f) <= cap {
                old(self).cached_count(f) as int
            } else {
                cap as int
            }),
            final(self).same_inputs(*old(self)),
            final(self).intern_state() == old(self).intern_state(),
            final(self).prog() == old(self).prog(),
            final(self).recompute_count() == old(self).recompute_count(),
    {
        self.ensure_table(f);
        let ghost grown = *self;
        proof {
            Self::lemma_tables_extended(*old(self), grown);
        }
        let fi = self.table_index(f);
        self.tables[fi].capacity = cap;
        let ghost withcap = *self;
        proof {
            assert(grown.table_inv(f as int));
            assert(self.tables@[f as int].entries@ == grown.tables@[f as int].entries@);
            assert(self.tables@[f as int].keys_unique());
        }
        self.tables[fi].enforce_capacity(None);
        proof {
            assert(withcap.tables@[f as int].entries@ == grown.tables@[f as int].entries@);
            assert forall|g: int| 0 <= g < self.tables@.len() implies self.table_inv(g) by {
                assert(grown.table_inv(g));
                let t = self.tables@[g];
                assert forall|k: Key| memo_inv_opt(
                    self.queries,
                    self.cells@.len(),
                    self.revision,
                    g as u64,
                    k,
                    #[trigger] t.memo_of(k),
                ) by {
                    if g != f {
                        assert(t.memo_of(k) == grown.tables@[g].memo_of(k));
                    } else {
                        assert(withcap.tables@[g].memo_of(k) == grown.tables@[g].memo_of(k)) by {
                            crate::memo::lemma_same_views_same_memos(
                                grown.tables@[g],
                                withcap.tables@[g],
                            );
                        }
                        if t.memo_of(k) is Some {
                            assert(t.memo_of(k) == withcap.tables@[g].memo_of(k));
                        }
                    }
                    assert(memo_inv_opt(
                        grown.queries,
                        grown.cells@.len(),
                        grown.revision,
                        g as u64,
                        k,
                        grown.tables@[g].memo_of(k),
                    ));
                }
            }
            assert forall|g: int| 0 <= g < self.tables@.len() implies (self.tables@[g].capacity
                == 0 || self.tables@[g].entries@.len() <= self.tables@[g].capacity) by {
                if g != f {
                    assert(grown.tables@[g] == self.tables@[g]);
                    assert(grown.caps_ok());
                }
            }
            assert forall|g: u64, k: Key| g != f implies self.memo_of(g, k) == old(self).memo_of(
                g,
                k,
            ) by {
                assert(grown.memo_of(g, k) == old(self).memo_of(g, k));
                if (g as int) < self.tables@.len() {
                    assert(self.tables@[g as int] == grown.tables@[g as int]);
                }
            }
        }
    }


    /// Whether the pair `(f, key)` is on the in-progress stack.
    fn active_contains(active: &Vec<(u64, Key)>, f: u64, key: Key) -> (r: bool)
        ensures
            r == active@.contains((f, key)),
    {
        let mut i: usize = 0;
        while i < active.len()
            invariant
                i <= active@.len(),
                forall|j: int| 0 <= j < i ==> active@[j] != (f, key),
            decreases active@.len() - i,
        {
            if active[i].0 == f && active[i].1 == key {
                proof {
                    assert(active@[i as int] == (f, key));
                }
                return true;
            }
            i = i + 1;
        }
        proof {
            assert(!active@.contains((f, key)));
        }
        false
    }

    /// Answers query `f` on `key`: returns the cached value when it is still
    /// valid (re-verifying its dependencies without recomputation where
    /// possible: early cutoff), and otherwise runs the body with dependency
    /// recording active. Returns the value together with its `changed_at`
    /// revision. `active` is the in-progress stack used for cycle detection.
    fn get_or_compute(&mut self, f: u64, key: Key, active: &mut Vec<(u64, Key)>) -> (r: Result<
        (Value, u64),
        EngineError,
    >)
        requires
            old(self).core_inv(),
        ensures
            final(self).core_inv(),
            final(self).cells@ == old(self).cells@,
            final(self).revision == old(self).revision,
            final(self).queries == old(self).queries,
            final(self).interner == old(self).interner,
            final(active)@ == old(active)@,
            final(self).recompute_count() >= old(self).recompute_count(),
            final(self).tables@.len() >= old(self).tables@.len(),
            forall|g: u64| final(self).capacity_of(g) == old(self).capacity_of(g),
            forall|g: u64| final(self).cached_count(g) >= old(self).cached_count(g),
            forall|j: int|
                #![trigger old(active)@[j]]
                0 <= j < old(active)@.len() ==> final(self).memo_of(
                    old(active)@[j].0,
                    old(active)@[j].1,
                ) == old(self).memo_of(old(active)@[j].0, old(active)@[j].1),
            old(active)@.contains((f, key)) ==> r == Err::<(Value, u64), EngineError>(
                EngineError::Cycle,
            ) && final(self).caches_agree(*old(self)) && final(self).recompute_count() == old(self).recompute_count(),
            (r matches Ok(p) ==> final(self).memo_of(f, key) matches Some(m) && m.value == p.0@
                && m.verified_at == old(self).rev() && m.changed_at == p.1 && p.1 <= old(self).rev()),
            old(self).memo_of(f, key) matches Some(m) ==> ((m.verified_at == old(self).rev()
                && !old(active)@.contains((f, key))) ==> (r matches Ok(p) && p.0@ == m.value
                && p.1 == m.changed_at && final(self).caches_agree(*old(self)) && final(self).recompute_count() == old(self).recompute_count())),
            (old(self).memo_of(f, key) is None && !old(active)@.contains((f, key))
                && no_derived_reads(old(self).queries, f, key) && r is Ok) ==> {
                &&& final(self).cached_count(f) == old(self).cached_count(f) + 1
                &&& forall|g: u64| g != f ==> final(self).cached_count(g) == old(self).cached_count(g)
                &&& forall|g: u64, k2: Key|
                    !(g == f && k2 == key) ==> final(self).memo_of(g, k2) == old(self).memo_of(g, k2)
                &&& (old(self).recomputes < u64::MAX ==> final(self).recomputes == old(self).recomputes + 1)
            },
            (old(self).memo_of(f, key) is None && !old(active)@.contains((f, key)) && self_cycle(
                old(self).queries,
                f,
                key,
            )) ==> r == Err::<(Value, u64), EngineError>(EngineError::Cycle),
            // a cold body whose first read is a derived query that is already
            // in progress fails with the cycle error
            forall|g2: u64, k2: Key|
                #![trigger old(active)@.push((f, key)).contains((g2, k2))]
                (old(self).memo_of(f, key) is None && !old(active)@.contains((f, key)) && old(self).queries.step_spec(
                    f,
                    key,
                    Seq::empty(),
                ) == StepSpec::ReadDerived(g2, k2) && old(active)@.push((f, key)).contains(
                    (g2, k2),
                )) ==> r == Err::<(Value, u64), EngineError>(EngineError::Cycle),
            // and one level deeper: the first read leads to a cold body whose
            // own first read is already in progress
            forall|g2: u64, k2: Key|
                #![trigger old(self).queries.step_spec(g2, k2, Seq::empty())]
                (old(self).memo_of(f, key) is None && !old(active)@.contains((f, key)) && old(self).queries.step_spec(
                    f,
                    key,
                    Seq::empty(),
                ) == StepSpec::ReadDerived(g2, k2) && !old(active)@.push((f, key)).contains(
                    (g2, k2),
                ) && old(self).memo_of(g2, k2) is None && (
                match old(self).queries.step_spec(g2, k2, Seq::empty()) {
                    StepSpec::ReadDerived(g3, k3) => old(active)@.push((f, key)).push(
                        (g2, k2),
                    ).contains((g3, k3)),
                    _ => false,
                })) ==> r == Err::<(Value, u64), EngineError>(EngineError::Cycle),
            // early cutoff: a memo whose recorded dependencies are input cells
            // that have not changed is confirmed without running the body
            old(self).memo_of(f, key) matches Some(m) ==> ((!old(active)@.contains((f, key))
                && cell_deps_clean(*old(self), m.deps)) ==> (r matches Ok(p) && p.0@ == m.value
                && p.1 == m.changed_at && final(self).recompute_count() == old(self).recompute_count()
                && final(self).memo_of(f, key) == Some(
                MemoSpec { verified_at: old(self).rev(), ..m },
            ))),
            // invalidation: a single-cell query whose recorded cell has
            // changed recomputes exactly once, on the current cell content
            old(self).memo_of(f, key) matches Some(m) ==> (forall|c: u64|
                #![trigger single_cell_query(old(self).queries, f, key, c)]
                (single_cell_query(old(self).queries, f, key, c) && (c as int) < old(self).cells@.len()
                    && !old(active)@.contains((f, key)) && m.verified_at < old(self).rev()
                    && m.deps.len() == 1 && m.deps[0].target == DepTarget::Cell(c)
                    && old(self).cell_changed_at(c as int) > m.deps[0].snap) ==> (r matches Ok(p)
                    && StepSpec::Done(p.0@) == old(self).queries.step_spec(
                    f,
                    key,
                    seq![old(self).cells@[c as int].value@],
                ) && p.1 == (if m.value == p.0@ {
                    m.changed_at
                } else {
                    old(self).rev()
                }) && (old(self).recompute_count() < u64::MAX ==> final(self).recompute_count()
                    == old(self).recompute_count() + 1) && final(self).memo_of(f, key) == Some(
                    MemoSpec {
                        value: p.0@,
                        verified_at: old(self).rev(),
                        changed_at: p.1,
                        deps: seq![
                            Dep {
                                target: DepTarget::Cell(c),
                                snap: old(self).cell_changed_at(c as int),
                            },
                        ],
                    },
                ))),
            // cold miss of a single-cell query: computed from the current
            // cell content and stamped with the current revision
            (old(self).memo_of(f, key) is None && !old(active)@.contains((f, key))) ==> (forall|
                c: u64,
            |
                #![trigger single_cell_query(old(self).queries, f, key, c)]
                (single_cell_query(old(self).queries, f, key, c) && (c as int) < old(self).cells@.len()) ==> (r matches Ok(p)
                    && StepSpec::Done(p.0@) == old(self).queries.step_spec(
                    f,
                    key,
                    seq![old(self).cells@[c as int].value@],
                ) && p.1 == old(self).rev() && (old(self).recompute_count() < u64::MAX ==> final(self).recompute_count() == old(self).recompute_count() + 1) && final(self).memo_of(
                    f,
                    key,
                ) == Some(
                    MemoSpec {
                        value: p.0@,
                        verified_at: old(self).rev(),
                        changed_at: old(self).rev(),
                        deps: seq![
                            Dep {
                                target: DepTarget::Cell(c),
                                snap: old(self).cells@[c as int].changed_at,
                            },
                        ],
                    },
                ))),
            // a failed or cyclic attempt is never cached: on any error the
            // memo for this query and key is exactly what it was
            r is Err ==> final(self).memo_of(f, key) == old(self).memo_of(f, key),
            // a query with no derived reads, whose memo (if any) records only
            // input-cell dependencies, touches no other memo
            (no_derived_reads(old(self).queries, f, key) && (match old(self).memo_of(f, key) {
                Some(m) => only_cell_deps(m.deps),
                None => true,
            })) ==> (forall|g: u64, k2: Key|
                !(g == f && k2 == key) ==> final(self).memo_of(g, k2) == old(self).memo_of(g, k2))
                && (forall|g: u64| g != f ==> final(self).cached_count(g) == old(self).cached_count(g)),
            // a query that reads nothing: computed once, then permanently
            // valid (its memo records no dependencies)
            (old(self).memo_of(f, key) is None && !old(active)@.contains((f, key))
                && no_read_query(old(self).queries, f, key)) ==> (r matches Ok(p)
                && StepSpec::Done(p.0@) == old(self).queries.step_spec(f, key, Seq::empty())
                && p.1 == old(self).rev() && final(self).memo_of(f, key) == Some(
                MemoSpec {
                    value: p.0@,
                    verified_at: old(self).rev(),
                    changed_at: old(self).rev(),
                    deps: Seq::empty(),
                },
            )),
            // a query over an interned value: on a miss, a live identifier
            // gives the body's result on the interned content, and a released
            // one fails with the stale-identifier error
            forall|id: u64|
                #![trigger single_intern_query(old(self).queries, f, key, id)]
                (old(self).memo_of(f, key) is None && !old(active)@.contains((f, key))
                    && single_intern_query(old(self).queries, f, key, id) && old(self).interner.live(
                    id as int,
                )) ==> (r matches Ok(p) && StepSpec::Done(p.0@) == old(self).queries.step_spec(
                    f,
                    key,
                    seq![old(self).interner.content_of(id as int)],
                ) && final(self).memo_of(f, key) == Some(
                    MemoSpec {
                        value: p.0@,
                        verified_at: old(self).rev(),
                        changed_at: p.1,
                        deps: Seq::empty(),
                    },
                )),
            forall|id: u64|
                #![trigger single_intern_query(old(self).queries, f, key, id)]
                (old(self).memo_of(f, key) is None && !old(active)@.contains((f, key))
                    && single_intern_query(old(self).queries, f, key, id) && !old(self).interner.live(
                    id as int,
                )) ==> r == Err::<(Value, u64), EngineError>(EngineError::StaleId),
            // a cold one-level derived chain: the stored memo records exactly
            // the derived dependency, with the snapshot its memo carries
            forall|fl: u64, kl: Key|
                #![trigger single_derived_query(old(self).queries, f, key, fl, kl)]
                (single_derived_query(old(self).queries, f, key, fl, kl) && old(self).memo_of(
                    f,
                    key,
                ) is None && !old(active)@.contains((f, key)) && r is Ok) ==> (r matches Ok(p) && (
                final(self).memo_of(fl, kl) matches Some(m2) && StepSpec::Done(p.0@) == old(self).queries.step_spec(
                    f,
                    key,
                    seq![m2.value],
                ) && final(self).memo_of(f, key) == Some(
                    MemoSpec {
                        value: p.0@,
                        verified_at: old(self).rev(),
                        changed_at: old(self).rev(),
                        deps: seq![
                            Dep { target: DepTarget::Derived(fl, kl), snap: m2.changed_at },
                        ],
                    },
                ))),
            // early cutoff through a derived dependency: the dependency
            // recomputes once to its unchanged value, so this memo is
            // confirmed without running its body
            forall|mg: MemoSpec, fl: u64, kl: Key, c: u64|
                #![trigger derived_cutoff_scenario(*old(self), f, key, mg, fl, kl, c)]
                (derived_cutoff_scenario(*old(self), f, key, mg, fl, kl, c) && !old(active)@.contains(
                    (f, key),
                ) && !old(active)@.contains((fl, kl))) ==> (r matches Ok(p) && p.0@ == mg.value
                    && p.1 == mg.changed_at && (old(self).recomputes < u64::MAX ==> final(self).recomputes
                    == old(self).recomputes + 1) && final(self).memo_of(f, key) == Some(
                    MemoSpec { verified_at: old(self).rev(), ..mg },
                )),
        decreases old(self).queries.rank(f, key), 1int,
    {
        if Self::active_contains(active, f, key) {
            return Err(EngineError::Cycle);
        }
        self.ensure_table(f);
        let ghost grown = *self;
        proof {
            Self::lemma_tables_extended(*old(self), grown);
        }
        let fi = self.table_index(f);
        proof {
            assert(grown.core_inv());
            assert(grown.table_inv(f as int));
            assert(self.tables@[f as int].keys_unique());
        }
        let found = self.tables[fi].find(key);
        if let Some(i) = found {
            if self.tables[fi].entries[i].verified_at == self.revision {
                // still verified at the current revision: a pure cache hit
                let v = self.tables[fi].entries[i].value.clone();
                let ca = self.tables[fi].entries[i].changed_at;
                let ghost base = *self;
                let tk = self.next_tick();
                proof {
                    assert forall|g2: int| 0 <= g2 < self.tables@.len() implies self.table_inv(
                        g2,
                    ) by {
                        assert(base.table_inv(g2));
                    }
                    assert(self.tables@[f as int].keys_unique());
                }
                self.tables[fi].touch(i, tk);
                proof {
                    assert(grown.memo_of(f, key) == Some(grown.tables@[f as int].entries@[
                        i as int
                    ]@));
                    assert(*old(self) == grown);
                    match old(self).memo_of(f, key) {
                        Some(m) => {
                            assert(m == grown.tables@[f as int].entries@[i as int]@);
                            assert(m.verified_at == old(self).rev());
                            assert((MemoSpec { verified_at: old(self).rev(), ..m }) =~= m);
                        },
                        None => {},
                    }
                    assert forall|g2: u64, k2: Key| self.memo_of(g2, k2) == grown.memo_of(
                        g2,
                        k2,
                    ) by {
                        if g2 != f && (g2 as int) < self.tables@.len() {
                            assert(self.tables@[g2 as int] == grown.tables@[g2 as int]);
                        }
                    }
                    assert forall|g2: int| 0 <= g2 < self.tables@.len() implies self.table_inv(
                        g2,
                    ) by {
                        assert(grown.table_inv(g2));
                        let t = self.tables@[g2];
                        assert forall|k2: Key| memo_inv_opt(
                            self.queries,
                            self.cells@.len(),
                            self.revision,
                            g2 as u64,
                            k2,
                            #[trigger] t.memo_of(k2),
                        ) by {
                            if g2 == f {
                                assert(t.memo_of(k2) == grown.tables@[g2].memo_of(k2));
                            } else {
                                assert(t == grown.tables@[g2]);
                            }
                            assert(memo_inv_opt(
                                grown.queries,
                                grown.cells@.len(),
                                grown.revision,
                                g2 as u64,
                                k2,
                                grown.tables@[g2].memo_of(k2),
                            ));
                        }
                    }
                }
                return Ok((v, ca));
            }
        }
        active.push((f, key));
        if let Some(i) = found {
            // re-verify the recorded dependencies in order
            let deps_c = clone_deps(&self.tables[fi].entries[i].deps);
            let ghost m0 = self.tables@[f as int].entries@[i as int]@;
            proof {
                assert(*self == *old(self));
                assert(self.memo_of(f, key) == Some(m0));
                assert(old(self).memo_of(f, key) == Some(m0));
                assert(memo_inv_opt(
                    self.queries,
                    self.cells@.len(),
                    self.revision,
                    f,
                    key,
                    self.tables@[f as int].memo_of(key),
                ));
                assert(m0.verified_at < self.revision);
            }
            let mut clean = true;
            let n = deps_c.len();
            let mut di: usize = 0;
            while di < n && clean
                invariant
                    self.core_inv(),
                    self.queries == old(self).queries,
                    self.revision == old(self).revision,
                    self.cells@ == old(self).cells@,
                    self.interner == old(self).interner,
                    (f as int) < self.tables@.len(),
                    self.tables@.len() >= old(self).tables@.len(),
                    fi == f,
                    self.recomputes >= old(self).recomputes,
                    forall|g: u64| self.capacity_of(g) == old(self).capacity_of(g),
                    forall|g: u64| self.cached_count(g) >= old(self).cached_count(g),
                    active@ == old(active)@.push((f, key)),
                    !old(active)@.contains((f, key)),
                    forall|j: int|
                        #![trigger old(active)@[j]]
                        0 <= j < old(active)@.len() ==> self.memo_of(
                            old(active)@[j].0,
                            old(active)@[j].1,
                        ) == old(self).memo_of(old(active)@[j].0, old(active)@[j].1),
                    self.memo_of(f, key) == Some(m0),
                    old(self).memo_of(f, key) == Some(m0),
                    m0.verified_at < self.revision,
                    m0.changed_at <= m0.verified_at,
                    deps_c@ == m0.deps,
                    n == deps_c@.len(),
                    di <= n,
                    forall|d: int|
                        0 <= d < n ==> dep_inv(
                            self.queries,
                            self.cells@.len(),
                            f,
                            key,
                            #[trigger] deps_c@[d],
                        ),
                    cell_deps_clean(*old(self), m0.deps) ==> (clean && *self == *old(self)),
                    only_cell_deps(m0.deps) ==> *self == *old(self),
                    forall|mg: MemoSpec, fl: u64, kl: Key, c: u64|
                        #![trigger derived_cutoff_scenario(*old(self), f, key, mg, fl, kl, c)]
                        (derived_cutoff_scenario(*old(self), f, key, mg, fl, kl, c) && !old(
                            active,
                        )@.contains((f, key)) && !old(active)@.contains((fl, kl))) ==> clean && (di
                            == 0 ==> *self == *old(self)) && (di == 1 ==> (old(self).recomputes
                            < u64::MAX ==> self.recomputes == old(self).recomputes + 1)),
                    forall|c: u64|
                        #![trigger single_cell_query(old(self).queries, f, key, c)]
                        (single_cell_query(old(self).queries, f, key, c) && (c as int) < old(self).cells@.len()
                            && m0.deps.len() == 1 && m0.deps[0].target == DepTarget::Cell(c)
                            && old(self).cell_changed_at(c as int) > m0.deps[0].snap) ==> (*self
                            == *old(self) && (clean ==> di == 0)),
                decreases n - di,
            {
                let d = deps_c[di];
                match d.target {
                    DepTarget::Cell(c) => {
                        if c >= self.cells.len() as u64 {
                            clean = false;
                        } else {
                            let ci = c as usize;
                            if self.cells[ci].changed_at > d.snap {
                                clean = false;
                            }
                        }
                    },
                    DepTarget::Derived(g, k2) => {
                        proof {
                            assert(dep_inv(self.queries, self.cells@.len(), f, key, d));
                        }
                        let ghost pre = *self;
                        let ghost preactive = active@;
                        let sub = self.get_or_compute(g, k2, active);
                        proof {
                            assert forall|j: int|
                                #![trigger old(active)@[j]]
                                0 <= j < old(active)@.len() implies self.memo_of(
                                old(active)@[j].0,
                                old(active)@[j].1,
                            ) == old(self).memo_of(old(active)@[j].0, old(active)@[j].1) by {
                                assert(preactive[j] == old(active)@[j]);
                                assert(self.memo_of(preactive[j].0, preactive[j].1)
                                    == pre.memo_of(preactive[j].0, preactive[j].1));
                            }
                            assert(preactive[preactive.len() - 1] == (f, key));
                            assert(self.memo_of(f, key) == pre.memo_of(f, key));
                        }
                        match sub {
                            Ok(p2) => {
                                if p2.1 > d.snap {
                                    clean = false;
                                }
                            },
                            Err(e) => {
                                active.pop();
                                proof {
                                    assert(active@ =~= old(active)@);
                                }
                                return Err(e);
                            },
                        }
                    },
                }
                di = di + 1;
            }
            if clean {
                // every dependency is unchanged: confirm without recomputing
                proof {
                    assert(self.table_inv(f as int));
                }
                let found2 = self.tables[fi].find(key);
                if let Some(i2) = found2 {
                    let v = self.tables[fi].entries[i2].value.clone();
                    let ca = self.tables[fi].entries[i2].changed_at;
                    let ghost base = *self;
                    let tk = self.next_tick();
                    let rev = self.revision;
                    let ghost pre = *self;
                    proof {
                        assert forall|g2: int| 0 <= g2 < pre.tables@.len() implies pre.table_inv(
                            g2,
                        ) by {
                            assert(base.table_inv(g2));
                        }
                        assert(pre.tables@[f as int].keys_unique());
                        assert(pre.tables@[f as int].entries@[i2 as int]@ == m0);
                        assert(m0.changed_at <= rev);
                    }
                    self.tables[fi].mark_verified(i2, rev, tk);
                    active.pop();
                    proof {
                        assert(active@ =~= old(active)@);
                        assert(self.tables@[f as int].memo_of(key) == Some(
                            MemoSpec { verified_at: rev, ..m0 },
                        ));
                        assert forall|g2: int| 0 <= g2 < self.tables@.len() implies self.table_inv(
                            g2,
                        ) by {
                            assert(pre.table_inv(g2));
                            let t = self.tables@[g2];
                            assert forall|k2: Key| memo_inv_opt(
                                self.queries,
                                self.cells@.len(),
                                self.revision,
                                g2 as u64,
                                k2,
                                #[trigger] t.memo_of(k2),
                            ) by {
                                if g2 == f && k2 == key {
                                    assert(t.memo_of(k2) == Some(
                                        MemoSpec { verified_at: rev, ..m0 },
                                    ));
                                    assert(memo_inv_opt(
                                        pre.queries,
                                        pre.cells@.len(),
                                        pre.revision,
                                        g2 as u64,
                                        k2,
                                        pre.tables@[g2].memo_of(k2),
                                    ));
                                } else {
                                    if g2 == f {
                                        assert(t.memo_of(k2) == pre.tables@[g2].memo_of(k2));
                                    } else {
                                        assert(t == pre.tables@[g2]);
                                    }
                                    assert(memo_inv_opt(
                                        pre.queries,
                                        pre.cells@.len(),
                                        pre.revision,
                                        g2 as u64,
                                        k2,
                                        pre.tables@[g2].memo_of(k2),
                                    ));
                                }
                            }
                        }
                        assert forall|j: int|
                            #![trigger old(active)@[j]]
                            0 <= j < old(active)@.len() implies self.memo_of(
                            old(active)@[j].0,
                            old(active)@[j].1,
                        ) == old(self).memo_of(old(active)@[j].0, old(active)@[j].1) by {
                            let p = old(active)@[j];
                            assert(p != (f, key));
                            if p.0 == f {
                                assert(p.1 != key);
                                assert(self.tables@[f as int].memo_of(p.1) == pre.tables@[
                                    f as int
                                ].memo_of(p.1));
                            } else {
                                if (p.0 as int) < self.tables@.len() {
                                    assert(self.tables@[p.0 as int] == pre.tables@[p.0 as int]);
                                }
                            }
                        }
                    }
                    return Ok((v, ca));
                }
            }
        }
        let ghost pre = *self;
        let r = self.compute_body(f, key, active);
        active.pop();
        proof {
            assert(active@ =~= old(active)@);
            assert forall|c: u64|
                #![trigger single_cell_query(old(self).queries, f, key, c)]
                single_cell_query(old(self).queries, f, key, c) implies no_derived_reads(
                old(self).queries,
                f,
                key,
            ) by {
                assert forall|reads2: Seq<ValSpec>| !((#[trigger] old(self).queries.step_spec(
                    f,
                    key,
                    reads2,
                )) is ReadDerived) by {
                    if reads2.len() == 0 {
                        assert(reads2 =~= Seq::<ValSpec>::empty());
                    }
                }
            }
            assert(pre.cells@ == old(self).cells@);
            assert(pre.revision == old(self).revision);
            assert(pre.queries == old(self).queries);
            assert(pre.memo_of(f, key) == old(self).memo_of(f, key));
            if old(self).memo_of(f, key) is None && no_derived_reads(old(self).queries, f, key)
                && r is Ok {
                assert(pre.memo_of(f, key) is None);
                assert(pre.cached_count(f) == old(self).cached_count(f));
                assert(pre.recomputes == old(self).recomputes);
                assert forall|g: u64| g != f implies self.cached_count(g) == old(self).cached_count(
                    g,
                ) by {
                    if (g as int) < pre.tables@.len() {
                        assert(self.tables@[g as int] == pre.tables@[g as int]);
                    }
                    assert(pre.cached_count(g) == old(self).cached_count(g));
                }
                assert forall|g: u64, k2: Key| !(g == f && k2 == key) implies self.memo_of(g, k2)
                    == old(self).memo_of(g, k2) by {
                    if g != f {
                        if (g as int) < pre.tables@.len() {
                            assert(self.tables@[g as int] == pre.tables@[g as int]);
                        }
                    }
                    assert(pre.memo_of(g, k2) == old(self).memo_of(g, k2));
                }
            }
        }
        r
    }

    /// Runs the body of query `f` on `key` with dependency recording active
    /// and stores the result: the cache-miss path.
    fn compute_body(&mut self, f: u64, key: Key, active: &mut Vec<(u64, Key)>) -> (r: Result<
        (Value, u64),
        EngineError,
    >)
        requires
            old(self).core_inv(),
            (f as int) < old(self).tables@.len(),
            old(active)@.len() > 0,
            old(active)@.last() == (f, key),
            forall|j: int| 0 <= j < old(active)@.len() - 1 ==> old(active)@[j] != (f, key),
        ensures
            final(self).core_inv(),
            final(self).cells@ == old(self).cells@,
            final(self).revision == old(self).revision,
            final(self).queries == old(self).queries,
            final(self).interner == old(self).interner,
            final(active)@ == old(active)@,
            final(self).recompute_count() >= old(self).recompute_count(),
            final(self).tables@.len() >= old(self).tables@.len(),
            forall|g: u64| final(self).capacity_of(g) == old(self).capacity_of(g),
            forall|g: u64| final(self).cached_count(g) >= old(self).cached_count(g),
            forall|j: int|
                #![trigger old(active)@[j]]
                0 <= j < old(active)@.len() - 1 ==> final(self).memo_of(
                    old(active)@[j].0,
                    old(active)@[j].1,
                ) == old(self).memo_of(old(active)@[j].0, old(active)@[j].1),
            (r matches Ok(p) ==> final(self).memo_of(f, key) matches Some(m) && m.value == p.0@
                && m.verified_at == old(self).rev() && m.changed_at == p.1 && p.1 <= old(self).rev()),
            (no_derived_reads(old(self).queries, f, key) && r is Ok) ==> {
                &&& final(self).tables@.len() == old(self).tables@.len()
                &&& forall|g: int|
                    0 <= g < old(self).tables@.len() && g != f ==> final(self).tables@[g] == old(self).tables@[g]
                &&& final(self).cached_count(f) == old(self).cached_count(f) + (if old(self).memo_of(f, key) is Some {
                    0int
                } else {
                    1int
                })
                &&& forall|k2: Key| k2 != key ==> final(self).memo_of(f, k2) == old(self).memo_of(f, k2)
                &&& (old(self).recomputes < u64::MAX ==> final(self).recomputes == old(self).recomputes + 1)
            },
            self_cycle(old(self).queries, f, key) ==> r == Err::<(Value, u64), EngineError>(
                EngineError::Cycle,
            ),
            forall|g2: u64, k2: Key|
                #![trigger old(active)@.contains((g2, k2))]
                (old(self).queries.step_spec(f, key, Seq::empty()) == StepSpec::ReadDerived(
                    g2,
                    k2,
                ) && old(active)@.contains((g2, k2))) ==> r == Err::<(Value, u64), EngineError>(
                    EngineError::Cycle,
                ),
            forall|g2: u64, k2: Key|
                #![trigger old(self).queries.step_spec(g2, k2, Seq::empty())]
                (old(self).queries.step_spec(f, key, Seq::empty()) == StepSpec::ReadDerived(
                    g2,
                    k2,
                ) && !old(active)@.contains((g2, k2)) && old(self).memo_of(g2, k2) is None && (
                match old(self).queries.step_spec(g2, k2, Seq::empty()) {
                    StepSpec::ReadDerived(g3, k3) => old(active)@.push((g2, k2)).contains(
                        (g3, k3),
                    ),
                    _ => false,
                })) ==> r == Err::<(Value, u64), EngineError>(EngineError::Cycle),
            forall|c: u64|
                #![trigger single_cell_query(old(self).queries, f, key, c)]
                (single_cell_query(old(self).queries, f, key, c) && (c as int) < old(self).cells@.len()) ==> (r matches Ok(p)
                    && StepSpec::Done(p.0@) == old(self).queries.step_spec(
                    f,
                    key,
                    seq![old(self).cells@[c as int].value@],
                ) && p.1 == (match old(self).memo_of(f, key) {
                    Some(m) => if m.value == p.0@ {
                        m.changed_at
                    } else {
                        old(self).revision
                    },
                    None => old(self).revision,
                }) && final(self).memo_of(f, key) == Some(
                    MemoSpec {
                        value: p.0@,
                        verified_at: old(self).revision,
                        changed_at: p.1,
                        deps: seq![
                            Dep {
                                target: DepTarget::Cell(c),
                                snap: old(self).cells@[c as int].changed_at,
                            },
                        ],
                    },
                )),
            r is Err ==> final(self).memo_of(f, key) == old(self).memo_of(f, key),
            no_derived_reads(old(self).queries, f, key) ==> final(self).tables@.len() == old(self).tables@.len()
                && (forall|g: int|
                0 <= g < old(self).tables@.len() && g != f ==> final(self).tables@[g] == old(self).tables@[g])
                && (forall|k2: Key|
                k2 != key ==> final(self).memo_of(f, k2) == old(self).memo_of(f, k2)),
            no_read_query(old(self).queries, f, key) ==> (r matches Ok(p) && StepSpec::Done(p.0@)
                == old(self).queries.step_spec(f, key, Seq::empty()) && p.1 == (
            match old(self).memo_of(f, key) {
                Some(m) => if m.value == p.0@ {
                    m.changed_at
                } else {
                    old(self).revision
                },
                None => old(self).revision,
            }) && final(self).memo_of(f, key) == Some(
                MemoSpec {
                    value: p.0@,
                    verified_at: old(self).revision,
                    changed_at: p.1,
                    deps: Seq::empty(),
                },
            )),
            forall|id: u64|
                #![trigger single_intern_query(old(self).queries, f, key, id)]
                (single_intern_query(old(self).queries, f, key, id) && old(self).interner.live(
                    id as int,
                )) ==> (r matches Ok(p) && StepSpec::Done(p.0@) == old(self).queries.step_spec(
                    f,
                    key,
                    seq![old(self).interner.content_of(id as int)],
                ) && final(self).memo_of(f, key) == Some(
                    MemoSpec {
                        value: p.0@,
                        verified_at: old(self).revision,
                        changed_at: p.1,
                        deps: Seq::empty(),
                    },
                )),
            forall|id: u64|
                #![trigger single_intern_query(old(self).queries, f, key, id)]
                (single_intern_query(old(self).queries, f, key, id) && !old(self).interner.live(
                    id as int,
                )) ==> r == Err::<(Value, u64), EngineError>(EngineError::StaleId),
            forall|fl: u64, kl: Key|
                #![trigger single_derived_query(old(self).queries, f, key, fl, kl)]
                (single_derived_query(old(self).queries, f, key, fl, kl) && old(self).memo_of(
                    f,
                    key,
                ) is None && r is Ok) ==> (r matches Ok(p) && (final(self).memo_of(fl, kl) matches Some(
                    m2,
                ) && StepSpec::Done(p.0@) == old(self).queries.step_spec(f, key, seq![m2.value])
                    && final(self).memo_of(f, key) == Some(
                    MemoSpec {
                        value: p.0@,
                        verified_at: old(self).revision,
                        changed_at: old(self).revision,
                        deps: seq![
                            Dep { target: DepTarget::Derived(fl, kl), snap: m2.changed_at },
                        ],
                    },
                ))),
        decreases old(self).queries.rank(f, key), 0int,
    {
        self.bump_recomputes();
        proof {
            assert forall|g2: int| 0 <= g2 < self.tables@.len() implies self.table_inv(g2) by {
                assert(old(self).table_inv(g2));
            }
        }
        let mut reads: Vec<Value> = Vec::new();
        let mut deps: Vec<Dep> = Vec::new();
        loop
            invariant
                self.core_inv(),
                self.queries == old(self).queries,
                self.revision == old(self).revision,
                self.cells@ == old(self).cells@,
                self.interner == old(self).interner,
                (f as int) < self.tables@.len(),
                self.tables@.len() >= old(self).tables@.len(),
                self.recomputes >= old(self).recomputes,
                forall|g: u64| self.capacity_of(g) == old(self).capacity_of(g),
                forall|g: u64| self.cached_count(g) >= old(self).cached_count(g),
                active@ == old(active)@,
                old(active)@.len() > 0,
                old(active)@.last() == (f, key),
                forall|j: int| 0 <= j < old(active)@.len() - 1 ==> old(active)@[j] != (f, key),
                forall|j: int|
                    #![trigger old(active)@[j]]
                    0 <= j < old(active)@.len() - 1 ==> self.memo_of(
                        old(active)@[j].0,
                        old(active)@[j].1,
                    ) == old(self).memo_of(old(active)@[j].0, old(active)@[j].1),
                forall|d: int|
                    0 <= d < deps@.len() ==> dep_inv(
                        self.queries,
                        self.cells@.len(),
                        f,
                        key,
                        #[trigger] deps@[d],
                    ),
                no_derived_reads(old(self).queries, f, key) ==> self.tables@ == old(self).tables@
                    && (old(self).recomputes < u64::MAX ==> self.recomputes == old(self).recomputes
                    + 1),
                self_cycle(old(self).queries, f, key) ==> reads@.len() == 0,
                reads@.len() == 0 ==> self.tables@ == old(self).tables@,
                forall|g2: u64, k2: Key|
                    #![trigger old(active)@.contains((g2, k2))]
                    (old(self).queries.step_spec(f, key, Seq::empty()) == StepSpec::ReadDerived(
                        g2,
                        k2,
                    ) && old(active)@.contains((g2, k2))) ==> reads@.len() == 0,
                forall|g2: u64, k2: Key|
                    #![trigger old(self).queries.step_spec(g2, k2, Seq::empty())]
                    (old(self).queries.step_spec(f, key, Seq::empty()) == StepSpec::ReadDerived(
                        g2,
                        k2,
                    ) && !old(active)@.contains((g2, k2)) && old(self).memo_of(g2, k2) is None && (
                    match old(self).queries.step_spec(g2, k2, Seq::empty()) {
                        StepSpec::ReadDerived(g3, k3) => old(active)@.push((g2, k2)).contains(
                            (g3, k3),
                        ),
                        _ => false,
                    })) ==> reads@.len() == 0,
                forall|c: u64|
                    #![trigger single_cell_query(old(self).queries, f, key, c)]
                    (single_cell_query(old(self).queries, f, key, c) && (c as int) < old(self).cells@.len()) ==> ((reads@.len() == 0 && deps@.len() == 0) || (
                    reads@.len() == 1 && reads@[0]@ == old(self).cells@[c as int].value@ && deps@
                        =~= seq![
                        Dep {
                            target: DepTarget::Cell(c),
                            snap: old(self).cells@[c as int].changed_at,
                        },
                    ])),
                self.memo_of(f, key) == old(self).memo_of(f, key),
                forall|fl: u64, kl: Key|
                    #![trigger single_derived_query(old(self).queries, f, key, fl, kl)]
                    (single_derived_query(old(self).queries, f, key, fl, kl) && old(self).memo_of(
                        f,
                        key,
                    ) is None) ==> ((reads@.len() == 0 && deps@.len() == 0) || (reads@.len() == 1
                        && (self.memo_of(fl, kl) matches Some(m2) && m2.value == reads@[0]@
                        && deps@ =~= seq![
                        Dep { target: DepTarget::Derived(fl, kl), snap: m2.changed_at },
                    ]))),
                no_read_query(old(self).queries, f, key) ==> reads@.len() == 0 && deps@.len()
                    == 0,
                forall|id: u64|
                    #![trigger single_intern_query(old(self).queries, f, key, id)]
                    single_intern_query(old(self).queries, f, key, id) ==> (deps@.len() == 0 && (
                    reads@.len() == 0 || (reads@.len() == 1 && old(self).interner.live(id as int)
                        && reads@[0]@ == old(self).interner.content_of(id as int)))),
            decreases self.queries.read_bound(f, key) - reads@.len(),
        {
            let s = self.queries.step(f, key, &reads);
            let ghost sv = s@;
            proof {
                if reads@.len() == 0 {
                    assert(crate::step::views_of(reads@) =~= Seq::<ValSpec>::empty());
                } else if reads@.len() == 1 {
                    assert(crate::step::views_of(reads@) =~= seq![reads@[0]@]);
                }
            }
            match s {
                Step::Done(v) => {
                    let vc = v.clone();
                    let ghost base = *self;
                    let tk = self.next_tick();
                    let rev = self.revision;
                    let fi = self.table_index(f);
                    let ghost pre = *self;
                    proof {
                        assert forall|g2: int| 0 <= g2 < pre.tables@.len() implies pre.table_inv(
                            g2,
                        ) by {
                            assert(base.table_inv(g2));
                        }
                        assert(pre.table_inv(f as int));
                        assert(pre.tables@[f as int].keys_unique());
                        assert(memo_inv_opt(
                            pre.queries,
                            pre.cells@.len(),
                            pre.revision,
                            f,
                            key,
                            pre.tables@[f as int].memo_of(key),
                        ));
                    }
                    let ca = self.tables[fi].store(key, v, deps, rev, tk);
                    proof {
                        assert forall|g2: int| 0 <= g2 < self.tables@.len() implies self.table_inv(
                            g2,
                        ) by {
                            assert(pre.table_inv(g2));
                            let t = self.tables@[g2];
                            assert forall|k2: Key| memo_inv_opt(
                                self.queries,
                                self.cells@.len(),
                                self.revision,
                                g2 as u64,
                                k2,
                                #[trigger] t.memo_of(k2),
                            ) by {
                                if g2 == f && k2 == key {
                                    assert(t.memo_of(k2) is Some);
                                } else {
                                    if g2 == f {
                                        assert(t.memo_of(k2) == pre.tables@[g2].memo_of(k2));
                                    } else {
                                        assert(t == pre.tables@[g2]);
                                    }
                                    assert(memo_inv_opt(
                                        pre.queries,
                                        pre.cells@.len(),
                                        pre.revision,
                                        g2 as u64,
                                        k2,
                                        pre.tables@[g2].memo_of(k2),
                                    ));
                                }
                            }
                        }
                        assert forall|j: int|
                            #![trigger old(active)@[j]]
                            0 <= j < old(active)@.len() - 1 implies self.memo_of(
                            old(active)@[j].0,
                            old(active)@[j].1,
                        ) == old(self).memo_of(old(active)@[j].0, old(active)@[j].1) by {
                            let p = old(active)@[j];
                            assert(p != (f, key));
                            if p.0 == f {
                                assert(p.1 != key);
                                assert(self.tables@[f as int].memo_of(p.1) == pre.tables@[
                                    f as int
                                ].memo_of(p.1));
                            } else {
                                if (p.0 as int) < self.tables@.len() {
                                    assert(self.tables@[p.0 as int] == pre.tables@[p.0 as int]);
                                }
                            }
                        }
                        assert forall|g: u64| self.cached_count(g) >= pre.cached_count(g) by {
                            if g != f && (g as int) < self.tables@.len() {
                                assert(self.tables@[g as int] == pre.tables@[g as int]);
                            }
                        }
                        assert forall|c: u64|
                            #![trigger single_cell_query(old(self).queries, f, key, c)]
                            single_cell_query(old(self).queries, f, key, c) && (c as int) < old(self).cells@.len() implies StepSpec::Done(vc@) == old(self).queries.step_spec(
                            f,
                            key,
                            seq![old(self).cells@[c as int].value@],
                        ) && ca == (match old(self).memo_of(f, key) {
                            Some(m) => if m.value == vc@ {
                                m.changed_at
                            } else {
                                old(self).revision
                            },
                            None => old(self).revision,
                        }) && self.memo_of(f, key) == Some(
                            MemoSpec {
                                value: vc@,
                                verified_at: old(self).revision,
                                changed_at: ca,
                                deps: seq![
                                    Dep {
                                        target: DepTarget::Cell(c),
                                        snap: old(self).cells@[c as int].changed_at,
                                    },
                                ],
                            },
                        ) by {
                            assert(no_derived_reads(old(self).queries, f, key)) by {
                                assert forall|reads2: Seq<ValSpec>| !((#[trigger] old(self).queries.step_spec(
                                    f,
                                    key,
                                    reads2,
                                )) is ReadDerived) by {
                                    if reads2.len() == 0 {
                                        assert(reads2 =~= Seq::<ValSpec>::empty());
                                    }
                                }
                            }
                            assert(base.tables@ == old(self).tables@);
                            assert(pre.tables@[f as int] == old(self).tables@[f as int]);
                            assert(sv == StepSpec::Done(vc@));
                            if reads@.len() == 0 {
                                assert(sv == StepSpec::ReadCell(c));
                                assert(false);
                            }
                            assert(reads@.len() == 1);
                            assert(crate::step::views_of(reads@) =~= seq![
                                old(self).cells@[c as int].value@,
                            ]);
                            assert(StepSpec::Done(vc@) == old(self).queries.step_spec(
                                f,
                                key,
                                seq![old(self).cells@[c as int].value@],
                            ));
                            assert(old(self).memo_of(f, key) == old(self).tables@[
                                f as int
                            ].memo_of(key));
                            assert(pre.tables@[f as int].memo_of(key) == old(self).memo_of(f, key));
                        }
                    }
                    return Ok((vc, ca));
                },
                Step::Fail => {
                    // a failed body is propagated, never cached
                    return Err(EngineError::QueryFailed);
                },
                Step::ReadCell(c) => {
                    if c >= self.cells.len() as u64 {
                        return Err(EngineError::UnknownCell);
                    }
                    let nc = self.cells.len();
                    proof {
                        assert(nc == self.cells@.len());
                    }
                    let ci = c as usize;
                    let snap = self.cells[ci].changed_at;
                    deps.push(Dep { target: DepTarget::Cell(c), snap });
                    reads.push(self.cells[ci].value.clone());
                },
                Step::ReadInterned(id) => {
                    // interned content is revision-independent: no dependency
                    match self.interner.lookup(id) {
                        Ok(v) => {
                            reads.push(v);
                        },
                        Err(e) => {
                            return Err(e);
                        },
                    }
                },
                Step::ReadDerived(g, k2) => {
                    let ghost pre = *self;
                    let ghost preactive = active@;
                    let sub = self.get_or_compute(g, k2, active);
                    proof {
                        assert forall|j: int|
                            #![trigger old(active)@[j]]
                            0 <= j < old(active)@.len() - 1 implies self.memo_of(
                            old(active)@[j].0,
                            old(active)@[j].1,
                        ) == old(self).memo_of(old(active)@[j].0, old(active)@[j].1) by {
                            assert(preactive[j] == old(active)@[j]);
                            assert(self.memo_of(preactive[j].0, preactive[j].1) == pre.memo_of(
                                preactive[j].0,
                                preactive[j].1,
                            ));
                        }
                    }
                    match sub {
                        Ok(p2) => {
                            deps.push(Dep { target: DepTarget::Derived(g, k2), snap: p2.1 });
                            reads.push(p2.0);
                        },
                        Err(e) => {
                            return Err(e);
                        },
                    }
                },
            }
        }
    }

    /// Invokes derived query `f` on `key`: the single entry point through
    /// which callers read derived values. On success the returned value is
    /// exactly what is cached for `(f, key)`, verified at the current
    /// revision; a repeated call with no intervening write therefore returns
    /// the identical value without running any query body. Before returning,
    /// every table is brought back under its configured capacity by evicting
    /// least-recently-used entries.
    pub fn invoke(&mut self, f: u64, key: Key) -> (r: Result<Value, EngineError>)
        requires
            old(self).inv(),
        ensures
            final(self).inv(),
            final(self).same_inputs(*old(self)),
            final(self).intern_state() == old(self).intern_state(),
            final(self).prog() == old(self).prog(),
            final(self).recompute_count() >= old(self).recompute_count(),
            forall|g: u64| final(self).capacity_of(g) == old(self).capacity_of(g),
            forall|g: u64|
                final(self).capacity_of(g) > 0 ==> final(self).cached_count(g) <= final(self).capacity_of(g),
            (r matches Ok(v) ==> final(self).memo_of(f, key) matches Some(m) && m.value == v@
                && m.verified_at == old(self).rev() && m.changed_at <= old(self).rev()),
            old(self).memo_of(f, key) matches Some(m) ==> (m.verified_at == old(self).rev()
                ==> (r matches Ok(v) && v@ == m.value && final(self).caches_agree(*old(self))
                && final(self).recompute_count() == old(self).recompute_count())),
            (old(self).memo_of(f, key) is None && no_derived_reads(old(self).prog(), f, key)
                && r is Ok) ==> {
                &&& final(self).cached_count(f) == (if old(self).capacity_of(f) == 0 || old(self).cached_count(f) + 1 <= old(self).capacity_of(f) {
                    old(self).cached_count(f) + 1 as int
                } else {
                    old(self).capacity_of(f) as int
                })
                &&& forall|g: u64| g != f ==> final(self).cached_count(g) == old(self).cached_count(g)
                &&& (old(self).recompute_count() < u64::MAX ==> final(self).recompute_count()
                    == old(self).recompute_count() + 1)
            },
            (old(self).memo_of(f, key) is None && self_cycle(old(self).prog(), f, key)) ==> r
                == Err::<Value, EngineError>(EngineError::Cycle),
            // a cold one-level derived chain: as long as the dependency's memo
            // survives eviction, the stored memo records exactly that
            // dependency, with the snapshot the dependency's memo carries
            forall|fl: u64, kl: Key|
                #![trigger single_derived_query(old(self).prog(), f, key, fl, kl)]
                (single_derived_query(old(self).prog(), f, key, fl, kl) && old(self).memo_of(
                    f,
                    key,
                ) is None && r is Ok) ==> (r matches Ok(v) && (final(self).memo_of(fl, kl) matches Some(
                    m2,
                ) ==> (StepSpec::Done(v@) == old(self).prog().step_spec(f, key, seq![m2.value])
                    && final(self).memo_of(f, key) == Some(
                    MemoSpec {
                        value: v@,
                        verified_at: old(self).rev(),
                        changed_at: old(self).rev(),
                        deps: seq![
                            Dep { target: DepTarget::Derived(fl, kl), snap: m2.changed_at },
                        ],
                    },
                )))),
            // early cutoff through a derived dependency: the dependency
            // recomputes exactly once to its unchanged value, and this
            // query's cached value is confirmed and returned without running
            // its body
            forall|mg: MemoSpec, fl: u64, kl: Key, c: u64|
                #![trigger derived_cutoff_scenario(*old(self), f, key, mg, fl, kl, c)]
                derived_cutoff_scenario(*old(self), f, key, mg, fl, kl, c) ==> (r matches Ok(v)
                    && v@ == mg.value && (old(self).recompute_count() < u64::MAX ==> final(self).recompute_count() == old(self).recompute_count() + 1)
                    && final(self).memo_of(f, key) == Some(
                    MemoSpec { verified_at: old(self).rev(), ..mg },
                )),
            // a two-query cycle: the body reads another derived query whose
            // own body reads back; neither attempt is cached
            forall|g2: u64, k2: Key|
                #![trigger old(self).prog().step_spec(g2, k2, Seq::empty())]
                (old(self).memo_of(f, key) is None && old(self).memo_of(g2, k2) is None && (g2, k2)
                    != (f, key) && old(self).prog().step_spec(f, key, Seq::empty())
                    == StepSpec::ReadDerived(g2, k2) && old(self).prog().step_spec(
                    g2,
                    k2,
                    Seq::empty(),
                ) == StepSpec::ReadDerived(f, key)) ==> r == Err::<Value, EngineError>(
                    EngineError::Cycle,
                ),
            // early cutoff: a memo whose recorded input-cell dependencies are
            // unchanged is confirmed and returned without running any body
            old(self).memo_of(f, key) matches Some(m) ==> (cell_deps_clean(*old(self), m.deps)
                ==> (r matches Ok(v) && v@ == m.value && final(self).recompute_count() == old(self).recompute_count()
                && final(self).memo_of(f, key) == Some(
                MemoSpec { verified_at: old(self).rev(), ..m },
            ))),
            // invalidation on change: a single-cell query whose recorded cell
            // has changed since the snapshot recomputes exactly once, on the
            // current cell content; an unchanged result keeps its `changed_at`
            old(self).memo_of(f, key) matches Some(m) ==> (forall|c: u64|
                #![trigger single_cell_query(old(self).prog(), f, key, c)]
                (single_cell_query(old(self).prog(), f, key, c) && (c as int) < old(self).n_cells()
                    && m.verified_at < old(self).rev() && m.deps.len() == 1 && m.deps[0].target
                    == DepTarget::Cell(c) && old(self).cell_changed_at(c as int) > m.deps[0].snap)
                    ==> (r matches Ok(v) && StepSpec::Done(v@) == old(self).prog().step_spec(
                    f,
                    key,
                    seq![old(self).cell_value(c as int)],
                ) && (old(self).recompute_count() < u64::MAX ==> final(self).recompute_count()
                    == old(self).recompute_count() + 1) && final(self).memo_of(f, key) == Some(
                    MemoSpec {
                        value: v@,
                        verified_at: old(self).rev(),
                        changed_at: (if m.value == v@ {
                            m.changed_at
                        } else {
                            old(self).rev()
                        }),
                        deps: seq![
                            Dep {
                                target: DepTarget::Cell(c),
                                snap: old(self).cell_changed_at(c as int),
                            },
                        ],
                    },
                ))),
            // a cold miss of a single-cell query computes from the current
            // cell content
            old(self).memo_of(f, key) is None ==> (forall|c: u64|
                #![trigger single_cell_query(old(self).prog(), f, key, c)]
                (single_cell_query(old(self).prog(), f, key, c) && (c as int) < old(self).n_cells())
                    ==> (r matches Ok(v) && StepSpec::Done(v@) == old(self).prog().step_spec(
                    f,
                    key,
                    seq![old(self).cell_value(c as int)],
                ) && (old(self).recompute_count() < u64::MAX ==> final(self).recompute_count()
                    == old(self).recompute_count() + 1) && final(self).memo_of(f, key) == Some(
                    MemoSpec {
                        value: v@,
                        verified_at: old(self).rev(),
                        changed_at: old(self).rev(),
                        deps: seq![
                            Dep {
                                target: DepTarget::Cell(c),
                                snap: old(self).cell_changed_at(c as int),
                            },
                        ],
                    },
                ))),
            // a failed or cyclic attempt is never cached: on any error the
            // memo for this query and key is exactly what it was
            r is Err ==> final(self).memo_of(f, key) == old(self).memo_of(f, key),
            // a query with no derived reads, whose memo (if any) records only
            // input-cell dependencies, leaves every other memo unchanged or
            // evicted, never altered
            (no_derived_reads(old(self).prog(), f, key) && (match old(self).memo_of(f, key) {
                Some(m) => only_cell_deps(m.deps),
                None => true,
            })) ==> forall|g: u64, k2: Key|
                !(g == f && k2 == key) ==> (final(self).memo_of(g, k2) == old(self).memo_of(g, k2)
                    || final(self).memo_of(g, k2) is None),
            // a query that reads nothing: computed once on a miss, and its
            // memo records no dependencies, so it stays valid forever
            (old(self).memo_of(f, key) is None && no_read_query(old(self).prog(), f, key)) ==> (
            r matches Ok(v) && StepSpec::Done(v@) == old(self).prog().step_spec(
                f,
                key,
                Seq::empty(),
            ) && final(self).memo_of(f, key) == Some(
                MemoSpec {
                    value: v@,
                    verified_at: old(self).rev(),
                    changed_at: old(self).rev(),
                    deps: Seq::empty(),
                },
            )),
            // a query over an interned value: on a miss, a live identifier
            // gives the body's result on the interned content, and a released
            // one fails with the stale-identifier error
            forall|id: u64|
                #![trigger single_intern_query(old(self).prog(), f, key, id)]
                (old(self).memo_of(f, key) is None && single_intern_query(
                    old(self).prog(),
                    f,
                    key,
                    id,
                ) && old(self).intern_state().live(id as int)) ==> (r matches Ok(v)
                    && StepSpec::Done(v@) == old(self).prog().step_spec(
                    f,
                    key,
                    seq![old(self).intern_state().content_of(id as int)],
                )),
            forall|id: u64|
                #![trigger single_intern_query(old(self).prog(), f, key, id)]
                (old(self).memo_of(f, key) is None && single_intern_query(
                    old(self).prog(),
                    f,
                    key,
                    id,
                ) && !old(self).intern_state().live(id as int)) ==> r == Err::<Value, EngineError>(
                    EngineError::StaleId,
                ),
    {
        let mut active: Vec<(u64, Key)> = Vec::new();
        proof {
            assert(!active@.contains((f, key)));
        }
        let res0 = self.get_or_compute(f, key, &mut active);
        let ghost mid = *self;
        let ghost gres = res0;
        let res: Result<Value, EngineError> = match res0 {
            Ok(p) => Ok(p.0),
            Err(e) => Err(e),
        };
        let n = self.tables.len();
        let mut g: usize = 0;
        while g < n
            invariant
                n == self.tables@.len(),
                mid.tables@.len() == n,
                g <= n,
                mid.core_inv(),
                *self == (Database { tables: self.tables, ..mid }),
                forall|t: int| g <= t < n ==> self.tables@[t] == mid.tables@[t],
                forall|t: int|
                    0 <= t < g ==> (#[trigger] self.tables@[t]).capacity == mid.tables@[t].capacity
                        && self.tables@[t].entries@.len() <= mid.tables@[t].entries@.len() && (
                    self.tables@[t].capacity == 0 || self.tables@[t].entries@.len()
                        <= self.tables@[t].capacity) && self.tables@[t].entries@.len() == (
                    if mid.tables@[t].capacity == 0 || mid.tables@[t].entries@.len()
                        <= mid.tables@[t].capacity {
                        mid.tables@[t].entries@.len() as int
                    } else {
                        mid.tables@[t].capacity as int
                    }),
                forall|t: int|
                    0 <= t < g ==> ((mid.tables@[t].capacity == 0 || mid.tables@[t].entries@.len()
                        <= mid.tables@[t].capacity) ==> (#[trigger] self.tables@[t])
                        == mid.tables@[t]),
                forall|t: int|
                    #![trigger self.tables@[t].memo_of(key)]
                    0 <= t < g && t == f ==> (mid.tables@[t].has_key(key)
                        ==> self.tables@[t].memo_of(key) == mid.tables@[t].memo_of(key)),
                forall|t: int, k2: Key|
                    0 <= t < g ==> ((#[trigger] self.tables@[t].memo_of(k2)) is Some
                        ==> self.tables@[t].memo_of(k2) == mid.tables@[t].memo_of(k2)),
                forall|t: int|
                    0 <= t < g ==> table_wf(
                        mid.queries,
                        mid.cells@.len(),
                        mid.revision,
                        t as u64,
                        #[trigger] self.tables@[t],
                    ),
            decreases n - g,
        {
            let keep: Option<Key> = if g as u64 == f {
                Some(key)
            } else {
                None
            };
            proof {
                assert(mid.table_inv(g as int));
                assert(self.tables@[g as int] == mid.tables@[g as int]);
                assert(self.tables@[g as int].keys_unique());
            }
            self.tables[g].enforce_capacity(keep);
            proof {
                assert(table_wf(
                    mid.queries,
                    mid.cells@.len(),
                    mid.revision,
                    g as u64,
                    self.tables@[g as int],
                )) by {
                    let t = self.tables@[g as int];
                    assert forall|k2: Key| memo_inv_opt(
                        mid.queries,
                        mid.cells@.len(),
                        mid.revision,
                        g as u64,
                        k2,
                        #[trigger] t.memo_of(k2),
                    ) by {
                        if t.memo_of(k2) is Some {
                            assert(t.memo_of(k2) == mid.tables@[g as int].memo_of(k2));
                        }
                        assert(memo_inv_opt(
                            mid.queries,
                            mid.cells@.len(),
                            mid.revision,
                            g as u64,
                            k2,
                            mid.tables@[g as int].memo_of(k2),
                        ));
                    }
                }
            }
            g = g + 1;
        }
        proof {
            // the sweep preserved well-formedness and restored every bound
            assert forall|g2: int| 0 <= g2 < self.tables@.len() implies self.table_inv(g2) by {
                assert(table_wf(
                    mid.queries,
                    mid.cells@.len(),
                    mid.revision,
                    g2 as u64,
                    self.tables@[g2],
                ));
            }
            assert(self.core_inv());
            assert(self.caps_ok());
            assert forall|g2: u64| self.capacity_of(g2) == old(self).capacity_of(g2) by {
                if (g2 as int) < n {
                    assert(self.tables@[g2 as int].capacity == mid.tables@[g2 as int].capacity);
                }
                assert(mid.capacity_of(g2) == old(self).capacity_of(g2));
            }
            match old(self).memo_of(f, key) {
                Some(m) => {
                    if m.verified_at == old(self).rev() {
                        // pure hit: every table was already within its bound,
                        // so the sweep was the identity
                        assert(mid.caches_agree(*old(self)));
                        assert(mid.recompute_count() == old(self).recompute_count());
                        assert forall|t: int| 0 <= t < n implies self.tables@[t] == mid.tables@[
                            t
                        ] by {
                            assert((t as u64) as int == t);
                            assert(mid.cached_count(t as u64) == old(self).cached_count(t as u64));
                            assert(mid.capacity_of(t as u64) == old(self).capacity_of(t as u64));
                            assert(mid.tables@[t].entries@.len() == mid.cached_count(t as u64));
                            assert(mid.tables@[t].capacity == mid.capacity_of(t as u64));
                            if (t as u64 as int) < old(self).tables@.len() {
                                assert(old(self).caps_ok());
                            } else {
                                assert(old(self).cached_count(t as u64) == 0);
                            }
                        }
                        assert forall|g2: u64, k2: Key| self.memo_of(g2, k2) == old(self).memo_of(
                            g2,
                            k2,
                        ) by {
                            if (g2 as int) < n {
                                assert(self.tables@[g2 as int] == mid.tables@[g2 as int]);
                            }
                            assert(mid.memo_of(g2, k2) == old(self).memo_of(g2, k2));
                        }
                        assert forall|g2: u64| self.cached_count(g2) == old(self).cached_count(
                            g2,
                        ) by {
                            if (g2 as int) < n {
                                assert(self.tables@[g2 as int] == mid.tables@[g2 as int]);
                            }
                            assert(mid.cached_count(g2) == old(self).cached_count(g2));
                        }
                    }
                },
                None => {},
            }
            assert forall|g2: u64, k2: Key|
                #![trigger old(self).prog().step_spec(g2, k2, Seq::empty())]
                (old(self).memo_of(f, key) is None && old(self).memo_of(g2, k2) is None && (g2, k2)
                    != (f, key) && old(self).prog().step_spec(f, key, Seq::empty())
                    == StepSpec::ReadDerived(g2, k2) && old(self).prog().step_spec(
                    g2,
                    k2,
                    Seq::empty(),
                ) == StepSpec::ReadDerived(f, key)) implies gres == Err::<(Value, u64), EngineError>(
                EngineError::Cycle,
            ) by {
                let a0 = Seq::<(u64, Key)>::empty();
                assert(!a0.push((f, key)).contains((g2, k2))) by {
                    if a0.push((f, key)).contains((g2, k2)) {
                        let j = choose|j: int|
                            0 <= j < a0.push((f, key)).len() && a0.push((f, key))[j] == (g2, k2);
                        assert(a0.push((f, key))[j] == (f, key));
                    }
                }
                assert(a0.push((f, key)).push((g2, k2)).contains((f, key))) by {
                    assert(a0.push((f, key)).push((g2, k2))[0] == (f, key));
                }
            }
            match gres {
                Ok(p) => {
                    assert(mid.memo_of(f, key) is Some);
                    assert((f as int) < n);
                    assert(mid.tables@[f as int].has_key(key));
                    assert(self.tables@[f as int].memo_of(key) == mid.tables@[f as int].memo_of(
                        key,
                    ));
                    assert(self.memo_of(f, key) == mid.memo_of(f, key));
                },
                Err(_) => {},
            }
            if old(self).memo_of(f, key) is None && no_derived_reads(old(self).prog(), f, key)
                && gres is Ok {
                assert(mid.cached_count(f) == old(self).cached_count(f) + 1);
                assert((f as int) < n);
                assert(self.tables@[f as int].entries@.len() == (
                if mid.tables@[f as int].capacity == 0 || mid.tables@[f as int].entries@.len()
                    <= mid.tables@[f as int].capacity {
                    mid.tables@[f as int].entries@.len() as int
                } else {
                    mid.tables@[f as int].capacity as int
                }));
                assert(mid.capacity_of(f) == old(self).capacity_of(f));
                assert forall|g: u64| g != f implies self.cached_count(g) == old(self).cached_count(
                    g,
                ) by {
                    assert(mid.cached_count(g) == old(self).cached_count(g));
                    if (g as int) < n {
                        assert(mid.tables@[g as int].entries@.len() == mid.cached_count(g));
                        if mid.tables@[g as int].capacity == 0 || mid.tables@[g as int].entries@.len()
                            <= mid.tables@[g as int].capacity {
                            assert(self.tables@[g as int] == mid.tables@[g as int]);
                        } else {
                            assert(mid.tables@[g as int].capacity == mid.capacity_of(g));
                            assert(mid.capacity_of(g) == old(self).capacity_of(g));
                            if (g as int) < old(self).tables@.len() {
                                assert(old(self).caps_ok());
                                assert(old(self).capacity_of(g) == 0 || old(self).cached_count(g)
                                    <= old(self).capacity_of(g));
                                assert(false);
                            } else {
                                assert(old(self).cached_count(g) == 0 && old(self).capacity_of(g)
                                    == 0);
                                assert(false);
                            }
                        }
                    }
                }
            }
        }
        res
    }

    /// How many cached results query `f` currently holds; what an external
    /// memory profile of the cache observes.
    pub fn cached_len(&self, f: u64) -> (n: u64)
        ensures
            n == self.cached_count(f),
    {
        if f < self.tables.len() as u64 {
            self.tables[f as usize].entries.len() as u64
        } else {
            0
        }
    }

    /// The current revision.
    pub fn revision(&self) -> (r: u64)
        ensures
            r == self.rev(),
    {
        self.revision
    }

    /// How many times a query body has been executed: the miss counter of the
    /// instrumentation hook.
    pub fn recomputations(&self) -> (n: u64)
        ensures
            n == self.recompute_count(),
    {
        self.recomputes
    }
}


/// The count of cached results after one more cold miss at capacity `cap`
/// (`0` = unbounded): what `invoke` guarantees for a fresh key of a query
/// that reads no other derived query.
pub open spec fn cold_miss_count(len: nat, cap: u64) -> nat {
    if cap == 0 || len + 1 <= cap {
        len + 1
    } else {
        cap as nat
    }
}

/// The count of cached results after `n` cold misses, starting from an empty
/// table.
pub open spec fn cold_miss_counts(n: nat, cap: u64) -> nat
    decreases n,
{
    if n == 0 {
        0
    } else {
        cold_miss_count(cold_miss_counts((n - 1) as nat, cap), cap)
    }
}

/// LRU bound: with capacity `cap > 0`, issuing calls for `n` distinct fresh
/// keys leaves exactly `min(n, cap)` live cached values — the extra values
/// beyond the capacity are evicted, never more and never fewer.
pub proof fn lemma_lru_bound(n: nat, cap: u64)
    requires
        cap > 0,
    ensures
        cold_miss_counts(n, cap) == if n <= cap {
            n
        } else {
            cap as nat
        },
    decreases n,
{
    if n > 0 {
        lemma_lru_bound((n - 1) as nat, cap);
    }
}

/// No-LRU baseline: with capacity `0`, all `n` values stay cached.
pub proof fn lemma_unbounded_keeps_all(n: nat)
    ensures
        cold_miss_counts(n, 0) == n,
    decreases n,
{
    if n > 0 {
        lemma_unbounded_keeps_all((n - 1) as nat);
    }
}

} // verus!
