//! Memo entries, dependency records and the per-query memo tables with their
//! least-recently-used eviction ledger.

use vstd::prelude::*;
use crate::value::{Key, ValSpec, Value};

verus! {

/// What a recorded dependency points at.
#[derive(Clone, Copy, Debug, PartialEq, Eq, Structural)]
pub enum DepTarget {
    /// An input cell.
    Cell(u64),
    /// A derived query together with its argument key.
    Derived(u64, Key),
}

/// One recorded dependency: the target that was read and the `changed_at`
/// revision the target had when the read was made.
#[derive(Clone, Copy, Debug, PartialEq, Eq, Structural)]
pub struct Dep {
    pub target: DepTarget,
    pub snap: u64,
}

/// Mathematical content of a memo entry; recency bookkeeping is left out,
/// since it never influences what a query returns.
#[verifier::ext_equal]
pub struct MemoSpec {
    pub value: ValSpec,
    pub verified_at: u64,
    pub changed_at: u64,
    pub deps: Seq<Dep>,
}

/// A cached result of one derived query on one argument key.
pub struct MemoEntry {
    pub key: Key,
    pub value: Value,
    /// Last revision at which this entry was confirmed valid.
    pub verified_at: u64,
    /// Revision at which the value last actually changed.
    pub changed_at: u64,
    /// Every input or derived value the computation read, in read order.
    pub deps: Vec<Dep>,
    /// Recency stamp for the LRU ledger.
    pub last_use: u64,
}

impl View for MemoEntry {
    type V = MemoSpec;

    open spec fn view(&self) -> MemoSpec {
        MemoSpec {
            value: self.value@,
            verified_at: self.verified_at,
            changed_at: self.changed_at,
            deps: self.deps@,
        }
    }
}

/// Copies a dependency list.
pub fn clone_deps(v: &Vec<Dep>) -> (r: Vec<Dep>)
    ensures
        r@ == v@,
{
    let mut r: Vec<Dep> = Vec::new();
    let mut i: usize = 0;
    while i < v.len()
        invariant
            i <= v.len(),
            r@ == v@.subrange(0, i as int),
        decreases v.len() - i,
    {
        r.push(v[i]);
        i = i + 1;
    }
    proof {
        assert(v@.subrange(0, v@.len() as int) == v@);
    }
    r
}

/// Every recorded dependency points at an input cell (none at a derived
/// query), so re-verifying the memo never descends into other memos.
pub open spec fn only_cell_deps(deps: Seq<Dep>) -> bool {
    forall|i: int| 0 <= i < deps.len() ==> (#[trigger] deps[i]).target is Cell
}

/// Whether `k` is the key the capacity sweep was asked to keep.
pub open spec fn is_kept(keep: Option<Key>, k: Key) -> bool {
    match keep {
        Some(kk) => k == kk,
        None => false,
    }
}

/// The memo table of one derived query, with its configured LRU capacity
/// (`0` = unbounded).
pub struct MemoTable {
    pub entries: Vec<MemoEntry>,
    pub capacity: u64,
}

impl MemoTable {
    /// At most one entry per argument key.
    pub open spec fn keys_unique(self) -> bool {
        forall|i: int, j: int|
            #![trigger self.entries@[i].key, self.entries@[j].key]
            0 <= i < self.entries@.len() && 0 <= j < self.entries@.len() && i != j
                ==> self.entries@[i].key != self.entries@[j].key
    }

    pub open spec fn has_key(self, k: Key) -> bool {
        exists|i: int| 0 <= i < self.entries@.len() && self.entries@[i].key == k
    }

    pub open spec fn idx_of(self, k: Key) -> int {
        choose|i: int| 0 <= i < self.entries@.len() && self.entries@[i].key == k
    }

    /// The memo stored for key `k`, if any.
    pub open spec fn memo_of(self, k: Key) -> Option<MemoSpec> {
        if self.has_key(k) {
            Some(self.entries@[self.idx_of(k)]@)
        } else {
            None
        }
    }

    /// An empty table with no capacity bound.
    pub fn new() -> (r: Self)
        ensures
            r.keys_unique(),
            r.entries@.len() == 0,
            r.capacity == 0,
            forall|k: Key| r.memo_of(k) is None,
    {
        MemoTable { entries: Vec::new(), capacity: 0 }
    }

    /// Finds the entry for key `k`.
    pub fn find(&self, k: Key) -> (r: Option<usize>)
        requires
            self.keys_unique(),
        ensures
            match r {
                Some(i) => i < self.entries@.len() && self.entries@[i as int].key == k
                    && self.has_key(k) && self.idx_of(k) == i,
                None => !self.has_key(k),
            },
    {
        let mut i: usize = 0;
        while i < self.entries.len()
            invariant
                i <= self.entries@.len(),
                self.keys_unique(),
                forall|j: int| 0 <= j < i ==> self.entries@[j].key != k,
            decreases self.entries@.len() - i,
        {
            if self.entries[i].key == k {
                proof {
                    let w = self.idx_of(k);
                    assert(0 <= w < self.entries@.len() && self.entries@[w].key == k);
                }
                return Some(i);
            }
            i = i + 1;
        }
        None
    }

    /// Refreshes the recency stamp of entry `i`; nothing a contract can see
    /// changes.
    pub fn touch(&mut self, i: usize, tick: u64)
        requires
            old(self).keys_unique(),
            i < old(self).entries@.len(),
        ensures
            final(self).keys_unique(),
            final(self).capacity == old(self).capacity,
            final(self).entries@.len() == old(self).entries@.len(),
            forall|j: int|
                0 <= j < old(self).entries@.len() ==> final(self).entries@[j].key == old(self).entries@[j].key && final(self).entries@[j]@ == old(self).entries@[j]@,
            forall|k: Key| final(self).memo_of(k) == old(self).memo_of(k),
    {
        let e = &mut self.entries[i];
        e.last_use = tick;
        proof {
            assert(forall|j: int|
                0 <= j < self.entries@.len() && j != i ==> self.entries@[j] == old(self).entries@[j]);
            assert(self.entries@[i as int]@ == old(self).entries@[i as int]@);
            lemma_same_views_same_memos(*old(self), *self);
        }
    }

    /// Confirms entry `i` as valid at revision `rev` without recomputation:
    /// the early-cutoff bookkeeping step.
    pub fn mark_verified(&mut self, i: usize, rev: u64, tick: u64)
        requires
            old(self).keys_unique(),
            i < old(self).entries@.len(),
            old(self).entries@[i as int].changed_at <= rev,
        ensures
            final(self).keys_unique(),
            final(self).capacity == old(self).capacity,
            final(self).entries@.len() == old(self).entries@.len(),
            forall|j: int|
                0 <= j < old(self).entries@.len() ==> final(self).entries@[j].key == old(self).entries@[j].key,
            forall|j: int|
                0 <= j < old(self).entries@.len() && j != i ==> final(self).entries@[j] == old(self).entries@[j],
            final(self).entries@[i as int]@ == (MemoSpec {
                verified_at: rev,
                ..old(self).entries@[i as int]@
            }),
            forall|k: Key|
                k != old(self).entries@[i as int].key ==> final(self).memo_of(k) == old(self).memo_of(k),
            final(self).memo_of(old(self).entries@[i as int].key) == Some(MemoSpec {
                verified_at: rev,
                ..old(self).entries@[i as int]@
            }),
    {
        let e = &mut self.entries[i];
        e.verified_at = rev;
        e.last_use = tick;
        proof {
            assert(forall|j: int|
                0 <= j < self.entries@.len() && j != i ==> self.entries@[j] == old(self).entries@[j]);
            let k0 = old(self).entries@[i as int].key;
            assert(self.has_key(k0));
            assert(self.idx_of(k0) == i) by {
                let w = self.idx_of(k0);
                assert(0 <= w < self.entries@.len() && self.entries@[w].key == k0);
            }
            assert forall|k: Key| k != k0 implies self.memo_of(k) == old(self).memo_of(k) by {
                lemma_other_keys_memo(*old(self), *self, i as int, k);
            }
        }
    }

    /// Stores a freshly computed result for `k`: keeps the old `changed_at`
    /// when the value is unchanged (early cutoff for downstream consumers),
    /// else stamps it with the current revision.
    pub fn store(&mut self, k: Key, v: Value, deps: Vec<Dep>, rev: u64, tick: u64) -> (ca: u64)
        requires
            old(self).keys_unique(),
            (match old(self).memo_of(k) {
                Some(m) => m.changed_at <= rev,
                None => true,
            }),
        ensures
            final(self).keys_unique(),
            final(self).capacity == old(self).capacity,
            ca == (match old(self).memo_of(k) {
                Some(m) => if m.value == v@ {
                    m.changed_at
                } else {
                    rev
                },
                None => rev,
            }),
            ca <= rev,
            final(self).memo_of(k) == Some(
                MemoSpec { value: v@, verified_at: rev, changed_at: ca, deps: deps@ },
            ),
            forall|k2: Key| k2 != k ==> final(self).memo_of(k2) == old(self).memo_of(k2),
            final(self).entries@.len() == old(self).entries@.len() + (if old(self).has_key(k) {
                0int
            } else {
                1int
            }),
            // index-level frame, for re-establishing table invariants
            forall|j: int|
                0 <= j < old(self).entries@.len() && old(self).entries@[j].key != k ==> final(self).entries@[j] == old(self).entries@[j],
            final(self).has_key(k) && final(self).entries@[final(self).idx_of(k)].key == k
                && final(self).entries@[final(self).idx_of(k)]@ == (MemoSpec {
                value: v@,
                verified_at: rev,
                changed_at: ca,
                deps: deps@,
            }),
            forall|j: int|
                0 <= j < final(self).entries@.len() && j != final(self).idx_of(k) ==> 0 <= j < old(self).entries@.len() && final(self).entries@[j] == old(self).entries@[j],
    {
        let found = self.find(k);
        match found {
            Some(i) => {
                let same = crate::value::value_eq(&self.entries[i].value, &v);
                let ca = if same {
                    self.entries[i].changed_at
                } else {
                    rev
                };
                self.entries[i] = MemoEntry {
                    key: k,
                    value: v,
                    verified_at: rev,
                    changed_at: ca,
                    deps,
                    last_use: tick,
                };
                proof {
                    assert(self.has_key(k));
                    assert(self.idx_of(k) == i) by {
                        let w = self.idx_of(k);
                        assert(0 <= w < self.entries@.len() && self.entries@[w].key == k);
                    }
                    assert forall|k2: Key| k2 != k implies self.memo_of(k2) == old(self).memo_of(
                        k2,
                    ) by {
                        lemma_other_keys_memo(*old(self), *self, i as int, k2);
                    }
                }
                ca
            },
            None => {
                self.entries.push(MemoEntry {
                    key: k,
                    value: v,
                    verified_at: rev,
                    changed_at: rev,
                    deps,
                    last_use: tick,
                });
                proof {
                    let n = old(self).entries@.len() as int;
                    assert(self.entries@[n].key == k);
                    assert(self.has_key(k));
                    assert(self.idx_of(k) == n) by {
                        let w = self.idx_of(k);
                        assert(0 <= w < self.entries@.len() && self.entries@[w].key == k);
                        if w < n {
                            assert(old(self).entries@[w].key == k);
                            assert(old(self).has_key(k));
                        }
                    }
                    assert forall|k2: Key| k2 != k implies self.memo_of(k2) == old(self).memo_of(
                        k2,
                    ) by {
                        lemma_other_keys_memo(*old(self), *self, n, k2);
                    }
                }
                rev
            },
        }
    }

    /// While the table is over its configured capacity, evicts the
    /// least-recently-used entry other than `keep`: eviction drops only the
    /// cached value and its dependency bookkeeping, never the entry the
    /// caller is just being handed.
    pub fn enforce_capacity(&mut self, keep: Option<Key>)
        requires
            old(self).keys_unique(),
        ensures
            final(self).keys_unique(),
            final(self).capacity == old(self).capacity,
            (old(self).capacity == 0 || old(self).entries@.len() <= old(self).capacity) ==> *final(self) == *old(self),
            final(self).entries@.len() == (if old(self).capacity == 0 {
                old(self).entries@.len() as int
            } else if old(self).entries@.len() <= old(self).capacity {
                old(self).entries@.len() as int
            } else {
                old(self).capacity as int
            }),
            forall|k: Key|
                final(self).has_key(k) ==> old(self).has_key(k) && final(self).memo_of(k) == old(self).memo_of(k),
            (keep matches Some(kk) && old(self).has_key(kk)) ==> (keep matches Some(kk)
                && final(self).has_key(kk) && final(self).memo_of(kk) == old(self).memo_of(kk)),
    {
        if self.capacity == 0 {
            return ;
        }
        while self.entries.len() as u64 > self.capacity
            invariant
                self.capacity == old(self).capacity,
                self.capacity > 0,
                self.keys_unique(),
                old(self).entries@.len() > old(self).capacity ==> self.entries@.len() >= self.capacity,
                old(self).entries@.len() <= old(self).capacity ==> *self == *old(self),
                self.entries@.len() <= old(self).entries@.len(),
                forall|k: Key|
                    self.has_key(k) ==> old(self).has_key(k) && self.memo_of(k) == old(self).memo_of(k),
                (keep matches Some(kk) && old(self).has_key(kk)) ==> (keep matches Some(kk)
                    && self.has_key(kk) && self.memo_of(kk) == old(self).memo_of(kk)),
            decreases self.entries@.len(),
        {
            let n = self.entries.len();
            let mut best: usize = 0;
            let mut found = false;
            let mut i: usize = 0;
            while i < n
                invariant
                    n == self.entries@.len(),
                    i <= n,
                    found ==> best < n && !is_kept(keep, self.entries@[best as int].key),
                    found ==> forall|j: int|
                        0 <= j < i && !is_kept(keep, self.entries@[j].key) ==> self.entries@[
                            best as int
                        ].last_use <= self.entries@[j].last_use,
                    !found ==> forall|j: int| 0 <= j < i ==> is_kept(keep, self.entries@[j].key),
                decreases n - i,
            {
                let skip = match keep {
                    Some(kk) => self.entries[i].key == kk,
                    None => false,
                };
                if !skip {
                    if !found || self.entries[i].last_use < self.entries[best].last_use {
                        best = i;
                        found = true;
                    }
                }
                i = i + 1;
            }
            proof {
                // over capacity and keys unique: some entry other than `keep` exists
                assert(self.entries@.len() >= 2);
                if is_kept(keep, self.entries@[0].key) {
                    assert(!is_kept(keep, self.entries@[1].key));
                }
                assert(found);
            }
            let ghost pre = *self;
            self.entries.remove(best);
            proof {
                lemma_remove_entry(pre, *self, best as int);
            }
        }
    }
}

/// Two tables with unique keys whose entries agree index-by-index on key and
/// view store the same memos.
pub proof fn lemma_same_views_same_memos(a: MemoTable, b: MemoTable)
    requires
        a.keys_unique(),
        a.entries@.len() == b.entries@.len(),
        forall|j: int|
            0 <= j < a.entries@.len() ==> b.entries@[j].key == a.entries@[j].key && b.entries@[j]@
                == a.entries@[j]@,
    ensures
        forall|k: Key| b.memo_of(k) == a.memo_of(k),
{
    assert forall|k: Key| b.memo_of(k) == a.memo_of(k) by {
        if a.has_key(k) {
            let i = a.idx_of(k);
            assert(0 <= i < a.entries@.len() && a.entries@[i].key == k);
            assert(b.entries@[i].key == k);
            assert(b.has_key(k));
            let j = b.idx_of(k);
            assert(0 <= j < b.entries@.len() && b.entries@[j].key == k);
            assert(a.entries@[j].key == k);
            assert(j == i);
            assert(b.entries@[j]@ == a.entries@[i]@);
        } else {
            assert(!b.has_key(k)) by {
                if b.has_key(k) {
                    let j = b.idx_of(k);
                    assert(0 <= j < b.entries@.len() && b.entries@[j].key == k);
                    assert(a.entries@[j].key == k);
                }
            }
        }
    }
}

/// After updating entry `i` to key `k0`, memos of keys other than both the
/// old and the new key at `i` are unchanged.
proof fn lemma_other_keys_memo(a: MemoTable, b: MemoTable, i: int, k2: Key)
    requires
        a.keys_unique(),
        0 <= i,
        b.entries@.len() >= a.entries@.len(),
        b.entries@.len() <= a.entries@.len() + 1,
        i < b.entries@.len(),
        forall|j: int| 0 <= j < a.entries@.len() && j != i ==> b.entries@[j] == a.entries@[j],
        k2 != b.entries@[i].key,
        i < a.entries@.len() ==> k2 != a.entries@[i].key && b.entries@.len() == a.entries@.len(),
        i >= a.entries@.len() ==> b.entries@.len() == a.entries@.len() + 1 && i == a.entries@.len(),
    ensures
        b.memo_of(k2) == a.memo_of(k2),
{
    if a.has_key(k2) {
        let w = a.idx_of(k2);
        assert(0 <= w < a.entries@.len() && a.entries@[w].key == k2);
        assert(w != i);
        assert(b.entries@[w].key == k2);
        assert(b.has_key(k2));
        let w2 = b.idx_of(k2);
        assert(0 <= w2 < b.entries@.len() && b.entries@[w2].key == k2);
        assert(w2 != i);
        assert(w2 < a.entries@.len());
        assert(a.entries@[w2].key == k2);
        assert(w2 == w);
        assert(b.entries@[w2]@ == a.entries@[w2]@);
        assert(a.memo_of(k2) == Some(a.entries@[w]@));
        assert(b.memo_of(k2) == Some(b.entries@[w2]@));
    } else {
        assert(!b.has_key(k2)) by {
            if b.has_key(k2) {
                let w2 = b.idx_of(k2);
                assert(0 <= w2 < b.entries@.len() && b.entries@[w2].key == k2);
                assert(w2 != i);
                assert(a.entries@[w2].key == k2);
            }
        }
    }
}

/// Removing one entry keeps the other keys' memos and the uniqueness of keys.
proof fn lemma_remove_entry(a: MemoTable, b: MemoTable, r: int)
    requires
        a.keys_unique(),
        0 <= r < a.entries@.len(),
        b.entries@ == a.entries@.remove(r),
    ensures
        b.keys_unique(),
        forall|k: Key| b.has_key(k) ==> a.has_key(k) && b.memo_of(k) == a.memo_of(k),
        forall|k: Key| k != a.entries@[r].key && a.has_key(k) ==> b.has_key(k),
        !b.has_key(a.entries@[r].key),
{
    let sa = a.entries@;
    let sb = b.entries@;
    assert(sb.len() == sa.len() - 1);
    assert(forall|j: int| 0 <= j < r ==> sb[j] == sa[j]);
    assert(forall|j: int| r <= j < sb.len() ==> sb[j] == sa[j + 1]);
    assert(b.keys_unique()) by {
        assert forall|i: int, j: int|
            #![trigger sb[i].key, sb[j].key]
            0 <= i < sb.len() && 0 <= j < sb.len() && i != j implies sb[i].key != sb[j].key by {
            let oi: int = if i < r {
                i
            } else {
                i + 1
            };
            let oj: int = if j < r {
                j
            } else {
                j + 1
            };
            assert(sb[i] == sa[oi] && sb[j] == sa[oj]);
            assert(sa[oi].key != sa[oj].key);
        }
    }
    assert(!b.has_key(sa[r].key)) by {
        if b.has_key(sa[r].key) {
            let w = b.idx_of(sa[r].key);
            assert(0 <= w < sb.len() && sb[w].key == sa[r].key);
            let ow: int = if w < r {
                w
            } else {
                w + 1
            };
            assert(sb[w] == sa[ow]);
            assert(ow != r);
            assert(sa[ow].key != sa[r].key);
        }
    }
    assert forall|k: Key| b.has_key(k) implies a.has_key(k) && b.memo_of(k) == a.memo_of(k) by {
        let w = b.idx_of(k);
        assert(0 <= w < sb.len() && sb[w].key == k);
        let ow: int = if w < r {
            w
        } else {
            w + 1
        };
        assert(sb[w] == sa[ow]);
        assert(a.has_key(k));
        let wa = a.idx_of(k);
        assert(0 <= wa < sa.len() && sa[wa].key == k);
        assert(wa == ow);
        assert(b.memo_of(k) == Some(sb[w]@) && a.memo_of(k) == Some(sa[ow]@));
    }
    assert forall|k: Key| k != sa[r].key && a.has_key(k) implies b.has_key(k) by {
        let wa = a.idx_of(k);
        assert(0 <= wa < sa.len() && sa[wa].key == k);
        assert(wa != r);
        let wb: int = if wa < r {
            wa
        } else {
            wa - 1
        };
        assert(sb[wb] == sa[wa]);
    }
}

} // verus!
