//! The interner: canonicalizes structurally-equal values to stable small
//! identifiers with reference-counted lifetime.

use vstd::prelude::*;
use crate::value::{EngineError, ValSpec, Value};

verus! {

/// One live interner slot: the canonical content and the number of
/// outstanding identifiers for it.
pub struct InternSlot {
    pub content: Value,
    pub refs: u64,
}

/// Maps structurally-equal values to a stable small identifier and back.
/// An identifier is live from `intern` until `release` drops its last
/// reference; a released slot stays unused, so a stale identifier can never
/// alias other content.
pub struct Interner {
    slots: Vec<Option<InternSlot>>,
}

impl Interner {
    /// Number of identifiers ever allocated, live or released.
    pub closed spec fn n_slots(self) -> nat {
        self.slots@.len()
    }

    /// Whether `id` is currently live: allocated and not yet released.
    pub closed spec fn live(self, id: int) -> bool {
        0 <= id < self.slots@.len() && self.slots@[id] is Some
    }

    /// The content a live identifier stands for.
    pub closed spec fn content_of(self, id: int) -> ValSpec {
        match self.slots@[id] {
            Some(slot) => slot.content@,
            None => ValSpec::Num(0),
        }
    }

    /// Outstanding references of a live identifier.
    pub closed spec fn refs_of(self, id: int) -> u64 {
        match self.slots@[id] {
            Some(slot) => slot.refs,
            None => 0,
        }
    }

    /// Whether some live identifier already stands for content `c`.
    pub open spec fn has(self, c: ValSpec) -> bool {
        exists|i: int| self.live(i) && self.content_of(i) == c
    }

    /// Well-formed: distinct live identifiers stand for distinct content, and
    /// every live slot holds at least one outstanding reference.
    pub open spec fn wf(self) -> bool {
        &&& forall|i: int, j: int|
            #![trigger self.content_of(i), self.content_of(j)]
            self.live(i) && self.live(j) && i != j ==> self.content_of(i) != self.content_of(j)
        &&& forall|i: int| self.live(i) ==> self.refs_of(i) >= 1
    }

    /// An empty interner: nothing interned yet.
    pub fn new() -> (r: Self)
        ensures
            r.wf(),
            r.n_slots() == 0,
    {
        Interner { slots: Vec::new() }
    }

    /// Interns `v`: returns the identifier already standing for equal content,
    /// bumping its reference count, or allocates the next free identifier.
    pub fn intern(&mut self, v: Value) -> (id: u64)
        requires
            old(self).wf(),
            old(self).n_slots() < u64::MAX,
        ensures
            final(self).wf(),
            final(self).live(id as int),
            final(self).content_of(id as int) == v@,
            old(self).has(v@) ==> {
                &&& old(self).live(id as int)
                &&& old(self).content_of(id as int) == v@
                &&& final(self).n_slots() == old(self).n_slots()
                &&& final(self).refs_of(id as int) == if old(self).refs_of(id as int) < u64::MAX {
                    old(self).refs_of(id as int) + 1
                } else {
                    u64::MAX as int
                }
            },
            !old(self).has(v@) ==> {
                &&& id == old(self).n_slots()
                &&& final(self).n_slots() == old(self).n_slots() + 1
                &&& final(self).refs_of(id as int) == 1
            },
            forall|j: int|
                j != id && 0 <= j < old(self).n_slots() ==> {
                    &&& (final(self).live(j) <==> old(self).live(j))
                    &&& final(self).content_of(j) == old(self).content_of(j)
                    &&& final(self).refs_of(j) == old(self).refs_of(j)
                },
    {
        let n = self.slots.len();
        let mut i: usize = 0;
        while i < n
            invariant
                n == self.slots@.len(),
                i <= n,
                *self == *old(self),
                old(self).wf(),
                forall|j: int| 0 <= j < i ==> !(self.live(j) && self.content_of(j) == v@),
            decreases n - i,
        {
            let hit = match &self.slots[i] {
                Some(slot) => crate::value::value_eq(&slot.content, &v),
                None => false,
            };
            if hit {
                let refs = match &self.slots[i] {
                    Some(slot) => slot.refs,
                    None => 1,
                };
                let new_refs = if refs < u64::MAX {
                    refs + 1
                } else {
                    refs
                };
                self.slots[i] = Some(InternSlot { content: v, refs: new_refs });
                proof {
                    assert forall|j: int| 0 <= j < self.slots@.len() implies (self.live(j)
                        <==> old(self).live(j)) && self.content_of(j) == old(self).content_of(j) by {
                        if j != i {
                            assert(self.slots@[j] == old(self).slots@[j]);
                        }
                    }
                    assert forall|i0: int, j0: int|
                        #![trigger self.content_of(i0), self.content_of(j0)]
                        self.live(i0) && self.live(j0) && i0 != j0 implies self.content_of(i0)
                        != self.content_of(j0) by {
                        assert(old(self).content_of(i0) != old(self).content_of(j0));
                    }
                    assert forall|j: int| self.live(j) implies self.refs_of(j) >= 1 by {
                        if j != i {
                            assert(self.slots@[j] == old(self).slots@[j]);
                        }
                    }
                }
                return i as u64;
            }
            i = i + 1;
        }
        let id = self.slots.len();
        self.slots.push(Some(InternSlot { content: v, refs: 1 }));
        proof {
            assert(!old(self).has(v@));
            assert(self.live(id as int));
            assert forall|j: int| 0 <= j < old(self).n_slots() implies (self.live(j) <==> old(self).live(j)) && self.content_of(j) == old(self).content_of(j) && self.refs_of(j) == old(self).refs_of(j) by {
                assert(self.slots@[j] == old(self).slots@[j]);
            }
            assert forall|i0: int, j0: int|
                #![trigger self.content_of(i0), self.content_of(j0)]
                self.live(i0) && self.live(j0) && i0 != j0 implies self.content_of(i0)
                != self.content_of(j0) by {
                if i0 == id {
                    assert(!(old(self).live(j0) && old(self).content_of(j0) == v@));
                } else if j0 == id {
                    assert(!(old(self).live(i0) && old(self).content_of(i0) == v@));
                } else {
                    assert(old(self).content_of(i0) != old(self).content_of(j0));
                }
            }
        }
        id as u64
    }

    /// Looks `id` up: the content it stands for, or a stale-identifier error
    /// when `id` is not currently live.
    pub fn lookup(&self, id: u64) -> (r: Result<Value, EngineError>)
        ensures
            self.live(id as int) ==> (r matches Ok(v) && v@ == self.content_of(id as int)),
            !self.live(id as int) ==> r == Err::<Value, EngineError>(EngineError::StaleId),
    {
        if id >= self.slots.len() as u64 {
            return Err(EngineError::StaleId);
        }
        match &self.slots[id as usize] {
            Some(slot) => Ok(slot.content.clone()),
            None => Err(EngineError::StaleId),
        }
    }

    /// Releases one reference of `id`; at zero the mapping is removed and the
    /// identifier goes stale. Releasing a stale identifier is an error.
    pub fn release(&mut self, id: u64) -> (r: Result<(), EngineError>)
        requires
            old(self).wf(),
        ensures
            final(self).wf(),
            !old(self).live(id as int) ==> r == Err::<(), EngineError>(EngineError::StaleId)
                && *final(self) == *old(self),
            old(self).live(id as int) ==> {
                &&& r is Ok
                &&& final(self).n_slots() == old(self).n_slots()
                &&& old(self).refs_of(id as int) > 1 ==> {
                    &&& final(self).live(id as int)
                    &&& final(self).content_of(id as int) == old(self).content_of(id as int)
                    &&& final(self).refs_of(id as int) == old(self).refs_of(id as int) - 1
                }
                &&& old(self).refs_of(id as int) == 1 ==> !final(self).live(id as int)
            },
            forall|j: int|
                j != id && 0 <= j < old(self).n_slots() ==> {
                    &&& (final(self).live(j) <==> old(self).live(j))
                    &&& final(self).content_of(j) == old(self).content_of(j)
                    &&& final(self).refs_of(j) == old(self).refs_of(j)
                },
    {
        if id >= self.slots.len() as u64 {
            return Err(EngineError::StaleId);
        }
        let i = id as usize;
        let refs = match &self.slots[i] {
            Some(slot) => slot.refs,
            None => 0,
        };
        if refs == 0 {
            return Err(EngineError::StaleId);
        }
        if refs > 1 {
            let content = match &self.slots[i] {
                Some(slot) => slot.content.clone(),
                None => Value::Num(0),
            };
            self.slots[i] = Some(InternSlot { content, refs: refs - 1 });
        } else {
            self.slots[i] = None;
        }
        proof {
            assert forall|j: int| 0 <= j < self.slots@.len() && j != i implies (self.live(j)
                <==> old(self).live(j)) && self.content_of(j) == old(self).content_of(j)
                && self.refs_of(j) == old(self).refs_of(j) by {
                assert(self.slots@[j] == old(self).slots@[j]);
            }
            assert(self.live(i as int) ==> self.content_of(i as int) == old(self).content_of(
                i as int,
            ));
            assert forall|i0: int, j0: int|
                #![trigger self.content_of(i0), self.content_of(j0)]
                self.live(i0) && self.live(j0) && i0 != j0 implies self.content_of(i0)
                != self.content_of(j0) by {
                assert(old(self).live(i0) && old(self).live(j0));
                assert(old(self).content_of(i0) != old(self).content_of(j0));
            }
        }
        Ok(())
    }
}

/// Canonicalization: in a well-formed interner, at most one live identifier
/// stands for any given content, so two `intern` calls with equal content
/// return the same identifier.
pub proof fn lemma_intern_canonical(s: Interner, id1: int, id2: int, c: ValSpec)
    requires
        s.wf(),
        s.live(id1),
        s.content_of(id1) == c,
        s.live(id2),
        s.content_of(id2) == c,
    ensures
        id1 == id2,
{
}

/// Distinct content never aliases: two live identifiers standing for
/// different content are different identifiers.
pub proof fn lemma_intern_distinct(s: Interner, id1: int, id2: int)
    requires
        s.live(id1),
        s.live(id2),
        s.content_of(id1) != s.content_of(id2),
    ensures
        id1 != id2,
{
}

} // verus!
