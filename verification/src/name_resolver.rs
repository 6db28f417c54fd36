//! Deferred name resolution for namespaces and tables: one slot per id,
//! background-fetched after a random delay so that persist-time metadata
//! lookups do not spike the catalog, demand-started by the first observer
//! otherwise.  The catalog call itself is the caller's; the slot machinery
//! and its one-way life cycle live here.

use vstd::prelude::*;

use crate::deferred::{DeferredLoad, LoadState};

verus! {

/// One id's name slot.
pub struct NameSlot {
    pub id: u64,
    pub load: DeferredLoad<String>,
}

/// The first slot for this id, if any.
pub open spec fn find_slot(s: Seq<NameSlot>, id: u64) -> Option<NameSlot>
    decreases s.len(),
{
    if s.len() == 0 {
        None
    } else if s[0].id == id {
        Some(s[0])
    } else {
        find_slot(s.drop_first(), id)
    }
}

pub open spec fn unique_slot_ids(s: Seq<NameSlot>) -> bool {
    forall|a: int, b: int| 0 <= a < b < s.len() ==> (#[trigger] s[a]).id != (
    #[trigger] s[b]).id
}

proof fn lemma_find_slot_update(s: Seq<NameSlot>, i: int, e: NameSlot, id: u64)
    requires
        unique_slot_ids(s),
        0 <= i < s.len(),
        e.id == s[i].id,
    ensures
        find_slot(s.update(i, e), id) == (if id == e.id {
            Some(e)
        } else {
            find_slot(s, id)
        }),
    decreases s.len(),
{
    if i == 0 {
        assert(s.update(0, e)[0] == e);
        assert(s.update(0, e).drop_first() =~= s.drop_first());
    } else {
        assert(s.update(i, e)[0] == s[0]);
        if s[0].id == id {
            assert(s[0].id != s[i].id);
        } else {
            assert(s.update(i, e).drop_first() =~= s.drop_first().update(i - 1, e));
            assert(unique_slot_ids(s.drop_first())) by {
                assert forall|a: int, b: int|
                    0 <= a < b < s.drop_first().len() implies (#[trigger] s.drop_first()[
                a]).id != (#[trigger] s.drop_first()[b]).id by {
                    assert(s[a + 1].id != s[b + 1].id);
                }
            }
            lemma_find_slot_update(s.drop_first(), i - 1, e, id);
        }
    }
}

proof fn lemma_find_slot_push(s: Seq<NameSlot>, e: NameSlot, id: u64)
    ensures
        find_slot(s.push(e), id) == (match find_slot(s, id) {
            Some(d) => Some(d),
            None => if e.id == id {
                Some(e)
            } else {
                None
            },
        }),
    decreases s.len(),
{
    if s.len() == 0 {
        assert(s.push(e)[0] == e);
        assert(s.push(e).drop_first() =~= Seq::<NameSlot>::empty());
    } else {
        assert(s.push(e)[0] == s[0]);
        assert(s.push(e).drop_first() =~= s.drop_first().push(e));
        lemma_find_slot_push(s.drop_first(), e, id);
    }
}

proof fn lemma_find_slot_present(s: Seq<NameSlot>, i: int, id: u64)
    requires
        unique_slot_ids(s),
        0 <= i < s.len(),
        s[i].id == id,
    ensures
        find_slot(s, id) == Some(s[i]),
    decreases s.len(),
{
    if i > 0 {
        assert(s[0].id != s[i].id);
        assert(unique_slot_ids(s.drop_first())) by {
            assert forall|a: int, b: int|
                0 <= a < b < s.drop_first().len() implies (#[trigger] s.drop_first()[a]).id != (
            #[trigger] s.drop_first()[b]).id by {
                assert(s[a + 1].id != s[b + 1].id);
            }
        }
        lemma_find_slot_present(s.drop_first(), i - 1, id);
    }
}

proof fn lemma_find_slot_absent(s: Seq<NameSlot>, id: u64)
    requires
        forall|j: int| 0 <= j < s.len() ==> (#[trigger] s[j]).id != id,
    ensures
        find_slot(s, id) is None,
    decreases s.len(),
{
    if s.len() > 0 {
        assert(s[0].id != id);
        assert forall|j: int| 0 <= j < s.drop_first().len() implies (#[trigger] s.drop_first()[
        j]).id != id by {
            assert(s[j + 1].id != id);
        }
        lemma_find_slot_absent(s.drop_first(), id);
    }
}

/// The name slots of one kind of id: namespace names, or table names.
pub struct NameResolver {
    slots: Vec<NameSlot>,
}

impl NameResolver {
    pub closed spec fn slots_view(&self) -> Seq<NameSlot> {
        self.slots@
    }

    pub open spec fn wf(&self) -> bool {
        unique_slot_ids(self.slots_view())
    }

    /// The slot an id has, if any.
    pub open spec fn slot_of(&self, id: u64) -> Option<NameSlot> {
        find_slot(self.slots_view(), id)
    }

    pub fn new() -> (r: Self)
        ensures
            r.wf(),
            r.slots_view() == Seq::<NameSlot>::empty(),
    {
        NameResolver { slots: Vec::new() }
    }

    /// Joins or starts the load for an id.  Returns whether the caller has
    /// to run the fetch itself: true exactly when nothing had started it,
    /// whether because the id was new or its slot had not begun.  A
    /// resolved slot stays resolved.
    #[verifier::loop_isolation(false)]
    pub fn begin(&mut self, id: u64) -> (r: bool)
        requires
            old(self).wf(),
        ensures
            final(self).wf(),
            forall|q: u64| q != id ==> final(self).slot_of(q) == old(self).slot_of(q),
            match old(self).slot_of(id) {
                None => r == true && (match final(self).slot_of(id) {
                    Some(d) => d.load.state() is Loading,
                    None => false,
                }),
                Some(d) => match d.load.state() {
                    LoadState::NotStarted => r == true && (match final(self).slot_of(id) {
                        Some(d2) => d2.load.state() is Loading,
                        None => false,
                    }),
                    LoadState::Loading => r == false && final(self).slot_of(id) == old(
                        self,
                    ).slot_of(id),
                    LoadState::Loaded(v) => r == false && (match final(self).slot_of(id) {
                        Some(d2) => d2.load.state() == LoadState::Loaded(v),
                        None => false,
                    }),
                },
            },
    {
        let n = self.slots.len();
        let mut i: usize = 0;
        while i < n
            invariant
                i <= n,
                n == self.slots@.len(),
                self.slots@ == old(self).slots@,
                forall|j: int| 0 <= j < i ==> (#[trigger] self.slots@[j]).id != id,
            decreases n - i,
        {
            if self.slots[i].id == id {
                proof {
                    lemma_find_slot_present(old(self).slots@, i as int, id);
                }
                let mut slot = self.slots.remove(i);
                let must_load = slot.load.needs_start();
                slot.load.begin();
                self.slots.insert(i, slot);
                proof {
                    let k0 = i as int;
                    assert(self.slots@ =~= old(self).slots@.update(k0, slot));
                    assert forall|q: u64| true implies find_slot(self.slots@, q) == (if q == id {
                        Some(slot)
                    } else {
                        find_slot(old(self).slots@, q)
                    }) by {
                        lemma_find_slot_update(old(self).slots@, k0, slot, q);
                    }
                    assert forall|a: int, b: int|
                        0 <= a < b < self.slots@.len() implies (#[trigger] self.slots@[a]).id
                        != (#[trigger] self.slots@[b]).id by {
                        assert(old(self).slots@[a].id != old(self).slots@[b].id);
                    }
                }
                return must_load;
            }
            i += 1;
        }
        proof {
            lemma_find_slot_absent(self.slots@, id);
        }
        let mut load: DeferredLoad<String> = DeferredLoad::new();
        load.begin();
        let slot = NameSlot { id, load };
        let ghost before = self.slots@;
        self.slots.push(slot);
        proof {
            assert(self.slots@ =~= before.push(slot));
            assert forall|q: u64| true implies find_slot(self.slots@, q) == (match find_slot(
                before,
                q,
            ) {
                Some(d) => Some(d),
                None => if q == id {
                    Some(slot)
                } else {
                    None
                },
            }) by {
                lemma_find_slot_push(before, slot, q);
            }
            assert forall|a: int, b: int|
                0 <= a < b < self.slots@.len() implies (#[trigger] self.slots@[a]).id != (
            #[trigger] self.slots@[b]).id by {
                if b < self.slots@.len() - 1 {
                    assert(before[a].id != before[b].id);
                } else {
                    assert(find_slot(before, before[a].id) is Some) by {
                        lemma_find_slot_present(before, a, before[a].id);
                    }
                }
            }
        }
        true
    }

    /// Stores the name the fetch returned.  Only a slot whose load is in
    /// flight settles; everything else, another id included, is untouched.
    #[verifier::loop_isolation(false)]
    pub fn resolve(&mut self, id: u64, name: String)
        requires
            old(self).wf(),
        ensures
            final(self).wf(),
            forall|q: u64| q != id ==> final(self).slot_of(q) == old(self).slot_of(q),
            match old(self).slot_of(id) {
                Some(d) => match d.load.state() {
                    LoadState::Loading => match final(self).slot_of(id) {
                        Some(d2) => d2.load.state() == LoadState::Loaded(name),
                        None => false,
                    },
                    _ => final(self).slot_of(id) == old(self).slot_of(id),
                },
                None => final(self).slot_of(id) == old(self).slot_of(id),
            },
    {
        let n = self.slots.len();
        let mut i: usize = 0;
        while i < n
            invariant
                i <= n,
                n == self.slots@.len(),
                self.slots@ == old(self).slots@,
                forall|j: int| 0 <= j < i ==> (#[trigger] self.slots@[j]).id != id,
            decreases n - i,
        {
            if self.slots[i].id == id {
                proof {
                    lemma_find_slot_present(old(self).slots@, i as int, id);
                }
                let mut slot = self.slots.remove(i);
                let loading = !slot.load.needs_start() && match slot.load.get() {
                    Some(_) => false,
                    None => true,
                };
                if loading {
                    slot.load.resolve(name);
                }
                self.slots.insert(i, slot);
                proof {
                    let k0 = i as int;
                    assert(self.slots@ =~= old(self).slots@.update(k0, slot));
                    assert forall|q: u64| true implies find_slot(self.slots@, q) == (if q == id {
                        Some(slot)
                    } else {
                        find_slot(old(self).slots@, q)
                    }) by {
                        lemma_find_slot_update(old(self).slots@, k0, slot, q);
                    }
                    assert forall|a: int, b: int|
                        0 <= a < b < self.slots@.len() implies (#[trigger] self.slots@[a]).id
                        != (#[trigger] self.slots@[b]).id by {
                        assert(old(self).slots@[a].id != old(self).slots@[b].id);
                    }
                    if !(old(self).slot_of(id).unwrap().load.state() is Loading) {
                        assert(self.slots@ =~= old(self).slots@);
                    }
                }
                return ;
            }
            i += 1;
        }
        proof {
            lemma_find_slot_absent(self.slots@, id);
        }
    }

    /// The resolved name of an id, once its slot has settled.
    #[verifier::loop_isolation(false)]
    pub fn get(&self, id: u64) -> (r: Option<&String>)
        requires
            self.wf(),
        ensures
            match r {
                Some(v) => match self.slot_of(id) {
                    Some(d) => d.load.state() == LoadState::Loaded(*v),
                    None => false,
                },
                None => match self.slot_of(id) {
                    Some(d) => !(d.load.state() is Loaded),
                    None => true,
                },
            },
    {
        let n = self.slots.len();
        let mut i: usize = 0;
        while i < n
            invariant
                i <= n,
                n == self.slots@.len(),
                forall|j: int| 0 <= j < i ==> (#[trigger] self.slots@[j]).id != id,
            decreases n - i,
        {
            if self.slots[i].id == id {
                proof {
                    lemma_find_slot_present(self.slots@, i as int, id);
                }
                return self.slots[i].load.get();
            }
            i += 1;
        }
        proof {
            lemma_find_slot_absent(self.slots@, id);
        }
        None
    }
}

} // verus!
