//! Queries: borrow-checked views over matching entities.
//!
//! A query shape is a list of terms, each asking for one component type
//! by shared or by exclusive reference. Building a `QueryState` filters
//! the entity table down to the working set: the entities whose
//! component list holds every requested type (so an archetype matches
//! when it contains at least the requested types). `get` resolves one
//! entity into borrowed snapshots of its component values, taking the
//! per-slot leases; `release` returns them, writing exclusively
//! borrowed values back. `iter` reads the whole working set without
//! taking leases and can therefore be repeated freely.

use vstd::prelude::*;

use crate::component::ComponentType;
use crate::component::ErasedComponentData;
use crate::entity::Entity;
use crate::entity::EntityDataPointer;
use crate::world::World;

verus! {

/// One requested element of a query: a component type, asked for by
/// shared or by exclusive reference.
#[derive(Debug, Clone, Copy, PartialEq, Eq, Structural)]
pub enum QueryTerm {
    Shared(ComponentType),
    Exclusive(ComponentType),
}

/// The component type a term asks for.
pub open spec fn term_type(t: QueryTerm) -> ComponentType {
    match t {
        QueryTerm::Shared(c) => c,
        QueryTerm::Exclusive(c) => c,
    }
}

/// The requested component types of a term list, in term order.
pub open spec fn term_types(ts: Seq<QueryTerm>) -> Seq<ComponentType> {
    ts.map_values(|t: QueryTerm| term_type(t))
}

/// How asking a query about one entity can fail.
#[derive(Debug, Clone, Copy, PartialEq, Eq, Structural)]
pub enum QueryEntityError {
    /// The entity is not in the query's working set: it does not exist
    /// or lacks a requested component type. An expected, recoverable
    /// outcome.
    QueryDoesNotMatch(Entity),
    /// A requested slot is already borrowed incompatibly. A caller-side
    /// aliasing error, reported instead of handing out conflicting
    /// access.
    AliasingViolation(Entity),
}

/// The resolved form of a query against one world: the term list and
/// the working set of `(handle, location)` pairs.
#[derive(Debug)]
pub struct QueryState {
    pub terms: Vec<QueryTerm>,
    pub entities: Vec<(Entity, EntityDataPointer)>,
}

impl QueryState {
    /// Whether live entity `e` of world `w` matches a term list: its
    /// component list holds every requested type.
    pub open spec fn entity_matches(w: World, e: u64, terms: Seq<QueryTerm>) -> bool {
        &&& w.live(e)
        &&& forall|k: int|
            0 <= k < terms.len() ==> w.loc(e).components@.contains(term_type(#[trigger] terms[k]))
    }

    /// This query state faithfully describes world `w`: its working set
    /// holds exactly the matching entities, in ascending identifier
    /// order, with their true locations.
    pub open spec fn wf_for(self, w: World) -> bool {
        &&& forall|p: int|
            0 <= p < self.entities@.len() ==> w.entities.pair_ok(#[trigger] self.entities@[p])
                && Self::entity_matches(w, self.entities@[p].0.id, self.terms@)
        &&& forall|p: int, q: int|
            0 <= p < q < self.entities@.len() ==> self.entities@[p].0.id
                < self.entities@[q].0.id
        &&& forall|e: u64|
            #[trigger] Self::entity_matches(w, e, self.terms@) ==> exists|p: int|
                0 <= p < self.entities@.len() && (#[trigger] self.entities@[p]).0.id == e
    }

    /// Builds the working set for a term list: all entities whose
    /// component list holds every requested type.
    pub fn new(world: &World, terms: Vec<QueryTerm>) -> (r: QueryState)
        requires
            world.wf(),
        ensures
            r.terms@ == terms@,
            r.wf_for(*world),
    {
        let n = terms.len();
        let mut tys: Vec<ComponentType> = Vec::new();
        let mut k: usize = 0;
        while k < n
            invariant
                n == terms@.len(),
                k <= n,
                tys@ == term_types(terms@).subrange(0, k as int),
            decreases n - k,
        {
            let t = match terms[k] {
                QueryTerm::Shared(c) => c,
                QueryTerm::Exclusive(c) => c,
            };
            tys.push(t);
            proof {
                assert(tys@ =~= term_types(terms@).subrange(0, k as int + 1));
            }
            k = k + 1;
        }
        proof {
            assert(term_types(terms@).subrange(0, n as int) =~= term_types(terms@));
        }
        let entities = world.entities.entities_by_components_ids(&tys);
        let ghost gq = QueryState { terms, entities };
        proof {
            assert(gq.terms@ == terms@ && gq.entities@ == entities@);
            assert forall|p: int| 0 <= p < gq.entities@.len() implies world.entities.pair_ok(
                #[trigger] gq.entities@[p],
            ) && Self::entity_matches(*world, gq.entities@[p].0.id, gq.terms@) by {
                let e = gq.entities@[p].0.id;
                assert(entities@[p].0.id == e);
                assert forall|k2: int| 0 <= k2 < gq.terms@.len() implies world.loc(
                    e,
                ).components@.contains(term_type(#[trigger] gq.terms@[k2])) by {
                    assert(entities@[p].1.components@.contains(tys@[k2]));
                    assert(entities@[p].1.components@ == world.loc(e).components@);
                    assert(term_type(gq.terms@[k2]) == tys@[k2]);
                }
            }
            assert forall|e: u64| #[trigger] Self::entity_matches(*world, e, gq.terms@)
                implies exists|p: int|
                0 <= p < gq.entities@.len() && (#[trigger] gq.entities@[p]).0.id == e by {
                assert forall|k2: int|
                    0 <= k2 < tys@.len() implies world.entities.entities@[e as int].components@.contains(
                    #[trigger] tys@[k2],
                ) by {
                    assert(world.loc(e).components@.contains(term_type(gq.terms@[k2])));
                }
                assert(world.entities.has_all(e, tys@));
                assert(world.entities.live(e));
                let p = choose|p: int|
                    0 <= p < entities@.len() && (#[trigger] entities@[p]).0.id == e;
                assert(gq.entities@[p].0.id == e);
            }
            assert(gq.wf_for(*world));
        }
        let r = QueryState { terms, entities };
        proof {
            assert(r == gq);
        }
        r
    }

    /// The index of `e` in the working set, if the entity matches.
    fn find(&self, e: u64) -> (r: Option<usize>)
        ensures
            r is Some <==> exists|p: int|
                0 <= p < self.entities@.len() && (#[trigger] self.entities@[p]).0.id == e,
            r is Some ==> 0 <= r->Some_0 < self.entities@.len()
                && self.entities@[r->Some_0 as int].0.id == e,
    {
        let n = self.entities.len();
        let mut p: usize = 0;
        while p < n
            invariant
                n == self.entities@.len(),
                p <= n,
                forall|q: int| 0 <= q < p ==> (#[trigger] self.entities@[q]).0.id != e,
            decreases n - p,
        {
            if self.entities[p].0.id() == e {
                return Some(p);
            }
            p = p + 1;
        }
        proof {
            if exists|q: int|
                0 <= q < self.entities@.len() && (#[trigger] self.entities@[q]).0.id == e {
                let q = choose|q: int|
                    0 <= q < self.entities@.len() && (#[trigger] self.entities@[q]).0.id == e;
            }
        }
        None
    }

    /// Whether `e` is in this query's working set.
    pub open spec fn in_working_set(self, e: u64) -> bool {
        exists|p: int| 0 <= p < self.entities@.len() && (#[trigger] self.entities@[p]).0.id == e
    }

    /// Whether every lease this query's terms ask for on entity `e` is
    /// available in world `w`: shared terms need no exclusive borrow
    /// outstanding, exclusive terms need no borrow at all.
    pub open spec fn can_fetch(self, w: World, e: u64) -> bool {
        forall|k: int|
            0 <= k < self.terms@.len() ==> ({
                let t = term_type(#[trigger] self.terms@[k]);
                match self.terms@[k] {
                    QueryTerm::Shared(_) => w.component_slot(e, t).can_borrow(t),
                    QueryTerm::Exclusive(_) => w.component_slot(e, t).can_borrow_mut(t),
                }
            })
    }

    /// Whether every lease this query's terms take on entity `e` is
    /// outstanding in world `w`, so that it can be returned.
    pub open spec fn can_release(self, w: World, e: u64) -> bool {
        forall|k: int|
            0 <= k < self.terms@.len() ==> ({
                let t = term_type(#[trigger] self.terms@[k]);
                match self.terms@[k] {
                    QueryTerm::Shared(_) => w.component_slot(e, t).readers > 0,
                    QueryTerm::Exclusive(_) => w.component_slot(e, t).writer,
                }
            })
    }

    /// No slot moved between `w0` and `w`, except possibly entity `e`'s
    /// slots of the first `k` requested types.
    pub open spec fn untouched_except(self, w: World, w0: World, e: u64, k: int) -> bool {
        forall|e2: u64, t2: ComponentType|
            w0.has_component(e2, t2) && !(e2 == e && term_types(self.terms@).subrange(
                0,
                k,
            ).contains(t2)) ==> #[trigger] w.component_slot(e2, t2) == w0.component_slot(e2, t2)
    }

    /// A query state stays faithful across operations that keep the
    /// world's shape.
    pub proof fn lemma_wf_for_same_shape(self, w1: World, w0: World)
        requires
            self.wf_for(w0),
            w1.same_shape(w0),
        ensures
            self.wf_for(w1),
    {
        assert(w1.entities == w0.entities);
        assert forall|e: u64| #[trigger] Self::entity_matches(w1, e, self.terms@)
            implies exists|p: int|
            0 <= p < self.entities@.len() && (#[trigger] self.entities@[p]).0.id == e by {
            assert(Self::entity_matches(w0, e, self.terms@));
        }
        assert forall|p: int| 0 <= p < self.entities@.len() implies w1.entities.pair_ok(
            #[trigger] self.entities@[p],
        ) && Self::entity_matches(w1, self.entities@[p].0.id, self.terms@) by {
            assert(Self::entity_matches(w0, self.entities@[p].0.id, self.terms@));
        }
    }

    /// Resolves one entity of the working set into snapshots of its
    /// requested component values, taking one lease per term: a shared
    /// lease for a shared term, an exclusive lease for an exclusive
    /// term. The leases stay outstanding until `release` returns them.
    /// An entity outside the working set is a query miss; an
    /// unavailable lease is an aliasing violation. Either failure
    /// leaves the world untouched.
    pub fn get(&self, world: &mut World, entity: Entity) -> (r: Result<
        Vec<Vec<u64>>,
        QueryEntityError,
    >)
        requires
            old(world).wf(),
            self.wf_for(*old(world)),
            term_types(self.terms@).no_duplicates(),
        ensures
            final(world).wf(),
            final(world).same_shape(*old(world)),
            self.wf_for(*final(world)),
            r == Err::<Vec<Vec<u64>>, QueryEntityError>(
                QueryEntityError::QueryDoesNotMatch(entity),
            ) <==> !self.in_working_set(entity.id),
            r == Err::<Vec<Vec<u64>>, QueryEntityError>(
                QueryEntityError::AliasingViolation(entity),
            ) <==> self.in_working_set(entity.id) && !self.can_fetch(*old(world), entity.id),
            r is Ok <==> self.in_working_set(entity.id) && self.can_fetch(
                *old(world),
                entity.id,
            ),
            r is Err ==> *final(world) == *old(world),
            r is Ok ==> ({
                let items = r->Ok_0;
                &&& items@.len() == self.terms@.len()
                &&& forall|k: int|
                    0 <= k < self.terms@.len() ==> (#[trigger] items@[k])@ == old(
                        world,
                    ).component_value(entity.id, term_type(self.terms@[k]))
                &&& forall|k: int|
                    0 <= k < self.terms@.len() ==> ({
                        let t = term_type(#[trigger] self.terms@[k]);
                        let slot = old(world).component_slot(entity.id, t);
                        match self.terms@[k] {
                            QueryTerm::Shared(_) => final(world).component_slot(entity.id, t)
                                == (ErasedComponentData {
                                readers: (slot.readers + 1) as usize,
                                ..slot
                            }),
                            QueryTerm::Exclusive(_) => final(world).component_slot(entity.id, t)
                                == (ErasedComponentData { writer: true, ..slot }),
                        }
                    })
                &&& self.untouched_except(
                    *final(world),
                    *old(world),
                    entity.id,
                    self.terms@.len() as int,
                )
            }),
    {
        let e = entity.id;
        if self.find(e).is_none() {
            return Err(QueryEntityError::QueryDoesNotMatch(entity));
        }
        proof {
            let p = choose|p: int|
                0 <= p < self.entities@.len() && (#[trigger] self.entities@[p]).0.id == e;
            assert(Self::entity_matches(*old(world), e, self.terms@));
        }
        let m = self.terms.len();
        // First pass: every lease must be available, or nothing happens.
        let mut k: usize = 0;
        while k < m
            invariant
                e == entity.id,
                old(world).wf(),
                world == old(world),
                self.wf_for(*old(world)),
                Self::entity_matches(*old(world), e, self.terms@),
                m == self.terms@.len(),
                k <= m,
                forall|k2: int|
                    0 <= k2 < k ==> ({
                        let t = term_type(#[trigger] self.terms@[k2]);
                        match self.terms@[k2] {
                            QueryTerm::Shared(_) => old(world).component_slot(e, t).can_borrow(t),
                            QueryTerm::Exclusive(_) => old(world).component_slot(
                                e,
                                t,
                            ).can_borrow_mut(t),
                        }
                    }),
            decreases m - k,
        {
            let term = self.terms[k];
            let t = match term {
                QueryTerm::Shared(c) => c,
                QueryTerm::Exclusive(c) => c,
            };
            proof {
                assert(t == term_type(self.terms@[k as int]));
                assert(old(world).has_component(e, t));
                assert(old(world).component_slot(e, t).c_type == t) by {
                    let d = old(world).loc(e);
                    let a = old(world).archetype_of(e);
                    assert(a.c_types@.contains(t));
                    let jt = crate::archetype::index_of_type(a.c_types@, t);
                    assert(a.c_types@[jt] == t);
                    assert(a.columns@[jt].c_type == t);
                    assert(a.columns@[jt].data@[d.row_index as int].c_type == t);
                }
            }
            let state = world.borrow_state(e, t).unwrap();
            let ok = match term {
                QueryTerm::Shared(_) => !state.1 && state.0 < usize::MAX,
                QueryTerm::Exclusive(_) => !state.1 && state.0 == 0,
            };
            if !ok {
                proof {
                    assert(self.in_working_set(e));
                    let slot = old(world).component_slot(e, t);
                    assert(state == (slot.readers, slot.writer));
                    assert(!self.can_fetch(*old(world), e)) by {
                        match self.terms@[k as int] {
                            QueryTerm::Shared(_) => {
                                assert(!slot.can_borrow(t));
                            },
                            QueryTerm::Exclusive(_) => {
                                assert(!slot.can_borrow_mut(t));
                            },
                        }
                    }
                }
                return Err(QueryEntityError::AliasingViolation(entity));
            }
            k = k + 1;
        }
        proof {
            assert(self.can_fetch(*old(world), e));
        }
        // Second pass: take the leases and collect the snapshots.
        let mut items: Vec<Vec<u64>> = Vec::new();
        let mut k: usize = 0;
        while k < m
            invariant
                e == entity.id,
                old(world).wf(),
                world.wf(),
                world.same_shape(*old(world)),
                self.wf_for(*old(world)),
                Self::entity_matches(*old(world), e, self.terms@),
                self.can_fetch(*old(world), e),
                term_types(self.terms@).no_duplicates(),
                m == self.terms@.len(),
                k <= m,
                items@.len() == k,
                forall|k2: int|
                    0 <= k2 < k ==> (#[trigger] items@[k2])@ == old(world).component_value(
                        e,
                        term_type(self.terms@[k2]),
                    ),
                forall|k2: int|
                    0 <= k2 < k ==> ({
                        let t = term_type(#[trigger] self.terms@[k2]);
                        let slot = old(world).component_slot(e, t);
                        match self.terms@[k2] {
                            QueryTerm::Shared(_) => world.component_slot(e, t)
                                == (ErasedComponentData {
                                readers: (slot.readers + 1) as usize,
                                ..slot
                            }),
                            QueryTerm::Exclusive(_) => world.component_slot(e, t)
                                == (ErasedComponentData { writer: true, ..slot }),
                        }
                    }),
                self.untouched_except(*world, *old(world), e, k as int),
            decreases m - k,
        {
            let ghost wmid = *world;
            let term = self.terms[k];
            let t = match term {
                QueryTerm::Shared(c) => c,
                QueryTerm::Exclusive(c) => c,
            };
            proof {
                assert(t == term_type(self.terms@[k as int]));
                assert(old(world).has_component(e, t));
                assert(world.has_component(e, t));
                // This term's slot has not moved yet: its type is not
                // among the first `k` (the types are distinct).
                assert(!term_types(self.terms@).subrange(0, k as int).contains(t)) by {
                    if term_types(self.terms@).subrange(0, k as int).contains(t) {
                        let k2 = choose|k2: int|
                            0 <= k2 < k && term_types(self.terms@).subrange(0, k as int)[k2] == t;
                        assert(term_types(self.terms@)[k2] == t);
                        assert(term_types(self.terms@)[k as int] == t);
                    }
                }
                assert(world.component_slot(e, t) == old(world).component_slot(e, t));
            }
            let value = match term {
                QueryTerm::Shared(_) => world.get_component(e, t).unwrap(),
                QueryTerm::Exclusive(_) => world.get_component_mut(e, t).unwrap(),
            };
            items.push(value);
            proof {
                crate::world::World::lemma_same_shape_trans(*world, wmid, *old(world));
                assert forall|k2: int| 0 <= k2 < k + 1 implies ({
                    let t2 = term_type(#[trigger] self.terms@[k2]);
                    let slot = old(world).component_slot(e, t2);
                    match self.terms@[k2] {
                        QueryTerm::Shared(_) => world.component_slot(e, t2)
                            == (ErasedComponentData {
                            readers: (slot.readers + 1) as usize,
                            ..slot
                        }),
                        QueryTerm::Exclusive(_) => world.component_slot(e, t2)
                            == (ErasedComponentData { writer: true, ..slot }),
                    }
                }) by {
                    let t2 = term_type(self.terms@[k2]);
                    if k2 < k {
                        assert(t2 != t) by {
                            assert(term_types(self.terms@)[k2] == t2);
                            assert(term_types(self.terms@)[k as int] == t);
                        }
                        assert(world.component_slot(e, t2) == wmid.component_slot(e, t2));
                    }
                }
                assert(self.untouched_except(*world, *old(world), e, k as int + 1)) by {
                    assert forall|e2: u64, t2: ComponentType|
                        old(world).has_component(e2, t2) && !(e2 == e && term_types(
                            self.terms@,
                        ).subrange(0, k as int + 1).contains(t2))
                            implies #[trigger] world.component_slot(e2, t2) == old(
                        world,
                    ).component_slot(e2, t2) by {
                        assert(!(e2 == e && t2 == t)) by {
                            if e2 == e && t2 == t {
                                assert(term_types(self.terms@).subrange(0, k as int + 1)[k as int]
                                    == t);
                            }
                        }
                        assert(wmid.has_component(e2, t2));
                        assert(world.component_slot(e2, t2) == wmid.component_slot(e2, t2));
                        assert(!(e2 == e && term_types(self.terms@).subrange(0, k as int).contains(
                            t2,
                        ))) by {
                            if term_types(self.terms@).subrange(0, k as int).contains(t2) {
                                let k3 = choose|k3: int|
                                    0 <= k3 < k && term_types(self.terms@).subrange(
                                        0,
                                        k as int,
                                    )[k3] == t2;
                                assert(term_types(self.terms@).subrange(0, k as int + 1)[k3]
                                    == t2);
                            }
                        }
                    }
                }
            }
            k = k + 1;
        }
        proof {
            self.lemma_wf_for_same_shape(*world, *old(world));
        }
        Ok(items)
    }

    /// Returns the leases `get` took on one entity, writing each
    /// exclusively borrowed value back into its slot. `items` must line
    /// up with the terms; entries under shared terms are ignored.
    /// Reports whether the leases were outstanding and returned;
    /// otherwise the world is untouched.
    pub fn release(&self, world: &mut World, entity: Entity, items: Vec<Vec<u64>>) -> (ok: bool)
        requires
            old(world).wf(),
            self.wf_for(*old(world)),
            term_types(self.terms@).no_duplicates(),
        ensures
            final(world).wf(),
            final(world).same_shape(*old(world)),
            self.wf_for(*final(world)),
            ok <==> (self.in_working_set(entity.id) && items@.len() == self.terms@.len()
                && self.can_release(*old(world), entity.id)),
            !ok ==> *final(world) == *old(world),
            ok ==> ({
                &&& forall|k: int|
                    0 <= k < self.terms@.len() ==> ({
                        let t = term_type(#[trigger] self.terms@[k]);
                        let slot = old(world).component_slot(entity.id, t);
                        match self.terms@[k] {
                            QueryTerm::Shared(_) => final(world).component_slot(entity.id, t)
                                == (ErasedComponentData {
                                readers: (slot.readers - 1) as usize,
                                ..slot
                            }),
                            QueryTerm::Exclusive(_) => ({
                                let s = final(world).component_slot(entity.id, t);
                                &&& s.c_type == slot.c_type
                                &&& s.data@ == items@[k]@
                                &&& s.readers == slot.readers
                                &&& !s.writer
                            }),
                        }
                    })
                &&& self.untouched_except(
                    *final(world),
                    *old(world),
                    entity.id,
                    self.terms@.len() as int,
                )
            }),
    {
        let e = entity.id;
        if self.find(e).is_none() {
            return false;
        }
        proof {
            let p = choose|p: int|
                0 <= p < self.entities@.len() && (#[trigger] self.entities@[p]).0.id == e;
            assert(Self::entity_matches(*old(world), e, self.terms@));
        }
        let m = self.terms.len();
        if items.len() != m {
            return false;
        }
        // First pass: every lease must be outstanding, or nothing happens.
        let mut k: usize = 0;
        while k < m
            invariant
                e == entity.id,
                old(world).wf(),
                world == old(world),
                self.wf_for(*old(world)),
                Self::entity_matches(*old(world), e, self.terms@),
                m == self.terms@.len(),
                k <= m,
                forall|k2: int|
                    0 <= k2 < k ==> ({
                        let t = term_type(#[trigger] self.terms@[k2]);
                        match self.terms@[k2] {
                            QueryTerm::Shared(_) => old(world).component_slot(e, t).readers > 0,
                            QueryTerm::Exclusive(_) => old(world).component_slot(e, t).writer,
                        }
                    }),
            decreases m - k,
        {
            let term = self.terms[k];
            let t = match term {
                QueryTerm::Shared(c) => c,
                QueryTerm::Exclusive(c) => c,
            };
            proof {
                assert(t == term_type(self.terms@[k as int]));
                assert(old(world).has_component(e, t));
            }
            let state = world.borrow_state(e, t).unwrap();
            let held = match term {
                QueryTerm::Shared(_) => state.0 > 0,
                QueryTerm::Exclusive(_) => state.1,
            };
            if !held {
                proof {
                    assert(self.in_working_set(e));
                    let slot = old(world).component_slot(e, t);
                    assert(state == (slot.readers, slot.writer));
                    assert(!self.can_release(*old(world), e));
                }
                return false;
            }
            k = k + 1;
        }
        proof {
            assert(self.can_release(*old(world), e));
        }
        // Second pass: return the leases, writing exclusive values back.
        let mut k: usize = 0;
        while k < m
            invariant
                e == entity.id,
                old(world).wf(),
                world.wf(),
                world.same_shape(*old(world)),
                self.wf_for(*old(world)),
                Self::entity_matches(*old(world), e, self.terms@),
                self.can_release(*old(world), e),
                term_types(self.terms@).no_duplicates(),
                m == self.terms@.len(),
                m == items@.len(),
                k <= m,
                forall|k2: int|
                    0 <= k2 < k ==> ({
                        let t = term_type(#[trigger] self.terms@[k2]);
                        let slot = old(world).component_slot(e, t);
                        match self.terms@[k2] {
                            QueryTerm::Shared(_) => world.component_slot(e, t)
                                == (ErasedComponentData {
                                readers: (slot.readers - 1) as usize,
                                ..slot
                            }),
                            QueryTerm::Exclusive(_) => ({
                                let s = world.component_slot(e, t);
                                &&& s.c_type == slot.c_type
                                &&& s.data@ == items@[k2]@
                                &&& s.readers == slot.readers
                                &&& !s.writer
                            }),
                        }
                    }),
                self.untouched_except(*world, *old(world), e, k as int),
            decreases m - k,
        {
            let ghost wmid = *world;
            let term = self.terms[k];
            let t = match term {
                QueryTerm::Shared(c) => c,
                QueryTerm::Exclusive(c) => c,
            };
            proof {
                assert(t == term_type(self.terms@[k as int]));
                assert(old(world).has_component(e, t));
                assert(world.has_component(e, t));
                assert(!term_types(self.terms@).subrange(0, k as int).contains(t)) by {
                    if term_types(self.terms@).subrange(0, k as int).contains(t) {
                        let k2 = choose|k2: int|
                            0 <= k2 < k && term_types(self.terms@).subrange(0, k as int)[k2] == t;
                        assert(term_types(self.terms@)[k2] == t);
                        assert(term_types(self.terms@)[k as int] == t);
                    }
                }
                assert(world.component_slot(e, t) == old(world).component_slot(e, t));
            }
            let done = match term {
                QueryTerm::Shared(_) => world.release_component(e, t),
                QueryTerm::Exclusive(_) => world.release_component_mut(e, t, items[k].clone()),
            };
            proof {
                assert(done);
                crate::world::World::lemma_same_shape_trans(*world, wmid, *old(world));
                assert forall|k2: int| 0 <= k2 < k + 1 implies ({
                    let t2 = term_type(#[trigger] self.terms@[k2]);
                    let slot = old(world).component_slot(e, t2);
                    match self.terms@[k2] {
                        QueryTerm::Shared(_) => world.component_slot(e, t2)
                            == (ErasedComponentData {
                            readers: (slot.readers - 1) as usize,
                            ..slot
                        }),
                        QueryTerm::Exclusive(_) => ({
                            let s = world.component_slot(e, t2);
                            &&& s.c_type == slot.c_type
                            &&& s.data@ == items@[k2]@
                            &&& s.readers == slot.readers
                            &&& !s.writer
                        }),
                    }
                }) by {
                    let t2 = term_type(self.terms@[k2]);
                    if k2 < k {
                        assert(t2 != t) by {
                            assert(term_types(self.terms@)[k2] == t2);
                            assert(term_types(self.terms@)[k as int] == t);
                        }
                        assert(world.component_slot(e, t2) == wmid.component_slot(e, t2));
                    }
                }
                assert(self.untouched_except(*world, *old(world), e, k as int + 1)) by {
                    assert forall|e2: u64, t2: ComponentType|
                        old(world).has_component(e2, t2) && !(e2 == e && term_types(
                            self.terms@,
                        ).subrange(0, k as int + 1).contains(t2))
                            implies #[trigger] world.component_slot(e2, t2) == old(
                        world,
                    ).component_slot(e2, t2) by {
                        assert(!(e2 == e && t2 == t)) by {
                            if e2 == e && t2 == t {
                                assert(term_types(self.terms@).subrange(0, k as int + 1)[k as int]
                                    == t);
                            }
                        }
                        assert(wmid.has_component(e2, t2));
                        assert(world.component_slot(e2, t2) == wmid.component_slot(e2, t2));
                        assert(!(e2 == e && term_types(self.terms@).subrange(0, k as int).contains(
                            t2,
                        ))) by {
                            if term_types(self.terms@).subrange(0, k as int).contains(t2) {
                                let k3 = choose|k3: int|
                                    0 <= k3 < k && term_types(self.terms@).subrange(
                                        0,
                                        k as int,
                                    )[k3] == t2;
                                assert(term_types(self.terms@).subrange(0, k as int + 1)[k3]
                                    == t2);
                            }
                        }
                    }
                }
            }
            k = k + 1;
        }
        proof {
            self.lemma_wf_for_same_shape(*world, *old(world));
        }
        true
    }

    /// Fetches every working-set entity's requested values as
    /// snapshots, without taking any lease; the query can therefore be
    /// iterated again freely. Fails with an aliasing violation if any
    /// requested slot is exclusively borrowed: a snapshot taken then
    /// could go stale while the writer holds the slot.
    pub fn iter(&self, world: &World) -> (r: Result<
        Vec<(Entity, Vec<Vec<u64>>)>,
        QueryEntityError,
    >)
        requires
            world.wf(),
            self.wf_for(*world),
        ensures
            r is Ok <==> (forall|p: int, k: int|
                0 <= p < self.entities@.len() && 0 <= k < self.terms@.len()
                    ==> !world.component_slot(
                    (#[trigger] self.entities@[p]).0.id,
                    term_type(#[trigger] self.terms@[k]),
                ).writer),
            r is Ok ==> ({
                let out = r->Ok_0@;
                &&& out.len() == self.entities@.len()
                &&& forall|p: int|
                    0 <= p < out.len() ==> (#[trigger] out[p]).0 == self.entities@[p].0
                        && out[p].1@.len() == self.terms@.len()
                &&& forall|p: int, k: int|
                    0 <= p < out.len() && 0 <= k < self.terms@.len()
                        ==> (#[trigger] out[p].1@[k])@ == world.component_value(
                        self.entities@[p].0.id,
                        term_type(self.terms@[k]),
                    )
            }),
            r is Err ==> r->Err_0 is AliasingViolation,
    {
        let n = self.entities.len();
        let m = self.terms.len();
        let mut out: Vec<(Entity, Vec<Vec<u64>>)> = Vec::new();
        let mut p: usize = 0;
        while p < n
            invariant
                world.wf(),
                self.wf_for(*world),
                n == self.entities@.len(),
                m == self.terms@.len(),
                p <= n,
                out@.len() == p,
                forall|p2: int|
                    0 <= p2 < p ==> (#[trigger] out@[p2]).0 == self.entities@[p2].0
                        && out@[p2].1@.len() == self.terms@.len(),
                forall|p2: int, k: int|
                    0 <= p2 < p && 0 <= k < self.terms@.len() ==> (#[trigger] out@[p2].1@[k])@
                        == world.component_value(
                        self.entities@[p2].0.id,
                        term_type(self.terms@[k]),
                    ),
                forall|p2: int, k: int|
                    0 <= p2 < p && 0 <= k < self.terms@.len() ==> !world.component_slot(
                        (#[trigger] self.entities@[p2]).0.id,
                        term_type(#[trigger] self.terms@[k]),
                    ).writer,
            decreases n - p,
        {
            let pair = &self.entities[p];
            let e = pair.0;
            let d = &pair.1;
            proof {
                assert(world.entities.pair_ok(self.entities@[p as int]));
                assert(world.archetypes.contains_id(world.loc(e.id).archetype));
            }
            let ai = match world.archetypes.index_of(d.archetype) {
                Some(ai) => ai,
                None => {
                    proof {
                        assert(d.archetype == world.loc(e.id).archetype);
                        assert(false);
                    }
                    0
                },
            };
            let a = &world.archetypes.archetypes[ai];
            proof {
                assert(*a == world.archetype_of(e.id)) by {
                    assert(world.archetypes.index_of_id(world.loc(e.id).archetype) == ai as int);
                }
            }
            let mut item: Vec<Vec<u64>> = Vec::new();
            let mut k: usize = 0;
            while k < m
                invariant
                    world.wf(),
                    self.wf_for(*world),
                    n == self.entities@.len(),
                    m == self.terms@.len(),
                    p < n,
                    k <= m,
                    *pair == self.entities@[p as int],
                    e == self.entities@[p as int].0,
                    d == &self.entities@[p as int].1,
                    *a == world.archetype_of(e.id),
                    world.entities.pair_ok(self.entities@[p as int]),
                    item@.len() == k,
                    forall|k2: int|
                        0 <= k2 < k ==> (#[trigger] item@[k2])@ == world.component_value(
                            e.id,
                            term_type(self.terms@[k2]),
                        ),
                    forall|k2: int|
                        0 <= k2 < k ==> !world.component_slot(
                            e.id,
                            term_type(#[trigger] self.terms@[k2]),
                        ).writer,
                decreases m - k,
            {
                let t = match self.terms[k] {
                    QueryTerm::Shared(c) => c,
                    QueryTerm::Exclusive(c) => c,
                };
                proof {
                    assert(t == term_type(self.terms@[k as int]));
                    assert(world.loc(e.id).components@.contains(t));
                    assert(world.loc(e.id).components@ == world.archetype_of(e.id).c_types@);
                    assert(d.row_index == world.loc(e.id).row_index);
                    assert(world.loc(e.id).row_index < world.archetype_of(e.id).entities@.len());
                    assert(a.has_slot(t, d.row_index as int));
                }
                let state = a.borrow_state(t, d.row_index).unwrap();
                if state.1 {
                    proof {
                        assert(world.component_slot(e.id, t).writer);
                    }
                    return Err(QueryEntityError::AliasingViolation(e));
                }
                let value = a.read_slot(t, d.row_index).unwrap();
                item.push(value);
                k = k + 1;
            }
            out.push((e, item));
            p = p + 1;
        }
        Ok(out)
    }
}

/// Query correctness: an entity is in a query's working set exactly
/// when it is live and its component list holds every requested type;
/// and the working set names each such entity exactly once. Together
/// with the contracts of `get` and `iter`, fetching succeeds exactly
/// on those entities.
pub proof fn lemma_query_correctness(qs: QueryState, w: World, e: u64)
    requires
        w.wf(),
        qs.wf_for(w),
    ensures
        qs.in_working_set(e) <==> QueryState::entity_matches(w, e, qs.terms@),
        forall|p: int, q: int|
            0 <= p < q < qs.entities@.len() ==> qs.entities@[p].0.id != qs.entities@[q].0.id,
{
    if qs.in_working_set(e) {
        let p = choose|p: int|
            0 <= p < qs.entities@.len() && (#[trigger] qs.entities@[p]).0.id == e;
        assert(QueryState::entity_matches(w, qs.entities@[p].0.id, qs.terms@));
    }
}

} // verus!
