//! Entity identity and the entity table.
//!
//! An entity is an opaque numeric identifier, allocated monotonically
//! and never reused. The table maps each live identifier to its
//! location: the archetype identity, the row index inside that
//! archetype's columns, and the component type list.

use vstd::prelude::*;

use crate::archetype::ArchetypeId;
use crate::component::ComponentType;

verus! {

/// A handle to one spawned entity: its identifier together with the
/// identity of the archetype it was stored in.
#[derive(Debug, Clone, Copy, PartialEq, Eq, Hash, Structural)]
pub struct Entity {
    pub id: u64,
    pub archetype: ArchetypeId,
}

impl Entity {
    /// Creates an entity handle from its parts.
    pub fn new(id: u64, archetype: ArchetypeId) -> (e: Entity)
        ensures
            e.id == id,
            e.archetype == archetype,
    {
        Entity { id, archetype }
    }

    /// The entity identifier.
    pub fn id(&self) -> (r: u64)
        ensures
            r == self.id,
    {
        self.id
    }

    /// The identity of the archetype this entity was stored in.
    pub fn archetype_id(&self) -> (r: ArchetypeId)
        ensures
            r == self.archetype,
    {
        self.archetype
    }
}

/// Where one live entity's data lives: archetype identity, row index
/// within that archetype's columns, and the component type list.
#[derive(Debug)]
pub struct EntityDataPointer {
    pub row_index: usize,
    pub archetype: ArchetypeId,
    pub components: Vec<ComponentType>,
}

impl EntityDataPointer {
    /// Field-wise sameness, with the type list compared as a sequence.
    pub open spec fn same_as(self, other: EntityDataPointer) -> bool {
        &&& self.row_index == other.row_index
        &&& self.archetype == other.archetype
        &&& self.components@ == other.components@
    }

    /// An owned copy of this location record.
    pub fn duplicate(&self) -> (r: EntityDataPointer)
        ensures
            r.same_as(*self),
    {
        EntityDataPointer {
            row_index: self.row_index,
            archetype: self.archetype,
            components: self.components.clone(),
        }
    }
}

/// The table of all entities of one world. The identifier is the index:
/// entity `e` is live exactly when `e < counter`, and its location is
/// the `e`-th table entry.
#[derive(Debug)]
pub struct Entities {
    pub counter: u64,
    pub entities: Vec<EntityDataPointer>,
}

impl Entities {
    /// The counter counts exactly the table entries.
    pub open spec fn inv(self) -> bool {
        self.counter as int == self.entities@.len()
    }

    /// Whether `e` names a live entity.
    pub open spec fn live(self, e: u64) -> bool {
        e < self.counter
    }

    /// A returned `(handle, location)` pair faithfully reports one live
    /// entity of this table.
    pub open spec fn pair_ok(self, p: (Entity, EntityDataPointer)) -> bool {
        &&& p.0.id < self.counter
        &&& p.1.same_as(self.entities@[p.0.id as int])
        &&& p.0.archetype == self.entities@[p.0.id as int].archetype
    }

    /// Creates an empty table.
    pub fn new() -> (r: Entities)
        ensures
            r.inv(),
            r.counter == 0,
    {
        Entities { counter: 0, entities: Vec::new() }
    }

    /// Mints the next entity identifier and records its location.
    pub fn spawn(
        &mut self,
        row_index: usize,
        archetype: ArchetypeId,
        components: Vec<ComponentType>,
    ) -> (e: Entity)
        requires
            old(self).inv(),
            old(self).counter < u64::MAX,
        ensures
            final(self).inv(),
            e.id == old(self).counter,
            e.archetype == archetype,
            final(self).counter == old(self).counter + 1,
            final(self).entities@ == old(self).entities@.push(
                (EntityDataPointer { row_index, archetype, components }),
            ),
    {
        let entity = self.counter;
        self.counter = self.counter + 1;
        self.entities.push(EntityDataPointer { row_index, archetype, components });
        Entity { id: entity, archetype }
    }

    /// Looks a live entity up, returning its handle and location.
    pub fn get(&self, entity: u64) -> (r: Option<(Entity, &EntityDataPointer)>)
        requires
            self.inv(),
        ensures
            r is Some <==> self.live(entity),
            r is Some ==> ({
                let p = r->Some_0;
                &&& p.0.id == entity
                &&& p.0.archetype == self.entities@[entity as int].archetype
                &&& *p.1 == self.entities@[entity as int]
            }),
    {
        let n = self.entities.len();
        if entity < n as u64 {
            let i = entity as usize;
            let d = &self.entities[i];
            Some((Entity { id: entity, archetype: d.archetype }, d))
        } else {
            None
        }
    }

    /// All live entities stored under the given archetype identity, in
    /// ascending identifier order.
    pub fn entities_by_archetype(&self, archetype: ArchetypeId) -> (r: Vec<
        (Entity, EntityDataPointer),
    >)
        requires
            self.inv(),
        ensures
            forall|p: int|
                0 <= p < r@.len() ==> self.pair_ok(#[trigger] r@[p]) && r@[p].1.archetype
                    == archetype,
            forall|p: int, q: int| 0 <= p < q < r@.len() ==> r@[p].0.id < r@[q].0.id,
            forall|e: u64|
                #[trigger] self.live(e) && self.entities@[e as int].archetype == archetype
                    ==> exists|p: int| 0 <= p < r@.len() && (#[trigger] r@[p]).0.id == e,
    {
        let n = self.entities.len();
        let mut r: Vec<(Entity, EntityDataPointer)> = Vec::new();
        let mut e: usize = 0;
        while e < n
            invariant
                self.inv(),
                n == self.entities@.len(),
                e <= n,
                forall|p: int|
                    0 <= p < r@.len() ==> self.pair_ok(#[trigger] r@[p]) && r@[p].1.archetype
                        == archetype && r@[p].0.id < e,
                forall|p: int, q: int| 0 <= p < q < r@.len() ==> r@[p].0.id < r@[q].0.id,
                forall|e2: u64|
                    e2 < e && self.entities@[e2 as int].archetype == archetype ==> exists|p: int|
                        0 <= p < r@.len() && (#[trigger] r@[p]).0.id == e2,
            decreases n - e,
        {
            let d = &self.entities[e];
            if d.archetype == archetype {
                let ghost before = r@;
                r.push((Entity { id: e as u64, archetype }, d.duplicate()));
                proof {
                    assert(r@.last().0.id == e as u64);
                    assert forall|e2: u64|
                        e2 < e + 1 && self.entities@[e2 as int].archetype == archetype
                            implies exists|p: int|
                            0 <= p < r@.len() && (#[trigger] r@[p]).0.id == e2 by {
                        if e2 < e {
                            let p = choose|p: int|
                                0 <= p < before.len() && (#[trigger] before[p]).0.id == e2;
                            assert(r@[p].0.id == e2);
                        } else {
                            assert(r@[r@.len() - 1].0.id == e2);
                        }
                    }
                }
            }
            e = e + 1;
        }
        r
    }

    /// All live entities whose component list holds the given type, in
    /// ascending identifier order.
    pub fn entities_by_component_id(&self, component_id: &ComponentType) -> (r: Vec<
        (Entity, EntityDataPointer),
    >)
        requires
            self.inv(),
        ensures
            forall|p: int|
                0 <= p < r@.len() ==> self.pair_ok(#[trigger] r@[p])
                    && r@[p].1.components@.contains(*component_id),
            forall|p: int, q: int| 0 <= p < q < r@.len() ==> r@[p].0.id < r@[q].0.id,
            forall|e: u64|
                #[trigger] self.live(e) && self.entities@[e as int].components@.contains(
                    *component_id,
                ) ==> exists|p: int| 0 <= p < r@.len() && (#[trigger] r@[p]).0.id == e,
    {
        let n = self.entities.len();
        let mut r: Vec<(Entity, EntityDataPointer)> = Vec::new();
        let mut e: usize = 0;
        while e < n
            invariant
                self.inv(),
                n == self.entities@.len(),
                e <= n,
                forall|p: int|
                    0 <= p < r@.len() ==> self.pair_ok(#[trigger] r@[p])
                        && r@[p].1.components@.contains(*component_id) && r@[p].0.id < e,
                forall|p: int, q: int| 0 <= p < q < r@.len() ==> r@[p].0.id < r@[q].0.id,
                forall|e2: u64|
                    e2 < e && self.entities@[e2 as int].components@.contains(*component_id)
                        ==> exists|p: int| 0 <= p < r@.len() && (#[trigger] r@[p]).0.id == e2,
            decreases n - e,
        {
            let d = &self.entities[e];
            if crate::archetype::contains_c_type(&d.components, *component_id) {
                let ghost before = r@;
                r.push((Entity { id: e as u64, archetype: d.archetype }, d.duplicate()));
                proof {
                    assert forall|e2: u64|
                        e2 < e + 1 && self.entities@[e2 as int].components@.contains(*component_id)
                            implies exists|p: int|
                            0 <= p < r@.len() && (#[trigger] r@[p]).0.id == e2 by {
                        if e2 < e {
                            let p = choose|p: int|
                                0 <= p < before.len() && (#[trigger] before[p]).0.id == e2;
                            assert(r@[p].0.id == e2);
                        } else {
                            assert(r@[r@.len() - 1].0.id == e2);
                        }
                    }
                }
            }
            e = e + 1;
        }
        r
    }

    /// Whether live entity `e`'s component list holds every type in
    /// `wanted`.
    pub open spec fn has_all(self, e: u64, wanted: Seq<ComponentType>) -> bool {
        forall|k: int|
            0 <= k < wanted.len() ==> self.entities@[e as int].components@.contains(
                #[trigger] wanted[k],
            )
    }

    /// All live entities whose component list holds every one of the
    /// given types, in ascending identifier order.
    pub fn entities_by_components_ids(&self, components_ids: &Vec<ComponentType>) -> (r: Vec<
        (Entity, EntityDataPointer),
    >)
        requires
            self.inv(),
        ensures
            forall|p: int|
                0 <= p < r@.len() ==> self.pair_ok(#[trigger] r@[p]) && (forall|k: int|
                    0 <= k < components_ids@.len() ==> r@[p].1.components@.contains(
                        #[trigger] components_ids@[k],
                    )),
            forall|p: int, q: int| 0 <= p < q < r@.len() ==> r@[p].0.id < r@[q].0.id,
            forall|e: u64|
                self.live(e) && #[trigger] self.has_all(e, components_ids@) ==> exists|p: int|
                    0 <= p < r@.len() && (#[trigger] r@[p]).0.id == e,
    {
        let n = self.entities.len();
        let mut r: Vec<(Entity, EntityDataPointer)> = Vec::new();
        let mut e: usize = 0;
        while e < n
            invariant
                self.inv(),
                n == self.entities@.len(),
                e <= n,
                forall|p: int|
                    0 <= p < r@.len() ==> self.pair_ok(#[trigger] r@[p]) && (forall|k: int|
                        0 <= k < components_ids@.len() ==> r@[p].1.components@.contains(
                            #[trigger] components_ids@[k],
                        )) && r@[p].0.id < e,
                forall|p: int, q: int| 0 <= p < q < r@.len() ==> r@[p].0.id < r@[q].0.id,
                forall|e2: u64|
                    e2 < e && #[trigger] self.has_all(e2, components_ids@) ==> exists|p: int|
                        0 <= p < r@.len() && (#[trigger] r@[p]).0.id == e2,
            decreases n - e,
        {
            let d = &self.entities[e];
            let matched = crate::archetype::contains_all_c_types(&d.components, components_ids);
            proof {
                assert(matched == self.has_all(e as u64, components_ids@));
            }
            if matched {
                let ghost before = r@;
                r.push((Entity { id: e as u64, archetype: d.archetype }, d.duplicate()));
                proof {
                    assert forall|e2: u64|
                        e2 < e + 1 && #[trigger] self.has_all(e2, components_ids@)
                            implies exists|p: int|
                            0 <= p < r@.len() && (#[trigger] r@[p]).0.id == e2 by {
                        if e2 < e {
                            let p = choose|p: int|
                                0 <= p < before.len() && (#[trigger] before[p]).0.id == e2;
                            assert(r@[p].0.id == e2);
                        } else {
                            assert(r@[r@.len() - 1].0.id == e2);
                        }
                    }
                }
            }
            e = e + 1;
        }
        r
    }
}

} // verus!
