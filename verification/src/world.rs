//! The world: entity table plus archetype registry.
//!
//! `spawn` decomposes a bundle into the archetype of its component type
//! set, creating the archetype on first use; `query` (see the query
//! module) resolves requested component types against the stored
//! columns. A ghost history of the spawned type sets records what the
//! registry partitions.

use vstd::prelude::*;

use crate::archetype::c_types_equal;
use crate::archetype::canon_of_set;
use crate::archetype::contains_c_type;
use crate::archetype::id_from_c_types;
use crate::archetype::types_distinct;
use crate::archetype::id_of_set;
use crate::archetype::lemma_canon_of_sorted;
use crate::archetype::lemma_strictly_sorted_same_set;
use crate::archetype::sort_c_types;
use crate::archetype::strictly_sorted;
use crate::archetype::sum_ids;
use crate::archetype::Archetype;
use crate::archetype::ArchetypeId;
use crate::archetype::Archetypes;
use crate::component::bundle_data_for;
use crate::component::bundle_types;
use crate::component::components_ids;
use crate::component::ComponentPtr;
use crate::component::ComponentType;
use crate::component::ErasedComponentData;
use crate::entity::Entities;
use crate::query::QueryState;
use crate::query::QueryTerm;
use crate::entity::Entity;
use crate::entity::EntityDataPointer;

verus! {

/// The in-memory store: all entities, all archetypes, and (as ghost
/// history) the component type set of every spawn so far.
pub struct World {
    pub entities: Entities,
    pub archetypes: Archetypes,
    pub spawned: Ghost<Seq<Set<ComponentType>>>,
}

impl World {
    /// Whether `e` names a live entity.
    pub open spec fn live(self, e: u64) -> bool {
        self.entities.live(e)
    }

    /// The location record of entity `e`.
    pub open spec fn loc(self, e: u64) -> EntityDataPointer {
        self.entities.entities@[e as int]
    }

    /// The archetype entity `e` is stored in.
    pub open spec fn archetype_of(self, e: u64) -> Archetype {
        self.archetypes.archetypes@[self.archetypes.index_of_id(self.loc(e).archetype)]
    }

    /// Whether live entity `e` carries a component of type `t`.
    pub open spec fn has_component(self, e: u64, t: ComponentType) -> bool {
        self.live(e) && self.loc(e).components@.contains(t)
    }

    /// The storage slot of entity `e`'s component of type `t`.
    pub open spec fn component_slot(self, e: u64, t: ComponentType) -> ErasedComponentData {
        self.archetype_of(e).slot(t, self.loc(e).row_index as int)
    }

    /// The stored value of entity `e`'s component of type `t`.
    pub open spec fn component_value(self, e: u64, t: ComponentType) -> Seq<u64> {
        self.component_slot(e, t).data@
    }

    /// Well-formedness: the table, the registry, the row alignment
    /// between them, and the ghost history all agree.
    pub open spec fn wf(self) -> bool {
        &&& self.entities.inv()
        &&& self.archetypes.inv()
        // Every live entity points at a present archetype, carries that
        // archetype's type list, and owns the row it names.
        &&& forall|e: int|
            0 <= e < self.entities.entities@.len() ==> {
                let d = #[trigger] self.entities.entities@[e];
                &&& self.archetypes.contains_id(d.archetype)
                &&& {
                    let a = self.archetypes.archetypes@[self.archetypes.index_of_id(d.archetype)];
                    &&& d.components@ == a.c_types@
                    &&& d.row_index < a.entities@.len()
                    &&& a.entities@[d.row_index as int] == e as u64
                }
            }
        // Every archetype row belongs to the live entity it names.
        &&& forall|i: int, row: int|
            0 <= i < self.archetypes.archetypes@.len() && 0 <= row
                < self.archetypes.archetypes@[i].entities@.len() ==> {
                let eid = #[trigger] self.archetypes.archetypes@[i].entities@[row];
                &&& eid < self.entities.counter
                &&& self.entities.entities@[eid as int].archetype
                    == self.archetypes.archetypes@[i].id
                &&& self.entities.entities@[eid as int].row_index == row
            }
        // No archetype exists that nothing was spawned into.
        &&& forall|i: int|
            0 <= i < self.archetypes.archetypes@.len() ==> (#[trigger] self.archetypes.archetypes@[i]).entities@.len() > 0
        // The history records, spawn by spawn, the stored type sets.
        &&& self.spawned@.len() == self.entities.entities@.len()
        &&& forall|e: int|
            0 <= e < self.entities.entities@.len() ==> (#[trigger] self.spawned@[e])
                == self.entities.entities@[e].components@.to_set()
    }

    /// The precondition of `spawn`: a well-formed world with room for
    /// one more entity, a bundle whose member types are pairwise
    /// distinct, and no archetype identity collision — an existing
    /// archetype with the bundle's identity must store the bundle's
    /// very type set.
    pub open spec fn can_spawn(self, bundle: Seq<ComponentPtr>) -> bool {
        &&& self.wf()
        &&& self.entities.counter < u64::MAX
        &&& bundle_types(bundle).no_duplicates()
        &&& forall|i: int|
            0 <= i < self.archetypes.archetypes@.len() && (#[trigger] self.archetypes.archetypes@[i]).id as int
                == id_of_set(bundle_types(bundle).to_set()) ==> self.archetypes.archetypes@[i].c_type_set()
                == bundle_types(bundle).to_set()
    }

    /// What one spawn does: the relation between the world before and
    /// after, the bundle, and the returned entity handle.
    pub open spec fn spawn_post(pre: World, post: World, bundle: Seq<ComponentPtr>, e: Entity) -> bool {
        &&& post.wf()
        &&& e.id == pre.entities.counter
        &&& post.entities.counter == pre.entities.counter + 1
        &&& post.live(e.id)
        &&& post.spawned@ == pre.spawned@.push(bundle_types(bundle).to_set())
        &&& e.archetype as int == id_of_set(bundle_types(bundle).to_set())
        &&& post.loc(e.id).archetype == e.archetype
        &&& post.loc(e.id).components@ == canon_of_set(bundle_types(bundle).to_set())
        &&& post.loc(e.id).components@.to_set() == bundle_types(bundle).to_set()
        &&& pre.archetypes.contains_id(e.archetype) ==> post.archetypes.archetypes@.len()
            == pre.archetypes.archetypes@.len()
        &&& !pre.archetypes.contains_id(e.archetype) ==> post.archetypes.archetypes@.len()
            == pre.archetypes.archetypes@.len() + 1
        &&& forall|k: int|
            0 <= k < bundle.len() ==> ({
                let t = (#[trigger] bundle[k]).c_type;
                &&& post.has_component(e.id, t)
                &&& post.component_slot(e.id, t).c_type == t
                &&& post.component_slot(e.id, t).data@ == bundle[k].data@
                &&& post.component_slot(e.id, t).readers == 0
                &&& !post.component_slot(e.id, t).writer
            })
        &&& forall|e2: u64, t: ComponentType|
            pre.has_component(e2, t) ==> #[trigger] post.component_slot(e2, t)
                == pre.component_slot(e2, t)
        &&& forall|e2: u64, t: ComponentType|
            e2 < pre.entities.counter ==> (#[trigger] post.has_component(e2, t)
                == pre.has_component(e2, t))
    }

    /// Spawns one entity from a bundle of component values: resolves or
    /// creates the archetype of the bundle's type set, writes each
    /// member into the column of its type at one common fresh row, and
    /// mints the entity identifier.
    pub fn spawn(&mut self, bundle: Vec<ComponentPtr>) -> (e: Entity)
        requires
            old(self).can_spawn(bundle@),
        ensures
            Self::spawn_post(*old(self), *final(self), bundle@, e),
    {
        let ghost bt = bundle_types(bundle@);
        let types = components_ids(&bundle);
        let sorted = sort_c_types(&types);
        let ghost sorted_view = sorted@;
        proof {
            lemma_canon_of_sorted(sorted@);
            assert(canon_of_set(bt.to_set()) == sorted@);
            assert(id_of_set(bt.to_set()) == sum_ids(sorted@));
            // The collision-freedom clause carries over to the canonical list.
            assert forall|i: int|
                0 <= i < self.archetypes.archetypes@.len() && (#[trigger] self.archetypes.archetypes@[i]).id as int
                    == sum_ids(sorted@) implies self.archetypes.archetypes@[i].c_types@
                == sorted@ by {
                assert(self.archetypes.archetypes@[i].c_type_set() == bt.to_set());
                lemma_strictly_sorted_same_set(self.archetypes.archetypes@[i].c_types@, sorted@);
            }
        }
        let comps = sorted.clone();
        let i = self.archetypes.init_storage(sorted);
        let ghost mid = self.archetypes.archetypes@;
        let ghost created = self.archetypes.archetypes@.len() != old(self).archetypes.archetypes@.len();
        let e_id = self.entities.counter;
        let a = &mut self.archetypes.archetypes[i];
        proof {
            assert(a.inv());
            assert(bundle_types(bundle@).to_set() == a.c_types@.to_set());
        }
        let row = a.store_components(e_id, &bundle);
        let aid = self.archetypes.archetypes[i].id;
        let entity = self.entities.spawn(row, aid, comps);
        self.spawned = Ghost(self.spawned@.push(bt.to_set()));
        proof {
            broadcast use vstd::set::group_set_axioms;
            let reg0 = old(self).archetypes.archetypes@;
            let reg2 = self.archetypes.archetypes@;
            let cnt0 = old(self).entities.counter;
            let arch = reg2[i as int];
            // The registry after the row write: entry `i` rewritten, the
            // rest as after `init_storage`.
            assert(reg2 == mid.update(i as int, arch));
            assert(arch.id == aid && aid == mid[i as int].id);
            assert(mid[i as int].c_types@ == sorted_view);
            assert(arch.c_types@ == sorted_view);
            assert(comps@ == sorted_view);
            assert(sorted_view.to_set() == bt.to_set());
            // Registry invariant: ids are untouched by the row write.
            assert forall|p: int, q: int| 0 <= p < q < reg2.len() implies reg2[p].id
                != reg2[q].id by {
                assert(reg2[p].id == mid[p].id && reg2[q].id == mid[q].id);
            }
            assert(self.archetypes.inv());
            self.archetypes.lemma_index_of_id_unique(aid, i as int);
            // Old registry entries keep their position and, except for
            // entry `i`, their value.
            assert forall|p: int| 0 <= p < reg0.len() implies mid[p] == reg0[p] by {
                if created {
                    assert(mid.drop_last() == reg0);
                    assert(mid.drop_last()[p] == mid[p]);
                }
            }
            assert(self.entities.entities@ == old(self).entities.entities@.push(
                (EntityDataPointer { row_index: row, archetype: aid, components: comps }),
            ));
            // Lookups by identity agree between the old and new registry.
            assert forall|id2: ArchetypeId| old(self).archetypes.contains_id(id2) implies ({
                &&& self.archetypes.contains_id(id2)
                &&& self.archetypes.index_of_id(id2) == old(self).archetypes.index_of_id(id2)
            }) by {
                let j = old(self).archetypes.index_of_id(id2);
                assert(0 <= j < reg0.len() && reg0[j].id == id2);
                assert(reg2[j].id == id2);
                self.archetypes.lemma_index_of_id_unique(id2, j);
            }
            // Each live entity of the old world keeps its conditions.
            assert forall|e2: int| 0 <= e2 < self.entities.entities@.len() implies ({
                let d = #[trigger] self.entities.entities@[e2];
                &&& self.archetypes.contains_id(d.archetype)
                &&& {
                    let a2 = reg2[self.archetypes.index_of_id(d.archetype)];
                    &&& d.components@ == a2.c_types@
                    &&& d.row_index < a2.entities@.len()
                    &&& a2.entities@[d.row_index as int] == e2 as u64
                }
            }) by {
                if e2 < cnt0 {
                    let d = old(self).entities.entities@[e2];
                    assert(self.entities.entities@[e2] == d);
                    let j = old(self).archetypes.index_of_id(d.archetype);
                    assert(self.archetypes.index_of_id(d.archetype) == j);
                    if j == i as int {
                        assert(reg2[j].id == aid);
                        assert(d.archetype == aid);
                        assert(arch.c_types@ == mid[j].c_types@);
                        assert(arch.entities@ == mid[j].entities@.push(e_id));
                        assert(d.row_index < mid[j].entities@.len());
                        assert(arch.entities@[d.row_index as int]
                            == mid[j].entities@[d.row_index as int]);
                    } else {
                        assert(reg2[j] == mid[j]);
                        assert(mid[j] == reg0[j]);
                    }
                } else {
                    // The entity just spawned.
                    assert(e2 == cnt0);
                    let d = self.entities.entities@[e2];
                    assert(d.archetype == aid && d.components@ == sorted_view && d.row_index
                        == row);
                    assert(self.archetypes.index_of_id(aid) == i as int);
                    assert(arch.entities@[row as int] == e_id);
                }
            }
            // Every archetype row still names its live owner.
            assert forall|p: int, row2: int|
                0 <= p < reg2.len() && 0 <= row2 < reg2[p].entities@.len() implies ({
                    let eid = #[trigger] reg2[p].entities@[row2];
                    &&& eid < self.entities.counter
                    &&& self.entities.entities@[eid as int].archetype == reg2[p].id
                    &&& self.entities.entities@[eid as int].row_index == row2
                }) by {
                if p == i as int {
                    if row2 < mid[p].entities@.len() {
                        assert(arch.entities@[row2] == mid[p].entities@[row2]);
                        if created {
                            assert(mid[p].entities@.len() == 0);
                        } else {
                            assert(mid[p] == reg0[p]);
                            let eid = reg0[p].entities@[row2];
                            assert(eid < cnt0);
                            assert(self.entities.entities@[eid as int]
                                == old(self).entities.entities@[eid as int]);
                        }
                    } else {
                        assert(row2 == mid[p].entities@.len());
                        assert(arch.entities@[row2] == e_id);
                        assert(self.entities.entities@[e_id as int].archetype == aid);
                    }
                } else {
                    assert(reg2[p] == mid[p]);
                    assert(mid[p] == reg0[p]);
                    let eid = reg0[p].entities@[row2];
                    assert(eid < cnt0);
                    assert(self.entities.entities@[eid as int]
                        == old(self).entities.entities@[eid as int]);
                }
            }
            // Archetypes stay nonempty, and the history stays in step.
            assert forall|p: int| 0 <= p < reg2.len() implies (#[trigger] reg2[p]).entities@.len()
                > 0 by {
                if p != i as int {
                    assert(reg2[p] == mid[p] && mid[p] == reg0[p]);
                }
            }
            assert forall|e2: int| 0 <= e2 < self.entities.entities@.len() implies (
            #[trigger] self.spawned@[e2]) == self.entities.entities@[e2].components@.to_set() by {
                if e2 < cnt0 {
                    assert(self.entities.entities@[e2] == old(self).entities.entities@[e2]);
                    assert(self.spawned@[e2] == old(self).spawned@[e2]);
                }
            }
            assert(self.wf());
            // The members of the bundle sit, unborrowed, at the new row.
            assert forall|k: int| 0 <= k < bundle@.len() implies ({
                let t = (#[trigger] bundle@[k]).c_type;
                &&& self.has_component(e_id, t)
                &&& self.component_slot(e_id, t).c_type == t
                &&& self.component_slot(e_id, t).data@ == bundle@[k].data@
                &&& self.component_slot(e_id, t).readers == 0
                &&& !self.component_slot(e_id, t).writer
            }) by {
                let t = bundle@[k].c_type;
                assert(bt[k] == t);
                assert(bt.contains(t));
                assert(bt.to_set().contains(t));
                assert(sorted_view.to_set().contains(t));
                assert(sorted_view.contains(t));
                assert(self.loc(e_id).components@ == sorted_view);
                assert(self.has_component(e_id, t));
                let j = crate::archetype::index_of_type(arch.c_types@, t);
                assert(0 <= j < arch.c_types@.len() && arch.c_types@[j] == t) by {
                    let j0 = choose|j0: int|
                        0 <= j0 < sorted_view.len() && sorted_view[j0] == t;
                }
                let col = arch.columns@[j].data@;
                let oldcol = mid[i as int].columns@[j].data@;
                assert(col.len() == oldcol.len() + 1);
                assert(oldcol.len() == mid[i as int].entities@.len());
                assert(row as int == oldcol.len());
                assert(self.component_slot(e_id, t) == col[row as int]);
                assert(col[row as int] == col.last());
                assert(col.last().data@ == bundle_data_for(bundle@, t));
                assert(bundle_data_for(bundle@, t) == bundle@[k].data@) by {
                    let k2 = choose|k2: int|
                        0 <= k2 < bundle@.len() && (#[trigger] bundle@[k2]).c_type == t;
                    if k2 != k {
                        assert(bt[k2] == t);
                        assert(bt[k] == t);
                    }
                }
            }
            // No other entity's slots are touched.
            assert forall|e2: u64, t: ComponentType| old(self).has_component(e2, t) implies (
            #[trigger] self.component_slot(e2, t)) == old(self).component_slot(e2, t) by {
                let d = old(self).entities.entities@[e2 as int];
                assert(self.entities.entities@[e2 as int] == d);
                let j = old(self).archetypes.index_of_id(d.archetype);
                assert(self.archetypes.index_of_id(d.archetype) == j);
                let jt = crate::archetype::index_of_type(reg0[j].c_types@, t);
                if j == i as int {
                    assert(!created);
                    assert(mid[j] == reg0[j]);
                    assert(arch.c_types@ == reg0[j].c_types@);
                    let col = arch.columns@[jt].data@;
                    let oldcol = reg0[j].columns@[jt].data@;
                    assert(d.components@ == reg0[j].c_types@);
                    assert(reg0[j].c_types@.contains(t));
                    assert(0 <= jt < reg0[j].c_types@.len() && reg0[j].c_types@[jt] == t);
                    assert(col.drop_last() == oldcol);
                    assert(d.row_index < oldcol.len());
                    assert(col[d.row_index as int] == col.drop_last()[d.row_index as int]);
                } else {
                    assert(reg2[j] == mid[j]);
                    assert(mid[j] == reg0[j]);
                }
            }
            assert forall|e2: u64, t: ComponentType| e2 < cnt0 implies (
            #[trigger] self.has_component(e2, t)) == old(self).has_component(e2, t) by {
                assert(self.entities.entities@[e2 as int]
                    == old(self).entities.entities@[e2 as int]);
            }
        }
        entity
    }

    /// Spawns when the bundle is admissible: distinct member types, no
    /// archetype identity collision, and room for one more entity.
    /// Returns the entity on success; refuses the bundle otherwise and
    /// leaves the world unchanged.
    pub fn try_spawn(&mut self, bundle: Vec<ComponentPtr>) -> (r: Option<Entity>)
        requires
            old(self).wf(),
        ensures
            r is Some <==> old(self).can_spawn(bundle@),
            r is Some ==> Self::spawn_post(*old(self), *final(self), bundle@, r->Some_0),
            r is None ==> *final(self) == *old(self),
    {
        if self.entities.counter == u64::MAX {
            return None;
        }
        let types = components_ids(&bundle);
        if !types_distinct(&types) {
            return None;
        }
        let sorted = sort_c_types(&types);
        proof {
            lemma_canon_of_sorted(sorted@);
        }
        let id = id_from_c_types(&sorted);
        let collision: bool = match self.archetypes.index_of(id) {
            Some(j) => !c_types_equal(&self.archetypes.archetypes[j].c_types, &sorted),
            None => false,
        };
        if collision {
            proof {
                let j = self.archetypes.index_of_id(id);
                assert(self.archetypes.archetypes@[j].id as int == id_of_set(
                    bundle_types(bundle@).to_set(),
                ));
                if self.archetypes.archetypes@[j].c_type_set() == bundle_types(
                    bundle@,
                ).to_set() {
                    lemma_strictly_sorted_same_set(
                        self.archetypes.archetypes@[j].c_types@,
                        sorted@,
                    );
                }
            }
            return None;
        }
        proof {
            assert forall|i: int|
                0 <= i < self.archetypes.archetypes@.len() && (#[trigger] self.archetypes.archetypes@[i]).id as int
                    == id_of_set(bundle_types(bundle@).to_set())
                implies self.archetypes.archetypes@[i].c_type_set() == bundle_types(
                bundle@,
            ).to_set() by {
                self.archetypes.lemma_index_of_id_unique(id, i);
                assert(self.archetypes.contains_id(id));
                assert(self.archetypes.archetypes@[i].c_types@ == sorted@);
            }
            assert(self.can_spawn(bundle@));
        }
        Some(self.spawn(bundle))
    }

    /// Whether some archetype of this world stores component type `t`.
    pub open spec fn stores_type(self, t: ComponentType) -> bool {
        exists|i: int|
            0 <= i < self.archetypes.archetypes@.len()
                && (#[trigger] self.archetypes.archetypes@[i]).c_types@.contains(t)
    }

    /// The distinct component types stored anywhere in this world.
    pub fn component_types(&self) -> (r: Vec<ComponentType>)
        ensures
            r@.no_duplicates(),
            forall|t: ComponentType| #[trigger] r@.contains(t) <==> self.stores_type(t),
    {
        let n = self.archetypes.archetypes.len();
        let mut r: Vec<ComponentType> = Vec::new();
        let mut i: usize = 0;
        while i < n
            invariant
                n == self.archetypes.archetypes@.len(),
                i <= n,
                r@.no_duplicates(),
                forall|t: ComponentType| #[trigger] r@.contains(t) ==> self.stores_type(t),
                forall|i2: int, j2: int|
                    0 <= i2 < i && 0 <= j2 < self.archetypes.archetypes@[i2].c_types@.len()
                        ==> r@.contains(
                        #[trigger] self.archetypes.archetypes@[i2].c_types@[j2],
                    ),
            decreases n - i,
        {
            let a = &self.archetypes.archetypes[i];
            let m = a.c_types.len();
            let mut j: usize = 0;
            while j < m
                invariant
                    n == self.archetypes.archetypes@.len(),
                    i < n,
                    m == self.archetypes.archetypes@[i as int].c_types@.len(),
                    a == &self.archetypes.archetypes@[i as int],
                    j <= m,
                    r@.no_duplicates(),
                    forall|t: ComponentType| #[trigger] r@.contains(t) ==> self.stores_type(t),
                    forall|i2: int, j2: int|
                        0 <= i2 < i && 0 <= j2 < self.archetypes.archetypes@[i2].c_types@.len()
                            ==> r@.contains(
                            #[trigger] self.archetypes.archetypes@[i2].c_types@[j2],
                        ),
                    forall|j2: int|
                        0 <= j2 < j ==> r@.contains(
                            #[trigger] self.archetypes.archetypes@[i as int].c_types@[j2],
                        ),
                decreases m - j,
            {
                let t = a.c_types[j];
                if !contains_c_type(&r, t) {
                    let ghost before = r@;
                    r.push(t);
                    proof {
                        assert forall|t2: ComponentType| #[trigger] r@.contains(t2)
                            implies before.contains(t2) || t2 == t by {
                            let q = choose|q: int| 0 <= q < r@.len() && r@[q] == t2;
                            if q < before.len() {
                                assert(before[q] == t2);
                            }
                        }
                        assert forall|t2: ComponentType| before.contains(t2)
                            implies #[trigger] r@.contains(t2) by {
                            let q = choose|q: int| 0 <= q < before.len() && before[q] == t2;
                            assert(r@[q] == t2);
                        }
                        assert(r@[r@.len() - 1] == t);
                        assert(r@.contains(t));
                        assert(self.archetypes.archetypes@[i as int].c_types@.contains(t));
                        assert(self.stores_type(t));
                        assert forall|p: int, q: int| 0 <= p < q < r@.len() implies r@[p]
                            != r@[q] by {
                            if q < before.len() {
                                assert(before[p] == r@[p] && before[q] == r@[q]);
                            } else {
                                assert(r@[q] == t);
                                assert(before[p] == r@[p]);
                                assert(!before.contains(t));
                            }
                        }
                    }
                }
                proof {
                    assert(r@.contains(self.archetypes.archetypes@[i as int].c_types@[j as int]));
                }
                j = j + 1;
            }
            i = i + 1;
        }
        proof {
            assert forall|t: ComponentType| self.stores_type(t) implies r@.contains(t) by {
                let i2 = choose|i2: int|
                    0 <= i2 < self.archetypes.archetypes@.len()
                        && (#[trigger] self.archetypes.archetypes@[i2]).c_types@.contains(t);
                let j2 = choose|j2: int|
                    0 <= j2 < self.archetypes.archetypes@[i2].c_types@.len()
                        && self.archetypes.archetypes@[i2].c_types@[j2] == t;
                assert(r@.contains(self.archetypes.archetypes@[i2].c_types@[j2]));
            }
        }
        r
    }

    /// Whether `other` has the same shape as `self`: the same entity
    /// table and history, and archetypes agreeing on everything but the
    /// contents of their slots.
    pub open spec fn same_shape(self, other: World) -> bool {
        &&& self.entities == other.entities
        &&& self.spawned@ == other.spawned@
        &&& self.archetypes.archetypes@.len() == other.archetypes.archetypes@.len()
        &&& forall|i: int|
            0 <= i < self.archetypes.archetypes@.len() ==> ({
                let a = #[trigger] self.archetypes.archetypes@[i];
                let b = other.archetypes.archetypes@[i];
                &&& a.id == b.id
                &&& a.c_types@ == b.c_types@
                &&& a.entities@ == b.entities@
                &&& a.columns@.len() == b.columns@.len()
                &&& forall|j: int|
                    0 <= j < a.columns@.len() ==> (#[trigger] a.columns@[j]).c_type
                        == b.columns@[j].c_type && a.columns@[j].data@.len()
                        == b.columns@[j].data@.len()
            })
    }

    /// A world of the same shape as a well-formed one, whose registry
    /// still satisfies its own invariant, is well formed, and looks
    /// entities up at the same registry positions.
    pub proof fn lemma_wf_preserved(w1: World, w2: World)
        requires
            w1.wf(),
            w2.same_shape(w1),
            w2.archetypes.inv(),
        ensures
            w2.wf(),
            forall|id: ArchetypeId|
                #[trigger] w1.archetypes.contains_id(id) ==> w2.archetypes.contains_id(id)
                    && w2.archetypes.index_of_id(id) == w1.archetypes.index_of_id(id),
    {
        assert forall|id: ArchetypeId| #[trigger] w1.archetypes.contains_id(id)
            implies w2.archetypes.contains_id(id) && w2.archetypes.index_of_id(id)
            == w1.archetypes.index_of_id(id) by {
            let j = w1.archetypes.index_of_id(id);
            assert(0 <= j < w1.archetypes.archetypes@.len()
                && w1.archetypes.archetypes@[j].id == id);
            assert(w2.archetypes.archetypes@[j].id == id);
            w2.archetypes.lemma_index_of_id_unique(id, j);
        }
        assert forall|e: int| 0 <= e < w2.entities.entities@.len() implies {
            let d = #[trigger] w2.entities.entities@[e];
            &&& w2.archetypes.contains_id(d.archetype)
            &&& {
                let a = w2.archetypes.archetypes@[w2.archetypes.index_of_id(d.archetype)];
                &&& d.components@ == a.c_types@
                &&& d.row_index < a.entities@.len()
                &&& a.entities@[d.row_index as int] == e as u64
            }
        } by {
            let d = w2.entities.entities@[e];
            assert(w1.entities.entities@[e] == d);
            assert(w1.archetypes.contains_id(d.archetype));
            let j = w1.archetypes.index_of_id(d.archetype);
            assert(w2.archetypes.index_of_id(d.archetype) == j);
        }
        assert forall|i: int, row: int|
            0 <= i < w2.archetypes.archetypes@.len() && 0 <= row
                < w2.archetypes.archetypes@[i].entities@.len() implies {
            let eid = #[trigger] w2.archetypes.archetypes@[i].entities@[row];
            &&& eid < w2.entities.counter
            &&& w2.entities.entities@[eid as int].archetype == w2.archetypes.archetypes@[i].id
            &&& w2.entities.entities@[eid as int].row_index == row
        } by {
            assert(w2.archetypes.archetypes@[i].entities@
                == w1.archetypes.archetypes@[i].entities@);
            assert(w1.archetypes.archetypes@[i].entities@[row]
                == w2.archetypes.archetypes@[i].entities@[row]);
        }
        assert forall|i: int| 0 <= i < w2.archetypes.archetypes@.len() implies (
        #[trigger] w2.archetypes.archetypes@[i]).entities@.len() > 0 by {
            assert(w1.archetypes.archetypes@[i].entities@.len() > 0);
        }
    }

    /// All slots of `self` hold the very values they hold in `other`.
    pub open spec fn slots_unchanged(self, other: World) -> bool {
        forall|e2: u64, t2: ComponentType|
            other.has_component(e2, t2) ==> #[trigger] self.component_slot(e2, t2)
                == other.component_slot(e2, t2)
    }

    /// All slots but that of `(e, t)` hold the very values they hold in
    /// `other`.
    pub open spec fn slots_unchanged_but(self, other: World, e: u64, t: ComponentType) -> bool {
        forall|e2: u64, t2: ComponentType|
            other.has_component(e2, t2) && !(e2 == e && t2 == t)
                ==> #[trigger] self.component_slot(e2, t2) == other.component_slot(e2, t2)
    }

    /// Same shape is transitive.
    pub proof fn lemma_same_shape_trans(w2: World, w1: World, w0: World)
        requires
            w2.same_shape(w1),
            w1.same_shape(w0),
        ensures
            w2.same_shape(w0),
    {
        assert forall|i: int| 0 <= i < w2.archetypes.archetypes@.len() implies ({
            let a = #[trigger] w2.archetypes.archetypes@[i];
            let b = w0.archetypes.archetypes@[i];
            &&& a.id == b.id
            &&& a.c_types@ == b.c_types@
            &&& a.entities@ == b.entities@
            &&& a.columns@.len() == b.columns@.len()
            &&& forall|j: int|
                0 <= j < a.columns@.len() ==> (#[trigger] a.columns@[j]).c_type
                    == b.columns@[j].c_type && a.columns@[j].data@.len()
                    == b.columns@[j].data@.len()
        }) by {
            let a = w2.archetypes.archetypes@[i];
            let m = w1.archetypes.archetypes@[i];
            let b = w0.archetypes.archetypes@[i];
            assert forall|j: int| 0 <= j < a.columns@.len() implies (
            #[trigger] a.columns@[j]).c_type == b.columns@[j].c_type && a.columns@[j].data@.len()
                == b.columns@[j].data@.len() by {
                assert(a.columns@[j].c_type == m.columns@[j].c_type);
                assert(m.columns@[j].c_type == b.columns@[j].c_type);
                assert(a.columns@[j].data@.len() == m.columns@[j].data@.len());
            }
        }
    }

    /// Reads the borrow account of entity `e`'s component of type `t`:
    /// the outstanding shared count and the exclusive flag.
    pub fn borrow_state(&self, e: u64, t: ComponentType) -> (r: Option<(usize, bool)>)
        requires
            self.wf(),
        ensures
            r is Some <==> self.has_component(e, t),
            r is Some ==> ({
                let slot = self.component_slot(e, t);
                r->Some_0 == (slot.readers, slot.writer)
            }),
    {
        let n = self.entities.entities.len();
        if !(e < n as u64) {
            return None;
        }
        let d = &self.entities.entities[e as usize];
        let ai = self.archetypes.index_of(d.archetype).unwrap();
        let a = &self.archetypes.archetypes[ai];
        proof {
            assert(*a == self.archetype_of(e));
        }
        a.borrow_state(t, d.row_index)
    }

    /// Takes a shared borrow of entity `e`'s component of type `t`,
    /// returning a snapshot of the value. Fails when the entity is not
    /// live, lacks the type, or the slot is exclusively borrowed.
    pub fn get_component(&mut self, e: u64, t: ComponentType) -> (r: Option<Vec<u64>>)
        requires
            old(self).wf(),
        ensures
            final(self).wf(),
            final(self).same_shape(*old(self)),
            r is Some <==> old(self).has_component(e, t) && old(self).component_slot(
                e,
                t,
            ).can_borrow(t),
            r is Some ==> ({
                let slot = old(self).component_slot(e, t);
                &&& r->Some_0@ == slot.data@
                &&& final(self).component_slot(e, t) == (ErasedComponentData {
                    readers: (slot.readers + 1) as usize,
                    ..slot
                })
            }),
            final(self).slots_unchanged_but(*old(self), e, t),
            r is None ==> final(self).slots_unchanged(*old(self)),
    {
        let n = self.entities.entities.len();
        if !(e < n as u64) {
            return None;
        }
        let d = &self.entities.entities[e as usize];
        let row = d.row_index;
        let ai = self.archetypes.index_of(d.archetype).unwrap();
        let ghost w0 = *self;
        let a = &mut self.archetypes.archetypes[ai];
        proof {
            assert(*a == w0.archetype_of(e));
        }
        let r = a.get_component(t, row);
        proof {
            self.lemma_one_slot_op(w0, e, t, ai as int);
            if !(old(self).has_component(e, t) && old(self).component_slot(e, t).can_borrow(t)) {
                assert(r is None);
            }
        }
        r
    }

    /// Takes an exclusive borrow of entity `e`'s component of type `t`,
    /// returning a snapshot of the value for modification. Fails when
    /// the entity is not live, lacks the type, or any borrow of the
    /// slot is outstanding.
    pub fn get_component_mut(&mut self, e: u64, t: ComponentType) -> (r: Option<Vec<u64>>)
        requires
            old(self).wf(),
        ensures
            final(self).wf(),
            final(self).same_shape(*old(self)),
            r is Some <==> old(self).has_component(e, t) && old(self).component_slot(
                e,
                t,
            ).can_borrow_mut(t),
            r is Some ==> ({
                let slot = old(self).component_slot(e, t);
                &&& r->Some_0@ == slot.data@
                &&& final(self).component_slot(e, t) == (ErasedComponentData {
                    writer: true,
                    ..slot
                })
            }),
            final(self).slots_unchanged_but(*old(self), e, t),
            r is None ==> final(self).slots_unchanged(*old(self)),
    {
        let n = self.entities.entities.len();
        if !(e < n as u64) {
            return None;
        }
        let d = &self.entities.entities[e as usize];
        let row = d.row_index;
        let ai = self.archetypes.index_of(d.archetype).unwrap();
        let ghost w0 = *self;
        let a = &mut self.archetypes.archetypes[ai];
        proof {
            assert(*a == w0.archetype_of(e));
        }
        let r = a.get_component_mut(t, row);
        proof {
            self.lemma_one_slot_op(w0, e, t, ai as int);
            if !(old(self).has_component(e, t) && old(self).component_slot(e, t).can_borrow_mut(
                t,
            )) {
                assert(r is None);
            }
        }
        r
    }

    /// Returns one shared borrow of entity `e`'s component of type `t`.
    /// Reports whether a shared borrow was outstanding; otherwise the
    /// world is unchanged.
    pub fn release_component(&mut self, e: u64, t: ComponentType) -> (ok: bool)
        requires
            old(self).wf(),
        ensures
            final(self).wf(),
            final(self).same_shape(*old(self)),
            ok == (old(self).has_component(e, t) && old(self).component_slot(e, t).readers > 0),
            ok ==> ({
                let slot = old(self).component_slot(e, t);
                final(self).component_slot(e, t) == (ErasedComponentData {
                    readers: (slot.readers - 1) as usize,
                    ..slot
                })
            }),
            final(self).slots_unchanged_but(*old(self), e, t),
            !ok ==> final(self).slots_unchanged(*old(self)),
    {
        let n = self.entities.entities.len();
        if !(e < n as u64) {
            return false;
        }
        let d = &self.entities.entities[e as usize];
        let row = d.row_index;
        let ai = self.archetypes.index_of(d.archetype).unwrap();
        let ghost w0 = *self;
        let a = &mut self.archetypes.archetypes[ai];
        proof {
            assert(*a == w0.archetype_of(e));
        }
        let ok = a.release_component(t, row);
        proof {
            self.lemma_one_slot_op(w0, e, t, ai as int);
        }
        ok
    }

    /// Returns an exclusive borrow of entity `e`'s component of type
    /// `t`, writing the given value back into the slot. Reports whether
    /// an exclusive borrow was outstanding; otherwise the world is
    /// unchanged.
    pub fn release_component_mut(&mut self, e: u64, t: ComponentType, new_data: Vec<u64>) -> (ok:
        bool)
        requires
            old(self).wf(),
        ensures
            final(self).wf(),
            final(self).same_shape(*old(self)),
            ok == (old(self).has_component(e, t) && old(self).component_slot(e, t).writer),
            ok ==> ({
                let slot = old(self).component_slot(e, t);
                final(self).component_slot(e, t) == (ErasedComponentData {
                    data: new_data,
                    writer: false,
                    ..slot
                })
            }),
            final(self).slots_unchanged_but(*old(self), e, t),
            !ok ==> final(self).slots_unchanged(*old(self)),
    {
        let n = self.entities.entities.len();
        if !(e < n as u64) {
            return false;
        }
        let d = &self.entities.entities[e as usize];
        let row = d.row_index;
        let ai = self.archetypes.index_of(d.archetype).unwrap();
        let ghost w0 = *self;
        let a = &mut self.archetypes.archetypes[ai];
        proof {
            assert(*a == w0.archetype_of(e));
        }
        let ok = a.release_component_mut(t, row, new_data);
        proof {
            self.lemma_one_slot_op(w0, e, t, ai as int);
        }
        ok
    }

    /// After one per-slot operation on entity `e`'s archetype (registry
    /// position `ai`), the world is well formed again, has the same
    /// shape, and no slot outside `(e, t)` moved; slots of entities in
    /// other archetypes, other columns, or other rows are untouched.
    proof fn lemma_one_slot_op(self, w0: World, e: u64, t: ComponentType, ai: int)
        requires
            w0.wf(),
            w0.live(e),
            0 <= ai < w0.archetypes.archetypes@.len(),
            ai == w0.archetypes.index_of_id(w0.loc(e).archetype),
            self.entities == w0.entities,
            self.spawned@ == w0.spawned@,
            self.archetypes.archetypes@.len() == w0.archetypes.archetypes@.len(),
            forall|i: int|
                0 <= i < w0.archetypes.archetypes@.len() && i != ai
                    ==> #[trigger] self.archetypes.archetypes@[i]
                    == w0.archetypes.archetypes@[i],
            self.archetypes.archetypes@[ai].inv(),
            self.archetypes.archetypes@[ai].same_but_slot(
                w0.archetypes.archetypes@[ai],
                t,
                w0.loc(e).row_index as int,
            ),
        ensures
            self.wf(),
            self.same_shape(w0),
            self.slots_unchanged_but(w0, e, t),
            self.component_slot(e, t) == self.archetypes.archetypes@[ai].slot(
                t,
                w0.loc(e).row_index as int,
            ) || !w0.has_component(e, t),
    {
        let a1 = self.archetypes.archetypes@[ai];
        let a0 = w0.archetypes.archetypes@[ai];
        assert(a1.id == a0.id && a1.c_types@ == a0.c_types@ && a1.entities@ == a0.entities@);
        assert(self.same_shape(w0)) by {
            assert forall|i: int| 0 <= i < self.archetypes.archetypes@.len() implies ({
                let a = #[trigger] self.archetypes.archetypes@[i];
                let b = w0.archetypes.archetypes@[i];
                &&& a.id == b.id
                &&& a.c_types@ == b.c_types@
                &&& a.entities@ == b.entities@
                &&& a.columns@.len() == b.columns@.len()
                &&& forall|j: int|
                    0 <= j < a.columns@.len() ==> (#[trigger] a.columns@[j]).c_type
                        == b.columns@[j].c_type && a.columns@[j].data@.len()
                        == b.columns@[j].data@.len()
            }) by {
                if i == ai {
                    assert forall|j: int| 0 <= j < a1.columns@.len() implies (
                    #[trigger] a1.columns@[j]).c_type == a0.columns@[j].c_type
                        && a1.columns@[j].data@.len() == a0.columns@[j].data@.len() by {
                        if a0.c_types@.contains(t) && j == crate::archetype::index_of_type(
                            a0.c_types@,
                            t,
                        ) {
                        } else {
                            assert(a1.columns@[j].data@ == a0.columns@[j].data@);
                        }
                    }
                }
            }
        }
        assert(self.archetypes.inv()) by {
            assert forall|i: int| 0 <= i < self.archetypes.archetypes@.len() implies (
            #[trigger] self.archetypes.archetypes@[i]).inv() by {
                if i != ai {
                    assert(self.archetypes.archetypes@[i] == w0.archetypes.archetypes@[i]);
                }
            }
            assert forall|i: int, j: int|
                0 <= i < j < self.archetypes.archetypes@.len()
                    implies self.archetypes.archetypes@[i].id
                != self.archetypes.archetypes@[j].id by {
                assert(self.archetypes.archetypes@[i].id == w0.archetypes.archetypes@[i].id);
                assert(self.archetypes.archetypes@[j].id == w0.archetypes.archetypes@[j].id);
            }
        }
        Self::lemma_wf_preserved(w0, self);
        assert forall|e2: u64, t2: ComponentType|
            w0.has_component(e2, t2) && !(e2 == e && t2 == t)
                implies #[trigger] self.component_slot(e2, t2) == w0.component_slot(
            e2,
            t2,
        ) by {
            let d2 = w0.loc(e2);
            let i2 = w0.archetypes.index_of_id(d2.archetype);
            assert(self.archetypes.index_of_id(d2.archetype) == i2);
            if i2 != ai {
                assert(self.archetypes.archetypes@[i2] == w0.archetypes.archetypes@[i2]);
            } else {
                // Same archetype: a different column, or the same column
                // at a different row.
                let jt = crate::archetype::index_of_type(a0.c_types@, t2);
                assert(a0.c_types@.contains(t2));
                if t2 == t {
                    // Different entity, hence a different row.
                    assert(e2 != e);
                    assert(d2.row_index != w0.loc(e).row_index) by {
                        assert(a0.entities@[d2.row_index as int] == e2);
                        assert(a0.entities@[w0.loc(e).row_index as int] == e);
                    }
                    assert(a1.columns@[jt].data@[d2.row_index as int]
                        == a0.columns@[jt].data@[d2.row_index as int]);
                } else {
                    if a0.c_types@.contains(t) {
                        let jt0 = crate::archetype::index_of_type(a0.c_types@, t);
                        assert(a0.c_types@[jt0] == t);
                        assert(a0.c_types@[jt] == t2);
                        assert(jt != jt0);
                        assert(a1.columns@[jt].data@ == a0.columns@[jt].data@);
                    } else {
                        assert(a1.columns@[jt].data@ == a0.columns@[jt].data@);
                    }
                }
            }
        }
        if w0.has_component(e, t) {
            assert(self.archetypes.index_of_id(w0.loc(e).archetype) == ai);
        }
    }

    /// Builds a query state for a term list: the working set of all
    /// entities whose component list holds every requested type.
    pub fn query(&self, terms: Vec<QueryTerm>) -> (r: QueryState)
        requires
            self.wf(),
        ensures
            r.terms@ == terms@,
            r.wf_for(*self),
    {
        QueryState::new(self, terms)
    }

    /// Creates an empty world.
    pub fn new() -> (w: World)
        ensures
            w.wf(),
            w.entities.counter == 0,
            w.archetypes.archetypes@.len() == 0,
            w.spawned@.len() == 0,
    {
        World {
            entities: Entities::new(),
            archetypes: Archetypes::new(),
            spawned: Ghost(Seq::empty()),
        }
    }
}

/// Archetype partitioning: however entities were spawned, the registry
/// holds exactly one archetype per distinct component type set in the
/// spawn history. (Identity collisions cannot arise: `spawn` refuses a
/// bundle whose identity is already bound to a different set.)
pub proof fn lemma_archetype_partitioning(w: World)
    requires
        w.wf(),
    ensures
        w.archetypes.archetypes@.len() == w.spawned@.to_set().len(),
{
    broadcast use vstd::set::group_set_axioms;
    let reg = w.archetypes.archetypes@;
    let regsets = reg.map_values(|a: Archetype| a.c_types@.to_set());
    assert(regsets.no_duplicates()) by {
        assert forall|i: int, j: int| 0 <= i < j < regsets.len() implies regsets[i]
            != regsets[j] by {
            if regsets[i] == regsets[j] {
                assert(reg[i].c_types@.to_set() == reg[j].c_types@.to_set());
                lemma_strictly_sorted_same_set(reg[i].c_types@, reg[j].c_types@);
                assert(reg[i].id as int == sum_ids(reg[i].c_types@));
                assert(reg[j].id as int == sum_ids(reg[j].c_types@));
                assert(reg[i].id == reg[j].id);
            }
        }
    }
    assert(regsets.to_set() =~= w.spawned@.to_set()) by {
        assert forall|x: Set<ComponentType>| regsets.to_set().contains(x)
            implies w.spawned@.to_set().contains(x) by {
            assert(regsets.contains(x));
            let i = choose|i: int| 0 <= i < regsets.len() && regsets[i] == x;
            assert(reg[i].entities@.len() > 0);
            let e = reg[i].entities@[0];
            assert(e < w.entities.counter);
            assert(w.entities.entities@[e as int].archetype == reg[i].id);
            w.archetypes.lemma_index_of_id_unique(reg[i].id, i);
            assert(w.entities.entities@[e as int].components@ == reg[i].c_types@);
            assert(w.spawned@[e as int] == reg[i].c_types@.to_set());
            assert(w.spawned@.contains(x));
        }
        assert forall|x: Set<ComponentType>| w.spawned@.to_set().contains(x)
            implies regsets.to_set().contains(x) by {
            assert(w.spawned@.contains(x));
            let k = choose|k: int| 0 <= k < w.spawned@.len() && w.spawned@[k] == x;
            let d = w.entities.entities@[k];
            let j = w.archetypes.index_of_id(d.archetype);
            assert(d.components@ == reg[j].c_types@);
            assert(regsets[j] == reg[j].c_types@.to_set());
            assert(regsets.contains(regsets[j]));
        }
    }
    regsets.unique_seq_to_set();
}

/// Row alignment: for every live entity, every component type its
/// location record claims is backed by a well-typed slot at the
/// entity's row in the corresponding column of its archetype.
pub proof fn lemma_row_alignment(w: World, e: u64)
    requires
        w.wf(),
        w.live(e),
    ensures
        forall|t: ComponentType|
            #[trigger] w.loc(e).components@.contains(t) ==> ({
                let a = w.archetype_of(e);
                let j = crate::archetype::index_of_type(a.c_types@, t);
                &&& a.c_types@.contains(t)
                &&& w.loc(e).row_index < a.columns@[j].data@.len()
                &&& a.columns@[j].data@[w.loc(e).row_index as int].c_type == t
            }),
{
    let d = w.loc(e);
    let a = w.archetype_of(e);
    assert forall|t: ComponentType| #[trigger] w.loc(e).components@.contains(t) implies ({
        let j = crate::archetype::index_of_type(a.c_types@, t);
        &&& a.c_types@.contains(t)
        &&& w.loc(e).row_index < a.columns@[j].data@.len()
        &&& a.columns@[j].data@[w.loc(e).row_index as int].c_type == t
    }) by {
        assert(d.components@ == a.c_types@);
        let j = crate::archetype::index_of_type(a.c_types@, t);
        assert(0 <= j < a.c_types@.len() && a.c_types@[j] == t) by {
            let j0 = choose|j0: int| 0 <= j0 < a.c_types@.len() && a.c_types@[j0] == t;
        }
        assert(a.columns@[j].c_type == t);
        assert(a.columns@[j].data@.len() == a.entities@.len());
        assert(d.row_index < a.entities@.len());
        assert(a.columns@[j].data@[d.row_index as int].c_type == a.columns@[j].c_type);
    }
}

/// Borrow exclusivity at the world level: while an exclusive borrow of
/// entity `e`'s component of type `t` is outstanding, no further
/// borrow of that slot is admitted (so, by the contracts of
/// `get_component` and `get_component_mut`, every further attempt
/// fails); and while any shared borrow is outstanding, no exclusive
/// borrow is admitted.
pub proof fn lemma_borrow_exclusivity(w: World, e: u64, t: ComponentType)
    requires
        w.wf(),
        w.has_component(e, t),
    ensures
        w.component_slot(e, t).writer ==> !w.component_slot(e, t).can_borrow(t)
            && !w.component_slot(e, t).can_borrow_mut(t),
        w.component_slot(e, t).readers > 0 ==> !w.component_slot(e, t).can_borrow_mut(t),
{
    let a = w.archetype_of(e);
    let d = w.loc(e);
    assert(d.components@ == a.c_types@);
    let j = crate::archetype::index_of_type(a.c_types@, t);
    assert(0 <= j < a.c_types@.len() && a.c_types@[j] == t) by {
        let j0 = choose|j0: int| 0 <= j0 < a.c_types@.len() && a.c_types@[j0] == t;
    }
    assert(a.columns@[j].inv());
    assert(d.row_index < a.columns@[j].data@.len());
    assert(w.component_slot(e, t).inv());
    crate::component::lemma_borrow_exclusivity(w.component_slot(e, t), t);
}

/// Round trip, first half: a spawn stores each bundle member's value,
/// and a read of that entity and type observes exactly that value.
pub proof fn lemma_spawn_stores(pre: World, post: World, bundle: Seq<ComponentPtr>, e: Entity, k: int)
    requires
        World::spawn_post(pre, post, bundle, e),
        0 <= k < bundle.len(),
    ensures
        post.component_value(e.id, bundle[k].c_type) == bundle[k].data@,
{
    assert(bundle[k].c_type == bundle[k].c_type);
}

/// Round trip, second half: after a write of value `v` into entity
/// `e`'s slot of type `t` that left every other slot alone, a re-read
/// of that slot observes exactly `v`, and every other slot reads as
/// before.
pub proof fn lemma_read_after_write(pre: World, post: World, e: u64, t: ComponentType, v: Seq<u64>)
    requires
        pre.wf(),
        post.same_shape(pre),
        post.slots_unchanged_but(pre, e, t),
        pre.has_component(e, t),
        post.component_slot(e, t).data@ == v,
    ensures
        post.component_value(e, t) == v,
        forall|e2: u64, t2: ComponentType|
            pre.has_component(e2, t2) && !(e2 == e && t2 == t)
                ==> #[trigger] post.component_value(e2, t2) == pre.component_value(e2, t2),
{
}

} // verus!
