//! Type-erased component values and the per-slot borrow discipline.
//!
//! A component value is stored as a tagged word sequence: the tag is the
//! component type identifier, the payload the value's encoding. Every
//! access checks the tag before handing the payload out, and a per-slot
//! reader/writer account enforces the single-writer / multi-reader rule
//! at run time.

use vstd::prelude::*;

verus! {

/// Process-wide identifier for a component's concrete type.
pub type ComponentType = u64;

/// A plain, owned component value in erased form: the type tag plus the
/// value's encoding as a sequence of words.
#[derive(Debug, Clone, PartialEq, Eq)]
pub struct ComponentPtr {
    pub c_type: ComponentType,
    pub data: Vec<u64>,
}

/// A value type that can be stored as a component.
///
/// An implementation fixes the type's identifier and how a value of the
/// type is encoded into words.
pub trait Component: Sized {
    /// The type identifier, at the specification level.
    spec fn spec_type() -> ComponentType;

    /// The word encoding of this value, at the specification level.
    spec fn spec_data(self) -> Seq<u64>;

    /// The type identifier of this component type.
    fn component_type() -> (t: ComponentType)
        ensures
            t == Self::spec_type(),
    ;

    /// Encodes this value into words.
    fn to_data(self) -> (d: Vec<u64>)
        ensures
            d@ == self.spec_data(),
    ;
}

impl ComponentPtr {
    /// Wraps an already-encoded value.
    pub fn new(c_type: ComponentType, data: Vec<u64>) -> (p: ComponentPtr)
        ensures
            p.c_type == c_type,
            p.data == data,
    {
        ComponentPtr { c_type, data }
    }

    /// Erases a typed component value.
    pub fn of<T: Component>(value: T) -> (p: ComponentPtr)
        ensures
            p.c_type == T::spec_type(),
            p.data@ == value.spec_data(),
    {
        let c_type = T::component_type();
        let data = value.to_data();
        ComponentPtr { c_type, data }
    }

    /// Hands the payload out if the requested type matches the tag.
    pub fn cast_ref(&self, c_type: ComponentType) -> (r: Option<&Vec<u64>>)
        ensures
            c_type == self.c_type ==> r == Some(&self.data),
            c_type != self.c_type ==> r is None,
    {
        if self.c_type == c_type {
            Some(&self.data)
        } else {
            None
        }
    }

    /// Hands the payload out for mutation if the requested type matches the tag.
    pub fn cast_mut(&mut self, c_type: ComponentType) -> (r: Option<&mut Vec<u64>>)
        ensures
            c_type == old(self).c_type ==> ({
                &&& r is Some
                &&& *r->Some_0 == old(self).data
                &&& final(self).c_type == old(self).c_type
                &&& final(self).data == *final(r->Some_0)
            }),
            c_type != old(self).c_type ==> r is None && *final(self) == *old(self),
    {
        if self.c_type == c_type {
            Some(&mut self.data)
        } else {
            None
        }
    }
}

/// A bundle is a list of component values spawned together for one
/// entity; its members must carry pairwise distinct component types.
/// The list of type tags of a bundle's members, in member order.
pub open spec fn bundle_types(b: Seq<ComponentPtr>) -> Seq<ComponentType> {
    b.map_values(|p: ComponentPtr| p.c_type)
}

/// The payload that a bundle carries for component type `t` (meaningful
/// when exactly one member has that type).
pub open spec fn bundle_data_for(b: Seq<ComponentPtr>, t: ComponentType) -> Seq<u64> {
    let k = choose|k: int| 0 <= k < b.len() && (#[trigger] b[k]).c_type == t;
    b[k].data@
}

/// The component types of a bundle, in member order.
pub fn components_ids(bundle: &Vec<ComponentPtr>) -> (r: Vec<ComponentType>)
    ensures
        r@ == bundle_types(bundle@),
{
    let n = bundle.len();
    let mut r: Vec<ComponentType> = Vec::new();
    let mut k: usize = 0;
    while k < n
        invariant
            n == bundle@.len(),
            k <= n,
            r@ == bundle_types(bundle@).subrange(0, k as int),
        decreases n - k,
    {
        r.push(bundle[k].c_type);
        proof {
            assert(r@ =~= bundle_types(bundle@).subrange(0, k as int + 1));
        }
        k = k + 1;
    }
    proof {
        assert(bundle_types(bundle@).subrange(0, n as int) =~= bundle_types(bundle@));
    }
    r
}

/// One storage slot: an erased component value together with its dynamic
/// borrow account. `readers` counts outstanding shared borrows; `writer`
/// records an outstanding exclusive borrow.
#[derive(Debug, Clone, PartialEq, Eq)]
pub struct ErasedComponentData {
    pub c_type: ComponentType,
    pub data: Vec<u64>,
    pub readers: usize,
    pub writer: bool,
}

impl ErasedComponentData {
    /// Single-writer / multi-reader discipline: an exclusive borrow
    /// excludes every other borrow.
    pub open spec fn inv(self) -> bool {
        self.writer ==> self.readers == 0
    }

    /// Whether a shared borrow of this slot as type `t` would be admitted.
    pub open spec fn can_borrow(self, t: ComponentType) -> bool {
        &&& t == self.c_type
        &&& !self.writer
        &&& self.readers < usize::MAX
    }

    /// Whether an exclusive borrow of this slot as type `t` would be admitted.
    pub open spec fn can_borrow_mut(self, t: ComponentType) -> bool {
        &&& t == self.c_type
        &&& !self.writer
        &&& self.readers == 0
    }

    /// Wraps an erased value into a fresh, unborrowed slot.
    pub fn new(value: ComponentPtr) -> (s: ErasedComponentData)
        ensures
            s.c_type == value.c_type,
            s.data == value.data,
            s.readers == 0,
            !s.writer,
            s.inv(),
    {
        ErasedComponentData { c_type: value.c_type, data: value.data, readers: 0, writer: false }
    }

    /// Takes a shared borrow of the slot as type `t`, returning a snapshot
    /// of the value. Fails when the tag differs or an exclusive borrow is
    /// outstanding.
    pub fn cast_ref(&mut self, t: ComponentType) -> (r: Option<Vec<u64>>)
        requires
            old(self).inv(),
        ensures
            final(self).inv(),
            old(self).can_borrow(t) ==> ({
                &&& r is Some
                &&& r->Some_0@ == old(self).data@
                &&& *final(self) == (ErasedComponentData { readers: (old(self).readers + 1) as usize, ..(*old(self)) })
            }),
            !old(self).can_borrow(t) ==> r is None && *final(self) == *old(self),
    {
        if t == self.c_type && !self.writer && self.readers < usize::MAX {
            self.readers = self.readers + 1;
            Some(self.data.clone())
        } else {
            None
        }
    }

    /// Takes an exclusive borrow of the slot as type `t`, returning a
    /// snapshot of the value for modification. Fails when the tag differs
    /// or any borrow is outstanding.
    pub fn cast_mut(&mut self, t: ComponentType) -> (r: Option<Vec<u64>>)
        requires
            old(self).inv(),
        ensures
            final(self).inv(),
            old(self).can_borrow_mut(t) ==> ({
                &&& r is Some
                &&& r->Some_0@ == old(self).data@
                &&& *final(self) == (ErasedComponentData { writer: true, ..(*old(self)) })
            }),
            !old(self).can_borrow_mut(t) ==> r is None && *final(self) == *old(self),
    {
        if t == self.c_type && !self.writer && self.readers == 0 {
            self.writer = true;
            Some(self.data.clone())
        } else {
            None
        }
    }

    /// Returns one shared borrow. Reports whether a shared borrow was
    /// outstanding at all; otherwise the slot is unchanged.
    pub fn release_ref(&mut self) -> (ok: bool)
        requires
            old(self).inv(),
        ensures
            final(self).inv(),
            ok == (old(self).readers > 0),
            ok ==> *final(self) == (ErasedComponentData { readers: (old(self).readers - 1) as usize, ..(*old(self)) }),
            !ok ==> *final(self) == *old(self),
    {
        if self.readers > 0 {
            self.readers = self.readers - 1;
            true
        } else {
            false
        }
    }

    /// Returns an exclusive borrow, writing the (possibly modified) value
    /// back into the slot. Reports whether an exclusive borrow was
    /// outstanding; otherwise the slot is unchanged.
    pub fn release_mut(&mut self, new_data: Vec<u64>) -> (ok: bool)
        requires
            old(self).inv(),
        ensures
            final(self).inv(),
            ok == old(self).writer,
            ok ==> *final(self) == (ErasedComponentData { data: new_data, writer: false, ..(*old(self)) }),
            !ok ==> *final(self) == *old(self),
    {
        if self.writer {
            self.data = new_data;
            self.writer = false;
            true
        } else {
            false
        }
    }
}

/// One column: the growing sequence of erased slots for exactly one
/// component type.
#[derive(Debug)]
pub struct ComponentStorage {
    pub c_type: ComponentType,
    pub data: Vec<ErasedComponentData>,
}

impl ComponentStorage {
    /// Every slot carries this column's type tag and obeys the borrow
    /// discipline.
    pub open spec fn inv(self) -> bool {
        forall|i: int|
            0 <= i < self.data@.len() ==> (#[trigger] self.data@[i]).c_type == self.c_type
                && self.data@[i].inv()
    }

    /// The stored values, column-wise.
    pub open spec fn values(self) -> Seq<Seq<u64>> {
        self.data@.map_values(|s: ErasedComponentData| s.data@)
    }

    /// Creates an empty column for the given component type.
    pub fn new(c_type: ComponentType) -> (s: ComponentStorage)
        ensures
            s.c_type == c_type,
            s.data@.len() == 0,
            s.inv(),
    {
        ComponentStorage { c_type, data: Vec::new() }
    }

    /// How many slots the column holds.
    pub fn len(&self) -> (n: usize)
        ensures
            n == self.data@.len(),
    {
        self.data.len()
    }

    /// Appends a component value, returning the new slot's row index.
    /// A value whose type does not match the column's is refused.
    pub fn push(&mut self, value: ComponentPtr) -> (r: Option<usize>)
        requires
            old(self).inv(),
        ensures
            final(self).inv(),
            final(self).c_type == old(self).c_type,
            value.c_type == old(self).c_type ==> ({
                &&& r == Some(old(self).data@.len() as usize)
                &&& final(self).data@ == old(self).data@.push(
                    ErasedComponentData {
                        c_type: value.c_type,
                        data: value.data,
                        readers: 0,
                        writer: false,
                    },
                )
            }),
            value.c_type != old(self).c_type ==> r is None && *final(self) == *old(self),
    {
        if value.c_type != self.c_type {
            return None;
        }
        let row_index = self.data.len();
        self.data.push(ErasedComponentData::new(value));
        Some(row_index)
    }

    /// Takes a shared borrow of the slot at `row_index` as type `t`,
    /// returning a snapshot of the value. Fails when the index is out of
    /// range, the type does not match, or an exclusive borrow of that
    /// slot is outstanding.
    pub fn get(&mut self, t: ComponentType, row_index: usize) -> (r: Option<Vec<u64>>)
        requires
            old(self).inv(),
        ensures
            final(self).inv(),
            final(self).c_type == old(self).c_type,
            ({
                let admitted = row_index < old(self).data@.len()
                    && old(self).data@[row_index as int].can_borrow(t);
                &&& r is Some <==> admitted
                &&& admitted ==> ({
                    let slot = old(self).data@[row_index as int];
                    &&& r->Some_0@ == slot.data@
                    &&& final(self).data@ == old(self).data@.update(
                        row_index as int,
                        (ErasedComponentData { readers: (slot.readers + 1) as usize, ..slot }),
                    )
                })
                &&& !admitted ==> final(self).data@ == old(self).data@
            }),
    {
        if row_index < self.data.len() {
            let slot = &mut self.data[row_index];
            let r = slot.cast_ref(t);
            proof {
                if !old(self).data@[row_index as int].can_borrow(t) {
                    assert(self.data@ =~= old(self).data@);
                }
            }
            r
        } else {
            None
        }
    }

    /// Takes an exclusive borrow of the slot at `row_index` as type `t`,
    /// returning a snapshot of the value for modification. Fails when the
    /// index is out of range, the type does not match, or any borrow of
    /// that slot is outstanding.
    pub fn get_mut(&mut self, t: ComponentType, row_index: usize) -> (r: Option<Vec<u64>>)
        requires
            old(self).inv(),
        ensures
            final(self).inv(),
            final(self).c_type == old(self).c_type,
            ({
                let admitted = row_index < old(self).data@.len()
                    && old(self).data@[row_index as int].can_borrow_mut(t);
                &&& r is Some <==> admitted
                &&& admitted ==> ({
                    let slot = old(self).data@[row_index as int];
                    &&& r->Some_0@ == slot.data@
                    &&& final(self).data@ == old(self).data@.update(
                        row_index as int,
                        (ErasedComponentData { writer: true, ..slot }),
                    )
                })
                &&& !admitted ==> final(self).data@ == old(self).data@
            }),
    {
        if row_index < self.data.len() {
            let slot = &mut self.data[row_index];
            let r = slot.cast_mut(t);
            proof {
                if !old(self).data@[row_index as int].can_borrow_mut(t) {
                    assert(self.data@ =~= old(self).data@);
                }
            }
            r
        } else {
            None
        }
    }

    /// Returns one shared borrow of the slot at `row_index`. Reports
    /// whether the index was in range and a shared borrow outstanding;
    /// otherwise the column is unchanged.
    pub fn release(&mut self, row_index: usize) -> (ok: bool)
        requires
            old(self).inv(),
        ensures
            final(self).inv(),
            final(self).c_type == old(self).c_type,
            ok == (row_index < old(self).data@.len() && old(self).data@[row_index as int].readers
                > 0),
            ok ==> ({
                let slot = old(self).data@[row_index as int];
                final(self).data@ == old(self).data@.update(
                    row_index as int,
                    (ErasedComponentData { readers: (slot.readers - 1) as usize, ..slot }),
                )
            }),
            !ok ==> final(self).data@ == old(self).data@,
    {
        if row_index < self.data.len() {
            let slot = &mut self.data[row_index];
            let ok = slot.release_ref();
            proof {
                if old(self).data@[row_index as int].readers == 0 {
                    assert(self.data@ =~= old(self).data@);
                }
            }
            ok
        } else {
            false
        }
    }

    /// Returns an exclusive borrow of the slot at `row_index`, writing the
    /// given value back. Reports whether the index was in range and an
    /// exclusive borrow outstanding; otherwise the column is unchanged.
    pub fn release_mut(&mut self, row_index: usize, new_data: Vec<u64>) -> (ok: bool)
        requires
            old(self).inv(),
        ensures
            final(self).inv(),
            final(self).c_type == old(self).c_type,
            ok == (row_index < old(self).data@.len()
                && old(self).data@[row_index as int].writer),
            ok ==> ({
                let slot = old(self).data@[row_index as int];
                final(self).data@ == old(self).data@.update(
                    row_index as int,
                    (ErasedComponentData { data: new_data, writer: false, ..slot }),
                )
            }),
            !ok ==> final(self).data@ == old(self).data@,
    {
        if row_index < self.data.len() {
            let slot = &mut self.data[row_index];
            let ok = slot.release_mut(new_data);
            proof {
                if !old(self).data@[row_index as int].writer {
                    assert(self.data@ =~= old(self).data@);
                }
            }
            ok
        } else {
            false
        }
    }
}

/// A spatial position component, as two coordinates.
#[derive(Debug, Clone, Copy, PartialEq, Eq, Structural)]
pub struct Position(pub u64, pub u64);

/// A velocity component, as two coordinate deltas.
#[derive(Debug, Clone, Copy, PartialEq, Eq, Structural)]
pub struct Velocity(pub u64, pub u64);

/// A health component: the remaining hit points.
#[derive(Debug, Clone, Copy, PartialEq, Eq, Structural)]
pub struct Health(pub u64);

impl Component for Position {
    open spec fn spec_type() -> ComponentType {
        1
    }

    open spec fn spec_data(self) -> Seq<u64> {
        seq![self.0, self.1]
    }

    fn component_type() -> (t: ComponentType) {
        1
    }

    fn to_data(self) -> (d: Vec<u64>) {
        let mut d: Vec<u64> = Vec::new();
        d.push(self.0);
        d.push(self.1);
        proof {
            assert(d@ =~= seq![self.0, self.1]);
        }
        d
    }
}

impl Component for Velocity {
    open spec fn spec_type() -> ComponentType {
        2
    }

    open spec fn spec_data(self) -> Seq<u64> {
        seq![self.0, self.1]
    }

    fn component_type() -> (t: ComponentType) {
        2
    }

    fn to_data(self) -> (d: Vec<u64>) {
        let mut d: Vec<u64> = Vec::new();
        d.push(self.0);
        d.push(self.1);
        proof {
            assert(d@ =~= seq![self.0, self.1]);
        }
        d
    }
}

impl Component for Health {
    open spec fn spec_type() -> ComponentType {
        4
    }

    open spec fn spec_data(self) -> Seq<u64> {
        seq![self.0]
    }

    fn component_type() -> (t: ComponentType) {
        4
    }

    fn to_data(self) -> (d: Vec<u64>) {
        let mut d: Vec<u64> = Vec::new();
        d.push(self.0);
        proof {
            assert(d@ =~= seq![self.0]);
        }
        d
    }
}

/// Exclusive access excludes every other borrow: while an exclusive
/// borrow of a slot is outstanding, no further borrow of that slot,
/// shared or exclusive, is admitted; and while any shared borrow is
/// outstanding, no exclusive borrow is admitted.
pub proof fn lemma_borrow_exclusivity(slot: ErasedComponentData, t: ComponentType)
    requires
        slot.inv(),
    ensures
        slot.writer ==> !slot.can_borrow(t) && !slot.can_borrow_mut(t),
        slot.readers > 0 ==> !slot.can_borrow_mut(t),
{
}

} // verus!
