//! Archetypes: the unit of storage partitioning.
//!
//! An archetype is identified by the unordered set of component types an
//! entity carries. The identity is the sum of the type identifiers,
//! widened to 128 bits; the type list itself is kept in strictly
//! ascending order, so one set has exactly one stored form. The sum is
//! deliberately cheap and order-independent, but it is not
//! collision-resistant: two different type sets can share a sum, and the
//! registry refuses to conflate them (see `init_storage`).
//!
//! Row indices are zero-based throughout: the value pushed by the n-th
//! spawn into a column sits at row index n-1.

use vstd::prelude::*;
use vstd::seq_lib::group_seq_properties;

use crate::component::bundle_data_for;
use crate::component::bundle_types;
use crate::component::ComponentPtr;
use crate::component::ComponentStorage;
use crate::component::ComponentType;
use crate::component::ErasedComponentData;

verus! {

/// Unique archetype identifier, computed from the component type set.
pub type ArchetypeId = u128;

/// A strictly ascending sequence: sorted, with no element repeated.
pub open spec fn strictly_sorted(s: Seq<ComponentType>) -> bool {
    forall|i: int, j: int| 0 <= i < j < s.len() ==> s[i] < s[j]
}

/// The sum of a sequence of type identifiers, as an unbounded integer.
pub open spec fn sum_ids(s: Seq<ComponentType>) -> int
    decreases s.len(),
{
    if s.len() == 0 {
        0
    } else {
        sum_ids(s.drop_last()) + s.last()
    }
}

/// The sum of a type-identifier sequence is bounded by its length times
/// the largest identifier.
pub proof fn lemma_sum_ids_bounds(s: Seq<ComponentType>)
    ensures
        0 <= sum_ids(s) <= s.len() * (u64::MAX as int),
    decreases s.len(),
{
    if s.len() > 0 {
        lemma_sum_ids_bounds(s.drop_last());
    }
}

/// Two strictly ascending sequences over the same set of identifiers are
/// the same sequence: the sorted form of a type set is canonical.
pub proof fn lemma_strictly_sorted_same_set(a: Seq<ComponentType>, b: Seq<ComponentType>)
    requires
        strictly_sorted(a),
        strictly_sorted(b),
        a.to_set() == b.to_set(),
    ensures
        a == b,
    decreases a.len(),
{
    broadcast use group_seq_properties;
    broadcast use vstd::set::group_set_axioms;
    if a.len() == 0 {
        if b.len() > 0 {
            assert(b.contains(b[0]));
            assert(a.to_set().contains(b[0]));
            assert(a.contains(b[0]));
        }
        assert(a =~= b);
    } else {
        assert(a.contains(a.last()));
        assert(b.to_set().contains(a.last()));
        assert(b.contains(a.last()));
        if b.len() == 0 {
            assert(!b.contains(a.last()));
        }
        assert(b.contains(b.last()));
        assert(b.to_set().contains(b.last()));
        assert(a.to_set().contains(b.last()));
        assert(a.contains(b.last()));
        // Each last element is the maximum of its sequence, and both
        // sequences hold both values, so the last elements agree.
        let ia = choose|i: int| 0 <= i < a.len() && a[i] == b.last();
        let ib = choose|i: int| 0 <= i < b.len() && b[i] == a.last();
        assert(a[ia] <= a.last());
        assert(b[ib] <= b.last());
        assert(a.last() == b.last());
        // Dropping the (equal) last elements keeps the sets equal.
        assert(a.drop_last().to_set() =~= b.drop_last().to_set()) by {
            assert forall|x: ComponentType| a.drop_last().contains(x) implies b.drop_last().contains(
                x,
            ) by {
                let i = choose|i: int| 0 <= i < a.drop_last().len() && a.drop_last()[i] == x;
                assert(a[i] == x);
                assert(a.contains(x));
                assert(x < a.last());
                assert(a.to_set().contains(x));
                assert(b.to_set().contains(x));
                assert(b.contains(x));
                let j = choose|j: int| 0 <= j < b.len() && b[j] == x;
                assert(j < b.len() - 1);
                assert(b.drop_last()[j] == x);
            }
            assert forall|x: ComponentType| b.drop_last().contains(x) implies a.drop_last().contains(
                x,
            ) by {
                let i = choose|i: int| 0 <= i < b.drop_last().len() && b.drop_last()[i] == x;
                assert(b[i] == x);
                assert(b.contains(x));
                assert(x < b.last());
                assert(b.to_set().contains(x));
                assert(a.to_set().contains(x));
                assert(a.contains(x));
                let j = choose|j: int| 0 <= j < a.len() && a[j] == x;
                assert(j < a.len() - 1);
                assert(a.drop_last()[j] == x);
            }
        }
        lemma_strictly_sorted_same_set(a.drop_last(), b.drop_last());
        assert(a =~= a.drop_last().push(a.last()));
        assert(b =~= b.drop_last().push(b.last()));
        assert(a =~= b);
    }
}

/// The canonical (strictly ascending) sequence holding a given type
/// set (meaningful for sets that have one, i.e. all finite sets).
pub open spec fn canon_of_set(s: Set<ComponentType>) -> Seq<ComponentType> {
    choose|q: Seq<ComponentType>| strictly_sorted(q) && q.to_set() == s
}

/// The archetype identity of a component type set: the identifier sum
/// of its canonical sequence.
pub open spec fn id_of_set(s: Set<ComponentType>) -> int {
    sum_ids(canon_of_set(s))
}

/// The canonical sequence of a strictly ascending sequence's set is
/// that sequence itself.
pub proof fn lemma_canon_of_sorted(q: Seq<ComponentType>)
    requires
        strictly_sorted(q),
    ensures
        canon_of_set(q.to_set()) == q,
        id_of_set(q.to_set()) == sum_ids(q),
{
    assert(strictly_sorted(q) && q.to_set() == q.to_set());
    let c = canon_of_set(q.to_set());
    assert(strictly_sorted(c) && c.to_set() == q.to_set()) by {
        assert(exists|q2: Seq<ComponentType>| strictly_sorted(q2) && q2.to_set() == q.to_set());
    }
    lemma_strictly_sorted_same_set(c, q);
}

/// Computes the archetype identity for a type list: the sum of the
/// identifiers, widened to 128 bits. The result depends only on the
/// multiset of identifiers, not their order.
pub fn id_from_c_types(c_types: &Vec<ComponentType>) -> (id: ArchetypeId)
    ensures
        id as int == sum_ids(c_types@),
{
    let n = c_types.len();
    let mut id: u128 = 0;
    let mut k: usize = 0;
    while k < n
        invariant
            n == c_types@.len(),
            k <= n,
            id as int == sum_ids(c_types@.subrange(0, k as int)),
        decreases n - k,
    {
        proof {
            lemma_sum_ids_bounds(c_types@.subrange(0, k as int));
            assert(c_types@.subrange(0, k as int).len() * (u64::MAX as int) <= (usize::MAX as int)
                * (u64::MAX as int));
            assert(c_types@.subrange(0, k as int + 1).drop_last() =~= c_types@.subrange(
                0,
                k as int,
            ));
        }
        id = id + (c_types[k] as u128);
        k = k + 1;
    }
    proof {
        assert(c_types@.subrange(0, n as int) =~= c_types@);
    }
    id
}

/// Sorts a duplicate-free type list into the canonical, strictly
/// ascending form, by insertion into a fresh list.
pub(crate) fn sort_c_types(v: &Vec<ComponentType>) -> (r: Vec<ComponentType>)
    requires
        v@.no_duplicates(),
    ensures
        strictly_sorted(r@),
        r@.to_set() == v@.to_set(),
        r@.len() == v@.len(),
    {
    proof {
        broadcast use vstd::set::group_set_axioms;
    }
    let n = v.len();
    let mut r: Vec<ComponentType> = Vec::new();
    let mut i: usize = 0;
    while i < n
        invariant
            n == v@.len(),
            i <= n,
            v@.no_duplicates(),
            strictly_sorted(r@),
            r@.to_set() == v@.subrange(0, i as int).to_set(),
            r@.len() == i,
        decreases n - i,
    {
        let x = v[i];
        proof {
            // `x` has not been inserted yet: it is absent from the prefix.
            assert(!v@.subrange(0, i as int).contains(x)) by {
                if v@.subrange(0, i as int).contains(x) {
                    let j = choose|j: int|
                        0 <= j < i && v@.subrange(0, i as int)[j] == x;
                    assert(v@[j] == x);
                    assert(v@[i as int] == x);
                }
            }
            assert(!r@.to_set().contains(x));
            assert(!r@.contains(x));
        }
        let mut pos: usize = 0;
        while pos < r.len() && r[pos] < x
            invariant
                pos <= r@.len(),
                forall|k: int| 0 <= k < pos ==> r@[k] < x,
                strictly_sorted(r@),
            decreases r@.len() - pos,
        {
            pos = pos + 1;
        }
        proof {
            if pos < r@.len() {
                assert(r@[pos as int] != x);
                assert(r@[pos as int] > x);
            }
        }
        let ghost old_r = r@;
        r.insert(pos, x);
        proof {
            assert(strictly_sorted(r@)) by {
                assert forall|p: int, q: int| 0 <= p < q < r@.len() implies r@[p] < r@[q] by {
                    if q < pos {
                        assert(r@[p] == old_r[p] && r@[q] == old_r[q]);
                    } else if p < pos && q == pos {
                        assert(r@[p] == old_r[p]);
                    } else if p < pos && q > pos {
                        assert(r@[p] == old_r[p] && r@[q] == old_r[q - 1]);
                        assert(old_r[p] < x);
                        if pos < old_r.len() {
                            assert(old_r[q - 1] >= old_r[pos as int] || q - 1 == pos);
                        }
                    } else if p == pos {
                        assert(r@[q] == old_r[q - 1]);
                        assert(old_r[q - 1] > x || q - 1 == pos);
                        assert(old_r[q - 1] >= old_r[pos as int] || q - 1 == pos);
                    } else {
                        assert(r@[p] == old_r[p - 1] && r@[q] == old_r[q - 1]);
                    }
                }
            }
            assert(r@.to_set() =~= v@.subrange(0, i as int + 1).to_set()) by {
                assert forall|y: ComponentType| r@.contains(y) implies v@.subrange(
                    0,
                    i as int + 1,
                ).contains(y) by {
                    let k = choose|k: int| 0 <= k < r@.len() && r@[k] == y;
                    if k == pos {
                        assert(v@.subrange(0, i as int + 1)[i as int] == x);
                    } else {
                        let k0: int = if k < pos { k } else { k - 1 };
                        assert(old_r[k0] == y);
                        assert(old_r.contains(y));
                        assert(old_r.to_set().contains(y));
                        assert(v@.subrange(0, i as int).contains(y));
                        let m = choose|m: int|
                            0 <= m < i && v@.subrange(0, i as int)[m] == y;
                        assert(v@.subrange(0, i as int + 1)[m] == y);
                    }
                }
                assert forall|y: ComponentType| v@.subrange(0, i as int + 1).contains(y)
                    implies r@.contains(y) by {
                    let m = choose|m: int|
                        #![trigger v@.subrange(0, i as int + 1)[m]]
                        0 <= m < i + 1 && v@.subrange(0, i as int + 1)[m] == y;
                    if m == i {
                        assert(r@[pos as int] == y);
                    } else {
                        assert(v@.subrange(0, i as int)[m] == y);
                        assert(v@.subrange(0, i as int).contains(y));
                        assert(old_r.to_set().contains(y));
                        assert(old_r.contains(y));
                        let k = choose|k: int| 0 <= k < old_r.len() && old_r[k] == y;
                        let k1: int = if k < pos { k } else { k + 1 };
                        assert(r@[k1] == y);
                    }
                }
            }
        }
        i = i + 1;
    }
    proof {
        assert(v@.subrange(0, n as int) =~= v@);
    }
    r
}

/// One archetype: the canonical component type list, the entities stored
/// here (by row), and one column per component type. All columns are
/// row-aligned: row `r` of every column belongs to the entity at
/// `entities[r]`.
#[derive(Debug)]
pub struct Archetype {
    /// Unique archetype identifier.
    pub id: ArchetypeId,
    /// The component types, strictly ascending.
    pub c_types: Vec<ComponentType>,
    /// The entity identifier of each row.
    pub entities: Vec<u64>,
    /// One column per entry of `c_types`, in the same order.
    pub columns: Vec<ComponentStorage>,
}

impl Archetype {
    /// The shape part of the invariant: canonical type list, matching
    /// identity, one well-tagged column per type.
    pub open spec fn inv_shape(self) -> bool {
        &&& strictly_sorted(self.c_types@)
        &&& self.id as int == sum_ids(self.c_types@)
        &&& self.columns@.len() == self.c_types@.len()
        &&& forall|j: int|
            0 <= j < self.columns@.len() ==> (#[trigger] self.columns@[j]).c_type
                == self.c_types@[j] && self.columns@[j].inv()
    }

    /// The full invariant: shape plus row alignment — every column is
    /// exactly as long as the entity list.
    pub open spec fn inv(self) -> bool {
        &&& self.inv_shape()
        &&& forall|j: int|
            0 <= j < self.columns@.len() ==> (#[trigger] self.columns@[j]).data@.len()
                == self.entities@.len()
    }

    /// The set of component types this archetype stores.
    pub open spec fn c_type_set(self) -> Set<ComponentType> {
        self.c_types@.to_set()
    }

    /// Creates an empty archetype for a canonical type list, seeded with
    /// one empty column per type.
    pub fn new(c_types: Vec<ComponentType>) -> (a: Archetype)
        requires
            strictly_sorted(c_types@),
        ensures
            a.inv(),
            a.c_types@ == c_types@,
            a.entities@.len() == 0,
            a.id as int == sum_ids(c_types@),
            forall|j: int|
                0 <= j < a.columns@.len() ==> (#[trigger] a.columns@[j]).data@.len() == 0,
    {
        let id = id_from_c_types(&c_types);
        let n = c_types.len();
        let mut columns: Vec<ComponentStorage> = Vec::new();
        let mut j: usize = 0;
        while j < n
            invariant
                n == c_types@.len(),
                j <= n,
                columns@.len() == j,
                forall|k: int|
                    0 <= k < j ==> (#[trigger] columns@[k]).c_type == c_types@[k]
                        && columns@[k].inv() && columns@[k].data@.len() == 0,
            decreases n - j,
        {
            columns.push(ComponentStorage::new(c_types[j]));
            j = j + 1;
        }
        Archetype { id, c_types, entities: Vec::new(), columns }
    }

    /// A reference to this archetype's entity rows.
    pub fn entities(&self) -> (r: &Vec<u64>)
        ensures
            r@ == self.entities@,
    {
        &self.entities
    }

    /// How many entities (rows) this archetype holds.
    pub fn len(&self) -> (n: usize)
        ensures
            n == self.entities@.len(),
    {
        self.entities.len()
    }

    /// Whether this archetype stores every type in the given list.
    pub fn contains_c_types(&self, c_types: &Vec<ComponentType>) -> (r: bool)
        ensures
            r == forall|k: int|
                0 <= k < c_types@.len() ==> self.c_types@.contains(#[trigger] c_types@[k]),
    {
        let n = c_types.len();
        let mut k: usize = 0;
        while k < n
            invariant
                n == c_types@.len(),
                k <= n,
                forall|m: int| 0 <= m < k ==> self.c_types@.contains(#[trigger] c_types@[m]),
            decreases n - k,
        {
            if self.column_index(c_types[k]).is_none() {
                return false;
            }
            k = k + 1;
        }
        true
    }

    /// The column index storing component type `t`, if this archetype
    /// has that type.
    pub fn column_index(&self, t: ComponentType) -> (r: Option<usize>)
        ensures
            r is Some <==> self.c_types@.contains(t),
            r is Some ==> 0 <= r->Some_0 < self.c_types@.len() && self.c_types@[r->Some_0 as int]
                == t,
    {
        let n = self.c_types.len();
        let mut j: usize = 0;
        while j < n
            invariant
                n == self.c_types@.len(),
                j <= n,
                forall|m: int| 0 <= m < j ==> self.c_types@[m] != t,
            decreases n - j,
        {
            if self.c_types[j] == t {
                return Some(j);
            }
            j = j + 1;
        }
        proof {
            if self.c_types@.contains(t) {
                let m = choose|m: int| 0 <= m < self.c_types@.len() && self.c_types@[m] == t;
            }
        }
        None
    }

    /// Appends one component value to the column of its type, returning
    /// the new slot's row index. A value whose type this archetype does
    /// not store is refused. Row alignment is the caller's burden: a
    /// spawn pushes exactly one value into every column and then adds
    /// the entity row (see `store_components`).
    pub fn init_component(&mut self, value: ComponentPtr) -> (r: Option<usize>)
        requires
            old(self).inv_shape(),
        ensures
            final(self).inv_shape(),
            final(self).c_types@ == old(self).c_types@,
            final(self).id == old(self).id,
            final(self).entities@ == old(self).entities@,
            final(self).columns@.len() == old(self).columns@.len(),
            old(self).c_types@.contains(value.c_type) ==> ({
                let j = index_of_type(old(self).c_types@, value.c_type);
                &&& r == Some(old(self).columns@[j].data@.len() as usize)
                &&& final(self).columns@[j].data@ == old(self).columns@[j].data@.push(
                    (ErasedComponentData {
                        c_type: value.c_type,
                        data: value.data,
                        readers: 0,
                        writer: false,
                    }),
                )
                &&& forall|k: int|
                    0 <= k < old(self).columns@.len() && k != j
                        ==> (#[trigger] final(self).columns@[k]).data@
                        == old(self).columns@[k].data@
            }),
            !old(self).c_types@.contains(value.c_type) ==> r is None && final(self).columns@
                == old(self).columns@,
    {
        match self.column_index(value.c_type) {
            Some(j) => {
                proof {
                    let jj = index_of_type(old(self).c_types@, value.c_type);
                    assert(old(self).c_types@[j as int] == value.c_type);
                    assert(0 <= jj < old(self).c_types@.len() && old(self).c_types@[jj]
                        == value.c_type);
                    assert(jj == j as int);
                }
                let col = &mut self.columns[j];
                let r = col.push(value);
                r
            },
            None => None,
        }
    }

    /// Writes one bundle into this archetype as a fresh row: each member
    /// goes to the column of its type, and the entity identifier is
    /// recorded for the new row. Every column grows by exactly one slot,
    /// so the columns stay row-aligned.
    pub fn store_components(&mut self, e: u64, bundle: &Vec<ComponentPtr>) -> (row: usize)
        requires
            old(self).inv(),
            bundle_types(bundle@).no_duplicates(),
            bundle_types(bundle@).to_set() == old(self).c_types@.to_set(),
        ensures
            final(self).inv(),
            final(self).c_types@ == old(self).c_types@,
            final(self).id == old(self).id,
            row == old(self).entities@.len(),
            final(self).entities@ == old(self).entities@.push(e),
            final(self).columns@.len() == old(self).columns@.len(),
            forall|j: int|
                0 <= j < final(self).columns@.len() ==> ({
                    let col = (#[trigger] final(self).columns@[j]).data@;
                    let oldcol = old(self).columns@[j].data@;
                    &&& col.len() == oldcol.len() + 1
                    &&& col.drop_last() == oldcol
                    &&& col.last().c_type == old(self).c_types@[j]
                    &&& col.last().data@ == bundle_data_for(bundle@, old(self).c_types@[j])
                    &&& col.last().readers == 0
                    &&& !col.last().writer
                }),
    {
        proof {
            broadcast use vstd::set::group_set_axioms;
        }
        let ghost bt = bundle_types(bundle@);
        let row = self.entities.len();
        let n = bundle.len();
        let mut k: usize = 0;
        while k < n
            invariant
                self.inv_shape(),
                old(self).inv(),
                bundle_types(bundle@).no_duplicates(),
                bundle_types(bundle@).to_set() == old(self).c_types@.to_set(),
                bt == bundle_types(bundle@),
                self.c_types@ == old(self).c_types@,
                self.id == old(self).id,
                self.entities@ == old(self).entities@,
                self.columns@.len() == old(self).columns@.len(),
                n == bundle@.len(),
                k <= n,
                forall|j: int|
                    0 <= j < self.columns@.len() ==> ({
                        let col = (#[trigger] self.columns@[j]).data@;
                        let oldcol = old(self).columns@[j].data@;
                        if bt.subrange(0, k as int).contains(old(self).c_types@[j]) {
                            &&& col.len() == oldcol.len() + 1
                            &&& col.drop_last() == oldcol
                            &&& col.last().c_type == old(self).c_types@[j]
                            &&& col.last().data@ == bundle_data_for(
                                bundle@,
                                old(self).c_types@[j],
                            )
                            &&& col.last().readers == 0
                            &&& !col.last().writer
                        } else {
                            col == oldcol
                        }
                    }),
            decreases n - k,
        {
            let t = bundle[k].c_type;
            let data = bundle[k].data.clone();
            let p = ComponentPtr { c_type: t, data };
            proof {
                assert(bt[k as int] == t);
                assert(bt.contains(t));
                assert(bt.to_set().contains(t));
                assert(self.c_types@.to_set().contains(t));
                assert(self.c_types@.contains(t));
                // `t` is new in this bundle walk: it is absent from the prefix.
                assert(!bt.subrange(0, k as int).contains(t)) by {
                    if bt.subrange(0, k as int).contains(t) {
                        let m = choose|m: int|
                            0 <= m < k && bt.subrange(0, k as int)[m] == t;
                        assert(bt[m] == t);
                    }
                }
            }
            let ghost before = self.columns@;
            let r = self.init_component(p);
            proof {
                let j = index_of_type(self.c_types@, t);
                // The chosen member of `bundle_data_for` is exactly member k.
                assert(bundle_data_for(bundle@, t) == bundle@[k as int].data@) by {
                    assert(bundle@[k as int].c_type == t);
                    let k2 = choose|k2: int|
                        0 <= k2 < bundle@.len() && (#[trigger] bundle@[k2]).c_type == t;
                    if k2 != k as int {
                        assert(bt[k2] == t);
                        assert(bt[k as int] == t);
                    }
                }
                assert forall|j2: int| 0 <= j2 < self.columns@.len() implies ({
                    let col = (#[trigger] self.columns@[j2]).data@;
                    let oldcol = old(self).columns@[j2].data@;
                    if bt.subrange(0, k as int + 1).contains(old(self).c_types@[j2]) {
                        &&& col.len() == oldcol.len() + 1
                        &&& col.drop_last() == oldcol
                        &&& col.last().c_type == old(self).c_types@[j2]
                        &&& col.last().data@ == bundle_data_for(bundle@, old(self).c_types@[j2])
                        &&& col.last().readers == 0
                        &&& !col.last().writer
                    } else {
                        col == oldcol
                    }
                }) by {
                    let ct = old(self).c_types@[j2];
                    assert(bt.subrange(0, k as int + 1).contains(ct) <==> (bt.subrange(
                        0,
                        k as int,
                    ).contains(ct) || ct == t)) by {
                        if bt.subrange(0, k as int + 1).contains(ct) {
                            let m = choose|m: int|
                                #![trigger bt.subrange(0, k as int + 1)[m]]
                                0 <= m < k + 1 && bt.subrange(0, k as int + 1)[m] == ct;
                            if m < k {
                                assert(bt.subrange(0, k as int)[m] == ct);
                            } else {
                                assert(bt[k as int] == ct);
                            }
                        }
                        if bt.subrange(0, k as int).contains(ct) {
                            let m = choose|m: int|
                                0 <= m < k && bt.subrange(0, k as int)[m] == ct;
                            assert(bt.subrange(0, k as int + 1)[m] == ct);
                        }
                        if ct == t {
                            assert(bt.subrange(0, k as int + 1)[k as int] == ct);
                        }
                    }
                    if j2 == j {
                        assert(ct == t);
                        assert(self.columns@[j2].data@ == before[j2].data@.push(
                            (ErasedComponentData {
                                c_type: t,
                                data: p.data,
                                readers: 0,
                                writer: false,
                            }),
                        ));
                        assert(before[j2].data@ == old(self).columns@[j2].data@);
                    } else {
                        assert(self.columns@[j2].data@ == before[j2].data@);
                        if ct == t {
                            // Two distinct columns cannot share the type.
                            assert(old(self).c_types@[j] == t);
                            assert(false);
                        }
                    }
                }
            }
            k = k + 1;
        }
        proof {
            assert(bt.subrange(0, n as int) =~= bt);
            assert forall|j: int| 0 <= j < self.columns@.len() implies bt.contains(
                #[trigger] old(self).c_types@[j],
            ) by {
                assert(old(self).c_types@.contains(old(self).c_types@[j]));
                assert(old(self).c_types@.to_set().contains(old(self).c_types@[j]));
                assert(bt.to_set().contains(old(self).c_types@[j]));
            }
        }
        self.entities.push(e);
        row
    }
}

/// Whether a type list holds the given type.
pub(crate) fn contains_c_type(v: &Vec<ComponentType>, t: ComponentType) -> (r: bool)
    ensures
        r == v@.contains(t),
{
    let n = v.len();
    let mut k: usize = 0;
    while k < n
        invariant
            n == v@.len(),
            k <= n,
            forall|m: int| 0 <= m < k ==> v@[m] != t,
        decreases n - k,
    {
        if v[k] == t {
            return true;
        }
        k = k + 1;
    }
    proof {
        if v@.contains(t) {
            let m = choose|m: int| 0 <= m < v@.len() && v@[m] == t;
        }
    }
    false
}

/// Whether a type list holds every type of another list.
pub(crate) fn contains_all_c_types(v: &Vec<ComponentType>, wanted: &Vec<ComponentType>) -> (r:
    bool)
    ensures
        r == forall|k: int| 0 <= k < wanted@.len() ==> v@.contains(#[trigger] wanted@[k]),
{
    let n = wanted.len();
    let mut k: usize = 0;
    while k < n
        invariant
            n == wanted@.len(),
            k <= n,
            forall|m: int| 0 <= m < k ==> v@.contains(#[trigger] wanted@[m]),
        decreases n - k,
    {
        if !contains_c_type(v, wanted[k]) {
            return false;
        }
        k = k + 1;
    }
    true
}

/// Whether a type list holds no type twice.
pub(crate) fn types_distinct(v: &Vec<ComponentType>) -> (r: bool)
    ensures
        r == v@.no_duplicates(),
{
    let n = v.len();
    let mut i: usize = 0;
    while i < n
        invariant
            n == v@.len(),
            i <= n,
            forall|p: int, q: int| 0 <= p < q < i ==> v@[p] != v@[q],
        decreases n - i,
    {
        let mut j: usize = 0;
        while j < i
            invariant
                n == v@.len(),
                i < n,
                j <= i,
                forall|p: int| 0 <= p < j ==> v@[p] != v@[i as int],
            decreases i - j,
        {
            if v[j] == v[i] {
                return false;
            }
            j = j + 1;
        }
        i = i + 1;
    }
    true
}

/// Whether two type lists are the same sequence.
pub(crate) fn c_types_equal(a: &Vec<ComponentType>, b: &Vec<ComponentType>) -> (r: bool)
    ensures
        r == (a@ == b@),
{
    let n = a.len();
    if n != b.len() {
        return false;
    }
    let mut k: usize = 0;
    while k < n
        invariant
            n == a@.len(),
            n == b@.len(),
            k <= n,
            forall|m: int| 0 <= m < k ==> a@[m] == b@[m],
        decreases n - k,
    {
        if a[k] != b[k] {
            return false;
        }
        k = k + 1;
    }
    proof {
        assert(a@ =~= b@);
    }
    true
}

/// The index at which a type list stores type `t` (meaningful when the
/// list contains `t`; unique when the list is strictly ascending).
pub open spec fn index_of_type(s: Seq<ComponentType>, t: ComponentType) -> int {
    choose|j: int| 0 <= j < s.len() && s[j] == t
}

impl Archetype {
    /// Whether `(t, row)` names a slot of this archetype.
    pub open spec fn has_slot(self, t: ComponentType, row: int) -> bool {
        self.c_types@.contains(t) && 0 <= row < self.entities@.len()
    }

    /// The slot of component type `t` at the given row.
    pub open spec fn slot(self, t: ComponentType, row: int) -> ErasedComponentData {
        self.columns@[index_of_type(self.c_types@, t)].data@[row]
    }

    /// Everything but the slots of column `t` is as in `other`; the
    /// column of `t` differs at most at `row`.
    pub open spec fn same_but_slot(self, other: Archetype, t: ComponentType, row: int) -> bool {
        &&& self.c_types@ == other.c_types@
        &&& self.id == other.id
        &&& self.entities@ == other.entities@
        &&& self.columns@.len() == other.columns@.len()
        &&& forall|j: int|
            0 <= j < self.columns@.len() && !(other.c_types@.contains(t) && j == index_of_type(
                other.c_types@,
                t,
            )) ==> (#[trigger] self.columns@[j]).data@ == other.columns@[j].data@
        &&& other.c_types@.contains(t) ==> ({
            let j = index_of_type(other.c_types@, t);
            &&& self.columns@[j].data@.len() == other.columns@[j].data@.len()
            &&& forall|i: int|
                0 <= i < self.columns@[j].data@.len() && i != row
                    ==> (#[trigger] self.columns@[j].data@[i]) == other.columns@[j].data@[i]
        })
    }

    /// Reads the borrow account of the slot of type `t` at the given
    /// row: the outstanding shared count and the exclusive flag.
    pub fn borrow_state(&self, t: ComponentType, row_index: usize) -> (r: Option<(usize, bool)>)
        requires
            self.inv(),
        ensures
            r is Some <==> self.has_slot(t, row_index as int),
            r is Some ==> ({
                let slot = self.slot(t, row_index as int);
                r->Some_0 == (slot.readers, slot.writer)
            }),
    {
        match self.column_index(t) {
            Some(j) => {
                proof {
                    assert(self.c_types@[j as int] == t);
                    assert(index_of_type(self.c_types@, t) == j as int);
                }
                if row_index < self.columns[j].data.len() {
                    let slot = &self.columns[j].data[row_index];
                    Some((slot.readers, slot.writer))
                } else {
                    None
                }
            },
            None => None,
        }
    }

    /// Reads a snapshot of the slot of type `t` at the given row,
    /// without touching the borrow account.
    pub fn read_slot(&self, t: ComponentType, row_index: usize) -> (r: Option<Vec<u64>>)
        requires
            self.inv(),
        ensures
            r is Some <==> self.has_slot(t, row_index as int),
            r is Some ==> r->Some_0@ == self.slot(t, row_index as int).data@,
    {
        match self.column_index(t) {
            Some(j) => {
                proof {
                    assert(self.c_types@[j as int] == t);
                    assert(index_of_type(self.c_types@, t) == j as int);
                }
                if row_index < self.columns[j].data.len() {
                    Some(self.columns[j].data[row_index].data.clone())
                } else {
                    None
                }
            },
            None => None,
        }
    }

    /// Takes a shared borrow of entity row `row_index` in the column of
    /// type `t`, returning a snapshot of the value. Fails when this
    /// archetype lacks the type, the row is out of range, or an
    /// exclusive borrow of that slot is outstanding.
    pub fn get_component(&mut self, t: ComponentType, row_index: usize) -> (r: Option<Vec<u64>>)
        requires
            old(self).inv(),
        ensures
            final(self).inv(),
            final(self).same_but_slot(*old(self), t, row_index as int),
            r is Some <==> old(self).has_slot(t, row_index as int) && old(self).slot(
                t,
                row_index as int,
            ).can_borrow(t),
            r is Some ==> ({
                let slot = old(self).slot(t, row_index as int);
                &&& r->Some_0@ == slot.data@
                &&& final(self).slot(t, row_index as int) == (ErasedComponentData {
                    readers: (slot.readers + 1) as usize,
                    ..slot
                })
            }),
            r is None ==> forall|j: int|
                0 <= j < final(self).columns@.len()
                    ==> (#[trigger] final(self).columns@[j]).data@ == old(self).columns@[j].data@,
    {
        match self.column_index(t) {
            Some(j) => {
                proof {
                    assert(old(self).c_types@[j as int] == t);
                    assert(index_of_type(old(self).c_types@, t) == j as int);
                }
                let col = &mut self.columns[j];
                let r = col.get(t, row_index);
                r
            },
            None => None,
        }
    }

    /// Takes an exclusive borrow of entity row `row_index` in the column
    /// of type `t`, returning a snapshot of the value for modification.
    /// Fails when this archetype lacks the type, the row is out of
    /// range, or any borrow of that slot is outstanding.
    pub fn get_component_mut(&mut self, t: ComponentType, row_index: usize) -> (r: Option<
        Vec<u64>,
    >)
        requires
            old(self).inv(),
        ensures
            final(self).inv(),
            final(self).same_but_slot(*old(self), t, row_index as int),
            r is Some <==> old(self).has_slot(t, row_index as int) && old(self).slot(
                t,
                row_index as int,
            ).can_borrow_mut(t),
            r is Some ==> ({
                let slot = old(self).slot(t, row_index as int);
                &&& r->Some_0@ == slot.data@
                &&& final(self).slot(t, row_index as int) == (ErasedComponentData {
                    writer: true,
                    ..slot
                })
            }),
            r is None ==> forall|j: int|
                0 <= j < final(self).columns@.len()
                    ==> (#[trigger] final(self).columns@[j]).data@ == old(self).columns@[j].data@,
    {
        match self.column_index(t) {
            Some(j) => {
                proof {
                    assert(old(self).c_types@[j as int] == t);
                    assert(index_of_type(old(self).c_types@, t) == j as int);
                }
                let col = &mut self.columns[j];
                let r = col.get_mut(t, row_index);
                r
            },
            None => None,
        }
    }

    /// Returns one shared borrow of the slot of type `t` at the given
    /// row. Reports whether a shared borrow was outstanding there;
    /// otherwise the archetype is unchanged.
    pub fn release_component(&mut self, t: ComponentType, row_index: usize) -> (ok: bool)
        requires
            old(self).inv(),
        ensures
            final(self).inv(),
            final(self).same_but_slot(*old(self), t, row_index as int),
            ok == (old(self).has_slot(t, row_index as int) && old(self).slot(
                t,
                row_index as int,
            ).readers > 0),
            ok ==> ({
                let slot = old(self).slot(t, row_index as int);
                final(self).slot(t, row_index as int) == (ErasedComponentData {
                    readers: (slot.readers - 1) as usize,
                    ..slot
                })
            }),
            !ok ==> forall|j: int|
                0 <= j < final(self).columns@.len()
                    ==> (#[trigger] final(self).columns@[j]).data@ == old(self).columns@[j].data@,
    {
        match self.column_index(t) {
            Some(j) => {
                proof {
                    assert(old(self).c_types@[j as int] == t);
                    assert(index_of_type(old(self).c_types@, t) == j as int);
                }
                let col = &mut self.columns[j];
                let ok = col.release(row_index);
                ok
            },
            None => false,
        }
    }

    /// Returns an exclusive borrow of the slot of type `t` at the given
    /// row, writing the given value back. Reports whether an exclusive
    /// borrow was outstanding there; otherwise the archetype is
    /// unchanged.
    pub fn release_component_mut(
        &mut self,
        t: ComponentType,
        row_index: usize,
        new_data: Vec<u64>,
    ) -> (ok: bool)
        requires
            old(self).inv(),
        ensures
            final(self).inv(),
            final(self).same_but_slot(*old(self), t, row_index as int),
            ok == (old(self).has_slot(t, row_index as int) && old(self).slot(
                t,
                row_index as int,
            ).writer),
            ok ==> ({
                let slot = old(self).slot(t, row_index as int);
                final(self).slot(t, row_index as int) == (ErasedComponentData {
                    data: new_data,
                    writer: false,
                    ..slot
                })
            }),
            !ok ==> forall|j: int|
                0 <= j < final(self).columns@.len()
                    ==> (#[trigger] final(self).columns@[j]).data@ == old(self).columns@[j].data@,
    {
        match self.column_index(t) {
            Some(j) => {
                proof {
                    assert(old(self).c_types@[j as int] == t);
                    assert(index_of_type(old(self).c_types@, t) == j as int);
                }
                let col = &mut self.columns[j];
                let ok = col.release_mut(row_index, new_data);
                ok
            },
            None => false,
        }
    }
}

/// The registry of archetypes: owns every archetype of one world,
/// keyed by archetype identity. Identities are unique in the registry,
/// and an identity is never re-bound to a different type set.
#[derive(Debug)]
pub struct Archetypes {
    pub archetypes: Vec<Archetype>,
}

impl Archetypes {
    /// Every archetype is well formed and identities are unique.
    pub open spec fn inv(self) -> bool {
        &&& forall|i: int|
            0 <= i < self.archetypes@.len() ==> (#[trigger] self.archetypes@[i]).inv()
        &&& forall|i: int, j: int|
            0 <= i < j < self.archetypes@.len() ==> self.archetypes@[i].id
                != self.archetypes@[j].id
    }

    /// Whether the registry holds an archetype with this identity.
    pub open spec fn contains_id(self, id: ArchetypeId) -> bool {
        exists|i: int| 0 <= i < self.archetypes@.len() && (#[trigger] self.archetypes@[i]).id == id
    }

    /// The registry index of the archetype with this identity
    /// (meaningful when `contains_id`; unique under the invariant).
    pub open spec fn index_of_id(self, id: ArchetypeId) -> int {
        choose|i: int| 0 <= i < self.archetypes@.len() && (#[trigger] self.archetypes@[i]).id == id
    }

    /// Creates an empty registry.
    pub fn new() -> (r: Archetypes)
        ensures
            r.inv(),
            r.archetypes@.len() == 0,
    {
        Archetypes { archetypes: Vec::new() }
    }

    /// How many archetypes the registry holds.
    pub fn len(&self) -> (n: usize)
        ensures
            n == self.archetypes@.len(),
    {
        self.archetypes.len()
    }

    /// The registry index of the archetype with the given identity.
    pub fn index_of(&self, id: ArchetypeId) -> (r: Option<usize>)
        requires
            self.inv(),
        ensures
            r is Some <==> self.contains_id(id),
            r is Some ==> 0 <= r->Some_0 < self.archetypes@.len()
                && self.archetypes@[r->Some_0 as int].id == id && r->Some_0
                == self.index_of_id(id),
    {
        let n = self.archetypes.len();
        let mut i: usize = 0;
        while i < n
            invariant
                self.inv(),
                n == self.archetypes@.len(),
                i <= n,
                forall|k: int| 0 <= k < i ==> (#[trigger] self.archetypes@[k]).id != id,
            decreases n - i,
        {
            if self.archetypes[i].id == id {
                proof {
                    assert(self.archetypes@[i as int].id == id);
                    let w = self.index_of_id(id);
                    assert(0 <= w < self.archetypes@.len() && self.archetypes@[w].id == id);
                    if w != i as int {
                        if w < i as int {
                            assert(self.archetypes@[w].id != self.archetypes@[i as int].id);
                        } else {
                            assert(self.archetypes@[i as int].id != self.archetypes@[w].id);
                        }
                    }
                }
                return Some(i);
            }
            i = i + 1;
        }
        None
    }

    /// A read-only view of the archetype with the given identity.
    pub fn get(&self, id: ArchetypeId) -> (r: Option<&Archetype>)
        requires
            self.inv(),
        ensures
            r is Some <==> self.contains_id(id),
            r is Some ==> *r->Some_0 == self.archetypes@[self.index_of_id(id)],
    {
        match self.index_of(id) {
            Some(i) => Some(&self.archetypes[i]),
            None => None,
        }
    }

    /// The registry position of an identity is unique: any position
    /// holding `id` is the position `index_of_id` names.
    pub proof fn lemma_index_of_id_unique(self, id: ArchetypeId, j: int)
        requires
            self.inv(),
            0 <= j < self.archetypes@.len(),
            self.archetypes@[j].id == id,
        ensures
            self.contains_id(id),
            self.index_of_id(id) == j,
    {
        assert(self.contains_id(id));
        let w = self.index_of_id(id);
        assert(0 <= w < self.archetypes@.len() && self.archetypes@[w].id == id);
        if w != j {
            if w < j {
                assert(self.archetypes@[w].id != self.archetypes@[j].id);
            } else {
                assert(self.archetypes@[j].id != self.archetypes@[w].id);
            }
        }
    }

    /// Returns the registry index for the archetype of the given
    /// canonical type list, creating an empty archetype if the identity
    /// is not present yet. The caller rules out identity collisions: an
    /// existing archetype with the same identity must store the very
    /// same type list.
    pub fn init_storage(&mut self, c_types: Vec<ComponentType>) -> (i: usize)
        requires
            old(self).inv(),
            strictly_sorted(c_types@),
            forall|k: int|
                0 <= k < old(self).archetypes@.len() && (#[trigger] old(
                    self,
                ).archetypes@[k]).id as int == sum_ids(c_types@) ==> old(
                    self,
                ).archetypes@[k].c_types@ == c_types@,
        ensures
            final(self).inv(),
            i < final(self).archetypes@.len(),
            final(self).archetypes@[i as int].c_types@ == c_types@,
            final(self).archetypes@[i as int].id as int == sum_ids(c_types@),
            ({
                let id = final(self).archetypes@[i as int].id;
                if old(self).contains_id(id) {
                    final(self).archetypes@ == old(self).archetypes@ && i == old(
                        self,
                    ).index_of_id(id)
                } else {
                    final(self).archetypes@.len() == old(self).archetypes@.len() + 1
                        && final(self).archetypes@.drop_last() == old(self).archetypes@ && i
                        == old(self).archetypes@.len()
                        && final(self).archetypes@[i as int].entities@.len() == 0
                }
            }),
    {
        let id = id_from_c_types(&c_types);
        match self.index_of(id) {
            Some(i) => {
                proof {
                    assert(self.archetypes@[i as int].id as int == sum_ids(c_types@));
                }
                i
            },
            None => {
                let i = self.archetypes.len();
                self.archetypes.push(Archetype::new(c_types));
                proof {
                    assert(final(self).archetypes@.drop_last() =~= old(self).archetypes@);
                    assert forall|p: int, q: int|
                        0 <= p < q < self.archetypes@.len() implies self.archetypes@[p].id
                        != self.archetypes@[q].id by {
                        if q == i as int {
                            assert(!old(self).contains_id(id));
                            assert(old(self).archetypes@[p].id != id);
                        }
                    }
                }
                i
            },
        }
    }
}

} // verus!
