//! The object table: objects under their identifiers, in ascending order.

use vstd::prelude::*;
use crate::object::{Object, ObjectId, Value};

verus! {

/// Mathematical model of an object table: identifiers with their values, in
/// ascending order of identifier.
pub type TableModel = Seq<(ObjectId, Value)>;

/// The identifiers grow strictly from one entry to the next.
pub open spec fn ascending(t: TableModel) -> bool {
    forall|i: int, j: int| 0 <= i < j < t.len() ==> (#[trigger] t[i]).0.key() < (#[trigger] t[j]).0.key()
}

/// Index of the first entry at or after `start` whose identifier does not
/// precede `id`; the length of `t` where there is none.
pub open spec fn slot_from(t: TableModel, id: ObjectId, start: int) -> int
    decreases t.len() - start,
{
    if start < 0 || start >= t.len() {
        t.len() as int
    } else if t[start].0.key() >= id.key() {
        start
    } else {
        slot_from(t, id, start + 1)
    }
}

/// Where `id` stands, or would stand, in the table.
pub open spec fn table_slot(t: TableModel, id: ObjectId) -> int {
    slot_from(t, id, 0)
}

pub open spec fn table_has(t: TableModel, id: ObjectId) -> bool {
    table_slot(t, id) < t.len() && t[table_slot(t, id)].0 == id
}

pub open spec fn table_get(t: TableModel, id: ObjectId) -> Option<Value> {
    if table_has(t, id) {
        Some(t[table_slot(t, id)].1)
    } else {
        None
    }
}

/// Insert-or-overwrite at the place that keeps the table ascending.
pub open spec fn table_put(t: TableModel, id: ObjectId, v: Value) -> TableModel {
    if table_has(t, id) {
        t.update(table_slot(t, id), (id, v))
    } else {
        t.insert(table_slot(t, id), (id, v))
    }
}

/// The identifiers of the table, in its order.
pub open spec fn table_ids(t: TableModel) -> Seq<ObjectId> {
    Seq::new(t.len(), |i: int| t[i].0)
}

/// `slot_from` finds the first entry that does not precede `id`.
pub proof fn lemma_slot_from(t: TableModel, id: ObjectId, start: int)
    requires
        0 <= start <= t.len(),
    ensures
        start <= slot_from(t, id, start) <= t.len(),
        slot_from(t, id, start) < t.len() ==> t[slot_from(t, id, start)].0.key() >= id.key(),
        forall|j: int| start <= j < slot_from(t, id, start) ==> (#[trigger] t[j]).0.key() < id.key(),
    decreases t.len() - start,
{
    if start < t.len() && t[start].0.key() < id.key() {
        lemma_slot_from(t, id, start + 1);
    }
}

/// An index that splits the table at `id` is the slot of `id`.
pub proof fn lemma_slot_is(t: TableModel, id: ObjectId, i: int)
    requires
        0 <= i <= t.len(),
        forall|j: int| 0 <= j < i ==> (#[trigger] t[j]).0.key() < id.key(),
        i < t.len() ==> t[i].0.key() >= id.key(),
    ensures
        table_slot(t, id) == i,
{
    lemma_slot_from(t, id, 0);
    let s = table_slot(t, id);
    if s < i {
        assert(t[s].0.key() < id.key());
    } else if s > i {
        assert(t[i].0.key() < id.key());
    }
}

/// In an ascending table an identifier is present exactly where some entry
/// carries it, and then at its slot.
pub proof fn lemma_table_has(t: TableModel, id: ObjectId)
    requires
        ascending(t),
    ensures
        table_has(t, id) <==> exists|i: int| 0 <= i < t.len() && (#[trigger] t[i]).0 == id,
        forall|i: int| 0 <= i < t.len() && (#[trigger] t[i]).0 == id ==> table_slot(t, id) == i,
{
    lemma_slot_from(t, id, 0);
    assert forall|i: int| 0 <= i < t.len() && (#[trigger] t[i]).0 == id implies table_slot(t, id)
        == i by {
        lemma_slot_is(t, id, i);
    }
}

/// Two tables hold the same identifiers in the same places.
pub open spec fn same_ids(a: TableModel, b: TableModel) -> bool {
    a.len() == b.len() && forall|i: int| 0 <= i < a.len() ==> (#[trigger] a[i]).0 == b[i].0
}

/// Tables with the same identifiers find every identifier in the same place.
pub proof fn lemma_same_ids(a: TableModel, b: TableModel, id: ObjectId, start: int)
    requires
        same_ids(a, b),
        0 <= start <= a.len(),
    ensures
        slot_from(a, id, start) == slot_from(b, id, start),
        start == 0 ==> table_has(a, id) == table_has(b, id),
    decreases a.len() - start,
{
    if start < a.len() {
        assert(a[start].0 == b[start].0);
        if a[start].0.key() < id.key() {
            lemma_same_ids(a, b, id, start + 1);
        }
    }
    if start == 0 {
        lemma_slot_from(a, id, 0);
        let s = table_slot(a, id);
        if s < a.len() {
            assert(a[s].0 == b[s].0);
        }
    }
}

/// Putting an entry keeps the table ascending.
pub proof fn lemma_put_ascending(t: TableModel, id: ObjectId, v: Value)
    requires
        ascending(t),
    ensures
        ascending(table_put(t, id, v)),
        table_slot(table_put(t, id, v), id) == table_slot(t, id),
        table_has(table_put(t, id, v), id),
        table_put(t, id, v).len() == if table_has(t, id) {
            t.len()
        } else {
            t.len() + 1
        },
{
    let p = table_put(t, id, v);
    let s = table_slot(t, id);
    lemma_slot_from(t, id, 0);
    if table_has(t, id) {
        assert forall|i: int, j: int| 0 <= i < j < p.len() implies (#[trigger] p[i]).0.key() < (
        #[trigger] p[j]).0.key() by {
            assert(p[i].0 == t[i].0);
            assert(p[j].0 == t[j].0);
        }
        assert forall|j: int| 0 <= j < s implies (#[trigger] p[j]).0.key() < id.key() by {
            assert(p[j] == t[j]);
        }
    } else {
        if s < t.len() {
            crate::object::lemma_key_injective(t[s].0, id);
        }
        assert forall|i: int, j: int| 0 <= i < j < p.len() implies (#[trigger] p[i]).0.key() < (
        #[trigger] p[j]).0.key() by {
            let ti = if i < s { i } else { i - 1 };
            let tj = if j < s { j } else { j - 1 };
            if i != s {
                assert(p[i] == t[ti]);
            }
            if j != s {
                assert(p[j] == t[tj]);
            }
        }
        assert forall|j: int| 0 <= j < s implies (#[trigger] p[j]).0.key() < id.key() by {
            assert(p[j] == t[j]);
        }
    }
    lemma_slot_is(p, id, s);
}

/// Putting an entry leaves every other identifier as it was.
pub proof fn lemma_put_other(t: TableModel, id: ObjectId, v: Value, other: ObjectId)
    requires
        ascending(t),
        other != id,
    ensures
        table_get(table_put(t, id, v), other) == table_get(t, other),
        table_has(table_put(t, id, v), other) == table_has(t, other),
{
    let p = table_put(t, id, v);
    let s = table_slot(t, id);
    let so = table_slot(t, other);
    lemma_slot_from(t, id, 0);
    lemma_slot_from(t, other, 0);
    crate::object::lemma_key_injective(other, id);
    if table_has(t, id) {
        assert forall|k: int| 0 <= k < so implies (#[trigger] p[k]).0.key() < other.key() by {
            assert(p[k].0 == t[k].0);
        }
        if so < t.len() {
            assert(p[so].0 == t[so].0);
        }
        lemma_slot_is(p, other, so);
    } else {
        let po = if other.key() < id.key() { so } else { so + 1 };
        if other.key() < id.key() {
            if so > s {
                assert(t[s].0.key() < other.key());
            }
        } else {
            if so < s {
                assert(t[so].0.key() < id.key());
            }
        }
        assert forall|k: int| 0 <= k < po implies (#[trigger] p[k]).0.key() < other.key() by {
            if k < s {
                assert(p[k] == t[k]);
            } else if k > s {
                assert(p[k] == t[k - 1]);
            }
        }
        if po < p.len() {
            if po < s {
                assert(p[po] == t[po]);
            } else if po > s {
                assert(p[po] == t[po - 1]);
            }
        }
        lemma_slot_is(p, other, po);
    }
}

/// Putting an entry keeps the table ascending; the entry is then present with
/// its value, and every other identifier is as it was.
pub proof fn lemma_table_put(t: TableModel, id: ObjectId, v: Value)
    requires
        ascending(t),
    ensures
        ascending(table_put(t, id, v)),
        table_get(table_put(t, id, v), id) == Some(v),
        forall|other: ObjectId|
            other != id ==> #[trigger] table_get(table_put(t, id, v), other) == table_get(t, other),
        forall|other: ObjectId|
            other != id ==> #[trigger] table_has(table_put(t, id, v), other) == table_has(t, other),
        table_put(t, id, v).len() == if table_has(t, id) {
            t.len()
        } else {
            t.len() + 1
        },
{
    lemma_put_ascending(t, id, v);
    lemma_slot_from(t, id, 0);
    assert forall|other: ObjectId| other != id implies #[trigger] table_get(
        table_put(t, id, v),
        other,
    ) == table_get(t, other) by {
        lemma_put_other(t, id, v, other);
    }
    assert forall|other: ObjectId| other != id implies #[trigger] table_has(
        table_put(t, id, v),
        other,
    ) == table_has(t, other) by {
        lemma_put_other(t, id, v, other);
    }
}

struct Slot {
    id: ObjectId,
    object: Object,
}

/// The objects of a document, each under its identifier, kept in ascending
/// order of identifier.
pub struct ObjectTable {
    slots: Vec<Slot>,
}

spec fn slots_view(slots: Seq<Slot>) -> TableModel {
    Seq::new(slots.len(), |i: int| (slots[i].id, slots[i].object@))
}

impl View for ObjectTable {
    type V = TableModel;

    closed spec fn view(&self) -> TableModel {
        slots_view(self.slots@)
    }
}

impl ObjectTable {
    #[verifier::type_invariant]
    closed spec fn in_order(&self) -> bool {
        ascending(self@)
    }

    /// An empty table.
    pub fn new() -> (t: ObjectTable)
        ensures
            t@ == Seq::<(ObjectId, Value)>::empty(),
    {
        let t = ObjectTable { slots: Vec::new() };
        assert(t@ =~= Seq::<(ObjectId, Value)>::empty());
        t
    }

    /// The number of objects.
    pub fn len(&self) -> (n: usize)
        ensures
            n == self@.len(),
            ascending(self@),
    {
        proof {
            use_type_invariant(self);
        }
        self.slots.len()
    }

    /// The identifier at position `i`.
    pub fn id_at(&self, i: usize) -> (id: ObjectId)
        requires
            i < self@.len(),
        ensures
            id == self@[i as int].0,
    {
        self.slots[i].id
    }

    /// The object at position `i`.
    pub fn object_at(&self, i: usize) -> (object: &Object)
        requires
            i < self@.len(),
        ensures
            object@ == self@[i as int].1,
    {
        &self.slots[i].object
    }

    /// Where `id` stands, or would stand.
    pub fn slot_of(&self, id: ObjectId) -> (i: usize)
        ensures
            i == table_slot(self@, id),
            i <= self@.len(),
            ascending(self@),
    {
        proof {
            use_type_invariant(self);
        }
        let mut lo: usize = 0;
        let mut hi: usize = self.slots.len();
        while lo < hi
            invariant
                lo <= hi <= self.slots.len(),
                self@ == slots_view(self.slots@),
                ascending(self@),
                forall|j: int| 0 <= j < lo ==> (#[trigger] self@[j]).0.key() < id.key(),
                forall|j: int| hi <= j < self@.len() ==> (#[trigger] self@[j]).0.key() >= id.key(),
            decreases hi - lo,
        {
            let mid = lo + (hi - lo) / 2;
            if self.slots[mid].id.less_than(&id) {
                assert(self@[mid as int].0.key() < id.key());
                lo = mid + 1;
            } else {
                assert(self@[mid as int].0.key() >= id.key());
                hi = mid;
            }
        }
        proof {
            lemma_slot_is(self@, id, lo as int);
        }
        lo
    }

    /// Whether an object stands under `id`.
    pub fn contains(&self, id: ObjectId) -> (found: bool)
        ensures
            found == table_has(self@, id),
    {
        let i = self.slot_of(id);
        i < self.slots.len() && self.slots[i].id == id
    }

    /// The object under `id`.
    pub fn get(&self, id: ObjectId) -> (r: Option<&Object>)
        ensures
            match r {
                Some(o) => table_get(self@, id) == Some(o@),
                None => table_get(self@, id).is_none(),
            },
    {
        let i = self.slot_of(id);
        if i < self.slots.len() && self.slots[i].id == id {
            Some(&self.slots[i].object)
        } else {
            None
        }
    }

    /// Insert-or-overwrite: afterwards `object` stands under `id`, and every
    /// other identifier leads to what it led to before.
    pub fn insert(&mut self, id: ObjectId, object: Object)
        ensures
            final(self)@ == table_put(old(self)@, id, object@),
            ascending(final(self)@),
            table_get(final(self)@, id) == Some(object@),
            forall|other: ObjectId|
                other != id ==> #[trigger] table_get(final(self)@, other) == table_get(
                    old(self)@,
                    other,
                ),
    {
        proof {
            use_type_invariant(&*self);
            lemma_table_put(self@, id, object@);
        }
        let i = self.slot_of(id);
        let present = i < self.slots.len() && self.slots[i].id == id;
        let mut slots: Vec<Slot> = Vec::new();
        core::mem::swap(&mut self.slots, &mut slots);
        if present {
            slots.set(i, Slot { id, object });
        } else {
            slots.insert(i, Slot { id, object });
        }
        assert(slots_view(slots@) =~= table_put(old(self)@, id, object@));
        self.slots = slots;
    }

    /// Adds `object` under `id` at the end of the table.
    pub fn push(&mut self, id: ObjectId, object: Object)
        requires
            old(self)@.len() > 0 ==> old(self)@.last().0.key() < id.key(),
        ensures
            final(self)@ == old(self)@.push((id, object@)),
            ascending(final(self)@),
    {
        proof {
            use_type_invariant(&*self);
        }
        let mut slots: Vec<Slot> = Vec::new();
        core::mem::swap(&mut self.slots, &mut slots);
        slots.push(Slot { id, object });
        assert(slots_view(slots@) =~= old(self)@.push((id, object@)));
        assert forall|i: int, j: int| 0 <= i < j < slots@.len() implies (#[trigger] slots_view(
            slots@,
        )[i]).0.key() < (#[trigger] slots_view(slots@)[j]).0.key() by {
            if j == slots@.len() - 1 {
                if i < j - 1 {
                    assert(old(self)@[i].0.key() < old(self)@[j - 1].0.key());
                }
            } else {
                assert(old(self)@[i].0.key() < old(self)@[j].0.key());
            }
        }
        self.slots = slots;
    }

    /// Puts `object` in the place of the object at position `i` and hands back
    /// the one that stood there.
    pub fn replace_at(&mut self, i: usize, object: Object) -> (previous: Object)
        requires
            i < old(self)@.len(),
        ensures
            final(self)@ == old(self)@.update(i as int, (old(self)@[i as int].0, object@)),
            previous@ == old(self)@[i as int].1,
            ascending(final(self)@),
    {
        proof {
            use_type_invariant(&*self);
        }
        let mut slots: Vec<Slot> = Vec::new();
        core::mem::swap(&mut self.slots, &mut slots);
        let id = slots[i].id;
        slots.push(Slot { id, object });
        let previous = slots.swap_remove(i);
        assert(slots_view(slots@) =~= old(self)@.update(i as int, (old(self)@[i as int].0, object@)));
        self.slots = slots;
        previous.object
    }
}

} // verus!
