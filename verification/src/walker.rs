//! Walking through values: the references in them, and rewriting references.

use vstd::prelude::*;
use crate::bytes::copy_bytes;
use crate::ids::{find_rank, increasing, lemma_rank_contains, rank};
use crate::object::{
    dict_find, dict_get, Dictionary, DictModel, lemma_find_from, lemma_find_is, lemma_items_view,
    Object, ObjectId, Stream, StreamModel, Value, value_type,
};

verus! {

/// The targets of the references that occur in `v`, at any depth, in the order
/// in which they occur.
pub open spec fn value_refs(v: Value) -> Seq<ObjectId>
    decreases v, 0nat, 0nat,
{
    match v {
        Value::Reference(id) => seq![id],
        Value::Array(items) => items_refs(items, items.len()),
        Value::Dictionary(d) => entries_refs(d, d.len()),
        Value::Stream(s) => entries_refs(s.dict, s.dict.len()),
        _ => Seq::empty(),
    }
}

/// The targets of the references in the first `n` values of `items`.
pub open spec fn items_refs(items: Seq<Value>, n: nat) -> Seq<ObjectId>
    decreases items, 1nat, n,
{
    if n == 0 || n > items.len() {
        Seq::empty()
    } else {
        items_refs(items, (n - 1) as nat) + value_refs(items[n - 1])
    }
}

/// The targets of the references in the values of the first `n` entries of `d`.
pub open spec fn entries_refs(d: DictModel, n: nat) -> Seq<ObjectId>
    decreases d, 1nat, n,
{
    if n == 0 || n > d.len() {
        Seq::empty()
    } else {
        entries_refs(d, (n - 1) as nat) + value_refs(d[n - 1].1)
    }
}

/// The identifier that `m` gives for `id`; `id` itself where `m` has none.
pub open spec fn remap_id(id: ObjectId, m: Map<ObjectId, ObjectId>) -> ObjectId {
    if m.contains_key(id) {
        m[id]
    } else {
        id
    }
}

/// `v` with every reference rewritten by `m`, and nothing else changed.
pub open spec fn remap_value(v: Value, m: Map<ObjectId, ObjectId>) -> Value
    decreases v, 0nat,
{
    match v {
        Value::Reference(id) => Value::Reference(remap_id(id, m)),
        Value::Array(items) => Value::Array(remap_items(items, m)),
        Value::Dictionary(d) => Value::Dictionary(remap_entries(d, m)),
        Value::Stream(s) => Value::Stream(
            StreamModel {
                dict: remap_entries(s.dict, m),
                content: s.content,
                allows_compression: s.allows_compression,
            },
        ),
        other => other,
    }
}

pub open spec fn remap_items(items: Seq<Value>, m: Map<ObjectId, ObjectId>) -> Seq<Value>
    decreases items, 1nat,
{
    Seq::new(
        items.len(),
        |i: int|
            if 0 <= i < items.len() {
                remap_value(items[i], m)
            } else {
                Value::Null
            },
    )
}

pub open spec fn remap_entries(d: DictModel, m: Map<ObjectId, ObjectId>) -> DictModel
    decreases d, 1nat,
{
    Seq::new(
        d.len(),
        |i: int|
            if 0 <= i < d.len() {
                (d[i].0, remap_value(d[i].1, m))
            } else {
                (Seq::empty(), Value::Null)
            },
    )
}

/// A reference among the first `n` entries of `d` occurs in one of them.
pub proof fn lemma_refs_in_entries(d: DictModel, n: nat, r: ObjectId)
    requires
        n <= d.len(),
        entries_refs(d, n).contains(r),
    ensures
        exists|i: int| 0 <= i < n && #[trigger] value_refs(d[i].1).contains(r),
    decreases n,
{
    if n > 0 {
        let k = choose|k: int| 0 <= k < entries_refs(d, n).len() && entries_refs(d, n)[k] == r;
        let head = entries_refs(d, (n - 1) as nat);
        if k < head.len() {
            assert(head[k] == r);
            lemma_refs_in_entries(d, (n - 1) as nat, r);
        } else {
            assert(value_refs(d[n - 1].1)[k - head.len()] == r);
            assert(value_refs(d[n - 1].1).contains(r));
        }
    }
}

/// A reference in one of the first `n` entries of `d` is among their references.
pub proof fn lemma_entry_refs(d: DictModel, n: nat, i: int, r: ObjectId)
    requires
        0 <= i < n <= d.len(),
        value_refs(d[i].1).contains(r),
    ensures
        entries_refs(d, n).contains(r),
    decreases n,
{
    let head = entries_refs(d, (n - 1) as nat);
    let last = value_refs(d[n - 1].1);
    if i == n - 1 {
        let k = choose|k: int| 0 <= k < last.len() && last[k] == r;
        assert(entries_refs(d, n)[head.len() + k] == r);
    } else {
        lemma_entry_refs(d, (n - 1) as nat, i, r);
        let k = choose|k: int| 0 <= k < head.len() && head[k] == r;
        assert(entries_refs(d, n)[k] == r);
    }
}

/// Setting an entry to a value without references adds no reference.
pub proof fn lemma_set_adds_no_ref(d: DictModel, name: Seq<u8>, v: Value, r: ObjectId)
    requires
        value_refs(v).len() == 0,
        value_refs(Value::Dictionary(crate::object::dict_set(d, name, v))).contains(r),
    ensures
        value_refs(Value::Dictionary(d)).contains(r),
{
    let after = crate::object::dict_set(d, name, v);
    lemma_refs_in_entries(after, after.len(), r);
    let x = choose|x: int| 0 <= x < after.len() && #[trigger] value_refs(after[x].1).contains(r);
    lemma_find_from(d, name, 0);
    if after[x] == (name, v) {
        assert(false);
    } else {
        assert(after[x] == d[x]);
        lemma_entry_refs(d, d.len(), x, r);
    }
}

/// Removing an entry adds no reference.
pub proof fn lemma_remove_adds_no_ref(d: DictModel, name: Seq<u8>, r: ObjectId)
    requires
        value_refs(Value::Dictionary(crate::object::dict_remove(d, name))).contains(r),
    ensures
        value_refs(Value::Dictionary(d)).contains(r),
{
    let after = crate::object::dict_remove(d, name);
    lemma_find_from(d, name, 0);
    let i = dict_find(d, name);
    if i < d.len() {
        lemma_refs_in_entries(after, after.len(), r);
        let x = choose|x: int| 0 <= x < after.len() && #[trigger] value_refs(after[x].1).contains(r);
        let y = if x < i { x } else { x + 1 };
        assert(after[x] == d[y]);
        lemma_entry_refs(d, d.len(), y, r);
    }
}

/// Remapping keeps the names of a dictionary, and so where a name is found.
pub proof fn lemma_remap_get(d: DictModel, m: Map<ObjectId, ObjectId>, name: Seq<u8>)
    ensures
        dict_find(remap_entries(d, m), name) == dict_find(d, name),
        dict_get(remap_entries(d, m), name) == match dict_get(d, name) {
            Some(v) => Some(remap_value(v, m)),
            None => None,
        },
{
    let r = remap_entries(d, m);
    lemma_find_from(d, name, 0);
    let i = dict_find(d, name);
    assert forall|j: int| 0 <= j < i implies (#[trigger] r[j]).0 != name by {
        assert(r[j].0 == d[j].0);
    }
    lemma_find_is(r, name, i);
}

/// Remapping keeps the type that a value declares.
pub proof fn lemma_remap_type(v: Value, m: Map<ObjectId, ObjectId>)
    ensures
        value_type(remap_value(v, m)) == value_type(v),
{
    match v {
        Value::Dictionary(d) => {
            lemma_remap_get(d, m, crate::names::TYPE@);
        },
        Value::Stream(s) => {
            lemma_remap_get(s.dict, m, crate::names::TYPE@);
        },
        _ => {},
    }
}

/// `ids` with each identifier rewritten by `m`.
pub open spec fn remap_ids(ids: Seq<ObjectId>, m: Map<ObjectId, ObjectId>) -> Seq<ObjectId> {
    ids.map_values(|id: ObjectId| remap_id(id, m))
}

/// The references of a remapped value are the remapped references of the
/// value: none is lost, none is added.
pub proof fn lemma_remap_refs(v: Value, m: Map<ObjectId, ObjectId>)
    ensures
        value_refs(remap_value(v, m)) == remap_ids(value_refs(v), m),
    decreases v, 0nat, 0nat,
{
    match v {
        Value::Reference(id) => {
            assert(value_refs(remap_value(v, m)) =~= remap_ids(value_refs(v), m));
        },
        Value::Array(items) => {
            lemma_remap_items_refs(items, m, items.len());
        },
        Value::Dictionary(d) => {
            lemma_remap_entries_refs(d, m, d.len());
        },
        Value::Stream(s) => {
            lemma_remap_entries_refs(s.dict, m, s.dict.len());
        },
        _ => {
            assert(value_refs(remap_value(v, m)) =~= remap_ids(value_refs(v), m));
        },
    }
}

pub proof fn lemma_remap_items_refs(items: Seq<Value>, m: Map<ObjectId, ObjectId>, n: nat)
    requires
        n <= items.len(),
    ensures
        items_refs(remap_items(items, m), n) == remap_ids(items_refs(items, n), m),
    decreases items, 1nat, n,
{
    if n > 0 {
        lemma_remap_items_refs(items, m, (n - 1) as nat);
        lemma_remap_refs(items[n - 1], m);
    }
    assert(items_refs(remap_items(items, m), n) =~= remap_ids(items_refs(items, n), m));
}

pub proof fn lemma_remap_entries_refs(d: DictModel, m: Map<ObjectId, ObjectId>, n: nat)
    requires
        n <= d.len(),
    ensures
        entries_refs(remap_entries(d, m), n) == remap_ids(entries_refs(d, n), m),
    decreases d, 1nat, n,
{
    if n > 0 {
        lemma_remap_entries_refs(d, m, (n - 1) as nat);
        lemma_remap_refs(d[n - 1].1, m);
    }
    assert(entries_refs(remap_entries(d, m), n) =~= remap_ids(entries_refs(d, n), m));
}

/// A mapping that sends each identifier to itself changes no value.
pub proof fn lemma_remap_identity(v: Value, m: Map<ObjectId, ObjectId>)
    requires
        forall|id: ObjectId| #[trigger] remap_id(id, m) == id,
    ensures
        remap_value(v, m) == v,
    decreases v, 0nat,
{
    match v {
        Value::Reference(id) => {
            assert(remap_id(id, m) == id);
        },
        Value::Array(items) => {
            lemma_remap_identity_items(items, m);
        },
        Value::Dictionary(d) => {
            lemma_remap_identity_entries(d, m);
        },
        Value::Stream(s) => {
            lemma_remap_identity_entries(s.dict, m);
        },
        _ => {},
    }
}

pub proof fn lemma_remap_identity_items(items: Seq<Value>, m: Map<ObjectId, ObjectId>)
    requires
        forall|id: ObjectId| #[trigger] remap_id(id, m) == id,
    ensures
        remap_items(items, m) == items,
    decreases items, 1nat,
{
    assert forall|i: int| 0 <= i < items.len() implies remap_items(items, m)[i] == items[i] by {
        lemma_remap_identity(items[i], m);
    }
    assert(remap_items(items, m) =~= items);
}

pub proof fn lemma_remap_identity_entries(d: DictModel, m: Map<ObjectId, ObjectId>)
    requires
        forall|id: ObjectId| #[trigger] remap_id(id, m) == id,
    ensures
        remap_entries(d, m) == d,
    decreases d, 1nat,
{
    assert forall|i: int| 0 <= i < d.len() implies remap_entries(d, m)[i] == d[i] by {
        lemma_remap_identity(d[i].1, m);
    }
    assert(remap_entries(d, m) =~= d);
}

/// The mapping that sends the identifier at position `i` of `ids` to the
/// number `first + i`, generation 0.
pub open spec fn numbering(ids: Seq<ObjectId>, first: int) -> Map<ObjectId, ObjectId> {
    Map::new(
        |id: ObjectId| ids.contains(id),
        |id: ObjectId| ObjectId { number: (first + rank(ids, id)) as u32, generation: 0 },
    )
}

/// A renumbering: the identifiers of an increasing list, each sent to the
/// number that its position gives from a first number on.
pub struct Numbering {
    ids: Vec<ObjectId>,
    first: u32,
}

impl Numbering {
    #[verifier::type_invariant]
    closed spec fn fits(&self) -> bool {
        increasing(self.ids@) && self.first + self.ids@.len() <= u32::MAX
    }

    /// The identifiers that the renumbering covers, in increasing order.
    pub closed spec fn ids(&self) -> Seq<ObjectId> {
        self.ids@
    }

    /// The number that the first identifier gets.
    pub closed spec fn first(&self) -> u32 {
        self.first
    }

    /// The renumbering that sends the identifier at position `i` of `ids` to
    /// the number `first + i`; `None` where `ids` is not increasing or the
    /// numbers from `first` on do not suffice.
    pub fn new(ids: Vec<ObjectId>, first: u32) -> (r: Option<Numbering>)
        ensures
            match r {
                Some(n) => increasing(ids@) && first + ids@.len() <= u32::MAX && n.ids() == ids@
                    && n.first() == first,
                None => !(increasing(ids@) && first + ids@.len() <= u32::MAX),
            },
    {
        if ids.len() > (u32::MAX - first) as usize {
            return None;
        }
        let mut i: usize = 1;
        while i < ids.len()
            invariant
                1 <= i,
                forall|a: int, b: int|
                    0 <= a < b < i && b < ids@.len() ==> (#[trigger] ids@[a]).key() < (
                    #[trigger] ids@[b]).key(),
            decreases ids.len() - i,
        {
            if !ids[i - 1].less_than(&ids[i]) {
                return None;
            }
            assert forall|a: int, b: int| 0 <= a < b < i + 1 implies (#[trigger] ids@[a]).key() < (
            #[trigger] ids@[b]).key() by {
                if b == i && a < i - 1 {
                    assert(ids@[a].key() < ids@[i - 1].key());
                }
            }
            i += 1;
        }
        Some(Numbering { ids, first })
    }

    /// The number of identifiers that the renumbering covers.
    pub fn len(&self) -> (n: usize)
        ensures
            n == self.ids().len(),
            increasing(self.ids()),
            self.first() + self.ids().len() <= u32::MAX,
    {
        proof {
            use_type_invariant(self);
        }
        self.ids.len()
    }

    /// The identifier at position `i`.
    pub fn id_at(&self, i: usize) -> (id: ObjectId)
        requires
            i < self.ids().len(),
        ensures
            id == self.ids()[i as int],
    {
        self.ids[i]
    }

    /// The new identifier of `id`, where the renumbering covers it.
    pub fn get(&self, id: ObjectId) -> (r: Option<ObjectId>)
        ensures
            r == if self@.contains_key(id) {
                Some(self@[id])
            } else {
                None::<ObjectId>
            },
            increasing(self.ids()),
            self.first() + self.ids().len() <= u32::MAX,
    {
        proof {
            use_type_invariant(self);
            lemma_rank_contains(self.ids@, id);
        }
        let i = find_rank(&self.ids, id);
        if i < self.ids.len() && self.ids[i] == id {
            Some(ObjectId { number: self.first + (i as u32), generation: 0 })
        } else {
            None
        }
    }
}

impl View for Numbering {
    type V = Map<ObjectId, ObjectId>;

    open spec fn view(&self) -> Map<ObjectId, ObjectId> {
        numbering(self.ids(), self.first() as int)
    }
}

/// Appends to `out` the targets of the references that occur in `o`.
pub fn collect_refs(o: &Object, out: &mut Vec<ObjectId>)
    ensures
        final(out)@ == old(out)@ + value_refs(o@),
    decreases o,
{
    match o {
        Object::Reference(id) => {
            out.push(*id);
            assert(out@ =~= old(out)@ + value_refs(o@));
        },
        Object::Array(items) => {
            let mut i: usize = 0;
            while i < items.len()
                invariant
                    i <= items.len(),
                    *o == Object::Array(*items),
                    out@ == old(out)@ + items_refs(o@->Array_0, i as nat),
                decreases items.len() - i,
            {
                assert(decreases_to!(o => o->Array_0));
                proof {
                    lemma_items_view(items@);
                }
                collect_refs(&items[i], out);
                i += 1;
                assert(out@ =~= old(out)@ + items_refs(o@->Array_0, i as nat));
            }
            proof {
                lemma_items_view(items@);
            }
        },
        Object::Dictionary(d) => {
            assert(decreases_to!(o => o->Dictionary_0));
            collect_dictionary_refs(d, out);
        },
        Object::Stream(s) => {
            assert(decreases_to!(o => o->Stream_0));
            assert(decreases_to!(s => s.dict));
            collect_dictionary_refs(&s.dict, out);
        },
        _ => {
            assert(out@ =~= old(out)@ + value_refs(o@));
        },
    }
}

/// Appends to `out` the targets of the references that occur in the values of `d`.
pub fn collect_dictionary_refs(d: &Dictionary, out: &mut Vec<ObjectId>)
    ensures
        final(out)@ == old(out)@ + value_refs(Value::Dictionary(d@)),
    decreases d,
{
    let n = d.len();
    let mut i: usize = 0;
    while i < n
        invariant
            i <= n,
            n == d@.len(),
            out@ == old(out)@ + entries_refs(d@, i as nat),
        decreases n - i,
    {
        let value = d.value_at(i);
        collect_refs(value, out);
        i += 1;
        assert(out@ =~= old(out)@ + entries_refs(d@, i as nat));
    }
}

/// A copy of `o` with every reference rewritten by `mapping`; references that
/// `mapping` does not cover keep their target.
pub fn remap(o: &Object, mapping: &Numbering) -> (r: Object)
    ensures
        r@ == remap_value(o@, mapping@),
    decreases o,
{
    match o {
        Object::Null => Object::Null,
        Object::Boolean(b) => Object::Boolean(*b),
        Object::Integer(i) => Object::Integer(*i),
        Object::Real(bits) => Object::Real(*bits),
        Object::Name(n) => Object::Name(copy_bytes(n.as_slice())),
        Object::String(s, f) => Object::String(copy_bytes(s.as_slice()), *f),
        Object::Reference(id) => match mapping.get(*id) {
            Some(new_id) => Object::Reference(new_id),
            None => Object::Reference(*id),
        },
        Object::Array(items) => {
            let mut out: Vec<Object> = Vec::new();
            let mut i: usize = 0;
            while i < items.len()
                invariant
                    i <= items.len(),
                    *o == Object::Array(*items),
                    out@.len() == i,
                    forall|k: int|
                        0 <= k < i ==> (#[trigger] out@[k])@ == remap_value(items@[k]@, mapping@),
                decreases items.len() - i,
            {
                assert(decreases_to!(o => o->Array_0));
                out.push(remap(&items[i], mapping));
                i += 1;
            }
            proof {
                lemma_items_view(items@);
                lemma_items_view(out@);
                assert(crate::object::items_view(out@) =~= remap_items(o@->Array_0, mapping@));
            }
            Object::Array(out)
        },
        Object::Dictionary(d) => {
            assert(decreases_to!(o => o->Dictionary_0));
            Object::Dictionary(remap_dictionary(d, mapping))
        },
        Object::Stream(s) => {
            assert(decreases_to!(o => o->Stream_0));
            assert(decreases_to!(s => s.dict));
            Object::Stream(
                Stream {
                    dict: remap_dictionary(&s.dict, mapping),
                    content: copy_bytes(s.content.as_slice()),
                    allows_compression: s.allows_compression,
                },
            )
        },
    }
}

/// A copy of `d` with every reference in its values rewritten by `mapping`.
pub fn remap_dictionary(d: &Dictionary, mapping: &Numbering) -> (r: Dictionary)
    ensures
        r@ == remap_entries(d@, mapping@),
    decreases d,
{
    let n = d.len();
    let mut values: Vec<Object> = Vec::new();
    let mut i: usize = 0;
    while i < n
        invariant
            i <= n,
            n == d@.len(),
            values@.len() == i,
            forall|k: int|
                0 <= k < i ==> (#[trigger] values@[k])@ == remap_value(d@[k].1, mapping@),
        decreases n - i,
    {
        let value = d.value_at(i);
        values.push(remap(value, mapping));
        i += 1;
    }
    let r = d.with_values(values);
    assert(r@ =~= remap_entries(d@, mapping@));
    r
}

} // verus!
