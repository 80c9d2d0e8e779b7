//! Renumbering the objects of a document.

use vstd::prelude::*;
use crate::document::{PdfDocument, DocumentModel, resolves, self_contained};
use crate::error::Error;
use crate::ids::{increasing, lemma_rank_contains, rank};
use crate::object::{ObjectId, Value};
use crate::table::{
    ascending, lemma_slot_from, lemma_table_has, ObjectTable, table_has, table_ids, table_slot,
    TableModel,
};
use crate::walker::{
    lemma_remap_identity, lemma_remap_identity_entries, lemma_remap_refs, numbering, Numbering,
    remap, remap_dictionary, remap_entries, remap_id, remap_value, value_refs,
};

verus! {

/// The identifier that renumbering from `start` gives to the object at
/// position `i`.
pub open spec fn renumbered_id(start: int, i: int) -> ObjectId {
    ObjectId { number: (start + i) as u32, generation: 0 }
}

/// The objects of `t` under contiguous numbers from `start` on, generation 0,
/// in their order, with every reference rewritten to follow.
pub open spec fn renumbered_objects(t: TableModel, start: int) -> TableModel {
    Seq::new(
        t.len(),
        |i: int| (renumbered_id(start, i), remap_value(t[i].1, numbering(table_ids(t), start))),
    )
}

/// The document after renumbering from `start`.
pub open spec fn renumbered(d: DocumentModel, start: u32) -> DocumentModel {
    DocumentModel {
        version: d.version,
        trailer: remap_entries(d.trailer, numbering(table_ids(d.objects), start as int)),
        objects: renumbered_objects(d.objects, start as int),
        max_id: if start + d.objects.len() == 0 {
            0
        } else {
            (start + d.objects.len() - 1) as u32
        },
    }
}

/// The identifiers of an ascending table are an increasing list, in which each
/// stands at its slot.
pub proof fn lemma_table_ids(t: TableModel, id: ObjectId)
    requires
        ascending(t),
    ensures
        increasing(table_ids(t)),
        table_ids(t).contains(id) == table_has(t, id),
        table_has(t, id) ==> rank(table_ids(t), id) == table_slot(t, id),
{
    let ids = table_ids(t);
    assert forall|a: int, b: int| 0 <= a < b < ids.len() implies (#[trigger] ids[a]).key() < (
    #[trigger] ids[b]).key() by {
        assert(t[a].0.key() < t[b].0.key());
    }
    lemma_table_has(t, id);
    lemma_slot_from(t, id, 0);
    lemma_rank_contains(ids, id);
    if table_has(t, id) {
        let s = table_slot(t, id);
        assert(ids[s] == id);
    }
    if ids.contains(id) {
        let k = choose|k: int| 0 <= k < ids.len() && ids[k] == id;
        assert(t[k].0 == id);
    }
}

/// The mapping of a renumbering sends different identifiers to different
/// identifiers.
pub proof fn lemma_renumbering_injective(t: TableModel, start: int, a: ObjectId, b: ObjectId)
    requires
        ascending(t),
        0 <= start,
        start + t.len() <= u32::MAX,
        table_has(t, a),
        table_has(t, b),
        a != b,
    ensures
        numbering(table_ids(t), start)[a] != numbering(table_ids(t), start)[b],
{
    lemma_table_ids(t, a);
    lemma_table_ids(t, b);
    lemma_slot_from(t, a, 0);
    lemma_slot_from(t, b, 0);
}

/// After renumbering, an identifier leads to an object exactly where it is
/// one of the new numbers; and every reference that led to an object leads
/// to that object under its new identifier.
pub proof fn lemma_renumbered_has(t: TableModel, start: int, id: ObjectId)
    requires
        ascending(t),
        0 <= start,
        start + t.len() <= u32::MAX,
    ensures
        ascending(renumbered_objects(t, start)),
        table_has(renumbered_objects(t, start), id) <==> (id.generation == 0 && start <= id.number
            < start + t.len()),
        table_has(t, id) ==> table_has(
            renumbered_objects(t, start),
            remap_id(id, numbering(table_ids(t), start)),
        ),
{
    let r = renumbered_objects(t, start);
    assert forall|a: int, b: int| 0 <= a < b < r.len() implies (#[trigger] r[a]).0.key() < (
    #[trigger] r[b]).0.key() by {}
    lemma_table_has(r, id);
    if id.generation == 0 && start <= id.number < start + t.len() {
        assert(r[id.number - start].0 == id);
    }
    if table_has(r, id) {
        let k = choose|k: int| 0 <= k < r.len() && (#[trigger] r[k]).0 == id;
        assert(r[k].0 == renumbered_id(start, k));
    }
    if table_has(t, id) {
        lemma_table_ids(t, id);
        lemma_slot_from(t, id, 0);
        let s = table_slot(t, id);
        let moved = remap_id(id, numbering(table_ids(t), start));
        assert(moved == renumbered_id(start, s));
        lemma_table_has(r, moved);
        assert(r[s].0 == moved);
    }
}

/// Renumbering lets no reference dangle that did not dangle before.
pub proof fn lemma_renumbered_self_contained(d: DocumentModel, start: u32)
    requires
        ascending(d.objects),
        start + d.objects.len() <= u32::MAX,
        self_contained(d),
    ensures
        self_contained(renumbered(d, start)),
{
    let t = d.objects;
    let m = numbering(table_ids(t), start as int);
    let out = renumbered(d, start);
    let r = out.objects;
    assert forall|v: Value| resolves(t, v) implies #[trigger] resolves(r, remap_value(v, m)) by {
        lemma_remap_refs(v, m);
        assert forall|k: int| 0 <= k < value_refs(remap_value(v, m)).len() implies table_has(
            r,
            #[trigger] value_refs(remap_value(v, m))[k],
        ) by {
            let target = value_refs(v)[k];
            assert(table_has(t, target));
            lemma_renumbered_has(t, start as int, target);
        }
    }
    assert(remap_value(Value::Dictionary(d.trailer), m) == Value::Dictionary(out.trailer));
    assert(resolves(t, Value::Dictionary(d.trailer)));
    assert forall|i: int| 0 <= i < r.len() implies resolves(r, (#[trigger] r[i]).1) by {
        assert(resolves(t, t[i].1));
    }
}

/// Renumbering a document that has just been renumbered, from the same
/// number, changes nothing.
pub proof fn lemma_renumber_idempotent(d: DocumentModel, start: u32)
    requires
        start + d.objects.len() <= u32::MAX,
    ensures
        renumbered(renumbered(d, start), start) == renumbered(d, start),
{
    let once = renumbered(d, start);
    let t = once.objects;
    let ids = table_ids(t);
    let m = numbering(ids, start as int);
    assert forall|a: int, b: int| 0 <= a < b < ids.len() implies (#[trigger] ids[a]).key() < (
    #[trigger] ids[b]).key() by {}
    assert forall|id: ObjectId| #[trigger] remap_id(id, m) == id by {
        lemma_rank_contains(ids, id);
        if ids.contains(id) {
            let k = rank(ids, id);
            assert(ids[k] == renumbered_id(start as int, k));
        }
    }
    lemma_remap_identity_entries(once.trailer, m);
    let twice = renumbered(once, start);
    assert forall|i: int| 0 <= i < t.len() implies twice.objects[i] == t[i] by {
        lemma_remap_identity(t[i].1, m);
    }
    assert(twice.objects =~= t);
}

/// Gives every object of the document a new, contiguous number from `start`
/// on, in the order of the old identifiers and with generation 0, and rewrites
/// every reference, in the objects and in the trailer, to follow. Hands back
/// the next free number and the mapping from old to new identifiers.
///
/// `TooManyObjects`, with the document unchanged, where the numbers from
/// `start` on do not suffice.
pub fn renumber(doc: &mut PdfDocument, start: u32) -> (r: Result<(u32, Numbering), Error>)
    ensures
        match r {
            Ok((next, mapping)) => {
                &&& start + old(doc)@.objects.len() <= u32::MAX
                &&& next == start + old(doc)@.objects.len()
                &&& mapping.ids() == table_ids(old(doc)@.objects)
                &&& mapping.first() == start
                &&& final(doc)@ == renumbered(old(doc)@, start)
                &&& self_contained(old(doc)@) ==> self_contained(final(doc)@)
            },
            Err(e) => {
                &&& e == Error::TooManyObjects
                &&& start + old(doc)@.objects.len() > u32::MAX
                &&& final(doc)@ == old(doc)@
            },
        },
{
    let n = doc.objects.len();
    if n > (u32::MAX - start) as usize {
        return Err(Error::TooManyObjects);
    }
    let ghost t = doc@.objects;
    proof {
        if self_contained(doc@) {
            lemma_renumbered_self_contained(doc@, start);
        }
    }
    let mut ids: Vec<ObjectId> = Vec::new();
    let mut i: usize = 0;
    while i < n
        invariant
            i <= n,
            n == t.len(),
            t == doc@.objects,
            ascending(t),
            ids@ == table_ids(t).subrange(0, i as int),
        decreases n - i,
    {
        ids.push(doc.objects.id_at(i));
        assert(ids@ =~= table_ids(t).subrange(0, i + 1));
        i += 1;
    }
    assert(ids@ =~= table_ids(t));
    assert(increasing(ids@)) by {
        assert forall|a: int, b: int| 0 <= a < b < ids@.len() implies (#[trigger] ids@[a]).key() < (
        #[trigger] ids@[b]).key() by {
            assert(t[a].0.key() < t[b].0.key());
        }
    }
    let mapping = match Numbering::new(ids, start) {
        Some(mapping) => mapping,
        None => {
            return Err(Error::TooManyObjects);
        },
    };
    let mut objects = ObjectTable::new();
    let mut i: usize = 0;
    while i < n
        invariant
            i <= n,
            n == t.len(),
            t == doc@.objects,
            start + n <= u32::MAX,
            mapping@ == numbering(table_ids(t), start as int),
            objects@ == renumbered_objects(t, start as int).subrange(0, i as int),
        decreases n - i,
    {
        let object = remap(doc.objects.object_at(i), &mapping);
        let id = ObjectId { number: start + (i as u32), generation: 0 };
        proof {
            if i > 0 {
                assert(objects@.last() == renumbered_objects(t, start as int)[i - 1]);
            }
        }
        objects.push(id, object);
        assert(objects@ =~= renumbered_objects(t, start as int).subrange(0, i + 1));
        i += 1;
    }
    assert(objects@ =~= renumbered_objects(t, start as int));
    let trailer = remap_dictionary(&doc.trailer, &mapping);
    doc.trailer = trailer;
    doc.objects = objects;
    doc.max_id = if n == 0 && start == 0 {
        0
    } else {
        start + (n as u32) - 1
    };
    Ok((start + (n as u32), mapping))
}

} // verus!
