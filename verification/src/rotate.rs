//! Turning pages.

use vstd::prelude::*;
use vstd::arithmetic::div_mod::{
    lemma_add_mod_noop, lemma_fundamental_div_mod, lemma_fundamental_div_mod_converse,
};
use crate::document::{PdfDocument, DocumentModel, resolves, self_contained};
use crate::error::Error;
use crate::names::{COUNT, KIDS, PAGES, ROTATE, TYPE};
use crate::object::{
    dict_get, dict_set, Dictionary, DictModel, lemma_get_after_set, Object, ObjectId, Value,
};
use crate::pages::{
    count_holds, counts_hold, lemma_same_counts, lemma_same_pages, pages_of, same_node, same_trees,
};
use crate::table::{lemma_same_ids, lemma_slot_from, table_has, table_slot, TableModel};
use crate::walker::{lemma_set_adds_no_ref, value_refs};

verus! {

/// A rotation brought into `[0, 360)`.
pub open spec fn normalized(degrees: int) -> int {
    degrees % 360
}

/// The rotation that a page has after `delta` degrees are added to `current`.
pub open spec fn new_rotation(current: int, delta: int) -> int {
    (current + delta) % 360
}

/// The rotation that a page dictionary states; 0 where it states none.
pub open spec fn current_rotation(d: DictModel) -> int {
    match dict_get(d, ROTATE@) {
        Some(Value::Integer(r)) => r as int,
        _ => 0,
    }
}

/// The page dictionary `d` turned by `delta` degrees: its `Rotate` entry is
/// set, and no other entry is touched.
pub open spec fn rotated_dict(d: DictModel, delta: int) -> DictModel {
    dict_set(d, ROTATE@, Value::Integer(new_rotation(current_rotation(d), delta) as i64))
}

pub open spec fn rotated_value(v: Value, delta: int) -> Value {
    match v {
        Value::Dictionary(d) => Value::Dictionary(rotated_dict(d, delta)),
        other => other,
    }
}

/// Whether page `number` is among the pages to turn: all are where no subset
/// is given.
pub open spec fn in_scope(scope: Option<Seq<u32>>, number: int) -> bool {
    match scope {
        None => true,
        Some(s) => 0 <= number <= u32::MAX && s.contains(number as u32),
    }
}

/// The objects after the first `n` pages of `pages` have been dealt with, one
/// after the other: each page in scope is turned by `delta` degrees.
pub open spec fn rotated_objects(
    t: TableModel,
    pages: Seq<ObjectId>,
    scope: Option<Seq<u32>>,
    delta: int,
    n: nat,
) -> TableModel
    decreases n,
{
    if n == 0 || n > pages.len() {
        t
    } else {
        let before = rotated_objects(t, pages, scope, delta, (n - 1) as nat);
        let id = pages[n - 1];
        let slot = table_slot(before, id);
        if in_scope(scope, n as int) && table_has(before, id) {
            before.update(slot, (id, rotated_value(before[slot].1, delta)))
        } else {
            before
        }
    }
}

/// The document with its pages in scope turned by `degrees`: the document
/// itself where that is a multiple of a full turn.
pub open spec fn rotated(d: DocumentModel, scope: Option<Seq<u32>>, degrees: int) -> DocumentModel {
    if normalized(degrees) == 0 {
        d
    } else {
        DocumentModel {
            objects: rotated_objects(
                d.objects,
                pages_of(d),
                scope,
                normalized(degrees),
                pages_of(d).len(),
            ),
            ..d
        }
    }
}

/// The view of an optional list of page numbers.
pub open spec fn scope_view(pages: Option<Vec<u32>>) -> Option<Seq<u32>> {
    match pages {
        Some(list) => Some(list@),
        None => None,
    }
}

/// Brings a rotation into `[0, 360)`; `InvalidArgument` where it is no multiple
/// of 90 degrees.
pub fn normalize_rotation(degrees: i32) -> (r: Result<u16, Error>)
    ensures
        match r {
            Ok(n) => n == normalized(degrees as int) && n % 90 == 0,
            Err(e) => e == Error::InvalidArgument && normalized(degrees as int) % 90 != 0,
        },
{
    // 2147483880 is the least multiple of 360 above the magnitude of any i32.
    let shifted: i64 = degrees as i64 + 2147483880;
    let n: i64 = shifted % 360;
    if n % 90 != 0 {
        Err(Error::InvalidArgument)
    } else {
        Ok(n as u16)
    }
}

/// The rotation after `delta` degrees are added to `current`, in `[0, 360)`.
pub fn add_rotation(current: i64, delta: u16) -> (r: i64)
    ensures
        r == new_rotation(current as int, delta as int),
        0 <= r < 360,
{
    let base: i64 = if current >= 0 {
        current % 360
    } else {
        359 - ((-(current + 1)) % 360)
    };
    proof {
        if current < 0 {
            let n = -(current + 1);
            lemma_fundamental_div_mod(n, 360);
            lemma_fundamental_div_mod_converse(current as int, 360, -(n / 360) - 1, 359 - n % 360);
        }
        assert(base == (current as int) % 360);
        lemma_add_mod_noop(current as int, delta as int, 360);
    }
    (base + (delta % 360) as i64) % 360
}

fn lists(numbers: &Option<Vec<u32>>, number: usize) -> (r: bool)
    ensures
        r == in_scope(scope_view(*numbers), number as int),
{
    match numbers {
        None => true,
        Some(list) => {
            let mut k: usize = 0;
            while k < list.len()
                invariant
                    k <= list.len(),
                    scope_view(*numbers) == Some(list@),
                    forall|j: int| 0 <= j < k ==> list@[j] != number,
                decreases list.len() - k,
            {
                if list[k] as usize == number {
                    assert(list@[k as int] == number as u32);
                    return true;
                }
                k += 1;
            }
            false
        },
    }
}

/// The page dictionary turned by `delta` degrees.
pub fn rotate_page(page: Dictionary, delta: u16) -> (r: Dictionary)
    ensures
        r@ == rotated_dict(page@, delta as int),
{
    let mut page = page;
    let current: i64 = match page.get(&ROTATE) {
        Ok(Object::Integer(r)) => *r,
        _ => 0,
    };
    page.set(&ROTATE, Object::Integer(add_rotation(current, delta)));
    page
}

/// Turns pages by `degrees`: every page where `pages` is `None`, else the
/// pages whose 1-based numbers `pages` lists. A page's `Rotate` entry becomes
/// its former value, 0 where it had none, plus `degrees`, brought into
/// `[0, 360)`; nothing else changes.
///
/// `InvalidArgument`, with the document unchanged, where `degrees` is no
/// multiple of 90. `Ok(false)`, with the document unchanged, where `degrees`
/// is a multiple of 360; `Ok(true)` else.
pub fn rotate(doc: &mut PdfDocument, degrees: i32, pages: &Option<Vec<u32>>) -> (r: Result<
    bool,
    Error,
>)
    ensures
        match r {
            Ok(turned) => {
                &&& normalized(degrees as int) % 90 == 0
                &&& turned == (normalized(degrees as int) != 0)
                &&& final(doc)@ == rotated(old(doc)@, scope_view(*pages), degrees as int)
            },
            Err(e) => {
                &&& e == Error::InvalidArgument
                &&& normalized(degrees as int) % 90 != 0
                &&& final(doc)@ == old(doc)@
            },
        },
        self_contained(old(doc)@) ==> self_contained(final(doc)@),
        pages_of(final(doc)@) == pages_of(old(doc)@),
        count_holds(final(doc)@) == count_holds(old(doc)@),
        counts_hold(final(doc)@.objects) == counts_hold(old(doc)@.objects),
{
    proof {
        lemma_rotation_keeps_graph(
            doc@,
            pages_of(doc@),
            scope_view(*pages),
            normalized(degrees as int),
            pages_of(doc@).len(),
        );
    }
    let delta = match normalize_rotation(degrees) {
        Ok(delta) => delta,
        Err(e) => {
            return Err(e);
        },
    };
    if delta == 0 {
        return Ok(false);
    }
    let page_ids = doc.page_ids();
    let ghost t = doc@.objects;
    let ghost scope = scope_view(*pages);
    let mut k: usize = 0;
    while k < page_ids.len()
        invariant
            k <= page_ids.len(),
            0 < delta < 360,
            scope == scope_view(*pages),
            doc@.version == old(doc)@.version,
            doc@.trailer == old(doc)@.trailer,
            doc@.max_id == old(doc)@.max_id,
            doc@.objects == rotated_objects(t, page_ids@, scope, delta as int, k as nat),
        decreases page_ids.len() - k,
    {
        let id = page_ids[k];
        let ghost before = doc@.objects;
        if lists(pages, k + 1) {
            let i = doc.objects.slot_of(id);
            if i < doc.objects.len() && doc.objects.id_at(i) == id {
                let object = doc.objects.replace_at(i, Object::Null);
                let turned = match object {
                    Object::Dictionary(d) => Object::Dictionary(rotate_page(d, delta)),
                    other => other,
                };
                doc.objects.replace_at(i, turned);
                assert(doc@.objects =~= before.update(
                    i as int,
                    (id, rotated_value(before[i as int].1, delta as int)),
                ));
            }
        }
        k += 1;
    }
    Ok(true)
}

/// A turned value refers to nothing that the value did not refer to, and
/// stands for the same in a page tree.
pub proof fn lemma_rotated_value(v: Value, delta: int)
    ensures
        forall|r: ObjectId|
            value_refs(rotated_value(v, delta)).contains(r) ==> #[trigger] value_refs(v).contains(r),
        same_node(v, rotated_value(v, delta)),
{
    match v {
        Value::Dictionary(d) => {
            let angle = Value::Integer(new_rotation(current_rotation(d), delta) as i64);
            assert(ROTATE@.len() == 6 && TYPE@.len() == 4 && KIDS@.len() == 4 && PAGES@.len() == 5
                && COUNT@.len() == 5);
            lemma_get_after_set(d, ROTATE@, angle, TYPE@);
            lemma_get_after_set(d, ROTATE@, angle, KIDS@);
            lemma_get_after_set(d, ROTATE@, angle, PAGES@);
            lemma_get_after_set(d, ROTATE@, angle, COUNT@);
            assert(value_refs(angle) =~= Seq::<ObjectId>::empty());
            assert forall|r: ObjectId| value_refs(rotated_value(v, delta)).contains(r) implies #[trigger] value_refs(
                v,
            ).contains(r) by {
                lemma_set_adds_no_ref(d, ROTATE@, angle, r);
            }
        },
        _ => {},
    }
}

/// Turning pages keeps every object under its identifier, adds no reference,
/// and leaves the page trees as they are.
pub proof fn lemma_rotated_objects(
    t: TableModel,
    pages: Seq<ObjectId>,
    scope: Option<Seq<u32>>,
    delta: int,
    n: nat,
)
    ensures
        same_trees(t, rotated_objects(t, pages, scope, delta, n)),
        forall|i: int, r: ObjectId|
            0 <= i < t.len() && value_refs(
                (#[trigger] rotated_objects(t, pages, scope, delta, n)[i]).1,
            ).contains(r) ==> #[trigger] value_refs(t[i].1).contains(r),
    decreases n,
{
    if n == 0 || n > pages.len() {
    } else {
        let before = rotated_objects(t, pages, scope, delta, (n - 1) as nat);
        let after = rotated_objects(t, pages, scope, delta, n);
        lemma_rotated_objects(t, pages, scope, delta, (n - 1) as nat);
        let id = pages[n - 1];
        let slot = table_slot(before, id);
        lemma_slot_from(before, id, 0);
        if in_scope(scope, n as int) && table_has(before, id) {
            lemma_rotated_value(before[slot].1, delta);
            assert forall|i: int| 0 <= i < t.len() implies (#[trigger] t[i]).0 == after[i].0
                && same_node(t[i].1, after[i].1) by {
                assert(t[i].0 == before[i].0);
                assert(same_node(t[i].1, before[i].1));
                if i != slot {
                    assert(after[i] == before[i]);
                }
            }
            assert forall|i: int, r: ObjectId|
                0 <= i < t.len() && value_refs((#[trigger] after[i]).1).contains(
                    r,
                ) implies #[trigger] value_refs(t[i].1).contains(r) by {
                if i != slot {
                    assert(after[i] == before[i]);
                    assert(value_refs(before[i].1).contains(r));
                } else {
                    assert(value_refs(before[i].1).contains(r));
                }
            }
        }
    }
}

/// Turning pages lets no reference dangle that did not dangle before, and
/// leaves the pages of the document, their order and what the page tree nodes
/// count as they are.
pub proof fn lemma_rotation_keeps_graph(
    d: DocumentModel,
    pages: Seq<ObjectId>,
    scope: Option<Seq<u32>>,
    delta: int,
    n: nat,
)
    ensures
        self_contained(d) ==> self_contained(
            DocumentModel { objects: rotated_objects(d.objects, pages, scope, delta, n), ..d },
        ),
        pages_of(DocumentModel { objects: rotated_objects(d.objects, pages, scope, delta, n), ..d })
            == pages_of(d),
        count_holds(
            DocumentModel { objects: rotated_objects(d.objects, pages, scope, delta, n), ..d },
        ) == count_holds(d),
        counts_hold(rotated_objects(d.objects, pages, scope, delta, n)) == counts_hold(d.objects),
{
    let t = d.objects;
    let after = rotated_objects(t, pages, scope, delta, n);
    let out = DocumentModel { objects: after, ..d };
    lemma_rotated_objects(t, pages, scope, delta, n);
    lemma_same_pages(d, out);
    lemma_same_counts(t, after);
    if self_contained(d) {
        assert forall|k: int| 0 <= k < value_refs(Value::Dictionary(out.trailer)).len() implies table_has(
            after,
            #[trigger] value_refs(Value::Dictionary(out.trailer))[k],
        ) by {
            lemma_same_ids(t, after, value_refs(Value::Dictionary(d.trailer))[k], 0);
        }
        assert forall|i: int| 0 <= i < after.len() implies resolves(after, (#[trigger] after[i]).1) by {
            assert forall|k: int| 0 <= k < value_refs(after[i].1).len() implies table_has(
                after,
                #[trigger] value_refs(after[i].1)[k],
            ) by {
                let r = value_refs(after[i].1)[k];
                assert(value_refs(after[i].1).contains(r));
                assert(value_refs(t[i].1).contains(r));
                let j = choose|j: int| 0 <= j < value_refs(t[i].1).len() && value_refs(t[i].1)[j]
                    == r;
                assert(resolves(t, t[i].1));
                assert(table_has(t, value_refs(t[i].1)[j]));
                lemma_same_ids(t, after, r, 0);
            }
        }
    }
}

/// A turned page states the rotation that it had, plus what it was turned by.
pub proof fn lemma_rotation_after_turn(d: DictModel, delta: int)
    ensures
        current_rotation(rotated_dict(d, delta)) == new_rotation(current_rotation(d), delta),
{
    let angle = Value::Integer(new_rotation(current_rotation(d), delta) as i64);
    lemma_get_after_set(d, ROTATE@, angle, ROTATE@);
}

/// A quarter turn applied four times brings the rotation of a page back to
/// where it was, modulo 360.
pub proof fn lemma_four_quarter_turns(d: DictModel)
    ensures
        current_rotation(rotated_dict(rotated_dict(rotated_dict(rotated_dict(d, 90), 90), 90), 90))
            == normalized(current_rotation(d)),
{
    let once = rotated_dict(d, 90);
    let twice = rotated_dict(once, 90);
    let thrice = rotated_dict(twice, 90);
    lemma_rotation_after_turn(d, 90);
    lemma_rotation_after_turn(once, 90);
    lemma_rotation_after_turn(twice, 90);
    lemma_rotation_after_turn(thrice, 90);
}

} // verus!
