//! What a part keeps of the page trees of its document.

use vstd::prelude::*;
use crate::closure::{lemma_step_reachable, refers};
use crate::document::DocumentModel;
use crate::ids::{lemma_rank_contains, rank};
use crate::names::{CATALOG, COUNT, KIDS, PAGE, PAGES, PARENT, TYPE};
use crate::object::{
    dict_find, dict_get, dict_type, find_from, lemma_find_from, lemma_get_after_set, ObjectId,
    Value,
};
use crate::pages::{
    count_entry, counts_hold, counts_pages, counts_within, is_node, kid_ids, lemma_same_counts,
    Node, node_at, node_of, same_node, walk, walk_ends,
};
use crate::split::{
    catalog_node, closure_of, copy_id, copy_of, downward, downward_document, is_closure,
    extracted, lemma_downward, lemma_extracted_objects, lemma_extracted_pages, split_page,
    tree_id, tree_node,
};
use crate::table::{
    ascending, lemma_same_ids, lemma_slot_from, lemma_table_has, table_get, table_has,
    table_slot,
};
use crate::walker::{
    items_refs, lemma_entry_refs, lemma_remap_get, lemma_remap_type, numbering, remap_entries,
    remap_id, remap_ids, remap_items, remap_value, value_refs,
};

verus! {

/// The kids that a remapped list names are the remapped kids of the list.
pub proof fn lemma_kids_remapped(kids: Seq<Value>, m: Map<ObjectId, ObjectId>, from: int)
    requires
        0 <= from <= kids.len(),
    ensures
        kid_ids(remap_items(kids, m), from) == remap_ids(kid_ids(kids, from), m),
    decreases kids.len() - from,
{
    if from < kids.len() {
        lemma_kids_remapped(kids, m, from + 1);
        assert(kid_ids(remap_items(kids, m), from) =~= remap_ids(kid_ids(kids, from), m));
    } else {
        assert(kid_ids(remap_items(kids, m), from) =~= remap_ids(kid_ids(kids, from), m));
    }
}

/// A reference in one of the first `n` values is among their references.
pub proof fn lemma_item_refs(items: Seq<Value>, n: nat, i: int, r: ObjectId)
    requires
        0 <= i < n <= items.len(),
        value_refs(items[i]).contains(r),
    ensures
        items_refs(items, n).contains(r),
    decreases n,
{
    let head = items_refs(items, (n - 1) as nat);
    let last = value_refs(items[n - 1]);
    if i == n - 1 {
        let k = choose|k: int| 0 <= k < last.len() && last[k] == r;
        assert(items_refs(items, n)[head.len() + k] == r);
    } else {
        lemma_item_refs(items, (n - 1) as nat, i, r);
        let k = choose|k: int| 0 <= k < head.len() && head[k] == r;
        assert(items_refs(items, n)[k] == r);
    }
}

/// Every kid that a list names is among the references of the list.
pub proof fn lemma_kids_referred(kids: Seq<Value>, from: int, x: ObjectId)
    requires
        0 <= from <= kids.len(),
        kid_ids(kids, from).contains(x),
    ensures
        items_refs(kids, kids.len()).contains(x),
    decreases kids.len() - from,
{
    if from < kids.len() {
        let head = match kids[from] {
            Value::Reference(id) => seq![id],
            _ => Seq::empty(),
        };
        let k = choose|k: int| 0 <= k < kid_ids(kids, from).len() && kid_ids(kids, from)[k] == x;
        if k < head.len() {
            assert(kids[from] == Value::Reference(x));
            assert(value_refs(kids[from])[0] == x);
            lemma_item_refs(kids, kids.len(), from, x);
        } else {
            assert(kid_ids(kids, from + 1)[k - head.len()] == x);
            lemma_kids_referred(kids, from + 1, x);
        }
    }
}

/// A node of a page tree with its kids under the identifiers that `m` gives.
pub open spec fn moved_node(n: Node, m: Map<ObjectId, ObjectId>) -> Node {
    match n {
        Node::Inner(kids) => Node::Inner(remap_ids(kids, m)),
        other => other,
    }
}

/// What the copy of a member stands for in the page trees of an extracted
/// document: what the member stands for in the source, with its kids under
/// their new identifiers. The kids are members too, and the copy of a page
/// tree node has the `Count` entry of the node.
pub proof fn lemma_copied_node(
    d: DocumentModel,
    page: ObjectId,
    members: Seq<ObjectId>,
    id: ObjectId,
)
    requires
        is_closure(d.objects, seq![page], members),
        members.len() + 2 <= u32::MAX,
        node_at(d.objects, page) is Leaf,
        members.contains(id),
    ensures
        remap_id(id, numbering(members, 2)) == copy_id(rank(members, id)),
        node_at(extracted(d, page, members).objects, copy_id(rank(members, id))) == moved_node(
            node_at(d.objects, id),
            numbering(members, 2),
        ),
        node_at(d.objects, id) matches Node::Inner(kids) ==> {
            &&& forall|k: int| 0 <= k < kids.len() ==> members.contains(#[trigger] kids[k])
            &&& table_has(d.objects, id)
            &&& table_has(extracted(d, page, members).objects, copy_id(rank(members, id)))
            &&& count_entry(
                table_get(extracted(d, page, members).objects, copy_id(rank(members, id)))->Some_0,
            ) == match count_entry(table_get(d.objects, id)->Some_0) {
                Some(c) => Some(remap_value(c, numbering(members, 2))),
                None => None,
            }
        },
{
    let t = d.objects;
    let o = extracted(d, page, members).objects;
    let mp = numbering(members, 2);
    let i = rank(members, id);
    lemma_rank_contains(members, id);
    lemma_extracted_objects(d, page, members);
    assert(mp.contains_key(id));
    assert(remap_id(id, mp) == copy_id(i));
    assert(PAGE@.len() == 4 && PAGES@.len() == 5 && TYPE@.len() == 4 && PARENT@.len() == 6
        && KIDS@.len() == 4 && COUNT@.len() == 5);
    assert(table_get(o, copy_id(i)) == if table_has(t, members[i]) {
        Some(copy_of(t, members, page, members[i]))
    } else {
        None
    });
    if table_has(t, id) {
        let v = table_get(t, id).unwrap();
        let moved = remap_value(v, mp);
        let copy = copy_of(t, members, page, id);
        lemma_remap_type(v, mp);
        match v {
            Value::Dictionary(dd) => {
                let rd = remap_entries(dd, mp);
                lemma_remap_get(dd, mp, KIDS@);
                lemma_remap_get(dd, mp, COUNT@);
                if id == page {
                    lemma_get_after_set(rd, PARENT@, Value::Reference(tree_id()), TYPE@);
                } else {
                    assert(copy == moved);
                    match dict_get(dd, KIDS@) {
                        Some(Value::Array(ks)) => {
                            lemma_kids_remapped(ks, mp, 0);
                        },
                        _ => {
                            assert(remap_ids(Seq::<ObjectId>::empty(), mp) =~= Seq::<
                                ObjectId,
                            >::empty());
                        },
                    }
                }
                if dict_type(dd) == Some(PAGES@) {
                    match dict_get(dd, KIDS@) {
                        Some(Value::Array(ks)) => {
                            let kids = kid_ids(ks, 0);
                            lemma_find_from(dd, KIDS@, 0);
                            let j = dict_find(dd, KIDS@);
                            assert(dd[j].1 == Value::Array(ks));
                            assert forall|k: int| 0 <= k < kids.len() implies members.contains(
                                #[trigger] kids[k],
                            ) by {
                                let x = kids[k];
                                lemma_kids_referred(ks, 0, x);
                                assert(value_refs(dd[j].1).contains(x));
                                lemma_entry_refs(dd, dd.len(), j, x);
                                assert(refers(t, id, x));
                                lemma_step_reachable(t, seq![page], id, x);
                            }
                        },
                        _ => {},
                    }
                }
            },
            _ => {},
        }
    }
}

/// A walk in an extracted document from the copies of members meets the
/// copies of the pages that the walk from the members meets in the source.
pub proof fn lemma_copied_walk(
    d: DocumentModel,
    page: ObjectId,
    members: Seq<ObjectId>,
    pending: Seq<ObjectId>,
    budget: nat,
)
    requires
        is_closure(d.objects, seq![page], members),
        members.len() + 2 <= u32::MAX,
        node_at(d.objects, page) is Leaf,
        forall|k: int| 0 <= k < pending.len() ==> members.contains(#[trigger] pending[k]),
    ensures
        walk(
            extracted(d, page, members).objects,
            remap_ids(pending, numbering(members, 2)),
            budget,
        ) == remap_ids(walk(d.objects, pending, budget), numbering(members, 2)),
        walk_ends(
            extracted(d, page, members).objects,
            remap_ids(pending, numbering(members, 2)),
            budget,
        ) == walk_ends(d.objects, pending, budget),
    decreases budget,
{
    let t = d.objects;
    let o = extracted(d, page, members).objects;
    let mp = numbering(members, 2);
    let moved = remap_ids(pending, mp);
    if budget > 0 && pending.len() > 0 {
        let rest = pending.subrange(1, pending.len() as int);
        let id = pending[0];
        assert(members.contains(id));
        lemma_copied_node(d, page, members, id);
        assert(moved[0] == copy_id(rank(members, id)));
        assert(moved.subrange(1, moved.len() as int) =~= remap_ids(rest, mp));
        assert forall|k: int| 0 <= k < rest.len() implies members.contains(#[trigger] rest[k]) by {
            assert(rest[k] == pending[k + 1]);
        }
        match node_at(t, id) {
            Node::Leaf => {
                lemma_copied_walk(d, page, members, rest, (budget - 1) as nat);
                assert(remap_ids(seq![id] + walk(t, rest, (budget - 1) as nat), mp) =~= seq![
                    moved[0],
                ] + remap_ids(walk(t, rest, (budget - 1) as nat), mp));
            },
            Node::Inner(kids) => {
                let next = kids + rest;
                assert forall|k: int| 0 <= k < next.len() implies members.contains(
                    #[trigger] next[k],
                ) by {
                    if k < kids.len() {
                        assert(next[k] == kids[k]);
                    } else {
                        assert(next[k] == rest[k - kids.len()]);
                    }
                }
                lemma_copied_walk(d, page, members, next, (budget - 1) as nat);
                assert(remap_ids(next, mp) =~= remap_ids(kids, mp) + remap_ids(rest, mp));
            },
            Node::Other => {
                lemma_copied_walk(d, page, members, rest, (budget - 1) as nat);
            },
        }
    } else {
        assert(remap_ids(Seq::<ObjectId>::empty(), mp) =~= Seq::<ObjectId>::empty());
        assert(moved.len() == pending.len());
    }
}

/// Every page tree node of a part counts the pages below it, where every
/// page tree node of the document does.
pub proof fn lemma_part_counts_at_every_node(d: DocumentModel, page: ObjectId)
    requires
        ascending(d.objects),
        node_at(d.objects, page) is Leaf,
        is_closure(
            downward(d.objects),
            seq![page],
            closure_of(downward(d.objects), seq![page]),
        ),
        closure_of(downward(d.objects), seq![page]).len() + 2 <= u32::MAX,
        counts_hold(d.objects),
    ensures
        counts_hold(split_page(d, page).objects),
{
    let g = downward_document(d);
    let t = g.objects;
    let members = closure_of(t, seq![page]);
    let mp = numbering(members, 2);
    let o = split_page(d, page).objects;
    lemma_downward(d);
    lemma_same_counts(d.objects, t);
    lemma_same_ids(d.objects, t, page, 0);
    lemma_slot_from(d.objects, page, 0);
    assert(same_node(
        d.objects[table_slot(d.objects, page)].1,
        t[table_slot(d.objects, page)].1,
    ));
    assert(node_at(t, page) is Leaf);
    lemma_extracted_objects(g, page, members);
    lemma_extracted_pages(g, page, members);
    assert(PAGE@.len() == 4 && PAGES@.len() == 5 && CATALOG@.len() == 7);
    reveal_with_fuel(find_from, 3);
    assert(dict_type(catalog_node(tree_id())) == Some(CATALOG@));
    assert forall|i: int| 0 <= i < o.len() && is_node((#[trigger] o[i]).1, PAGES@) implies counts_pages(
        o,
        i,
    ) by {
        let e = o[i];
        lemma_table_has(o, e.0);
        assert(table_slot(o, e.0) == i);
        assert(table_get(o, e.0) == Some(e.1));
        if e == (tree_id(), Value::Dictionary(tree_node(copy_id(rank(members, page))))) {
            assert(counts_within(o, i, o.len()));
        } else if e == (copy_id(members.len() as int), Value::Dictionary(catalog_node(tree_id()))) {
        } else {
            let x = e.0.number - 2;
            let m = members[x];
            assert(e.0 == copy_id(x));
            assert(members.contains(m));
            lemma_rank_contains(members, m);
            lemma_copied_node(g, page, members, m);
            assert(node_at(o, e.0) == node_of(e.1));
            assert(node_of(e.1) is Inner);
            assert(node_at(t, m) is Inner);
            lemma_slot_from(t, m, 0);
            let sm = table_slot(t, m);
            assert(t[sm].0 == m);
            assert(is_node(t[sm].1, PAGES@));
            assert(counts_pages(t, sm));
            let budget = choose|budget: nat| counts_within(t, sm, budget);
            lemma_copied_walk(g, page, members, seq![m], budget);
            assert(remap_ids(seq![m], mp) =~= seq![e.0]);
            assert(counts_within(o, i, budget));
        }
    }
}

} // verus!
