//! Splitting a document into its pages.

use vstd::prelude::*;
use crate::closure::{closure, lemma_root_reachable, lemma_step_reachable, reachable, refers};
use crate::document::{PdfDocument, DocumentModel, resolves, root_of, self_contained};
use crate::error::Error;
use crate::ids::{increasing, lemma_increasing_unique, lemma_rank_contains, rank};
use crate::names::{CATALOG, COUNT, KIDS, PAGE, PAGES, PARENT, ROOT, TYPE};
use crate::object::{
    dict_get, dict_remove, dict_set, dict_type, Dictionary, DictModel, find_from, lemma_find_from,
    lemma_get_after_remove, lemma_get_after_set, Object, ObjectId, Value,
};
use crate::pages::{
    catalog_holds, count_holds, counts_hold, is_node, kid_ids, lemma_one_tree_counts,
    lemma_pages_are_leaves, lemma_same_pages, Node, node_at, page_root, pages_of, parents_hold,
    same_node, same_trees, walk, walk_ends,
};
use crate::split_laws::lemma_part_counts_at_every_node;
use crate::table::{
    ascending, lemma_same_ids, lemma_slot_from, lemma_table_has, ObjectTable, table_get, table_has,
    table_slot, TableModel,
};
use crate::walker::{
    entries_refs, lemma_entry_refs, lemma_refs_in_entries, lemma_remap_get, lemma_remap_refs,
    lemma_remap_type, lemma_remove_adds_no_ref, numbering, Numbering, remap, remap_entries,
    remap_id, remap_ids, remap_value, value_refs,
};

verus! {

/// `members` holds, in increasing order, exactly what is reachable from `roots`.
pub open spec fn is_closure(t: TableModel, roots: Seq<ObjectId>, members: Seq<ObjectId>) -> bool {
    increasing(members) && forall|id: ObjectId| #[trigger]
        members.contains(id) <==> reachable(t, roots, id)
}

/// The identifiers reachable from `roots`, in increasing order.
pub open spec fn closure_of(t: TableModel, roots: Seq<ObjectId>) -> Seq<ObjectId> {
    choose|members: Seq<ObjectId>| is_closure(t, roots, members)
}

/// A sequence that is a closure is the closure.
pub proof fn lemma_closure_of(t: TableModel, roots: Seq<ObjectId>, members: Seq<ObjectId>)
    requires
        is_closure(t, roots, members),
    ensures
        closure_of(t, roots) == members,
{
    let chosen = closure_of(t, roots);
    assert(is_closure(t, roots, chosen));
    assert forall|x: ObjectId| chosen.contains(x) <==> members.contains(x) by {
        assert(chosen.contains(x) <==> reachable(t, roots, x));
        assert(members.contains(x) <==> reachable(t, roots, x));
    }
    lemma_increasing_unique(chosen, members);
}

/// The identifier of the page tree root of an extracted page.
pub open spec fn tree_id() -> ObjectId {
    ObjectId { number: 1, generation: 0 }
}

/// The identifier that the member at position `i` gets.
pub open spec fn copy_id(i: int) -> ObjectId {
    ObjectId { number: (i + 2) as u32, generation: 0 }
}

/// The page tree root of a document of one page.
pub open spec fn tree_node(page: ObjectId) -> DictModel {
    seq![
        (TYPE@, Value::Name(PAGES@)),
        (KIDS@, Value::Array(seq![Value::Reference(page)])),
        (COUNT@, Value::Integer(1)),
    ]
}

/// The catalog of a document whose page tree root is `tree`.
pub open spec fn catalog_node(tree: ObjectId) -> DictModel {
    seq![(TYPE@, Value::Name(CATALOG@)), (PAGES@, Value::Reference(tree))]
}

/// `v` with its `Parent` entry set to refer to `parent`, where it is a dictionary.
pub open spec fn reparented(v: Value, parent: ObjectId) -> Value {
    match v {
        Value::Dictionary(d) => Value::Dictionary(dict_set(d, PARENT@, Value::Reference(parent))),
        other => other,
    }
}

/// The copy of the member `m`: every reference rewritten to the new
/// identifiers, and the page itself hung under the new page tree root.
pub open spec fn copy_of(t: TableModel, members: Seq<ObjectId>, page: ObjectId, m: ObjectId) -> Value {
    let v = remap_value(table_get(t, m).unwrap(), numbering(members, 2));
    if m == page {
        reparented(v, tree_id())
    } else {
        v
    }
}

/// The copies of those among the first `n` members that the table holds, each
/// under its new identifier.
pub open spec fn copies(t: TableModel, members: Seq<ObjectId>, page: ObjectId, n: nat) -> TableModel
    decreases n,
{
    if n == 0 || n > members.len() {
        Seq::empty()
    } else {
        let before = copies(t, members, page, (n - 1) as nat);
        if table_has(t, members[n - 1]) {
            before.push((copy_id(n - 1), copy_of(t, members, page, members[n - 1])))
        } else {
            before
        }
    }
}

/// The document that holds the page `page` of `d` alone: a new page tree
/// root, the copies of what `members` names, and a new catalog.
pub open spec fn extracted(d: DocumentModel, page: ObjectId, members: Seq<ObjectId>) -> DocumentModel {
    let catalog = copy_id(members.len() as int);
    DocumentModel {
        version: d.version,
        trailer: seq![(ROOT@, Value::Reference(catalog))],
        objects: seq![(tree_id(), Value::Dictionary(tree_node(copy_id(rank(members, page)))))]
            + copies(d.objects, members, page, members.len()) + seq![
            (catalog, Value::Dictionary(catalog_node(tree_id()))),
        ],
        max_id: (members.len() + 2) as u32,
    }
}

/// What the copies are: each stands under the new identifier of a member that
/// the table holds, and every such member has its copy.
proof fn lemma_copies(t: TableModel, members: Seq<ObjectId>, page: ObjectId, n: nat)
    requires
        n <= members.len(),
        members.len() + 2 <= u32::MAX,
    ensures
        copies(t, members, page, n).len() <= n,
        forall|k: int|
            0 <= k < copies(t, members, page, n).len() ==> {
                let e = #[trigger] copies(t, members, page, n)[k];
                let i = e.0.number - 2;
                &&& e.0.generation == 0
                &&& 0 <= i < n
                &&& table_has(t, members[i])
                &&& e.1 == copy_of(t, members, page, members[i])
            },
        forall|i: int|
            0 <= i < n && table_has(t, #[trigger] members[i]) ==> exists|k: int|
                0 <= k < copies(t, members, page, n).len() && (#[trigger] copies(
                    t,
                    members,
                    page,
                    n,
                )[k]).0 == copy_id(i),
        forall|a: int, b: int|
            0 <= a < b < copies(t, members, page, n).len() ==> (#[trigger] copies(
                t,
                members,
                page,
                n,
            )[a]).0.number < (#[trigger] copies(t, members, page, n)[b]).0.number,
    decreases n,
{
    if n > 0 {
        lemma_copies(t, members, page, (n - 1) as nat);
        let before = copies(t, members, page, (n - 1) as nat);
        let c = copies(t, members, page, n);
        if table_has(t, members[n - 1]) {
            assert forall|k: int| 0 <= k < c.len() implies {
                let e = #[trigger] c[k];
                let i = e.0.number - 2;
                &&& e.0.generation == 0
                &&& 0 <= i < n
                &&& table_has(t, members[i])
                &&& e.1 == copy_of(t, members, page, members[i])
            } by {
                if k < before.len() {
                    assert(c[k] == before[k]);
                }
            }
            assert forall|i: int| 0 <= i < n && table_has(t, #[trigger] members[i]) implies exists|
                k: int,
            |
                0 <= k < c.len() && (#[trigger] c[k]).0 == copy_id(i) by {
                if i < n - 1 {
                    let k = choose|k: int| 0 <= k < before.len() && (#[trigger] before[k]).0
                        == copy_id(i);
                    assert(c[k].0 == copy_id(i));
                } else {
                    assert(c[c.len() - 1].0 == copy_id(i));
                }
            }
            assert forall|a: int, b: int| 0 <= a < b < c.len() implies (#[trigger] c[a]).0.number
                < (#[trigger] c[b]).0.number by {
                assert(c[a] == before[a]);
                if b < before.len() {
                    assert(c[b] == before[b]);
                }
            }
        } else {
            assert forall|i: int| 0 <= i < n && table_has(t, #[trigger] members[i]) implies exists|
                k: int,
            |
                0 <= k < c.len() && (#[trigger] c[k]).0 == copy_id(i) by {
                let k = choose|k: int| 0 <= k < before.len() && (#[trigger] before[k]).0
                    == copy_id(i);
                assert(c[k].0 == copy_id(i));
            }
        }
    }
}

/// What an extracted document holds: the new page tree root, the new catalog,
/// and under the new identifier of each member that the source holds, its copy.
pub proof fn lemma_extracted_objects(d: DocumentModel, page: ObjectId, members: Seq<ObjectId>)
    requires
        members.len() + 2 <= u32::MAX,
    ensures
        ascending(extracted(d, page, members).objects),
        table_get(extracted(d, page, members).objects, tree_id()) == Some(
            Value::Dictionary(tree_node(copy_id(rank(members, page)))),
        ),
        table_get(extracted(d, page, members).objects, copy_id(members.len() as int)) == Some(
            Value::Dictionary(catalog_node(tree_id())),
        ),
        forall|i: int|
            0 <= i < members.len() ==> #[trigger] table_get(
                extracted(d, page, members).objects,
                copy_id(i),
            ) == if table_has(d.objects, members[i]) {
                Some(copy_of(d.objects, members, page, members[i]))
            } else {
                None
            },
        forall|id: ObjectId| #[trigger]
            table_has(extracted(d, page, members).objects, id) ==> id == tree_id() || id
                == copy_id(members.len() as int) || (id.generation == 0 && 2 <= id.number
                < members.len() + 2 && table_has(d.objects, members[id.number - 2])),
        forall|k: int|
            0 <= k < extracted(d, page, members).objects.len() ==> {
                let e = #[trigger] extracted(d, page, members).objects[k];
                ||| e == (tree_id(), Value::Dictionary(tree_node(copy_id(rank(members, page)))))
                ||| e == (
                    copy_id(members.len() as int),
                    Value::Dictionary(catalog_node(tree_id())),
                )
                ||| (e.0.generation == 0 && 2 <= e.0.number < members.len() + 2 && table_has(
                    d.objects,
                    members[e.0.number - 2],
                ) && e.1 == copy_of(d.objects, members, page, members[e.0.number - 2]))
            },
{
    let t = d.objects;
    let n = members.len();
    let c = copies(t, members, page, n);
    let o = extracted(d, page, members).objects;
    lemma_copies(t, members, page, n);
    assert(o.len() == c.len() + 2);
    assert(o[0].0 == tree_id());
    assert(o[o.len() - 1].0 == copy_id(n as int));
    assert forall|k: int| 1 <= k < o.len() - 1 implies #[trigger] o[k] == c[k - 1] by {}
    assert forall|a: int, b: int| 0 <= a < b < o.len() implies (#[trigger] o[a]).0.key() < (
    #[trigger] o[b]).0.key() by {
        if a > 0 {
            assert(o[a] == c[a - 1]);
        }
        if b < o.len() - 1 {
            assert(o[b] == c[b - 1]);
        }
    }
    lemma_table_has(o, tree_id());
    lemma_table_has(o, copy_id(n as int));
    assert forall|k: int| 0 <= k < o.len() implies {
        let e = #[trigger] o[k];
        ||| e == (tree_id(), Value::Dictionary(tree_node(copy_id(rank(members, page)))))
        ||| e == (copy_id(n as int), Value::Dictionary(catalog_node(tree_id())))
        ||| (e.0.generation == 0 && 2 <= e.0.number < n + 2 && table_has(
            t,
            members[e.0.number - 2],
        ) && e.1 == copy_of(t, members, page, members[e.0.number - 2]))
    } by {
        if 0 < k < o.len() - 1 {
            assert(o[k] == c[k - 1]);
        }
    }
    assert forall|id: ObjectId| #[trigger] table_has(o, id) implies id == tree_id() || id
        == copy_id(n as int) || (id.generation == 0 && 2 <= id.number < n + 2 && table_has(
        t,
        members[id.number - 2],
    )) by {
        lemma_table_has(o, id);
        let k = choose|k: int| 0 <= k < o.len() && (#[trigger] o[k]).0 == id;
        assert(o[k].0 == id);
    }
    assert forall|i: int| 0 <= i < n implies #[trigger] table_get(o, copy_id(i)) == if table_has(
        t,
        members[i],
    ) {
        Some(copy_of(t, members, page, members[i]))
    } else {
        None
    } by {
        lemma_table_has(o, copy_id(i));
        if table_has(t, members[i]) {
            let k = choose|k: int| 0 <= k < c.len() && (#[trigger] c[k]).0 == copy_id(i);
            assert(o[k + 1] == c[k]);
            assert(c[k].0.number - 2 == i);
        } else {
            if table_has(o, copy_id(i)) {
                let k = choose|k: int| 0 <= k < o.len() && (#[trigger] o[k]).0 == copy_id(i);
                assert(o[k].0 == copy_id(i));
                assert(false);
            }
        }
    }
}

/// The object set of an extracted page is exactly what the page leads to and
/// the source holds, each under its new identifier, with the new page tree
/// root and the new catalog: nothing more, nothing less.
pub proof fn lemma_extracted_is_closure(d: DocumentModel, page: ObjectId, members: Seq<ObjectId>)
    requires
        is_closure(d.objects, seq![page], members),
        members.len() + 2 <= u32::MAX,
    ensures
        forall|id: ObjectId| #[trigger]
            table_has(extracted(d, page, members).objects, id) <==> (id == tree_id() || id
                == copy_id(members.len() as int) || exists|m: ObjectId| #[trigger]
                reachable(d.objects, seq![page], m) && table_has(d.objects, m) && id == copy_id(
                    rank(members, m),
                )),
        forall|m: ObjectId|
            reachable(d.objects, seq![page], m) && table_has(d.objects, m) ==> #[trigger] table_get(
                extracted(d, page, members).objects,
                copy_id(rank(members, m)),
            ) == Some(copy_of(d.objects, members, page, m)),
{
    let t = d.objects;
    let o = extracted(d, page, members).objects;
    let n = members.len();
    lemma_extracted_objects(d, page, members);
    assert forall|m: ObjectId| reachable(t, seq![page], m) && table_has(t, m) implies #[trigger] table_get(
        o,
        copy_id(rank(members, m)),
    ) == Some(copy_of(t, members, page, m)) by {
        assert(members.contains(m));
        lemma_rank_contains(members, m);
        let i = rank(members, m);
        assert(table_get(o, copy_id(i)) == Some(copy_of(t, members, page, members[i])));
    }
    assert forall|id: ObjectId| #[trigger]
        table_has(o, id) <==> (id == tree_id() || id == copy_id(n as int) || exists|m: ObjectId| #[trigger]
            reachable(t, seq![page], m) && table_has(t, m) && id == copy_id(rank(members, m))) by {
        if table_has(o, id) && id != tree_id() && id != copy_id(n as int) {
            let k = id.number - 2;
            let m = members[k];
            assert(members.contains(m));
            lemma_rank_contains(members, m);
            assert(reachable(t, seq![page], m) && table_has(t, m) && id == copy_id(
                rank(members, m),
            ));
        }
        if exists|m: ObjectId| #[trigger]
            reachable(t, seq![page], m) && table_has(t, m) && id == copy_id(rank(members, m)) {
            let m = choose|m: ObjectId| #[trigger]
                reachable(t, seq![page], m) && table_has(t, m) && id == copy_id(rank(members, m));
            assert(table_get(o, copy_id(rank(members, m))) == Some(
                copy_of(t, members, page, m),
            ));
        }
    }
}

/// The extracted document has one page, the copy of `page`, under a page tree
/// root whose `Count` is 1.
pub proof fn lemma_extracted_pages(d: DocumentModel, page: ObjectId, members: Seq<ObjectId>)
    requires
        is_closure(d.objects, seq![page], members),
        members.len() + 2 <= u32::MAX,
        node_at(d.objects, page) is Leaf,
    ensures
        page_root(extracted(d, page, members)) == Some(tree_id()),
        pages_of(extracted(d, page, members)) == seq![copy_id(rank(members, page))],
        walk_ends(
            extracted(d, page, members).objects,
            seq![tree_id()],
            extracted(d, page, members).objects.len(),
        ),
        dict_get(tree_node(copy_id(rank(members, page))), COUNT@) == Some(Value::Integer(1)),
        count_holds(extracted(d, page, members)),
        catalog_holds(extracted(d, page, members)),
        parents_hold(extracted(d, page, members)),
{
    let t = d.objects;
    let out = extracted(d, page, members);
    let o = out.objects;
    let n = members.len();
    let new_page = copy_id(rank(members, page));
    let mapping = numbering(members, 2);
    lemma_extracted_objects(d, page, members);
    assert(seq![page][0] == page);
    lemma_root_reachable(t, seq![page], page);
    assert(members.contains(page));
    lemma_rank_contains(members, page);
    reveal_with_fuel(find_from, 4);
    assert(root_of(out) == Some(copy_id(n as int)));
    assert(dict_get(catalog_node(tree_id()), PAGES@) == Some(Value::Reference(tree_id())));
    assert(page_root(out) == Some(tree_id()));
    let tree = tree_node(new_page);
    assert(dict_type(tree) == Some(PAGES@));
    assert(PAGES@.len() != PAGE@.len());
    assert(dict_get(tree, KIDS@) == Some(Value::Array(seq![Value::Reference(new_page)])));
    assert(kid_ids(seq![Value::Reference(new_page)], 0) =~= seq![new_page]) by {
        reveal_with_fuel(kid_ids, 3);
    }
    assert(node_at(o, tree_id()) == Node::Inner(seq![new_page]));
    let source = table_get(t, page).unwrap();
    let pd = source->Dictionary_0;
    assert(table_get(o, new_page) == Some(copy_of(t, members, page, page)));
    lemma_remap_get(pd, mapping, TYPE@);
    lemma_get_after_set(remap_entries(pd, mapping), PARENT@, Value::Reference(tree_id()), TYPE@);
    assert(PARENT@ != TYPE@);
    assert(node_at(o, new_page) is Leaf);
    assert(o.len() >= 3) by {
        lemma_table_has(o, new_page);
        lemma_table_has(o, tree_id());
        lemma_table_has(o, copy_id(n as int));
        lemma_slot_from(o, new_page, 0);
        lemma_slot_from(o, tree_id(), 0);
        lemma_slot_from(o, copy_id(n as int), 0);
    }
    reveal_with_fuel(walk, 3);
    let first = seq![tree_id()];
    assert(first.subrange(1, 1) =~= Seq::<ObjectId>::empty());
    assert(seq![new_page] + Seq::<ObjectId>::empty() =~= seq![new_page]);
    assert(seq![new_page].subrange(1, 1) =~= Seq::<ObjectId>::empty());
    assert(walk(o, first, o.len()) =~= seq![new_page]);
    assert(walk_ends(o, first, o.len())) by {
        reveal_with_fuel(walk_ends, 3);
    }
    assert(dict_type(catalog_node(tree_id())) == Some(CATALOG@));
    lemma_get_after_set(
        remap_entries(pd, mapping),
        PARENT@,
        Value::Reference(tree_id()),
        PARENT@,
    );
}

/// The references that the new nodes hold.
proof fn lemma_new_node_refs(page: ObjectId, catalog: ObjectId)
    ensures
        value_refs(Value::Dictionary(seq![(ROOT@, Value::Reference(catalog))])) == seq![catalog],
        value_refs(Value::Dictionary(catalog_node(tree_id()))) == seq![tree_id()],
        value_refs(Value::Dictionary(tree_node(page))) == seq![page],
{
    let trailer = seq![(ROOT@, Value::Reference(catalog))];
    assert(entries_refs(trailer, 0) =~= Seq::<ObjectId>::empty());
    assert(value_refs(trailer[0].1) =~= seq![catalog]);
    assert(entries_refs(trailer, 1) =~= seq![catalog]);
    let c = catalog_node(tree_id());
    assert(entries_refs(c, 0) =~= Seq::<ObjectId>::empty());
    assert(value_refs(c[0].1) =~= Seq::<ObjectId>::empty());
    assert(entries_refs(c, 1) =~= Seq::<ObjectId>::empty());
    assert(value_refs(c[1].1) =~= seq![tree_id()]);
    assert(entries_refs(c, 2) =~= seq![tree_id()]);
    let p = tree_node(page);
    let kids = seq![Value::Reference(page)];
    assert(crate::walker::items_refs(kids, 0) =~= Seq::<ObjectId>::empty());
    assert(value_refs(kids[0]) =~= seq![page]);
    assert(crate::walker::items_refs(kids, 1) =~= seq![page]);
    assert(entries_refs(p, 0) =~= Seq::<ObjectId>::empty());
    assert(value_refs(p[0].1) =~= Seq::<ObjectId>::empty());
    assert(entries_refs(p, 1) =~= Seq::<ObjectId>::empty());
    assert(value_refs(p[1].1) =~= seq![page]);
    assert(entries_refs(p, 2) =~= seq![page]);
    assert(value_refs(p[2].1) =~= Seq::<ObjectId>::empty());
    assert(entries_refs(p, 3) =~= seq![page]);
}

/// The references of a copy all lead to objects of the extracted document,
/// where none dangles in the source.
proof fn lemma_remapped_resolves(
    d: DocumentModel,
    page: ObjectId,
    members: Seq<ObjectId>,
    i: int,
    r: ObjectId,
)
    requires
        is_closure(d.objects, seq![page], members),
        members.len() + 2 <= u32::MAX,
        self_contained(d),
        0 <= i < members.len(),
        table_has(d.objects, members[i]),
        value_refs(
            remap_value(table_get(d.objects, members[i]).unwrap(), numbering(members, 2)),
        ).contains(r),
    ensures
        table_has(extracted(d, page, members).objects, r),
{
    let t = d.objects;
    let o = extracted(d, page, members).objects;
    let m = members[i];
    let mapping = numbering(members, 2);
    let v = table_get(t, m).unwrap();
    lemma_remap_refs(v, mapping);
    let mapped = remap_ids(value_refs(v), mapping);
    let k = choose|k: int| 0 <= k < mapped.len() && mapped[k] == r;
    let target = value_refs(v)[k];
    assert(r == remap_id(target, mapping));
    lemma_slot_from(t, m, 0);
    assert(value_refs(v).contains(target));
    assert(refers(t, m, target));
    assert(members.contains(m));
    lemma_step_reachable(t, seq![page], m, target);
    assert(members.contains(target));
    lemma_rank_contains(members, target);
    assert(resolves(t, t[table_slot(t, m)].1));
    assert(table_has(t, target));
    lemma_extracted_objects(d, page, members);
    assert(r == copy_id(rank(members, target)));
    assert(table_get(o, copy_id(rank(members, target))) == Some(
        copy_of(t, members, page, members[rank(members, target)]),
    ));
}

/// No reference dangles in an extracted document, where none dangles in the
/// source and the source holds the page.
pub proof fn lemma_extracted_self_contained(
    d: DocumentModel,
    page: ObjectId,
    members: Seq<ObjectId>,
)
    requires
        is_closure(d.objects, seq![page], members),
        members.len() + 2 <= u32::MAX,
        self_contained(d),
        table_has(d.objects, page),
    ensures
        self_contained(extracted(d, page, members)),
{
    let t = d.objects;
    let out = extracted(d, page, members);
    let o = out.objects;
    let n = members.len();
    let mapping = numbering(members, 2);
    let new_page = copy_id(rank(members, page));
    lemma_extracted_objects(d, page, members);
    assert(seq![page][0] == page);
    lemma_root_reachable(t, seq![page], page);
    assert(members.contains(page));
    lemma_rank_contains(members, page);
    assert(table_get(o, new_page) == Some(copy_of(t, members, page, page)));
    lemma_new_node_refs(new_page, copy_id(n as int));
    assert forall|k: int| 0 <= k < o.len() implies resolves(o, (#[trigger] o[k]).1) by {
        let e = o[k];
        if e == (tree_id(), Value::Dictionary(tree_node(new_page))) {
        } else if e == (copy_id(n as int), Value::Dictionary(catalog_node(tree_id()))) {
        } else {
            let i = e.0.number - 2;
            let m = members[i];
            let v = table_get(t, m).unwrap();
            let remapped = remap_value(v, mapping);
            assert(e.1 == copy_of(t, members, page, m));
            assert forall|j: int| 0 <= j < value_refs(e.1).len() implies table_has(
                o,
                #[trigger] value_refs(e.1)[j],
            ) by {
                let r = value_refs(e.1)[j];
                assert(value_refs(e.1).contains(r));
                if m == page && remapped is Dictionary {
                    let rd = remapped->Dictionary_0;
                    let nd = dict_set(rd, PARENT@, Value::Reference(tree_id()));
                    lemma_refs_in_entries(nd, nd.len(), r);
                    let x = choose|x: int| 0 <= x < nd.len() && #[trigger] value_refs(
                        nd[x].1,
                    ).contains(r);
                    lemma_find_from(rd, PARENT@, 0);
                    if nd[x] == (PARENT@, Value::Reference(tree_id())) {
                        assert(value_refs(nd[x].1) =~= seq![tree_id()]);
                        assert(r == tree_id());
                    } else {
                        assert(nd[x] == rd[x]);
                        lemma_entry_refs(rd, rd.len(), x, r);
                        lemma_remapped_resolves(d, page, members, i, r);
                    }
                } else {
                    lemma_remapped_resolves(d, page, members, i, r);
                }
            }
        }
    }
}

fn build_tree_node(page: ObjectId) -> (d: Dictionary)
    ensures
        d@ == tree_node(page),
{
    let mut d = Dictionary::new();
    d.set(&TYPE, Object::name(&PAGES));
    let mut kids: Vec<Object> = Vec::new();
    kids.push(Object::Reference(page));
    let kids = Object::Array(kids);
    proof {
        crate::object::lemma_items_view(kids->Array_0@);
        assert(kids@ == Value::Array(seq![Value::Reference(page)])) by {
            assert(crate::object::items_view(kids->Array_0@) =~= seq![Value::Reference(page)]);
        }
    }
    d.set(&KIDS, kids);
    d.set(&COUNT, Object::Integer(1));
    proof {
        reveal_with_fuel(crate::object::find_from, 4);
        assert(d@ =~= tree_node(page));
    }
    d
}

fn build_catalog_node(tree: ObjectId) -> (d: Dictionary)
    ensures
        d@ == catalog_node(tree),
{
    let mut d = Dictionary::new();
    d.set(&TYPE, Object::name(&CATALOG));
    d.set(&PAGES, Object::Reference(tree));
    proof {
        reveal_with_fuel(crate::object::find_from, 3);
        assert(d@ =~= catalog_node(tree));
    }
    d
}

/// The document that holds one page alone: what the page leads to by
/// references, copied under new identifiers, below a page tree root and a
/// catalog of its own.
///
/// `TooManyObjects` where the object numbers do not suffice for what the page
/// leads to.
pub fn extract_page(doc: &PdfDocument, page: ObjectId) -> (r: Result<PdfDocument, Error>)
    ensures
        is_closure(doc@.objects, seq![page], closure_of(doc@.objects, seq![page])),
        match r {
            Ok(out) => {
                &&& closure_of(doc@.objects, seq![page]).len() + 2 <= u32::MAX
                &&& out@ == extracted(doc@, page, closure_of(doc@.objects, seq![page]))
                &&& ascending(out@.objects)
                &&& holds_closure(doc@, page, out@)
                &&& node_at(doc@.objects, page) is Leaf ==> count_holds(out@) && catalog_holds(out@)
                    && parents_hold(out@) && pages_of(out@)
                    == seq![copy_id(rank(closure_of(doc@.objects, seq![page]), page))]
                &&& self_contained(doc@) && table_has(doc@.objects, page) ==> self_contained(out@)
            },
            Err(e) => {
                &&& e == Error::TooManyObjects
                &&& closure_of(doc@.objects, seq![page]).len() + 2 > u32::MAX
            },
        },
{
    let ghost t = doc@.objects;
    let mut roots: Vec<ObjectId> = Vec::new();
    roots.push(page);
    assert(roots@ =~= seq![page]);
    let members = closure(&doc.objects, &roots);
    proof {
        lemma_closure_of(t, seq![page], members@);
    }
    let ghost ids = members@;
    if members.len() > (u32::MAX - 2) as usize {
        return Err(Error::TooManyObjects);
    }
    let mapping = match Numbering::new(members, 2) {
        Some(mapping) => mapping,
        None => {
            return Err(Error::TooManyObjects);
        },
    };
    let n = mapping.len();
    let tree = ObjectId { number: 1, generation: 0 };
    proof {
        lemma_rank_contains(ids, page);
    }
    let new_page = match mapping.get(page) {
        Some(id) => id,
        None => {
            proof {
                assert(seq![page][0] == page);
                crate::closure::lemma_root_reachable(t, seq![page], page);
                assert(ids.contains(page));
                assert(false);
            }
            tree
        },
    };
    let mut objects = ObjectTable::new();
    objects.push(tree, Object::Dictionary(build_tree_node(new_page)));
    let ghost head = objects@;
    let mut i: usize = 0;
    while i < n
        invariant
            i <= n,
            n == ids.len(),
            n + 2 <= u32::MAX,
            t == doc@.objects,
            mapping.ids() == ids,
            mapping@ == numbering(ids, 2),
            tree == tree_id(),
            head.len() == 1,
            head[0].0 == tree_id(),
            objects@ == head + copies(t, ids, page, i as nat),
            objects@.last().0.number <= i + 1,
            objects@.last().0.generation == 0,
        decreases n - i,
    {
        let member = mapping.id_at(i);
        match doc.objects.get(member) {
            Some(object) => {
                let copy = remap(object, &mapping);
                let copy = if member == page {
                    match copy {
                        Object::Dictionary(d) => {
                            let mut d = d;
                            d.set(&PARENT, Object::Reference(tree));
                            Object::Dictionary(d)
                        },
                        other => other,
                    }
                } else {
                    copy
                };
                objects.push(ObjectId { number: (i as u32) + 2, generation: 0 }, copy);
                assert(objects@ =~= head + copies(t, ids, page, (i + 1) as nat));
            },
            None => {},
        }
        i += 1;
    }
    let catalog = ObjectId { number: (n as u32) + 2, generation: 0 };
    objects.push(catalog, Object::Dictionary(build_catalog_node(tree)));
    let mut trailer = Dictionary::new();
    trailer.set(&ROOT, Object::Reference(catalog));
    proof {
        reveal_with_fuel(crate::object::find_from, 2);
        assert(trailer@ =~= seq![(ROOT@, Value::Reference(catalog))]);
    }
    let out = PdfDocument { version: doc.version.clone(), trailer, objects, max_id: (n as u32) + 2 };
    assert(out@.objects =~= extracted(doc@, page, ids).objects);
    proof {
        if node_at(t, page) is Leaf {
            lemma_extracted_pages(doc@, page, ids);
        }
        if self_contained(doc@) && table_has(t, page) {
            lemma_extracted_self_contained(doc@, page, ids);
        }
        lemma_extracted_objects(doc@, page, ids);
        lemma_extracted_is_closure(doc@, page, ids);
    }
    Ok(out)
}

/// `v` is a node of a page tree: a dictionary of type `Page` or `Pages`.
pub open spec fn is_tree_node(v: Value) -> bool {
    v is Dictionary && (dict_type(v->Dictionary_0) == Some(PAGE@) || dict_type(v->Dictionary_0)
        == Some(PAGES@))
}

/// `v` without the way up the page tree: a node of a page tree loses its
/// `Parent` entry, any other value is as it is.
pub open spec fn downward_value(v: Value) -> Value {
    if is_tree_node(v) {
        Value::Dictionary(dict_remove(v->Dictionary_0, PARENT@))
    } else {
        v
    }
}

/// The objects without the ways up the page tree.
pub open spec fn downward(t: TableModel) -> TableModel {
    Seq::new(t.len(), |i: int| (t[i].0, downward_value(t[i].1)))
}

/// The document without the ways up its page tree: from a page, references
/// then lead to what the page needs, and not to the pages beside it.
pub open spec fn downward_document(d: DocumentModel) -> DocumentModel {
    DocumentModel { objects: downward(d.objects), ..d }
}

/// Taking away the ways up the page tree leaves the pages and their order as
/// they are, and lets no reference dangle that did not dangle before.
pub proof fn lemma_downward(d: DocumentModel)
    ensures
        same_trees(d.objects, downward(d.objects)),
        pages_of(downward_document(d)) == pages_of(d),
        ascending(d.objects) ==> ascending(downward(d.objects)),
        self_contained(d) ==> self_contained(downward_document(d)),
{
    let a = d.objects;
    let b = downward(a);
    assert(PARENT@.len() == 6 && TYPE@.len() == 4 && KIDS@.len() == 4 && PAGES@.len() == 5
        && COUNT@.len() == 5);
    assert forall|i: int| 0 <= i < a.len() implies (#[trigger] a[i]).0 == b[i].0 && same_node(
        a[i].1,
        b[i].1,
    ) by {
        if is_tree_node(a[i].1) {
            let node = a[i].1->Dictionary_0;
            lemma_get_after_remove(node, PARENT@, TYPE@);
            lemma_get_after_remove(node, PARENT@, KIDS@);
            lemma_get_after_remove(node, PARENT@, PAGES@);
            lemma_get_after_remove(node, PARENT@, COUNT@);
        }
    }
    lemma_same_pages(d, downward_document(d));
    if ascending(a) {
        assert forall|i: int, j: int| 0 <= i < j < b.len() implies (#[trigger] b[i]).0.key() < (
        #[trigger] b[j]).0.key() by {
            assert(a[i].0.key() < a[j].0.key());
        }
    }
    if self_contained(d) {
        assert forall|k: int| 0 <= k < value_refs(Value::Dictionary(d.trailer)).len() implies table_has(
            b,
            #[trigger] value_refs(Value::Dictionary(d.trailer))[k],
        ) by {
            lemma_same_ids(a, b, value_refs(Value::Dictionary(d.trailer))[k], 0);
        }
        assert forall|i: int| 0 <= i < b.len() implies resolves(b, (#[trigger] b[i]).1) by {
            assert forall|k: int| 0 <= k < value_refs(b[i].1).len() implies table_has(
                b,
                #[trigger] value_refs(b[i].1)[k],
            ) by {
                let r = value_refs(b[i].1)[k];
                assert(value_refs(b[i].1).contains(r));
                if is_tree_node(a[i].1) {
                    lemma_remove_adds_no_ref(a[i].1->Dictionary_0, PARENT@, r);
                }
                assert(value_refs(a[i].1).contains(r));
                let j = choose|j: int| 0 <= j < value_refs(a[i].1).len() && value_refs(a[i].1)[j]
                    == r;
                assert(resolves(a, a[i].1));
                assert(table_has(a, value_refs(a[i].1)[j]));
                lemma_same_ids(a, b, r, 0);
            }
        }
    }
}

/// `v` is a node that holds a page tree together: a page tree node of type
/// `Pages`, or a catalog.
pub open spec fn is_frame(v: Value) -> bool {
    is_node(v, PAGES@) || is_node(v, CATALOG@)
}

/// What is no part of the frame of the page tree refers to no part of it:
/// only a catalog and the page tree nodes lead to page tree nodes.
pub open spec fn frame_kept_apart(t: TableModel) -> bool {
    forall|i: int, r: ObjectId|
        0 <= i < t.len() && !is_frame((#[trigger] t[i]).1) && value_refs(t[i].1).contains(r)
            && #[trigger] table_has(t, r) ==> !is_frame(t[table_slot(t, r)].1)
}

/// From an object that is no part of the frame, references lead to no part
/// of the frame, where the frame is kept apart.
proof fn lemma_stays_apart(t: TableModel, roots: Seq<ObjectId>, path: Seq<ObjectId>, n: int)
    requires
        ascending(t),
        frame_kept_apart(t),
        forall|k: int|
            0 <= k < roots.len() && table_has(t, #[trigger] roots[k]) ==> !is_frame(
                t[table_slot(t, roots[k])].1,
            ),
        crate::closure::is_path(t, path),
        roots.contains(path[0]),
        0 <= n < path.len(),
        table_has(t, path[n]),
    ensures
        !is_frame(t[table_slot(t, path[n])].1),
    decreases n,
{
    if n == 0 {
        let k = choose|k: int| 0 <= k < roots.len() && roots[k] == path[0];
        assert(table_has(t, roots[k]));
    } else {
        let a = path[n - 1];
        let b = path[n];
        assert(refers(t, a, b));
        lemma_stays_apart(t, roots, path, n - 1);
        lemma_slot_from(t, a, 0);
        let i = table_slot(t, a);
        assert(!is_frame(t[i].1));
        assert(value_refs(t[i].1).contains(b) && table_has(t, b));
    }
}

/// The new page tree root is the one page tree node of a part, where the
/// frame of the page tree is kept apart in the document: whatever holds of
/// the root of a part then holds of every page tree node in it.
pub proof fn lemma_part_has_one_tree(d: DocumentModel, page: ObjectId)
    requires
        ascending(d.objects),
        frame_kept_apart(downward(d.objects)),
        node_at(d.objects, page) is Leaf,
        is_closure(
            downward(d.objects),
            seq![page],
            closure_of(downward(d.objects), seq![page]),
        ),
        closure_of(downward(d.objects), seq![page]).len() + 2 <= u32::MAX,
    ensures
        forall|i: int|
            0 <= i < split_page(d, page).objects.len() && is_node(
                (#[trigger] split_page(d, page).objects[i]).1,
                PAGES@,
            ) ==> split_page(d, page).objects[i].0 == tree_id(),
{
    let g = downward_document(d);
    let t = g.objects;
    let members = closure_of(t, seq![page]);
    let mapping = numbering(members, 2);
    let o = split_page(d, page).objects;
    lemma_downward(d);
    lemma_extracted_objects(g, page, members);
    lemma_same_ids(d.objects, t, page, 0);
    lemma_slot_from(t, page, 0);
    assert(PAGE@.len() == 4 && PAGES@.len() == 5 && CATALOG@.len() == 7 && TYPE@.len() == 4
        && PARENT@.len() == 6);
    assert(same_node(d.objects[table_slot(t, page)].1, t[table_slot(t, page)].1));
    assert(!is_frame(t[table_slot(t, page)].1));
    reveal_with_fuel(find_from, 3);
    assert(dict_type(catalog_node(tree_id())) == Some(CATALOG@));
    assert forall|i: int| 0 <= i < o.len() && is_node((#[trigger] o[i]).1, PAGES@) implies o[i].0
        == tree_id() by {
        let e = o[i];
        if e == (tree_id(), Value::Dictionary(tree_node(copy_id(rank(members, page))))) {
        } else if e == (copy_id(members.len() as int), Value::Dictionary(catalog_node(tree_id()))) {
        } else {
            let m = members[e.0.number - 2];
            assert(members.contains(m));
            assert(reachable(t, seq![page], m));
            let path = choose|path: Seq<ObjectId>| #[trigger]
                crate::closure::is_path(t, path) && seq![page].contains(path[0]) && path.last()
                    == m;
            assert forall|k: int| 0 <= k < seq![page].len() && table_has(
                t,
                #[trigger] seq![page][k],
            ) implies !is_frame(t[table_slot(t, seq![page][k])].1) by {}
            lemma_stays_apart(t, seq![page], path, path.len() - 1);
            let v = t[table_slot(t, m)].1;
            assert(table_get(t, m) == Some(v));
            assert(!is_node(v, PAGES@));
            lemma_remap_type(v, mapping);
            let moved = remap_value(v, mapping);
            if m == page && moved is Dictionary {
                lemma_get_after_set(
                    moved->Dictionary_0,
                    PARENT@,
                    Value::Reference(tree_id()),
                    TYPE@,
                );
            }
        }
    }
}

/// From `page`, references lead to no other page and to no page tree node,
/// the ways up the page tree left aside.
pub open spec fn leads_to_no_tree_node(d: DocumentModel, page: ObjectId) -> bool {
    let t = downward(d.objects);
    forall|m: ObjectId| #[trigger]
        reachable(t, seq![page], m) && m != page && table_has(t, m) ==> !is_tree_node(
            t[table_slot(t, m)].1,
        )
}

/// The document holds one object of type `Page`, under the identifier
/// `page`, and one of type `Pages`, under the identifier of the new page tree
/// root.
pub open spec fn holds_one_page(part: DocumentModel, page: ObjectId) -> bool {
    &&& table_has(part.objects, page)
    &&& table_has(part.objects, tree_id())
    &&& forall|i: int|
        0 <= i < part.objects.len() ==> {
            let e = #[trigger] part.objects[i];
            &&& is_node(e.1, PAGES@) <==> e.0 == tree_id()
            &&& is_node(e.1, PAGE@) <==> e.0 == page
        }
}

/// A part holds one object of type `Page`, the copy of its page, and one of
/// type `Pages`, the new page tree root, where its page leads to no other
/// page and to no page tree node.
pub proof fn lemma_part_has_one_page(d: DocumentModel, page: ObjectId)
    requires
        ascending(d.objects),
        leads_to_no_tree_node(d, page),
        node_at(d.objects, page) is Leaf,
        is_closure(
            downward(d.objects),
            seq![page],
            closure_of(downward(d.objects), seq![page]),
        ),
        closure_of(downward(d.objects), seq![page]).len() + 2 <= u32::MAX,
    ensures
        holds_one_page(
            split_page(d, page),
            copy_id(rank(closure_of(downward(d.objects), seq![page]), page)),
        ),
{
    let g = downward_document(d);
    let t = g.objects;
    let members = closure_of(t, seq![page]);
    let mapping = numbering(members, 2);
    let o = split_page(d, page).objects;
    let spot = rank(members, page);
    lemma_downward(d);
    lemma_extracted_objects(g, page, members);
    lemma_same_ids(d.objects, t, page, 0);
    lemma_slot_from(t, page, 0);
    lemma_rank_contains(members, page);
    assert(PAGE@.len() == 4 && PAGES@.len() == 5 && CATALOG@.len() == 7 && TYPE@.len() == 4
        && PARENT@.len() == 6);
    assert(same_node(d.objects[table_slot(t, page)].1, t[table_slot(t, page)].1));
    assert(is_node(t[table_slot(t, page)].1, PAGE@));
    assert(seq![page][0] == page);
    crate::closure::lemma_root_reachable(t, seq![page], page);
    assert(members.contains(page));
    assert(members[spot] == page);
    assert(table_has(t, page));
    assert(table_get(o, copy_id(spot)) == Some(copy_of(t, members, page, members[spot])));
    reveal_with_fuel(find_from, 3);
    assert(dict_type(catalog_node(tree_id())) == Some(CATALOG@));
    assert(dict_type(tree_node(copy_id(spot))) == Some(PAGES@));
    assert forall|i: int| 0 <= i < o.len() implies {
        let e = #[trigger] o[i];
        &&& is_node(e.1, PAGES@) <==> e.0 == tree_id()
        &&& is_node(e.1, PAGE@) <==> e.0 == copy_id(spot)
    } by {
        let e = o[i];
        if e == (tree_id(), Value::Dictionary(tree_node(copy_id(spot)))) {
        } else if e == (copy_id(members.len() as int), Value::Dictionary(catalog_node(tree_id()))) {
        } else {
            let x = e.0.number - 2;
            let m = members[x];
            assert(e.0 == copy_id(x));
            assert(members.contains(m));
            assert(reachable(t, seq![page], m));
            lemma_rank_contains(members, m);
            let v = t[table_slot(t, m)].1;
            assert(table_get(t, m) == Some(v));
            lemma_remap_type(v, mapping);
            let moved = remap_value(v, mapping);
            if m == page {
                assert(x == spot);
                lemma_get_after_set(
                    moved->Dictionary_0,
                    PARENT@,
                    Value::Reference(tree_id()),
                    TYPE@,
                );
            } else {
                assert(!is_tree_node(v));
                assert(x != spot);
            }
        }
    }
}

/// In a part whose one page tree node is the new page tree root, every page
/// tree node counts the pages below it.
pub proof fn lemma_part_counts(d: DocumentModel, page: ObjectId)
    requires
        node_at(d.objects, page) is Leaf,
        is_closure(
            downward(d.objects),
            seq![page],
            closure_of(downward(d.objects), seq![page]),
        ),
        closure_of(downward(d.objects), seq![page]).len() + 2 <= u32::MAX,
        forall|i: int|
            0 <= i < split_page(d, page).objects.len() && is_node(
                (#[trigger] split_page(d, page).objects[i]).1,
                PAGES@,
            ) ==> split_page(d, page).objects[i].0 == tree_id(),
    ensures
        counts_hold(split_page(d, page).objects),
{
    let g = downward_document(d);
    let members = closure_of(g.objects, seq![page]);
    lemma_downward(d);
    lemma_same_ids(d.objects, g.objects, page, 0);
    lemma_slot_from(d.objects, page, 0);
    if table_has(d.objects, page) {
        assert(same_node(
            d.objects[table_slot(d.objects, page)].1,
            g.objects[table_slot(d.objects, page)].1,
        ));
    }
    assert(node_at(g.objects, page) is Leaf);
    lemma_extracted_objects(g, page, members);
    lemma_extracted_pages(g, page, members);
    lemma_one_tree_counts(split_page(d, page));
}

/// A copy of the document without the ways up its page tree.
pub fn without_parents(doc: &PdfDocument) -> (r: PdfDocument)
    ensures
        r@ == downward_document(doc@),
{
    let n = doc.objects.len();
    let ghost t = doc@.objects;
    let mut objects = ObjectTable::new();
    let mut i: usize = 0;
    while i < n
        invariant
            i <= n,
            n == t.len(),
            t == doc@.objects,
            ascending(t),
            objects@ == downward(t).subrange(0, i as int),
        decreases n - i,
    {
        let id = doc.objects.id_at(i);
        let object = doc.objects.object_at(i);
        let copy = match object {
            Object::Dictionary(d) => {
                let mut d = d.duplicate();
                if d.has_type(&PAGE) || d.has_type(&PAGES) {
                    d.remove(&PARENT);
                }
                Object::Dictionary(d)
            },
            other => other.duplicate(),
        };
        proof {
            if i > 0 {
                assert(objects@.last() == downward(t)[i - 1]);
                assert(t[i - 1].0.key() < t[i as int].0.key());
            }
        }
        objects.push(id, copy);
        assert(objects@ =~= downward(t).subrange(0, i + 1));
        i += 1;
    }
    assert(objects@ =~= downward(t));
    PdfDocument {
        version: doc.version.clone(),
        trailer: doc.trailer.duplicate(),
        objects,
        max_id: doc.max_id,
    }
}

/// What `split` owes for the page `page` of `d`: the document that holds what
/// the page leads to without going up the page tree, and nothing else of `d`.
pub open spec fn split_page(d: DocumentModel, page: ObjectId) -> DocumentModel {
    extracted(
        downward_document(d),
        page,
        closure_of(downward(d.objects), seq![page]),
    )
}

/// `part` is what `split` owes for the page `page` of `d`: what the page
/// leads to without going up the page tree, and nothing else of `d`, under
/// new identifiers; one page, the copy of `page`, counted by the page tree
/// root and hung under it, below a catalog; no reference that dangles, where
/// none dangles in `d`; and no object of type `Page` or `Pages` but that copy
/// and that root, so that every page tree node counts its pages, where
/// `page` leads to no other page and to no page tree node. Where it leads to
/// page tree nodes, they count their pages in the part where those of `d` do.
pub open spec fn is_part(d: DocumentModel, page: ObjectId, part: DocumentModel) -> bool {
    let members = closure_of(downward(d.objects), seq![page]);
    &&& is_closure(downward(d.objects), seq![page], members)
    &&& members.len() + 2 <= u32::MAX
    &&& part == split_page(d, page)
    &&& pages_of(part) == seq![copy_id(rank(members, page))]
    &&& count_holds(part)
    &&& catalog_holds(part)
    &&& parents_hold(part)
    &&& holds_closure(downward_document(d), page, part)
    &&& (self_contained(d) ==> self_contained(part))
    &&& (leads_to_no_tree_node(d, page) ==> holds_one_page(part, copy_id(rank(members, page)))
        && counts_hold(part.objects))
    &&& (counts_hold(d.objects) ==> counts_hold(part.objects))
}

/// The objects of `part` are the new page tree root, the new catalog, and one
/// for each object of `d` that `page` leads to, under its new identifier:
/// nothing more, nothing less.
pub open spec fn holds_closure(d: DocumentModel, page: ObjectId, part: DocumentModel) -> bool {
    let members = closure_of(d.objects, seq![page]);
    forall|id: ObjectId| #[trigger]
        table_has(part.objects, id) <==> (id == tree_id() || id == copy_id(members.len() as int)
            || exists|m: ObjectId| #[trigger]
            reachable(d.objects, seq![page], m) && table_has(d.objects, m) && id == copy_id(
                rank(members, m),
            ))
}

/// One document for each page of `doc`, in page order: the document at
/// position `n - 1` holds page `n` alone, with what that page leads to by
/// references. The ways up the page tree, the `Parent` entries of its nodes,
/// are not followed, so that a page does not bring the pages beside it along.
/// Each document has exactly one page, and no reference dangles in it where
/// none dangles in `doc`.
///
/// `TooManyObjects` where the object numbers do not suffice for what some page
/// leads to.
pub fn split(doc: &PdfDocument) -> (r: Result<Vec<PdfDocument>, Error>)
    ensures
        match r {
            Ok(parts) => {
                &&& parts@.len() == pages_of(doc@).len()
                &&& forall|i: int|
                    0 <= i < parts@.len() ==> is_part(
                        doc@,
                        pages_of(doc@)[i],
                        (#[trigger] parts@[i])@,
                    )
            },
            Err(e) => {
                &&& e == Error::TooManyObjects
                &&& exists|i: int|
                    0 <= i < pages_of(doc@).len() && closure_of(
                        downward(doc@.objects),
                        seq![#[trigger] pages_of(doc@)[i]],
                    ).len() + 2 > u32::MAX
            },
        },
{
    let down = without_parents(doc);
    let pages = down.page_ids();
    doc.confirm_well_formed();
    proof {
        lemma_downward(doc@);
        lemma_pages_are_leaves(down@);
    }
    let mut parts: Vec<PdfDocument> = Vec::new();
    let mut i: usize = 0;
    while i < pages.len()
        invariant
            i <= pages.len(),
            down@ == downward_document(doc@),
            pages@ == pages_of(doc@),
            parts@.len() == i,
            ascending(doc@.objects),
            self_contained(doc@) ==> self_contained(down@),
            forall|k: int|
                0 <= k < pages@.len() ==> node_at(down@.objects, #[trigger] pages@[k]) is Leaf
                    && table_has(down@.objects, pages@[k]),
            forall|k: int| 0 <= k < i ==> is_part(doc@, pages_of(doc@)[k], (#[trigger] parts@[k])@),
        decreases pages.len() - i,
    {
        assert(node_at(down@.objects, pages@[i as int]) is Leaf);
        match extract_page(&down, pages[i]) {
            Ok(part) => {
                let ghost before = parts@;
                proof {
                    lemma_pages_are_leaves(doc@);
                    if leads_to_no_tree_node(doc@, pages@[i as int]) {
                        lemma_part_has_one_page(doc@, pages@[i as int]);
                        lemma_part_counts(doc@, pages@[i as int]);
                    }
                    if counts_hold(doc@.objects) {
                        lemma_part_counts_at_every_node(doc@, pages@[i as int]);
                    }
                }
                parts.push(part);
                assert forall|k: int| 0 <= k < i + 1 implies is_part(
                    doc@,
                    pages_of(doc@)[k],
                    (#[trigger] parts@[k])@,
                ) by {
                    if k < i {
                        assert(parts@[k] == before[k]);
                    }
                }
            },
            Err(e) => {
                assert(closure_of(downward(doc@.objects), seq![pages_of(doc@)[i as int]]).len() + 2
                    > u32::MAX);
                return Err(e);
            },
        }
        i += 1;
    }
    Ok(parts)
}

} // verus!
