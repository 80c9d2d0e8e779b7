//! What holds of every merged document.

use vstd::prelude::*;
use crate::document::{DocumentModel, resolves, root_of, self_contained, well_formed};
use crate::merge::{
    bookmarks_of, catalog_slot, emitted, first_node, kept, kept_pages, lemma_bookmarks,
    lemma_listed_once, listed_once, lemma_pool, lemma_start_grows, merge_failure, merged, merged_tree,
    moved_pages, overlay, page_pool, Plan, plan_of, pool, references, start_of, tree_slot,
};
use crate::names::{CATALOG, COUNT, KIDS, OUTLINES, PAGE, PAGES, PARENT, TYPE};
use crate::object::{
    dict_find, dict_get, dict_remove, dict_set, dict_type, DictModel, find_from, lemma_find_from,
    lemma_get_after_remove, lemma_get_after_set, ObjectId, unique_names, Value,
};
use crate::outline::{
    lemma_outline_objects, lemma_outline_refs, lemma_outline_untyped, outline_id, outline_objects,
};
use crate::pages::{
    catalog_holds, count_holds, counts_hold, is_node, kid_ids, lemma_one_tree_counts,
    lemma_pages_are_leaves, Node, node_at, page_root, pages_of, parents_hold, walk,
};
use crate::renumber::{lemma_table_ids, renumbered_id, renumbered_objects};
use crate::split::reparented;
use crate::table::{
    ascending, lemma_slot_from, lemma_table_has, table_get, table_has, table_ids, table_slot,
    TableModel,
};
use crate::walker::{lemma_remap_type, numbering, remap_value, value_refs};

verus! {

/// Where the objects of document `i` stand in the pool.
pub proof fn lemma_pool_entry(docs: Seq<DocumentModel>, n: nat, i: int, s: int)
    requires
        n <= docs.len(),
        0 <= i < n,
        0 <= s < docs[i].objects.len(),
    ensures
        0 <= start_of(docs, i as nat) - 1 + s < pool(docs, n).len(),
        pool(docs, n)[start_of(docs, i as nat) - 1 + s] == renumbered_objects(
            docs[i].objects,
            start_of(docs, i as nat),
        )[s],
        pool(docs, n).len() == start_of(docs, n) - 1,
    decreases n,
{
    lemma_pool_len(docs, n);
    lemma_pool_len(docs, (n - 1) as nat);
    lemma_start_grows(docs, i as nat, (n - 1) as nat);
    if i < n - 1 {
        lemma_pool_entry(docs, (n - 1) as nat, i, s);
    }
}

/// The pool holds as many objects as the documents together.
pub proof fn lemma_pool_len(docs: Seq<DocumentModel>, n: nat)
    requires
        n <= docs.len(),
    ensures
        pool(docs, n).len() == start_of(docs, n) - 1,
    decreases n,
{
    if n > 0 {
        lemma_pool_len(docs, (n - 1) as nat);
    }
}

/// Each page of the pool is a page dictionary of the pool, under its number.
pub proof fn lemma_moved_pages(docs: Seq<DocumentModel>, n: nat, i: int, k: int)
    requires
        n <= docs.len(),
        0 <= i < n,
        well_formed(docs[i]),
        start_of(docs, n) <= u32::MAX,
        0 <= k < pages_of(docs[i]).len(),
    ensures
        ({
            let q = moved_pages(docs[i], start_of(docs, i as nat))[k];
            &&& q.generation == 0
            &&& start_of(docs, i as nat) <= q.number < start_of(docs, (i + 1) as nat)
            &&& 1 <= q.number <= pool(docs, n).len()
            &&& pool(docs, n)[q.number - 1].0 == q
            &&& is_node(pool(docs, n)[q.number - 1].1, PAGE@)
            &&& q.number - start_of(docs, i as nat) == table_slot(
                docs[i].objects,
                pages_of(docs[i])[k],
            )
        }),
{
    let d = docs[i];
    let start = start_of(docs, i as nat);
    let p = pages_of(d)[k];
    lemma_pages_are_leaves(d);
    assert(node_at(d.objects, p) is Leaf);
    assert(table_has(d.objects, p));
    lemma_table_ids(d.objects, p);
    let s = table_slot(d.objects, p);
    lemma_slot_from(d.objects, p, 0);
    lemma_pool_entry(docs, n, i, s);
    lemma_start_grows(docs, (i + 1) as nat, n);
    lemma_start_grows(docs, i as nat, n);
    let m = numbering(table_ids(d.objects), start);
    let v = d.objects[s].1;
    lemma_remap_type(v, m);
    assert(table_get(d.objects, p) == Some(v));
    assert(remap_value(v, m) is Dictionary);
}

/// Every document of the list is well formed.
pub open spec fn all_well_formed(docs: Seq<DocumentModel>) -> bool {
    forall|i: int| 0 <= i < docs.len() ==> well_formed(#[trigger] docs[i])
}

/// `q` is the identifier of a page dictionary of the table `t`, whose
/// identifiers are the numbers from 1 on.
pub open spec fn is_page_of(t: TableModel, q: ObjectId) -> bool {
    &&& q.generation == 0
    &&& 1 <= q.number <= t.len()
    &&& t[q.number - 1].0 == q
    &&& is_node(t[q.number - 1].1, PAGE@)
}

/// Every page of the page pool is a page dictionary of the pool.
pub proof fn lemma_page_pool(docs: Seq<DocumentModel>, n: nat, m: nat)
    requires
        m <= n <= docs.len(),
        all_well_formed(docs),
        start_of(docs, n) <= u32::MAX,
    ensures
        forall|x: int|
            0 <= x < page_pool(docs, m).len() ==> is_page_of(
                pool(docs, n),
                #[trigger] page_pool(docs, m)[x],
            ),
    decreases m,
{
    if m > 0 {
        lemma_page_pool(docs, n, (m - 1) as nat);
        let before = page_pool(docs, (m - 1) as nat);
        let own = moved_pages(docs[m - 1], start_of(docs, (m - 1) as nat));
        assert forall|x: int| 0 <= x < page_pool(docs, m).len() implies is_page_of(
            pool(docs, n),
            #[trigger] page_pool(docs, m)[x],
        ) by {
            if x < before.len() {
                assert(page_pool(docs, m)[x] == before[x]);
            } else {
                assert(page_pool(docs, m)[x] == own[x - before.len()]);
                lemma_moved_pages(docs, n, m - 1, x - before.len());
            }
        }
    }
}

/// What the kept objects are: each is what becomes of an object of the pool,
/// under its number, and every object of the pool that leaves something has
/// it among them.
pub proof fn lemma_kept(t: TableModel, plan: Plan, n: nat)
    requires
        n <= t.len(),
        t.len() < u32::MAX,
        forall|j: int| 0 <= j < t.len() ==> (#[trigger] t[j]).0 == renumbered_id(1, j),
    ensures
        kept(t, plan, n).len() <= n,
        forall|x: int|
            0 <= x < kept(t, plan, n).len() ==> {
                let e = #[trigger] kept(t, plan, n)[x];
                &&& e.0.generation == 0
                &&& 1 <= e.0.number <= n
                &&& emitted(t[e.0.number - 1], plan) == Some(e)
            },
        forall|j: int|
            0 <= j < n && emitted(#[trigger] t[j], plan) is Some ==> exists|x: int|
                0 <= x < kept(t, plan, n).len() && #[trigger] kept(t, plan, n)[x] == emitted(
                    t[j],
                    plan,
                )->Some_0,
        forall|a: int, b: int|
            0 <= a < b < kept(t, plan, n).len() ==> (#[trigger] kept(t, plan, n)[a]).0.number < (
            #[trigger] kept(t, plan, n)[b]).0.number,
    decreases n,
{
    if n > 0 {
        lemma_kept(t, plan, (n - 1) as nat);
        let before = kept(t, plan, (n - 1) as nat);
        let k = kept(t, plan, n);
        let last = emitted(t[n - 1], plan);
        assert(t[n - 1].0 == renumbered_id(1, n - 1));
        assert forall|x: int| 0 <= x < k.len() implies {
            let e = #[trigger] k[x];
            &&& e.0.generation == 0
            &&& 1 <= e.0.number <= n
            &&& emitted(t[e.0.number - 1], plan) == Some(e)
        } by {
            if x < before.len() {
                assert(k[x] == before[x]);
            }
        }
        assert forall|j: int| 0 <= j < n && emitted(#[trigger] t[j], plan) is Some implies exists|
            x: int,
        |
            0 <= x < k.len() && #[trigger] k[x] == emitted(t[j], plan)->Some_0 by {
            if j < n - 1 {
                let x = choose|x: int|
                    0 <= x < before.len() && #[trigger] before[x] == emitted(t[j], plan)->Some_0;
                assert(k[x] == before[x]);
            } else {
                assert(k[k.len() - 1] == last->Some_0);
            }
        }
        assert forall|a: int, b: int| 0 <= a < b < k.len() implies (#[trigger] k[a]).0.number < (
        #[trigger] k[b]).0.number by {
            assert(k[a] == before[a]);
            if b < before.len() {
                assert(k[b] == before[b]);
            }
        }
    }
}

/// After an overlay, each name of the upper dictionary holds the value that
/// the upper dictionary gives it.
pub proof fn lemma_overlay_get(base: DictModel, over: DictModel, n: nat, k: int)
    requires
        unique_names(over),
        0 <= k < n <= over.len(),
    ensures
        dict_get(overlay(base, over, n), over[k].0) == Some(over[k].1),
    decreases n,
{
    let before = overlay(base, over, (n - 1) as nat);
    lemma_get_after_set(before, over[n - 1].0, over[n - 1].1, over[k].0);
    if k < n - 1 {
        lemma_overlay_get(base, over, (n - 1) as nat, k);
        assert(over[k].0 != over[n - 1].0);
    }
}

/// Laid over anything, a page tree node leaves the type of a page tree node.
pub proof fn lemma_overlay_type(base: DictModel, over: DictModel)
    requires
        unique_names(over),
        dict_type(over) == Some(PAGES@),
    ensures
        dict_type(overlay(base, over, over.len())) == Some(PAGES@),
{
    lemma_find_from(over, TYPE@, 0);
    lemma_overlay_get(base, over, over.len(), dict_find(over, TYPE@));
}

/// No dictionary among the objects has two entries of one name.
pub open spec fn unique_entries(t: TableModel) -> bool {
    forall|j: int|
        0 <= j < t.len() && (#[trigger] t[j]).1 is Dictionary ==> unique_names(
            t[j].1->Dictionary_0,
        )
}

/// The merged page tree node has the type of a page tree node, where there is
/// one to merge.
pub proof fn lemma_merged_tree_type(t: TableModel, n: nat, i: int)
    requires
        n <= t.len(),
        unique_entries(t),
        0 <= i < n,
        is_node(t[i].1, PAGES@),
    ensures
        dict_type(merged_tree(t, n)) == Some(PAGES@),
    decreases n,
{
    if is_node(t[n - 1].1, PAGES@) {
        let d = t[n - 1].1->Dictionary_0;
        lemma_overlay_type(merged_tree(t, (n - 1) as nat), d);
    } else {
        lemma_merged_tree_type(t, (n - 1) as nat, i);
    }
}

/// Renumbering keeps the names of every dictionary, so the pool of
/// well-formed documents has no dictionary with two entries of one name.
pub proof fn lemma_pool_unique(docs: Seq<DocumentModel>, n: nat)
    requires
        n <= docs.len(),
        all_well_formed(docs),
    ensures
        unique_entries(pool(docs, n)),
    decreases n,
{
    if n > 0 {
        lemma_pool_unique(docs, (n - 1) as nat);
        let before = pool(docs, (n - 1) as nat);
        let d = docs[n - 1];
        let own = renumbered_objects(d.objects, start_of(docs, (n - 1) as nat));
        let p = pool(docs, n);
        assert(well_formed(d));
        assert forall|j: int| 0 <= j < p.len() && (#[trigger] p[j]).1 is Dictionary implies unique_names(
            p[j].1->Dictionary_0,
        ) by {
            if j < before.len() {
                assert(p[j] == before[j]);
            } else {
                let s = j - before.len();
                assert(p[j] == own[s]);
                let source = d.objects[s].1->Dictionary_0;
                let copy = p[j].1->Dictionary_0;
                assert(d.objects[s].1 is Dictionary);
                assert(unique_names(source));
                assert forall|a: int, b: int| 0 <= a < b < copy.len() implies (#[trigger] copy[a]).0
                    != (#[trigger] copy[b]).0 by {
                    assert(copy[a].0 == source[a].0);
                    assert(copy[b].0 == source[b].0);
                }
            }
        }
    }
}

/// The kids that a list of references names are the identifiers referred to.
pub proof fn lemma_kid_ids(ids: Seq<ObjectId>, from: int)
    requires
        0 <= from <= ids.len(),
    ensures
        kid_ids(references(ids), from) == ids.subrange(from, ids.len() as int),
    decreases ids.len() - from,
{
    if from < ids.len() {
        lemma_kid_ids(ids, from + 1);
        assert(kid_ids(references(ids), from) =~= ids.subrange(from, ids.len() as int));
    } else {
        assert(kid_ids(references(ids), from) =~= ids.subrange(from, ids.len() as int));
    }
}

/// A walk over pages alone, with budget enough, meets them all in order.
pub proof fn lemma_walk_pages(t: TableModel, pending: Seq<ObjectId>, budget: nat)
    requires
        budget >= pending.len(),
        forall|k: int| 0 <= k < pending.len() ==> crate::pages::node_at(t, #[trigger] pending[k]) is Leaf,
    ensures
        walk(t, pending, budget) == pending,
        crate::pages::walk_ends(t, pending, budget),
    decreases pending.len(),
{
    if pending.len() > 0 {
        let rest = pending.subrange(1, pending.len() as int);
        assert(crate::pages::node_at(t, pending[0]) is Leaf);
        assert forall|k: int| 0 <= k < rest.len() implies crate::pages::node_at(
            t,
            #[trigger] rest[k],
        ) is Leaf by {
            assert(rest[k] == pending[k + 1]);
        }
        lemma_walk_pages(t, rest, (budget - 1) as nat);
        assert(seq![pending[0]] + rest =~= pending);
    }
}

/// What the kept pages are: the identifiers of the pool that the page list
/// names, each once.
pub proof fn lemma_kept_pages(t: TableModel, pages: Seq<ObjectId>, n: nat)
    requires
        n <= t.len(),
        t.len() < u32::MAX,
        forall|j: int| 0 <= j < t.len() ==> (#[trigger] t[j]).0 == renumbered_id(1, j),
    ensures
        kept_pages(t, pages, n).len() <= n,
        forall|x: int|
            0 <= x < kept_pages(t, pages, n).len() ==> {
                let q = #[trigger] kept_pages(t, pages, n)[x];
                &&& pages.contains(q)
                &&& q.generation == 0
                &&& 1 <= q.number <= n
            },
        forall|j: int|
            0 <= j < n && pages.contains((#[trigger] t[j]).0) ==> kept_pages(t, pages, n).contains(
                t[j].0,
            ),
        forall|a: int, b: int|
            0 <= a < b < kept_pages(t, pages, n).len() ==> (#[trigger] kept_pages(
                t,
                pages,
                n,
            )[a]).number < (#[trigger] kept_pages(t, pages, n)[b]).number,
    decreases n,
{
    if n > 0 {
        lemma_kept_pages(t, pages, (n - 1) as nat);
        let before = kept_pages(t, pages, (n - 1) as nat);
        let k = kept_pages(t, pages, n);
        assert(t[n - 1].0 == renumbered_id(1, n - 1));
        assert forall|x: int| 0 <= x < k.len() implies {
            let q = #[trigger] k[x];
            &&& pages.contains(q)
            &&& q.generation == 0
            &&& 1 <= q.number <= n
        } by {
            if x < before.len() {
                assert(k[x] == before[x]);
            }
        }
        assert forall|j: int| 0 <= j < n && pages.contains((#[trigger] t[j]).0) implies k.contains(
            t[j].0,
        ) by {
            if j < n - 1 {
                let x = choose|x: int| 0 <= x < before.len() && before[x] == t[j].0;
                assert(k[x] == t[j].0);
            } else {
                assert(k[k.len() - 1] == t[j].0);
            }
        }
        assert forall|a: int, b: int| 0 <= a < b < k.len() implies (#[trigger] k[a]).number < (
        #[trigger] k[b]).number by {
            assert(k[a] == before[a]);
            if b < before.len() {
                assert(k[b] == before[b]);
            }
        }
    }
}

/// The kept objects are at least the kept pages and the page tree root.
pub proof fn lemma_kept_count(t: TableModel, plan: Plan, n: nat, root: int)
    requires
        n <= t.len(),
        0 <= root < t.len(),
        t[root].0 == plan.tree_id,
        !plan.pages.contains(plan.tree_id),
    ensures
        kept(t, plan, n).len() >= kept_pages(t, plan.pages, n).len() + if root < n {
            1int
        } else {
            0int
        },
    decreases n,
{
    if n > 0 {
        lemma_kept_count(t, plan, (n - 1) as nat, root);
    }
}

/// What a lookup in the merged document gives for an identifier of the pool:
/// what became of the object, or nothing where the object was left out.
pub proof fn lemma_merged_objects(docs: Seq<DocumentModel>)
    requires
        merge_failure(docs) is None,
    ensures
        ascending(merged(docs).objects),
        merged(docs).objects.len() > kept(
            pool(docs, docs.len()),
            plan_of(docs),
            pool(docs, docs.len()).len(),
        ).len(),
        forall|j: int|
            0 <= j < pool(docs, docs.len()).len() ==> table_get(
                merged(docs).objects,
                (#[trigger] pool(docs, docs.len())[j]).0,
            ) == match emitted(pool(docs, docs.len())[j], plan_of(docs)) {
                Some(e) => Some(e.1),
                None => None,
            },
{
    let n = docs.len();
    let t = pool(docs, n);
    let plan = plan_of(docs);
    let marks = bookmarks_of(docs, n);
    let free = start_of(docs, n);
    let k = kept(t, plan, t.len());
    let tail = outline_objects(free, marks, marks.len());
    let o = merged(docs).objects;
    lemma_start_grows(docs, 0, n);
    lemma_pool(docs, n);
    lemma_bookmarks(docs, n);
    lemma_kept(t, plan, t.len());
    lemma_outline_objects(free, marks, marks.len());
    assert(o =~= k + tail);
    assert forall|a: int, b: int| 0 <= a < b < o.len() implies (#[trigger] o[a]).0.key() < (
    #[trigger] o[b]).0.key() by {
        if a < k.len() {
            assert(o[a] == k[a]);
        } else {
            assert(o[a] == tail[a - k.len()]);
        }
        if b < k.len() {
            assert(o[b] == k[b]);
        } else {
            assert(o[b] == tail[b - k.len()]);
        }
    }
    assert forall|j: int| 0 <= j < t.len() implies table_get(o, (#[trigger] t[j]).0) == match emitted(
        t[j],
        plan,
    ) {
        Some(e) => Some(e.1),
        None => None,
    } by {
        let id = t[j].0;
        assert(id == renumbered_id(1, j));
        lemma_table_has(o, id);
        match emitted(t[j], plan) {
            Some(e) => {
                let x = choose|x: int| 0 <= x < k.len() && #[trigger] k[x] == e;
                assert(o[x] == k[x]);
                assert(o[x].0 == id);
            },
            None => {
                if table_has(o, id) {
                    let y = choose|y: int| 0 <= y < o.len() && (#[trigger] o[y]).0 == id;
                    if y < k.len() {
                        assert(o[y] == k[y]);
                        assert(emitted(t[k[y].0.number - 1], plan) == Some(k[y]));
                    } else {
                        assert(o[y] == tail[y - k.len()]);
                    }
                }
            },
        }
    }
}

/// The page tree of the merged document: its root stands where the first page
/// tree node of the pool stood, its pages are the kept pages in the order of
/// their identifiers, and its `Count` is their number.
pub proof fn lemma_merged_pages(docs: Seq<DocumentModel>)
    requires
        merge_failure(docs) is None,
        all_well_formed(docs),
    ensures
        page_root(merged(docs)) == Some(plan_of(docs).tree_id),
        table_get(merged(docs).objects, plan_of(docs).tree_id) == Some(
            Value::Dictionary(plan_of(docs).tree),
        ),
        pages_of(merged(docs)) == listed_once(
            page_pool(docs, docs.len()),
            page_pool(docs, docs.len()).len(),
        ),
        crate::pages::walk_ends(
            merged(docs).objects,
            seq![plan_of(docs).tree_id],
            merged(docs).objects.len(),
        ),
        dict_get(plan_of(docs).tree, COUNT@) == Some(
            Value::Integer(pages_of(merged(docs)).len() as i64),
        ),
        count_holds(merged(docs)),
        catalog_holds(merged(docs)),
        parents_hold(merged(docs)),
        table_get(merged(docs).objects, plan_of(docs).catalog_id) == Some(
            Value::Dictionary(plan_of(docs).catalog),
        ),
{
    let n = docs.len();
    let t = pool(docs, n);
    let pages = page_pool(docs, n);
    let plan = plan_of(docs);
    let out = merged(docs);
    let o = out.objects;
    let kids = listed_once(pages, pages.len());
    let sorted = kept_pages(t, pages, t.len());
    let root = tree_slot(docs);
    let cat = catalog_slot(docs);
    lemma_start_grows(docs, 0, n);
    lemma_pool(docs, n);
    lemma_page_pool(docs, n, n);
    lemma_pool_unique(docs, n);
    lemma_merged_objects(docs);
    lemma_kept_pages(t, pages, t.len());
    lemma_listed_once(pages, pages.len());
    // The pages in page order are as many as the pages in the order of the pool.
    assert(kids.len() <= sorted.len()) by {
        assert(sorted.no_duplicates()) by {
            assert forall|a: int, b: int|
                0 <= a < sorted.len() && 0 <= b < sorted.len() && a != b implies sorted[a]
                != sorted[b] by {
                if a < b {
                    assert(sorted[a].number < sorted[b].number);
                } else {
                    assert(sorted[b].number < sorted[a].number);
                }
            }
        }
        assert(kids.to_set().subset_of(sorted.to_set())) by {
            assert forall|q: ObjectId| kids.contains(q) implies sorted.contains(q) by {
                let y = choose|y: int| 0 <= y < pages.len() && #[trigger] pages[y] == q;
                assert(is_page_of(t, pages[y]));
                assert(pages.contains(t[q.number - 1].0));
            }
        }
        kids.unique_seq_to_set();
        sorted.unique_seq_to_set();
        vstd::set_lib::lemma_len_subset(kids.to_set(), sorted.to_set());
    }
    lemma_first_node(t, PAGES@, 0);
    lemma_first_node(t, CATALOG@, 0);
    lemma_names_differ();
    // Neither the page tree root nor the catalog is a page.
    assert(!pages.contains(t[root].0)) by {
        if pages.contains(t[root].0) {
            let x = choose|x: int| 0 <= x < pages.len() && pages[x] == t[root].0;
            assert(is_page_of(t, pages[x]));
        }
    }
    assert(!pages.contains(t[cat].0)) by {
        if pages.contains(t[cat].0) {
            let x = choose|x: int| 0 <= x < pages.len() && pages[x] == t[cat].0;
            assert(is_page_of(t, pages[x]));
        }
    }
    assert(root != cat);
    assert(t[root].0 == renumbered_id(1, root));
    assert(t[cat].0 == renumbered_id(1, cat));
    // The trailer leads to the catalog, the catalog to the page tree root.
    reveal_with_fuel(find_from, 2);
    assert(root_of(out) == Some(plan.catalog_id));
    assert(table_get(o, t[cat].0) == Some(Value::Dictionary(plan.catalog)));
    let c = t[cat].1->Dictionary_0;
    let named = dict_set(c, PAGES@, Value::Reference(plan.tree_id));
    lemma_get_after_set(c, PAGES@, Value::Reference(plan.tree_id), PAGES@);
    lemma_get_after_remove(named, OUTLINES@, PAGES@);
    lemma_get_after_set(
        dict_remove(named, OUTLINES@),
        OUTLINES@,
        Value::Reference(crate::outline::outline_id(start_of(docs, n))),
        PAGES@,
    );
    assert(dict_get(plan.catalog, PAGES@) == Some(Value::Reference(plan.tree_id)));
    assert(page_root(out) == Some(plan.tree_id));
    assert(dict_type(plan.catalog) == Some(CATALOG@)) by {
        assert(TYPE@.len() == 4 && PAGES@.len() == 5 && OUTLINES@.len() == 8);
        lemma_get_after_set(c, PAGES@, Value::Reference(plan.tree_id), TYPE@);
        lemma_get_after_remove(named, OUTLINES@, TYPE@);
        lemma_get_after_set(
            dict_remove(named, OUTLINES@),
            OUTLINES@,
            Value::Reference(crate::outline::outline_id(start_of(docs, n))),
            TYPE@,
        );
    }
    // The root is a page tree node whose kids are the kept pages.
    assert(table_get(o, t[root].0) == Some(Value::Dictionary(plan.tree)));
    let tree = merged_tree(t, t.len());
    lemma_merged_tree_type(t, t.len(), root);
    let counted = dict_set(tree, COUNT@, Value::Integer(kids.len() as i64));
    lemma_get_after_set(tree, COUNT@, Value::Integer(kids.len() as i64), TYPE@);
    lemma_get_after_set(counted, KIDS@, Value::Array(references(kids)), TYPE@);
    lemma_get_after_set(counted, KIDS@, Value::Array(references(kids)), COUNT@);
    lemma_get_after_set(counted, KIDS@, Value::Array(references(kids)), KIDS@);
    lemma_get_after_set(tree, COUNT@, Value::Integer(kids.len() as i64), COUNT@);
    assert(dict_type(plan.tree) == Some(PAGES@));
    lemma_kid_ids(kids, 0);
    assert(kids.subrange(0, kids.len() as int) =~= kids);
    assert(crate::pages::node_at(o, plan.tree_id) == Node::Inner(kids));
    // Each kid is a page of the merged document.
    assert forall|x: int| 0 <= x < kids.len() implies crate::pages::node_at(o, #[trigger] kids[x]) is Leaf by {
        let q = kids[x];
        assert(kids.contains(q));
        let first = choose|k: int| 0 <= k < pages.len() && #[trigger] pages[k] == q;
        assert(pages.contains(q));
        let y = choose|y: int| 0 <= y < pages.len() && pages[y] == q;
        assert(is_page_of(t, pages[y]));
        let j = q.number - 1;
        assert(t[j].0 == q);
        assert(table_get(o, t[j].0) == Some(reparented(t[j].1, plan.tree_id)));
        let pd = t[j].1->Dictionary_0;
        lemma_get_after_set(pd, PARENT@, Value::Reference(plan.tree_id), TYPE@);
    }
    assert forall|x: int| 0 <= x < kids.len() implies match table_get(o, #[trigger] kids[x]) {
        Some(Value::Dictionary(page)) => dict_get(page, PARENT@) == Some(
            Value::Reference(plan.tree_id),
        ),
        _ => false,
    } by {
        let q = kids[x];
        assert(kids.contains(q));
        let first = choose|k: int| 0 <= k < pages.len() && #[trigger] pages[k] == q;
        assert(pages.contains(q));
        let y = choose|y: int| 0 <= y < pages.len() && pages[y] == q;
        assert(is_page_of(t, pages[y]));
        let j = q.number - 1;
        assert(t[j].0 == q);
        assert(table_get(o, t[j].0) == Some(reparented(t[j].1, plan.tree_id)));
        let pd = t[j].1->Dictionary_0;
        lemma_get_after_set(pd, PARENT@, Value::Reference(plan.tree_id), PARENT@);
    }
    lemma_kept_count(t, plan, t.len(), root);
    reveal_with_fuel(walk, 2);
    let first = seq![plan.tree_id];
    assert(first.subrange(1, 1) =~= Seq::<ObjectId>::empty());
    assert(kids + Seq::<ObjectId>::empty() =~= kids);
    lemma_walk_pages(o, kids, (o.len() - 1) as nat);
    assert(walk(o, first, o.len()) == kids);
    assert(crate::pages::walk_ends(o, first, o.len())) by {
        reveal_with_fuel(crate::pages::walk_ends, 2);
    }
}

/// The names that the merge tells apart are different names.
pub proof fn lemma_names_differ()
    ensures
        PAGE@ != PAGES@,
        PAGE@ != CATALOG@,
        PAGES@ != CATALOG@,
        OUTLINES@ != PAGES@,
        TYPE@ != COUNT@,
        TYPE@ != KIDS@,
        TYPE@ != PARENT@,
        COUNT@ != KIDS@,
{
    assert(PAGE@.len() == 4 && PAGES@.len() == 5 && CATALOG@.len() == 7 && OUTLINES@.len() == 8
        && COUNT@.len() == 5 && PARENT@.len() == 6);
    assert(TYPE@[0] != KIDS@[0]);
}

/// `first_node` finds the first dictionary of the type, if there is one.
pub proof fn lemma_first_node(t: TableModel, name: Seq<u8>, from: int)
    requires
        0 <= from <= t.len(),
    ensures
        from <= first_node(t, name, from) <= t.len(),
        first_node(t, name, from) < t.len() ==> is_node(t[first_node(t, name, from)].1, name),
    decreases t.len() - from,
{
    if from < t.len() && !is_node(t[from].1, name) {
        lemma_first_node(t, name, from + 1);
    }
}

/// The number of pages of the first `n` documents together.
pub open spec fn page_total(docs: Seq<DocumentModel>, n: nat) -> nat
    decreases n,
{
    if n == 0 || n > docs.len() {
        0
    } else {
        page_total(docs, (n - 1) as nat) + pages_of(docs[n - 1]).len()
    }
}

/// The page pool holds no more pages than the pool holds objects.
pub proof fn lemma_page_pool_len(docs: Seq<DocumentModel>, n: nat)
    requires
        n <= docs.len(),
    ensures
        page_pool(docs, n).len() <= pool(docs, n).len(),
    decreases n,
{
    if n > 0 {
        lemma_page_pool_len(docs, (n - 1) as nat);
        lemma_pool_len(docs, n);
        lemma_pool_len(docs, (n - 1) as nat);
        lemma_pages_are_leaves(docs[n - 1]);
    }
}

/// No page tree of the documents lists a page twice.
pub open spec fn pages_listed_once(docs: Seq<DocumentModel>) -> bool {
    forall|i: int| 0 <= i < docs.len() ==> (#[trigger] pages_of(docs[i])).no_duplicates()
}

/// The page pool holds the pages of the documents, each under a number of its
/// own where no page tree lists a page twice.
pub proof fn lemma_page_pool_distinct(docs: Seq<DocumentModel>, n: nat, m: nat)
    requires
        m <= n <= docs.len(),
        all_well_formed(docs),
        pages_listed_once(docs),
        start_of(docs, n) <= u32::MAX,
    ensures
        page_pool(docs, m).len() == page_total(docs, m),
        page_pool(docs, m).no_duplicates(),
        forall|x: int|
            0 <= x < page_pool(docs, m).len() ==> (#[trigger] page_pool(docs, m)[x]).number
                < start_of(docs, m),
    decreases m,
{
    if m > 0 {
        lemma_page_pool_distinct(docs, n, (m - 1) as nat);
        let before = page_pool(docs, (m - 1) as nat);
        let d = docs[m - 1];
        let start = start_of(docs, (m - 1) as nat);
        let own = moved_pages(d, start);
        let all = page_pool(docs, m);
        assert(pages_of(docs[m - 1]).no_duplicates());
        assert(well_formed(d));
        assert forall|x: int| 0 <= x < all.len() implies (#[trigger] all[x]).number < start_of(
            docs,
            m,
        ) by {
            if x < before.len() {
                assert(all[x] == before[x]);
            } else {
                assert(all[x] == own[x - before.len()]);
                lemma_moved_pages(docs, n, m - 1, x - before.len());
            }
        }
        assert forall|x: int, y: int|
            0 <= x < all.len() && 0 <= y < all.len() && x != y implies all[x] != all[y] by {
            if x < before.len() {
                assert(all[x] == before[x]);
            } else {
                assert(all[x] == own[x - before.len()]);
                lemma_moved_pages(docs, n, m - 1, x - before.len());
            }
            if y < before.len() {
                assert(all[y] == before[y]);
            } else {
                assert(all[y] == own[y - before.len()]);
                lemma_moved_pages(docs, n, m - 1, y - before.len());
            }
            if x >= before.len() && y >= before.len() {
                let a = pages_of(d)[x - before.len()];
                let b = pages_of(d)[y - before.len()];
                assert(a != b);
                lemma_pages_are_leaves(d);
                lemma_table_has(d.objects, a);
                lemma_table_has(d.objects, b);
                lemma_slot_from(d.objects, a, 0);
                lemma_slot_from(d.objects, b, 0);
            }
        }
    }
}

/// Merging documents gives a document whose page tree root counts the pages
/// of all of them, where no page tree of theirs lists a page twice.
pub proof fn lemma_merged_page_total(docs: Seq<DocumentModel>)
    requires
        merge_failure(docs) is None,
        all_well_formed(docs),
        pages_listed_once(docs),
    ensures
        table_get(merged(docs).objects, page_root(merged(docs))->Some_0) == Some(
            Value::Dictionary(plan_of(docs).tree),
        ),
        dict_get(plan_of(docs).tree, COUNT@) == Some(
            Value::Integer(page_total(docs, docs.len()) as i64),
        ),
        pages_of(merged(docs)).len() == page_total(docs, docs.len()),
{
    let n = docs.len();
    let pages = page_pool(docs, n);
    lemma_start_grows(docs, 0, n);
    lemma_pool(docs, n);
    lemma_merged_pages(docs);
    lemma_page_pool_distinct(docs, n, n);
    lemma_listed_once(pages, pages.len());
    assert(pages.subrange(0, pages.len() as int) =~= pages);
}

/// The merged document has one page tree node, its page tree root: whatever
/// holds of the root holds of every page tree node.
pub proof fn lemma_merged_one_tree(docs: Seq<DocumentModel>)
    requires
        merge_failure(docs) is None,
        all_well_formed(docs),
    ensures
        forall|i: int|
            0 <= i < merged(docs).objects.len() && is_node(
                (#[trigger] merged(docs).objects[i]).1,
                PAGES@,
            ) ==> merged(docs).objects[i].0 == plan_of(docs).tree_id,
{
    let n = docs.len();
    let t = pool(docs, n);
    let pages = page_pool(docs, n);
    let plan = plan_of(docs);
    let marks = bookmarks_of(docs, n);
    let free = start_of(docs, n);
    let k = kept(t, plan, t.len());
    let tail = outline_objects(free, marks, marks.len());
    let o = merged(docs).objects;
    lemma_start_grows(docs, 0, n);
    lemma_pool(docs, n);
    lemma_bookmarks(docs, n);
    lemma_page_pool(docs, n, n);
    lemma_kept(t, plan, t.len());
    lemma_first_node(t, CATALOG@, 0);
    lemma_names_differ();
    lemma_outline_objects(free, marks, marks.len());
    assert(o =~= k + tail);
    let cat = catalog_slot(docs);
    let c = t[cat].1->Dictionary_0;
    let named = dict_set(c, PAGES@, Value::Reference(plan.tree_id));
    assert(dict_type(plan.catalog) == Some(CATALOG@)) by {
        assert(TYPE@.len() == 4 && PAGES@.len() == 5 && OUTLINES@.len() == 8);
        lemma_get_after_set(c, PAGES@, Value::Reference(plan.tree_id), TYPE@);
        lemma_get_after_remove(named, OUTLINES@, TYPE@);
        lemma_get_after_set(
            dict_remove(named, OUTLINES@),
            OUTLINES@,
            Value::Reference(outline_id(free)),
            TYPE@,
        );
    }
    assert forall|i: int| 0 <= i < o.len() && is_node((#[trigger] o[i]).1, PAGES@) implies o[i].0
        == plan.tree_id by {
        if i < k.len() {
            assert(o[i] == k[i]);
            let e = k[i];
            let source = t[e.0.number - 1];
            assert(emitted(source, plan) == Some(e));
            if plan.pages.contains(source.0) {
                let y = choose|y: int| 0 <= y < pages.len() && pages[y] == source.0;
                assert(is_page_of(t, pages[y]));
                let pd = source.1->Dictionary_0;
                lemma_get_after_set(pd, PARENT@, Value::Reference(plan.tree_id), TYPE@);
            }
        } else {
            let y = i - k.len();
            assert(o[i] == tail[y]);
            let b = if y == 0 { 0 } else { (y - 1) / 2 };
            lemma_outline_untyped(free, b, marks.len() as int, marks[b]);
            if y == 0 {
            } else if y == 1 + 2 * b {
                assert(tail[y] == tail[1 + 2 * b]);
            } else {
                assert(tail[y] == tail[2 + 2 * b]);
            }
        }
    }
}

/// Every page tree node of the merged document counts the pages below it.
pub proof fn lemma_merged_counts(docs: Seq<DocumentModel>)
    requires
        merge_failure(docs) is None,
        all_well_formed(docs),
    ensures
        counts_hold(merged(docs).objects),
{
    lemma_merged_objects(docs);
    lemma_merged_pages(docs);
    lemma_merged_one_tree(docs);
    lemma_one_tree_counts(merged(docs));
}

/// Every bookmark leads to a page of the page pool.
pub proof fn lemma_bookmark_pages(docs: Seq<DocumentModel>, n: nat)
    requires
        n <= docs.len(),
    ensures
        forall|x: int|
            0 <= x < bookmarks_of(docs, n).len() ==> page_pool(docs, n).contains(
                (#[trigger] bookmarks_of(docs, n)[x]).page,
            ),
    decreases n,
{
    if n > 0 {
        lemma_bookmark_pages(docs, (n - 1) as nat);
        let before = bookmarks_of(docs, (n - 1) as nat);
        let marks = bookmarks_of(docs, n);
        let pool_before = page_pool(docs, (n - 1) as nat);
        let own = moved_pages(docs[n - 1], start_of(docs, (n - 1) as nat));
        let all = page_pool(docs, n);
        assert forall|x: int| 0 <= x < marks.len() implies all.contains((#[trigger] marks[x]).page) by {
            if x < before.len() {
                assert(marks[x] == before[x]);
                let y = choose|y: int| 0 <= y < pool_before.len() && pool_before[y] == before[x].page;
                assert(all[y] == before[x].page);
            } else {
                assert(all[pool_before.len() as int] == own[0]);
            }
        }
    }
}

/// Every reference in an object that the merge keeps from the pool leads to
/// an object of the merged document.
pub open spec fn kept_objects_resolve(docs: Seq<DocumentModel>) -> bool {
    forall|x: int|
        0 <= x < kept(pool(docs, docs.len()), plan_of(docs), pool(docs, docs.len()).len()).len()
            ==> resolves(
            merged(docs).objects,
            (#[trigger] kept(pool(docs, docs.len()), plan_of(docs), pool(docs, docs.len()).len())[x]).1,
        )
}

/// The nodes that a merge builds refer to objects of the merged document,
/// so no reference dangles in the merged document exactly where none dangles
/// in the objects that it keeps from the pool.
pub proof fn lemma_merged_self_contained(docs: Seq<DocumentModel>)
    requires
        merge_failure(docs) is None,
        all_well_formed(docs),
    ensures
        self_contained(merged(docs)) <==> kept_objects_resolve(docs),
{
    let n = docs.len();
    let t = pool(docs, n);
    let pages = page_pool(docs, n);
    let plan = plan_of(docs);
    let marks = bookmarks_of(docs, n);
    let free = start_of(docs, n);
    let k = kept(t, plan, t.len());
    let tail = outline_objects(free, marks, marks.len());
    let out = merged(docs);
    let o = out.objects;
    lemma_start_grows(docs, 0, n);
    lemma_pool(docs, n);
    lemma_bookmarks(docs, n);
    lemma_bookmark_pages(docs, n);
    lemma_page_pool(docs, n, n);
    lemma_merged_objects(docs);
    lemma_merged_pages(docs);
    lemma_outline_objects(free, marks, marks.len());
    assert(o =~= k + tail);
    assert forall|x: int| 0 <= x < k.len() implies (#[trigger] o[x]) == k[x] by {}
    // The trailer names the catalog.
    assert(resolves(o, Value::Dictionary(out.trailer))) by {
        let trailer = out.trailer;
        assert forall|r: ObjectId| value_refs(Value::Dictionary(trailer)).contains(r) implies r
            == plan.catalog_id by {
            crate::walker::lemma_refs_in_entries(trailer, trailer.len(), r);
            assert(value_refs(trailer[0].1) =~= seq![plan.catalog_id]);
        }
        assert forall|j: int| 0 <= j < value_refs(Value::Dictionary(trailer)).len() implies table_has(
            o,
            #[trigger] value_refs(Value::Dictionary(trailer))[j],
        ) by {
            assert(value_refs(Value::Dictionary(trailer)).contains(
                value_refs(Value::Dictionary(trailer))[j],
            ));
        }
    }
    // The objects of the outline refer to each other and to pages.
    assert forall|y: int| 0 <= y < tail.len() implies resolves(o, (#[trigger] tail[y]).1) by {
        let v = tail[y].1;
        assert forall|j: int| 0 <= j < value_refs(v).len() implies table_has(
            o,
            #[trigger] value_refs(v)[j],
        ) by {
            let r = value_refs(v)[j];
            assert(value_refs(v).contains(r));
            let count = marks.len() as int;
            let b = if y == 0 { 0 } else { (y - 1) / 2 };
            lemma_outline_refs(free, b, count, marks[b], r);
            lemma_table_has(o, r);
            if y == 0 || y == 1 + 2 * b {
                assert(tail[y] == tail[if y == 0 { 0 } else { 1 + 2 * b }]);
                // The target is the root, an item or an action of the outline.
                let z = r.number - free;
                assert(0 <= z < tail.len());
                assert(tail[z].0 == r);
                assert(o[k.len() + z] == tail[z]);
            } else {
                assert(y == 2 + 2 * b);
                assert(tail[y] == tail[2 + 2 * b]);
                assert(pages.contains(marks[b].page));
                let w = choose|w: int| 0 <= w < pages.len() && pages[w] == marks[b].page;
                assert(is_page_of(t, pages[w]));
                let j = r.number - 1;
                assert(pages.contains(t[j].0));
                assert(table_get(o, t[j].0) is Some);
            }
        }
    }
    if forall|x: int| 0 <= x < k.len() ==> resolves(o, (#[trigger] k[x]).1) {
        assert forall|i: int| 0 <= i < o.len() implies resolves(o, (#[trigger] o[i]).1) by {
            if i < k.len() {
                assert(o[i] == k[i]);
            } else {
                assert(o[i] == tail[i - k.len()]);
            }
        }
    }
    if self_contained(out) {
        assert forall|x: int| 0 <= x < k.len() implies resolves(o, (#[trigger] k[x]).1) by {
            assert(o[x] == k[x]);
        }
    }
}

/// The merge takes over the object of the pool under `id`.
pub open spec fn taken(docs: Seq<DocumentModel>, id: ObjectId) -> bool {
    let t = pool(docs, docs.len());
    table_has(t, id) && emitted(t[table_slot(t, id)], plan_of(docs)) is Some
}

/// The reference `r` leads to no object of the pool that the merge leaves out.
pub open spec fn leads_on(docs: Seq<DocumentModel>, r: ObjectId) -> bool {
    table_has(pool(docs, docs.len()), r) ==> taken(docs, r)
}

/// No reference in `v` leads to an object that the merge leaves out.
pub open spec fn value_leads_on(docs: Seq<DocumentModel>, v: Value) -> bool {
    forall|r: ObjectId| #[trigger] value_refs(v).contains(r) ==> leads_on(docs, r)
}

/// No reference in an entry of `d`, but for the entries named `one` and
/// `other`, leads to an object that the merge leaves out.
pub open spec fn entries_lead_on(
    docs: Seq<DocumentModel>,
    d: DictModel,
    one: Seq<u8>,
    other: Seq<u8>,
) -> bool {
    forall|k: int, r: ObjectId|
        0 <= k < d.len() && d[k].0 != one && d[k].0 != other && #[trigger] value_refs(
            d[k].1,
        ).contains(r) ==> leads_on(docs, r)
}

/// The object at position `j` of the pool refers to nothing that the merge
/// leaves out, but in the entries that the merge writes anew: the `Parent`
/// of a page, the `Kids` and `Count` of a page tree node, the `Pages` and
/// `Outlines` of the catalog that stays. Of an object that the merge leaves
/// out, but for the page tree nodes that it lays over each other, nothing is
/// asked.
pub open spec fn apart_at(docs: Seq<DocumentModel>, j: int) -> bool {
    let e = pool(docs, docs.len())[j];
    let plan = plan_of(docs);
    if plan.pages.contains(e.0) {
        e.1 is Dictionary ==> entries_lead_on(docs, e.1->Dictionary_0, PARENT@, PARENT@)
    } else if is_node(e.1, PAGES@) {
        entries_lead_on(docs, e.1->Dictionary_0, KIDS@, COUNT@)
    } else if e.0 == plan.catalog_id {
        e.1 is Dictionary ==> entries_lead_on(docs, e.1->Dictionary_0, PAGES@, OUTLINES@)
    } else if emitted(e, plan) is Some {
        value_leads_on(docs, e.1)
    } else {
        true
    }
}

/// What the merge leaves out of the documents is kept apart in them: the
/// catalogs, the page tree nodes, the outlines and the pages that no page
/// tree lists are referred to only by each other, and by the entries that the
/// merge writes anew.
pub open spec fn kept_apart(docs: Seq<DocumentModel>) -> bool {
    forall|j: int| 0 <= j < pool(docs, docs.len()).len() ==> #[trigger] apart_at(docs, j)
}

/// No reference dangles in any of the documents.
pub open spec fn all_self_contained(docs: Seq<DocumentModel>) -> bool {
    forall|i: int| 0 <= i < docs.len() ==> self_contained(#[trigger] docs[i])
}

/// In the pool of documents in which no reference dangles, every reference
/// leads to an object of the pool.
pub proof fn lemma_pool_resolves(docs: Seq<DocumentModel>, n: nat)
    requires
        n <= docs.len(),
        all_well_formed(docs),
        all_self_contained(docs),
        start_of(docs, n) <= u32::MAX,
    ensures
        forall|j: int, r: ObjectId|
            0 <= j < pool(docs, n).len() && #[trigger] value_refs(
                (#[trigger] pool(docs, n)[j]).1,
            ).contains(r) ==> r.generation == 0 && 1 <= r.number <= pool(docs, n).len(),
    decreases n,
{
    if n > 0 {
        lemma_start_grows(docs, (n - 1) as nat, n);
        lemma_start_grows(docs, 0, (n - 1) as nat);
        lemma_pool_resolves(docs, (n - 1) as nat);
        lemma_pool_len(docs, n);
        lemma_pool_len(docs, (n - 1) as nat);
        let before = pool(docs, (n - 1) as nat);
        let d = docs[n - 1];
        let start = start_of(docs, (n - 1) as nat);
        let own = renumbered_objects(d.objects, start);
        let p = pool(docs, n);
        let mapping = numbering(table_ids(d.objects), start);
        assert(well_formed(d) && self_contained(d));
        assert forall|j: int, r: ObjectId|
            0 <= j < p.len() && #[trigger] value_refs((#[trigger] p[j]).1).contains(
                r,
            ) implies r.generation == 0 && 1 <= r.number <= p.len() by {
            if j < before.len() {
                assert(p[j] == before[j]);
                assert(value_refs(before[j].1).contains(r));
            } else {
                let s = j - before.len();
                assert(p[j] == own[s]);
                let v = d.objects[s].1;
                crate::walker::lemma_remap_refs(v, mapping);
                let mapped = crate::walker::remap_ids(value_refs(v), mapping);
                let k = choose|k: int| 0 <= k < mapped.len() && mapped[k] == r;
                let target = value_refs(v)[k];
                assert(crate::document::resolves(d.objects, d.objects[s].1));
                assert(table_has(d.objects, target));
                lemma_table_ids(d.objects, target);
                lemma_slot_from(d.objects, target, 0);
            }
        }
    }
}

/// A reference to a page leads to one of the pages referred to.
pub proof fn lemma_references_refs(ids: Seq<ObjectId>, n: nat, r: ObjectId)
    requires
        n <= ids.len(),
        crate::walker::items_refs(references(ids), n).contains(r),
    ensures
        ids.contains(r),
    decreases n,
{
    if n > 0 {
        let all = crate::walker::items_refs(references(ids), n);
        let head = crate::walker::items_refs(references(ids), (n - 1) as nat);
        let k = choose|k: int| 0 <= k < all.len() && all[k] == r;
        if k < head.len() {
            assert(head[k] == r);
            lemma_references_refs(ids, (n - 1) as nat, r);
        } else {
            assert(value_refs(references(ids)[n - 1]) =~= seq![ids[n - 1]]);
            assert(ids[n - 1] == r);
        }
    }
}

/// `entry` is an entry of one of the page tree nodes among the first `n`
/// objects.
pub open spec fn from_node(t: TableModel, n: nat, entry: (Seq<u8>, Value)) -> bool {
    exists|j: int, k: int|
        0 <= j < n && j < t.len() && is_node(t[j].1, PAGES@) && 0 <= k
            < t[j].1->Dictionary_0.len() && #[trigger] t[j].1->Dictionary_0[k] == entry
}

proof fn lemma_from_node(t: TableModel, n: nat, m: nat, entry: (Seq<u8>, Value))
    requires
        n <= m,
        from_node(t, n, entry),
    ensures
        from_node(t, m, entry),
{
    let (j, k) = choose|j: int, k: int|
        0 <= j < n && j < t.len() && is_node(t[j].1, PAGES@) && 0 <= k
            < t[j].1->Dictionary_0.len() && #[trigger] t[j].1->Dictionary_0[k] == entry;
    assert(0 <= j < m && t[j].1->Dictionary_0[k] == entry);
}

/// The merged page tree node has no two entries of one name, and each of its
/// entries is an entry of a page tree node of the pool.
pub proof fn lemma_merged_tree_entries(t: TableModel, n: nat)
    requires
        n <= t.len(),
        unique_entries(t),
    ensures
        unique_names(merged_tree(t, n)),
        forall|y: int|
            0 <= y < merged_tree(t, n).len() ==> from_node(t, n, #[trigger] merged_tree(t, n)[y]),
    decreases n,
{
    if n > 0 {
        lemma_merged_tree_entries(t, (n - 1) as nat);
        let before = merged_tree(t, (n - 1) as nat);
        assert forall|y: int| 0 <= y < before.len() implies from_node(t, n, #[trigger] before[y]) by {
            lemma_from_node(t, (n - 1) as nat, n, before[y]);
        }
        if is_node(t[n - 1].1, PAGES@) {
            let d = t[n - 1].1->Dictionary_0;
            lemma_overlay_entries(t, n, before, d, d.len());
        }
    }
}

/// Laying the first `m` entries of the node at position `n - 1` over what was
/// merged before keeps the names apart and the entries those of nodes.
proof fn lemma_overlay_entries(t: TableModel, n: nat, base: DictModel, over: DictModel, m: nat)
    requires
        0 < n <= t.len(),
        is_node(t[n - 1].1, PAGES@),
        over == t[n - 1].1->Dictionary_0,
        m <= over.len(),
        unique_names(base),
        forall|y: int| 0 <= y < base.len() ==> from_node(t, n, #[trigger] base[y]),
    ensures
        unique_names(overlay(base, over, m)),
        forall|y: int|
            0 <= y < overlay(base, over, m).len() ==> from_node(
                t,
                n,
                #[trigger] overlay(base, over, m)[y],
            ),
    decreases m,
{
    if m > 0 {
        lemma_overlay_entries(t, n, base, over, (m - 1) as nat);
        let before = overlay(base, over, (m - 1) as nat);
        let after = overlay(base, over, m);
        crate::object::lemma_set_keeps_names_unique(before, over[m - 1].0, over[m - 1].1);
        assert forall|y: int| 0 <= y < after.len() implies from_node(t, n, #[trigger] after[y]) by {
            crate::object::lemma_entry_after_set(before, over[m - 1].0, over[m - 1].1, y);
            if after[y] == (over[m - 1].0, over[m - 1].1) {
                assert(t[n - 1].1->Dictionary_0[m - 1] == after[y]);
            } else {
                assert(after[y] == before[y]);
            }
        }
    }
}

/// A reference that leads on leads to an object of the merged document.
proof fn lemma_target(docs: Seq<DocumentModel>, r: ObjectId)
    requires
        merge_failure(docs) is None,
        r.generation == 0,
        1 <= r.number <= pool(docs, docs.len()).len(),
        leads_on(docs, r),
    ensures
        table_has(merged(docs).objects, r),
{
    let n = docs.len();
    let t = pool(docs, n);
    lemma_start_grows(docs, 0, n);
    lemma_pool(docs, n);
    lemma_merged_objects(docs);
    let j = r.number - 1;
    assert(t[j].0 == r);
    lemma_table_has(t, r);
    assert(table_get(merged(docs).objects, t[j].0) is Some);
}

/// Where no reference dangles in the documents and what the merge leaves out
/// is kept apart in them, every reference in an object that the merge keeps
/// leads to an object of the merged document.
#[verifier::rlimit(60)]
pub proof fn lemma_kept_objects_resolve(docs: Seq<DocumentModel>)
    requires
        merge_failure(docs) is None,
        all_well_formed(docs),
        all_self_contained(docs),
        kept_apart(docs),
    ensures
        kept_objects_resolve(docs),
{
    let n = docs.len();
    let t = pool(docs, n);
    let pages = page_pool(docs, n);
    let plan = plan_of(docs);
    let marks = bookmarks_of(docs, n);
    let free = start_of(docs, n);
    let k = kept(t, plan, t.len());
    let tail = outline_objects(free, marks, marks.len());
    let out = merged(docs);
    let o = out.objects;
    let kids = listed_once(pages, pages.len());
    let cat = catalog_slot(docs);
    lemma_listed_once(pages, pages.len());
    lemma_start_grows(docs, 0, n);
    lemma_pool(docs, n);
    lemma_pool_resolves(docs, n);
    lemma_pool_unique(docs, n);
    lemma_bookmarks(docs, n);
    lemma_page_pool(docs, n, n);
    lemma_kept(t, plan, t.len());
    lemma_merged_objects(docs);
    lemma_merged_pages(docs);
    lemma_pages_are_leaves(out);
    lemma_first_node(t, CATALOG@, 0);
    lemma_first_node(t, PAGES@, 0);
    lemma_names_differ();
    lemma_outline_objects(free, marks, marks.len());
    lemma_merged_tree_entries(t, t.len());
    assert(o =~= k + tail);
    assert(table_has(o, outline_id(free))) by {
        lemma_table_has(o, outline_id(free));
        assert(o[k.len() as int] == tail[0]);
    }
    assert(table_has(o, plan.tree_id));
    assert forall|x: int| 0 <= x < k.len() implies crate::document::resolves(
        o,
        (#[trigger] k[x]).1,
    ) by {
        let e = k[x];
        let j = e.0.number - 1;
        let src = t[j];
        assert(emitted(src, plan) == Some(e));
        assert(apart_at(docs, j));
        assert(src.0 == renumbered_id(1, j));
        assert forall|idx: int| 0 <= idx < value_refs(e.1).len() implies table_has(
            o,
            #[trigger] value_refs(e.1)[idx],
        ) by {
            let r = value_refs(e.1)[idx];
            assert(value_refs(e.1).contains(r));
            if plan.pages.contains(src.0) {
                let y = choose|y: int| 0 <= y < pages.len() && pages[y] == src.0;
                assert(is_page_of(t, pages[y]));
                let pd = src.1->Dictionary_0;
                let hung = dict_set(pd, PARENT@, Value::Reference(plan.tree_id));
                crate::walker::lemma_refs_in_entries(hung, hung.len(), r);
                let xk = choose|xk: int|
                    0 <= xk < hung.len() && #[trigger] value_refs(hung[xk].1).contains(r);
                crate::object::lemma_entry_after_set(
                    pd,
                    PARENT@,
                    Value::Reference(plan.tree_id),
                    xk,
                );
                if hung[xk] == (PARENT@, Value::Reference(plan.tree_id)) {
                    assert(value_refs(hung[xk].1) =~= seq![plan.tree_id]);
                } else {
                    crate::walker::lemma_entry_refs(pd, pd.len(), xk, r);
                    assert(value_refs(src.1).contains(r));
                    lemma_target(docs, r);
                }
            } else if src.0 == plan.tree_id {
                let mt = merged_tree(t, t.len());
                let size = Value::Integer(kids.len() as i64);
                let list = Value::Array(references(kids));
                let counted = dict_set(mt, COUNT@, size);
                let done = dict_set(counted, KIDS@, list);
                crate::object::lemma_set_keeps_names_unique(mt, COUNT@, size);
                crate::walker::lemma_refs_in_entries(done, done.len(), r);
                let xk = choose|xk: int|
                    0 <= xk < done.len() && #[trigger] value_refs(done[xk].1).contains(r);
                crate::object::lemma_entry_after_set(counted, KIDS@, list, xk);
                if done[xk] == (KIDS@, list) {
                    lemma_references_refs(kids, kids.len(), r);
                    let z = choose|z: int| 0 <= z < kids.len() && kids[z] == r;
                    assert(table_has(o, pages_of(out)[z]));
                } else {
                    crate::object::lemma_entry_after_set(mt, COUNT@, size, xk);
                    if counted[xk] == (COUNT@, size) {
                        assert(value_refs(size) =~= Seq::<ObjectId>::empty());
                    } else {
                        assert(from_node(t, t.len(), mt[xk]));
                        let (j2, k2) = choose|j2: int, k2: int|
                            0 <= j2 < t.len() && j2 < t.len() && is_node(t[j2].1, PAGES@) && 0
                                <= k2 < t[j2].1->Dictionary_0.len()
                                && #[trigger] t[j2].1->Dictionary_0[k2] == mt[xk];
                        let node = t[j2].1->Dictionary_0;
                        assert(apart_at(docs, j2));
                        if plan.pages.contains(t[j2].0) {
                            let y = choose|y: int| 0 <= y < pages.len() && pages[y] == t[j2].0;
                            assert(is_page_of(t, pages[y]));
                            assert(t[j2].0 == renumbered_id(1, j2));
                        }
                        crate::walker::lemma_entry_refs(node, node.len(), k2, r);
                        assert(value_refs(t[j2].1).contains(r));
                        lemma_target(docs, r);
                    }
                }
            } else if src.0 == plan.catalog_id {
                assert(t[cat].0 == renumbered_id(1, cat));
                assert(j == cat);
                let c = src.1->Dictionary_0;
                let tree = Value::Reference(plan.tree_id);
                let root = Value::Reference(outline_id(free));
                let named = dict_set(c, PAGES@, tree);
                let removed = dict_remove(named, OUTLINES@);
                let done = dict_set(removed, OUTLINES@, root);
                crate::object::lemma_set_keeps_names_unique(c, PAGES@, tree);
                crate::object::lemma_remove_drops_name(named, OUTLINES@);
                crate::walker::lemma_refs_in_entries(done, done.len(), r);
                let xk = choose|xk: int|
                    0 <= xk < done.len() && #[trigger] value_refs(done[xk].1).contains(r);
                crate::object::lemma_entry_after_set(removed, OUTLINES@, root, xk);
                if done[xk] == (OUTLINES@, root) {
                    assert(value_refs(root) =~= seq![outline_id(free)]);
                } else {
                    let y2 = crate::object::lemma_entry_after_remove(named, OUTLINES@, xk);
                    crate::object::lemma_entry_after_set(c, PAGES@, tree, y2);
                    if named[y2] == (PAGES@, tree) {
                        assert(value_refs(tree) =~= seq![plan.tree_id]);
                    } else {
                        crate::walker::lemma_entry_refs(c, c.len(), y2, r);
                        assert(value_refs(src.1).contains(r));
                        lemma_target(docs, r);
                    }
                }
            } else {
                assert(e == src);
                assert(value_refs(src.1).contains(r));
                lemma_target(docs, r);
            }
        }
    }
}

/// No reference dangles in the merged document, where none dangles in the
/// documents and what the merge leaves out is kept apart in them.
pub proof fn lemma_merged_keeps_references(docs: Seq<DocumentModel>)
    requires
        merge_failure(docs) is None,
        all_well_formed(docs),
        all_self_contained(docs),
        kept_apart(docs),
    ensures
        self_contained(merged(docs)),
{
    lemma_kept_objects_resolve(docs);
    lemma_merged_self_contained(docs);
}

} // verus!
