//! Merging documents into one.

use vstd::prelude::*;
use crate::document::{PdfDocument, DocumentModel, self_contained, well_formed};
use crate::error::Error;
use crate::ids::{add_id, holds, increasing, lemma_with_id};
use crate::merge_laws::{
    all_self_contained, all_well_formed, kept_apart, lemma_merged_counts,
    lemma_merged_keeps_references, lemma_merged_page_total, lemma_merged_pages,
    lemma_page_pool_len, page_total, pages_listed_once,
};
use crate::names::{CATALOG, COUNT, KIDS, OUTLINE, OUTLINES, PAGE, PAGE_PREFIX, PAGES, PARENT, ROOT};
use crate::object::{
    dict_remove, dict_set, Dictionary, DictModel, find_from, lemma_items_view, Object, ObjectId,
    Value, value_type,
};
use crate::outline_tree::{outline_ids, outline_members};
use crate::outline::{
    append_outline, Bookmark, BookmarkModel, bookmarks_view, outline_id, outline_objects,
};
use crate::pages::{
    catalog_holds, count_holds, counts_hold, is_node, lemma_pages_are_leaves, pages_of,
    parents_hold,
};
use crate::renumber::{renumber, renumbered, renumbered_id, renumbered_objects};
use crate::split::reparented;
use crate::table::{ascending, ObjectTable, table_ids, TableModel};
use crate::text::{decimal, decimal_digits, join};
use crate::walker::{numbering, remap_id};

verus! {

/// The models of a list of documents.
pub open spec fn documents_view(docs: Seq<PdfDocument>) -> Seq<DocumentModel> {
    Seq::new(docs.len(), |i: int| docs[i]@)
}

/// The number from which document `i` is renumbered: 1 for the first, and for
/// each other the number that follows the objects of the documents before it.
pub open spec fn start_of(docs: Seq<DocumentModel>, i: nat) -> int
    decreases i,
{
    if i == 0 || i > docs.len() {
        1
    } else {
        start_of(docs, (i - 1) as nat) + docs[i - 1].objects.len()
    }
}

/// The objects of the first `n` documents, each document renumbered from its
/// start, one document after the other.
pub open spec fn pool(docs: Seq<DocumentModel>, n: nat) -> TableModel
    decreases n,
{
    if n == 0 || n > docs.len() {
        Seq::empty()
    } else {
        pool(docs, (n - 1) as nat) + renumbered_objects(
            docs[n - 1].objects,
            start_of(docs, (n - 1) as nat),
        )
    }
}

/// The pages of `d` in page order, under the identifiers that renumbering from
/// `start` gives them.
pub open spec fn moved_pages(d: DocumentModel, start: int) -> Seq<ObjectId> {
    Seq::new(
        pages_of(d).len(),
        |k: int| remap_id(pages_of(d)[k], numbering(table_ids(d.objects), start)),
    )
}

/// The pages of the first `n` documents under their new identifiers, in page
/// order, one document after the other.
pub open spec fn page_pool(docs: Seq<DocumentModel>, n: nat) -> Seq<ObjectId>
    decreases n,
{
    if n == 0 || n > docs.len() {
        Seq::empty()
    } else {
        page_pool(docs, (n - 1) as nat) + moved_pages(docs[n - 1], start_of(docs, (n - 1) as nat))
    }
}

/// The first `n` identifiers of the outline of `d` that lead to objects of
/// `d`, under the identifiers that renumbering from `start` gives them.
pub open spec fn moved_outline(d: DocumentModel, start: int, n: nat) -> Seq<ObjectId>
    decreases n,
{
    if n == 0 || n > outline_members(d).len() {
        Seq::empty()
    } else {
        let before = moved_outline(d, start, (n - 1) as nat);
        let mapping = numbering(table_ids(d.objects), start);
        if mapping.contains_key(outline_members(d)[n - 1]) {
            before.push(mapping[outline_members(d)[n - 1]])
        } else {
            before
        }
    }
}

/// The objects of the outlines of the first `n` documents, under their new
/// identifiers, one document after the other.
pub open spec fn outline_pool(docs: Seq<DocumentModel>, n: nat) -> Seq<ObjectId>
    decreases n,
{
    if n == 0 || n > docs.len() {
        Seq::empty()
    } else {
        outline_pool(docs, (n - 1) as nat) + moved_outline(
            docs[n - 1],
            start_of(docs, (n - 1) as nat),
            outline_members(docs[n - 1]).len(),
        )
    }
}

/// The bit pattern of the real number 1.
pub const REAL_ONE: u32 = 0x3F80_0000;

/// The bookmark for a document whose first page is `page`, the page
/// `number` of the merged document: titled `Page_` and the number, blue, on
/// the top level.
pub open spec fn bookmark_for(number: nat, page: ObjectId) -> BookmarkModel {
    BookmarkModel {
        title: PAGE_PREFIX@ + decimal(number),
        color: (0, 0, REAL_ONE),
        level: 0,
        page,
    }
}

/// The bookmarks for the first `n` documents: one for each document that has
/// a page, leading to its first page.
pub open spec fn bookmarks_of(docs: Seq<DocumentModel>, n: nat) -> Seq<BookmarkModel>
    decreases n,
{
    if n == 0 || n > docs.len() {
        Seq::empty()
    } else {
        let before = bookmarks_of(docs, (n - 1) as nat);
        let pages = moved_pages(docs[n - 1], start_of(docs, (n - 1) as nat));
        if pages.len() > 0 {
            before.push(bookmark_for(page_pool(docs, (n - 1) as nat).len() + 1, pages[0]))
        } else {
            before
        }
    }
}

/// The pool holds the objects under the numbers from 1 on, without a gap.
pub proof fn lemma_pool(docs: Seq<DocumentModel>, n: nat)
    requires
        n <= docs.len(),
        start_of(docs, n) <= u32::MAX,
    ensures
        pool(docs, n).len() == start_of(docs, n) - 1,
        forall|k: int| 0 <= k < pool(docs, n).len() ==> (#[trigger] pool(docs, n)[k]).0 == renumbered_id(1, k),
        ascending(pool(docs, n)),
        forall|i: nat| i <= n ==> 1 <= #[trigger] start_of(docs, i) <= start_of(docs, n),
    decreases n,
{
    if n > 0 {
        lemma_pool(docs, (n - 1) as nat);
        let before = pool(docs, (n - 1) as nat);
        let p = pool(docs, n);
        assert forall|k: int| 0 <= k < p.len() implies (#[trigger] p[k]).0 == renumbered_id(1, k) by {
            if k < before.len() {
                assert(p[k] == before[k]);
            }
        }
        assert forall|i: nat| i <= n implies 1 <= #[trigger] start_of(docs, i) <= start_of(
            docs,
            n,
        ) by {
            if i < n {
                assert(start_of(docs, i) <= start_of(docs, (n - 1) as nat));
            }
        }
    }
    let p = pool(docs, n);
    assert forall|a: int, b: int| 0 <= a < b < p.len() implies (#[trigger] p[a]).0.key() < (
    #[trigger] p[b]).0.key() by {}
}

/// What the documents bring together: their objects under new numbers, their
/// pages, a bookmark for each document, and the next free number.
struct Gathered {
    pool: ObjectTable,
    pages: Vec<ObjectId>,
    outline: Vec<ObjectId>,
    bookmarks: Vec<Bookmark>,
    next: u32,
}

/// Renumbers the documents one after the other from 1 on and brings their
/// objects, their pages and their bookmarks together.
fn gather(docs: Vec<PdfDocument>) -> (g: Gathered)
    requires
        start_of(documents_view(docs@), docs@.len()) <= u32::MAX,
    ensures
        g.pool@ == pool(documents_view(docs@), docs@.len()),
        g.pages@ == page_pool(documents_view(docs@), docs@.len()),
        g.outline@ == outline_pool(documents_view(docs@), docs@.len()),
        bookmarks_view(g.bookmarks@) == bookmarks_of(documents_view(docs@), docs@.len()),
        g.next == start_of(documents_view(docs@), docs@.len()),
        ascending(g.pool@),
{
    let ghost all = documents_view(docs@);
    let ghost count = docs@.len();
    let size = docs.len();
    let mut docs = docs;
    let mut table = ObjectTable::new();
    let mut pages: Vec<ObjectId> = Vec::new();
    let mut outline: Vec<ObjectId> = Vec::new();
    let mut bookmarks: Vec<Bookmark> = Vec::new();
    let mut next: u32 = 1;
    let mut i: usize = 0;
    proof {
        lemma_pool(all, count);
        assert(bookmarks_view(bookmarks@) =~= bookmarks_of(all, 0));
    }
    while docs.len() > 0
        invariant
            i <= count,
            count == all.len(),
            count <= usize::MAX,
            pages@.len() <= next - 1,
            docs@.len() == count - i,
            forall|k: int| 0 <= k < docs@.len() ==> (#[trigger] docs@[k])@ == all[i + k],
            start_of(all, count) <= u32::MAX,
            forall|j: nat| j <= count ==> 1 <= #[trigger] start_of(all, j) <= start_of(all, count),
            next == start_of(all, i as nat),
            table@ == pool(all, i as nat),
            pages@ == page_pool(all, i as nat),
            outline@ == outline_pool(all, i as nat),
            bookmarks_view(bookmarks@) == bookmarks_of(all, i as nat),
        decreases docs.len(),
    {
        let mut doc = docs.remove(0);
        let ghost d = all[i as int];
        assert(doc@ == d);
        let own_pages = doc.page_ids();
        let own_outline = outline_ids(&doc);
        proof {
            assert(start_of(all, (i + 1) as nat) == next + d.objects.len());
            assert(start_of(all, (i + 1) as nat) <= start_of(all, count));
            lemma_pool(all, i as nat);
            lemma_pages_are_leaves(d);
        }
        let ghost before_pages = pages@;
        match renumber(&mut doc, next) {
            Ok((after, mapping)) => {
                let ghost moved = moved_pages(d, next as int);
                if own_pages.len() > 0 {
                    let number = decimal_digits(pages.len() as u64 + 1);
                    let title = join(&PAGE_PREFIX, number.as_slice());
                    let first = match mapping.get(own_pages[0]) {
                        Some(id) => id,
                        None => own_pages[0],
                    };
                    let ghost marks = bookmarks@;
                    bookmarks.push(Bookmark { title, color: (0, 0, REAL_ONE), level: 0, page: first });
                    assert(bookmarks_view(bookmarks@) =~= bookmarks_view(marks).push(
                        bookmark_for(before_pages.len() + 1, moved[0]),
                    ));
                }
                let mut k: usize = 0;
                while k < own_pages.len()
                    invariant
                        k <= own_pages.len(),
                        own_pages@ == pages_of(d),
                        mapping@ == numbering(table_ids(d.objects), next as int),
                        moved == moved_pages(d, next as int),
                        pages@ == before_pages + moved.subrange(0, k as int),
                    decreases own_pages.len() - k,
                {
                    let page = match mapping.get(own_pages[k]) {
                        Some(id) => id,
                        None => own_pages[k],
                    };
                    pages.push(page);
                    assert(pages@ =~= before_pages + moved.subrange(0, k + 1));
                    k += 1;
                }
                assert(moved.subrange(0, moved.len() as int) =~= moved);
                let ghost before_outline = outline@;
                let mut k: usize = 0;
                while k < own_outline.len()
                    invariant
                        k <= own_outline.len(),
                        own_outline@ == outline_members(d),
                        mapping@ == numbering(table_ids(d.objects), next as int),
                        outline@ == before_outline + moved_outline(d, next as int, k as nat),
                    decreases own_outline.len() - k,
                {
                    match mapping.get(own_outline[k]) {
                        Some(id) => {
                            outline.push(id);
                        },
                        None => {},
                    }
                    assert(outline@ =~= before_outline + moved_outline(
                        d,
                        next as int,
                        (k + 1) as nat,
                    ));
                    k += 1;
                }
                let ghost fresh = renumbered_objects(d.objects, next as int);
                let ghost before = table@;
                let n = doc.objects.len();
                let mut k: usize = 0;
                while k < n
                    invariant
                        k <= n,
                        n == fresh.len(),
                        next + n <= u32::MAX,
                        fresh == renumbered_objects(d.objects, next as int),
                        doc.objects@.len() == n,
                        forall|j: int| k <= j < n ==> (#[trigger] doc.objects@[j]) == fresh[j],
                        before.len() == next - 1,
                        forall|j: int| 0 <= j < before.len() ==> (#[trigger] before[j]).0 == renumbered_id(1, j),
                        table@ == before + fresh.subrange(0, k as int),
                    decreases n - k,
                {
                    let id = doc.objects.id_at(k);
                    let object = doc.objects.replace_at(k, Object::Null);
                    proof {
                        if table@.len() > 0 {
                            if k > 0 {
                                assert(table@.last() == fresh[k - 1]);
                            } else {
                                assert(table@.last() == before[before.len() - 1]);
                            }
                        }
                    }
                    table.push(id, object);
                    assert(table@ =~= before + fresh.subrange(0, k + 1));
                    k += 1;
                }
                assert(fresh.subrange(0, n as int) =~= fresh);
                next = after;
            },
            Err(_) => {
                assert(false);
            },
        }
        i += 1;
    }
    Gathered { pool: table, pages, outline, bookmarks, next }
}

/// The position of the first object at or after `from` that is a dictionary of
/// type `name`; the length of `t` where there is none.
pub open spec fn first_node(t: TableModel, name: Seq<u8>, from: int) -> int
    decreases t.len() - from,
{
    if from < 0 || from >= t.len() {
        t.len() as int
    } else if is_node(t[from].1, name) {
        from
    } else {
        first_node(t, name, from + 1)
    }
}

/// `base` with the first `n` entries of `over` set one after the other: an
/// entry of `over` takes the place of the entry of the same name.
pub open spec fn overlay(base: DictModel, over: DictModel, n: nat) -> DictModel
    decreases n,
{
    if n == 0 || n > over.len() {
        base
    } else {
        dict_set(overlay(base, over, (n - 1) as nat), over[n - 1].0, over[n - 1].1)
    }
}

/// The page tree nodes among the first `n` objects, laid one over the other
/// in their order: a later node overwrites the entries that an earlier one
/// shares with it.
pub open spec fn merged_tree(t: TableModel, n: nat) -> DictModel
    decreases n,
{
    if n == 0 || n > t.len() {
        Seq::empty()
    } else {
        let before = merged_tree(t, (n - 1) as nat);
        if is_node(t[n - 1].1, PAGES@) {
            overlay(before, t[n - 1].1->Dictionary_0, t[n - 1].1->Dictionary_0.len())
        } else {
            before
        }
    }
}

/// The object belongs to what a merge rebuilds: a catalog, a page tree node,
/// a page, or a part of an outline.
pub open spec fn is_special(v: Value) -> bool {
    let declared = value_type(v);
    declared == Some(CATALOG@) || declared == Some(PAGES@) || declared == Some(PAGE@) || declared
        == Some(OUTLINES@) || declared == Some(OUTLINE@)
}

/// The identifiers among the first `n` of `t` that `pages` lists, in the
/// order of `t`.
pub open spec fn kept_pages(t: TableModel, pages: Seq<ObjectId>, n: nat) -> Seq<ObjectId>
    decreases n,
{
    if n == 0 || n > t.len() {
        Seq::empty()
    } else {
        let before = kept_pages(t, pages, (n - 1) as nat);
        if pages.contains(t[n - 1].0) {
            before.push(t[n - 1].0)
        } else {
            before
        }
    }
}

/// A reference to each of `ids`.
pub open spec fn references(ids: Seq<ObjectId>) -> Seq<Value> {
    Seq::new(ids.len(), |k: int| Value::Reference(ids[k]))
}

/// The first `n` identifiers of `pages` in their order, each where it stands
/// first: an identifier that has stood before is passed over.
pub open spec fn listed_once(pages: Seq<ObjectId>, n: nat) -> Seq<ObjectId>
    decreases n,
{
    if n == 0 || n > pages.len() {
        Seq::empty()
    } else {
        let before = listed_once(pages, (n - 1) as nat);
        if before.contains(pages[n - 1]) {
            before
        } else {
            before.push(pages[n - 1])
        }
    }
}

/// A list with each identifier where it stands first holds no identifier
/// twice, holds exactly the identifiers of the list, and is the list itself
/// where that holds none twice.
pub proof fn lemma_listed_once(pages: Seq<ObjectId>, n: nat)
    requires
        n <= pages.len(),
    ensures
        listed_once(pages, n).no_duplicates(),
        listed_once(pages, n).len() <= n,
        forall|x: ObjectId|
            #[trigger] listed_once(pages, n).contains(x) <==> exists|k: int|
                0 <= k < n && #[trigger] pages[k] == x,
        pages.no_duplicates() ==> listed_once(pages, n) == pages.subrange(0, n as int),
    decreases n,
{
    if n > 0 {
        lemma_listed_once(pages, (n - 1) as nat);
        let before = listed_once(pages, (n - 1) as nat);
        let now = listed_once(pages, n);
        let last = pages[n - 1];
        assert forall|x: ObjectId| #[trigger] now.contains(x) <==> exists|k: int|
            0 <= k < n && #[trigger] pages[k] == x by {
            if now.contains(x) {
                let i = choose|i: int| 0 <= i < now.len() && now[i] == x;
                if i < before.len() {
                    assert(before[i] == x);
                    assert(before.contains(x));
                    let k = choose|k: int| 0 <= k < n - 1 && #[trigger] pages[k] == x;
                    assert(pages[k] == x);
                } else {
                    assert(pages[n - 1] == x);
                }
            }
            if exists|k: int| 0 <= k < n && #[trigger] pages[k] == x {
                let k = choose|k: int| 0 <= k < n && #[trigger] pages[k] == x;
                if k < n - 1 {
                    assert(before.contains(x));
                    let i = choose|i: int| 0 <= i < before.len() && before[i] == x;
                    assert(now[i] == x);
                } else if before.contains(last) {
                } else {
                    assert(now[now.len() - 1] == x);
                }
            }
        }
        if pages.no_duplicates() {
            assert(!before.contains(last)) by {
                if before.contains(last) {
                    let k = choose|k: int| 0 <= k < n - 1 && #[trigger] pages[k] == last;
                    assert(pages[k] == pages[n - 1]);
                }
            }
            assert(now =~= pages.subrange(0, n as int));
        }
    } else {
        assert(listed_once(pages, n) =~= pages.subrange(0, 0));
    }
}

/// The page tree root of the merged document: the merged nodes, with `Count`
/// and `Kids` set for the pages `kids`.
pub open spec fn final_tree(tree: DictModel, kids: Seq<ObjectId>) -> DictModel {
    dict_set(
        dict_set(tree, COUNT@, Value::Integer(kids.len() as i64)),
        KIDS@,
        Value::Array(references(kids)),
    )
}

/// The catalog of the merged document: `c` with `Pages` set to the merged
/// page tree root and `Outlines` to the new outline, where there is one.
pub open spec fn final_catalog(c: DictModel, tree: ObjectId, outline: Option<ObjectId>) -> DictModel {
    let base = dict_remove(dict_set(c, PAGES@, Value::Reference(tree)), OUTLINES@);
    match outline {
        Some(root) => dict_set(base, OUTLINES@, Value::Reference(root)),
        None => base,
    }
}

/// What decides the fate of each object of the pool.
pub struct Plan {
    pub pages: Seq<ObjectId>,
    pub outline: Seq<ObjectId>,
    pub tree_id: ObjectId,
    pub tree: DictModel,
    pub catalog_id: ObjectId,
    pub catalog: DictModel,
}

/// What becomes of an object of the pool: a page is hung under the merged
/// page tree root; the first page tree node and the first catalog give their
/// place to the merged ones; any other special object, and every object of an
/// outline, is left out; the rest is kept as it is.
pub open spec fn emitted(e: (ObjectId, Value), plan: Plan) -> Option<(ObjectId, Value)> {
    if plan.pages.contains(e.0) {
        Some((e.0, reparented(e.1, plan.tree_id)))
    } else if e.0 == plan.tree_id {
        Some((e.0, Value::Dictionary(plan.tree)))
    } else if e.0 == plan.catalog_id {
        Some((e.0, Value::Dictionary(plan.catalog)))
    } else if is_special(e.1) || plan.outline.contains(e.0) {
        None
    } else {
        Some(e)
    }
}

/// What the first `n` objects of the pool leave in the merged document.
pub open spec fn kept(t: TableModel, plan: Plan, n: nat) -> TableModel
    decreases n,
{
    if n == 0 || n > t.len() {
        Seq::empty()
    } else {
        let before = kept(t, plan, (n - 1) as nat);
        match emitted(t[n - 1], plan) {
            Some(e) => before.push(e),
            None => before,
        }
    }
}

/// The position of the first page tree node of the pool.
pub open spec fn tree_slot(docs: Seq<DocumentModel>) -> int {
    first_node(pool(docs, docs.len()), PAGES@, 0)
}

/// The position of the first catalog of the pool.
pub open spec fn catalog_slot(docs: Seq<DocumentModel>) -> int {
    first_node(pool(docs, docs.len()), CATALOG@, 0)
}

/// How the objects of the pool are dealt with in the merge of `docs`.
pub open spec fn plan_of(docs: Seq<DocumentModel>) -> Plan {
    let t = pool(docs, docs.len());
    let pages = page_pool(docs, docs.len());
    let tree_id = t[tree_slot(docs)].0;
    let outline = if bookmarks_of(docs, docs.len()).len() > 0 {
        Some(outline_id(start_of(docs, docs.len())))
    } else {
        None
    };
    Plan {
        pages,
        outline: outline_pool(docs, docs.len()),
        tree_id,
        tree: final_tree(merged_tree(t, t.len()), listed_once(pages, pages.len())),
        catalog_id: t[catalog_slot(docs)].0,
        catalog: final_catalog(t[catalog_slot(docs)].1->Dictionary_0, tree_id, outline),
    }
}

/// Why `docs` cannot be merged, if they cannot: there is no document; the
/// object numbers do not suffice; or the documents hold no page tree node, no
/// catalog, or no page.
pub open spec fn merge_failure(docs: Seq<DocumentModel>) -> Option<Error> {
    if docs.len() == 0 {
        Some(Error::InvalidArgument)
    } else if start_of(docs, docs.len()) + 2 * docs.len() > u32::MAX {
        Some(Error::TooManyObjects)
    } else if tree_slot(docs) >= pool(docs, docs.len()).len() || catalog_slot(docs) >= pool(
        docs,
        docs.len(),
    ).len() || page_pool(docs, docs.len()).len() == 0 {
        Some(Error::StructuralError)
    } else {
        None
    }
}

/// The version that a merged document states.
pub open spec fn merged_version() -> Seq<char> {
    "1.5"@
}

/// The merged document: the kept objects of the pool, then the outline, under
/// a trailer that names the merged catalog.
pub open spec fn merged(docs: Seq<DocumentModel>) -> DocumentModel {
    let t = pool(docs, docs.len());
    let marks = bookmarks_of(docs, docs.len());
    let free = start_of(docs, docs.len());
    DocumentModel {
        version: merged_version(),
        trailer: seq![(ROOT@, Value::Reference(plan_of(docs).catalog_id))],
        objects: kept(t, plan_of(docs), t.len()) + if marks.len() > 0 {
            outline_objects(free, marks, marks.len())
        } else {
            Seq::empty()
        },
        max_id: if marks.len() > 0 {
            (free + 2 * marks.len()) as u32
        } else {
            (free - 1) as u32
        },
    }
}

/// The start of a document is not before the start of a document before it.
pub proof fn lemma_start_grows(docs: Seq<DocumentModel>, i: nat, n: nat)
    requires
        i <= n <= docs.len(),
    ensures
        1 <= start_of(docs, i) <= start_of(docs, n),
    decreases n,
{
    if i < n {
        lemma_start_grows(docs, i, (n - 1) as nat);
    } else if n > 0 {
        lemma_start_grows(docs, (n - 1) as nat, (n - 1) as nat);
    }
}

/// There is a bookmark as soon as there is a page, and no more bookmarks than
/// documents.
pub proof fn lemma_bookmarks(docs: Seq<DocumentModel>, n: nat)
    requires
        n <= docs.len(),
    ensures
        bookmarks_of(docs, n).len() <= n,
        page_pool(docs, n).len() > 0 ==> bookmarks_of(docs, n).len() > 0,
    decreases n,
{
    if n > 0 {
        lemma_bookmarks(docs, (n - 1) as nat);
    }
}

fn numbers_suffice(docs: &Vec<PdfDocument>) -> (fits: bool)
    ensures
        fits == (start_of(documents_view(docs@), docs@.len()) + 2 * docs@.len() <= u32::MAX),
{
    let ghost all = documents_view(docs@);
    let mut next: u64 = 1;
    let mut i: usize = 0;
    while i < docs.len()
        invariant
            i <= docs.len(),
            all == documents_view(docs@),
            next == start_of(all, i as nat),
            next <= u32::MAX,
        decreases docs.len() - i,
    {
        let n = docs[i].objects.len();
        proof {
            lemma_start_grows(all, (i + 1) as nat, docs@.len());
            assert(start_of(all, (i + 1) as nat) == next + n);
        }
        if n > u32::MAX as usize || next + n as u64 > u32::MAX as u64 {
            return false;
        }
        next = next + n as u64;
        i += 1;
    }
    docs.len() <= u32::MAX as usize && next + 2 * (docs.len() as u64) <= u32::MAX as u64
}

fn find_node(table: &ObjectTable, name: &[u8]) -> (i: usize)
    ensures
        i == first_node(table@, name@, 0),
        i <= table@.len(),
        i < table@.len() ==> is_node(table@[i as int].1, name@),
{
    let n = table.len();
    let mut i: usize = 0;
    while i < n
        invariant
            i <= n,
            n == table@.len(),
            first_node(table@, name@, 0) == first_node(table@, name@, i as int),
        decreases n - i,
    {
        let found = match table.object_at(i) {
            Object::Dictionary(d) => d.has_type(name),
            _ => false,
        };
        if found {
            return i;
        }
        i += 1;
    }
    i
}

fn overlay_onto(base: &mut Dictionary, over: &Dictionary)
    ensures
        final(base)@ == overlay(old(base)@, over@, over@.len()),
{
    let n = over.len();
    let mut i: usize = 0;
    while i < n
        invariant
            i <= n,
            n == over@.len(),
            base@ == overlay(old(base)@, over@, i as nat),
        decreases n - i,
    {
        base.set(over.name_at(i).as_slice(), over.value_at(i).duplicate());
        i += 1;
    }
}

fn merge_trees(table: &ObjectTable) -> (tree: Dictionary)
    ensures
        tree@ == merged_tree(table@, table@.len()),
{
    let n = table.len();
    let mut tree = Dictionary::new();
    let mut i: usize = 0;
    while i < n
        invariant
            i <= n,
            n == table@.len(),
            tree@ == merged_tree(table@, i as nat),
        decreases n - i,
    {
        match table.object_at(i) {
            Object::Dictionary(d) => {
                if d.has_type(&PAGES) {
                    overlay_onto(&mut tree, d);
                }
            },
            _ => {},
        }
        i += 1;
    }
    tree
}

fn as_set(pages: &Vec<ObjectId>) -> (set: Vec<ObjectId>)
    ensures
        increasing(set@),
        forall|x: ObjectId| #[trigger] set@.contains(x) <==> pages@.contains(x),
{
    let mut set: Vec<ObjectId> = Vec::new();
    let mut i: usize = 0;
    while i < pages.len()
        invariant
            i <= pages.len(),
            increasing(set@),
            forall|x: ObjectId|
                #[trigger] set@.contains(x) <==> exists|k: int|
                    0 <= k < i && #[trigger] pages@[k] == x,
        decreases pages.len() - i,
    {
        let ghost before = set@;
        proof {
            lemma_with_id(before, pages@[i as int]);
        }
        add_id(&mut set, pages[i]);
        assert forall|x: ObjectId| #[trigger]
            set@.contains(x) <==> exists|k: int| 0 <= k < i + 1 && #[trigger] pages@[k] == x by {
            if before.contains(x) {
                let k = choose|k: int| 0 <= k < i && #[trigger] pages@[k] == x;
                assert(pages@[k] == x);
            }
            if x == pages@[i as int] {
                assert(pages@[i as int] == x);
            }
        }
        i += 1;
    }
    set
}

/// The pages in their order, each where it stands first.
fn first_listings(pages: &Vec<ObjectId>) -> (kids: Vec<ObjectId>)
    ensures
        kids@ == listed_once(pages@, pages@.len() as nat),
        kids@.len() <= pages@.len(),
{
    let mut kids: Vec<ObjectId> = Vec::new();
    let mut seen: Vec<ObjectId> = Vec::new();
    let mut i: usize = 0;
    while i < pages.len()
        invariant
            i <= pages.len(),
            increasing(seen@),
            forall|x: ObjectId| #[trigger] seen@.contains(x) <==> kids@.contains(x),
            kids@ == listed_once(pages@, i as nat),
            kids@.len() <= i,
        decreases pages.len() - i,
    {
        let id = pages[i];
        let ghost before = kids@;
        let ghost seen_before = seen@;
        if !holds(&seen, id) {
            proof {
                lemma_with_id(seen_before, id);
            }
            add_id(&mut seen, id);
            kids.push(id);
            assert forall|x: ObjectId| #[trigger] seen@.contains(x) <==> kids@.contains(x) by {
                if kids@.contains(x) {
                    let k = choose|k: int| 0 <= k < kids@.len() && kids@[k] == x;
                    if k < before.len() {
                        assert(before[k] == x);
                        assert(before.contains(x));
                    }
                }
                if seen_before.contains(x) {
                    let k = choose|k: int| 0 <= k < before.len() && before[k] == x;
                    assert(kids@[k] == x);
                }
                if x == id {
                    assert(kids@[kids@.len() - 1] == x);
                }
            }
        }
        i += 1;
    }
    kids
}

fn references_to(ids: &Vec<ObjectId>) -> (o: Object)
    ensures
        o@ == Value::Array(references(ids@)),
{
    let mut items: Vec<Object> = Vec::new();
    let mut i: usize = 0;
    while i < ids.len()
        invariant
            i <= ids.len(),
            items@.len() == i,
            forall|k: int| 0 <= k < i ==> (#[trigger] items@[k])@ == Value::Reference(ids@[k]),
        decreases ids.len() - i,
    {
        items.push(Object::Reference(ids[i]));
        i += 1;
    }
    proof {
        lemma_items_view(items@);
        assert(crate::object::items_view(items@) =~= references(ids@));
    }
    Object::Array(items)
}

fn special(o: &Object) -> (r: bool)
    ensures
        r == is_special(o@),
{
    o.has_type(&CATALOG) || o.has_type(&PAGES) || o.has_type(&PAGE) || o.has_type(&OUTLINES)
        || o.has_type(&OUTLINE)
}

fn assemble(
    pool: ObjectTable,
    set: &Vec<ObjectId>,
    tree_id: ObjectId,
    tree: &Dictionary,
    catalog_id: ObjectId,
    catalog: &Dictionary,
    old_outline: &Vec<ObjectId>,
    Ghost(pages): Ghost<Seq<ObjectId>>,
    Ghost(outline): Ghost<Seq<ObjectId>>,
) -> (objects: ObjectTable)
    requires
        increasing(set@),
        forall|x: ObjectId| #[trigger] set@.contains(x) <==> pages.contains(x),
        increasing(old_outline@),
        forall|x: ObjectId| #[trigger] old_outline@.contains(x) <==> outline.contains(x),
        pool@.len() < u32::MAX,
        forall|j: int| 0 <= j < pool@.len() ==> (#[trigger] pool@[j]).0 == renumbered_id(1, j),
    ensures
        objects@ == kept(
            pool@,
            Plan { pages, outline, tree_id, tree: tree@, catalog_id, catalog: catalog@ },
            pool@.len(),
        ),
        objects@.len() > 0 ==> objects@.last().0.number <= pool@.len()
            && objects@.last().0.generation == 0,
{
    let ghost t = pool@;
    let ghost plan = Plan { pages, outline, tree_id, tree: tree@, catalog_id, catalog: catalog@ };
    let mut pool = pool;
    let n = pool.len();
    let mut objects = ObjectTable::new();
    let mut i: usize = 0;
    while i < n
        invariant
            i <= n,
            n == t.len(),
            n < u32::MAX,
            increasing(set@),
            forall|x: ObjectId| #[trigger] set@.contains(x) <==> pages.contains(x),
            increasing(old_outline@),
            forall|x: ObjectId| #[trigger] old_outline@.contains(x) <==> outline.contains(x),
            plan == (Plan { pages, outline, tree_id, tree: tree@, catalog_id, catalog: catalog@ }),
            pool@.len() == n,
            forall|j: int| 0 <= j < n ==> (#[trigger] t[j]).0 == renumbered_id(1, j),
            forall|j: int| i <= j < n ==> (#[trigger] pool@[j]) == t[j],
            objects@ == kept(t, plan, i as nat),
            objects@.len() > 0 ==> objects@.last().0.number <= i && objects@.last().0.generation
                == 0,
        decreases n - i,
    {
        let id = pool.id_at(i);
        assert(pool@[i as int] == t[i as int]);
        assert(id == renumbered_id(1, i as int));
        let object = pool.replace_at(i, Object::Null);
        if holds(set, id) {
            let hung = match object {
                Object::Dictionary(d) => {
                    let mut d = d;
                    d.set(&PARENT, Object::Reference(tree_id));
                    Object::Dictionary(d)
                },
                other => other,
            };
            objects.push(id, hung);
        } else if id == tree_id {
            objects.push(id, Object::Dictionary(tree.duplicate()));
        } else if id == catalog_id {
            objects.push(id, Object::Dictionary(catalog.duplicate()));
        } else if !special(&object) && !holds(old_outline, id) {
            objects.push(id, object);
        }
        i += 1;
    }
    objects
}

fn confirm_all(docs: &Vec<PdfDocument>)
    ensures
        all_well_formed(documents_view(docs@)),
{
    let mut i: usize = 0;
    while i < docs.len()
        invariant
            i <= docs.len(),
            forall|j: int| 0 <= j < i ==> well_formed(#[trigger] documents_view(docs@)[j]),
        decreases docs.len() - i,
    {
        docs[i].confirm_well_formed();
        i += 1;
    }
}

fn build_tree(table: &ObjectTable, kids: &Vec<ObjectId>) -> (tree: Dictionary)
    requires
        kids@.len() <= u32::MAX,
    ensures
        tree@ == final_tree(merged_tree(table@, table@.len()), kids@),
{
    let mut tree = merge_trees(table);
    tree.set(&COUNT, Object::Integer(kids.len() as i64));
    tree.set(&KIDS, references_to(kids));
    tree
}

fn build_catalog(source: &Object, tree_id: ObjectId, outline: ObjectId) -> (catalog: Dictionary)
    requires
        source@ is Dictionary,
    ensures
        catalog@ == final_catalog(source@->Dictionary_0, tree_id, Some(outline)),
{
    let mut catalog = match source {
        Object::Dictionary(d) => d.duplicate(),
        _ => Dictionary::new(),
    };
    catalog.set(&PAGES, Object::Reference(tree_id));
    catalog.remove(&OUTLINES);
    catalog.set(&OUTLINES, Object::Reference(outline));
    catalog
}

fn build_trailer(catalog_id: ObjectId) -> (trailer: Dictionary)
    ensures
        trailer@ == seq![(ROOT@, Value::Reference(catalog_id))],
{
    let mut trailer = Dictionary::new();
    trailer.set(&ROOT, Object::Reference(catalog_id));
    proof {
        reveal_with_fuel(find_from, 2);
        assert(trailer@ =~= seq![(ROOT@, Value::Reference(catalog_id))]);
    }
    trailer
}

/// The merged document as `merged` describes it, or the failure that
/// `merge_failure` names.
#[verifier::rlimit(80)]
fn merge_documents(docs: Vec<PdfDocument>) -> (r: Result<PdfDocument, Error>)
    ensures
        match r {
            Ok(out) => {
                &&& merge_failure(documents_view(docs@)).is_none()
                &&& all_well_formed(documents_view(docs@))
                &&& out@ == merged(documents_view(docs@))
            },
            Err(e) => merge_failure(documents_view(docs@)) == Some(e),
        },
{
    let ghost all = documents_view(docs@);
    if docs.len() == 0 {
        return Err(Error::InvalidArgument);
    }
    if !numbers_suffice(&docs) {
        return Err(Error::TooManyObjects);
    }
    confirm_all(&docs);
    let Gathered { pool: table, pages, outline: old_outline, bookmarks, next } = gather(docs);
    let ghost t = pool(all, all.len());
    proof {
        lemma_pool(all, all.len());
        lemma_bookmarks(all, all.len());
    }
    let tree_at = find_node(&table, &PAGES);
    let catalog_at = find_node(&table, &CATALOG);
    if tree_at >= table.len() || catalog_at >= table.len() || pages.len() == 0 {
        return Err(Error::StructuralError);
    }
    assert(merge_failure(all).is_none());
    let tree_id = table.id_at(tree_at);
    let catalog_id = table.id_at(catalog_at);
    let set = as_set(&pages);
    let kids = first_listings(&pages);
    proof {
        lemma_page_pool_len(all, all.len());
    }
    let tree = build_tree(&table, &kids);
    let outline = ObjectId { number: next, generation: 0 };
    let catalog = build_catalog(table.object_at(catalog_at), tree_id, outline);
    let ghost plan = Plan {
        pages: pages@,
        outline: old_outline@,
        tree_id,
        tree: tree@,
        catalog_id,
        catalog: catalog@,
    };
    assert(plan == plan_of(all));
    let mut objects = assemble(
        table,
        &set,
        tree_id,
        &tree,
        catalog_id,
        &catalog,
        &as_set(&old_outline),
        Ghost(pages@),
        Ghost(old_outline@),
    );
    assert(objects@ == kept(t, plan_of(all), t.len()));
    append_outline(&mut objects, &bookmarks, next);
    let trailer = build_trailer(catalog_id);
    let out = PdfDocument {
        version: "1.5".to_owned(),
        trailer,
        objects,
        max_id: next + 2 * (bookmarks.len() as u32),
    };
    assert(out@.objects == merged(all).objects);
    assert(out@.max_id == merged(all).max_id);
    Ok(out)
}

/// Merges the documents, in their order, into one.
///
/// Each document is renumbered so that its objects follow those of the
/// documents before it. The pages of all documents hang under one page tree
/// root, which stands in the place of the first page tree node met and lists
/// the pages in page order, document after document, each page once; the
/// first catalog met
/// stays and names that root. The other catalogs and page tree nodes, the
/// pages that no page tree lists, and the outlines that the documents bring
/// along, with every object that the links of an outline lead to from the
/// catalog, are left out. An outline with one bookmark for each document,
/// titled `Page_` and the number of its first page in the merged document, is
/// added and named by the catalog.
///
/// `InvalidArgument` where there is no document; `TooManyObjects` where the
/// object numbers do not suffice; `StructuralError` where the documents hold
/// no page tree node, no catalog, or no page.
///
/// In the merged document the trailer leads to the catalog and the catalog
/// to the page tree root; the root counts the pages, and every page names it
/// as its parent. The pages are as many as the pages of all documents
/// together, where no page tree of theirs lists a page twice. No reference
/// dangles in the merged document, where none dangles in the documents and
/// what the merge leaves out of them is kept apart in them: referred to only
/// by what is left out as well, or by the entries that the merge writes anew.
pub fn merge(docs: Vec<PdfDocument>) -> (r: Result<PdfDocument, Error>)
    ensures
        match r {
            Ok(out) => {
                &&& merge_failure(documents_view(docs@)).is_none()
                &&& out@ == merged(documents_view(docs@))
                &&& count_holds(out@)
                &&& counts_hold(out@.objects)
                &&& catalog_holds(out@)
                &&& parents_hold(out@)
                &&& pages_listed_once(documents_view(docs@)) ==> pages_of(out@).len()
                    == page_total(documents_view(docs@), docs@.len())
                &&& all_self_contained(documents_view(docs@)) && kept_apart(documents_view(docs@))
                    ==> self_contained(out@)
            },
            Err(e) => merge_failure(documents_view(docs@)) == Some(e),
        },
{
    let ghost all = documents_view(docs@);
    let out = match merge_documents(docs) {
        Ok(out) => out,
        Err(e) => {
            return Err(e);
        },
    };
    proof {
        lemma_merged_pages(all);
        lemma_merged_counts(all);
        if all_self_contained(all) && kept_apart(all) {
            lemma_merged_keeps_references(all);
        }
        if pages_listed_once(all) {
            lemma_merged_page_total(all);
        }
    }
    Ok(out)
}

} // verus!
