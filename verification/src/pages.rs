//! The page tree: from the trailer over the catalog to the pages in their order.

use vstd::prelude::*;
use crate::document::{PdfDocument, DocumentModel, root_of};
use crate::names::{CATALOG, COUNT, KIDS, PAGE, PAGES, PARENT};
use crate::object::{dict_get, dict_type, lemma_items_view, Object, ObjectId, Value};
use crate::table::{
    lemma_same_ids, lemma_slot_from, same_ids, table_get, table_has, table_slot, TableModel,
};

verus! {

/// What an identifier stands for in a page tree.
pub enum Node {
    /// A page.
    Leaf,
    /// A node of the tree, with the identifiers that its `Kids` refer to.
    Inner(Seq<ObjectId>),
    /// Neither.
    Other,
}

/// The identifiers that the references among `kids[from..]` name, in order.
pub open spec fn kid_ids(kids: Seq<Value>, from: int) -> Seq<ObjectId>
    decreases kids.len() - from,
{
    if from < 0 || from >= kids.len() {
        Seq::empty()
    } else {
        (match kids[from] {
            Value::Reference(id) => seq![id],
            _ => Seq::empty(),
        }) + kid_ids(kids, from + 1)
    }
}

/// `v` is a dictionary that declares the type `name`.
pub open spec fn is_node(v: Value, name: Seq<u8>) -> bool {
    v is Dictionary && dict_type(v->Dictionary_0) == Some(name)
}

/// What `v` stands for in a page tree: a dictionary of type `Page` is a leaf,
/// one of type `Pages` a node with the kids that its `Kids` array refers to.
pub open spec fn node_of(v: Value) -> Node {
    match v {
        Value::Dictionary(d) => if dict_type(d) == Some(PAGE@) {
            Node::Leaf
        } else if dict_type(d) == Some(PAGES@) {
            match dict_get(d, KIDS@) {
                Some(Value::Array(kids)) => Node::Inner(kid_ids(kids, 0)),
                _ => Node::Inner(Seq::empty()),
            }
        } else {
            Node::Other
        },
        _ => Node::Other,
    }
}

pub open spec fn node_at(t: TableModel, id: ObjectId) -> Node {
    match table_get(t, id) {
        Some(v) => node_of(v),
        None => Node::Other,
    }
}

/// The pages met by taking up the identifiers of `pending` one after the
/// other, each node giving way to its kids, until `budget` identifiers have been
/// taken up. The budget ends the walk on a tree that loops.
pub open spec fn walk(t: TableModel, pending: Seq<ObjectId>, budget: nat) -> Seq<ObjectId>
    decreases budget,
{
    if budget == 0 || pending.len() == 0 {
        Seq::empty()
    } else {
        let rest = pending.subrange(1, pending.len() as int);
        match node_at(t, pending[0]) {
            Node::Leaf => seq![pending[0]] + walk(t, rest, (budget - 1) as nat),
            Node::Inner(kids) => walk(t, kids + rest, (budget - 1) as nat),
            Node::Other => walk(t, rest, (budget - 1) as nat),
        }
    }
}

/// The root of the page tree: what the `Pages` entry of the catalog refers to.
pub open spec fn page_root(d: DocumentModel) -> Option<ObjectId> {
    match root_of(d) {
        Some(catalog) => match table_get(d.objects, catalog) {
            Some(Value::Dictionary(c)) => match dict_get(c, PAGES@) {
                Some(Value::Reference(id)) => Some(id),
                _ => None,
            },
            _ => None,
        },
        None => None,
    }
}

/// The pages of a document in page order: the leaves of its page tree, from
/// left to right. Page `n` is the entry at position `n - 1`.
pub open spec fn pages_of(d: DocumentModel) -> Seq<ObjectId> {
    match page_root(d) {
        Some(root) => walk(d.objects, seq![root], d.objects.len()),
        None => Seq::empty(),
    }
}

/// The page tree root counts the pages: its `Count` is the number of pages
/// that its kids lead to.
pub open spec fn count_holds(d: DocumentModel) -> bool {
    match page_root(d) {
        Some(root) => match table_get(d.objects, root) {
            Some(Value::Dictionary(node)) => dict_get(node, COUNT@) == Some(
                Value::Integer(pages_of(d).len() as i64),
            ),
            _ => false,
        },
        None => false,
    }
}

/// The trailer leads to a catalog, a dictionary of type `Catalog`, and the
/// catalog to the root of a page tree.
pub open spec fn catalog_holds(d: DocumentModel) -> bool {
    match root_of(d) {
        Some(catalog) => match table_get(d.objects, catalog) {
            Some(Value::Dictionary(c)) => dict_type(c) == Some(CATALOG@) && page_root(d) is Some,
            _ => false,
        },
        None => false,
    }
}

/// Every page names the page tree root as its parent.
pub open spec fn parents_hold(d: DocumentModel) -> bool {
    forall|k: int|
        0 <= k < pages_of(d).len() ==> match table_get(d.objects, #[trigger] pages_of(d)[k]) {
            Some(Value::Dictionary(page)) => page_root(d) is Some && dict_get(page, PARENT@)
                == Some(Value::Reference(page_root(d)->Some_0)),
            _ => false,
        }
}

/// Every page that a walk meets is a page dictionary of the table.
pub proof fn lemma_walk_leaves(t: TableModel, pending: Seq<ObjectId>, budget: nat)
    ensures
        forall|k: int|
            0 <= k < walk(t, pending, budget).len() ==> node_at(
                t,
                #[trigger] walk(t, pending, budget)[k],
            ) is Leaf,
    decreases budget,
{
    if budget > 0 && pending.len() > 0 {
        let rest = pending.subrange(1, pending.len() as int);
        match node_at(t, pending[0]) {
            Node::Leaf => {
                lemma_walk_leaves(t, rest, (budget - 1) as nat);
            },
            Node::Inner(kids) => {
                lemma_walk_leaves(t, kids + rest, (budget - 1) as nat);
            },
            Node::Other => {
                lemma_walk_leaves(t, rest, (budget - 1) as nat);
            },
        }
    }
}

/// A walk meets no more pages than its budget.
pub proof fn lemma_walk_len(t: TableModel, pending: Seq<ObjectId>, budget: nat)
    ensures
        walk(t, pending, budget).len() <= budget,
    decreases budget,
{
    if budget > 0 && pending.len() > 0 {
        let rest = pending.subrange(1, pending.len() as int);
        match node_at(t, pending[0]) {
            Node::Leaf => {
                lemma_walk_len(t, rest, (budget - 1) as nat);
            },
            Node::Inner(kids) => {
                lemma_walk_len(t, kids + rest, (budget - 1) as nat);
            },
            Node::Other => {
                lemma_walk_len(t, rest, (budget - 1) as nat);
            },
        }
    }
}

/// Every page of a document is a page dictionary that the document holds.
pub proof fn lemma_pages_are_leaves(d: DocumentModel)
    ensures
        forall|k: int| 0 <= k < pages_of(d).len() ==> node_at(d.objects, #[trigger] pages_of(d)[k]) is Leaf,
        forall|k: int|
            0 <= k < pages_of(d).len() ==> crate::table::table_has(
                d.objects,
                #[trigger] pages_of(d)[k],
            ),
        pages_of(d).len() <= d.objects.len(),
{
    match page_root(d) {
        Some(root) => {
            lemma_walk_leaves(d.objects, seq![root], d.objects.len());
            lemma_walk_len(d.objects, seq![root], d.objects.len());
        },
        None => {},
    }
}

/// What the `Pages` entry of `v` holds, where `v` is a dictionary.
pub open spec fn pages_entry(v: Value) -> Option<Value> {
    match v {
        Value::Dictionary(d) => dict_get(d, PAGES@),
        _ => None,
    }
}

/// What the `Count` entry of `v` holds, where `v` is a dictionary.
pub open spec fn count_entry(v: Value) -> Option<Value> {
    match v {
        Value::Dictionary(d) => dict_get(d, COUNT@),
        _ => None,
    }
}

/// Two values stand for the same in a page tree: the same kind of node with
/// the same kids, the same `Pages` and `Count` entries.
pub open spec fn same_node(a: Value, b: Value) -> bool {
    &&& node_of(a) == node_of(b)
    &&& pages_entry(a) == pages_entry(b)
    &&& count_entry(a) == count_entry(b)
    &&& (a is Dictionary <==> b is Dictionary)
}

/// Two tables hold the same page trees: the same identifiers, and under each
/// an object that stands for the same in a page tree.
pub open spec fn same_trees(a: TableModel, b: TableModel) -> bool {
    &&& same_ids(a, b)
    &&& forall|i: int| 0 <= i < a.len() ==> same_node((#[trigger] a[i]).1, b[i].1)
}

/// Tables with the same page trees give the same walk.
pub proof fn lemma_same_walk(a: TableModel, b: TableModel, pending: Seq<ObjectId>, budget: nat)
    requires
        same_trees(a, b),
    ensures
        walk(a, pending, budget) == walk(b, pending, budget),
        walk_ends(a, pending, budget) == walk_ends(b, pending, budget),
    decreases budget,
{
    if budget > 0 && pending.len() > 0 {
        let id = pending[0];
        lemma_same_ids(a, b, id, 0);
        lemma_slot_from(a, id, 0);
        if table_has(a, id) {
            assert(same_node(a[table_slot(a, id)].1, b[table_slot(a, id)].1));
        }
        assert(node_at(a, id) == node_at(b, id));
        let rest = pending.subrange(1, pending.len() as int);
        match node_at(a, id) {
            Node::Leaf => {
                lemma_same_walk(a, b, rest, (budget - 1) as nat);
            },
            Node::Inner(kids) => {
                lemma_same_walk(a, b, kids + rest, (budget - 1) as nat);
            },
            Node::Other => {
                lemma_same_walk(a, b, rest, (budget - 1) as nat);
            },
        }
    }
}

/// Documents with the same trailer and the same page trees have the same pages.
pub proof fn lemma_same_pages(a: DocumentModel, b: DocumentModel)
    requires
        a.trailer == b.trailer,
        same_trees(a.objects, b.objects),
    ensures
        page_root(a) == page_root(b),
        pages_of(a) == pages_of(b),
        count_holds(a) == count_holds(b),
{
    match root_of(a) {
        Some(catalog) => {
            lemma_same_ids(a.objects, b.objects, catalog, 0);
            lemma_slot_from(a.objects, catalog, 0);
            if table_has(a.objects, catalog) {
                let s = table_slot(a.objects, catalog);
                assert(same_node(a.objects[s].1, b.objects[s].1));
            }
        },
        None => {},
    }
    match page_root(a) {
        Some(root) => {
            lemma_same_walk(a.objects, b.objects, seq![root], a.objects.len());
            lemma_same_ids(a.objects, b.objects, root, 0);
            lemma_slot_from(a.objects, root, 0);
            if table_has(a.objects, root) {
                let s = table_slot(a.objects, root);
                assert(same_node(a.objects[s].1, b.objects[s].1));
            }
        },
        None => {},
    }
}

/// The walk takes up all that is pending, and all that comes of it, before
/// its budget is used up: no page is left out for want of budget.
pub open spec fn walk_ends(t: TableModel, pending: Seq<ObjectId>, budget: nat) -> bool
    decreases budget,
{
    if pending.len() == 0 {
        true
    } else if budget == 0 {
        false
    } else {
        let rest = pending.subrange(1, pending.len() as int);
        match node_at(t, pending[0]) {
            Node::Leaf => walk_ends(t, rest, (budget - 1) as nat),
            Node::Inner(kids) => walk_ends(t, kids + rest, (budget - 1) as nat),
            Node::Other => walk_ends(t, rest, (budget - 1) as nat),
        }
    }
}

/// A walk that ends within its budget meets the same pages with any larger
/// budget.
pub proof fn lemma_walk_ended(t: TableModel, pending: Seq<ObjectId>, budget: nat, more: nat)
    requires
        walk_ends(t, pending, budget),
        budget <= more,
    ensures
        walk_ends(t, pending, more),
        walk(t, pending, more) == walk(t, pending, budget),
    decreases budget,
{
    if pending.len() > 0 {
        let rest = pending.subrange(1, pending.len() as int);
        match node_at(t, pending[0]) {
            Node::Leaf => {
                lemma_walk_ended(t, rest, (budget - 1) as nat, (more - 1) as nat);
            },
            Node::Inner(kids) => {
                lemma_walk_ended(t, kids + rest, (budget - 1) as nat, (more - 1) as nat);
            },
            Node::Other => {
                lemma_walk_ended(t, rest, (budget - 1) as nat, (more - 1) as nat);
            },
        }
    }
}

/// The walk from the entry at position `i` ends within `budget`, and the
/// `Count` of the entry is the number of pages that it meets.
pub open spec fn counts_within(t: TableModel, i: int, budget: nat) -> bool {
    walk_ends(t, seq![t[i].0], budget) && count_entry(t[i].1) == Some(
        Value::Integer(walk(t, seq![t[i].0], budget).len() as i64),
    )
}

/// The entry at position `i` counts the pages: the walk from it ends, and
/// its `Count` is the number of pages that the walk meets. No walk that goes
/// round in a loop ends, so no node in a loop counts its pages.
pub open spec fn counts_pages(t: TableModel, i: int) -> bool {
    exists|budget: nat| counts_within(t, i, budget)
}

/// Every page tree node among the objects counts the pages below it.
pub open spec fn counts_hold(t: TableModel) -> bool {
    forall|i: int| 0 <= i < t.len() && is_node((#[trigger] t[i]).1, PAGES@) ==> counts_pages(t, i)
}

/// Tables with the same page trees count alike: every page tree node of the
/// one counts its pages exactly where every page tree node of the other does.
pub proof fn lemma_same_counts(a: TableModel, b: TableModel)
    requires
        same_trees(a, b),
    ensures
        counts_hold(a) == counts_hold(b),
{
    assert forall|i: int| 0 <= i < a.len() implies (is_node((#[trigger] a[i]).1, PAGES@) == is_node(
        b[i].1,
        PAGES@,
    ) && counts_pages(a, i) == counts_pages(b, i)) by {
        assert(same_node(a[i].1, b[i].1));
        assert(a[i].0 == b[i].0);
        assert(PAGE@.len() == 4 && PAGES@.len() == 5);
        assert(is_node(a[i].1, PAGES@) <==> node_of(a[i].1) is Inner);
        assert(is_node(b[i].1, PAGES@) <==> node_of(b[i].1) is Inner);
        assert forall|budget: nat| counts_within(a, i, budget) == counts_within(b, i, budget) by {
            lemma_same_walk(a, b, seq![a[i].0], budget);
        }
        if counts_pages(a, i) {
            let budget = choose|budget: nat| counts_within(a, i, budget);
            assert(counts_within(b, i, budget));
        }
        if counts_pages(b, i) {
            let budget = choose|budget: nat| counts_within(b, i, budget);
            assert(counts_within(a, i, budget));
        }
    }
    if counts_hold(a) {
        assert forall|i: int| 0 <= i < b.len() && is_node((#[trigger] b[i]).1, PAGES@) implies counts_pages(
            b,
            i,
        ) by {
            assert(is_node(a[i].1, PAGES@) && counts_pages(a, i));
        }
    }
    if counts_hold(b) {
        assert forall|i: int| 0 <= i < a.len() && is_node((#[trigger] a[i]).1, PAGES@) implies counts_pages(
            a,
            i,
        ) by {
            assert(is_node(b[i].1, PAGES@) && counts_pages(b, i));
        }
    }
}

/// Where the page tree root is the one page tree node of a document, counts
/// the pages, and the walk from it ends, every page tree node of the
/// document counts its pages.
pub proof fn lemma_one_tree_counts(d: DocumentModel)
    requires
        crate::table::ascending(d.objects),
        count_holds(d),
        page_root(d) is Some,
        walk_ends(d.objects, seq![page_root(d)->Some_0], d.objects.len()),
        forall|i: int|
            0 <= i < d.objects.len() && is_node((#[trigger] d.objects[i]).1, PAGES@) ==> Some(
                d.objects[i].0,
            ) == page_root(d),
    ensures
        counts_hold(d.objects),
{
    let t = d.objects;
    assert forall|i: int| 0 <= i < t.len() && is_node((#[trigger] t[i]).1, PAGES@) implies counts_pages(
        t,
        i,
    ) by {
        crate::table::lemma_table_has(t, t[i].0);
        assert(table_slot(t, t[i].0) == i);
        assert(counts_within(t, i, t.len()));
    }
}

/// What waits on a stack, the top first.
spec fn top_down(stack: Seq<ObjectId>) -> Seq<ObjectId> {
    Seq::new(stack.len(), |k: int| stack[stack.len() - 1 - k])
}

/// Puts on `stack` the kids that `kids` refers to, the first on top.
fn push_kids(kids: &Vec<Object>, stack: &mut Vec<ObjectId>)
    ensures
        top_down(final(stack)@) == kid_ids(crate::object::items_view(kids@), 0) + top_down(
            old(stack)@,
        ),
{
    let ghost model = crate::object::items_view(kids@);
    proof {
        lemma_items_view(kids@);
    }
    let mut j: usize = kids.len();
    assert(top_down(stack@) =~= kid_ids(model, j as int) + top_down(old(stack)@));
    while j > 0
        invariant
            j <= kids.len(),
            model == crate::object::items_view(kids@),
            model.len() == kids@.len(),
            forall|i: int| 0 <= i < kids@.len() ==> (#[trigger] model[i]) == kids@[i]@,
            top_down(stack@) == kid_ids(model, j as int) + top_down(old(stack)@),
        decreases j,
    {
        j -= 1;
        let ghost before = stack@;
        match &kids[j] {
            Object::Reference(id) => {
                stack.push(*id);
                assert(top_down(stack@) =~= seq![*id] + top_down(before));
            },
            _ => {},
        }
        assert(model[j as int] == kids@[j as int]@);
        assert(top_down(stack@) =~= kid_ids(model, j as int) + top_down(old(stack)@));
    }
}

impl PdfDocument {
    /// Whether some object of the document is a dictionary that declares the
    /// type `name`.
    pub fn holds_node(&self, name: &[u8]) -> (r: bool)
        ensures
            r == exists|i: int|
                0 <= i < self@.objects.len() && is_node((#[trigger] self@.objects[i]).1, name@),
    {
        let n = self.objects.len();
        let mut i: usize = 0;
        while i < n
            invariant
                i <= n,
                n == self@.objects.len(),
                forall|j: int| 0 <= j < i ==> !is_node((#[trigger] self@.objects[j]).1, name@),
            decreases n - i,
        {
            let found = match self.objects.object_at(i) {
                Object::Dictionary(d) => d.has_type(name),
                _ => false,
            };
            if found {
                return true;
            }
            i += 1;
        }
        false
    }

    /// The root of the page tree, where the trailer leads to one.
    pub fn page_root_id(&self) -> (root: Option<ObjectId>)
        ensures
            root == page_root(self@),
    {
        let catalog = match self.root_id() {
            Ok(id) => id,
            Err(_) => {
                return None;
            },
        };
        match self.objects.get(catalog) {
            Some(Object::Dictionary(c)) => match c.get(&PAGES) {
                Ok(Object::Reference(id)) => Some(*id),
                _ => None,
            },
            _ => None,
        }
    }

    /// The pages of the document in page order.
    pub fn page_ids(&self) -> (pages: Vec<ObjectId>)
        ensures
            pages@ == pages_of(self@),
    {
        let mut pages: Vec<ObjectId> = Vec::new();
        let root = match self.page_root_id() {
            Some(root) => root,
            None => {
                return pages;
            },
        };
        let ghost t = self@.objects;
        let mut stack: Vec<ObjectId> = Vec::new();
        stack.push(root);
        assert(top_down(stack@) =~= seq![root]);
        let mut budget: usize = self.objects.len();
        while budget > 0 && stack.len() > 0
            invariant
                t == self@.objects,
                pages@ + walk(t, top_down(stack@), budget as nat) == pages_of(self@),
            decreases budget,
        {
            let ghost pending = top_down(stack@);
            let ghost before = pages@;
            let id = stack.pop().unwrap();
            budget -= 1;
            assert(pending[0] == id);
            assert(top_down(stack@) =~= pending.subrange(1, pending.len() as int));
            match self.objects.get(id) {
                Some(Object::Dictionary(d)) => {
                    if d.has_type(&PAGE) {
                        pages.push(id);
                        assert(pages@ + walk(t, top_down(stack@), budget as nat) =~= before
                            + walk(t, pending, (budget + 1) as nat));
                    } else if d.has_type(&PAGES) {
                        match d.get(&KIDS) {
                            Ok(Object::Array(kids)) => {
                                push_kids(kids, &mut stack);
                            },
                            _ => {
                                assert(top_down(stack@) =~= Seq::<ObjectId>::empty() + top_down(
                                    stack@,
                                ));
                            },
                        }
                    }
                },
                _ => {},
            }
        }
        assert(walk(t, top_down(stack@), budget as nat) =~= Seq::<ObjectId>::empty());
        assert(pages@ =~= pages@ + Seq::<ObjectId>::empty());
        pages
    }
}

} // verus!
