//! The outline that a document brings along: the objects that make it up,
//! found from the catalog by the links between them.

use vstd::prelude::*;
use crate::closure::closure;
use crate::document::{PdfDocument, DocumentModel, root_of};
use crate::names::{FIRST, LAST, NEXT, OUTLINES, PREV};
use crate::object::{dict_get, DictModel, Dictionary, lemma_items_view, Object, ObjectId, Value};
use crate::split::{closure_of, lemma_closure_of};
use crate::table::{ascending, ObjectTable, table_get, TableModel};

verus! {

/// The reference under `name`, where `d` holds one there.
pub open spec fn link_of(d: DictModel, name: Seq<u8>) -> Seq<Value> {
    match dict_get(d, name) {
        Some(Value::Reference(id)) => seq![Value::Reference(id)],
        _ => Seq::empty(),
    }
}

/// The links that hold an outline together, of all that `v` holds: the
/// references under `First`, `Last`, `Next` and `Prev` of a dictionary.
pub open spec fn outline_links(v: Value) -> Value {
    match v {
        Value::Dictionary(d) => Value::Array(
            link_of(d, FIRST@) + link_of(d, LAST@) + link_of(d, NEXT@) + link_of(d, PREV@),
        ),
        _ => Value::Null,
    }
}

/// The objects with nothing but the links that hold an outline together.
pub open spec fn outline_graph(t: TableModel) -> TableModel {
    Seq::new(t.len(), |i: int| (t[i].0, outline_links(t[i].1)))
}

/// What the `Outlines` entry of the catalog refers to.
pub open spec fn outline_entry(d: DocumentModel) -> Option<ObjectId> {
    match root_of(d) {
        Some(catalog) => match table_get(d.objects, catalog) {
            Some(Value::Dictionary(c)) => match dict_get(c, OUTLINES@) {
                Some(Value::Reference(id)) => Some(id),
                _ => None,
            },
            _ => None,
        },
        None => None,
    }
}

/// The identifiers of the outline of a document, in increasing order: what
/// the `Outlines` entry of the catalog leads to by the links of an outline.
pub open spec fn outline_members(d: DocumentModel) -> Seq<ObjectId> {
    match outline_entry(d) {
        Some(root) => closure_of(outline_graph(d.objects), seq![root]),
        None => Seq::empty(),
    }
}

fn push_link(d: &Dictionary, name: &[u8], links: &mut Vec<Object>)
    ensures
        crate::object::items_view(final(links)@) == crate::object::items_view(old(links)@)
            + link_of(d@, name@),
{
    proof {
        lemma_items_view(links@);
    }
    match d.get(name) {
        Ok(Object::Reference(id)) => {
            links.push(Object::Reference(*id));
        },
        _ => {},
    }
    proof {
        lemma_items_view(links@);
        assert(crate::object::items_view(links@) =~= crate::object::items_view(old(links)@)
            + link_of(d@, name@));
    }
}

fn links_of(object: &Object) -> (links: Object)
    ensures
        links@ == outline_links(object@),
{
    match object {
        Object::Dictionary(d) => {
            let mut links: Vec<Object> = Vec::new();
            proof {
                lemma_items_view(links@);
                assert(crate::object::items_view(links@) =~= Seq::<Value>::empty());
            }
            push_link(d, &FIRST, &mut links);
            push_link(d, &LAST, &mut links);
            push_link(d, &NEXT, &mut links);
            push_link(d, &PREV, &mut links);
            assert(crate::object::items_view(links@) =~= link_of(d@, FIRST@) + link_of(d@, LAST@)
                + link_of(d@, NEXT@) + link_of(d@, PREV@));
            Object::Array(links)
        },
        _ => Object::Null,
    }
}

/// The identifiers of the outline of the document, in increasing order.
pub fn outline_ids(doc: &PdfDocument) -> (ids: Vec<ObjectId>)
    ensures
        ids@ == outline_members(doc@),
{
    let root = match doc.root_id() {
        Ok(catalog) => match doc.objects.get(catalog) {
            Some(Object::Dictionary(c)) => match c.get(&OUTLINES) {
                Ok(Object::Reference(id)) => *id,
                _ => {
                    return Vec::new();
                },
            },
            _ => {
                return Vec::new();
            },
        },
        Err(_) => {
            return Vec::new();
        },
    };
    let n = doc.objects.len();
    let ghost t = doc@.objects;
    let mut graph = ObjectTable::new();
    let mut i: usize = 0;
    while i < n
        invariant
            i <= n,
            n == t.len(),
            t == doc@.objects,
            ascending(t),
            graph@ == outline_graph(t).subrange(0, i as int),
        decreases n - i,
    {
        proof {
            if i > 0 {
                assert(graph@.last() == outline_graph(t)[i - 1]);
                assert(t[i - 1].0.key() < t[i as int].0.key());
            }
        }
        graph.push(doc.objects.id_at(i), links_of(doc.objects.object_at(i)));
        assert(graph@ =~= outline_graph(t).subrange(0, i + 1));
        i += 1;
    }
    assert(graph@ =~= outline_graph(t));
    let mut roots: Vec<ObjectId> = Vec::new();
    roots.push(root);
    assert(roots@ =~= seq![root]);
    let ids = closure(&graph, &roots);
    proof {
        lemma_closure_of(outline_graph(t), seq![root], ids@);
    }
    ids
}

} // verus!
