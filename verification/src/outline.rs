//! The outline of a document: bookmarks and the objects that hold them.

use vstd::prelude::*;
use crate::names::{
    ACTION, ACTION_KIND, COLOR, COUNT, DESTINATION, FIRST, FIT, FLAGS, GO_TO, LAST, NEXT, PARENT,
    PREV, TITLE,
};
use crate::object::{
    Dictionary, DictModel, find_from, lemma_items_view, Object, ObjectId, StringFormat, Value,
};
use crate::table::{ascending, ObjectTable, TableModel};
use crate::walker::{items_refs, lemma_refs_in_entries, value_refs};

verus! {

/// An entry of the outline: a title, a colour as the bit patterns of its red,
/// green and blue parts, a level, and the page that it leads to.
pub struct Bookmark {
    pub title: Vec<u8>,
    pub color: (u32, u32, u32),
    pub level: u32,
    pub page: ObjectId,
}

/// Mathematical model of a bookmark.
pub struct BookmarkModel {
    pub title: Seq<u8>,
    pub color: (u32, u32, u32),
    pub level: u32,
    pub page: ObjectId,
}

impl View for Bookmark {
    type V = BookmarkModel;

    open spec fn view(&self) -> BookmarkModel {
        BookmarkModel { title: self.title@, color: self.color, level: self.level, page: self.page }
    }
}

/// The models of a list of bookmarks.
pub open spec fn bookmarks_view(bookmarks: Seq<Bookmark>) -> Seq<BookmarkModel> {
    Seq::new(bookmarks.len(), |k: int| bookmarks[k]@)
}

/// The identifier of the outline root, where the outline takes the numbers
/// from `first` on.
pub open spec fn outline_id(first: int) -> ObjectId {
    ObjectId { number: first as u32, generation: 0 }
}

/// The identifier of the item for bookmark `k`.
pub open spec fn item_id(first: int, k: int) -> ObjectId {
    ObjectId { number: (first + 1 + 2 * k) as u32, generation: 0 }
}

/// The identifier of the action of the item for bookmark `k`.
pub open spec fn action_id(first: int, k: int) -> ObjectId {
    ObjectId { number: (first + 2 + 2 * k) as u32, generation: 0 }
}

/// The outline root over `count` items.
pub open spec fn outline_root(first: int, count: int) -> DictModel {
    seq![
        (FIRST@, Value::Reference(item_id(first, 0))),
        (LAST@, Value::Reference(item_id(first, count - 1))),
        (COUNT@, Value::Integer(count as i64)),
    ]
}

/// The item for bookmark `k` of `count`: it names its parent, its title, its
/// action, its level and its colour, and the items before and after it.
pub open spec fn outline_item(first: int, k: int, count: int, b: BookmarkModel) -> DictModel {
    let base = seq![
        (PARENT@, Value::Reference(outline_id(first))),
        (TITLE@, Value::String(b.title, StringFormat::Literal)),
        (ACTION@, Value::Reference(action_id(first, k))),
        (FLAGS@, Value::Integer(b.level as i64)),
        (
            COLOR@,
            Value::Array(
                seq![Value::Real(b.color.0), Value::Real(b.color.1), Value::Real(b.color.2)],
            ),
        ),
    ];
    let linked = if k > 0 {
        base.push((PREV@, Value::Reference(item_id(first, k - 1))))
    } else {
        base
    };
    if k < count - 1 {
        linked.push((NEXT@, Value::Reference(item_id(first, k + 1))))
    } else {
        linked
    }
}

/// The action of an item: go to the page, fitted to the window.
pub open spec fn outline_action(b: BookmarkModel) -> DictModel {
    seq![
        (DESTINATION@, Value::Array(seq![Value::Reference(b.page), Value::Name(FIT@)])),
        (ACTION_KIND@, Value::Name(GO_TO@)),
    ]
}

/// The outline root and the items and actions of the first `n` bookmarks, in
/// the order of their identifiers.
pub open spec fn outline_objects(first: int, bookmarks: Seq<BookmarkModel>, n: nat) -> TableModel
    decreases n,
{
    if n == 0 || n > bookmarks.len() {
        seq![(outline_id(first), Value::Dictionary(outline_root(first, bookmarks.len() as int)))]
    } else {
        outline_objects(first, bookmarks, (n - 1) as nat) + seq![
            (
                item_id(first, n - 1),
                Value::Dictionary(
                    outline_item(first, n - 1, bookmarks.len() as int, bookmarks[n - 1]),
                ),
            ),
            (action_id(first, n - 1), Value::Dictionary(outline_action(bookmarks[n - 1]))),
        ]
    }
}

/// What the objects of an outline refer to: the root to its first and last
/// item; an item to the root, to its action and to the items beside it; an
/// action to the page of its bookmark.
pub proof fn lemma_outline_refs(first: int, k: int, count: int, b: BookmarkModel, r: ObjectId)
    requires
        0 <= k < count,
    ensures
        value_refs(Value::Dictionary(outline_root(first, count))).contains(r) ==> r == item_id(
            first,
            0,
        ) || r == item_id(first, count - 1),
        value_refs(Value::Dictionary(outline_item(first, k, count, b))).contains(r) ==> r
            == outline_id(first) || r == action_id(first, k) || (k > 0 && r == item_id(
            first,
            k - 1,
        )) || (k < count - 1 && r == item_id(first, k + 1)),
        value_refs(Value::Dictionary(outline_action(b))).contains(r) ==> r == b.page,
{
    let root = outline_root(first, count);
    if value_refs(Value::Dictionary(root)).contains(r) {
        lemma_refs_in_entries(root, root.len(), r);
        let x = choose|x: int| 0 <= x < root.len() && #[trigger] value_refs(root[x].1).contains(r);
        assert(value_refs(root[0].1) =~= seq![item_id(first, 0)]);
        assert(value_refs(root[1].1) =~= seq![item_id(first, count - 1)]);
        assert(value_refs(root[2].1) =~= Seq::<ObjectId>::empty());
    }
    let item = outline_item(first, k, count, b);
    if value_refs(Value::Dictionary(item)).contains(r) {
        lemma_refs_in_entries(item, item.len(), r);
        let x = choose|x: int| 0 <= x < item.len() && #[trigger] value_refs(item[x].1).contains(r);
        let shades = seq![Value::Real(b.color.0), Value::Real(b.color.1), Value::Real(b.color.2)];
        assert(items_refs(shades, 0) =~= Seq::<ObjectId>::empty());
        assert(value_refs(shades[0]) =~= Seq::<ObjectId>::empty());
        assert(items_refs(shades, 1) =~= Seq::<ObjectId>::empty());
        assert(value_refs(shades[1]) =~= Seq::<ObjectId>::empty());
        assert(items_refs(shades, 2) =~= Seq::<ObjectId>::empty());
        assert(value_refs(shades[2]) =~= Seq::<ObjectId>::empty());
        assert(items_refs(shades, 3) =~= Seq::<ObjectId>::empty());
        assert(value_refs(item[0].1) =~= seq![outline_id(first)]);
        assert(value_refs(item[1].1) =~= Seq::<ObjectId>::empty());
        assert(value_refs(item[2].1) =~= seq![action_id(first, k)]);
        assert(value_refs(item[3].1) =~= Seq::<ObjectId>::empty());
        assert(value_refs(item[4].1) =~= Seq::<ObjectId>::empty());
        if x >= 5 {
            assert(value_refs(item[x].1).len() == 1);
        }
    }
    let action = outline_action(b);
    if value_refs(Value::Dictionary(action)).contains(r) {
        lemma_refs_in_entries(action, action.len(), r);
        let x = choose|x: int|
            0 <= x < action.len() && #[trigger] value_refs(action[x].1).contains(r);
        let target = seq![Value::Reference(b.page), Value::Name(FIT@)];
        assert(items_refs(target, 0) =~= Seq::<ObjectId>::empty());
        assert(value_refs(target[0]) =~= seq![b.page]);
        assert(items_refs(target, 1) =~= seq![b.page]);
        assert(value_refs(target[1]) =~= Seq::<ObjectId>::empty());
        assert(items_refs(target, 2) =~= seq![b.page]);
        assert(value_refs(action[1].1) =~= Seq::<ObjectId>::empty());
    }
}

/// No object of an outline declares a type.
pub proof fn lemma_outline_untyped(first: int, k: int, count: int, b: BookmarkModel)
    ensures
        crate::object::dict_type(outline_root(first, count)) is None,
        crate::object::dict_type(outline_item(first, k, count, b)) is None,
        crate::object::dict_type(outline_action(b)) is None,
{
    let name = crate::names::TYPE@;
    assert(name.len() == 4 && FIRST@.len() == 5 && COUNT@.len() == 5 && PARENT@.len() == 6
        && TITLE@.len() == 5 && ACTION@.len() == 1 && FLAGS@.len() == 1 && COLOR@.len() == 1
        && DESTINATION@.len() == 1 && ACTION_KIND@.len() == 1);
    assert(name[0] != LAST@[0] && name[0] != PREV@[0] && name[0] != NEXT@[0]);
    let root = outline_root(first, count);
    assert forall|j: int| 0 <= j < root.len() implies (#[trigger] root[j]).0 != name by {}
    crate::object::lemma_find_is(root, name, root.len() as int);
    let item = outline_item(first, k, count, b);
    assert forall|j: int| 0 <= j < item.len() implies (#[trigger] item[j]).0 != name by {}
    crate::object::lemma_find_is(item, name, item.len() as int);
    let action = outline_action(b);
    assert forall|j: int| 0 <= j < action.len() implies (#[trigger] action[j]).0 != name by {}
    crate::object::lemma_find_is(action, name, action.len() as int);
}

/// What the outline holds: under the number `first` the root, and after it,
/// for each bookmark in turn, the item and its action.
pub proof fn lemma_outline_objects(first: int, marks: Seq<BookmarkModel>, n: nat)
    requires
        n <= marks.len(),
        1 <= first,
        first + 2 * marks.len() <= u32::MAX,
    ensures
        outline_objects(first, marks, n).len() == 1 + 2 * n,
        forall|x: int|
            0 <= x < 1 + 2 * n ==> (#[trigger] outline_objects(first, marks, n)[x]).0 == (ObjectId {
                number: (first + x) as u32,
                generation: 0,
            }),
        outline_objects(first, marks, n)[0].1 == Value::Dictionary(
            outline_root(first, marks.len() as int),
        ),
        forall|k: int|
            0 <= k < n ==> (#[trigger] outline_objects(first, marks, n)[1 + 2 * k]).1
                == Value::Dictionary(outline_item(first, k, marks.len() as int, marks[k])),
        forall|k: int|
            0 <= k < n ==> (#[trigger] outline_objects(first, marks, n)[2 + 2 * k]).1
                == Value::Dictionary(outline_action(marks[k])),
    decreases n,
{
    if n > 0 {
        lemma_outline_objects(first, marks, (n - 1) as nat);
        let before = outline_objects(first, marks, (n - 1) as nat);
        let o = outline_objects(first, marks, n);
        assert forall|x: int| 0 <= x < 1 + 2 * n implies (#[trigger] o[x]).0 == (ObjectId {
            number: (first + x) as u32,
            generation: 0,
        }) by {
            if x < before.len() {
                assert(o[x] == before[x]);
            }
        }
        assert(o[0] == before[0]);
        assert forall|k: int| 0 <= k < n implies (#[trigger] o[1 + 2 * k]).1 == Value::Dictionary(
            outline_item(first, k, marks.len() as int, marks[k]),
        ) by {
            if k < n - 1 {
                assert(o[1 + 2 * k] == before[1 + 2 * k]);
            }
        }
        assert forall|k: int| 0 <= k < n implies (#[trigger] o[2 + 2 * k]).1 == Value::Dictionary(
            outline_action(marks[k]),
        ) by {
            if k < n - 1 {
                assert(o[2 + 2 * k] == before[2 + 2 * k]);
            }
        }
    }
}

fn build_root(first: u32, count: usize) -> (d: Dictionary)
    requires
        count > 0,
        first + 2 * count <= u32::MAX,
    ensures
        d@ == outline_root(first as int, count as int),
{
    let mut d = Dictionary::new();
    d.set(&FIRST, Object::Reference(ObjectId { number: first + 1, generation: 0 }));
    d.set(
        &LAST,
        Object::Reference(ObjectId { number: first + 1 + 2 * ((count - 1) as u32), generation: 0 }),
    );
    d.set(&COUNT, Object::Integer(count as i64));
    proof {
        reveal_with_fuel(find_from, 4);
        assert(d@ =~= outline_root(first as int, count as int));
    }
    d
}

fn build_action(bookmark: &Bookmark) -> (d: Dictionary)
    ensures
        d@ == outline_action(bookmark@),
{
    let page = bookmark.page;
    let mut target: Vec<Object> = Vec::new();
    target.push(Object::Reference(page));
    target.push(Object::name(&FIT));
    let target = Object::Array(target);
    proof {
        lemma_items_view(target->Array_0@);
        assert(crate::object::items_view(target->Array_0@) =~= seq![
            Value::Reference(page),
            Value::Name(FIT@),
        ]);
    }
    let mut d = Dictionary::new();
    d.set(&DESTINATION, target);
    d.set(&ACTION_KIND, Object::name(&GO_TO));
    proof {
        reveal_with_fuel(find_from, 3);
        assert(d@ =~= outline_action(bookmark@));
    }
    d
}

fn build_item(first: u32, k: usize, count: usize, bookmark: &Bookmark) -> (d: Dictionary)
    requires
        k < count,
        first + 2 * count <= u32::MAX,
    ensures
        d@ == outline_item(first as int, k as int, count as int, bookmark@),
{
    let mut color: Vec<Object> = Vec::new();
    color.push(Object::Real(bookmark.color.0));
    color.push(Object::Real(bookmark.color.1));
    color.push(Object::Real(bookmark.color.2));
    let color = Object::Array(color);
    proof {
        lemma_items_view(color->Array_0@);
        assert(crate::object::items_view(color->Array_0@) =~= seq![
            Value::Real(bookmark.color.0),
            Value::Real(bookmark.color.1),
            Value::Real(bookmark.color.2),
        ]);
    }
    let mut d = Dictionary::new();
    d.set(&PARENT, Object::Reference(ObjectId { number: first, generation: 0 }));
    d.set(
        &TITLE,
        Object::String(crate::bytes::copy_bytes(bookmark.title.as_slice()), StringFormat::Literal),
    );
    d.set(
        &ACTION,
        Object::Reference(ObjectId { number: first + 2 + 2 * (k as u32), generation: 0 }),
    );
    d.set(&FLAGS, Object::Integer(bookmark.level as i64));
    d.set(&COLOR, color);
    proof {
        reveal_with_fuel(find_from, 6);
        assert(PARENT@.len() == 6 && TITLE@.len() == 5 && ACTION@.len() == 1 && FLAGS@.len() == 1
            && COLOR@.len() == 1 && PREV@.len() == 4 && NEXT@.len() == 4);
        assert(ACTION@[0] != FLAGS@[0] && ACTION@[0] != COLOR@[0] && FLAGS@[0] != COLOR@[0]);
    }
    let ghost base = d@;
    if k > 0 {
        d.set(
            &PREV,
            Object::Reference(ObjectId { number: first + 1 + 2 * ((k - 1) as u32), generation: 0 }),
        );
        proof {
            reveal_with_fuel(find_from, 7);
            assert(d@ =~= base.push((PREV@, Value::Reference(item_id(first as int, k - 1)))));
        }
    }
    let ghost linked = d@;
    if k + 1 < count {
        d.set(
            &NEXT,
            Object::Reference(ObjectId { number: first + 1 + 2 * ((k + 1) as u32), generation: 0 }),
        );
        proof {
            reveal_with_fuel(find_from, 8);
            assert(PREV@[0] != NEXT@[0]);
            assert(d@ =~= linked.push((NEXT@, Value::Reference(item_id(first as int, k + 1)))));
        }
    }
    assert(d@ =~= outline_item(first as int, k as int, count as int, bookmark@));
    d
}

/// Adds to `objects` the outline for `bookmarks`: a root under the number
/// `first`, and after it an item and its action for each bookmark.
pub fn append_outline(objects: &mut ObjectTable, bookmarks: &Vec<Bookmark>, first: u32)
    requires
        bookmarks@.len() > 0,
        first + 2 * bookmarks@.len() <= u32::MAX,
        old(objects)@.len() > 0 ==> old(objects)@.last().0.number < first,
    ensures
        final(objects)@ == old(objects)@ + outline_objects(
            first as int,
            bookmarks_view(bookmarks@),
            bookmarks@.len(),
        ),
        ascending(final(objects)@),
{
    let count = bookmarks.len();
    let ghost models = bookmarks_view(bookmarks@);
    objects.push(ObjectId { number: first, generation: 0 }, Object::Dictionary(build_root(first, count)));
    assert(objects@ =~= old(objects)@ + outline_objects(first as int, models, 0));
    let mut k: usize = 0;
    while k < count
        invariant
            k <= count,
            count == bookmarks@.len(),
            first + 2 * count <= u32::MAX,
            models == bookmarks_view(bookmarks@),
            objects@ == old(objects)@ + outline_objects(first as int, models, k as nat),
            ascending(objects@),
            objects@.len() > 0,
            objects@.last().0.number <= first + 2 * k,
            objects@.last().0.generation == 0,
        decreases count - k,
    {
        let bookmark = &bookmarks[k];
        let item = build_item(first, k, count, bookmark);
        let action = build_action(bookmark);
        objects.push(
            ObjectId { number: first + 1 + 2 * (k as u32), generation: 0 },
            Object::Dictionary(item),
        );
        objects.push(
            ObjectId { number: first + 2 + 2 * (k as u32), generation: 0 },
            Object::Dictionary(action),
        );
        assert(objects@ =~= old(objects)@ + outline_objects(first as int, models, (k + 1) as nat));
        k += 1;
    }
}

} // verus!
