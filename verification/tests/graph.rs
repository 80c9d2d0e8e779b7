use pdf_tools::closure::closure;
use pdf_tools::renumber::renumber;
use pdf_tools::table::ObjectTable;
use pdf_tools::walker::{collect_refs, remap, Numbering};
use pdf_tools::{Dictionary, PdfDocument, Error, Object, ObjectId, Stream};

fn id(number: u32) -> ObjectId {
    ObjectId::new(number, 0)
}

fn reference(number: u32) -> Object {
    Object::Reference(id(number))
}

fn dict(entries: Vec<(&[u8], Object)>) -> Dictionary {
    let mut d = Dictionary::new();
    for (name, value) in entries {
        d.set(name, value);
    }
    d
}

fn name(text: &[u8]) -> Object {
    Object::Name(text.to_vec())
}

/// 1 -> 2 -> 3 -> 1 (a cycle), 2 -> 9 (absent), 4 -> 5, and 6 alone.
fn looped() -> ObjectTable {
    let mut t = ObjectTable::new();
    t.insert(id(1), Object::Dictionary(dict(vec![(b"Next", reference(2))])));
    t.insert(id(2), Object::Array(vec![reference(3), Object::Integer(0), reference(9)]));
    t.insert(
        id(3),
        Object::Stream(Stream::new(dict(vec![(b"Back", reference(1))]), vec![1, 2])),
    );
    t.insert(id(4), Object::Dictionary(dict(vec![(b"Next", reference(5))])));
    t.insert(id(5), Object::Integer(5));
    t.insert(id(6), Object::Null);
    t
}

#[test]
fn collect_refs_follows_arrays_dictionaries_and_stream_dictionaries() {
    let nested = Object::Dictionary(dict(vec![
        (b"A", reference(4)),
        (b"B", Object::Array(vec![reference(2), Object::Array(vec![reference(4)])])),
        (
            b"C",
            Object::Stream(Stream::new(dict(vec![(b"D", reference(7))]), vec![])),
        ),
        (b"E", Object::Integer(3)),
    ]));
    let mut out = vec![id(1)];
    collect_refs(&nested, &mut out);
    assert_eq!(out, vec![id(1), id(4), id(2), id(4), id(7)]);
}

#[test]
fn closure_ends_on_a_cycle_and_lists_each_identifier_once() {
    let found = closure(&looped(), &vec![id(1)]);
    assert_eq!(found, vec![id(1), id(2), id(3), id(9)]);
}

#[test]
fn closure_holds_the_roots_and_nothing_unreachable() {
    assert_eq!(closure(&looped(), &vec![id(4)]), vec![id(4), id(5)]);
    assert_eq!(closure(&looped(), &vec![id(6)]), vec![id(6)]);
    assert_eq!(closure(&looped(), &vec![id(5), id(3)]), vec![id(1), id(2), id(3), id(5), id(9)]);
    assert_eq!(closure(&looped(), &vec![id(40)]), vec![id(40)]);
    assert_eq!(closure(&looped(), &vec![]), Vec::<ObjectId>::new());
}

#[test]
fn remap_rewrites_mapped_references_and_keeps_the_others() {
    let mapping = Numbering::new(vec![id(3), id(7)], 10).unwrap();
    assert_eq!(mapping.get(id(3)), Some(id(10)));
    assert_eq!(mapping.get(id(7)), Some(id(11)));
    assert_eq!(mapping.get(id(5)), None);
    let before = Object::Dictionary(dict(vec![
        (b"Type", name(b"Page")),
        (b"Parent", reference(7)),
        (b"Other", reference(5)),
        (b"Kids", Object::Array(vec![reference(3), Object::Integer(1)])),
        (
            b"Body",
            Object::Stream(Stream::new(dict(vec![(b"Font", reference(3))]), vec![4, 5])),
        ),
    ]));
    let after = Object::Dictionary(dict(vec![
        (b"Type", name(b"Page")),
        (b"Parent", reference(11)),
        (b"Other", reference(5)),
        (b"Kids", Object::Array(vec![reference(10), Object::Integer(1)])),
        (
            b"Body",
            Object::Stream(Stream::new(dict(vec![(b"Font", reference(10))]), vec![4, 5])),
        ),
    ]));
    assert_eq!(remap(&before, &mapping), after);
}

#[test]
fn numbering_wants_increasing_identifiers_and_numbers_enough() {
    assert!(Numbering::new(vec![id(7), id(3)], 1).is_none());
    assert!(Numbering::new(vec![id(3), id(3)], 1).is_none());
    assert!(Numbering::new(vec![id(3), id(4)], u32::MAX - 1).is_none());
    assert!(Numbering::new(vec![id(3), id(4)], u32::MAX - 2).is_some());
    assert!(Numbering::new(vec![], u32::MAX).is_some());
}

#[test]
fn remap_resets_the_generation() {
    let mapping = Numbering::new(vec![ObjectId::new(3, 2)], 1).unwrap();
    assert_eq!(
        remap(&Object::Reference(ObjectId::new(3, 2)), &mapping),
        Object::Reference(ObjectId::new(1, 0))
    );
    assert_eq!(
        remap(&Object::Reference(ObjectId::new(3, 0)), &mapping),
        Object::Reference(ObjectId::new(3, 0))
    );
}

#[test]
fn renumber_gives_contiguous_numbers_and_rewrites_references() {
    let mut doc = PdfDocument::with_version("1.4");
    doc.trailer.set(b"Root", reference(20));
    doc.objects.insert(id(20), Object::Dictionary(dict(vec![(b"Pages", reference(7))])));
    doc.objects.insert(
        ObjectId::new(7, 3),
        Object::Dictionary(dict(vec![(b"Kids", Object::Array(vec![reference(30)]))])),
    );
    doc.objects.insert(id(7), Object::Dictionary(dict(vec![(b"Kids", Object::Array(vec![reference(30)]))])));
    doc.objects.insert(id(30), Object::Dictionary(dict(vec![(b"Parent", Object::Reference(ObjectId::new(7, 3)))])));
    let (next, mapping) = renumber(&mut doc, 5).unwrap();
    assert_eq!(next, 9);
    assert_eq!(doc.max_id, 8);
    assert_eq!(mapping.get(id(7)), Some(id(5)));
    assert_eq!(mapping.get(ObjectId::new(7, 3)), Some(id(6)));
    assert_eq!(mapping.get(id(20)), Some(id(7)));
    assert_eq!(mapping.get(id(30)), Some(id(8)));
    assert_eq!(doc.objects.len(), 4);
    assert_eq!(doc.objects.id_at(0), id(5));
    assert_eq!(doc.objects.id_at(3), id(8));
    assert_eq!(doc.trailer.get(b"Root"), Ok(&reference(7)));
    assert_eq!(
        doc.objects.get(id(7)),
        Some(&Object::Dictionary(dict(vec![(b"Pages", reference(5))])))
    );
    assert_eq!(
        doc.objects.get(id(8)),
        Some(&Object::Dictionary(dict(vec![(b"Parent", reference(6))])))
    );
    assert_eq!(
        doc.objects.get(id(5)),
        Some(&Object::Dictionary(dict(vec![(b"Kids", Object::Array(vec![reference(8)]))])))
    );
}

#[test]
fn renumber_twice_from_the_same_number_changes_nothing_more() {
    let mut doc = PdfDocument::with_version("1.4");
    doc.trailer.set(b"Root", reference(4));
    doc.objects.insert(id(4), Object::Dictionary(dict(vec![(b"Next", reference(9))])));
    doc.objects.insert(id(9), Object::Array(vec![reference(4)]));
    renumber(&mut doc, 1).unwrap();
    let first = (doc.objects.get(id(1)).unwrap().duplicate(), doc.objects.get(id(2)).unwrap().duplicate());
    let (next, _) = renumber(&mut doc, 1).unwrap();
    assert_eq!(next, 3);
    assert_eq!(doc.objects.get(id(1)), Some(&first.0));
    assert_eq!(doc.objects.get(id(2)), Some(&first.1));
    assert_eq!(doc.trailer.get(b"Root"), Ok(&reference(1)));
}

#[test]
fn renumber_without_numbers_left_is_too_many_objects() {
    let mut doc = PdfDocument::with_version("1.4");
    doc.objects.insert(id(1), Object::Null);
    doc.objects.insert(id(2), Object::Null);
    assert_eq!(renumber(&mut doc, u32::MAX - 1).err(), Some(Error::TooManyObjects));
    assert_eq!(doc.objects.id_at(0), id(1));
    assert_eq!(doc.max_id, 0);
    let (next, _) = renumber(&mut doc, u32::MAX - 2).unwrap();
    assert_eq!(next, u32::MAX);
}
