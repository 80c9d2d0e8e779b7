use pdf_tools::table::ObjectTable;
use pdf_tools::{Dictionary, PdfDocument, Error, Object, ObjectId, Stream, StringFormat};

fn id(number: u32) -> ObjectId {
    ObjectId::new(number, 0)
}

#[test]
fn dictionary_set_inserts_and_overwrites() {
    let mut d = Dictionary::new();
    assert_eq!(d.len(), 0);
    d.set(b"Count", Object::Integer(3));
    d.set(b"Kids", Object::Array(vec![]));
    assert_eq!(d.len(), 2);
    d.set(b"Count", Object::Integer(4));
    assert_eq!(d.len(), 2);
    assert_eq!(d.get(b"Count").unwrap().as_i64(), Ok(4));
    assert_eq!(d.name_at(0).as_slice(), b"Count");
    assert_eq!(d.name_at(1).as_slice(), b"Kids");
}

#[test]
fn dictionary_get_of_absent_name_is_missing_key() {
    let mut d = Dictionary::new();
    d.set(b"Count", Object::Integer(3));
    assert_eq!(d.get(b"Kids").err(), Some(Error::MissingKey));
    assert!(!d.has(b"Kids"));
    assert!(d.has(b"Count"));
}

#[test]
fn dictionary_remove_drops_the_entry() {
    let mut d = Dictionary::new();
    d.set(b"A", Object::Integer(1));
    d.set(b"B", Object::Integer(2));
    d.set(b"C", Object::Integer(3));
    assert_eq!(d.remove(b"B"), Some(Object::Integer(2)));
    assert_eq!(d.remove(b"B"), None);
    assert_eq!(d.len(), 2);
    assert!(!d.has(b"B"));
    assert_eq!(d.name_at(0).as_slice(), b"A");
    assert_eq!(d.name_at(1).as_slice(), b"C");
    assert_eq!(d.value_at(1), &Object::Integer(3));
}

#[test]
fn accessors_fail_with_type_mismatch_on_another_variant() {
    let stream = Object::Stream(Stream::new(Dictionary::new(), vec![1, 2, 3]));
    assert_eq!(stream.as_dict().err(), Some(Error::TypeMismatch));
    assert_eq!(Object::Null.as_bool(), Err(Error::TypeMismatch));
    assert_eq!(Object::Boolean(true).as_i64(), Err(Error::TypeMismatch));
    assert_eq!(Object::Integer(1).as_real_bits(), Err(Error::TypeMismatch));
    assert_eq!(Object::Integer(1).as_name().err(), Some(Error::TypeMismatch));
    assert_eq!(Object::Name(b"N".to_vec()).as_str().err(), Some(Error::TypeMismatch));
    assert_eq!(Object::Null.as_array().err(), Some(Error::TypeMismatch));
    assert_eq!(Object::Null.as_stream().err(), Some(Error::TypeMismatch));
    assert_eq!(Object::Integer(7).as_reference(), Err(Error::TypeMismatch));
}

#[test]
fn accessors_hand_out_the_payload_of_their_variant() {
    assert_eq!(Object::Boolean(true).as_bool(), Ok(true));
    assert_eq!(Object::Integer(-5).as_i64(), Ok(-5));
    assert_eq!(Object::Real(0x3F80_0000).as_real_bits(), Ok(0x3F80_0000));
    assert_eq!(Object::Name(b"Page".to_vec()).as_name().unwrap().as_slice(), b"Page");
    let text = Object::String(b"hello".to_vec(), StringFormat::Literal);
    assert_eq!(text.as_str().unwrap().as_slice(), b"hello");
    assert_eq!(Object::Reference(id(9)).as_reference(), Ok(id(9)));
    let items = Object::Array(vec![Object::Integer(1), Object::Null]);
    assert_eq!(items.as_array().unwrap().len(), 2);
}

#[test]
fn declared_type_reads_the_type_entry() {
    let mut d = Dictionary::new();
    assert_eq!(Object::Integer(1).declared_type().err(), Some(Error::TypeMismatch));
    d.set(b"Kids", Object::Array(vec![]));
    assert!(!d.has_type(b"Pages"));
    d.set(b"Type", Object::Name(b"Pages".to_vec()));
    assert!(d.has_type(b"Pages"));
    assert!(!d.has_type(b"Page"));
    let o = Object::Dictionary(d);
    assert_eq!(o.declared_type().unwrap().as_slice(), b"Pages");
    assert!(o.has_type(b"Pages"));
    let mut untyped = Dictionary::new();
    untyped.set(b"Kids", Object::Array(vec![]));
    assert_eq!(Object::Dictionary(untyped).declared_type().err(), Some(Error::MissingKey));
    let mut odd = Dictionary::new();
    odd.set(b"Type", Object::Integer(1));
    assert_eq!(Object::Dictionary(odd).declared_type().err(), Some(Error::TypeMismatch));
}

#[test]
fn duplicate_is_a_deep_copy() {
    let mut inner = Dictionary::new();
    inner.set(b"Ref", Object::Reference(id(4)));
    let mut outer = Dictionary::new();
    outer.set(b"Inner", Object::Dictionary(inner));
    outer.set(b"List", Object::Array(vec![Object::Integer(1), Object::Name(b"X".to_vec())]));
    let stream = Object::Stream(Stream::new(outer, vec![9, 8, 7]));
    assert_eq!(stream.duplicate(), stream);
}

#[test]
fn table_keeps_identifiers_in_ascending_order() {
    let mut t = ObjectTable::new();
    t.insert(id(5), Object::Integer(5));
    t.insert(id(2), Object::Integer(2));
    t.insert(ObjectId::new(2, 1), Object::Integer(21));
    t.insert(id(9), Object::Integer(9));
    t.insert(id(5), Object::Integer(55));
    assert_eq!(t.len(), 4);
    assert_eq!(t.id_at(0), id(2));
    assert_eq!(t.id_at(1), ObjectId::new(2, 1));
    assert_eq!(t.id_at(2), id(5));
    assert_eq!(t.id_at(3), id(9));
    assert_eq!(t.get(id(5)), Some(&Object::Integer(55)));
    assert_eq!(t.get(id(3)), None);
    assert!(t.contains(id(9)));
    assert!(!t.contains(ObjectId::new(9, 1)));
    assert_eq!(t.slot_of(id(3)), 2);
    assert_eq!(t.slot_of(id(100)), 4);
}

#[test]
fn table_replace_at_hands_back_the_old_object() {
    let mut t = ObjectTable::new();
    t.push(id(1), Object::Integer(1));
    t.push(id(2), Object::Integer(2));
    t.push(id(3), Object::Integer(3));
    assert_eq!(t.replace_at(1, Object::Null), Object::Integer(2));
    assert_eq!(t.object_at(0), &Object::Integer(1));
    assert_eq!(t.object_at(1), &Object::Null);
    assert_eq!(t.object_at(2), &Object::Integer(3));
    assert_eq!(t.id_at(1), id(2));
}

#[test]
fn document_hands_out_identifiers_in_turn() {
    let mut doc = PdfDocument::with_version("1.7");
    assert_eq!(doc.version, "1.7");
    assert_eq!(doc.new_object_id(), Some(id(1)));
    assert_eq!(doc.new_object_id(), Some(id(2)));
    assert_eq!(doc.max_id, 2);
    doc.max_id = u32::MAX;
    assert_eq!(doc.new_object_id(), None);
    assert_eq!(doc.max_id, u32::MAX);
}

#[test]
fn document_lookup_of_absent_object_is_missing_object() {
    let mut doc = PdfDocument::with_version("1.4");
    doc.objects.insert(id(1), Object::Integer(1));
    assert_eq!(doc.get_object(id(1)), Ok(&Object::Integer(1)));
    assert_eq!(doc.get_object(id(2)), Err(Error::MissingObject));
}

#[test]
fn root_id_reads_the_trailer() {
    let mut doc = PdfDocument::with_version("1.4");
    assert_eq!(doc.root_id(), Err(Error::MissingKey));
    doc.trailer.set(b"Root", Object::Integer(1));
    assert_eq!(doc.root_id(), Err(Error::TypeMismatch));
    doc.trailer.set(b"Root", Object::Reference(id(7)));
    assert_eq!(doc.root_id(), Ok(id(7)));
}
