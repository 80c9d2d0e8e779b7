use pdf_tools::extract::{put_in_order, text_or_error};
use pdf_tools::{
    compress, extract_text, merge, rotate, split, Dictionary, PdfDocument, Error, Object, ObjectId,
    Stream, StringFormat,
};

fn object_in(o: &lopdf::Object) -> Object {
    match o {
        lopdf::Object::Null => Object::Null,
        lopdf::Object::Boolean(b) => Object::Boolean(*b),
        lopdf::Object::Integer(i) => Object::Integer(*i),
        lopdf::Object::Real(r) => Object::Real(r.to_bits()),
        lopdf::Object::Name(n) => Object::Name(n.clone()),
        lopdf::Object::String(s, lopdf::StringFormat::Literal) => {
            Object::String(s.clone(), StringFormat::Literal)
        }
        lopdf::Object::String(s, lopdf::StringFormat::Hexadecimal) => {
            Object::String(s.clone(), StringFormat::Hexadecimal)
        }
        lopdf::Object::Array(items) => Object::Array(items.iter().map(object_in).collect()),
        lopdf::Object::Dictionary(d) => Object::Dictionary(dictionary_in(d)),
        lopdf::Object::Stream(s) => {
            let mut stream = Stream::new(dictionary_in(&s.dict), s.content.clone());
            stream.allows_compression = s.allows_compression;
            Object::Stream(stream)
        }
        lopdf::Object::Reference(id) => Object::Reference(ObjectId::new(id.0, id.1)),
    }
}

fn dictionary_in(d: &lopdf::Dictionary) -> Dictionary {
    let mut out = Dictionary::new();
    for (name, value) in d.iter() {
        out.set(name, object_in(value));
    }
    out
}

fn document_in(source: &lopdf::Document) -> PdfDocument {
    let mut doc = PdfDocument::with_version(&source.version);
    doc.trailer = dictionary_in(&source.trailer);
    for (id, object) in source.objects.iter() {
        doc.objects.insert(ObjectId::new(id.0, id.1), object_in(object));
    }
    doc.max_id = source.max_id;
    doc
}

fn object_out(o: &Object) -> lopdf::Object {
    match o {
        Object::Null => lopdf::Object::Null,
        Object::Boolean(b) => lopdf::Object::Boolean(*b),
        Object::Integer(i) => lopdf::Object::Integer(*i),
        Object::Real(bits) => lopdf::Object::Real(f32::from_bits(*bits)),
        Object::Name(n) => lopdf::Object::Name(n.clone()),
        Object::String(s, StringFormat::Literal) => {
            lopdf::Object::String(s.clone(), lopdf::StringFormat::Literal)
        }
        Object::String(s, StringFormat::Hexadecimal) => {
            lopdf::Object::String(s.clone(), lopdf::StringFormat::Hexadecimal)
        }
        Object::Array(items) => lopdf::Object::Array(items.iter().map(object_out).collect()),
        Object::Dictionary(d) => lopdf::Object::Dictionary(dictionary_out(d)),
        Object::Stream(s) => lopdf::Object::Stream(lopdf::Stream {
            dict: dictionary_out(&s.dict),
            content: s.content.clone(),
            allows_compression: s.allows_compression,
            start_position: None,
        }),
        Object::Reference(id) => lopdf::Object::Reference((id.number, id.generation)),
    }
}

fn dictionary_out(d: &Dictionary) -> lopdf::Dictionary {
    let mut out = lopdf::Dictionary::new();
    for i in 0..d.len() {
        out.set(d.name_at(i).clone(), object_out(d.value_at(i)));
    }
    out
}

fn document_out(doc: &PdfDocument) -> lopdf::Document {
    let mut out = lopdf::Document::with_version(doc.version.clone());
    out.trailer = dictionary_out(&doc.trailer);
    for i in 0..doc.objects.len() {
        let id = doc.objects.id_at(i);
        out.objects.insert((id.number, id.generation), object_out(doc.objects.object_at(i)));
    }
    out.max_id = doc.max_id;
    out
}

fn pair(name: &str, value: lopdf::Object) -> (String, lopdf::Object) {
    (name.to_string(), value)
}

fn table(entries: Vec<(String, lopdf::Object)>) -> lopdf::Dictionary {
    let mut d = lopdf::Dictionary::new();
    for (name, value) in entries {
        d.set(name, value);
    }
    d
}

/// The bytes of a file of `pages` pages; page `k` shows `word` and `k`.
fn file(pages: u32, word: &str) -> Vec<u8> {
    let mut doc = lopdf::Document::with_version("1.5");
    let pages_id = doc.new_object_id();
    let font = doc.add_object(table(vec![
        pair("Type", "Font".into()),
        pair("Subtype", "Type1".into()),
        pair("BaseFont", "Courier".into()),
    ]));
    let resources = doc.add_object(table(vec![pair(
        "Font",
        table(vec![pair("F1", font.into())]).into(),
    )]));
    let mut kids: Vec<lopdf::Object> = Vec::new();
    for k in 1..=pages {
        let content = lopdf::content::Content {
            operations: vec![
                lopdf::content::Operation::new("BT", vec![]),
                lopdf::content::Operation::new("Tf", vec!["F1".into(), 24.into()]),
                lopdf::content::Operation::new("Td", vec![100.into(), 600.into()]),
                lopdf::content::Operation::new(
                    "Tj",
                    vec![lopdf::Object::string_literal(format!("{} {}", word, k))],
                ),
                lopdf::content::Operation::new("ET", vec![]),
            ],
        };
        let content_id = doc.add_object(lopdf::Stream::new(
            lopdf::Dictionary::new(),
            content.encode().unwrap(),
        ));
        let page = doc.add_object(table(vec![
            pair("Type", "Page".into()),
            pair("Parent", pages_id.into()),
            pair("Contents", content_id.into()),
            pair("Resources", resources.into()),
            pair("MediaBox", vec![0.into(), 0.into(), 595.into(), 842.into()].into()),
        ]));
        kids.push(page.into());
    }
    doc.objects.insert(
        pages_id,
        lopdf::Object::Dictionary(table(vec![
            pair("Type", "Pages".into()),
            pair("Kids", kids.into()),
            pair("Count", (pages as i64).into()),
        ])),
    );
    let catalog = doc.add_object(table(vec![
        pair("Type", "Catalog".into()),
        pair("Pages", pages_id.into()),
    ]));
    doc.trailer.set("Root", catalog);
    let mut bytes = Vec::new();
    doc.save_to(&mut bytes).unwrap();
    bytes
}

fn read(bytes: &[u8]) -> PdfDocument {
    document_in(&lopdf::Document::load_mem(bytes).unwrap())
}

fn written(doc: &PdfDocument) -> Vec<u8> {
    let mut out = document_out(doc);
    let mut bytes = Vec::new();
    out.save_to(&mut bytes).unwrap();
    bytes
}

#[test]
fn extract_text_gives_the_text_of_all_pages() {
    let text = extract_text(&file(2, "Hello")).unwrap();
    assert!(text.contains("Hello 1"), "{:?}", text);
    assert!(text.contains("Hello 2"), "{:?}", text);
    assert!(text.find("Hello 1").unwrap() < text.find("Hello 2").unwrap());
}

#[test]
fn put_in_order_sorts_the_page_numbers_and_keeps_each() {
    assert_eq!(put_in_order(&vec![3, 1, 2, 1]), vec![1, 1, 2, 3]);
    assert_eq!(put_in_order(&vec![7]), vec![7]);
    assert_eq!(put_in_order(&vec![]), Vec::<u32>::new());
    assert_eq!(put_in_order(&vec![5, 4, 3, 2, 1]), vec![1, 2, 3, 4, 5]);
}

#[test]
fn extract_text_reads_the_pages_in_ascending_order() {
    let text = extract_text(&file(3, "Leaf")).unwrap();
    let places: Vec<usize> =
        (1..=3).map(|k| text.find(&format!("Leaf {}", k)).unwrap()).collect();
    assert!(places[0] < places[1] && places[1] < places[2], "{:?}", text);
}

#[test]
fn text_or_error_reports_the_text_or_the_kind_of_failure() {
    assert_eq!(text_or_error(Some(Some(String::from("a b")))), Ok(String::from("a b")));
    assert_eq!(text_or_error(Some(Some(String::new()))), Ok(String::new()));
    assert_eq!(text_or_error(Some(None)), Err(Error::DecodeError));
    assert_eq!(text_or_error(None), Err(Error::LoadError));
}

#[test]
fn extract_text_of_a_document_without_pages_is_empty() {
    assert_eq!(extract_text(&file(0, "None")), Ok(String::new()));
}

#[test]
fn extract_text_of_other_bytes_is_a_load_error() {
    assert_eq!(extract_text(b"this is no document"), Err(Error::LoadError));
    assert_eq!(extract_text(&[]), Err(Error::LoadError));
}

#[test]
fn pages_are_found_as_the_parser_finds_them() {
    let bytes = file(3, "Page");
    let parsed = lopdf::Document::load_mem(&bytes).unwrap();
    let theirs: Vec<(u32, u16)> = parsed.get_pages().values().copied().collect();
    let ours: Vec<(u32, u16)> =
        document_in(&parsed).page_ids().iter().map(|id| (id.number, id.generation)).collect();
    assert_eq!(ours, theirs);
    assert_eq!(ours.len(), 3);
}

#[test]
fn merged_files_can_be_written_and_read_again() {
    let merged = merge(vec![read(&file(2, "First")), read(&file(1, "Second"))]).unwrap();
    let bytes = written(&merged);
    let again = lopdf::Document::load_mem(&bytes).unwrap();
    assert_eq!(again.get_pages().len(), 3);
    let text = again.extract_text(&[1, 2, 3]).unwrap();
    assert!(text.contains("First 1") && text.contains("First 2") && text.contains("Second 1"));
    let catalog = again.catalog().unwrap();
    assert!(catalog.has(b"Outlines"));
    let outline = again.get_dictionary(catalog.get(b"Outlines").unwrap().as_reference().unwrap()).unwrap();
    assert_eq!(outline.get(b"Count").unwrap().as_i64().unwrap(), 2);
}

#[test]
fn split_files_can_be_written_and_read_again() {
    let parts = split(&read(&file(2, "Leaf"))).unwrap();
    assert_eq!(parts.len(), 2);
    for (k, part) in parts.iter().enumerate() {
        let again = lopdf::Document::load_mem(&written(part)).unwrap();
        assert_eq!(again.get_pages().len(), 1);
        let text = again.extract_text(&[1]).unwrap();
        assert!(text.contains(&format!("Leaf {}", k + 1)), "{:?}", text);
    }
}

#[test]
fn rotated_files_can_be_written_and_read_again() {
    let mut doc = read(&file(3, "Turn"));
    assert_eq!(rotate(&mut doc, -90, &Some(vec![2])), Ok(true));
    let again = lopdf::Document::load_mem(&written(&doc)).unwrap();
    let rotations: Vec<Option<i64>> = again
        .get_pages()
        .values()
        .map(|id| again.get_dictionary(*id).unwrap().get(b"Rotate").ok().map(|r| r.as_i64().unwrap()))
        .collect();
    assert_eq!(rotations, vec![None, Some(270), None]);
}

#[test]
fn a_file_without_images_passes_the_recompression_as_it_is() {
    let mut doc = read(&file(2, "Same"));
    let before = written(&doc);
    compress(&mut doc);
    assert_eq!(written(&doc), before);
}
