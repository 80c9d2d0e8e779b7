use pdf_tools::closure::closure;
use pdf_tools::merge::merge;
use pdf_tools::outline_tree::outline_ids;
use pdf_tools::rotate::{add_rotation, normalize_rotation, rotate};
use pdf_tools::split::{extract_page, split, without_parents};
use pdf_tools::{Dictionary, PdfDocument, Error, Object, ObjectId, Stream, StringFormat};

fn id(number: u32) -> ObjectId {
    ObjectId::new(number, 0)
}

fn reference(number: u32) -> Object {
    Object::Reference(id(number))
}

fn name(text: &[u8]) -> Object {
    Object::Name(text.to_vec())
}

fn dict(entries: Vec<(&[u8], Object)>) -> Dictionary {
    let mut d = Dictionary::new();
    for (name, value) in entries {
        d.set(name, value);
    }
    d
}

fn references(numbers: &[u32]) -> Object {
    Object::Array(numbers.iter().map(|n| reference(*n)).collect())
}

/// A document of `pages` pages: the catalog is object 1, the page tree root
/// object 2, a font shared by all pages object 3; page `k` is object `2 + 2k`
/// and its content stream object `3 + 2k`. Every page carries `label`.
fn sample(pages: u32, label: &[u8]) -> PdfDocument {
    let mut doc = PdfDocument::with_version("1.4");
    doc.trailer.set(b"Root", reference(1));
    doc.objects.insert(
        id(1),
        Object::Dictionary(dict(vec![
            (b"Type", name(b"Catalog")),
            (b"Pages", reference(2)),
            (b"Lang", Object::String(label.to_vec(), StringFormat::Literal)),
        ])),
    );
    let kids: Vec<u32> = (1..=pages).map(|k| 2 + 2 * k).collect();
    doc.objects.insert(
        id(2),
        Object::Dictionary(dict(vec![
            (b"Type", name(b"Pages")),
            (b"Kids", references(&kids)),
            (b"Count", Object::Integer(pages as i64)),
        ])),
    );
    doc.objects.insert(
        id(3),
        Object::Dictionary(dict(vec![(b"Type", name(b"Font")), (b"BaseFont", name(b"Times"))])),
    );
    for k in 1..=pages {
        doc.objects.insert(
            id(2 + 2 * k),
            Object::Dictionary(dict(vec![
                (b"Type", name(b"Page")),
                (b"Parent", reference(2)),
                (b"Contents", reference(3 + 2 * k)),
                (b"Font", reference(3)),
                (b"Label", Object::String(label.to_vec(), StringFormat::Literal)),
            ])),
        );
        doc.objects.insert(
            id(3 + 2 * k),
            Object::Stream(Stream::new(Dictionary::new(), vec![k as u8; 4])),
        );
    }
    doc.max_id = 3 + 2 * pages;
    doc
}

fn count_of(doc: &PdfDocument) -> i64 {
    let root = doc.page_root_id().unwrap();
    doc.get_object(root).unwrap().as_dict().unwrap().get(b"Count").unwrap().as_i64().unwrap()
}

fn dangling(doc: &PdfDocument) -> Vec<ObjectId> {
    let mut refs = Vec::new();
    pdf_tools::walker::collect_dictionary_refs(&doc.trailer, &mut refs);
    for i in 0..doc.objects.len() {
        pdf_tools::walker::collect_refs(doc.objects.object_at(i), &mut refs);
    }
    refs.into_iter().filter(|r| !doc.objects.contains(*r)).collect()
}

fn rotation_of(doc: &PdfDocument, page: u32) -> Option<i64> {
    let pages = doc.page_ids();
    let object = doc.get_object(pages[page as usize - 1]).unwrap();
    object.as_dict().unwrap().get(b"Rotate").ok().map(|r| r.as_i64().unwrap())
}

#[test]
fn pages_are_listed_in_page_order() {
    let doc = sample(3, b"a");
    assert_eq!(doc.page_root_id(), Some(id(2)));
    assert_eq!(doc.page_ids(), vec![id(4), id(6), id(8)]);
}

#[test]
fn pages_of_a_nested_tree_come_left_to_right() {
    let mut doc = sample(3, b"a");
    // The root lists page 3 first, then a node that lists pages 1 and 2.
    doc.objects.insert(
        id(2),
        Object::Dictionary(dict(vec![
            (b"Type", name(b"Pages")),
            (b"Kids", Object::Array(vec![reference(8), Object::Integer(5), reference(20), reference(3)])),
            (b"Count", Object::Integer(3)),
        ])),
    );
    doc.objects.insert(
        id(20),
        Object::Dictionary(dict(vec![
            (b"Type", name(b"Pages")),
            (b"Parent", reference(2)),
            (b"Kids", references(&[4, 6, 99])),
            (b"Count", Object::Integer(2)),
        ])),
    );
    assert_eq!(doc.page_ids(), vec![id(8), id(4), id(6)]);
}

#[test]
fn pages_of_a_tree_that_loops_are_cut_off() {
    let mut doc = sample(1, b"a");
    doc.objects.insert(
        id(2),
        Object::Dictionary(dict(vec![
            (b"Type", name(b"Pages")),
            (b"Kids", references(&[4, 2])),
        ])),
    );
    // Five objects give five steps: the root is taken up three times and the
    // page twice before the budget ends the walk.
    assert_eq!(doc.page_ids(), vec![id(4), id(4)]);
}

#[test]
fn pages_without_a_catalog_are_none() {
    let mut doc = sample(2, b"a");
    doc.trailer.remove(b"Root");
    assert_eq!(doc.page_root_id(), None);
    assert_eq!(doc.page_ids(), Vec::<ObjectId>::new());
}

#[test]
fn normalize_rotation_brings_degrees_into_one_turn() {
    assert_eq!(normalize_rotation(0), Ok(0));
    assert_eq!(normalize_rotation(90), Ok(90));
    assert_eq!(normalize_rotation(-90), Ok(270));
    assert_eq!(normalize_rotation(450), Ok(90));
    assert_eq!(normalize_rotation(-720), Ok(0));
    assert_eq!(normalize_rotation(i32::MIN), Err(Error::InvalidArgument));
    assert_eq!(normalize_rotation(2147483520), Ok(0));
    assert_eq!(normalize_rotation(-2147483520), Ok(0));
    assert_eq!(normalize_rotation(45), Err(Error::InvalidArgument));
    assert_eq!(normalize_rotation(-1), Err(Error::InvalidArgument));
}

#[test]
fn add_rotation_wraps_at_a_full_turn() {
    assert_eq!(add_rotation(0, 270), 270);
    assert_eq!(add_rotation(270, 180), 90);
    assert_eq!(add_rotation(-90, 90), 0);
    assert_eq!(add_rotation(-450, 0), 270);
    assert_eq!(add_rotation(i64::MAX, 359), (i64::MAX % 360 + 359) % 360);
    assert_eq!(add_rotation(i64::MIN, 1), 353);
}

#[test]
fn rotate_by_minus_90_on_page_2_of_3_turns_that_page_alone() {
    let mut doc = sample(3, b"a");
    assert_eq!(rotate(&mut doc, -90, &Some(vec![2])), Ok(true));
    assert_eq!(rotation_of(&doc, 1), None);
    assert_eq!(rotation_of(&doc, 2), Some(270));
    assert_eq!(rotation_of(&doc, 3), None);
    let untouched = sample(3, b"a");
    for n in [1u32, 2, 3, 4, 5, 7, 8, 9] {
        assert_eq!(doc.objects.get(id(n)), untouched.objects.get(id(n)));
    }
    let page = doc.objects.get(id(6)).unwrap().as_dict().unwrap();
    assert_eq!(page.len(), 6);
    assert_eq!(page.get(b"Parent"), Ok(&reference(2)));
}

#[test]
fn rotate_all_pages_adds_to_the_rotation_they_have() {
    let mut doc = sample(2, b"a");
    assert_eq!(rotate(&mut doc, 90, &Some(vec![1])), Ok(true));
    assert_eq!(rotate(&mut doc, 180, &None), Ok(true));
    assert_eq!(rotation_of(&doc, 1), Some(270));
    assert_eq!(rotation_of(&doc, 2), Some(180));
    assert_eq!(rotate(&mut doc, 450, &None), Ok(true));
    assert_eq!(rotation_of(&doc, 1), Some(0));
    assert_eq!(rotation_of(&doc, 2), Some(270));
}

#[test]
fn four_quarter_turns_bring_a_page_back() {
    let mut doc = sample(1, b"a");
    let mut page = doc.objects.get(id(4)).unwrap().as_dict().unwrap().duplicate();
    page.set(b"Rotate", Object::Integer(-180));
    doc.objects.insert(id(4), Object::Dictionary(page));
    for _ in 0..4 {
        assert_eq!(rotate(&mut doc, 90, &None), Ok(true));
    }
    assert_eq!(rotation_of(&doc, 1), Some(180));
}

#[test]
fn each_quarter_turn_adds_90_to_the_rotation_of_a_page() {
    let mut doc = sample(2, b"a");
    let mut page = doc.objects.get(id(4)).unwrap().as_dict().unwrap().duplicate();
    page.set(b"Rotate", Object::Integer(-450));
    doc.objects.insert(id(4), Object::Dictionary(page));
    let scope = Some(vec![1]);
    let mut seen = Vec::new();
    for _ in 0..4 {
        assert_eq!(rotate(&mut doc, 90, &scope), Ok(true));
        seen.push(rotation_of(&doc, 1));
        assert_eq!(rotation_of(&doc, 2), None);
    }
    // -450 is 270 in one turn: 0, 90, 180 and 270 follow.
    assert_eq!(seen, vec![Some(0), Some(90), Some(180), Some(270)]);
}

#[test]
fn two_turns_give_what_one_turn_by_their_sum_gives() {
    for (a, b) in [(90, 180), (-90, 270), (450, -180), (270, 270), (180, 720)] {
        let mut twice = sample(3, b"a");
        let mut once = sample(3, b"a");
        let scope = Some(vec![1, 3]);
        assert_eq!(rotate(&mut twice, a, &scope), Ok(true));
        rotate(&mut twice, b, &scope).unwrap();
        assert_eq!(rotate(&mut once, a + b, &scope), Ok(true));
        for i in 0..once.objects.len() {
            assert_eq!(twice.objects.object_at(i), once.objects.object_at(i), "{} then {}", a, b);
        }
        assert_eq!(rotation_of(&once, 1), Some((((a + b) % 360 + 360) % 360) as i64));
        assert_eq!(rotation_of(&once, 2), None);
    }
    // The sum is a full turn: the rotations agree modulo 360.
    let mut twice = sample(1, b"a");
    rotate(&mut twice, 90, &None).unwrap();
    rotate(&mut twice, 270, &None).unwrap();
    let mut once = sample(1, b"a");
    assert_eq!(rotate(&mut once, 360, &None), Ok(false));
    assert_eq!(rotation_of(&twice, 1), Some(0));
    assert_eq!(rotation_of(&once, 1), None);
}

#[test]
fn a_page_that_the_page_tree_lists_twice_is_turned_twice() {
    let mut doc = sample(1, b"a");
    let mut root = doc.objects.get(id(2)).unwrap().as_dict().unwrap().duplicate();
    root.set(b"Kids", references(&[4, 4]));
    root.set(b"Count", Object::Integer(2));
    doc.objects.insert(id(2), Object::Dictionary(root));
    assert_eq!(rotate(&mut doc, 90, &None), Ok(true));
    assert_eq!(rotation_of(&doc, 1), Some(180));
}

fn typed(doc: &PdfDocument, kind: &[u8]) -> Vec<ObjectId> {
    (0..doc.objects.len())
        .filter(|i| match doc.objects.object_at(*i) {
            Object::Dictionary(d) => d.has_type(kind),
            _ => false,
        })
        .map(|i| doc.objects.id_at(i))
        .collect()
}

#[test]
fn a_part_holds_one_page_and_one_page_tree_node() {
    for part in split(&sample(3, b"a")).unwrap() {
        assert_eq!(typed(&part, b"Page"), vec![id(3)]);
        assert_eq!(typed(&part, b"Pages"), vec![id(1)]);
        assert_eq!(count_of(&part), 1);
    }
}

#[test]
fn a_page_tree_node_that_a_page_leads_to_counts_its_pages_in_the_part() {
    // Page 1 leads, by an entry of its own, to a page tree node beside the
    // page tree of the document: object 20, with the page 21 below it.
    let mut doc = sample(2, b"a");
    let mut page = doc.objects.get(id(4)).unwrap().as_dict().unwrap().duplicate();
    page.set(b"Thumbs", reference(20));
    doc.objects.insert(id(4), Object::Dictionary(page));
    doc.objects.insert(
        id(20),
        Object::Dictionary(dict(vec![
            (b"Type", name(b"Pages")),
            (b"Kids", references(&[21])),
            (b"Count", Object::Integer(1)),
        ])),
    );
    doc.objects.insert(
        id(21),
        Object::Dictionary(dict(vec![(b"Type", name(b"Page")), (b"Parent", reference(20))])),
    );
    let parts = split(&doc).unwrap();
    // The first part: the root, the font, the page, its contents, the node
    // and the page below it, which lost its way up, and the catalog.
    let part = &parts[0];
    assert_eq!(part.objects.len(), 7);
    assert_eq!(typed(part, b"Pages"), vec![id(1), id(5)]);
    assert_eq!(typed(part, b"Page"), vec![id(3), id(6)]);
    assert_eq!(part.page_ids(), vec![id(3)]);
    assert_eq!(count_of(part), 1);
    let node = part.get_object(id(5)).unwrap().as_dict().unwrap();
    assert_eq!(node.get(b"Kids"), Ok(&references(&[6])));
    assert_eq!(node.get(b"Count"), Ok(&Object::Integer(1)));
    assert!(dangling(part).is_empty());
    // The second part leads to neither.
    assert_eq!(typed(&parts[1], b"Pages"), vec![id(1)]);
    assert_eq!(typed(&parts[1], b"Page"), vec![id(3)]);
}

#[test]
fn a_page_tree_node_that_lists_a_page_often_keeps_its_count_in_the_part() {
    // Page 1 leads to a page tree node that names one page five times: the
    // part has fewer objects than the node has kids.
    let mut doc = sample(1, b"a");
    let mut page = doc.objects.get(id(4)).unwrap().as_dict().unwrap().duplicate();
    page.set(b"Thumbs", reference(20));
    doc.objects.insert(id(4), Object::Dictionary(page));
    doc.objects.insert(
        id(20),
        Object::Dictionary(dict(vec![
            (b"Type", name(b"Pages")),
            (b"Kids", references(&[21, 21, 21, 21, 21])),
            (b"Count", Object::Integer(5)),
        ])),
    );
    doc.objects.insert(id(21), Object::Dictionary(dict(vec![(b"Type", name(b"Page"))])));
    let parts = split(&doc).unwrap();
    assert_eq!(parts.len(), 1);
    let node = parts[0].get_object(id(5)).unwrap().as_dict().unwrap();
    assert_eq!(node.get(b"Kids"), Ok(&references(&[6, 6, 6, 6, 6])));
    assert_eq!(node.get(b"Count"), Ok(&Object::Integer(5)));
    assert_eq!(count_of(&parts[0]), 1);
}

#[test]
fn a_merged_document_has_one_page_tree_node_that_counts_the_pages() {
    let merged = merge(vec![sample(2, b"a"), with_outline(), sample(1, b"c")]).unwrap();
    assert_eq!(typed(&merged, b"Pages"), vec![id(2)]);
    assert_eq!(typed(&merged, b"Page").len(), 4);
    assert_eq!(count_of(&merged), 4);
}

#[test]
fn rotate_by_a_full_turn_leaves_the_document_alone() {
    let mut doc = sample(2, b"a");
    assert_eq!(rotate(&mut doc, 360, &None), Ok(false));
    assert_eq!(rotate(&mut doc, 0, &Some(vec![1])), Ok(false));
    assert_eq!(rotation_of(&doc, 1), None);
    assert_eq!(rotation_of(&doc, 2), None);
}

#[test]
fn rotate_by_no_multiple_of_90_is_an_invalid_argument() {
    let mut doc = sample(2, b"a");
    assert_eq!(rotate(&mut doc, 30, &None), Err(Error::InvalidArgument));
    assert_eq!(rotation_of(&doc, 1), None);
}

#[test]
fn rotate_passes_over_page_numbers_that_do_not_exist() {
    let mut doc = sample(2, b"a");
    assert_eq!(rotate(&mut doc, 90, &Some(vec![0, 3, 7])), Ok(true));
    assert_eq!(rotation_of(&doc, 1), None);
    assert_eq!(rotation_of(&doc, 2), None);
    assert!(dangling(&doc).is_empty());
}

#[test]
fn split_of_two_pages_gives_two_documents() {
    let doc = sample(2, b"a");
    let parts = split(&doc).unwrap();
    assert_eq!(parts.len(), 2);
    for (k, part) in parts.iter().enumerate() {
        // What a page leads to: the font, itself and its contents, which get
        // the numbers 2, 3 and 4 between the new root and the new catalog.
        assert_eq!(part.version, "1.4");
        assert_eq!(part.objects.len(), 5);
        assert_eq!(part.max_id, 5);
        assert_eq!(part.root_id(), Ok(id(5)));
        assert_eq!(part.page_root_id(), Some(id(1)));
        assert_eq!(count_of(part), 1);
        assert_eq!(part.page_ids(), vec![id(3)]);
        let page = part.get_object(id(3)).unwrap().as_dict().unwrap();
        assert_eq!(page.get(b"Parent"), Ok(&reference(1)));
        assert_eq!(page.get(b"Contents"), Ok(&reference(4)));
        assert_eq!(page.get(b"Font"), Ok(&reference(2)));
        let root = part.get_object(id(1)).unwrap().as_dict().unwrap();
        assert_eq!(root.get(b"Kids"), Ok(&references(&[3])));
        assert_eq!(part.get_object(id(2)), doc.get_object(id(3)));
        assert_eq!(part.get_object(id(4)), doc.get_object(id(5 + 2 * k as u32)));
        assert!(dangling(part).is_empty());
    }
}

#[test]
fn split_part_holds_the_closure_of_its_page_and_two_new_nodes() {
    let doc = sample(2, b"a");
    // Up the page tree a page leads to everything; without the ways up, to
    // its contents and the font.
    assert_eq!(
        closure(&doc.objects, &vec![id(6)]),
        vec![id(2), id(3), id(4), id(5), id(6), id(7)]
    );
    let down = without_parents(&doc);
    assert_eq!(closure(&down.objects, &vec![id(6)]), vec![id(3), id(6), id(7)]);
    assert_eq!(down.page_ids(), doc.page_ids());
    assert_eq!(down.get_object(id(2)), doc.get_object(id(2)));
    assert!(!down.get_object(id(6)).unwrap().as_dict().unwrap().has(b"Parent"));
    let parts = split(&doc).unwrap();
    let part = &parts[1];
    assert_eq!(part.objects.len(), 5);
    assert_eq!(
        part.get_object(id(1)),
        Ok(&Object::Dictionary(dict(vec![
            (b"Type", name(b"Pages")),
            (b"Kids", references(&[3])),
            (b"Count", Object::Integer(1)),
        ])))
    );
    assert_eq!(part.get_object(id(2)), doc.get_object(id(3)));
    assert_eq!(
        part.get_object(id(3)),
        Ok(&Object::Dictionary(dict(vec![
            (b"Type", name(b"Page")),
            (b"Contents", reference(4)),
            (b"Font", reference(2)),
            (b"Label", Object::String(b"a".to_vec(), StringFormat::Literal)),
            (b"Parent", reference(1)),
        ])))
    );
    assert_eq!(part.get_object(id(4)), doc.get_object(id(7)));
    assert_eq!(
        part.get_object(id(5)),
        Ok(&Object::Dictionary(dict(vec![(b"Type", name(b"Catalog")), (b"Pages", reference(1))])))
    );
    assert_eq!(part.trailer.get(b"Root"), Ok(&reference(5)));
    // Nothing of page 1 is in the part for page 2.
    assert_eq!(parts[0].get_object(id(4)), doc.get_object(id(5)));
    assert_ne!(parts[0].get_object(id(4)), part.get_object(id(4)));
}

#[test]
fn extract_page_follows_every_reference() {
    // Taken as it is, a page leads up the page tree to the pages beside it.
    let doc = sample(2, b"a");
    let part = extract_page(&doc, id(6)).unwrap();
    assert_eq!(part.objects.len(), 8);
    assert_eq!(part.page_ids(), vec![id(6)]);
    assert_eq!(count_of(&part), 1);
    assert!(dangling(&part).is_empty());
}

#[test]
fn split_leaves_a_reference_to_an_absent_object_dangling() {
    let mut doc = sample(1, b"a");
    let mut page = doc.objects.get(id(4)).unwrap().as_dict().unwrap().duplicate();
    page.set(b"Annots", references(&[77]));
    doc.objects.insert(id(4), Object::Dictionary(page));
    let parts = split(&doc).unwrap();
    let part = &parts[0];
    // 3, 4, 5 and the absent 77 get the numbers 2, 3, 4 and 5; the catalog gets 6.
    assert_eq!(part.objects.len(), 5);
    assert_eq!(part.root_id(), Ok(id(6)));
    assert!(!part.objects.contains(id(5)));
    assert_eq!(dangling(part), vec![id(5)]);
}

#[test]
fn split_keeps_links_between_pages_without_the_page_tree() {
    // Page 1 links to page 2: the part for page 1 holds page 2 and what it
    // needs, but not the old page tree root, and lists page 1 alone.
    let mut doc = sample(2, b"a");
    let mut page = doc.objects.get(id(4)).unwrap().as_dict().unwrap().duplicate();
    page.set(b"Link", reference(6));
    doc.objects.insert(id(4), Object::Dictionary(page));
    let parts = split(&doc).unwrap();
    assert_eq!(parts[0].objects.len(), 7);
    assert_eq!(parts[0].page_ids(), vec![id(3)]);
    assert!(parts[0].get_object(id(5)).unwrap().has_type(b"Page"));
    assert!(!parts[0].get_object(id(5)).unwrap().as_dict().unwrap().has(b"Parent"));
    assert!(dangling(&parts[0]).is_empty());
    assert_eq!(parts[1].objects.len(), 5);
}

#[test]
fn split_of_a_document_without_pages_gives_nothing() {
    let doc = PdfDocument::with_version("1.4");
    assert_eq!(split(&doc).unwrap().len(), 0);
}

#[test]
fn merge_of_two_one_page_documents() {
    let merged = merge(vec![sample(1, b"a"), sample(1, b"b")]).unwrap();
    assert_eq!(merged.version, "1.5");
    // The first document takes the numbers 1 to 5, the second 6 to 10.
    assert_eq!(merged.root_id(), Ok(id(1)));
    assert_eq!(merged.page_root_id(), Some(id(2)));
    assert_eq!(count_of(&merged), 2);
    assert_eq!(merged.page_ids(), vec![id(4), id(9)]);
    let root = merged.get_object(id(2)).unwrap().as_dict().unwrap();
    assert_eq!(root.get(b"Kids"), Ok(&references(&[4, 9])));
    assert!(root.has_type(b"Pages"));
    // The second catalog and the second page tree root are left out.
    assert!(!merged.objects.contains(id(6)));
    assert!(!merged.objects.contains(id(7)));
    // The first catalog stays, names the root and the outline.
    let catalog = merged.get_object(id(1)).unwrap().as_dict().unwrap();
    assert_eq!(catalog.get(b"Lang"), Ok(&Object::String(b"a".to_vec(), StringFormat::Literal)));
    assert_eq!(catalog.get(b"Pages"), Ok(&reference(2)));
    assert_eq!(catalog.get(b"Outlines"), Ok(&reference(11)));
    // Both pages hang under the merged root.
    for page in [4u32, 9] {
        let d = merged.get_object(id(page)).unwrap().as_dict().unwrap();
        assert_eq!(d.get(b"Parent"), Ok(&reference(2)));
        assert_eq!(d.get(b"Contents"), Ok(&reference(page + 1)));
    }
    assert_eq!(
        merged.get_object(id(9)).unwrap().as_dict().unwrap().get(b"Font"),
        Ok(&reference(8))
    );
    // The outline: a root with two items, each with its action.
    assert_eq!(
        merged.get_object(id(11)),
        Ok(&Object::Dictionary(dict(vec![
            (b"First", reference(12)),
            (b"Last", reference(14)),
            (b"Count", Object::Integer(2)),
        ])))
    );
    let blue = Object::Array(vec![Object::Real(0), Object::Real(0), Object::Real(0x3F80_0000)]);
    assert_eq!(
        merged.get_object(id(12)),
        Ok(&Object::Dictionary(dict(vec![
            (b"Parent", reference(11)),
            (b"Title", Object::String(b"Page_1".to_vec(), StringFormat::Literal)),
            (b"A", reference(13)),
            (b"F", Object::Integer(0)),
            (b"C", blue.duplicate()),
            (b"Next", reference(14)),
        ])))
    );
    assert_eq!(
        merged.get_object(id(14)),
        Ok(&Object::Dictionary(dict(vec![
            (b"Parent", reference(11)),
            (b"Title", Object::String(b"Page_2".to_vec(), StringFormat::Literal)),
            (b"A", reference(15)),
            (b"F", Object::Integer(0)),
            (b"C", blue),
            (b"Prev", reference(12)),
        ])))
    );
    assert_eq!(
        merged.get_object(id(13)),
        Ok(&Object::Dictionary(dict(vec![
            (b"D", Object::Array(vec![reference(4), name(b"Fit")])),
            (b"S", name(b"GoTo")),
        ])))
    );
    assert_eq!(
        merged.get_object(id(15)),
        Ok(&Object::Dictionary(dict(vec![
            (b"D", Object::Array(vec![reference(9), name(b"Fit")])),
            (b"S", name(b"GoTo")),
        ])))
    );
    assert_eq!(merged.max_id, 15);
    assert_eq!(merged.objects.len(), 13);
    assert!(dangling(&merged).is_empty());
}

#[test]
fn merge_counts_the_pages_of_all_documents() {
    let merged = merge(vec![sample(3, b"a"), sample(1, b"b"), sample(2, b"c")]).unwrap();
    assert_eq!(count_of(&merged), 6);
    assert_eq!(merged.page_ids().len(), 6);
    // 9 + 5 + 7 objects; the bookmarks are titled by the first page of each document.
    let titles: Vec<Vec<u8>> = [23u32, 25, 27]
        .iter()
        .map(|n| {
            merged.get_object(id(*n)).unwrap().as_dict().unwrap().get(b"Title").unwrap().as_str().unwrap().clone()
        })
        .collect();
    assert_eq!(titles, vec![b"Page_1".to_vec(), b"Page_4".to_vec(), b"Page_5".to_vec()]);
    assert!(dangling(&merged).is_empty());
}

#[test]
fn merge_lays_later_page_tree_nodes_over_earlier_ones() {
    let mut first = sample(1, b"a");
    let mut root = first.objects.get(id(2)).unwrap().as_dict().unwrap().duplicate();
    root.set(b"MediaBox", Object::Integer(1));
    root.set(b"Only", Object::Integer(7));
    first.objects.insert(id(2), Object::Dictionary(root));
    let mut second = sample(1, b"b");
    let mut root = second.objects.get(id(2)).unwrap().as_dict().unwrap().duplicate();
    root.set(b"MediaBox", Object::Integer(2));
    second.objects.insert(id(2), Object::Dictionary(root));
    let merged = merge(vec![first, second]).unwrap();
    let root = merged.get_object(id(2)).unwrap().as_dict().unwrap();
    assert_eq!(root.get(b"MediaBox"), Ok(&Object::Integer(2)));
    assert_eq!(root.get(b"Only"), Ok(&Object::Integer(7)));
    assert_eq!(root.get(b"Count"), Ok(&Object::Integer(2)));
}

#[test]
fn merge_leaves_out_old_outlines_and_pages_that_no_tree_lists() {
    let mut doc = sample(1, b"a");
    let mut catalog = doc.objects.get(id(1)).unwrap().as_dict().unwrap().duplicate();
    catalog.set(b"Outlines", reference(30));
    doc.objects.insert(id(1), Object::Dictionary(catalog));
    doc.objects.insert(id(30), Object::Dictionary(dict(vec![(b"Type", name(b"Outlines"))])));
    doc.objects.insert(id(31), Object::Dictionary(dict(vec![(b"Type", name(b"Outline"))])));
    doc.objects.insert(id(32), Object::Dictionary(dict(vec![(b"Type", name(b"Page"))])));
    let merged = merge(vec![doc]).unwrap();
    // Objects 30, 31, 32 became 6, 7, 8 and are gone; the outline starts at 9.
    assert_eq!(merged.objects.len(), 8);
    for n in [6u32, 7, 8] {
        assert!(!merged.objects.contains(id(n)));
    }
    let catalog = merged.get_object(id(1)).unwrap().as_dict().unwrap();
    assert_eq!(catalog.get(b"Outlines"), Ok(&reference(9)));
    assert_eq!(count_of(&merged), 1);
}

/// `sample(1, ..)` with an outline of two items that declare no type: the
/// root is object 30, the items are objects 31 and 32, and the second item has
/// a child, object 33. Each item names its parent and the page it leads to.
fn with_outline() -> PdfDocument {
    let mut doc = sample(1, b"a");
    let mut catalog = doc.objects.get(id(1)).unwrap().as_dict().unwrap().duplicate();
    catalog.set(b"Outlines", reference(30));
    doc.objects.insert(id(1), Object::Dictionary(catalog));
    doc.objects.insert(
        id(30),
        Object::Dictionary(dict(vec![
            (b"Type", name(b"Outlines")),
            (b"First", reference(31)),
            (b"Last", reference(32)),
            (b"Count", Object::Integer(2)),
        ])),
    );
    doc.objects.insert(
        id(31),
        Object::Dictionary(dict(vec![
            (b"Title", Object::String(b"one".to_vec(), StringFormat::Literal)),
            (b"Parent", reference(30)),
            (b"Next", reference(32)),
            (b"Dest", Object::Array(vec![reference(4), name(b"Fit")])),
        ])),
    );
    doc.objects.insert(
        id(32),
        Object::Dictionary(dict(vec![
            (b"Title", Object::String(b"two".to_vec(), StringFormat::Literal)),
            (b"Parent", reference(30)),
            (b"Prev", reference(31)),
            (b"First", reference(33)),
            (b"Last", reference(33)),
        ])),
    );
    doc.objects.insert(
        id(33),
        Object::Dictionary(dict(vec![
            (b"Title", Object::String(b"three".to_vec(), StringFormat::Literal)),
            (b"Parent", reference(32)),
        ])),
    );
    doc.max_id = 33;
    doc
}

#[test]
fn outline_ids_follow_the_links_of_the_outline_from_the_catalog() {
    let doc = with_outline();
    let mut found: Vec<u32> = outline_ids(&doc).iter().map(|i| i.number).collect();
    found.sort();
    assert_eq!(found, vec![30, 31, 32, 33]);
    assert!(outline_ids(&sample(2, b"a")).is_empty());
}

#[test]
fn merge_leaves_out_outline_items_that_declare_no_type() {
    let doc = with_outline();
    assert!(dangling(&doc).is_empty());
    let merged = merge(vec![doc, sample(1, b"b")]).unwrap();
    // Objects 30 to 33 became 6 to 9 and are gone with the whole outline; the
    // second document takes 10 to 14, the new outline starts at 15.
    for n in [6u32, 7, 8, 9] {
        assert!(!merged.objects.contains(id(n)));
    }
    assert_eq!(merged.objects.len(), 5 + 3 + 1 + 4);
    assert_eq!(dangling(&merged), Vec::<ObjectId>::new());
    let catalog = merged.get_object(id(1)).unwrap().as_dict().unwrap();
    assert_eq!(catalog.get(b"Outlines"), Ok(&reference(15)));
    assert_eq!(count_of(&merged), 2);
}

#[test]
fn merge_of_documents_without_dangling_references_has_none() {
    let merged = merge(vec![sample(2, b"a"), with_outline(), sample(3, b"c")]).unwrap();
    assert_eq!(dangling(&merged), Vec::<ObjectId>::new());
    assert_eq!(count_of(&merged), 6);
}

#[test]
fn merge_lists_the_pages_of_each_document_in_its_page_order() {
    // The second page of the first document has the smaller identifier.
    let mut first = sample(2, b"a");
    let mut root = first.objects.get(id(2)).unwrap().as_dict().unwrap().duplicate();
    root.set(b"Kids", references(&[6, 4]));
    first.objects.insert(id(2), Object::Dictionary(root));
    assert_eq!(first.page_ids(), vec![id(6), id(4)]);
    let merged = merge(vec![first, sample(2, b"b")]).unwrap();
    // The second document takes the numbers 8 to 14, its pages 11 and 13.
    assert_eq!(merged.page_ids(), vec![id(6), id(4), id(11), id(13)]);
    let root = merged.get_object(id(2)).unwrap().as_dict().unwrap();
    assert_eq!(root.get(b"Kids"), Ok(&references(&[6, 4, 11, 13])));
    assert_eq!(count_of(&merged), 4);
    // The bookmark of each document leads to its first page.
    let action = |n: u32| {
        merged.get_object(id(n)).unwrap().as_dict().unwrap().get(b"D").unwrap().duplicate()
    };
    assert_eq!(action(17), Object::Array(vec![reference(6), name(b"Fit")]));
    assert_eq!(action(19), Object::Array(vec![reference(11), name(b"Fit")]));
    assert!(dangling(&merged).is_empty());
}

#[test]
fn merge_lists_a_page_once_that_a_page_tree_lists_twice() {
    let mut doc = sample(2, b"a");
    let mut root = doc.objects.get(id(2)).unwrap().as_dict().unwrap().duplicate();
    root.set(b"Kids", references(&[6, 4, 6]));
    doc.objects.insert(id(2), Object::Dictionary(root));
    let merged = merge(vec![doc]).unwrap();
    assert_eq!(merged.page_ids(), vec![id(6), id(4)]);
    assert_eq!(count_of(&merged), 2);
}

#[test]
fn holds_node_finds_a_dictionary_of_the_type() {
    let doc = sample(1, b"a");
    assert!(doc.holds_node(b"Pages"));
    assert!(doc.holds_node(b"Catalog"));
    assert!(doc.holds_node(b"Font"));
    assert!(!doc.holds_node(b"Outlines"));
    assert!(!PdfDocument::with_version("1.4").holds_node(b"Pages"));
}

#[test]
fn merge_of_nothing_is_an_invalid_argument() {
    assert_eq!(merge(vec![]).err(), Some(Error::InvalidArgument));
}

#[test]
fn merge_without_catalog_page_tree_or_page_is_a_structural_error() {
    let mut no_catalog = sample(1, b"a");
    no_catalog.objects.insert(id(1), Object::Null);
    assert_eq!(merge(vec![no_catalog]).err(), Some(Error::StructuralError));
    let mut no_tree = sample(1, b"a");
    no_tree.objects.insert(id(2), Object::Null);
    assert_eq!(merge(vec![no_tree]).err(), Some(Error::StructuralError));
    assert_eq!(merge(vec![sample(0, b"a")]).err(), Some(Error::StructuralError));
    assert_eq!(merge(vec![PdfDocument::with_version("1.4")]).err(), Some(Error::StructuralError));
}
