//! The text of a document, read by the `lopdf` crate.

use vstd::prelude::*;
use vstd::seq_lib::{to_multiset_build, to_multiset_insert};
use crate::error::Error;

verus! {

/// `lopdf::Document`, a document as the `lopdf` crate has read it. It is
/// carried from the call that reads it to the calls that ask it for its pages
/// and for their text; nothing is known of what it holds.
#[verifier::external_type_specification]
#[verifier::external_body]
pub struct ExParsed(lopdf::Document);

/// Each number is greater than the one before it.
pub open spec fn strictly_rising(s: Seq<u32>) -> bool {
    forall|i: int, j: int| 0 <= i < j < s.len() ==> s[i] < s[j]
}

/// Calls `lopdf::Document::load_mem`, and hands out the document where it
/// reads one. Nothing is claimed of which bytes it reads, nor of the document:
/// what it reads of the same bytes may differ from one call to the next.
#[verifier::external_body]
fn read_document(bytes: &[u8]) -> (r: Option<lopdf::Document>) {
    lopdf::Document::load_mem(bytes).ok()
}

/// Calls `lopdf::Document::get_pages` and hands out the page numbers, the
/// keys of its map, in the order of the map. Claimed of it: each number is
/// greater than the one before it, since the map is a `BTreeMap`, which hands
/// out its keys in ascending order, each once. Nothing is claimed of which
/// numbers there are, nor of how many.
#[verifier::external_body]
fn page_numbers(document: &lopdf::Document) -> (r: Vec<u32>)
    ensures
        strictly_rising(r@),
{
    document.get_pages().keys().copied().collect()
}

/// Calls `lopdf::Document::extract_text` for the pages of the given numbers,
/// and hands out the text where it gives one. Nothing is claimed of the text,
/// nor of when there is one.
#[verifier::external_body]
fn text_of_pages(document: &lopdf::Document, pages: &Vec<u32>) -> (r: Option<String>) {
    document.extract_text(pages).ok()
}

/// No number stands before a smaller one.
pub open spec fn rising(s: Seq<u32>) -> bool {
    forall|i: int, j: int| 0 <= i <= j < s.len() ==> s[i] <= s[j]
}

/// `ordered` holds the numbers of `pages`, each as often as `pages` does, in
/// ascending order.
pub open spec fn in_ascending_order(pages: Seq<u32>, ordered: Seq<u32>) -> bool {
    rising(ordered) && ordered.to_multiset() == pages.to_multiset()
}

/// There is one way to put numbers in ascending order: two lists that hold
/// the numbers of `pages` in ascending order are the same list.
pub proof fn lemma_one_ascending_order(pages: Seq<u32>, a: Seq<u32>, b: Seq<u32>)
    requires
        in_ascending_order(pages, a),
        in_ascending_order(pages, b),
    ensures
        a == b,
{
    let leq = |x: u32, y: u32| x <= y;
    assert(vstd::relations::total_ordering(leq));
    assert(vstd::relations::sorted_by(a, leq));
    assert(vstd::relations::sorted_by(b, leq));
    vstd::seq_lib::lemma_sorted_unique(a, b, leq);
}

/// Numbers of which each is greater than the one before it stand in
/// ascending order.
pub proof fn lemma_rising_is_in_order(pages: Seq<u32>)
    requires
        strictly_rising(pages),
    ensures
        in_ascending_order(pages, pages),
{
}

/// The numbers of `pages` in ascending order.
pub fn put_in_order(pages: &Vec<u32>) -> (ordered: Vec<u32>)
    ensures
        in_ascending_order(pages@, ordered@),
{
    let mut ordered: Vec<u32> = Vec::new();
    let mut i: usize = 0;
    assert(pages@.subrange(0, 0) =~= ordered@);
    while i < pages.len()
        invariant
            i <= pages.len(),
            rising(ordered@),
            ordered@.to_multiset() == pages@.subrange(0, i as int).to_multiset(),
        decreases pages.len() - i,
    {
        let page = pages[i];
        let mut at: usize = 0;
        while at < ordered.len() && ordered[at] <= page
            invariant
                at <= ordered.len(),
                forall|k: int| 0 <= k < at ==> ordered@[k] <= page,
            decreases ordered.len() - at,
        {
            at += 1;
        }
        let ghost before = ordered@;
        proof {
            to_multiset_insert(before, at as int, page);
            to_multiset_build(pages@.subrange(0, i as int), page);
            assert(pages@.subrange(0, i + 1) =~= pages@.subrange(0, i as int).push(page));
        }
        ordered.insert(at, page);
        assert forall|a: int, b: int| 0 <= a <= b < ordered@.len() implies ordered@[a]
            <= ordered@[b] by {
            let x = if a < at { a } else { a - 1 };
            let y = if b < at { b } else { b - 1 };
            if a != at && b != at {
                assert(ordered@[a] == before[x] && ordered@[b] == before[y]);
            } else if a == at && b != at {
                assert(ordered@[b] == before[y]);
                assert(before[at as int] <= before[y]);
            } else if b == at && a != at {
                assert(ordered@[a] == before[x]);
            }
        }
        i += 1;
    }
    assert(pages@.subrange(0, pages@.len() as int) =~= pages@);
    ordered
}

/// What is reported for what the `lopdf` crate gave: `found` is `None`
/// where it read no document from the bytes, and holds the text of the pages
/// else, where it gave one. The text is handed on; `LoadError` where no
/// document was read, `DecodeError` where the document gave no text.
pub fn text_or_error(found: Option<Option<String>>) -> (r: Result<String, Error>)
    ensures
        r == match found {
            Some(Some(text)) => Ok::<String, Error>(text),
            Some(None) => Err::<String, Error>(Error::DecodeError),
            None => Err::<String, Error>(Error::LoadError),
        },
{
    match found {
        Some(Some(text)) => Ok(text),
        Some(None) => Err(Error::DecodeError),
        None => Err(Error::LoadError),
    }
}

/// The text of all pages of the document that `bytes` hold. The document is
/// read once; its page numbers are put in ascending order, whatever order
/// they are found in, and the text of the pages is asked for in that order.
/// `LoadError` where the bytes cannot be read as a document, `DecodeError`
/// where the text of the pages cannot be had. Which bytes can be read, and
/// what the text is, rests with the `lopdf` crate.
pub fn extract_text(bytes: &[u8]) -> (r: Result<String, Error>)
    ensures
        r matches Err(e) ==> e == Error::LoadError || e == Error::DecodeError,
{
    let found = match read_document(bytes) {
        Some(document) => {
            let pages = page_numbers(&document);
            let ordered = put_in_order(&pages);
            proof {
                lemma_rising_is_in_order(pages@);
                lemma_one_ascending_order(pages@, pages@, ordered@);
            }
            assert(ordered@ == pages@ && strictly_rising(ordered@));
            Some(text_of_pages(&document, &ordered))
        },
        None => None,
    };
    text_or_error(found)
}

} // verus!
