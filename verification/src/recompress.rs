//! Encoding the images of a document anew, smaller.

use vstd::prelude::*;
use crate::bytes::bytes_equal;
use crate::codec::{Bitmap, decode, decoded_size_of, encode, jpeg_of, resample};
use crate::document::{PdfDocument, DocumentModel, resolves, self_contained};
use crate::names::{
    BITS_PER_COMPONENT, COLOR_SPACE, DCT_DECODE, DEVICE_RGB, FILTER, IMAGE, SUBTYPE, TYPE, XOBJECT,
};
use crate::object::{dict_get, dict_set, Object, ObjectId, Stream, StreamModel, Value};
use crate::pages::{count_holds, lemma_same_pages, pages_of, same_node};
use crate::table::{lemma_same_ids, table_has, TableModel};
use crate::walker::{lemma_set_adds_no_ref, value_refs};

verus! {

/// The quality at which images are encoded anew.
pub const QUALITY: u8 = 75;

/// The stream holds an image: its dictionary declares the type `XObject` and
/// the subtype `Image`.
pub open spec fn is_image(s: StreamModel) -> bool {
    dict_get(s.dict, TYPE@) == Some(Value::Name(XOBJECT@)) && dict_get(s.dict, SUBTYPE@) == Some(
        Value::Name(IMAGE@),
    )
}

/// A side of an image after scaling to three quarters, and not under one pixel.
pub open spec fn scaled(side: u32) -> u32 {
    if side as int * 3 / 4 < 1 {
        1
    } else {
        (side as int * 3 / 4) as u32
    }
}

/// The stream with `bytes` as its payload: the dictionary says that the bytes
/// are a JPEG file of 8-bit RGB, and the stream is open to compression.
pub open spec fn reencoded(s: StreamModel, bytes: Seq<u8>) -> StreamModel {
    StreamModel {
        dict: dict_set(
            dict_set(
                dict_set(s.dict, FILTER@, Value::Name(DCT_DECODE@)),
                COLOR_SPACE@,
                Value::Name(DEVICE_RGB@),
            ),
            BITS_PER_COMPONENT@,
            Value::Integer(8),
        ),
        content: bytes,
        allows_compression: true,
    }
}

/// Whether `parts` values of one byte for each pixel of an image of `width`
/// by `height` pixels can be held in memory.
pub open spec fn fits(width: u32, height: u32, parts: int) -> bool {
    width as int * height as int * parts <= isize::MAX
}

/// Whether an image of `width` by `height` pixels can be scaled: it has the
/// scaled size already, or the scaled image, and what is made on the way to
/// it, fit in memory.
pub open spec fn scalable(width: u32, height: u32) -> bool {
    (scaled(width) == width && scaled(height) == height) || (fits(
        scaled(width),
        scaled(height),
        4,
    ) && fits(width, scaled(height), 16))
}

/// Whether the image of `width` by `height` pixels in `pixels` can be scaled:
/// the pixel bytes suffice for the size, and an image of the size can be
/// scaled.
pub open spec fn can_scale(width: u32, height: u32, pixels: Seq<u8>) -> bool {
    width as int * height as int * 4 <= pixels.len() && scalable(width, height)
}

/// `small` suffices for the pixels of the scaled image.
pub open spec fn holds_scaled(width: u32, height: u32, small: Seq<u8>) -> bool {
    scaled(width) as int * scaled(height) as int * 4 <= small.len()
}

/// `small` can be the pixels of the scaled image: they suffice for the scaled
/// size, and are the pixels of the image itself where it has that size
/// already. Which pixels the scaling gives is left to it.
pub open spec fn is_scaled(width: u32, height: u32, pixels: Seq<u8>, small: Seq<u8>) -> bool {
    &&& holds_scaled(width, height, small)
    &&& scaled(width) == width && scaled(height) == height ==> small == pixels
}

/// `payload` is what the encoder writes, at the quality of the pass, for an
/// image of the scaled size; nothing where it reports an error. Which pixels
/// the image has is left to the decoder and to the scaling.
pub open spec fn reduces_to(width: u32, height: u32, payload: Option<Seq<u8>>) -> bool {
    exists|small: Seq<u8>|
        holds_scaled(width, height, small) && payload == #[trigger] jpeg_of(
            scaled(width),
            scaled(height),
            small,
            QUALITY,
        )
}

/// `payload` is the new payload for the payload `content`: the image that
/// `content` decodes to, scaled and encoded. There is none where `content`
/// does not decode, or the image cannot be scaled or encoded.
pub open spec fn transcoded(content: Seq<u8>, payload: Option<Seq<u8>>) -> bool {
    match decoded_size_of(content) {
        Some(size) => if scalable(size.0, size.1) {
            reduces_to(size.0, size.1, payload)
        } else {
            payload is None
        },
        None => payload is None,
    }
}

/// The stream with the new payload, where there is one; the stream as it is,
/// where there is none.
pub open spec fn with_payload(s: StreamModel, payload: Option<Seq<u8>>) -> Value {
    match payload {
        Some(bytes) => Value::Stream(reencoded(s, bytes)),
        None => Value::Stream(s),
    }
}

/// What the pass makes of an object: an image stream gets the new payload for
/// its payload, where there is one, and says so in its dictionary; any other
/// object, and an image stream for whose payload there is no new one, stays
/// as it is.
pub open spec fn recompressed(before: Value, after: Value) -> bool {
    if before is Stream && is_image(before->Stream_0) {
        exists|payload: Option<Seq<u8>>| #[trigger]
            transcoded(before->Stream_0.content, payload) && after == with_payload(
                before->Stream_0,
                payload,
            )
    } else {
        after == before
    }
}

/// Whatever the pass makes of an object, it is the object itself or the
/// stream with another payload.
pub proof fn lemma_recompressed(before: Value, after: Value)
    requires
        recompressed(before, after),
    ensures
        after == before || (before is Stream && after is Stream && after->Stream_0 == reencoded(
            before->Stream_0,
            after->Stream_0.content,
        )),
{
}

/// What the pass may make of the objects: each stays in its place, under its
/// identifier.
pub open spec fn recompressed_objects(before: TableModel, after: TableModel) -> bool {
    &&& after.len() == before.len()
    &&& forall|i: int|
        0 <= i < before.len() ==> (#[trigger] after[i]).0 == before[i].0 && recompressed(
            before[i].1,
            after[i].1,
        )
}

/// A stream with a new payload refers to nothing that the stream did not
/// refer to.
pub proof fn lemma_reencoded_refs(s: StreamModel, bytes: Seq<u8>, r: ObjectId)
    requires
        value_refs(Value::Stream(reencoded(s, bytes))).contains(r),
    ensures
        value_refs(Value::Stream(s)).contains(r),
{
    let filter = Value::Name(DCT_DECODE@);
    let space = Value::Name(DEVICE_RGB@);
    let bits = Value::Integer(8);
    let first = dict_set(s.dict, FILTER@, filter);
    let second = dict_set(first, COLOR_SPACE@, space);
    assert(value_refs(filter) =~= Seq::<ObjectId>::empty());
    assert(value_refs(space) =~= Seq::<ObjectId>::empty());
    assert(value_refs(bits) =~= Seq::<ObjectId>::empty());
    lemma_set_adds_no_ref(second, BITS_PER_COMPONENT@, bits, r);
    lemma_set_adds_no_ref(first, COLOR_SPACE@, space, r);
    lemma_set_adds_no_ref(s.dict, FILTER@, filter, r);
}

/// The pass lets no reference dangle that did not dangle before, and leaves
/// the pages of the document as they are.
pub proof fn lemma_recompression_keeps_graph(before: DocumentModel, after: DocumentModel)
    requires
        after.trailer == before.trailer,
        recompressed_objects(before.objects, after.objects),
    ensures
        self_contained(before) ==> self_contained(after),
        pages_of(after) == pages_of(before),
        count_holds(after) == count_holds(before),
{
    let a = before.objects;
    let b = after.objects;
    assert forall|i: int| 0 <= i < a.len() implies (#[trigger] a[i]).0 == b[i].0 && same_node(
        a[i].1,
        b[i].1,
    ) by {
        assert(b[i].0 == a[i].0);
        lemma_recompressed(a[i].1, b[i].1);
    }
    lemma_same_pages(before, after);
    if self_contained(before) {
        assert forall|k: int| 0 <= k < value_refs(Value::Dictionary(after.trailer)).len() implies table_has(
            b,
            #[trigger] value_refs(Value::Dictionary(after.trailer))[k],
        ) by {
            lemma_same_ids(a, b, value_refs(Value::Dictionary(before.trailer))[k], 0);
        }
        assert forall|i: int| 0 <= i < b.len() implies resolves(b, (#[trigger] b[i]).1) by {
            assert(b[i].0 == a[i].0);
            assert forall|k: int| 0 <= k < value_refs(b[i].1).len() implies table_has(
                b,
                #[trigger] value_refs(b[i].1)[k],
            ) by {
                let r = value_refs(b[i].1)[k];
                assert(value_refs(b[i].1).contains(r));
                lemma_recompressed(a[i].1, b[i].1);
                if b[i].1 != a[i].1 {
                    lemma_reencoded_refs(a[i].1->Stream_0, b[i].1->Stream_0.content, r);
                }
                assert(value_refs(a[i].1).contains(r));
                let j = choose|j: int| 0 <= j < value_refs(a[i].1).len() && value_refs(a[i].1)[j]
                    == r;
                assert(resolves(a, a[i].1));
                assert(table_has(a, value_refs(a[i].1)[j]));
                lemma_same_ids(a, b, r, 0);
            }
        }
    }
}

/// Whether the stream holds an image.
pub fn is_image_stream(stream: &Stream) -> (r: bool)
    ensures
        r == is_image(stream@),
{
    let is_xobject = match stream.dict.get(&TYPE) {
        Ok(Object::Name(n)) => bytes_equal(n.as_slice(), &XOBJECT),
        _ => false,
    };
    let is_image = match stream.dict.get(&SUBTYPE) {
        Ok(Object::Name(n)) => bytes_equal(n.as_slice(), &IMAGE),
        _ => false,
    };
    is_xobject && is_image
}

/// A side of an image after scaling.
pub fn scaled_side(side: u32) -> (r: u32)
    ensures
        r == scaled(side),
{
    let three_quarters = (side as u64) * 3 / 4;
    if three_quarters < 1 {
        1
    } else {
        three_quarters as u32
    }
}

fn check_fits(width: u32, height: u32, parts: u8) -> (r: bool)
    ensures
        r == fits(width, height, parts as int),
{
    assert(width as int * height as int <= 0xFFFF_FFFF * 0xFFFF_FFFF) by (nonlinear_arith)
        requires
            0 <= width <= 0xFFFF_FFFF,
            0 <= height <= 0xFFFF_FFFF,
    ;
    let area: u128 = (width as u128) * (height as u128);
    assert(area * parts <= 0xFFFF_FFFF * 0xFFFF_FFFF * 255) by (nonlinear_arith)
        requires
            0 <= area <= 0xFFFF_FFFF * 0xFFFF_FFFF,
            0 <= parts <= 255,
    ;
    area * (parts as u128) <= isize::MAX as u128
}

/// Whether `source` can be scaled.
pub open spec fn can_shrink(source: Bitmap) -> bool {
    can_scale(source.width, source.height, source.pixels@)
}

/// The image scaled to three quarters of each side. An image of one pixel
/// stays as it is. `None` where the image cannot be scaled.
pub fn shrink(source: Bitmap) -> (r: Option<Bitmap>)
    ensures
        match r {
            Some(small) => {
                &&& can_shrink(source)
                &&& small.width == scaled(source.width)
                &&& small.height == scaled(source.height)
                &&& is_scaled(source.width, source.height, source.pixels@, small.pixels@)
            },
            None => !can_shrink(source),
        },
        can_shrink(source) && scaled(source.width) == source.width && scaled(source.height)
            == source.height ==> r == Some(source),
{
    if !source.is_complete() {
        return None;
    }
    let width = scaled_side(source.width);
    let height = scaled_side(source.height);
    if width == source.width && height == source.height {
        return Some(source);
    }
    if !check_fits(width, height, 4) || !check_fits(source.width, height, 16) {
        return None;
    }
    Some(resample(&source, width, height))
}

/// The view of a payload, where there is one.
pub open spec fn payload_view(payload: Option<Vec<u8>>) -> Option<Seq<u8>> {
    match payload {
        Some(bytes) => Some(bytes@),
        None => None,
    }
}

/// The new payload for the payload `content`: the image in it, scaled down
/// and encoded as a JPEG file. `None` where the bytes do not decode, or the
/// image cannot be scaled or encoded.
fn transcode(content: &[u8]) -> (r: Option<Vec<u8>>)
    ensures
        transcoded(content@, payload_view(r)),
{
    let bitmap = match decode(content) {
        Ok(bitmap) => bitmap,
        Err(_) => {
            return None;
        },
    };
    let ghost size = (bitmap.width, bitmap.height);
    let small = match shrink(bitmap) {
        Some(small) => small,
        None => {
            return None;
        },
    };
    let r = match encode(&small, QUALITY) {
        Ok(bytes) => Some(bytes),
        Err(_) => None,
    };
    assert(holds_scaled(size.0, size.1, small.pixels@) && payload_view(r) == jpeg_of(
        scaled(size.0),
        scaled(size.1),
        small.pixels@,
        QUALITY,
    ));
    r
}

/// The stream with a new payload, where there is one; the stream as it is,
/// where there is none.
pub fn reencode(stream: Stream, bytes: Option<Vec<u8>>) -> (r: Stream)
    ensures
        Value::Stream(r@) == with_payload(stream@, payload_view(bytes)),
{
    match bytes {
        Some(b) => {
            let mut stream = stream;
            stream.content = b;
            stream.dict.set(&FILTER, Object::name(&DCT_DECODE));
            stream.dict.set(&COLOR_SPACE, Object::name(&DEVICE_RGB));
            stream.dict.set(&BITS_PER_COMPONENT, Object::Integer(8));
            stream.allows_compression = true;
            stream
        },
        None => stream,
    }
}

/// Encodes the images of the document anew, smaller: each image stream whose
/// payload decodes to an image that can be scaled and encoded gets, as its
/// new payload, that image scaled to three quarters and encoded as a JPEG
/// file, and says so in its dictionary. Every other object, and every image
/// stream for which there is no new payload, stays as it is; no object is
/// removed or moved.
pub fn compress(doc: &mut PdfDocument)
    ensures
        final(doc)@.version == old(doc)@.version,
        final(doc)@.trailer == old(doc)@.trailer,
        final(doc)@.max_id == old(doc)@.max_id,
        recompressed_objects(old(doc)@.objects, final(doc)@.objects),
        self_contained(old(doc)@) ==> self_contained(final(doc)@),
        pages_of(final(doc)@) == pages_of(old(doc)@),
        count_holds(final(doc)@) == count_holds(old(doc)@),
{
    let n = doc.objects.len();
    let ghost t = doc@.objects;
    let mut i: usize = 0;
    while i < n
        invariant
            i <= n,
            n == t.len(),
            doc@.version == old(doc)@.version,
            doc@.trailer == old(doc)@.trailer,
            doc@.max_id == old(doc)@.max_id,
            doc@.objects.len() == n,
            forall|j: int|
                0 <= j < i ==> (#[trigger] doc@.objects[j]).0 == t[j].0 && recompressed(
                    t[j].1,
                    doc@.objects[j].1,
                ),
            forall|j: int| i <= j < n ==> (#[trigger] doc@.objects[j]) == t[j],
        decreases n - i,
    {
        let object = doc.objects.replace_at(i, Object::Null);
        let done = match object {
            Object::Stream(stream) => {
                if is_image_stream(&stream) {
                    let bytes = transcode(stream.content.as_slice());
                    let ghost payload = payload_view(bytes);
                    let ghost before = stream@;
                    let renewed = reencode(stream, bytes);
                    assert(transcoded(before.content, payload) && Value::Stream(renewed@)
                        == with_payload(before, payload));
                    Object::Stream(renewed)
                } else {
                    Object::Stream(stream)
                }
            },
            other => other,
        };
        doc.objects.replace_at(i, done);
        i += 1;
    }
    proof {
        lemma_recompression_keeps_graph(old(doc)@, doc@);
    }
}

} // verus!
