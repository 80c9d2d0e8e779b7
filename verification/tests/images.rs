use pdf_tools::codec::{decode, encode, Bitmap};
use pdf_tools::recompress::{compress, is_image_stream, reencode, scaled_side, shrink};
use pdf_tools::{Dictionary, PdfDocument, Error, Object, ObjectId, Stream};

fn id(number: u32) -> ObjectId {
    ObjectId::new(number, 0)
}

fn name(text: &[u8]) -> Object {
    Object::Name(text.to_vec())
}

/// The bytes of a PNG file of `width` by `height` pixels.
fn png(width: u32, height: u32) -> Vec<u8> {
    let mut picture = image::RgbaImage::new(width, height);
    for (x, y, pixel) in picture.enumerate_pixels_mut() {
        *pixel = image::Rgba([(x * 16) as u8, (y * 16) as u8, 77, 255]);
    }
    let mut bytes = std::io::Cursor::new(Vec::new());
    picture.write_to(&mut bytes, image::ImageFormat::Png).unwrap();
    bytes.into_inner()
}

fn image_stream(content: Vec<u8>) -> Stream {
    let mut dict = Dictionary::new();
    dict.set(b"Type", name(b"XObject"));
    dict.set(b"Subtype", name(b"Image"));
    dict.set(b"Filter", name(b"FlateDecode"));
    let mut stream = Stream::new(dict, content);
    stream.allows_compression = false;
    stream
}

#[test]
fn scaled_side_is_three_quarters_and_at_least_one() {
    assert_eq!(scaled_side(0), 1);
    assert_eq!(scaled_side(1), 1);
    assert_eq!(scaled_side(2), 1);
    assert_eq!(scaled_side(3), 2);
    assert_eq!(scaled_side(4), 3);
    assert_eq!(scaled_side(100), 75);
    assert_eq!(scaled_side(u32::MAX), 3221225471);
}

#[test]
fn decode_reads_the_size_and_the_pixels() {
    let bitmap = decode(&png(8, 4)).unwrap();
    assert_eq!((bitmap.width, bitmap.height), (8, 4));
    assert_eq!(bitmap.pixels.len(), 8 * 4 * 4);
    assert_eq!(&bitmap.pixels[0..4], &[0, 0, 77, 255]);
    assert_eq!(&bitmap.pixels[4..8], &[16, 0, 77, 255]);
}

#[test]
fn decode_of_other_bytes_is_a_decode_error() {
    assert_eq!(decode(b"no image at all").err(), Some(Error::DecodeError));
    assert_eq!(decode(&[]).err(), Some(Error::DecodeError));
}

#[test]
fn shrink_scales_both_sides() {
    let small = shrink(decode(&png(8, 4)).unwrap()).unwrap();
    assert_eq!((small.width, small.height), (6, 3));
    assert_eq!(small.pixels.len(), 6 * 3 * 4);
    let dot = shrink(Bitmap { width: 1, height: 1, pixels: vec![1, 2, 3, 4] }).unwrap();
    assert_eq!((dot.width, dot.height), (1, 1));
    assert_eq!(dot.pixels, vec![1, 2, 3, 4]);
}

#[test]
fn encode_writes_a_jpeg_file() {
    let bytes = encode(&decode(&png(8, 4)).unwrap(), 75).unwrap();
    assert_eq!(&bytes[0..2], &[0xFF, 0xD8]);
    assert_eq!(&bytes[bytes.len() - 2..], &[0xFF, 0xD9]);
    let again = decode(&bytes).unwrap();
    assert_eq!((again.width, again.height), (8, 4));
}

#[test]
fn encode_writes_the_same_bytes_for_the_same_image_and_quality() {
    let picture = decode(&png(8, 4)).unwrap();
    let first = encode(&picture, 75).unwrap();
    assert_eq!(encode(&picture, 75).unwrap(), first);
    assert_ne!(encode(&picture, 20).unwrap(), first);
    // Bytes of the buffer beyond the last pixel are left aside.
    let mut longer = Bitmap { width: 8, height: 4, pixels: picture.pixels.clone() };
    longer.pixels.push(9);
    assert_eq!(encode(&longer, 75).unwrap(), first);
}

#[test]
fn encode_of_an_image_without_pixels_is_a_decode_error() {
    let empty = Bitmap { width: 0, height: 0, pixels: vec![] };
    assert_eq!(encode(&empty, 75).err(), Some(Error::DecodeError));
    let wide = Bitmap { width: 65536, height: 1, pixels: vec![0; 65536 * 4] };
    assert_eq!(encode(&wide, 75).err(), Some(Error::DecodeError));
}

#[test]
fn an_image_with_too_few_pixel_bytes_is_neither_scaled_nor_encoded() {
    let short = Bitmap { width: 4, height: 4, pixels: vec![0; 63] };
    assert!(!short.is_complete());
    assert_eq!(encode(&short, 75).err(), Some(Error::DecodeError));
    assert!(shrink(short).is_none());
    assert!(Bitmap { width: 4, height: 4, pixels: vec![0; 64] }.is_complete());
}

#[test]
fn is_image_stream_wants_type_and_subtype() {
    assert!(is_image_stream(&image_stream(vec![])));
    let mut dict = Dictionary::new();
    dict.set(b"Type", name(b"XObject"));
    dict.set(b"Subtype", name(b"Form"));
    assert!(!is_image_stream(&Stream::new(dict, vec![])));
    let mut dict = Dictionary::new();
    dict.set(b"Subtype", name(b"Image"));
    assert!(!is_image_stream(&Stream::new(dict, vec![])));
}

#[test]
fn reencode_sets_payload_and_dictionary() {
    let stream = reencode(image_stream(vec![1, 2, 3]), Some(vec![9, 9]));
    assert_eq!(stream.content, vec![9, 9]);
    assert!(stream.allows_compression);
    assert_eq!(stream.dict.len(), 5);
    assert_eq!(stream.dict.get(b"Filter"), Ok(&name(b"DCTDecode")));
    assert_eq!(stream.dict.get(b"ColorSpace"), Ok(&name(b"DeviceRGB")));
    assert_eq!(stream.dict.get(b"BitsPerComponent"), Ok(&Object::Integer(8)));
    assert_eq!(stream.dict.get(b"Subtype"), Ok(&name(b"Image")));
    let kept = reencode(image_stream(vec![1, 2, 3]), None);
    assert_eq!(kept, image_stream(vec![1, 2, 3]));
}

#[test]
fn compress_rewrites_images_that_decode_and_nothing_else() {
    let mut doc = PdfDocument::with_version("1.4");
    doc.trailer.set(b"Root", Object::Reference(id(1)));
    doc.max_id = 5;
    doc.objects.insert(id(1), Object::Dictionary(Dictionary::new()));
    doc.objects.insert(id(2), Object::Stream(image_stream(png(16, 8))));
    doc.objects.insert(id(3), Object::Stream(image_stream(b"broken".to_vec())));
    doc.objects.insert(id(4), Object::Stream(Stream::new(Dictionary::new(), png(4, 4))));
    doc.objects.insert(id(5), Object::Integer(5));
    compress(&mut doc);
    assert_eq!(doc.objects.len(), 5);
    assert_eq!(doc.max_id, 5);
    assert_eq!(doc.trailer.get(b"Root"), Ok(&Object::Reference(id(1))));
    assert_eq!(doc.objects.get(id(1)), Some(&Object::Dictionary(Dictionary::new())));
    assert_eq!(doc.objects.get(id(3)), Some(&Object::Stream(image_stream(b"broken".to_vec()))));
    assert_eq!(
        doc.objects.get(id(4)),
        Some(&Object::Stream(Stream::new(Dictionary::new(), png(4, 4))))
    );
    assert_eq!(doc.objects.get(id(5)), Some(&Object::Integer(5)));
    let image = doc.objects.get(id(2)).unwrap().as_stream().unwrap();
    assert_eq!(image.dict.get(b"Filter"), Ok(&name(b"DCTDecode")));
    assert_eq!(image.dict.get(b"ColorSpace"), Ok(&name(b"DeviceRGB")));
    assert_eq!(image.dict.get(b"BitsPerComponent"), Ok(&Object::Integer(8)));
    assert!(image.allows_compression);
    let picture = decode(&image.content).unwrap();
    assert_eq!((picture.width, picture.height), (12, 6));
}
