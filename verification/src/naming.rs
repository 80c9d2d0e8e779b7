//! The names of the folders and files that the operations write, and the
//! formats of images.

use vstd::prelude::*;
use crate::bytes::bytes_equal;
use crate::error::Error;
use crate::text::{decimal, decimal_digits, join};

verus! {

/// A format for the images of pages.
#[derive(Clone, Copy, Debug, PartialEq, Eq, Structural)]
pub enum ImageFormat {
    Png,
    Jpeg,
}

pub const PNG: [u8; 3] = ['p' as u8, 'n' as u8, 'g' as u8];

pub const JPEG: [u8; 4] = ['j' as u8, 'p' as u8, 'e' as u8, 'g' as u8];

pub const JPG: [u8; 3] = ['j' as u8, 'p' as u8, 'g' as u8];

/// What the name of the folder for the pages of a file ends in.
pub const PAGES_SUFFIX: [u8; 6] = ['-' as u8, 'p' as u8, 'a' as u8, 'g' as u8, 'e' as u8, 's' as u8];

/// What the name of the folder for the images of a file ends in.
pub const IMAGES_SUFFIX: [u8; 7] = [
    '-' as u8,
    'i' as u8,
    'm' as u8,
    'a' as u8,
    'g' as u8,
    'e' as u8,
    's' as u8,
];

pub const PAGE_FILE_PREFIX: [u8; 5] = ['p' as u8, 'a' as u8, 'g' as u8, 'e' as u8, '-' as u8];

pub const PAGE_FILE_SUFFIX: [u8; 4] = ['.' as u8, 'p' as u8, 'd' as u8, 'f' as u8];

/// The small letter for a capital letter of the alphabet of 26; any other
/// byte as it is.
pub open spec fn lower(b: u8) -> u8 {
    if 65 <= b <= 90 {
        (b + 32) as u8
    } else {
        b
    }
}

/// `s` with small letters for its capital letters.
pub open spec fn lowered(s: Seq<u8>) -> Seq<u8> {
    Seq::new(s.len(), |i: int| lower(s[i]))
}

/// The format that a name stands for, capital and small letters taken alike:
/// `png`, or `jpeg` or `jpg`.
pub open spec fn format_named(name: Seq<u8>) -> Option<ImageFormat> {
    if lowered(name) == PNG@ {
        Some(ImageFormat::Png)
    } else if lowered(name) == JPEG@ || lowered(name) == JPG@ {
        Some(ImageFormat::Jpeg)
    } else {
        None
    }
}

/// The name of the folder that takes what is made from the file named
/// `stem`; `None` where the folder `leaf`, which is to take it, has that name
/// already.
pub open spec fn folder_for(stem: Seq<u8>, suffix: Seq<u8>, leaf: Option<Seq<u8>>) -> Option<Seq<u8>> {
    if leaf == Some(stem + suffix) {
        None
    } else {
        Some(stem + suffix)
    }
}

/// The name of the file for page `number`.
pub open spec fn page_file(number: nat) -> Seq<u8> {
    PAGE_FILE_PREFIX@ + decimal(number) + PAGE_FILE_SUFFIX@
}

fn lower_case(name: &[u8]) -> (r: Vec<u8>)
    ensures
        r@ == lowered(name@),
{
    let mut r: Vec<u8> = Vec::new();
    let mut i: usize = 0;
    while i < name.len()
        invariant
            i <= name.len(),
            r@ == lowered(name@).subrange(0, i as int),
        decreases name.len() - i,
    {
        let b = name[i];
        r.push(if 65 <= b && b <= 90 { b + 32 } else { b });
        assert(r@ =~= lowered(name@).subrange(0, i + 1));
        i += 1;
    }
    assert(lowered(name@).subrange(0, name@.len() as int) =~= lowered(name@));
    r
}

/// The format that `name` stands for; `InvalidArgument` where it stands for none.
pub fn image_format(name: &[u8]) -> (r: Result<ImageFormat, Error>)
    ensures
        match r {
            Ok(format) => format_named(name@) == Some(format),
            Err(e) => e == Error::InvalidArgument && format_named(name@).is_none(),
        },
{
    let small = lower_case(name);
    if bytes_equal(small.as_slice(), &PNG) {
        Ok(ImageFormat::Png)
    } else if bytes_equal(small.as_slice(), &JPEG) || bytes_equal(small.as_slice(), &JPG) {
        Ok(ImageFormat::Jpeg)
    } else {
        Err(Error::InvalidArgument)
    }
}

/// The name of the folder to make for what comes of the file named `stem`,
/// under the folder whose own name is `leaf`; `None` where that folder has
/// the name already and takes the output itself.
pub fn output_folder(stem: &[u8], suffix: &[u8], leaf: &Option<Vec<u8>>) -> (r: Option<Vec<u8>>)
    ensures
        match r {
            Some(name) => folder_for(stem@, suffix@, leaf_view(*leaf)) == Some(name@),
            None => folder_for(stem@, suffix@, leaf_view(*leaf)).is_none(),
        },
{
    let name = join(stem, suffix);
    match leaf {
        Some(own) => {
            if bytes_equal(own.as_slice(), name.as_slice()) {
                None
            } else {
                Some(name)
            }
        },
        None => Some(name),
    }
}

/// The view of the name of a folder, where it has one.
pub open spec fn leaf_view(leaf: Option<Vec<u8>>) -> Option<Seq<u8>> {
    match leaf {
        Some(name) => Some(name@),
        None => None,
    }
}

/// What the name of an image starts with where the file has no name of its own.
pub const PAGE_WORD: [u8; 4] = ['p' as u8, 'a' as u8, 'g' as u8, 'e' as u8];

/// How the pages of a file are made into images: the format, the name of the
/// folder to make for them, where one is to be made, and what the names of
/// the images start with.
pub struct Conversion {
    pub format: ImageFormat,
    pub folder: Option<Vec<u8>>,
    pub prefix: Vec<u8>,
}

/// How the pages of the file named `stem` are made into images of the format
/// that `format` names, for the folder whose own name is `leaf`: the images go
/// to a folder named after the file, which is the given folder where it has
/// that name already, and their names start with the name of the file. A file
/// without a name has its images in the given folder, their names starting
/// with `page`. `InvalidArgument` where `format` names no format.
pub fn convert_to_images(stem: &Option<Vec<u8>>, leaf: &Option<Vec<u8>>, format: &[u8]) -> (r: Result<
    Conversion,
    Error,
>)
    ensures
        match r {
            Ok(plan) => {
                &&& format_named(format@) == Some(plan.format)
                &&& leaf_view(plan.folder) == match stem {
                    Some(name) => folder_for(name@, IMAGES_SUFFIX@, leaf_view(*leaf)),
                    None => None,
                }
                &&& plan.prefix@ == match stem {
                    Some(name) => name@,
                    None => PAGE_WORD@,
                }
            },
            Err(e) => e == Error::InvalidArgument && format_named(format@).is_none(),
        },
{
    let format = match image_format(format) {
        Ok(format) => format,
        Err(e) => {
            return Err(e);
        },
    };
    match stem {
        Some(name) => Ok(
            Conversion {
                format,
                folder: output_folder(name.as_slice(), &IMAGES_SUFFIX, leaf),
                prefix: crate::bytes::copy_bytes(name.as_slice()),
            },
        ),
        None => Ok(Conversion { format, folder: None, prefix: crate::bytes::copy_bytes(&PAGE_WORD) }),
    }
}

/// The name of the file for page `number`: `page-`, the number, `.pdf`.
pub fn page_file_name(number: u32) -> (r: Vec<u8>)
    ensures
        r@ == page_file(number as nat),
{
    let digits = decimal_digits(number as u64);
    let head = join(&PAGE_FILE_PREFIX, digits.as_slice());
    join(head.as_slice(), &PAGE_FILE_SUFFIX)
}

} // verus!
