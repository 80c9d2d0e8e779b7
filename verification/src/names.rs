//! The names of dictionary entries and types that the engine knows.

use vstd::prelude::*;

verus! {

// The names that the engine reads and writes, each as the bytes of a name object.

pub const TYPE: [u8; 4] = ['T' as u8, 'y' as u8, 'p' as u8, 'e' as u8];

pub const PAGE: [u8; 4] = ['P' as u8, 'a' as u8, 'g' as u8, 'e' as u8];

pub const PAGES: [u8; 5] = ['P' as u8, 'a' as u8, 'g' as u8, 'e' as u8, 's' as u8];

pub const CATALOG: [u8; 7] = [
    'C' as u8, 'a' as u8, 't' as u8, 'a' as u8, 'l' as u8, 'o' as u8, 'g' as u8,
];

pub const OUTLINES: [u8; 8] = [
    'O' as u8, 'u' as u8, 't' as u8, 'l' as u8, 'i' as u8, 'n' as u8, 'e' as u8, 's' as u8,
];

pub const OUTLINE: [u8; 7] = [
    'O' as u8, 'u' as u8, 't' as u8, 'l' as u8, 'i' as u8, 'n' as u8, 'e' as u8,
];

pub const PARENT: [u8; 6] = ['P' as u8, 'a' as u8, 'r' as u8, 'e' as u8, 'n' as u8, 't' as u8];

pub const KIDS: [u8; 4] = ['K' as u8, 'i' as u8, 'd' as u8, 's' as u8];

pub const COUNT: [u8; 5] = ['C' as u8, 'o' as u8, 'u' as u8, 'n' as u8, 't' as u8];

pub const ROOT: [u8; 4] = ['R' as u8, 'o' as u8, 'o' as u8, 't' as u8];

pub const ROTATE: [u8; 6] = ['R' as u8, 'o' as u8, 't' as u8, 'a' as u8, 't' as u8, 'e' as u8];

pub const XOBJECT: [u8; 7] = [
    'X' as u8, 'O' as u8, 'b' as u8, 'j' as u8, 'e' as u8, 'c' as u8, 't' as u8,
];

pub const SUBTYPE: [u8; 7] = [
    'S' as u8, 'u' as u8, 'b' as u8, 't' as u8, 'y' as u8, 'p' as u8, 'e' as u8,
];

pub const IMAGE: [u8; 5] = ['I' as u8, 'm' as u8, 'a' as u8, 'g' as u8, 'e' as u8];

pub const FILTER: [u8; 6] = ['F' as u8, 'i' as u8, 'l' as u8, 't' as u8, 'e' as u8, 'r' as u8];

pub const DCT_DECODE: [u8; 9] = [
    'D' as u8, 'C' as u8, 'T' as u8, 'D' as u8, 'e' as u8, 'c' as u8, 'o' as u8, 'd' as u8,
    'e' as u8,
];

pub const COLOR_SPACE: [u8; 10] = [
    'C' as u8, 'o' as u8, 'l' as u8, 'o' as u8, 'r' as u8, 'S' as u8, 'p' as u8, 'a' as u8,
    'c' as u8, 'e' as u8,
];

pub const DEVICE_RGB: [u8; 9] = [
    'D' as u8, 'e' as u8, 'v' as u8, 'i' as u8, 'c' as u8, 'e' as u8, 'R' as u8, 'G' as u8,
    'B' as u8,
];

pub const BITS_PER_COMPONENT: [u8; 16] = [
    'B' as u8, 'i' as u8, 't' as u8, 's' as u8, 'P' as u8, 'e' as u8, 'r' as u8, 'C' as u8,
    'o' as u8, 'm' as u8, 'p' as u8, 'o' as u8, 'n' as u8, 'e' as u8, 'n' as u8, 't' as u8,
];

pub const FIRST: [u8; 5] = ['F' as u8, 'i' as u8, 'r' as u8, 's' as u8, 't' as u8];

pub const LAST: [u8; 4] = ['L' as u8, 'a' as u8, 's' as u8, 't' as u8];

pub const NEXT: [u8; 4] = ['N' as u8, 'e' as u8, 'x' as u8, 't' as u8];

pub const PREV: [u8; 4] = ['P' as u8, 'r' as u8, 'e' as u8, 'v' as u8];

pub const TITLE: [u8; 5] = ['T' as u8, 'i' as u8, 't' as u8, 'l' as u8, 'e' as u8];

pub const FIT: [u8; 3] = ['F' as u8, 'i' as u8, 't' as u8];

pub const GO_TO: [u8; 4] = ['G' as u8, 'o' as u8, 'T' as u8, 'o' as u8];

/// The key of the action of an outline item.
pub const ACTION: [u8; 1] = ['A' as u8];

/// The key of the kind of an action.
pub const ACTION_KIND: [u8; 1] = ['S' as u8];

/// The key of the destination of an action.
pub const DESTINATION: [u8; 1] = ['D' as u8];

/// The key of the colour of an outline item.
pub const COLOR: [u8; 1] = ['C' as u8];

/// The key of the style of an outline item.
pub const FLAGS: [u8; 1] = ['F' as u8];

/// What the title of a bookmark starts with.
pub const PAGE_PREFIX: [u8; 5] = ['P' as u8, 'a' as u8, 'g' as u8, 'e' as u8, '_' as u8];

} // verus!
