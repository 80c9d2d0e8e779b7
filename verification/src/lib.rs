//! An engine that works on PDF documents as graphs of objects: it merges
//! documents, splits a document into its pages, turns pages, and encodes
//! images anew, and keeps the graph sound while it does so.

pub mod bytes;
pub mod closure;
pub mod codec;
pub mod document;
pub mod error;
pub mod extract;
pub mod ids;
pub mod merge;
pub mod merge_laws;
pub mod names;
pub mod naming;
pub mod object;
pub mod outline;
pub mod outline_tree;
pub mod pages;
pub mod recompress;
pub mod renumber;
pub mod rotate;
pub mod rotate_laws;
pub mod selection;
pub mod split;
pub mod split_laws;
pub mod table;
pub mod text;
pub mod walker;

pub use document::PdfDocument;
pub use error::Error;
pub use extract::extract_text;
pub use merge::merge;
pub use naming::convert_to_images;
pub use object::{Dictionary, Object, ObjectId, Stream, StringFormat};
pub use recompress::compress;
pub use rotate::rotate;
pub use split::split;
