//! Decoding of OFD documents: the micro-languages of coordinate, box, path and
//! delta attributes, the flattening of document metadata, and the resolution
//! chain from the package manifest to the document root.

pub mod document;
pub mod metadata;
pub mod numeral;
pub mod ofd;
pub mod st_types;
pub mod string_map;
pub mod text;
