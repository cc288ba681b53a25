//! Conversion of XML documents into bracket notation, one line per child of
//! the document root, and a line comparator for the resulting files.

pub mod attrs;
pub mod compare;
pub mod convert;
pub mod escape;
pub mod paths;
pub mod transducer;
pub mod xml;
