//! An incremental recognizer for the head of an HTTP/1.x request: the request
//! line and the header lines up to the blank line that ends them, read from a
//! source that may hand over its bytes in fragments of any size.
pub mod canonical;
pub mod error;
pub mod head;
pub mod scan;
pub mod text;
pub mod utf8;
