//! Why recognition of a request head failed.
use vstd::prelude::*;

verus! {

/// The kinds of failure; each one ends recognition at once.
#[derive(Debug, Clone, Copy, PartialEq, Eq, Structural)]
pub enum HeadError {
    /// bytes that are not, and cannot become, well-formed UTF-8
    InvalidUtf8,
    /// a carriage return not followed by a line feed, or a lone line feed
    BareLineBreak,
    /// a first line that does not split into method, path and version
    MalformedRequestLine,
    /// a method outside the known set
    UnknownMethod,
    /// a version other than `HTTP/1.0` and `HTTP/1.1`
    UnknownVersion,
    /// a `Content-Length` value that is not an unsigned integer
    InvalidContentLength,
    /// more bytes than the budget allows, and still no blank line
    HeadTooLarge,
    /// the source ended before the blank line
    UnexpectedEnd,
}

} // verus!
