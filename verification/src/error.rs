use vstd::prelude::*;

verus! {

/// The hard errors of a traversal: each names the syntactic unit that was
/// malformed in the region being scanned.
#[derive(Clone, Copy, Debug, PartialEq, Eq, Structural)]
pub enum Error {
    /// A path expression that cannot be decoded.
    Path,
    /// A string literal without its closing quote.
    String,
    /// An object whose brackets do not balance, or a document without one.
    Object,
    /// An object key that is not a string.
    ObjectKey,
    /// An array whose brackets do not balance.
    Array,
}

} // verus!
