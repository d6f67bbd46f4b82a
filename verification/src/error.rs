use vstd::prelude::*;

verus! {

/// Errors the archiver's core can report.
///
/// `FormatError`: bad or missing signature, an invalid back-reference or
/// phrase index in a token stream, or a name that is not valid text after
/// de-obfuscation. `UnsupportedAlgorithm`: an algorithm id other than 77 or
/// 78. `TruncatedInput`: declared sizes exceed the available bytes, or a
/// token stream ends mid-token. `InvalidArguments`: an inconsistent
/// command-line request.
#[derive(Clone, Copy, Debug, PartialEq, Eq, Structural)]
pub enum LzrsError {
    FormatError,
    UnsupportedAlgorithm,
    TruncatedInput,
    InvalidArguments,
}

} // verus!
