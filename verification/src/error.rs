use vstd::prelude::*;

verus! {

/// The errors of the library.
#[derive(Debug, Clone, Copy, PartialEq, Eq, Structural)]
pub enum PdfError {
    /// A read ran past the end of the data.
    EndofFile,
    /// The bytes do not follow the PDF syntax.
    ParserError,
    /// An indirect object is missing, deleted or of the wrong kind.
    ObjectError,
    /// The document structure is not as expected.
    DocumentError,
    /// A content stream operator cannot be read.
    ContentParseError,
    /// A feature that this library does not handle.
    Unsupported,
}

pub type PdfResult<T> = Result<T, PdfError>;

} // verus!
