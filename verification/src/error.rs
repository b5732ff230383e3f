use vstd::prelude::*;

verus! {

/// The operation errors: each validation failure has its own variant, and the
/// codec's failures carry the outside error that caused them.
pub enum PdfError {
    /// A page number outside `1..=total`.
    PageOutOfRange { page: u32, total: u32 },
    /// A deletion that would leave no page.
    WouldDeleteAll,
    /// A page number repeated where a permutation is required.
    DuplicatePage(u32),
    /// An order whose length is not the page count.
    WrongPageCount { expected: usize, got: usize },
    /// No page number given at all.
    NoPages,
    /// A textual range whose bounds are inverted or unreadable.
    InvalidRange(String),
    /// A textual page number that does not parse.
    InvalidPageNumber(String),
    /// The decoded store has no catalog or no page-tree root: a malformed
    /// document, never treated as empty.
    Codec,
    /// The codec could not decode the input or represent the output.
    Lopdf(lopdf::Error),
    /// Writing the output bytes failed.
    Io(std::io::Error),
}

/// Mathematical mirror of `PdfError`; the carried outside errors are opaque,
/// so their variants stand alone.
pub enum ErrV {
    PageOutOfRange { page: u32, total: u32 },
    WouldDeleteAll,
    DuplicatePage(u32),
    WrongPageCount { expected: usize, got: usize },
    NoPages,
    InvalidRange(Seq<char>),
    InvalidPageNumber(Seq<char>),
    Codec,
    Lopdf,
    Io,
}

impl View for PdfError {
    type V = ErrV;

    open spec fn view(&self) -> ErrV {
        match self {
            PdfError::PageOutOfRange { page, total } => ErrV::PageOutOfRange {
                page: *page,
                total: *total,
            },
            PdfError::WouldDeleteAll => ErrV::WouldDeleteAll,
            PdfError::DuplicatePage(n) => ErrV::DuplicatePage(*n),
            PdfError::WrongPageCount { expected, got } => ErrV::WrongPageCount {
                expected: *expected,
                got: *got,
            },
            PdfError::NoPages => ErrV::NoPages,
            PdfError::Codec => ErrV::Codec,
            PdfError::InvalidRange(s) => ErrV::InvalidRange(s@),
            PdfError::InvalidPageNumber(s) => ErrV::InvalidPageNumber(s@),
            PdfError::Lopdf(_) => ErrV::Lopdf,
            PdfError::Io(_) => ErrV::Io,
        }
    }
}

} // verus!
