//! Errors reported by the downloader and its cache.

use vstd::prelude::*;

verus! {

/// What can go wrong while fetching, caching or rendering a chapter.
#[derive(Debug)]
pub enum DownloadError {
    /// The transfer itself failed (connection, timeout, body).
    RequestFailed(String),
    /// The remote host answered with a non-success status code.
    HttpStatus(u16),
    /// A filesystem or persisted-document operation failed.
    IoError(String),
    /// A document (persisted index, page, user input) could not be read.
    ParsingError(String),
    /// A page selector could not be built.
    SelectorError(String),
    /// An element expected on a page, or a resource, is absent.
    ElementNotFound(String),
    /// An attribute expected on an element is absent.
    AttributeNotFound(String),
    /// A fetched image could not be decoded.
    ImageProcessingError(String),
    /// The document renderer failed.
    PdfGenerationError(String),
}

} // verus!
