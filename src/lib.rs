//! Comparison of two directories of raster images and tracking of stale
//! baseline snapshots, with every piece of logic stated and proved.

pub mod difference;
pub mod listing;
pub mod names;
pub mod pair;
pub mod raster;
pub mod report;
pub mod session;
pub mod snapshots;

pub use difference::{Difference, ImageInfo, ImageInfoResult, Size};
pub use pair::Pair;
pub use report::ReportConfig;
pub use session::{CompareConfig, ImageDiff, PairResult};

use vstd::prelude::*;

verus! {

/// What an `Error` is.
pub enum ErrorView {
    IoError,
    NotDirectory(Seq<char>),
    ImageError,
}

/// The hard errors of the library.
#[derive(Debug)]
pub enum Error {
    /// A file or a directory could not be read, written or removed.
    IoError,
    /// A comparison root is not an existing directory.
    NotDirectory(String),
    /// An image could not be encoded.
    ImageError,
}

impl View for Error {
    type V = ErrorView;

    open spec fn view(&self) -> ErrorView {
        match self {
            Error::IoError => ErrorView::IoError,
            Error::NotDirectory(p) => ErrorView::NotDirectory(p@),
            Error::ImageError => ErrorView::ImageError,
        }
    }
}

} // verus!
