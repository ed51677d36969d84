//! Errors of reading asset definitions.
use vstd::prelude::*;

verus! {

/// An error of reading or checking an asset.
#[derive(Debug)]
pub enum AssetError {
    /// An exception was raised within Racket.
    RacketException(String),
    /// The data format of an asset is incorrect.
    FormatError(String),
    /// The data for an asset is inconsistent.
    DataError(String),
    /// IO-Error
    IOError(String),
    /// Something else went wrong.
    OtherError(String),
}

} // verus!
