//! Error kinds of the library. Path validation failures are reported
//! before a load starts; the `IoError` kinds abort a load. Dangling
//! references are not errors and never appear here: they are dropped at
//! the join step.

use vstd::prelude::*;
use vstd::string::*;

verus! {

/// Rejection of a candidate package path: wrong extension, or no file.
#[derive(Debug)]
pub enum XlsxPathParseError {
    InvalidFormat { expected: String, found: String },
    FileNotFound { path: String },
}

/// A fatal condition met while loading a package.
#[derive(Debug)]
pub enum IoError {
    /// The staging directory could not be created.
    CreateTempDirError { msg: String },
    /// The package archive could not be read or unpacked.
    UnzipXlsxError { msg: String },
    /// The workbook manifest is unreadable, unparsable, or a sheet entry
    /// is missing a required attribute or carries a non-integer id.
    ManifestError { msg: String },
    /// A drawing document exists but cannot be parsed.
    DrawingError { path: String },
    /// A referenced image file is absent from the media directory.
    MissingImage { path: String },
}

impl XlsxPathParseError {
    /// A diagnostic line naming the rejected input.
    pub fn message(&self) -> (r: String)
        ensures
            self matches XlsxPathParseError::InvalidFormat { expected, found } ==> r@
                == "invalid format. (expected "@ + expected@ + ", found "@ + found@ + ")"@,
            self matches XlsxPathParseError::FileNotFound { path } ==> r@
                == "path provided is not a file: "@ + path@,
    {
        match self {
            XlsxPathParseError::InvalidFormat { expected, found } => {
                let mut s: String = "invalid format. (expected ".to_owned();
                s.append(expected.as_str());
                s.append(", found ");
                s.append(found.as_str());
                s.append(")");
                s
            },
            XlsxPathParseError::FileNotFound { path } => {
                let mut s: String = "path provided is not a file: ".to_owned();
                s.append(path.as_str());
                s
            },
        }
    }
}

impl IoError {
    /// A diagnostic line with enough context to name the offending path.
    pub fn message(&self) -> (r: String)
        ensures
            self matches IoError::CreateTempDirError { msg } ==> r@ == "failed to create temp dir: "@
                + msg@,
            self matches IoError::UnzipXlsxError { msg } ==> r@ == "failed to unzip package: "@
                + msg@,
            self matches IoError::ManifestError { msg } ==> r@ == "workbook manifest corrupt: "@
                + msg@,
            self matches IoError::DrawingError { path } ==> r@ == "drawing document corrupt: "@
                + path@,
            self matches IoError::MissingImage { path } ==> r@ == "image file missing: "@ + path@,
    {
        match self {
            IoError::CreateTempDirError { msg } => {
                let mut s: String = "failed to create temp dir: ".to_owned();
                s.append(msg.as_str());
                s
            },
            IoError::UnzipXlsxError { msg } => {
                let mut s: String = "failed to unzip package: ".to_owned();
                s.append(msg.as_str());
                s
            },
            IoError::ManifestError { msg } => {
                let mut s: String = "workbook manifest corrupt: ".to_owned();
                s.append(msg.as_str());
                s
            },
            IoError::DrawingError { path } => {
                let mut s: String = "drawing document corrupt: ".to_owned();
                s.append(path.as_str());
                s
            },
            IoError::MissingImage { path } => {
                let mut s: String = "image file missing: ".to_owned();
                s.append(path.as_str());
                s
            },
        }
    }
}

} // verus!
