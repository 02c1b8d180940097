//! Recovers the placement of embedded raster images inside a spreadsheet
//! package: for every worksheet, a mapping from an image's anchor cell
//! `(column, row)` to the absolute paths of the image files anchored there.
//!
//! The package is a ZIP container holding cross-referencing XML documents
//! (workbook manifest, per-worksheet relationship files, drawing documents,
//! drawing relationship files). Staging the archive on disk and reading the
//! staged files is left to the caller; this crate holds the verified
//! cross-document resolution pipeline that joins those documents through
//! relationship identifiers and namespace-tolerant tag matching.

pub mod errors;
pub mod parse_xml;
pub mod structs;
pub mod strutil;
pub mod xml;

pub use structs::ImgLoader;
pub use structs::XlsxPath;
