//! Reading CAJ-family academic journal files (CAJ, HN, C8, KDH, PDF, TEB)
//! and turning them into the parts of a PDF.

mod bindings;

pub use bindings::{gbk_decoded, zlib_inflated};
pub mod types;

pub use types::{
    CajError, CajResult, DecodedImage, FileFormat, ImageKind, OutlineEntry, Page, RawImage,
};
pub mod bytes;
pub mod text;
pub mod hn_page;
pub mod format;
pub mod document;
pub mod caj;
pub mod hn;
pub use document::CajDocument;
pub use format::detect_format;
mod jbig1_tables;
pub mod jbig1_codec;
pub mod jbig1;
pub mod jbig2;
pub mod pdf;
pub mod builder;
pub mod convert;
pub mod gui;
