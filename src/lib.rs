//! Per-file and per-directory key/value annotations kept in one line-oriented
//! text file per directory.

pub mod text;
pub mod model;
pub mod parse;
pub mod serialize;
pub mod stamp;
pub mod laws;
pub mod display;

pub use model::{AnnoError, Annotation, AnnotationView, Annovate, StoreView};
