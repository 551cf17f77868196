//! Compiler-style diagnostics over a single source text: byte ranges are
//! attached to the line that owns them and rendered as caret-underlined
//! blocks.
//!
//! An [`AnnotationList`] splits the text into lines once, takes annotations
//! through [`AnnotationList::add`] and its shorthands, and prints them with
//! [`AnnotationList::show`], [`AnnotationList::to_bytes`] and their kin.

pub mod annotation;
pub mod decimal;
pub mod error;
pub mod line;
pub mod list;
pub mod render;
pub mod sink;
pub mod stylesheet;

pub use annotation::{Annotation, AnnotationText, Severity};
pub use error::Error;
pub use line::AnnotatedLine;
pub use list::AnnotationList;
pub use stylesheet::{Color, Style, Stylesheet};
