//! A media catalog engine: folders of images with artist, link and tag
//! metadata, an inverted tag index, a tag query evaluator, selection and
//! navigation over query results, and the line protocol that drives the
//! metadata-editing sidecar process.

pub mod address;
pub mod text;
pub mod image;
pub mod catalog;
pub mod protocol;
pub mod json;
pub mod shared;
pub mod tally;
pub mod icon;
