//! Renders a corpus of markdown documents into cross-linked HTML fragments,
//! resolving identifier-based transclusion between documents.

pub mod address;
pub mod config;
pub mod events;
pub mod laws;
pub mod meta;
pub mod resolve;
pub mod text;
pub mod translate;
