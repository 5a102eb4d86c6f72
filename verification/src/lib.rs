//! A verified core for publishing an interlinked document corpus as a
//! static site: slug assignment, document-to-markup conversion with
//! cross-document link rewriting, content-addressed image localization,
//! and a breadth-first crawl over the document graph.
pub mod text;
pub mod slug;
pub mod registry;
pub mod links;
pub mod convert;
pub mod assets;
pub mod crawl;
pub mod web;
