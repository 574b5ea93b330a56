//! A static site builder: front-matter parsing, text normalisation before
//! markup rendering, heading anchors and tables of contents, and the decisions
//! of a site build (classification, date checks, draft filtering, ordering).

mod strutil;
pub mod text;
pub mod html;
pub mod metadata;
pub mod document;
pub mod site;
