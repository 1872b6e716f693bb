//! Core logic of a small wiki: page-id decoding, HTML escaping, and the
//! conversion of the wiki markup ("wtml") into HTML.

pub mod base62;
pub mod text;
pub mod escape;
pub mod links;
pub mod urls;
pub mod urlenc;
pub mod line;
pub mod lines;
pub mod wtml;
pub mod page;
