//! Font catalog helper: sfnt parsing, collection repacking, catalog ordering
//! and the small HTTP/JSON surface that serves installed fonts locally.

pub mod bytes;
pub mod text;
pub mod render;
pub mod sfnt;
pub mod repack;
pub mod names;
pub mod fnv;
pub mod axes;
pub mod face;
pub mod catalog;
pub mod json;
pub mod http;
pub mod cli;
