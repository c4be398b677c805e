//! A small HTTP request core: a line-oriented request parser and a
//! method/path router, both specified against a sequence-level model
//! of the raw input text.

pub mod headers;
pub mod httprequest;
pub mod router;
pub mod strutil;
