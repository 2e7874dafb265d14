//! Grex: a flat, line-oriented form of XML documents.
pub mod document;
pub mod grex;
pub mod line;
pub mod resolve;
pub mod roundtrip;
pub mod text;
pub mod ungrex;
pub mod xpath;
