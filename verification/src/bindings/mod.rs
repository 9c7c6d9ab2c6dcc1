//! What bindings for other languages are made of: a result code and a
//! builder whose operations take plain values.
pub mod error;
pub mod mst_builder;
