//! Reading, building and converting MST asset archives.
//!
//! An archive is a magic value that selects the byte order, a packed version
//! word, a fixed header, a revision-specific entry table and a content region
//! whose blocks start on 2048-byte boundaries.
pub mod actions;
pub mod ape;
pub mod bindings;
pub mod codec;
pub mod error;
pub mod mst;
pub mod rdg;
pub mod record;
pub mod util;
