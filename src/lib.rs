//! Compression of observation records into the compact, differentially
//! encoded observation format.
pub mod error;
pub mod numdiff;
pub mod text;
pub mod textdiff;
pub mod sv;
pub mod registry;
pub mod compressor;
