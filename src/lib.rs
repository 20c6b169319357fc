//! A layered key-value settings store: a tree of typed values addressed by
//! dot-separated key paths, with flattening, overlay merging and a two-tier
//! (global / local) shadowing store.
//!
//! The library works in memory. Encoding and decoding go through a user's
//! implementation of [`Format`]; reading and writing files is left to the
//! caller.
pub mod error;
pub mod format;
pub mod path;
pub mod paths;
pub mod rebuild;
pub mod settings;
pub mod shadow;
pub mod subsetting;
pub mod tree;
pub mod value;

pub use error::Error;
pub use format::Format;
pub use settings::Settings;
pub use shadow::ShadowSettings;
pub use subsetting::Subsetting;
pub use value::{Dict, SupportedType, Type, Val};
