//! Reading of a World of Warcraft addon directory.
//!
//! The library decides: which files of an addon count for its fingerprint, what that fingerprint
//! is, what a TOC file says, which addons a repository is asked about, and how its answers are put
//! together. It does no input or output; where something outside is needed in the course of a
//! decision, the library asks for it and is told the answer.

pub mod addon;
pub mod directory;
pub mod expressions;
pub mod find;
pub mod fingerprint;
pub mod includes;
pub mod link;
pub mod murmur2;
pub mod patterns;
pub mod regexes;
pub mod scan;
pub mod sizes;
pub mod skips;
pub mod text;
pub mod toc;
pub mod world;

pub use crate::addon::Addon;
pub use crate::directory::read_addon_directory;
pub use crate::fingerprint::{update_addon_fingerprint, Fingerprint, FingerprintCollection};
pub use crate::patterns::ParsingPatterns;
