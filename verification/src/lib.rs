//! Recovery of ZIP archives that went through a text-mode transfer.
//!
//! Such a transfer puts a carriage return in front of every line feed that has
//! none. The library finds out which carriage returns were put in and which
//! belong to the archive, and takes out the former.
//!
//! What tells them apart are the entries: their headers, and the checksums of their
//! contents. Nothing tells of what stands behind the last entry's contents, the central
//! directory and the end record: a carriage return in front of a line feed there is
//! taken for one that was put in.

pub mod beam;
pub mod bytes;
pub mod candidate;
pub mod checksum;
pub mod corrupt;
pub mod directory;
pub mod feeding;
pub mod follow;
pub mod headers;
pub mod keep;
pub mod layout;
pub mod leader;
pub mod mask;
pub mod natural;
pub mod oracle;
pub mod per_file;
pub mod png;
pub mod positions;
pub mod prune;
pub mod rank;
pub mod recover;
pub mod rejection;
pub mod sampling;
pub mod selftest;
pub mod settled;
pub mod splice;
pub mod strategies;
pub mod survive;
pub mod text;
pub mod undo;
pub mod unpack;
pub mod zip_util;
