//! A queryable mirror of AUR package metadata.
//!
//! The crate harvests `.SRCINFO` files from the AUR git mirror by speaking
//! version 2 of the git upload-pack wire protocol, decoding the returned
//! packfile stream, and extracting for each commit the `.SRCINFO` blob and the
//! committer timestamp.  Extracted records are kept in a relational index with
//! a version-triggered schema reset and enriched from a supplemental snapshot.
//!
//! All network and file I/O lives outside this crate; the functions here work
//! on plain values (bytes received, bytes to send, rows to store) so that the
//! protocol, the decoder and the index rules can be verified.

pub mod branches;
pub mod errors;
pub mod ext;
pub mod harvest;
pub mod ids;
pub mod objects;
pub mod pack;
pub mod pktline;
pub mod store;
pub mod supplement;
pub mod text;
pub mod types;
pub mod wire;
