use vstd::prelude::*;

use crate::ids::ObjectId;

verus! {

/// The fatal failures a harvest can surface.
///
/// Blob-parse failures are deliberately absent: a blob whose content cannot be
/// decoded is skipped, not fatal to the batch.  HTTP-level failures are raised
/// by the caller that performs the request, before any bytes reach this crate.
#[derive(Debug)]
pub enum HarvestError {
    /// A packet-line was not framed as four hex digits plus payload.
    WireFraming,
    /// The response ended without ever presenting a `packfile` section.
    NoPackSection,
    /// The server sent a sideband-3 message; its bytes are preserved.
    UpstreamError(Vec<u8>),
    /// The packfile header, an entry header, an inflated body or a delta was
    /// malformed, or the trailing checksum did not match.
    PackDecode,
    /// A commit object lacked its `tree` line or its `committer` timestamp.
    CommitShape(ObjectId),
    /// A caller-supplied commit id was not a 40-digit hex string.
    MalformedInputId,
}

} // verus!
