//! Verified core of a parallel chunked-upload engine.
//!
//! A large byte source is split into contiguous parts, each part is uploaded
//! as one remote operation, and the collected per-part completion tokens are
//! committed as one logical object.  This crate holds the logic that can be
//! reasoned about locally: partition planning, bounded range reading,
//! session bookkeeping and the finalize decision.  The remote store calls
//! themselves are performed by a thin unverified driver around this crate.

use vstd::prelude::*;

pub mod etag;
pub mod plan;
pub mod reader;
pub mod session;

verus! {

/// The error taxonomy of the upload engine.
#[derive(Clone, Copy, Debug, PartialEq, Eq, Structural)]
pub enum UploadError {
    /// Planning-time input error: zero parts, or more parts than bytes.
    InvalidPartition,
    /// A remote call failed at the transport or store level.
    TransportError,
    /// The store accepted a part or object but returned no identifying tag.
    MissingTag,
    /// The store initiated a session but returned no upload id.
    NoUploadId,
    /// The store rejected the completed part list at finalize time.
    IncompleteUpload,
}

} // verus!
