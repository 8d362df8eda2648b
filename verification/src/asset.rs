//! Source assets as the packer consumes them: a path, the raw encoded
//! bytes, a content hash computed upstream, and a media kind. Only
//! image-kind assets take part in packing.

use vstd::prelude::*;

verus! {

/// Media kind of a source asset.
#[derive(Debug, Clone, Copy, PartialEq, Eq, Structural)]
pub enum AssetKind {
    Image,
    Other,
}

/// One source asset handed to the packer by the discovery stage.
#[derive(Debug, Clone)]
pub struct Asset {
    /// Path of the source file; the file stem becomes the sprite name.
    pub path: String,
    /// Raw encoded image bytes.
    pub data: Vec<u8>,
    /// Content hash computed by the discovery stage; drives deduplication.
    pub hash: String,
    pub kind: AssetKind,
}

} // verus!
