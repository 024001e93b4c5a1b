//! Visual near-duplicate detection for an image repository: perceptual
//! fingerprints over decoded pixel grids, locality-sensitive bucket indexing,
//! a signature store with bucket-overlap retrieval, similarity ranking, and a
//! pipeline that combines a checksum exact-match short circuit with ranked
//! similarity search.
use vstd::prelude::*;

pub mod grid;
pub mod decode;
pub mod fingerprint;
pub mod words;
pub mod matcher;
pub mod store;
pub mod pipeline;
pub mod user_token;

verus! {

/// Error classes of the detection subsystem.
#[derive(Clone, Copy, Debug, PartialEq, Eq, Structural)]
pub enum Error {
    /// The content bytes could not be decoded into a pixel grid, or the grid
    /// has zero area.
    Decode,
    /// A second signature insert was attempted for a content id that already
    /// holds one.
    DuplicateSignatureViolation,
    /// A configured similarity threshold lies outside the interval (0, 1].
    InvalidThresholdConfig,
}

/// Entities addressed by a serial integer identifier.
pub trait IntegerIdentifiable {
    /// The identifier, as specifications see it.
    spec fn spec_id(&self) -> i32;

    /// Returns the entity's integer identifier.
    fn id(&self) -> (r: i32)
        ensures
            r == self.spec_id(),
    ;
}

/// The kinds of uploaded content the repository accepts. Only raster kinds
/// carry a visual signature.
#[derive(Clone, Copy, Debug, PartialEq, Eq, Structural)]
pub enum ContentType {
    Image,
    Animation,
    Flash,
    Video,
    Youtube,
}

impl ContentType {
    /// Whether content of this type carries a visual signature.
    pub open spec fn spec_supports_signature(self) -> bool {
        self == ContentType::Image || self == ContentType::Animation
    }

    /// Whether content of this type carries a visual signature.
    pub fn supports_signature(self) -> (r: bool)
        ensures
            r == self.spec_supports_signature(),
    {
        match self {
            ContentType::Image | ContentType::Animation => true,
            ContentType::Flash | ContentType::Video | ContentType::Youtube => false,
        }
    }
}

} // verus!
