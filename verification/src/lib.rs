//! Ingress Intel map-data client core: the tile coordinate system and the
//! batch-fetch bookkeeping, with machine-checked contracts.

pub mod cookies;
pub mod digits;
pub mod entities;
pub mod orchestrator;
pub mod tile_key;

use vstd::prelude::*;

verus! {

/// Error kinds of the client.
#[derive(Clone, Copy, Debug, PartialEq, Eq, Structural)]
pub enum Error {
    /// Transport error
    Transport,
    /// Status error
    Status,
    /// MissingFacebookUsername error
    MissingFacebookUsername,
    /// MissingFacebookPassword error
    MissingFacebookPassword,
    /// FacebookUrl error
    FacebookUrl,
    /// FirstFacebookRequest error
    FirstFacebookRequest,
    /// FirstFacebookResponse error
    FirstFacebookResponse,
    /// SecondFacebookRequest error
    SecondFacebookRequest,
    /// LoginForm error
    LoginForm,
    /// LoginFailed error
    LoginFailed,
    /// FirstIntelRequest error
    FirstIntelRequest,
    /// SecondIntelRequest error
    SecondIntelRequest,
    /// CsrfToken error
    CsrfToken,
    /// IntelApiVersion error
    IntelApiVersion,
    /// EntityRequest error
    EntityRequest,
    /// PortalDetailsRequest error
    PortalDetailsRequest,
    /// PlextsRequest error
    PlextsRequest,
    /// Deserialize error
    Deserialize,
    /// Join error
    Join,
}

} // verus!
