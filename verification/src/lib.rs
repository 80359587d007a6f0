//! Verified core of the desktop app's Spotify connection and agent-template
//! commands: text primitives, the Spotify credential and status, the OAuth
//! request and callback, PKCE, and the agent-template catalog.
pub mod oauth;
pub mod pkce;
pub mod spotify;
pub mod templates;
pub mod text;
