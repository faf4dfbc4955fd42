//! A torrent-session engine: identity derivation for magnet URIs and metadata
//! files, a registry of admitted torrents, lifecycle operations and a
//! progress reporter that publishes events in emission order.
pub mod engine;
pub mod error;
pub mod magnet;
pub mod metadata;
pub mod nesting;
