//! A typed remote-procedure framework: procedures built from middleware and a
//! resolver, assembled into a router, validated at build time and executed as a
//! sequence of frames.
pub mod cache;
pub mod execute;
pub mod laws;
pub mod path;
pub mod procedure;
pub mod router;
pub mod source_map;
pub mod subscriptions;
pub mod typescript;
