//! A local command-and-file execution gateway: file, version-control and
//! shell operations issued by a semi-trusted client are confined to one
//! sandbox directory ("safe orbit") and a fixed list of permitted
//! executables.
//!
//! The crate holds the decision logic of the gateway, verified: path
//! containment, the command allow/block lists, the binary-text codec, the
//! metrics line codec and the telemetry parsers. The surrounding process
//! (argument handling, filesystem access, process spawning) lives outside
//! and hands this library plain values.

pub mod codec;
mod errors;
pub mod files;
pub mod metrics;
pub mod paths;
pub mod policy;
pub mod strutil;
pub mod telemetry;

pub use errors::GatewayError;
