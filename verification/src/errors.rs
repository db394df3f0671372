use vstd::prelude::*;
use vstd::string::StringExecFns;

verus! {

/// The error taxonomy of the gateway. Policy rejections (`OutOfOrbit`,
/// `CommandNotAllowed`, `RemoteOpDisabled`, `DisallowedToken`) surface
/// verbatim to the caller and are never retried. `SpawnFailure` and
/// `IoFailure` carry the underlying OS message.
#[derive(Debug)]
pub enum GatewayError {
    /// A path resolved outside the sandbox root.
    OutOfOrbit,
    /// A path held a root or drive-prefix component where none is allowed.
    InvalidPath,
    /// The user's home directory could not be resolved.
    HomeUnresolvable,
    /// The requested path does not exist.
    NotFound,
    /// The requested path exists but is not of the required kind.
    WrongType,
    /// Content could not be decoded under the requested encoding.
    EncodingError,
    /// The target already exists and overwriting was not requested.
    AlreadyExists,
    /// The program is not on the allow-list.
    CommandNotAllowed,
    /// The version-control subcommand is on the block-list of remote
    /// network operations.
    RemoteOpDisabled,
    /// No version-control subcommand was given.
    MissingSubcommand,
    /// An argument held a shell-chaining metacharacter.
    DisallowedToken,
    /// The requested working directory does not exist.
    WorkingDirNotFound,
    /// The process could not be spawned; holds the OS message.
    SpawnFailure(String),
    /// A filesystem operation failed; holds the OS message.
    IoFailure(String),
}

impl GatewayError {
    /// A human-readable description of the error.
    pub fn message(&self) -> String {
        match self {
            GatewayError::OutOfOrbit => String::from_str("path escapes the safe orbit"),
            GatewayError::InvalidPath => String::from_str("invalid path"),
            GatewayError::HomeUnresolvable => String::from_str(
                "the user's home directory could not be resolved",
            ),
            GatewayError::NotFound => String::from_str("the requested path does not exist"),
            GatewayError::WrongType => String::from_str(
                "the requested path is not of the required kind",
            ),
            GatewayError::EncodingError => String::from_str(
                "content could not be decoded under the requested encoding",
            ),
            GatewayError::AlreadyExists => String::from_str(
                "the target already exists and overwrite is disabled",
            ),
            GatewayError::CommandNotAllowed => String::from_str(
                "command not permitted by the security policy",
            ),
            GatewayError::RemoteOpDisabled => String::from_str(
                "remote version-control operations are disabled",
            ),
            GatewayError::MissingSubcommand => String::from_str(
                "a version-control subcommand must be given",
            ),
            GatewayError::DisallowedToken => String::from_str(
                "an argument holds a disallowed shell operator",
            ),
            GatewayError::WorkingDirNotFound => String::from_str(
                "the requested working directory does not exist",
            ),
            GatewayError::SpawnFailure(msg) => msg.clone(),
            GatewayError::IoFailure(msg) => msg.clone(),
        }
    }
}

} // verus!
