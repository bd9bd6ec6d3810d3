//! The error type of every fallible operation, its exit codes and hints.

use vstd::prelude::*;

verus! {

#[verifier::external_type_specification]
#[verifier::external_body]
pub struct ExIoError(std::io::Error);

/// Everything that can go wrong in Nalias.
#[derive(Debug)]
pub enum NaliasError {
    NotInitialized,
    AliasNotFound(String),
    AliasExists(String),
    InvalidAliasName { name: String, reason: String },
    AliasDisabled(String),
    Recursion(String),
    Config(String),
    Installation(String),
    Execution(String),
    Cancelled,
    Io { context: String, source: std::io::Error },
}

pub type Result<T> = std::result::Result<T, NaliasError>;

/// The process exit code reported for an error.
pub open spec fn spec_exit_code(e: NaliasError) -> i32 {
    match e {
        NaliasError::AliasNotFound(_) => 3,
        NaliasError::Config(_) => 4,
        NaliasError::Execution(_) | NaliasError::Recursion(_) | NaliasError::AliasDisabled(_) => 5,
        NaliasError::Installation(_) | NaliasError::NotInitialized => 6,
        _ => 1,
    }
}

/// The text that `NaliasError` displays, for every variant but `Io`, whose
/// text ends with the operating system's description of the failure.
pub open spec fn error_text(e: NaliasError) -> Seq<char> {
    match e {
        NaliasError::NotInitialized => "Nalias is not initialized"@,
        NaliasError::AliasNotFound(n) => "alias '"@ + n@ + "' was not found"@,
        NaliasError::AliasExists(n) => "alias '"@ + n@ + "' already exists"@,
        NaliasError::InvalidAliasName { name, reason } => "invalid alias name '"@ + name@ + "': "@
            + reason@,
        NaliasError::AliasDisabled(n) => "alias '"@ + n@ + "' is disabled"@,
        NaliasError::Recursion(m) => "alias recursion detected: "@ + m@,
        NaliasError::Config(m) => "configuration error: "@ + m@,
        NaliasError::Installation(m) => "installation error: "@ + m@,
        NaliasError::Execution(m) => "could not execute alias: "@ + m@,
        NaliasError::Cancelled => "operation cancelled"@,
        NaliasError::Io { context, source } => context@ + ": "@,
    }
}

/// The operating system's description of an I/O failure (`io::Error`'s `Display`).
#[verifier::external_body]
fn io_error_text(e: &std::io::Error) -> String {
    e.to_string()
}

impl NaliasError {
    /// An I/O failure with the operation that was attempted.
    pub fn io(context: String, source: std::io::Error) -> (r: Self)
        ensures
            r == (NaliasError::Io { context, source }),
    {
        NaliasError::Io { context, source }
    }

    pub fn exit_code(&self) -> (r: i32)
        ensures
            r == spec_exit_code(*self),
    {
        match self {
            NaliasError::AliasNotFound(_) => 3,
            NaliasError::Config(_) => 4,
            NaliasError::Execution(_) | NaliasError::Recursion(_) | NaliasError::AliasDisabled(_) => 5,
            NaliasError::Installation(_) | NaliasError::NotInitialized => 6,
            _ => 1,
        }
    }

    pub fn hint(&self) -> (r: Option<&'static str>)
        ensures
            match *self {
                NaliasError::NotInitialized => r matches Some(h) && h@ == "run 'nalias init'"@,
                NaliasError::AliasExists(_) => r matches Some(h) && h@ == "use --force to replace it"@,
                NaliasError::AliasNotFound(_) => r matches Some(h) && h@
                    == "run 'nalias list' to see available aliases"@,
                _ => r is None,
            },
    {
        match self {
            NaliasError::NotInitialized => Some("run 'nalias init'"),
            NaliasError::AliasExists(_) => Some("use --force to replace it"),
            NaliasError::AliasNotFound(_) => Some("run 'nalias list' to see available aliases"),
            _ => None,
        }
    }

    /// The displayed text of the error.
    pub fn message(&self) -> (r: String)
        ensures
            !(self is Io) ==> r@ == error_text(*self),
            self is Io ==> r@.take(error_text(*self).len() as int) == error_text(*self),
    {
        let mut r = String::new();
        match self {
            NaliasError::NotInitialized => r.append("Nalias is not initialized"),
            NaliasError::AliasNotFound(n) => {
                r.append("alias '");
                r.append(n.as_str());
                r.append("' was not found");
            },
            NaliasError::AliasExists(n) => {
                r.append("alias '");
                r.append(n.as_str());
                r.append("' already exists");
            },
            NaliasError::InvalidAliasName { name, reason } => {
                r.append("invalid alias name '");
                r.append(name.as_str());
                r.append("': ");
                r.append(reason.as_str());
            },
            NaliasError::AliasDisabled(n) => {
                r.append("alias '");
                r.append(n.as_str());
                r.append("' is disabled");
            },
            NaliasError::Recursion(m) => {
                r.append("alias recursion detected: ");
                r.append(m.as_str());
            },
            NaliasError::Config(m) => {
                r.append("configuration error: ");
                r.append(m.as_str());
            },
            NaliasError::Installation(m) => {
                r.append("installation error: ");
                r.append(m.as_str());
            },
            NaliasError::Execution(m) => {
                r.append("could not execute alias: ");
                r.append(m.as_str());
            },
            NaliasError::Cancelled => r.append("operation cancelled"),
            NaliasError::Io { context, source } => {
                r.append(context.as_str());
                r.append(": ");
                let ghost head = r@;
                let detail = io_error_text(source);
                r.append(detail.as_str());
                assert(r@.take(head.len() as int) =~= head);
            },
        }
        r
    }
}

} // verus!
