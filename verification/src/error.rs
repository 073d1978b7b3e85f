//! The failures a resolution can report.

use vstd::prelude::*;

verus! {

/// Why a path was rejected (or could not be resolved).
#[derive(Debug)]
pub enum JailError {
    /// The fully resolved path is not a descendant of the jail root.  Carries
    /// the attempted path and the root, for diagnostics.
    EscapedRoot { attempted: String, root: String },
    /// The input violates a precondition independent of filesystem state,
    /// e.g. an absolute path where a relative one was required.
    InvalidPath(String),
    /// An underlying filesystem probe failed; carries its message.
    Io(String),
}

impl JailError {
    /// The text of `message` for each variant.
    pub open spec fn spec_message(&self) -> Seq<char> {
        match self {
            JailError::EscapedRoot { attempted, root } => "path '"@ + attempted@
                + "' escapes jail root '"@ + root@ + "'"@,
            JailError::InvalidPath(reason) => "invalid path: "@ + reason@,
            JailError::Io(msg) => "io error: "@ + msg@,
        }
    }

    /// A human-readable description of the failure.
    pub fn message(&self) -> (r: String)
        ensures
            r@ == self.spec_message(),
    {
        let mut out = String::new();
        match self {
            JailError::EscapedRoot { attempted, root } => {
                out.append("path '");
                out.append(attempted.as_str());
                out.append("' escapes jail root '");
                out.append(root.as_str());
                out.append("'");
            },
            JailError::InvalidPath(reason) => {
                out.append("invalid path: ");
                out.append(reason.as_str());
            },
            JailError::Io(msg) => {
                out.append("io error: ");
                out.append(msg.as_str());
            },
        }
        proof {
            assert(out@ =~= self.spec_message());
        }
        out
    }
}

} // verus!
