use vstd::prelude::*;

verus! {

/// Every way an invocation can fail.  All of them abort the invocation;
/// none is retried or recovered from.
#[derive(Clone, Copy, Debug, PartialEq, Eq, Structural)]
pub enum SyncError {
    /// The remote store is unreachable.
    Connection,
    /// The remote store rejected the credentials.
    Auth,
    /// The remote store answered with a malformed or truncated response.
    Transport,
    /// The remote store refused a single-key write.
    WriteRejected,
    /// The local snapshot store failed to open, write or flush.
    Storage,
}

impl SyncError {
    /// A short human-readable account of the failure, for the error stream.
    pub fn describe(&self) -> (r: String)
        ensures
            r@ == match *self {
                SyncError::Connection => "remote store unreachable"@,
                SyncError::Auth => "remote store rejected the credentials"@,
                SyncError::Transport => "malformed response from the remote store"@,
                SyncError::WriteRejected => "remote store refused the write"@,
                SyncError::Storage => "local snapshot store failed"@,
            },
    {
        match *self {
            SyncError::Connection => "remote store unreachable".to_owned(),
            SyncError::Auth => "remote store rejected the credentials".to_owned(),
            SyncError::Transport => "malformed response from the remote store".to_owned(),
            SyncError::WriteRejected => "remote store refused the write".to_owned(),
            SyncError::Storage => "local snapshot store failed".to_owned(),
        }
    }
}

} // verus!
