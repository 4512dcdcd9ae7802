//! The error taxonomy shared by every component of the store.

use vstd::prelude::*;

verus! {

/// One error kind per failure class of the store: local I/O, framing and
/// checksum violations, peer-reported RPC failures, malformed endpoints,
/// configuration problems, semantic namespace violations, command-line
/// misuse, and the transient back-off signal sent while replication of a
/// block is still catching up.
#[derive(Debug, Clone, PartialEq, Eq)]
pub enum CudddlyError {
    IOError(String),
    RPCError(String),
    AddressParseError(String),
    ConfigError(String),
    FSError(String),
    ArgMissingError(String),
    WaitingForReplication(String),
    ProtoError(String),
}

pub type CuddlyResult<T> = Result<T, CudddlyError>;

/// How an error travels over the RPC transport: the transient back-off
/// signal is mapped to the transport's unavailable class, so standard
/// client-side retry logic applies; every other error is the caller's fault.
pub enum TransportClass {
    Unavailable,
    InvalidArgument,
}

impl CudddlyError {
    /// The human-readable text carried by the error.
    pub fn message(&self) -> (r: &String)
        ensures
            r@ == self.spec_message(),
    {
        match self {
            CudddlyError::IOError(m) => m,
            CudddlyError::RPCError(m) => m,
            CudddlyError::AddressParseError(m) => m,
            CudddlyError::ConfigError(m) => m,
            CudddlyError::FSError(m) => m,
            CudddlyError::ArgMissingError(m) => m,
            CudddlyError::WaitingForReplication(m) => m,
            CudddlyError::ProtoError(m) => m,
        }
    }

    /// The transport class of the error: unavailable exactly for the
    /// waiting-for-replication back-off, an invalid argument otherwise.
    pub fn transport_class(&self) -> (r: TransportClass)
        ensures
            r is Unavailable <==> self is WaitingForReplication,
    {
        match self {
            CudddlyError::WaitingForReplication(_) => TransportClass::Unavailable,
            _ => TransportClass::InvalidArgument,
        }
    }

    /// The text of the error as a sequence of characters.
    pub open spec fn spec_message(&self) -> Seq<char> {
        match self {
            CudddlyError::IOError(m) => m@,
            CudddlyError::RPCError(m) => m@,
            CudddlyError::AddressParseError(m) => m@,
            CudddlyError::ConfigError(m) => m@,
            CudddlyError::FSError(m) => m@,
            CudddlyError::ArgMissingError(m) => m@,
            CudddlyError::WaitingForReplication(m) => m@,
            CudddlyError::ProtoError(m) => m@,
        }
    }
}

} // verus!
