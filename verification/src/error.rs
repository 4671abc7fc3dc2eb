use vstd::prelude::*;
use vstd::string::StringExecFns;

verus! {

/// The error taxonomy of the key-value service.
///
/// `NotFound` and `InvalidCommand` have dedicated response status codes;
/// every other variant surfaces as an internal (500) response or as a
/// connection-level failure.
#[derive(Debug)]
pub enum KvError {
    /// A lookup or delete named a `(table, key)` pair that is absent.
    NotFound(String, String),
    /// The request carried no data or malformed data.
    InvalidCommand(String),
    /// A value could not be converted to the requested kind.
    ConvertError(String, &'static str),
    /// The storage backend failed.
    StorageError(String),
    /// A message could not be encoded.
    EncodeError(String),
    /// A message could not be decoded.
    DecodeError(String),
    /// A frame was over-sized, truncated, or otherwise unreadable.
    FrameError(String),
    /// A certificate or private key could not be loaded.
    CertifcateParseError(&'static str, &'static str),
    /// Any other internal failure.
    Internal(String),
}

/// The rendered message of a `NotFound` error.
pub open spec fn spec_not_found_message(table: Seq<char>, key: Seq<char>) -> Seq<char> {
    "Not found for table: "@ + table + ", key: "@ + key
}

/// The rendered message of an `InvalidCommand` error.
pub open spec fn spec_invalid_command_message(desc: Seq<char>) -> Seq<char> {
    "Cannot parse command: "@ + desc
}

/// The rendered message of a `ConvertError`.
pub open spec fn spec_convert_message(source: Seq<char>, target: Seq<char>) -> Seq<char> {
    "Cannot convert value "@ + source + " to "@ + target
}

/// The rendered message of a `KvError`, as a sequence of characters.
pub open spec fn spec_error_message(e: &KvError) -> Seq<char> {
    match e {
        KvError::NotFound(table, key) => spec_not_found_message(table@, key@),
        KvError::InvalidCommand(desc) => spec_invalid_command_message(desc@),
        KvError::ConvertError(source, target) => spec_convert_message(source@, target@),
        KvError::StorageError(detail) => "Failed to access storage: "@ + detail@,
        KvError::EncodeError(detail) => "Failed to encode message: "@ + detail@,
        KvError::DecodeError(detail) => "Failed to decode message: "@ + detail@,
        KvError::FrameError(detail) => "Frame error: "@ + detail@,
        KvError::CertifcateParseError(part, kind) => "Certificate parse error: error to load "@
            + part@ + " "@ + kind@,
        KvError::Internal(detail) => "Internal error: "@ + detail@,
    }
}

/// The response status code of an error: not-found and invalid-command have
/// dedicated codes, everything else is internal.
pub open spec fn spec_error_status(e: &KvError) -> u32 {
    match e {
        KvError::NotFound(_, _) => crate::STATUS_NOT_FOUND,
        KvError::InvalidCommand(_) => crate::STATUS_BAD_REQUEST,
        _ => crate::STATUS_INTERNAL,
    }
}

impl KvError {
    /// The response status code of this error.
    pub fn status(&self) -> (r: u32)
        ensures
            r == spec_error_status(self),
    {
        match self {
            KvError::NotFound(_, _) => crate::STATUS_NOT_FOUND,
            KvError::InvalidCommand(_) => crate::STATUS_BAD_REQUEST,
            _ => crate::STATUS_INTERNAL,
        }
    }

    /// Renders the error as a human-readable message.
    pub fn message(&self) -> (r: String)
        ensures
            r@ == spec_error_message(self),
    {
        match self {
            KvError::NotFound(table, key) => {
                let mut s = String::from_str("Not found for table: ");
                s.append(table.as_str());
                s.append(", key: ");
                s.append(key.as_str());
                s
            },
            KvError::InvalidCommand(desc) => {
                let mut s = String::from_str("Cannot parse command: ");
                s.append(desc.as_str());
                s
            },
            KvError::ConvertError(source, target) => {
                let mut s = String::from_str("Cannot convert value ");
                s.append(source.as_str());
                s.append(" to ");
                s.append(target);
                s
            },
            KvError::StorageError(detail) => {
                let mut s = String::from_str("Failed to access storage: ");
                s.append(detail.as_str());
                s
            },
            KvError::EncodeError(detail) => {
                let mut s = String::from_str("Failed to encode message: ");
                s.append(detail.as_str());
                s
            },
            KvError::DecodeError(detail) => {
                let mut s = String::from_str("Failed to decode message: ");
                s.append(detail.as_str());
                s
            },
            KvError::FrameError(detail) => {
                let mut s = String::from_str("Frame error: ");
                s.append(detail.as_str());
                s
            },
            KvError::CertifcateParseError(part, kind) => {
                let mut s = String::from_str("Certificate parse error: error to load ");
                s.append(part);
                s.append(" ");
                s.append(kind);
                s
            },
            KvError::Internal(detail) => {
                let mut s = String::from_str("Internal error: ");
                s.append(detail.as_str());
                s
            },
        }
    }
}

} // verus!
