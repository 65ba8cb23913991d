//! The failures that the store and the protocol report.
use vstd::prelude::*;
use vstd::string::*;

verus! {

/// A failure of the store, of the wire protocol, or of startup.
#[derive(Debug, PartialEq, Eq)]
pub enum KvError {
    /// A file or socket operation failed.
    Io(String),
    /// A log record or a message payload is not in the expected form.
    Serialization(String),
    /// Remove of a key that the store does not hold.
    NotFound(String),
    /// The index points at a record that is not a `Set`.
    UnexpectedCommand,
    /// A length prefix is malformed, too large, or promises more bytes than came.
    Framing(String),
    /// The requested engine differs from the one whose data the directory holds.
    EngineMismatch,
    /// Any other failure.
    Other(String),
}

/// The text shown for a remove of the absent key `k`.
pub open spec fn not_found_message(k: Seq<char>) -> Seq<char> {
    seq!['K', 'e', 'y', ' ', 'n', 'o', 't', ' ', 'f', 'o', 'u', 'n', 'd', ':', ' '] + k
}

/// The text shown for a failure.
pub open spec fn error_message(e: KvError) -> Seq<char> {
    match e {
        KvError::Io(m) => seq!['I', 'O', ' ', 'e', 'r', 'r', 'o', 'r', ':', ' '] + m@,
        KvError::Serialization(m) => seq!['M', 'a', 'l', 'f', 'o', 'r', 'm', 'e', 'd', ':', ' ']
            + m@,
        KvError::NotFound(k) => not_found_message(k@),
        KvError::UnexpectedCommand => seq![
            'U', 'n', 'e', 'x', 'p', 'e', 'c', 't', 'e', 'd', ' ', 'c', 'o', 'm', 'm', 'a', 'n', 'd',
        ],
        KvError::Framing(m) => seq!['F', 'r', 'a', 'm', 'i', 'n', 'g', ':', ' '] + m@,
        KvError::EngineMismatch => seq![
            'E', 'n', 'g', 'i', 'n', 'e', ' ', 'm', 'i', 's', 'm', 'a', 't', 'c', 'h',
        ],
        KvError::Other(m) => m@,
    }
}

impl KvError {
    /// The text shown for this failure.
    pub fn message(&self) -> (r: String)
        ensures
            r@ == error_message(*self),
    {
        let mut s: String;
        match self {
            KvError::Io(m) => {
                s = String::from_str("IO error: ");
                proof {
                    reveal_strlit("IO error: ");
                }
                s.append(m.as_str());
            },
            KvError::Serialization(m) => {
                s = String::from_str("Malformed: ");
                proof {
                    reveal_strlit("Malformed: ");
                }
                s.append(m.as_str());
            },
            KvError::NotFound(k) => {
                s = String::from_str("Key not found: ");
                proof {
                    reveal_strlit("Key not found: ");
                }
                s.append(k.as_str());
            },
            KvError::UnexpectedCommand => {
                s = String::from_str("Unexpected command");
                proof {
                    reveal_strlit("Unexpected command");
                }
            },
            KvError::Framing(m) => {
                s = String::from_str("Framing: ");
                proof {
                    reveal_strlit("Framing: ");
                }
                s.append(m.as_str());
            },
            KvError::EngineMismatch => {
                s = String::from_str("Engine mismatch");
                proof {
                    reveal_strlit("Engine mismatch");
                }
            },
            KvError::Other(m) => {
                s = String::from_str(m.as_str());
            },
        }
        assert(s@ =~= error_message(*self));
        s
    }
}

} // verus!
