//! The error type shared by the chunk store, the credential vault and the
//! persistence envelope.

use vstd::prelude::*;

verus! {

/// Every failure the library reports, one variant per kind.
#[derive(Debug, Clone)]
pub enum DatabaseError {
    /// The filename is not present in the file index.
    FileNotFound(String),
    /// The file index references a cube id that the store does not hold.
    CubeNotFound(String),
    /// A catch-all for failures outside the other kinds.
    Other(String),
    /// An underlying read or write failed.
    IoError(String),
    /// The password-hashing primitive reported an error.
    HashingError(String),
    /// The username is not present in the vault.
    UserNotFound,
    /// The supplied password does not match the stored hash.
    AuthenticationFailed,
    /// A lock guarding the shared state could not be acquired.
    LockFailed,
    /// The username is already registered.
    DuplicateUser,
    /// An argument was outside the accepted range.
    InvalidArgument,
    /// The envelope failed authentication: wrong key, corrupted bytes or
    /// broken nonce framing.
    DecryptionFailed,
}

impl DatabaseError {
    /// A human-readable description of the error.
    pub fn message(&self) -> (r: String)
        ensures
            r@.len() > 0 || (match self {
                DatabaseError::FileNotFound(f) => f@.len() == 0,
                DatabaseError::CubeNotFound(c) => c@.len() == 0,
                DatabaseError::Other(m) => m@.len() == 0,
                DatabaseError::IoError(m) => m@.len() == 0,
                DatabaseError::HashingError(m) => m@.len() == 0,
                _ => false,
            }),
    {
        match self {
            DatabaseError::FileNotFound(filename) => {
                let mut m = String::from_str("File not found: ");
                m.append(filename.as_str());
                proof {
                    reveal_strlit("File not found: ");
                }
                m
            },
            DatabaseError::CubeNotFound(cube_id) => {
                let mut m = String::from_str("Cube not found: ");
                m.append(cube_id.as_str());
                proof {
                    reveal_strlit("Cube not found: ");
                }
                m
            },
            DatabaseError::Other(message) => {
                let mut m = String::from_str("Other error: ");
                m.append(message.as_str());
                proof {
                    reveal_strlit("Other error: ");
                }
                m
            },
            DatabaseError::IoError(message) => {
                let mut m = String::from_str("IO error: ");
                m.append(message.as_str());
                proof {
                    reveal_strlit("IO error: ");
                }
                m
            },
            DatabaseError::HashingError(message) => {
                let mut m = String::from_str("Hashing error: ");
                m.append(message.as_str());
                proof {
                    reveal_strlit("Hashing error: ");
                }
                m
            },
            DatabaseError::UserNotFound => {
                proof {
                    reveal_strlit("User not found");
                }
                String::from_str("User not found")
            },
            DatabaseError::AuthenticationFailed => {
                proof {
                    reveal_strlit("Authentication failed");
                }
                String::from_str("Authentication failed")
            },
            DatabaseError::LockFailed => {
                proof {
                    reveal_strlit("Failed to acquire lock");
                }
                String::from_str("Failed to acquire lock")
            },
            DatabaseError::DuplicateUser => {
                proof {
                    reveal_strlit("User already exists");
                }
                String::from_str("User already exists")
            },
            DatabaseError::InvalidArgument => {
                proof {
                    reveal_strlit("Invalid argument");
                }
                String::from_str("Invalid argument")
            },
            DatabaseError::DecryptionFailed => {
                proof {
                    reveal_strlit("Decryption failed");
                }
                String::from_str("Decryption failed")
            },
        }
    }
}

} // verus!
