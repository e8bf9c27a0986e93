use vstd::prelude::*;

verus! {

/// What can go wrong in preparing, signing, reading or tracking an upload.
#[derive(Debug, Clone, Copy, PartialEq, Eq, Structural)]
pub enum Error {
    /// A transaction, or the status of one, has no id because it was never signed.
    UnsignedTransaction,
    /// No status was logged for a file.
    StatusNotFound,
    /// Text is not unpadded URL-safe Base64.
    InvalidBase64,
    /// A URL could not be resolved against the gateway's base URL.
    InvalidUrl,
    /// The components of a key do not make up a usable RSA key pair.
    KeyRejected,
    /// The key pair could not produce a signature.
    SigningFailed,
    /// A signature does not belong to a message and a key.
    InvalidSignature,
    /// A message exceeds what the hash functions accept.
    MessageTooLong,
    /// Bytes do not hold a data item.
    MalformedDataItem,
    /// Only transactions of the second format can be hashed for signing.
    UnsupportedFormat,
    /// Text is not the JSON that it should be.
    Json,
}

} // verus!
