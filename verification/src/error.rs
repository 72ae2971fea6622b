//! The errors of the store.

use vstd::prelude::*;
use vstd::string::StringExecFns;

verus! {

/// What can go wrong in the store.
#[derive(Debug, Clone, Copy, PartialEq, Eq, Structural)]
pub enum KeyValueStoreError {
    /// A conditional insert found the key present.
    NoInsert,
    /// A key or a value exceeds its configured cap.
    PayloadTooLarge,
    /// A record's stored checksum does not match the one computed over its
    /// bytes, or the record is not framed as a record at all.
    ChecksumFailed,
    /// A tombstone stands where a put record was expected.
    ItemDeleted,
}

impl KeyValueStoreError {
    /// The text of the error, as it is shown to a user.
    pub open spec fn spec_message(self) -> Seq<char> {
        match self {
            KeyValueStoreError::NoInsert => "no insert"@,
            KeyValueStoreError::PayloadTooLarge => "payload too large"@,
            KeyValueStoreError::ChecksumFailed => "checksum failed"@,
            KeyValueStoreError::ItemDeleted => "item deleted"@,
        }
    }

    /// The text of the error, as it is shown to a user.
    pub fn message(&self) -> (text: String)
        ensures
            text@ == self.spec_message(),
    {
        match self {
            KeyValueStoreError::NoInsert => String::from_str("no insert"),
            KeyValueStoreError::PayloadTooLarge => String::from_str("payload too large"),
            KeyValueStoreError::ChecksumFailed => String::from_str("checksum failed"),
            KeyValueStoreError::ItemDeleted => String::from_str("item deleted"),
        }
    }
}

} // verus!
