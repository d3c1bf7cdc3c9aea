//! The errors of the vault operations.

use vstd::prelude::*;

verus! {

/// Why a vault operation was refused.
#[derive(Clone, Copy, Debug, PartialEq, Eq, Structural)]
pub enum CipherError {
    CipherNotFound,
    AttachmentNotFound,
    AttachmentOfOtherCipher,
    FolderNotFound,
    InvalidCollection,
    NotAccessible,
    NotWritable,
    CollectionNotWritable,
    MissingCollections,
    StaleRevision,
    OrganizationMismatch,
    NotOrganizationMember,
    TransferDenied,
    NotesTooLong,
    InvalidType,
    DataMissing,
    InvalidPayload,
    PersonalOwnershipPolicy,
    AttachmentsDisabled,
    StorageLimitReached,
    StorageLimitExceeded,
    SizeOverflow,
    NegativeSize,
    InvalidSizeBound,
    SizeMismatch { min: i64, max: i64, got: i64 },
    NoOwner,
    NoFileName,
    NoAttachmentKey,
    MissingCiphers,
    MissingIds,
    NotOrganizationOwner,
    IdsExhausted,
    InvalidFolderRelation,
}

impl CipherError {
    /// The text shown to the client.
    pub fn message(&self) -> &'static str {
        match self {
            CipherError::CipherNotFound => "Cipher doesn't exist",
            CipherError::AttachmentNotFound => "Attachment doesn't exist",
            CipherError::AttachmentOfOtherCipher => "Attachment doesn't belong to cipher",
            CipherError::FolderNotFound => "Folder does not exist or belongs to another user",
            CipherError::InvalidCollection => "Invalid collection ID provided",
            CipherError::NotAccessible => "Cipher is not accessible",
            CipherError::NotWritable => "Cipher is not write accessible",
            CipherError::CollectionNotWritable => "No rights to modify the collection",
            CipherError::MissingCollections => "You must select at least one collection.",
            CipherError::StaleRevision => "The client copy of this cipher is out of date. Resync the client and try again.",
            CipherError::OrganizationMismatch => "Organization mismatch. Please resync the client before updating the cipher",
            CipherError::NotOrganizationMember => "You don't have permission to add item to organization",
            CipherError::TransferDenied => "You don't have permission to add cipher directly to organization",
            CipherError::NotesTooLong => "The field Notes exceeds the maximum encrypted value length",
            CipherError::InvalidType => "Invalid type",
            CipherError::DataMissing => "Data missing",
            CipherError::InvalidPayload => "The item data is not a JSON object",
            CipherError::PersonalOwnershipPolicy => "Due to an Enterprise Policy, you are restricted from saving items to your personal vault.",
            CipherError::AttachmentsDisabled => "Attachments are disabled",
            CipherError::StorageLimitReached => "Attachment storage limit reached! Delete some attachments to free up space",
            CipherError::StorageLimitExceeded => "Attachment storage limit exceeded with this file",
            CipherError::SizeOverflow => "Attachment size overflow",
            CipherError::NegativeSize => "Attachment size can't be negative",
            CipherError::InvalidSizeBound => "Invalid attachment size",
            CipherError::SizeMismatch { .. } => "Attachment size mismatch",
            CipherError::NoOwner => "Cipher is neither owned by a user nor an organization",
            CipherError::NoFileName => "No filename provided",
            CipherError::NoAttachmentKey => "No attachment key provided",
            CipherError::MissingCiphers => "You must select at least one cipher.",
            CipherError::MissingIds => "Request missing ids field",
            CipherError::NotOrganizationOwner => "You don't have permission to purge the organization vault",
            CipherError::IdsExhausted => "No identifier is left for a new record",
            CipherError::InvalidFolderRelation => "Folder relation names no posted folder",
        }
    }
}

} // verus!
