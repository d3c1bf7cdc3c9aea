use vault_ciphers::attachments::AttachmentLimits;
use vault_ciphers::error::CipherError;
use vault_ciphers::model::{Attachment, Cipher, Membership, MembershipType, Timestamp, Vault};
use vault_ciphers::quota::{attachment_allowance, check_upload_size, check_within_allowance, upload_len, SIZE_LEEWAY};
use vault_ciphers::update::EventType;

fn vault_with_cipher(user: Option<u64>, org: Option<u64>) -> Vault {
    let mut c = Cipher::new(1, "n".to_string(), Timestamp { secs: 0, nanos: 0 });
    c.uuid = 1;
    c.user_uuid = user;
    c.organization_uuid = org;
    Vault {
        groups_enabled: true,
        ciphers: vec![c],
        memberships: vec![],
        collections: vec![],
        collection_ciphers: vec![],
        collection_users: vec![],
        collection_groups: vec![],
        groups: vec![],
        group_users: vec![],
        attachments: vec![],
        folders: vec![],
        folder_ciphers: vec![],
        favorites: vec![],
    }
}

const TEN_MIB_KB: i64 = 10 * 1024;
const TEN_MIB: i64 = 10 * 1024 * 1024;

#[test]
fn one_byte_left_admits_one_more_byte() {
    let left = attachment_allowance(Some(TEN_MIB_KB), TEN_MIB - 1, 0);
    assert_eq!(left, Ok(Some(1)));
    assert_eq!(check_within_allowance(1, Some(1)), Ok(()));
    assert_eq!(check_within_allowance(2, Some(1)), Err(CipherError::StorageLimitExceeded));
}

#[test]
fn exhausted_storage_rejects_even_empty_files() {
    assert_eq!(attachment_allowance(Some(TEN_MIB_KB), TEN_MIB, 0), Err(CipherError::StorageLimitReached));
    let mut v = vault_with_cipher(Some(7), None);
    v.attachments.push(Attachment { id: 5, cipher_uuid: 1, file_name: "a".to_string(), file_size: TEN_MIB, akey: None });
    let limits = AttachmentLimits { user_limit_kb: Some(TEN_MIB_KB), org_limit_kb: None };
    let r = v.save_attachment(None, 1, 0, Some("f".to_string()), Some("k".to_string()), 7, limits);
    assert_eq!(r, Err(CipherError::StorageLimitReached));
    assert_eq!(v.attachments.len(), 1);
}

#[test]
fn zero_limit_disables_attachments() {
    assert_eq!(attachment_allowance(Some(0), 0, 0), Err(CipherError::AttachmentsDisabled));
    assert_eq!(attachment_allowance(None, 123, 0), Ok(None));
}

#[test]
fn allowance_overflow_is_an_error() {
    assert_eq!(attachment_allowance(Some(i64::MAX), 0, 0), Err(CipherError::SizeOverflow));
    assert_eq!(attachment_allowance(Some(1), i64::MIN, 0), Err(CipherError::SizeOverflow));
}

#[test]
fn reserved_size_is_not_counted_twice() {
    assert_eq!(attachment_allowance(Some(1), 1024, 100), Ok(Some(100)));
}

#[test]
fn size_within_one_mib_is_accepted() {
    assert_eq!(SIZE_LEEWAY, 1048576);
    assert_eq!(check_upload_size(1_000_000, 1_000_000 + 1_048_576), Ok(true));
    assert_eq!(check_upload_size(1_000_000, 1_000_000), Ok(false));
    assert_eq!(
        check_upload_size(1_000_000, 1_000_000 + 1_048_577),
        Err(CipherError::SizeMismatch { min: 1_000_000 - 1_048_576, max: 2_048_576, got: 2_048_577 })
    );
    assert_eq!(check_upload_size(i64::MAX, 0), Err(CipherError::InvalidSizeBound));
}

#[test]
fn upload_length_converts_exactly() {
    assert_eq!(upload_len(1234), Ok(1234));
    assert_eq!(upload_len(0), Ok(0));
}

#[test]
fn size_mismatch_removes_the_reservation() {
    let mut v = vault_with_cipher(Some(7), None);
    let id = v.post_attachment_v2(1, 7, "f".to_string(), "k".to_string(), 1_000_000).unwrap();
    let limits = AttachmentLimits { user_limit_kb: None, org_limit_kb: None };
    let r = v.save_attachment(Some(id), 1, 1_000_000 + 1_048_577, None, None, 7, limits);
    assert!(matches!(r, Err(CipherError::SizeMismatch { .. })));
    assert_eq!(v.attachments.len(), 0);
}

#[test]
fn size_at_band_edge_is_stored() {
    let mut v = vault_with_cipher(Some(7), None);
    let id = v.post_attachment_v2(1, 7, "f".to_string(), "k".to_string(), 1_000_000).unwrap();
    let limits = AttachmentLimits { user_limit_kb: None, org_limit_kb: None };
    let r = v.save_attachment(Some(id), 1, 1_000_000 + 1_048_576, None, None, 7, limits);
    assert_eq!(r, Ok((id, None)));
    assert_eq!(v.attachments[0].file_size, 2_048_576);
}

#[test]
fn negative_declared_size_is_rejected() {
    let mut v = vault_with_cipher(Some(7), None);
    assert_eq!(v.post_attachment_v2(1, 7, "f".to_string(), "k".to_string(), -1), Err(CipherError::NegativeSize));
    assert_eq!(v.post_attachment_v2(1, 8, "f".to_string(), "k".to_string(), 1), Err(CipherError::NotWritable));
    assert_eq!(v.post_attachment_v2(2, 7, "f".to_string(), "k".to_string(), 1), Err(CipherError::CipherNotFound));
}

#[test]
fn legacy_upload_needs_name_and_key() {
    let mut v = vault_with_cipher(None, Some(100));
    v.memberships.push(Membership { user_uuid: 7, org_uuid: 100, atype: MembershipType::Owner, access_all: false });
    let limits = AttachmentLimits { user_limit_kb: None, org_limit_kb: Some(1) };
    assert_eq!(v.save_attachment(None, 1, 10, None, Some("k".to_string()), 7, limits), Err(CipherError::NoFileName));
    assert_eq!(v.save_attachment(None, 1, 10, Some("f".to_string()), None, 7, limits), Err(CipherError::NoAttachmentKey));
    let r = v.save_attachment(None, 1, 10, Some("f".to_string()), Some("k".to_string()), 7, limits).unwrap();
    assert_eq!(r.1, Some(EventType::CipherAttachmentCreated));
    assert_eq!(v.attachments.len(), 1);
    assert_eq!(v.size_used(vault_ciphers::attachments::Owner::Organization(100)), Some(10));
    assert_eq!(v.save_attachment(None, 1, 1020, Some("g".to_string()), Some("k".to_string()), 7, limits),
        Err(CipherError::StorageLimitExceeded));
}

#[test]
fn attachment_of_other_cipher_is_refused() {
    let mut v = vault_with_cipher(Some(7), None);
    v.attachments.push(Attachment { id: 5, cipher_uuid: 2, file_name: "a".to_string(), file_size: 1, akey: None });
    assert_eq!(v.get_attachment(1, 5, 7).err(), Some(CipherError::AttachmentOfOtherCipher));
    assert_eq!(v.get_attachment(1, 6, 7).err(), Some(CipherError::AttachmentNotFound));
    assert_eq!(v.delete_cipher_attachment_by_id(1, 5, 7), Err(CipherError::AttachmentOfOtherCipher));
}

#[test]
fn zero_user_limit_disables_upload() {
    let mut v = vault_with_cipher(Some(7), None);
    let limits = AttachmentLimits { user_limit_kb: Some(0), org_limit_kb: None };
    assert_eq!(v.save_attachment(None, 1, 1, Some("f".to_string()), Some("k".to_string()), 7, limits),
        Err(CipherError::AttachmentsDisabled));
}

#[test]
fn largest_upload_length_overflows() {
    assert_eq!(upload_len(usize::MAX), Err(CipherError::SizeOverflow));
}
