use vault_ciphers::error::CipherError;
use vault_ciphers::model::{Collection, Membership, MembershipType, Timestamp, Vault};
use vault_ciphers::operations::{Purge, ShareCipherData, ShareSelectedCipherData};
use vault_ciphers::update::{CipherData, EventType, PartialCipherData};
use vault_ciphers::vault_sync::{FolderData, ImportData};

fn empty_vault() -> Vault {
    Vault {
        groups_enabled: true,
        ciphers: vec![],
        memberships: vec![],
        collections: vec![],
        collection_ciphers: vec![],
        collection_users: vec![],
        collection_groups: vec![],
        groups: vec![],
        group_users: vec![],
        attachments: vec![],
        folders: vec![],
        folder_ciphers: vec![],
        favorites: vec![],
    }
}

fn login(name: &str, org: Option<u64>) -> CipherData {
    CipherData {
        id: None,
        folder_id: None,
        organization_id: org,
        key: None,
        atype: 1,
        name: name.to_string(),
        notes: None,
        fields: None,
        login: Some(serde_json::from_str(r#"{"username":"u"}"#).unwrap()),
        secure_note: None,
        card: None,
        identity: None,
        ssh_key: None,
        favorite: None,
        reprompt: None,
        password_history: None,
        attachments2: None,
        last_known_revision_date: None,
    }
}

const NOW: Timestamp = Timestamp { secs: 1000, nanos: 0 };

#[test]
fn admin_writes_only_after_membership() {
    let mut v = empty_vault();
    v.memberships.push(Membership { user_uuid: 1, org_uuid: 100, atype: MembershipType::Owner, access_all: true });
    v.collections.push(Collection { uuid: 50, org_uuid: 100 });
    let (id, out) = v.post_ciphers(login("item", None), 1, false, 100, NOW).unwrap();
    assert_eq!(out.event, None);
    let shared = v.share_cipher_by_uuid(id, ShareCipherData { cipher: login("item", Some(100)), collection_ids: vec![50] }, 1,
        false, 100, NOW);
    assert!(shared.is_ok());
    let denied = v.put_cipher(id, login("edit", Some(100)), 2, false, 100, NOW);
    assert_eq!(denied, Err(CipherError::NotWritable));
    v.memberships.push(Membership { user_uuid: 2, org_uuid: 100, atype: MembershipType::Admin, access_all: true });
    let out = v.put_cipher(id, login("edit", Some(100)), 2, false, 100, NOW).unwrap();
    assert_eq!(out.event, Some(EventType::CipherUpdated));
    assert_eq!(v.get_cipher(id, 2).unwrap().name, "edit");
}

#[test]
fn create_for_organization_needs_collections() {
    let mut v = empty_vault();
    let r = v.post_ciphers_create(ShareCipherData { cipher: login("x", Some(100)), collection_ids: vec![] }, 1, false, 100, NOW);
    assert_eq!(r, Err(CipherError::MissingCollections));
    assert!(v.ciphers.is_empty());
    let r = v.post_ciphers_create(ShareCipherData { cipher: login("x", None), collection_ids: vec![] }, 1, true, 100, NOW);
    assert_eq!(r, Err(CipherError::PersonalOwnershipPolicy));
}

#[test]
fn create_into_organization_is_logged_as_created() {
    let mut v = empty_vault();
    v.memberships.push(Membership { user_uuid: 1, org_uuid: 100, atype: MembershipType::User, access_all: true });
    v.collections.push(Collection { uuid: 50, org_uuid: 100 });
    let (id, out, announced) = v.post_ciphers_create(ShareCipherData { cipher: login("x", Some(100)), collection_ids: vec![50] }, 1,
        false, 100, NOW).unwrap();
    assert_eq!(out.event, Some(EventType::CipherCreated));
    assert_eq!(announced, vec![50]);
    assert_eq!(v.get_cipher(id, 1).unwrap().organization_uuid, Some(100));
    assert_eq!(v.collection_ciphers.len(), 1);
}

#[test]
fn soft_delete_restore_and_hard_delete() {
    let mut v = empty_vault();
    let (id, _) = v.post_ciphers(login("x", None), 1, false, 100, NOW).unwrap();
    assert_eq!(v.delete_cipher_by_uuid(id, 2, true, NOW), Err(CipherError::NotWritable));
    assert_eq!(v.delete_cipher_by_uuid(id, 1, true, NOW), Ok(None));
    assert_eq!(v.ciphers[0].deleted_at, Some(NOW));
    assert_eq!(v.restore_cipher_by_uuid(id, 1), Ok(None));
    assert_eq!(v.ciphers[0].deleted_at, None);
    v.post_attachment_v2(id, 1, "f".to_string(), "k".to_string(), 3).unwrap();
    assert_eq!(v.delete_cipher_by_uuid(id, 1, false, NOW), Ok(None));
    assert!(v.ciphers.is_empty());
    assert!(v.attachments.is_empty());
    assert_eq!(v.restore_cipher_by_uuid(id, 1), Err(CipherError::CipherNotFound));
}

#[test]
fn bulk_delete_stops_at_first_failure() {
    let mut v = empty_vault();
    let (a, _) = v.post_ciphers(login("a", None), 1, false, 100, NOW).unwrap();
    let (b, _) = v.post_ciphers(login("b", None), 1, false, 100, NOW).unwrap();
    let r = v.delete_multiple_ciphers(&vec![a, 999, b], 1, false, NOW);
    assert_eq!(r, Err(CipherError::CipherNotFound));
    assert_eq!(v.ciphers.len(), 1);
    assert_eq!(v.ciphers[0].uuid, b);
    assert_eq!(v.restore_multiple_ciphers(&vec![], 1), Ok(vec![]));
}

#[test]
fn purge_of_organization_vault_needs_owner() {
    let mut v = empty_vault();
    v.memberships.push(Membership { user_uuid: 1, org_uuid: 100, atype: MembershipType::Admin, access_all: true });
    v.memberships.push(Membership { user_uuid: 2, org_uuid: 100, atype: MembershipType::Owner, access_all: true });
    let (_, _) = v.post_ciphers(login("o", Some(100)), 1, false, 100, NOW).unwrap();
    let (_, _) = v.post_ciphers(login("p", None), 1, false, 100, NOW).unwrap();
    assert_eq!(v.delete_all(Some(100), 1), Err(CipherError::NotOrganizationOwner));
    assert_eq!(v.delete_all(Some(100), 2), Ok(Some(EventType::OrganizationPurgedVault)));
    assert_eq!(v.ciphers.len(), 1);
    assert_eq!(v.delete_all(None, 1), Ok(None));
    assert!(v.ciphers.is_empty());
    let removed = v.purge_ciphers(Purge::OwnedBy(1));
    assert!(removed.is_empty());
}

#[test]
fn partial_update_and_move_use_user_folders() {
    let mut v = empty_vault();
    v.folders.push(vault_ciphers::model::Folder { uuid: 30, user_uuid: 1, name: "f".to_string() });
    let (id, _) = v.post_ciphers(login("a", None), 1, false, 100, NOW).unwrap();
    assert_eq!(v.put_cipher_partial(id, PartialCipherData { folder_id: Some(31), favorite: true }, 1), Err(CipherError::FolderNotFound));
    assert_eq!(v.put_cipher_partial(id, PartialCipherData { folder_id: Some(30), favorite: true }, 1), Ok(()));
    assert_eq!(v.favorites.len(), 1);
    assert_eq!(v.move_cipher_selected(&vec![id], None, 1), Ok(()));
    assert!(v.folder_ciphers.is_empty());
    assert_eq!(v.move_cipher_selected(&vec![id], None, 2), Err(CipherError::NotAccessible));
}

#[test]
fn share_selected_checks_request_shape() {
    let mut v = empty_vault();
    let r = v.put_cipher_share_selected(ShareSelectedCipherData { ciphers: vec![], collection_ids: vec![1] }, 1, false, 100, NOW);
    assert_eq!(r, Err(CipherError::MissingCiphers));
    let r = v.put_cipher_share_selected(ShareSelectedCipherData { ciphers: vec![login("a", Some(1))], collection_ids: vec![] }, 1,
        false, 100, NOW);
    assert_eq!(r, Err(CipherError::MissingCollections));
    let r = v.put_cipher_share_selected(ShareSelectedCipherData { ciphers: vec![login("a", Some(1))], collection_ids: vec![1] }, 1,
        false, 100, NOW);
    assert_eq!(r, Err(CipherError::MissingIds));
}

#[test]
fn import_creates_folders_and_ciphers() {
    let mut v = empty_vault();
    let data = ImportData {
        ciphers: vec![login("a", None), login("b", None)],
        folders: vec![FolderData { id: None, name: "imported".to_string() }],
        folder_relationships: vec![(1, 0)],
    };
    let ids = v.post_ciphers_import(data, 1, false, 100, NOW).unwrap();
    assert_eq!(ids.len(), 2);
    assert_eq!(v.folders.len(), 1);
    assert_eq!(v.folder_ciphers.len(), 1);
    assert_eq!(v.folder_ciphers[0].cipher_uuid, ids[1]);
    let bad = ImportData { ciphers: vec![login("c", None)], folders: vec![], folder_relationships: vec![(0, 3)] };
    assert_eq!(v.post_ciphers_import(bad, 1, false, 100, NOW), Err(CipherError::InvalidFolderRelation));
    let blocked = ImportData { ciphers: vec![], folders: vec![], folder_relationships: vec![] };
    assert_eq!(v.post_ciphers_import(blocked, 1, true, 100, NOW), Err(CipherError::PersonalOwnershipPolicy));
}

#[test]
fn trash_older_than_cutoff_is_purged() {
    let mut v = empty_vault();
    let (a, _) = v.post_ciphers(login("a", None), 1, false, 100, NOW).unwrap();
    let (b, _) = v.post_ciphers(login("b", None), 1, false, 100, NOW).unwrap();
    let (c, _) = v.post_ciphers(login("c", None), 1, false, 100, NOW).unwrap();
    v.delete_cipher_by_uuid(a, 1, true, Timestamp { secs: 10, nanos: 0 }).unwrap();
    v.delete_cipher_by_uuid(b, 1, true, Timestamp { secs: 30, nanos: 0 }).unwrap();
    assert_eq!(v.purge_trashed_ciphers(Timestamp { secs: 20, nanos: 0 }), 1);
    let left: Vec<u64> = v.ciphers.iter().map(|x| x.uuid).collect();
    assert_eq!(left, vec![b, c]);
}

#[test]
fn bulk_soft_delete_and_restore_mark_every_cipher() {
    let mut v = empty_vault();
    let (a, _) = v.post_ciphers(login("a", None), 1, false, 100, NOW).unwrap();
    let (b, _) = v.post_ciphers(login("b", None), 1, false, 100, NOW).unwrap();
    assert_eq!(v.delete_multiple_ciphers(&vec![a, b], 1, true, NOW), Ok(vec![]));
    assert!(v.ciphers.iter().all(|x| x.deleted_at == Some(NOW)));
    assert_eq!(v.restore_multiple_ciphers(&vec![a, b], 1), Ok(vec![]));
    assert!(v.ciphers.iter().all(|x| x.deleted_at.is_none()));
}

#[test]
fn error_messages_are_human_readable() {
    assert_eq!(CipherError::CipherNotFound.message(), "Cipher doesn't exist");
    assert_eq!(CipherError::SizeMismatch { min: 0, max: 1, got: 2 }.message(), "Attachment size mismatch");
}

#[test]
fn share_without_organization_keeps_requester_as_owner() {
    let mut v = empty_vault();
    let (id, _) = v.post_ciphers(login("x", None), 1, false, 100, NOW).unwrap();
    let (out, announced) = v.share_cipher_by_uuid(id, ShareCipherData { cipher: login("y", None), collection_ids: vec![] }, 1,
        false, 100, NOW).unwrap();
    assert_eq!(out.event, None);
    assert!(announced.is_empty());
    let c = v.get_cipher(id, 1).unwrap();
    assert_eq!(c.user_uuid, Some(1));
    assert_eq!(c.organization_uuid, None);
}

#[test]
fn move_needs_every_cipher_readable() {
    let mut v = empty_vault();
    let (a, _) = v.post_ciphers(login("a", None), 1, false, 100, NOW).unwrap();
    let (b, _) = v.post_ciphers(login("b", None), 2, false, 100, NOW).unwrap();
    assert_eq!(v.move_cipher_selected(&vec![a, b], None, 1), Err(CipherError::NotAccessible));
    assert_eq!(v.move_cipher_selected(&vec![a, 77], None, 1), Err(CipherError::CipherNotFound));
    assert_eq!(v.move_cipher_selected(&vec![a], Some(5), 1), Err(CipherError::FolderNotFound));
}

#[test]
fn hard_delete_of_a_repeated_id_fails_at_the_repeat() {
    let mut v = empty_vault();
    let (a, _) = v.post_ciphers(login("a", None), 1, false, 100, NOW).unwrap();
    let (b, _) = v.post_ciphers(login("b", None), 1, false, 100, NOW).unwrap();
    assert_eq!(v.delete_multiple_ciphers(&vec![a, a, b], 1, false, NOW), Err(CipherError::CipherNotFound));
    let left: Vec<u64> = v.ciphers.iter().map(|x| x.uuid).collect();
    assert_eq!(left, vec![b]);
}

#[test]
fn hard_delete_removes_links_placements_and_favorites() {
    let mut v = empty_vault();
    v.memberships.push(Membership { user_uuid: 1, org_uuid: 100, atype: MembershipType::Owner, access_all: true });
    v.memberships.push(Membership { user_uuid: 2, org_uuid: 100, atype: MembershipType::User, access_all: false });
    v.collections.push(Collection { uuid: 50, org_uuid: 100 });
    v.collection_users.push(vault_ciphers::model::CollectionUser {
        user_uuid: 2,
        collection_uuid: 50,
        read_only: true,
        hide_passwords: false,
        manage: false,
    });
    v.folders.push(vault_ciphers::model::Folder { uuid: 30, user_uuid: 1, name: "f".to_string() });
    let (id, _, _) = v.post_ciphers_create(ShareCipherData { cipher: login("x", Some(100)), collection_ids: vec![50] }, 1,
        false, 100, NOW).unwrap();
    assert_eq!(v.put_cipher_partial(id, PartialCipherData { folder_id: Some(30), favorite: true }, 1), Ok(()));
    assert_eq!(v.collection_ciphers.len(), 1);
    assert_eq!(v.delete_cipher_by_uuid(id, 1, false, NOW), Ok(Some(EventType::CipherDeleted)));
    assert!(v.collection_ciphers.is_empty());
    assert!(v.folder_ciphers.is_empty());
    assert!(v.favorites.is_empty());
    // The next cipher receives the same id and must not inherit the old link.
    let (again, _) = v.post_ciphers(login("mine", Some(100)), 1, false, 100, NOW).unwrap();
    assert_eq!(again, id);
    assert_eq!(v.get_cipher(again, 2).err(), Some(CipherError::NotAccessible));
}
