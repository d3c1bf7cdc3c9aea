use vault_ciphers::error::CipherError;
use vault_ciphers::model::{Attachment, Cipher, Folder, Membership, MembershipType, Timestamp, Vault};
use vault_ciphers::update::{
    check_parsed_revision, check_revision, classify_event, enforce_personal_ownership_policy, is_stale,
    select_payload, update_cipher_from_data, Attachments2Data, CipherData, EventType, RevisionCheck, UpdateType,
};

fn empty_vault() -> Vault {
    Vault {
        groups_enabled: true,
        ciphers: vec![],
        memberships: vec![],
        collections: vec![],
        collection_ciphers: vec![],
        collection_users: vec![],
        collection_groups: vec![],
        groups: vec![],
        group_users: vec![],
        attachments: vec![],
        folders: vec![],
        folder_ciphers: vec![],
        favorites: vec![],
    }
}

fn login_data(name: &str) -> CipherData {
    CipherData {
        id: None,
        folder_id: None,
        organization_id: None,
        key: None,
        atype: 1,
        name: name.to_string(),
        notes: None,
        fields: None,
        login: Some(serde_json::from_str(r#"{"username":"u","response":"x","uris":[{"uri":"a","response":1}]}"#).unwrap()),
        secure_note: None,
        card: None,
        identity: None,
        ssh_key: None,
        favorite: None,
        reprompt: None,
        password_history: None,
        attachments2: None,
        last_known_revision_date: None,
    }
}

// 2024-01-01T00:00:10Z
const T: i64 = 1704067210;

fn stored_cipher() -> Cipher {
    let mut c = Cipher::new(1, "old".to_string(), Timestamp { secs: T, nanos: 0 });
    c.uuid = 1;
    c.user_uuid = Some(7);
    c
}

#[test]
fn stale_revision_two_seconds_behind_is_rejected() {
    let stored = Timestamp { secs: T, nanos: 0 };
    let r = check_revision(stored, &Some("2024-01-01T00:00:08Z".to_string()));
    assert_eq!(r, Err(CipherError::StaleRevision));
}

#[test]
fn revision_half_second_behind_is_accepted() {
    let stored = Timestamp { secs: T, nanos: 0 };
    let r = check_revision(stored, &Some("2024-01-01T00:00:09.500Z".to_string()));
    assert_eq!(r, Ok(RevisionCheck::Current));
}

#[test]
fn unparseable_revision_is_tolerated() {
    let stored = Timestamp { secs: T, nanos: 0 };
    assert_eq!(check_revision(stored, &Some("yesterday".to_string())), Ok(RevisionCheck::Unparseable));
    assert_eq!(check_revision(stored, &None), Ok(RevisionCheck::Absent));
}

#[test]
fn staleness_boundary_is_one_second() {
    let stored = Timestamp { secs: 10, nanos: 0 };
    assert!(!is_stale(stored, Timestamp { secs: 9, nanos: 0 }));
    assert!(is_stale(stored, Timestamp { secs: 8, nanos: 999_999_999 }));
    assert_eq!(check_parsed_revision(stored, None), Ok(RevisionCheck::Unparseable));
    assert_eq!(check_parsed_revision(stored, Some(Timestamp { secs: 7, nanos: 0 })), Err(CipherError::StaleRevision));
}

#[test]
fn stale_update_leaves_cipher_unchanged() {
    let mut v = empty_vault();
    let mut c = stored_cipher();
    let mut d = login_data("new");
    d.last_known_revision_date = Some("2024-01-01T00:00:08Z".to_string());
    let r = update_cipher_from_data(&mut v, &mut c, d, 7, &None, UpdateType::SyncCipherUpdate, false, 100, Timestamp {
        secs: T + 5,
        nanos: 0,
    });
    assert_eq!(r, Err(CipherError::StaleRevision));
    assert_eq!(c.name, "old");
}

#[test]
fn import_skips_staleness_check() {
    let mut v = empty_vault();
    let mut c = stored_cipher();
    let mut d = login_data("new");
    d.last_known_revision_date = Some("2024-01-01T00:00:08Z".to_string());
    let r = update_cipher_from_data(&mut v, &mut c, d, 7, &None, UpdateType::Import, false, 100, Timestamp {
        secs: T + 5,
        nanos: 0,
    });
    let out = r.unwrap();
    assert_eq!(out.event, None);
    assert!(!out.notify);
}

#[test]
fn update_leaves_exactly_one_owner() {
    let mut v = empty_vault();
    v.memberships.push(Membership { user_uuid: 7, org_uuid: 100, atype: MembershipType::User, access_all: true });
    let mut c = stored_cipher();
    let mut d = login_data("shared");
    d.organization_id = Some(100);
    let out = update_cipher_from_data(&mut v, &mut c, d, 7, &None, UpdateType::SyncCipherUpdate, false, 100, Timestamp {
        secs: T + 5,
        nanos: 0,
    })
    .unwrap();
    assert_eq!(c.organization_uuid, Some(100));
    assert_eq!(c.user_uuid, None);
    assert_eq!(out.event, Some(EventType::CipherShared));
    assert_eq!(out.update_type, UpdateType::SyncCipherUpdate);
    assert_eq!(c.updated_at, Timestamp { secs: T + 5, nanos: 0 });
}

#[test]
fn personal_update_sets_user_owner() {
    let mut v = empty_vault();
    let mut c = Cipher::new(1, "x".to_string(), Timestamp { secs: 0, nanos: 0 });
    let out = update_cipher_from_data(&mut v, &mut c, login_data("x"), 9, &None, UpdateType::SyncCipherCreate, false, 100,
        Timestamp { secs: 1, nanos: 0 })
    .unwrap();
    assert_eq!(c.user_uuid, Some(9));
    assert_eq!(c.organization_uuid, None);
    assert_eq!(out.event, None);
    assert!(out.notify);
}

#[test]
fn payload_loses_response_members() {
    let mut v = empty_vault();
    let mut c = stored_cipher();
    update_cipher_from_data(&mut v, &mut c, login_data("n"), 7, &None, UpdateType::SyncCipherUpdate, false, 100, Timestamp {
        secs: T,
        nanos: 0,
    })
    .unwrap();
    assert!(!c.data.contains("response"));
    assert!(c.data.contains("username"));
    assert!(c.data.contains("uris"));
}

#[test]
fn organization_mismatch_is_rejected() {
    let mut v = empty_vault();
    let mut c = stored_cipher();
    c.user_uuid = None;
    c.organization_uuid = Some(100);
    let d = login_data("n");
    let r = update_cipher_from_data(&mut v, &mut c, d, 7, &None, UpdateType::SyncCipherUpdate, false, 100, Timestamp {
        secs: T,
        nanos: 0,
    });
    assert_eq!(r, Err(CipherError::OrganizationMismatch));
}

#[test]
fn transfer_without_rights_is_denied() {
    let mut v = empty_vault();
    v.memberships.push(Membership { user_uuid: 8, org_uuid: 100, atype: MembershipType::User, access_all: false });
    let mut c = stored_cipher();
    let mut d = login_data("n");
    d.organization_id = Some(100);
    let r = update_cipher_from_data(&mut v, &mut c, d, 8, &None, UpdateType::SyncCipherUpdate, false, 100, Timestamp {
        secs: T,
        nanos: 0,
    });
    assert_eq!(r, Err(CipherError::TransferDenied));
    let mut d2 = login_data("n");
    d2.organization_id = Some(200);
    let r2 = update_cipher_from_data(&mut v, &mut c, d2, 8, &None, UpdateType::SyncCipherUpdate, false, 100, Timestamp {
        secs: T,
        nanos: 0,
    });
    assert_eq!(r2, Err(CipherError::NotOrganizationMember));
}

#[test]
fn shared_collections_allow_transfer() {
    let mut v = empty_vault();
    v.memberships.push(Membership { user_uuid: 8, org_uuid: 100, atype: MembershipType::User, access_all: false });
    let mut c = stored_cipher();
    let mut d = login_data("n");
    d.organization_id = Some(100);
    let out = update_cipher_from_data(&mut v, &mut c, d, 8, &Some(vec![5]), UpdateType::SyncCipherCreate, false, 100,
        Timestamp { secs: T, nanos: 0 })
    .unwrap();
    assert_eq!(out.event, Some(EventType::CipherCreated));
}

#[test]
fn notes_longer_than_limit_are_rejected() {
    let mut v = empty_vault();
    let mut c = stored_cipher();
    let mut d = login_data("n");
    d.notes = Some("0123456789".to_string());
    let r = update_cipher_from_data(&mut v, &mut c, d, 7, &None, UpdateType::SyncCipherUpdate, false, 9, Timestamp {
        secs: T,
        nanos: 0,
    });
    assert_eq!(r, Err(CipherError::NotesTooLong));
}

#[test]
fn personal_ownership_policy_blocks_personal_items() {
    assert_eq!(enforce_personal_ownership_policy(Some(None), true), Err(CipherError::PersonalOwnershipPolicy));
    assert_eq!(enforce_personal_ownership_policy(None, true), Err(CipherError::PersonalOwnershipPolicy));
    assert_eq!(enforce_personal_ownership_policy(Some(Some(1)), true), Ok(()));
    assert_eq!(enforce_personal_ownership_policy(Some(None), false), Ok(()));
}

#[test]
fn payload_selection_by_type() {
    assert_eq!(select_payload(1, Some(10), None, None, None, None), Ok(10));
    assert_eq!(select_payload(5, None, None, None, None, Some(50)), Ok(50));
    assert_eq!(select_payload(6, Some(1), Some(2), Some(3), Some(4), Some(5)), Err(CipherError::InvalidType));
    assert_eq!(select_payload(0, Some(1), None, None, None, None), Err(CipherError::InvalidType));
    assert_eq!(select_payload::<i32>(2, Some(1), None, None, None, None), Err(CipherError::DataMissing));
}

#[test]
fn events_follow_transfer_and_path() {
    assert_eq!(classify_event(UpdateType::SyncCipherCreate, true, Some(1)), Some(EventType::CipherCreated));
    assert_eq!(classify_event(UpdateType::SyncCipherUpdate, true, Some(1)), Some(EventType::CipherShared));
    assert_eq!(classify_event(UpdateType::SyncCipherUpdate, false, Some(1)), Some(EventType::CipherUpdated));
    assert_eq!(classify_event(UpdateType::SyncCipherCreate, false, Some(1)), Some(EventType::CipherUpdated));
    assert_eq!(classify_event(UpdateType::SyncCipherUpdate, false, None), None);
    assert_eq!(classify_event(UpdateType::Import, true, Some(1)), None);
}

#[test]
fn reprompt_keeps_known_values_only() {
    let mut v = empty_vault();
    let mut c = stored_cipher();
    let mut d = login_data("n");
    d.reprompt = Some(3);
    update_cipher_from_data(&mut v, &mut c, d, 7, &None, UpdateType::SyncCipherUpdate, false, 100, Timestamp { secs: T, nanos: 0 })
        .unwrap();
    assert_eq!(c.reprompt, None);
    let mut d = login_data("n");
    d.reprompt = Some(1);
    update_cipher_from_data(&mut v, &mut c, d, 7, &None, UpdateType::SyncCipherUpdate, false, 100, Timestamp { secs: T, nanos: 0 })
        .unwrap();
    assert_eq!(c.reprompt, Some(1));
}

#[test]
fn folder_and_favorite_are_set_for_the_user() {
    let mut v = empty_vault();
    v.folders.push(Folder { uuid: 30, user_uuid: 7, name: "f".to_string() });
    let mut c = stored_cipher();
    let mut d = login_data("n");
    d.folder_id = Some(30);
    d.favorite = Some(true);
    update_cipher_from_data(&mut v, &mut c, d, 7, &None, UpdateType::SyncCipherUpdate, false, 100, Timestamp { secs: T, nanos: 0 })
        .unwrap();
    assert_eq!(v.folder_ciphers.len(), 1);
    assert_eq!(v.favorites.len(), 1);
    let mut d = login_data("n");
    d.folder_id = Some(31);
    let r = update_cipher_from_data(&mut v, &mut c, d, 7, &None, UpdateType::SyncCipherUpdate, false, 100, Timestamp {
        secs: T,
        nanos: 0,
    });
    assert_eq!(r, Err(CipherError::FolderNotFound));
}

#[test]
fn key_rotation_skips_missing_and_foreign() {
    let mut v = empty_vault();
    v.attachments.push(Attachment { id: 1, cipher_uuid: 1, file_name: "a".to_string(), file_size: 5, akey: None });
    v.attachments.push(Attachment { id: 2, cipher_uuid: 99, file_name: "b".to_string(), file_size: 5, akey: None });
    v.attachments.push(Attachment { id: 3, cipher_uuid: 1, file_name: "c".to_string(), file_size: 5, akey: None });
    let rot = vec![
        (42, Attachments2Data { file_name: "x".to_string(), key: "k".to_string() }),
        (1, Attachments2Data { file_name: "a2".to_string(), key: "k1".to_string() }),
        (2, Attachments2Data { file_name: "b2".to_string(), key: "k2".to_string() }),
        (3, Attachments2Data { file_name: "c2".to_string(), key: "k3".to_string() }),
    ];
    v.rotate_attachment_keys(1, &rot);
    assert_eq!(v.attachments[0].file_name, "a2");
    assert_eq!(v.attachments[0].akey, Some("k1".to_string()));
    assert_eq!(v.attachments[1].file_name, "b");
    assert_eq!(v.attachments[1].akey, None);
    assert_eq!(v.attachments[2].file_name, "c2");
    assert_eq!(v.attachments[2].akey, Some("k3".to_string()));
}

#[test]
fn invalid_type_is_rejected_in_update() {
    let mut v = empty_vault();
    let mut c = stored_cipher();
    let mut d = login_data("n");
    d.atype = 9;
    let r = update_cipher_from_data(&mut v, &mut c, d, 7, &None, UpdateType::SyncCipherUpdate, false, 100, Timestamp {
        secs: T,
        nanos: 0,
    });
    assert_eq!(r, Err(CipherError::InvalidType));
    let mut d = login_data("n");
    d.login = None;
    let r = update_cipher_from_data(&mut v, &mut c, d, 7, &None, UpdateType::SyncCipherUpdate, false, 100, Timestamp {
        secs: T,
        nanos: 0,
    });
    assert_eq!(r, Err(CipherError::DataMissing));
}

#[test]
fn invalid_type_leaves_attachments_untouched() {
    let mut v = empty_vault();
    v.attachments.push(Attachment { id: 1, cipher_uuid: 1, file_name: "a".to_string(), file_size: 5, akey: None });
    let mut c = stored_cipher();
    let mut d = login_data("n");
    d.atype = 7;
    d.attachments2 = Some(vec![(1, Attachments2Data { file_name: "z".to_string(), key: "k".to_string() })]);
    let r = update_cipher_from_data(&mut v, &mut c, d, 7, &None, UpdateType::SyncCipherUpdate, false, 100, Timestamp {
        secs: T,
        nanos: 0,
    });
    assert_eq!(r, Err(CipherError::InvalidType));
    assert_eq!(v.attachments[0].file_name, "a");
}

#[test]
fn payload_that_is_no_object_is_refused() {
    let mut v = empty_vault();
    let mut c = stored_cipher();
    let mut d = login_data("n");
    d.login = Some(serde_json::from_str("[1, 2]").unwrap());
    let r = update_cipher_from_data(&mut v, &mut c, d, 7, &None, UpdateType::SyncCipherUpdate, false, 100, Timestamp {
        secs: T,
        nanos: 0,
    });
    assert_eq!(r, Err(CipherError::InvalidPayload));
    assert_eq!(c.name, "old");
}

#[test]
fn uri_entry_that_is_no_object_is_refused() {
    let mut v = empty_vault();
    let mut c = stored_cipher();
    let mut d = login_data("n");
    d.login = Some(serde_json::from_str(r#"{"uris":[{"uri":"a"}, "plain"]}"#).unwrap());
    let r = update_cipher_from_data(&mut v, &mut c, d, 7, &None, UpdateType::SyncCipherUpdate, false, 100, Timestamp {
        secs: T,
        nanos: 0,
    });
    assert_eq!(r, Err(CipherError::InvalidPayload));
}

#[test]
fn field_entry_that_is_no_object_is_refused() {
    let mut v = empty_vault();
    let mut c = stored_cipher();
    let mut d = login_data("n");
    d.fields = Some(serde_json::from_str("[3]").unwrap());
    let r = update_cipher_from_data(&mut v, &mut c, d, 7, &None, UpdateType::SyncCipherUpdate, false, 100, Timestamp {
        secs: T,
        nanos: 0,
    });
    assert_eq!(r, Err(CipherError::InvalidPayload));
    let mut d = login_data("n");
    d.fields = Some(serde_json::from_str(r#"[{"name":"x","response":1}]"#).unwrap());
    update_cipher_from_data(&mut v, &mut c, d, 7, &None, UpdateType::SyncCipherUpdate, false, 100, Timestamp { secs: T, nanos: 0 })
        .unwrap();
    let stored = c.fields.unwrap();
    assert!(stored.contains("name"));
    assert!(!stored.contains("response"));
}

#[test]
fn later_rotation_entry_wins() {
    let mut v = empty_vault();
    v.attachments.push(Attachment { id: 1, cipher_uuid: 1, file_name: "a".to_string(), file_size: 5, akey: None });
    let rot = vec![
        (1, Attachments2Data { file_name: "first".to_string(), key: "k1".to_string() }),
        (1, Attachments2Data { file_name: "second".to_string(), key: "k2".to_string() }),
    ];
    v.rotate_attachment_keys(1, &rot);
    assert_eq!(v.attachments[0].file_name, "second");
    assert_eq!(v.attachments[0].akey, Some("k2".to_string()));
}
