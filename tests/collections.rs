use vault_ciphers::error::CipherError;
use vault_ciphers::model::{Cipher, Collection, CollectionCipher, Membership, MembershipType, Timestamp, Vault};
use vault_ciphers::update::EventType;

fn org_vault() -> Vault {
    let mut c = Cipher::new(1, "n".to_string(), Timestamp { secs: 0, nanos: 0 });
    c.uuid = 1;
    c.organization_uuid = Some(100);
    Vault {
        groups_enabled: true,
        ciphers: vec![c],
        memberships: vec![
            Membership { user_uuid: 7, org_uuid: 100, atype: MembershipType::User, access_all: true },
            Membership { user_uuid: 8, org_uuid: 100, atype: MembershipType::Admin, access_all: false },
        ],
        collections: vec![
            Collection { uuid: 50, org_uuid: 100 },
            Collection { uuid: 51, org_uuid: 100 },
            Collection { uuid: 60, org_uuid: 200 },
        ],
        collection_ciphers: vec![CollectionCipher { cipher_uuid: 1, collection_uuid: 50 }],
        collection_users: vec![],
        collection_groups: vec![],
        groups: vec![],
        group_users: vec![],
        attachments: vec![],
        folders: vec![],
        folder_ciphers: vec![],
        favorites: vec![],
    }
}

fn links_of(v: &Vault, cipher: u64) -> Vec<u64> {
    let mut l: Vec<u64> = v.collection_ciphers.iter().filter(|c| c.cipher_uuid == cipher).map(|c| c.collection_uuid).collect();
    l.sort();
    l
}

#[test]
fn posting_the_same_set_twice_converges() {
    let mut v = org_vault();
    assert_eq!(v.post_collections_update(1, 7, &vec![51]), Ok(Some(EventType::CipherUpdatedCollections)));
    assert_eq!(links_of(&v, 1), vec![51]);
    let before = v.collection_ciphers.clone();
    assert_eq!(v.post_collections_update(1, 7, &vec![51]), Ok(Some(EventType::CipherUpdatedCollections)));
    assert_eq!(v.collection_ciphers, before);
}

#[test]
fn foreign_collection_rejects_whole_request() {
    let mut v = org_vault();
    assert_eq!(v.post_collections_update(1, 7, &vec![51, 60]), Err(CipherError::InvalidCollection));
    assert_eq!(links_of(&v, 1), vec![50]);
}

#[test]
fn collection_without_rights_is_refused() {
    let mut v = org_vault();
    v.memberships.push(Membership { user_uuid: 9, org_uuid: 100, atype: MembershipType::User, access_all: false });
    v.collection_users.push(vault_ciphers::model::CollectionUser {
        user_uuid: 9,
        collection_uuid: 50,
        read_only: false,
        hide_passwords: false,
        manage: false,
    });
    assert_eq!(v.post_collections_update(1, 9, &vec![50, 51]), Err(CipherError::CollectionNotWritable));
    assert_eq!(links_of(&v, 1), vec![50]);
}

#[test]
fn admin_entry_point_edits_every_collection() {
    let mut v = org_vault();
    v.ciphers[0].organization_uuid = Some(100);
    v.memberships[1].access_all = false;
    assert_eq!(v.post_collections_admin(1, 8, &vec![50, 51]), Ok(Some(EventType::CipherUpdatedCollections)));
    assert_eq!(links_of(&v, 1), vec![50, 51]);
    assert_eq!(v.post_collections_admin(1, 8, &vec![]), Ok(Some(EventType::CipherUpdatedCollections)));
    assert_eq!(links_of(&v, 1), Vec::<u64>::new());
}

#[test]
fn unknown_cipher_and_reader_are_refused() {
    let mut v = org_vault();
    assert_eq!(v.post_collections_update(2, 7, &vec![50]), Err(CipherError::CipherNotFound));
    assert_eq!(v.post_collections_update(1, 99, &vec![50]), Err(CipherError::NotWritable));
}

#[test]
fn hidden_links_stay_untouched() {
    let mut v = org_vault();
    v.memberships.push(Membership { user_uuid: 9, org_uuid: 100, atype: MembershipType::User, access_all: false });
    v.collection_users.push(vault_ciphers::model::CollectionUser {
        user_uuid: 9,
        collection_uuid: 51,
        read_only: false,
        hide_passwords: false,
        manage: false,
    });
    // The cipher is linked to 50 (hidden from user 9) and writable through 51.
    v.collection_ciphers.push(CollectionCipher { cipher_uuid: 1, collection_uuid: 51 });
    assert_eq!(v.post_collections_update(1, 9, &vec![]), Ok(Some(EventType::CipherUpdatedCollections)));
    assert_eq!(links_of(&v, 1), vec![50]);
}

#[test]
fn personal_cipher_reports_no_event() {
    let mut v = org_vault();
    v.ciphers[0].organization_uuid = None;
    v.ciphers[0].user_uuid = Some(7);
    v.collection_ciphers.clear();
    assert_eq!(v.post_collections_update(1, 7, &vec![]), Ok(None));
    assert_eq!(v.post_collections_update(1, 7, &vec![50]), Err(CipherError::InvalidCollection));
}
