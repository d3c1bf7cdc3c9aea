use vault_ciphers::model::{
    Cipher, CollectionCipher, CollectionGroup, CollectionUser, Favorite, Folder, FolderCipher, Group, GroupUser,
    Membership, MembershipType, Timestamp, Vault,
};
use vault_ciphers::sync::{CipherSyncData, CipherSyncType};
use vault_ciphers::vault_sync::{shows_ssh_keys, ClientVersion};

fn vault() -> Vault {
    let mut personal = Cipher::new(1, "p".to_string(), Timestamp { secs: 0, nanos: 0 });
    personal.uuid = 1;
    personal.user_uuid = Some(7);
    let mut shared = Cipher::new(5, "s".to_string(), Timestamp { secs: 0, nanos: 0 });
    shared.uuid = 2;
    shared.organization_uuid = Some(100);
    Vault {
        groups_enabled: true,
        ciphers: vec![personal, shared],
        memberships: vec![Membership { user_uuid: 7, org_uuid: 100, atype: MembershipType::User, access_all: false }],
        collections: vec![vault_ciphers::model::Collection { uuid: 50, org_uuid: 100 }],
        collection_ciphers: vec![CollectionCipher { cipher_uuid: 2, collection_uuid: 50 }],
        collection_users: vec![],
        collection_groups: vec![
            CollectionGroup { collections_uuid: 50, groups_uuid: 1, read_only: false, hide_passwords: true, manage: false },
            CollectionGroup { collections_uuid: 50, groups_uuid: 2, read_only: true, hide_passwords: true, manage: true },
        ],
        groups: vec![
            Group { uuid: 1, org_uuid: 100, access_all: false },
            Group { uuid: 2, org_uuid: 100, access_all: false },
        ],
        group_users: vec![GroupUser { groups_uuid: 1, user_uuid: 7 }, GroupUser { groups_uuid: 2, user_uuid: 7 }],
        attachments: vec![],
        folders: vec![Folder { uuid: 30, user_uuid: 7, name: "f".to_string() }],
        folder_ciphers: vec![FolderCipher { cipher_uuid: 1, folder_uuid: 30 }],
        favorites: vec![Favorite { user_uuid: 7, cipher_uuid: 1 }],
    }
}

#[test]
fn group_grants_combine_to_most_permissive() {
    let v = vault();
    let s = CipherSyncData::new(7, CipherSyncType::User, &v);
    let g = s.user_collections_groups.get(&50).unwrap();
    assert!(!g.read_only);
    assert!(g.hide_passwords);
    assert!(g.manage);
}

#[test]
fn organization_scope_has_no_folders_or_favorites() {
    let v = vault();
    let s = CipherSyncData::new(7, CipherSyncType::Organization, &v);
    assert!(s.cipher_folders.is_empty());
    assert!(s.cipher_favorites.is_empty());
    let u = CipherSyncData::new(7, CipherSyncType::User, &v);
    assert_eq!(u.cipher_folders.get(&1), Some(&30));
    assert!(u.cipher_favorites.contains(&1));
}

#[test]
fn snapshot_lists_members_collections_and_grants() {
    let mut v = vault();
    v.collection_users.push(CollectionUser { user_uuid: 7, collection_uuid: 50, read_only: true, hide_passwords: false, manage: false });
    v.groups[0].access_all = true;
    let s = CipherSyncData::new(7, CipherSyncType::User, &v);
    assert!(s.members.contains_key(&100));
    assert_eq!(s.cipher_collections.get(&2), Some(&vec![50]));
    assert!(s.user_collections.contains_key(&50));
    assert!(s.user_group_full_access_for_organizations.contains(&100));
    let other = CipherSyncData::new(8, CipherSyncType::User, &v);
    assert!(other.members.is_empty());
    assert!(other.cipher_collections.is_empty());
}

#[test]
fn snapshot_attachments_follow_visible_owners() {
    let mut v = vault();
    v.attachments.push(vault_ciphers::model::Attachment { id: 9, cipher_uuid: 2, file_name: "a".to_string(), file_size: 3, akey: None });
    let s = CipherSyncData::new(7, CipherSyncType::User, &v);
    assert_eq!(s.cipher_attachments.get(&2).map(|l| l.len()), Some(1));
    let other = CipherSyncData::new(8, CipherSyncType::User, &v);
    assert!(other.cipher_attachments.is_empty());
}

#[test]
fn groups_disabled_leave_group_maps_empty() {
    let mut v = vault();
    v.groups_enabled = false;
    let s = CipherSyncData::new(7, CipherSyncType::User, &v);
    assert!(s.user_collections_groups.is_empty());
    assert!(s.user_group_full_access_for_organizations.is_empty());
}

#[test]
fn ssh_keys_only_for_recent_clients() {
    let v = vault();
    assert!(!shows_ssh_keys(None));
    assert!(!shows_ssh_keys(Some(ClientVersion { major: 2024, minor: 11, patch: 9 })));
    assert!(shows_ssh_keys(Some(ClientVersion { major: 2024, minor: 12, patch: 0 })));
    assert!(shows_ssh_keys(Some(ClientVersion { major: 2025, minor: 1, patch: 0 })));
    let old = v.sync_ciphers(7, Some(ClientVersion { major: 2024, minor: 1, patch: 0 }));
    assert_eq!(old.len(), 1);
    let new = v.sync_ciphers(7, Some(ClientVersion { major: 2024, minor: 12, patch: 1 }));
    assert_eq!(new.len(), 2);
    assert_eq!(v.sync_ciphers(8, None).len(), 0);
}

#[test]
fn cipher_list_keeps_ssh_keys() {
    let v = vault();
    assert_eq!(v.get_ciphers(7).len(), 2);
    assert_eq!(v.get_ciphers(8).len(), 0);
}
