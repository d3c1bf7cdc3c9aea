use vault_ciphers::model::{
    Cipher, CollectionCipher, CollectionGroup, CollectionUser, Group, GroupUser, Membership, MembershipType, Timestamp,
    Vault,
};

fn empty_vault() -> Vault {
    Vault {
        groups_enabled: true,
        ciphers: vec![],
        memberships: vec![],
        collections: vec![],
        collection_ciphers: vec![],
        collection_users: vec![],
        collection_groups: vec![],
        groups: vec![],
        group_users: vec![],
        attachments: vec![],
        folders: vec![],
        folder_ciphers: vec![],
        favorites: vec![],
    }
}

fn org_cipher(uuid: u64, org: u64) -> Cipher {
    let mut c = Cipher::new(1, "name".to_string(), Timestamp { secs: 0, nanos: 0 });
    c.uuid = uuid;
    c.organization_uuid = Some(org);
    c
}

fn member(user: u64, org: u64, atype: MembershipType, access_all: bool) -> Membership {
    Membership { user_uuid: user, org_uuid: org, atype, access_all }
}

#[test]
fn owner_reads_and_writes_personal_cipher() {
    let v = empty_vault();
    let mut c = Cipher::new(1, "n".to_string(), Timestamp { secs: 0, nanos: 0 });
    c.user_uuid = Some(7);
    assert!(v.is_accessible_to_user(7, &c));
    assert!(v.is_write_accessible_to_user(7, &c));
    assert!(!v.is_accessible_to_user(8, &c));
    assert!(!v.is_write_accessible_to_user(8, &c));
}

#[test]
fn member_with_full_access_writes() {
    let mut v = empty_vault();
    v.memberships.push(member(2, 100, MembershipType::User, true));
    let c = org_cipher(1, 100);
    assert!(v.is_write_accessible_to_user(2, &c));
    assert!(v.is_accessible_to_user(2, &c));
}

#[test]
fn member_without_grant_has_no_access() {
    let mut v = empty_vault();
    v.memberships.push(member(2, 100, MembershipType::User, false));
    let c = org_cipher(1, 100);
    assert!(!v.is_accessible_to_user(2, &c));
}

#[test]
fn non_member_has_no_access_even_with_grant() {
    let mut v = empty_vault();
    v.collection_ciphers.push(CollectionCipher { cipher_uuid: 1, collection_uuid: 50 });
    v.collection_users.push(CollectionUser {
        user_uuid: 2,
        collection_uuid: 50,
        read_only: false,
        hide_passwords: false,
        manage: false,
    });
    let c = org_cipher(1, 100);
    assert!(!v.is_accessible_to_user(2, &c));
}

#[test]
fn read_only_grant_reads_but_does_not_write() {
    let mut v = empty_vault();
    v.memberships.push(member(2, 100, MembershipType::User, false));
    v.collection_ciphers.push(CollectionCipher { cipher_uuid: 1, collection_uuid: 50 });
    v.collection_users.push(CollectionUser {
        user_uuid: 2,
        collection_uuid: 50,
        read_only: true,
        hide_passwords: false,
        manage: false,
    });
    let c = org_cipher(1, 100);
    assert!(v.is_accessible_to_user(2, &c));
    assert!(!v.is_write_accessible_to_user(2, &c));
}

#[test]
fn writable_cipher_is_readable_on_every_path() {
    let mut v = empty_vault();
    v.memberships.push(member(2, 100, MembershipType::User, false));
    v.collection_ciphers.push(CollectionCipher { cipher_uuid: 1, collection_uuid: 50 });
    v.collection_groups.push(CollectionGroup {
        collections_uuid: 50,
        groups_uuid: 9,
        read_only: false,
        hide_passwords: false,
        manage: false,
    });
    v.group_users.push(GroupUser { groups_uuid: 9, user_uuid: 2 });
    let c = org_cipher(1, 100);
    assert!(v.is_write_accessible_to_user(2, &c));
    assert!(v.is_accessible_to_user(2, &c));
}

#[test]
fn group_grant_counts_only_with_groups_enabled() {
    let mut v = empty_vault();
    v.memberships.push(member(2, 100, MembershipType::User, false));
    v.collection_ciphers.push(CollectionCipher { cipher_uuid: 1, collection_uuid: 50 });
    v.collection_groups.push(CollectionGroup {
        collections_uuid: 50,
        groups_uuid: 9,
        read_only: false,
        hide_passwords: false,
        manage: false,
    });
    v.group_users.push(GroupUser { groups_uuid: 9, user_uuid: 2 });
    let c = org_cipher(1, 100);
    assert!(v.is_write_accessible_to_user(2, &c));
    v.groups_enabled = false;
    assert!(!v.is_accessible_to_user(2, &c));
}

#[test]
fn full_access_group_grants_write() {
    let mut v = empty_vault();
    v.memberships.push(member(2, 100, MembershipType::User, false));
    v.groups.push(Group { uuid: 9, org_uuid: 100, access_all: true });
    v.group_users.push(GroupUser { groups_uuid: 9, user_uuid: 2 });
    let c = org_cipher(1, 100);
    assert!(v.group_full_access(2, 100));
    assert!(v.is_write_accessible_to_user(2, &c));
}

#[test]
fn admin_entry_point_writes_any_collection() {
    let mut v = empty_vault();
    v.memberships.push(member(3, 100, MembershipType::Manager, false));
    assert!(!v.is_collection_writable(3, 50, 100));
    assert!(!v.is_collection_writable_admin(3, 50, 100));
    v.memberships.push(member(4, 100, MembershipType::Admin, false));
    assert!(v.is_collection_writable_admin(4, 50, 100));
    assert!(v.is_org_admin(4, 100));
    assert!(!v.is_org_admin(3, 100));
}

#[test]
fn collection_grant_writable_for_member() {
    let mut v = empty_vault();
    v.memberships.push(member(2, 100, MembershipType::User, false));
    v.collection_users.push(CollectionUser {
        user_uuid: 2,
        collection_uuid: 50,
        read_only: false,
        hide_passwords: true,
        manage: false,
    });
    assert!(v.is_collection_writable(2, 50, 100));
    assert!(!v.is_collection_writable(2, 51, 100));
}
