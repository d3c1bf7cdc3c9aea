//! The entities of the vault store, held as plain values keyed by integer ids.

use vstd::prelude::*;

verus! {

/// A point in time: whole seconds since the Unix epoch and the nanoseconds
/// past that second.
#[derive(Clone, Copy, Debug, PartialEq, Eq, Structural)]
pub struct Timestamp {
    pub secs: i64,
    pub nanos: u32,
}

impl Timestamp {
    /// The instant in nanoseconds since the epoch.
    pub open spec fn total_nanos(self) -> int {
        self.secs as int * 1_000_000_000 + self.nanos as int
    }
}

/// Role of a user inside one organization.
#[derive(Clone, Copy, Debug, PartialEq, Eq, Structural)]
pub enum MembershipType {
    Owner,
    Admin,
    Manager,
    User,
    Custom,
}

/// A user's membership in one organization.
#[derive(Clone, Copy, Debug, PartialEq, Eq, Structural)]
pub struct Membership {
    pub user_uuid: u64,
    pub org_uuid: u64,
    pub atype: MembershipType,
    /// Grants implicit access to every collection of the organization.
    pub access_all: bool,
}

impl Membership {
    pub open spec fn spec_is_admin(self) -> bool {
        self.atype == MembershipType::Owner || self.atype == MembershipType::Admin
    }

    pub open spec fn spec_full_access(self) -> bool {
        self.access_all || self.spec_is_admin()
    }

    /// Owners and admins of the organization.
    pub fn is_admin(&self) -> (r: bool)
        ensures
            r == self.spec_is_admin(),
    {
        match self.atype {
            MembershipType::Owner | MembershipType::Admin => true,
            _ => false,
        }
    }

    /// Whether the membership reaches every collection of the organization.
    pub fn has_full_access(&self) -> (r: bool)
        ensures
            r == self.spec_full_access(),
    {
        self.access_all || self.is_admin()
    }
}

/// A collection of an organization.
#[derive(Clone, Copy, Debug, PartialEq, Eq, Structural)]
pub struct Collection {
    pub uuid: u64,
    pub org_uuid: u64,
}

/// A link between a cipher and a collection.
#[derive(Clone, Copy, Debug, PartialEq, Eq, Structural)]
pub struct CollectionCipher {
    pub cipher_uuid: u64,
    pub collection_uuid: u64,
}

/// A permission grant on a collection to one user.
#[derive(Clone, Copy, Debug, PartialEq, Eq, Structural)]
pub struct CollectionUser {
    pub user_uuid: u64,
    pub collection_uuid: u64,
    pub read_only: bool,
    pub hide_passwords: bool,
    pub manage: bool,
}

/// A permission grant on a collection to one group.
#[derive(Clone, Copy, Debug, PartialEq, Eq, Structural)]
pub struct CollectionGroup {
    pub collections_uuid: u64,
    pub groups_uuid: u64,
    pub read_only: bool,
    pub hide_passwords: bool,
    pub manage: bool,
}

/// A group of an organization; `access_all` gives its members every
/// collection of the organization.
#[derive(Clone, Copy, Debug, PartialEq, Eq, Structural)]
pub struct Group {
    pub uuid: u64,
    pub org_uuid: u64,
    pub access_all: bool,
}

/// A user's membership in a group.
#[derive(Clone, Copy, Debug, PartialEq, Eq, Structural)]
pub struct GroupUser {
    pub groups_uuid: u64,
    pub user_uuid: u64,
}

/// A binary blob attached to a cipher.
#[derive(Clone, Debug)]
pub struct Attachment {
    pub id: u64,
    pub cipher_uuid: u64,
    pub file_name: String,
    pub file_size: i64,
    pub akey: Option<String>,
}

impl Attachment {
    /// A copy with the same fields.
    pub fn duplicate(&self) -> (r: Attachment)
        ensures
            r == *self,
    {
        Attachment {
            id: self.id,
            cipher_uuid: self.cipher_uuid,
            file_name: self.file_name.clone(),
            file_size: self.file_size,
            akey: match &self.akey {
                Some(k) => Some(k.clone()),
                None => None,
            },
        }
    }
}

/// A folder of one user; its name is ciphertext.
#[derive(Clone, Debug)]
pub struct Folder {
    pub uuid: u64,
    pub user_uuid: u64,
    pub name: String,
}

impl Folder {
    /// A copy with the same fields.
    pub fn duplicate(&self) -> (r: Folder)
        ensures
            r == *self,
    {
        Folder { uuid: self.uuid, user_uuid: self.user_uuid, name: self.name.clone() }
    }
}

/// The placement of a cipher in a folder.
#[derive(Clone, Copy, Debug, PartialEq, Eq, Structural)]
pub struct FolderCipher {
    pub cipher_uuid: u64,
    pub folder_uuid: u64,
}

/// A cipher marked as favorite by one user.
#[derive(Clone, Copy, Debug, PartialEq, Eq, Structural)]
pub struct Favorite {
    pub user_uuid: u64,
    pub cipher_uuid: u64,
}

/// One encrypted vault item. Its payload fields are ciphertext the server
/// never reads.
#[derive(Clone, Debug)]
pub struct Cipher {
    pub uuid: u64,
    pub atype: i32,
    pub user_uuid: Option<u64>,
    pub organization_uuid: Option<u64>,
    pub key: Option<String>,
    pub name: String,
    pub notes: Option<String>,
    pub fields: Option<String>,
    pub data: String,
    pub password_history: Option<String>,
    pub reprompt: Option<i32>,
    pub updated_at: Timestamp,
    pub deleted_at: Option<Timestamp>,
}

impl Cipher {
    /// Exactly one owner: a user or an organization.
    pub open spec fn owner_exclusive(self) -> bool {
        self.user_uuid.is_some() != self.organization_uuid.is_some()
    }

    /// A copy with the same fields.
    pub fn duplicate(&self) -> (r: Cipher)
        ensures
            r == *self,
    {
        Cipher {
            uuid: self.uuid,
            atype: self.atype,
            user_uuid: self.user_uuid,
            organization_uuid: self.organization_uuid,
            key: copy_text(&self.key),
            name: self.name.clone(),
            notes: copy_text(&self.notes),
            fields: copy_text(&self.fields),
            data: self.data.clone(),
            password_history: copy_text(&self.password_history),
            reprompt: self.reprompt,
            updated_at: self.updated_at,
            deleted_at: self.deleted_at,
        }
    }

    /// A new cipher of the given type and name, with an empty payload and
    /// no owner yet.
    pub fn new(atype: i32, name: String, now: Timestamp) -> (r: Cipher)
        ensures
            r.atype == atype,
            r.name == name,
            r.user_uuid.is_none(),
            r.organization_uuid.is_none(),
            r.updated_at == now,
            r.deleted_at.is_none(),
    {
        Cipher {
            uuid: 0,
            atype,
            user_uuid: None,
            organization_uuid: None,
            key: None,
            name,
            notes: None,
            fields: None,
            data: String::new(),
            password_history: None,
            reprompt: None,
            updated_at: now,
            deleted_at: None,
        }
    }
}

/// A copy of an optional text.
pub fn copy_text(t: &Option<String>) -> (r: Option<String>)
    ensures
        r == *t,
{
    match t {
        Some(s) => Some(s.clone()),
        None => None,
    }
}

/// The entity store: every table of the vault, and the configuration flag
/// that decides whether group grants count.
#[derive(Clone, Debug)]
pub struct Vault {
    pub groups_enabled: bool,
    pub ciphers: Vec<Cipher>,
    pub memberships: Vec<Membership>,
    pub collections: Vec<Collection>,
    pub collection_ciphers: Vec<CollectionCipher>,
    pub collection_users: Vec<CollectionUser>,
    pub collection_groups: Vec<CollectionGroup>,
    pub groups: Vec<Group>,
    pub group_users: Vec<GroupUser>,
    pub attachments: Vec<Attachment>,
    pub folders: Vec<Folder>,
    pub folder_ciphers: Vec<FolderCipher>,
    pub favorites: Vec<Favorite>,
}

} // verus!
