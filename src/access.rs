//! Read and write accessibility of ciphers and collections for one user.

use vstd::prelude::*;
use crate::model::{
    Cipher, CollectionCipher, CollectionGroup, CollectionUser, Group, GroupUser, Membership,
    Vault,
};

verus! {

/// A grant admits the access asked for: any grant admits reading, only a
/// grant that is not read-only admits writing.
pub open spec fn grant_admits(read_only: bool, write: bool) -> bool {
    !write || !read_only
}

impl CollectionUser {
    pub open spec fn admits(self, user: u64, col: u64, write: bool) -> bool {
        self.user_uuid == user && self.collection_uuid == col && grant_admits(self.read_only, write)
    }
}

impl GroupUser {
    pub open spec fn joins(self, user: u64, group: u64) -> bool {
        self.user_uuid == user && self.groups_uuid == group
    }
}

impl Membership {
    pub open spec fn of(self, user: u64, org: u64) -> bool {
        self.user_uuid == user && self.org_uuid == org
    }
}

impl Group {
    pub open spec fn full_in(self, org: u64) -> bool {
        self.org_uuid == org && self.access_all
    }
}

impl Vault {
    pub open spec fn spec_in_group(self, user: u64, group: u64) -> bool {
        exists|i: int| 0 <= i < self.group_users@.len() && #[trigger] self.group_users@[i].joins(user, group)
    }

    pub open spec fn spec_is_member(self, user: u64, org: u64) -> bool {
        exists|i: int| 0 <= i < self.memberships@.len() && #[trigger] self.memberships@[i].of(user, org)
    }

    pub open spec fn spec_member_full(self, user: u64, org: u64) -> bool {
        exists|i: int|
            0 <= i < self.memberships@.len() && #[trigger] self.memberships@[i].of(user, org)
                && self.memberships@[i].spec_full_access()
    }

    pub open spec fn spec_member_admin(self, user: u64, org: u64) -> bool {
        exists|i: int|
            0 <= i < self.memberships@.len() && #[trigger] self.memberships@[i].of(user, org)
                && self.memberships@[i].spec_is_admin()
    }

    /// Full access to the organization through a group the user is in.
    pub open spec fn spec_group_full(self, user: u64, org: u64) -> bool {
        self.groups_enabled && exists|i: int|
            0 <= i < self.groups@.len() && #[trigger] self.groups@[i].full_in(org)
                && self.spec_in_group(user, self.groups@[i].uuid)
    }

    pub open spec fn group_grant_admits(self, g: CollectionGroup, user: u64, col: u64, write: bool) -> bool {
        g.collections_uuid == col && grant_admits(g.read_only, write) && self.spec_in_group(user, g.groups_uuid)
    }

    /// A direct grant, or (with groups enabled) a grant to one of the
    /// user's groups, admits the access on the collection.
    pub open spec fn spec_collection_grant(self, user: u64, col: u64, write: bool) -> bool {
        (exists|i: int|
            0 <= i < self.collection_users@.len() && #[trigger] self.collection_users@[i].admits(user, col, write))
        || (self.groups_enabled && exists|i: int|
            0 <= i < self.collection_groups@.len()
                && #[trigger] self.group_grant_admits(self.collection_groups@[i], user, col, write))
    }

    /// The cipher is linked to a collection whose grants admit the access.
    pub open spec fn spec_via_collection(self, user: u64, cipher: u64, write: bool) -> bool {
        exists|i: int|
            0 <= i < self.collection_ciphers@.len() && #[trigger] self.collection_ciphers@[i].cipher_uuid == cipher
                && self.spec_collection_grant(user, self.collection_ciphers@[i].collection_uuid, write)
    }

    /// Cipher access: the owner user has it; otherwise a member of the
    /// owning organization has it through full access (own or by group) or
    /// through a collection that links the cipher.
    pub open spec fn spec_cipher_access(self, user: u64, c: Cipher, write: bool) -> bool {
        c.user_uuid == Some(user) || match c.organization_uuid {
            Some(org) => self.spec_is_member(user, org) && (self.spec_member_full(user, org)
                || self.spec_group_full(user, org) || self.spec_via_collection(user, c.uuid, write)),
            None => false,
        }
    }

    pub open spec fn spec_readable(self, user: u64, c: Cipher) -> bool {
        self.spec_cipher_access(user, c, false)
    }

    pub open spec fn spec_writable(self, user: u64, c: Cipher) -> bool {
        self.spec_cipher_access(user, c, true)
    }

    /// Collection write access: a member of the collection's organization
    /// with full access (own or by group) or a writable grant.
    pub open spec fn spec_collection_writable(self, user: u64, col: u64, org: u64) -> bool {
        self.spec_is_member(user, org) && (self.spec_member_full(user, org) || self.spec_group_full(user, org)
            || self.spec_collection_grant(user, col, true))
    }

    /// The admin entry point: owners and admins of the organization may
    /// write every collection of it; everyone else goes by the standard rule.
    pub open spec fn spec_collection_writable_admin(self, user: u64, col: u64, org: u64) -> bool {
        self.spec_member_admin(user, org) || self.spec_collection_writable(user, col, org)
    }

    pub fn in_group(&self, user: u64, group: u64) -> (r: bool)
        ensures
            r == self.spec_in_group(user, group),
    {
        let mut i: usize = 0;
        while i < self.group_users.len()
            invariant
                i <= self.group_users@.len(),
                forall|j: int| 0 <= j < i ==> !(#[trigger] self.group_users@[j].joins(user, group)),
            decreases self.group_users@.len() - i,
        {
            let gu = self.group_users[i];
            if gu.user_uuid == user && gu.groups_uuid == group {
                assert(self.group_users@[i as int].joins(user, group));
                return true;
            }
            i = i + 1;
        }
        false
    }

    /// Whether the user has a membership in the organization.
    pub fn is_member(&self, user: u64, org: u64) -> (r: bool)
        ensures
            r == self.spec_is_member(user, org),
    {
        let mut i: usize = 0;
        while i < self.memberships.len()
            invariant
                i <= self.memberships@.len(),
                forall|j: int| 0 <= j < i ==> !(#[trigger] self.memberships@[j].of(user, org)),
            decreases self.memberships@.len() - i,
        {
            let m = self.memberships[i];
            if m.user_uuid == user && m.org_uuid == org {
                assert(self.memberships@[i as int].of(user, org));
                return true;
            }
            i = i + 1;
        }
        false
    }

    /// Whether a membership of the user in the organization has full
    /// access (`admin` false) or is an owner or admin one (`admin` true).
    fn member_with(&self, user: u64, org: u64, admin: bool) -> (r: bool)
        ensures
            r == if admin { self.spec_member_admin(user, org) } else { self.spec_member_full(user, org) },
    {
        let mut i: usize = 0;
        while i < self.memberships.len()
            invariant
                i <= self.memberships@.len(),
                forall|j: int| 0 <= j < i ==> !(#[trigger] self.memberships@[j].of(user, org)
                    && (if admin { self.memberships@[j].spec_is_admin() } else { self.memberships@[j].spec_full_access() })),
            decreases self.memberships@.len() - i,
        {
            let m = self.memberships[i];
            if m.user_uuid == user && m.org_uuid == org {
                let hit = if admin { m.is_admin() } else { m.has_full_access() };
                if hit {
                    assert(self.memberships@[i as int].of(user, org));
                    return true;
                }
            }
            i = i + 1;
        }
        false
    }

    /// Whether the user is an owner or admin of the organization.
    pub fn is_org_admin(&self, user: u64, org: u64) -> (r: bool)
        ensures
            r == self.spec_member_admin(user, org),
    {
        self.member_with(user, org, true)
    }

    /// Whether one of the user's memberships in the organization has full access.
    pub fn member_has_full_access(&self, user: u64, org: u64) -> (r: bool)
        ensures
            r == self.spec_member_full(user, org),
    {
        self.member_with(user, org, false)
    }

    /// Whether a group of the organization with full access holds the user.
    pub fn group_full_access(&self, user: u64, org: u64) -> (r: bool)
        ensures
            r == self.spec_group_full(user, org),
    {
        if !self.groups_enabled {
            return false;
        }
        let mut i: usize = 0;
        while i < self.groups.len()
            invariant
                self.groups_enabled,
                i <= self.groups@.len(),
                forall|j: int| 0 <= j < i ==> !(#[trigger] self.groups@[j].full_in(org)
                    && self.spec_in_group(user, self.groups@[j].uuid)),
            decreases self.groups@.len() - i,
        {
            let g = self.groups[i];
            if g.org_uuid == org && g.access_all && self.in_group(user, g.uuid) {
                assert(self.groups@[i as int].full_in(org));
                return true;
            }
            i = i + 1;
        }
        false
    }

    /// Whether a direct or group grant on the collection admits the access.
    pub fn collection_grant(&self, user: u64, col: u64, write: bool) -> (r: bool)
        ensures
            r == self.spec_collection_grant(user, col, write),
    {
        let mut i: usize = 0;
        while i < self.collection_users.len()
            invariant
                i <= self.collection_users@.len(),
                forall|j: int| 0 <= j < i ==> !(#[trigger] self.collection_users@[j].admits(user, col, write)),
            decreases self.collection_users@.len() - i,
        {
            let cu = self.collection_users[i];
            if cu.user_uuid == user && cu.collection_uuid == col && (!write || !cu.read_only) {
                assert(self.collection_users@[i as int].admits(user, col, write));
                return true;
            }
            i = i + 1;
        }
        if !self.groups_enabled {
            return false;
        }
        let mut k: usize = 0;
        while k < self.collection_groups.len()
            invariant
                self.groups_enabled,
                k <= self.collection_groups@.len(),
                !(exists|j: int| 0 <= j < self.collection_users@.len()
                    && #[trigger] self.collection_users@[j].admits(user, col, write)),
                forall|j: int| 0 <= j < k ==> !(#[trigger] self.group_grant_admits(self.collection_groups@[j], user, col, write)),
            decreases self.collection_groups@.len() - k,
        {
            let cg = self.collection_groups[k];
            if cg.collections_uuid == col && (!write || !cg.read_only) && self.in_group(user, cg.groups_uuid) {
                assert(self.group_grant_admits(self.collection_groups@[k as int], user, col, write));
                return true;
            }
            k = k + 1;
        }
        false
    }

    fn via_collection(&self, user: u64, cipher: u64, write: bool) -> (r: bool)
        ensures
            r == self.spec_via_collection(user, cipher, write),
    {
        let mut i: usize = 0;
        while i < self.collection_ciphers.len()
            invariant
                i <= self.collection_ciphers@.len(),
                forall|j: int| 0 <= j < i ==> !(#[trigger] self.collection_ciphers@[j].cipher_uuid == cipher
                    && self.spec_collection_grant(user, self.collection_ciphers@[j].collection_uuid, write)),
            decreases self.collection_ciphers@.len() - i,
        {
            let cc = self.collection_ciphers[i];
            if cc.cipher_uuid == cipher && self.collection_grant(user, cc.collection_uuid, write) {
                assert(self.collection_ciphers@[i as int].cipher_uuid == cipher);
                return true;
            }
            i = i + 1;
        }
        false
    }

    fn cipher_access(&self, user: u64, c: &Cipher, write: bool) -> (r: bool)
        ensures
            r == self.spec_cipher_access(user, *c, write),
    {
        if c.user_uuid == Some(user) {
            return true;
        }
        match c.organization_uuid {
            Some(org) => self.is_member(user, org) && (self.member_has_full_access(user, org)
                || self.group_full_access(user, org) || self.via_collection(user, c.uuid, write)),
            None => false,
        }
    }

    /// Whether the user may read the cipher.
    pub fn is_accessible_to_user(&self, user: u64, c: &Cipher) -> (r: bool)
        ensures
            r == self.spec_readable(user, *c),
    {
        self.cipher_access(user, c, false)
    }

    /// Whether the user may modify the cipher.
    pub fn is_write_accessible_to_user(&self, user: u64, c: &Cipher) -> (r: bool)
        ensures
            r == self.spec_writable(user, *c),
    {
        self.cipher_access(user, c, true)
    }

    /// Whether the user may change which ciphers the collection of the
    /// organization holds.
    pub fn is_collection_writable(&self, user: u64, col: u64, org: u64) -> (r: bool)
        ensures
            r == self.spec_collection_writable(user, col, org),
    {
        self.is_member(user, org) && (self.member_has_full_access(user, org) || self.group_full_access(user, org)
            || self.collection_grant(user, col, true))
    }

    /// The admin entry point of `is_collection_writable`.
    pub fn is_collection_writable_admin(&self, user: u64, col: u64, org: u64) -> (r: bool)
        ensures
            r == self.spec_collection_writable_admin(user, col, org),
    {
        self.is_org_admin(user, org) || self.is_collection_writable(user, col, org)
    }
}

/// Whoever may write a cipher may read it.
pub proof fn lemma_writable_implies_readable(v: Vault, user: u64, c: Cipher)
    ensures
        v.spec_writable(user, c) ==> v.spec_readable(user, c),
{
    if v.spec_writable(user, c) && c.user_uuid != Some(user) {
        let org = c.organization_uuid->Some_0;
        if v.spec_via_collection(user, c.uuid, true) {
            let i = choose|i: int|
                0 <= i < v.collection_ciphers@.len() && #[trigger] v.collection_ciphers@[i].cipher_uuid == c.uuid
                    && v.spec_collection_grant(user, v.collection_ciphers@[i].collection_uuid, true);
            let col = v.collection_ciphers@[i].collection_uuid;
            if exists|j: int| 0 <= j < v.collection_users@.len() && #[trigger] v.collection_users@[j].admits(user, col, true) {
                let j = choose|j: int| 0 <= j < v.collection_users@.len() && #[trigger] v.collection_users@[j].admits(user, col, true);
                assert(v.collection_users@[j].admits(user, col, false));
            } else {
                let j = choose|j: int| 0 <= j < v.collection_groups@.len()
                    && #[trigger] v.group_grant_admits(v.collection_groups@[j], user, col, true);
                assert(v.group_grant_admits(v.collection_groups@[j], user, col, false));
            }
            assert(v.spec_collection_grant(user, col, false));
            assert(v.spec_via_collection(user, c.uuid, false));
        }
    }
}

impl Vault {
    /// The tables that access depends on agree.
    pub open spec fn same_access_tables(self, o: Vault) -> bool {
        &&& self.same_grant_tables(o)
        &&& self.collection_ciphers@ == o.collection_ciphers@
    }

    /// The membership, grant and group tables agree.
    pub open spec fn same_grant_tables(self, o: Vault) -> bool {
        &&& self.groups_enabled == o.groups_enabled
        &&& self.memberships@ == o.memberships@
        &&& self.collections@ == o.collections@
        &&& self.collection_users@ == o.collection_users@
        &&& self.collection_groups@ == o.collection_groups@
        &&& self.groups@ == o.groups@
        &&& self.group_users@ == o.group_users@
    }
}

/// Grants on a collection depend only on the grant and group tables.
pub proof fn lemma_grant_frame(a: Vault, b: Vault, user: u64, col: u64, write: bool)
    requires
        b.same_grant_tables(a),
    ensures
        b.spec_collection_grant(user, col, write) == a.spec_collection_grant(user, col, write),
{
    assert forall|i: int| 0 <= i < a.collection_groups@.len() implies
        #[trigger] b.group_grant_admits(b.collection_groups@[i], user, col, write)
        == a.group_grant_admits(a.collection_groups@[i], user, col, write) by {
        assert(b.spec_in_group(user, b.collection_groups@[i].groups_uuid)
            == a.spec_in_group(user, a.collection_groups@[i].groups_uuid));
    }
    if b.spec_collection_grant(user, col, write) && !a.spec_collection_grant(user, col, write) {
        if !(exists|i: int| 0 <= i < b.collection_users@.len() && #[trigger] b.collection_users@[i].admits(user, col, write)) {
            let i = choose|i: int| 0 <= i < b.collection_groups@.len()
                && #[trigger] b.group_grant_admits(b.collection_groups@[i], user, col, write);
            assert(a.group_grant_admits(a.collection_groups@[i], user, col, write));
        }
    }
    if !b.spec_collection_grant(user, col, write) && a.spec_collection_grant(user, col, write) {
        if !(exists|i: int| 0 <= i < a.collection_users@.len() && #[trigger] a.collection_users@[i].admits(user, col, write)) {
            let i = choose|i: int| 0 <= i < a.collection_groups@.len()
                && #[trigger] a.group_grant_admits(a.collection_groups@[i], user, col, write);
            assert(b.group_grant_admits(b.collection_groups@[i], user, col, write));
        }
    }
}

/// Access to a cipher depends only on the cipher's owner fields and the
/// access tables, not on other ciphers, folders or attachments.
pub proof fn lemma_access_frame(a: Vault, b: Vault, user: u64, c: Cipher, d: Cipher, write: bool)
    requires
        b.same_grant_tables(a),
        forall|l: CollectionCipher| l.cipher_uuid == c.uuid ==>
            (#[trigger] b.collection_ciphers@.contains(l) <==> a.collection_ciphers@.contains(l)),
        c.uuid == d.uuid,
        c.user_uuid == d.user_uuid,
        c.organization_uuid == d.organization_uuid,
    ensures
        b.spec_cipher_access(user, d, write) == a.spec_cipher_access(user, c, write),
{
    assert forall|col: u64| #[trigger] b.spec_collection_grant(user, col, write) == a.spec_collection_grant(user, col, write) by {
        lemma_grant_frame(a, b, user, col, write);
    }
    assert forall|o: u64| #[trigger] b.spec_is_member(user, o) == a.spec_is_member(user, o)
        && b.spec_member_full(user, o) == a.spec_member_full(user, o)
        && b.spec_group_full(user, o) == a.spec_group_full(user, o) by {}
    if b.spec_via_collection(user, c.uuid, write) != a.spec_via_collection(user, c.uuid, write) {
        if b.spec_via_collection(user, c.uuid, write) {
            let i = choose|i: int| 0 <= i < b.collection_ciphers@.len() && #[trigger] b.collection_ciphers@[i].cipher_uuid == c.uuid
                && b.spec_collection_grant(user, b.collection_ciphers@[i].collection_uuid, write);
            let l = b.collection_ciphers@[i];
            assert(b.collection_ciphers@.contains(l));
            let j = choose|j: int| 0 <= j < a.collection_ciphers@.len() && a.collection_ciphers@[j] == l;
            assert(a.collection_ciphers@[j].cipher_uuid == c.uuid);
        } else {
            let i = choose|i: int| 0 <= i < a.collection_ciphers@.len() && #[trigger] a.collection_ciphers@[i].cipher_uuid == c.uuid
                && a.spec_collection_grant(user, a.collection_ciphers@[i].collection_uuid, write);
            let l = a.collection_ciphers@[i];
            assert(a.collection_ciphers@.contains(l));
            assert(b.collection_ciphers@.contains(l) <==> a.collection_ciphers@.contains(l));
            let j = choose|j: int| 0 <= j < b.collection_ciphers@.len() && b.collection_ciphers@[j] == l;
            assert(b.collection_ciphers@[j].cipher_uuid == c.uuid);
        }
    }
}

} // verus!
