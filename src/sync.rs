//! The per-request snapshot of everything that annotating a whole vault
//! needs, built with one pass over each table instead of per-item lookups.

use vstd::prelude::*;
use std::collections::{HashMap, HashSet};
use crate::model::{Attachment, CollectionCipher, CollectionGroup, CollectionUser, Favorite, FolderCipher, Membership, Vault};

verus! {

broadcast use vstd::std_specs::hash::group_hash_axioms;

/// Which view a snapshot serves: a user's own vault, or an organization's.
#[derive(Clone, Copy, Debug, PartialEq, Eq, Structural)]
pub enum CipherSyncType {
    User,
    Organization,
}

/// Per-user annotations of the ciphers and collections of one sync.
pub struct CipherSyncData {
    pub cipher_attachments: HashMap<u64, Vec<Attachment>>,
    pub cipher_folders: HashMap<u64, u64>,
    pub cipher_favorites: HashSet<u64>,
    pub cipher_collections: HashMap<u64, Vec<u64>>,
    pub members: HashMap<u64, Membership>,
    pub user_collections: HashMap<u64, CollectionUser>,
    pub user_collections_groups: HashMap<u64, CollectionGroup>,
    pub user_group_full_access_for_organizations: HashSet<u64>,
}

impl Vault {
    /// A folder of the user holds the cipher.
    pub open spec fn spec_has_folder(self, user: u64, cipher: u64) -> bool {
        exists|j: int| 0 <= j < self.folder_ciphers@.len() && #[trigger] self.folder_ciphers@[j].cipher_uuid == cipher
            && self.spec_folder_of_user(self.folder_ciphers@[j].folder_uuid, user)
    }

    /// The group grant applies to the user.
    pub open spec fn spec_group_grant_of(self, g: CollectionGroup, user: u64) -> bool {
        self.spec_in_group(user, g.groups_uuid)
    }

    /// Some group grant on the collection applies to the user.
    pub open spec fn spec_has_group_grant(self, user: u64, col: u64) -> bool {
        exists|j: int| 0 <= j < self.collection_groups@.len() && #[trigger] self.collection_groups@[j].collections_uuid == col
            && self.spec_group_grant_of(self.collection_groups@[j], user)
    }

    /// The most permissive combination of the first `n` group grants on
    /// the collection that apply to the user: read-only and hidden
    /// passwords only where every grant says so, manage where any grant does.
    pub open spec fn spec_combined_upto(self, g: CollectionGroup, user: u64, col: u64, n: int) -> bool {
        &&& g.collections_uuid == col
        &&& g.read_only == forall|j: int| 0 <= j < n
            && #[trigger] self.collection_groups@[j].collections_uuid == col
            && self.spec_group_grant_of(self.collection_groups@[j], user) ==> self.collection_groups@[j].read_only
        &&& g.hide_passwords == forall|j: int| 0 <= j < n
            && #[trigger] self.collection_groups@[j].collections_uuid == col
            && self.spec_group_grant_of(self.collection_groups@[j], user) ==> self.collection_groups@[j].hide_passwords
        &&& g.manage == exists|j: int| 0 <= j < n
            && #[trigger] self.collection_groups@[j].collections_uuid == col
            && self.spec_group_grant_of(self.collection_groups@[j], user) && self.collection_groups@[j].manage
    }

    /// The combination of all group grants on the collection for the user.
    pub open spec fn spec_combined_grant(self, g: CollectionGroup, user: u64, col: u64) -> bool {
        self.spec_combined_upto(g, user, col, self.collection_groups@.len() as int)
    }

    /// The user sees the collection: through a grant, or as a member of
    /// its organization with full access of their own or by group.
    pub open spec fn spec_collection_visible(self, user: u64, col: u64) -> bool {
        self.spec_collection_grant(user, col, false) || exists|k: int| 0 <= k < self.collections@.len()
            && #[trigger] self.collections@[k].uuid == col
            && self.spec_is_member(user, self.collections@[k].org_uuid)
            && (self.spec_member_full(user, self.collections@[k].org_uuid)
                || self.spec_group_full(user, self.collections@[k].org_uuid))
    }

    /// The cipher is the user's own or belongs to an organization the user
    /// is a member of.
    pub open spec fn spec_cipher_in_scope(self, user: u64, cipher: u64) -> bool {
        exists|k: int| 0 <= k < self.ciphers@.len() && #[trigger] self.ciphers@[k].uuid == cipher
            && (self.ciphers@[k].user_uuid == Some(user) || (self.ciphers@[k].organization_uuid.is_some()
                && self.spec_is_member(user, self.ciphers@[k].organization_uuid->Some_0)))
    }

    pub fn collection_visible(&self, user: u64, col: u64) -> (r: bool)
        ensures
            r == self.spec_collection_visible(user, col),
    {
        if self.collection_grant(user, col, false) {
            return true;
        }
        let mut k: usize = 0;
        while k < self.collections.len()
            invariant
                k <= self.collections@.len(),
                !self.spec_collection_grant(user, col, false),
                forall|j: int| 0 <= j < k ==> !(#[trigger] self.collections@[j].uuid == col
                    && self.spec_is_member(user, self.collections@[j].org_uuid)
                    && (self.spec_member_full(user, self.collections@[j].org_uuid)
                        || self.spec_group_full(user, self.collections@[j].org_uuid))),
            decreases self.collections@.len() - k,
        {
            let c = self.collections[k];
            if c.uuid == col && self.is_member(user, c.org_uuid) && (self.member_has_full_access(user, c.org_uuid)
                || self.group_full_access(user, c.org_uuid)) {
                assert(self.collections@[k as int].uuid == col);
                return true;
            }
            k = k + 1;
        }
        false
    }

    pub fn cipher_in_scope(&self, user: u64, cipher: u64) -> (r: bool)
        ensures
            r == self.spec_cipher_in_scope(user, cipher),
    {
        let mut k: usize = 0;
        while k < self.ciphers.len()
            invariant
                k <= self.ciphers@.len(),
                forall|j: int| 0 <= j < k ==> !(#[trigger] self.ciphers@[j].uuid == cipher
                    && (self.ciphers@[j].user_uuid == Some(user) || (self.ciphers@[j].organization_uuid.is_some()
                        && self.spec_is_member(user, self.ciphers@[j].organization_uuid->Some_0)))),
            decreases self.ciphers@.len() - k,
        {
            let c = &self.ciphers[k];
            if c.uuid == cipher {
                let hit = c.user_uuid == Some(user) || match c.organization_uuid {
                    Some(o) => self.is_member(user, o),
                    None => false,
                };
                if hit {
                    assert(self.ciphers@[k as int].uuid == cipher);
                    return true;
                }
            }
            k = k + 1;
        }
        false
    }

    pub open spec fn spec_has_user_grant(self, user: u64, col: u64) -> bool {
        exists|j: int| 0 <= j < self.collection_users@.len() && #[trigger] self.collection_users@[j].user_uuid == user
            && self.collection_users@[j].collection_uuid == col
    }
}

impl CipherSyncData {
    fn folders_of(vault: &Vault, user: u64) -> (m: HashMap<u64, u64>)
        ensures
            forall|c: u64| #[trigger] m@.contains_key(c) <==> vault.spec_has_folder(user, c),
            forall|c: u64| #[trigger] m@.contains_key(c) ==> vault.spec_in_folder(user, c, m@[c]),
    {
        let mut m: HashMap<u64, u64> = HashMap::new();
        let mut i: usize = 0;
        while i < vault.folder_ciphers.len()
            invariant
                i <= vault.folder_ciphers@.len(),
                forall|c: u64| #[trigger] m@.contains_key(c) <==> exists|j: int| 0 <= j < i
                    && #[trigger] vault.folder_ciphers@[j].cipher_uuid == c
                    && vault.spec_folder_of_user(vault.folder_ciphers@[j].folder_uuid, user),
                forall|c: u64| #[trigger] m@.contains_key(c) ==> vault.spec_in_folder(user, c, m@[c]),
            decreases vault.folder_ciphers@.len() - i,
        {
            let fc = vault.folder_ciphers[i];
            if vault.folder_of_user(fc.folder_uuid, user) {
                m.insert(fc.cipher_uuid, fc.folder_uuid);
                assert(vault.folder_ciphers@[i as int] == (FolderCipher { cipher_uuid: fc.cipher_uuid, folder_uuid: fc.folder_uuid }));
            }
            i = i + 1;
            assert forall|c: u64| #[trigger] m@.contains_key(c) <==> exists|j: int| 0 <= j < i
                && #[trigger] vault.folder_ciphers@[j].cipher_uuid == c
                && vault.spec_folder_of_user(vault.folder_ciphers@[j].folder_uuid, user) by {
                if c == fc.cipher_uuid && vault.spec_folder_of_user(fc.folder_uuid, user) {
                    assert(vault.folder_ciphers@[i - 1].cipher_uuid == c);
                }
            }
        }
        m
    }

    fn favorites_of(vault: &Vault, user: u64) -> (s: HashSet<u64>)
        ensures
            forall|c: u64| #[trigger] s@.contains(c) <==> vault.spec_is_favorite(user, c),
    {
        let mut s: HashSet<u64> = HashSet::new();
        let mut i: usize = 0;
        while i < vault.favorites.len()
            invariant
                i <= vault.favorites@.len(),
                forall|c: u64| #[trigger] s@.contains(c) <==> exists|j: int| 0 <= j < i
                    && #[trigger] vault.favorites@[j] == (Favorite { user_uuid: user, cipher_uuid: c }),
            decreases vault.favorites@.len() - i,
        {
            let f = vault.favorites[i];
            if f.user_uuid == user {
                s.insert(f.cipher_uuid);
            }
            i = i + 1;
            assert forall|c: u64| #[trigger] s@.contains(c) <==> exists|j: int| 0 <= j < i
                && #[trigger] vault.favorites@[j] == (Favorite { user_uuid: user, cipher_uuid: c }) by {
                if f.user_uuid == user && c == f.cipher_uuid {
                    assert(vault.favorites@[i - 1] == (Favorite { user_uuid: user, cipher_uuid: c }));
                }
            }
        }
        s
    }

    fn members_of(vault: &Vault, user: u64) -> (m: HashMap<u64, Membership>)
        ensures
            forall|o: u64| #[trigger] m@.contains_key(o) <==> vault.spec_is_member(user, o),
            forall|o: u64| #[trigger] m@.contains_key(o) ==> m@[o].of(user, o) && vault.memberships@.contains(m@[o]),
    {
        let mut m: HashMap<u64, Membership> = HashMap::new();
        let mut i: usize = 0;
        while i < vault.memberships.len()
            invariant
                i <= vault.memberships@.len(),
                forall|o: u64| #[trigger] m@.contains_key(o) <==> exists|j: int| 0 <= j < i
                    && #[trigger] vault.memberships@[j].of(user, o),
                forall|o: u64| #[trigger] m@.contains_key(o) ==> m@[o].of(user, o) && vault.memberships@.contains(m@[o]),
            decreases vault.memberships@.len() - i,
        {
            let mb = vault.memberships[i];
            if mb.user_uuid == user {
                m.insert(mb.org_uuid, mb);
                assert(vault.memberships@[i as int] == mb);
            }
            i = i + 1;
            assert forall|o: u64| #[trigger] m@.contains_key(o) <==> exists|j: int| 0 <= j < i
                && #[trigger] vault.memberships@[j].of(user, o) by {
                if mb.user_uuid == user && o == mb.org_uuid {
                    assert(vault.memberships@[i - 1].of(user, o));
                }
            }
        }
        m
    }

    fn user_grants_of(vault: &Vault, user: u64) -> (m: HashMap<u64, CollectionUser>)
        ensures
            forall|col: u64| #[trigger] m@.contains_key(col) <==> vault.spec_has_user_grant(user, col),
            forall|col: u64| #[trigger] m@.contains_key(col) ==> m@[col].user_uuid == user
                && m@[col].collection_uuid == col && vault.collection_users@.contains(m@[col]),
    {
        let mut m: HashMap<u64, CollectionUser> = HashMap::new();
        let mut i: usize = 0;
        while i < vault.collection_users.len()
            invariant
                i <= vault.collection_users@.len(),
                forall|col: u64| #[trigger] m@.contains_key(col) <==> exists|j: int| 0 <= j < i
                    && #[trigger] vault.collection_users@[j].user_uuid == user && vault.collection_users@[j].collection_uuid == col,
                forall|col: u64| #[trigger] m@.contains_key(col) ==> m@[col].user_uuid == user
                    && m@[col].collection_uuid == col && vault.collection_users@.contains(m@[col]),
            decreases vault.collection_users@.len() - i,
        {
            let cu = vault.collection_users[i];
            if cu.user_uuid == user {
                m.insert(cu.collection_uuid, cu);
                assert(vault.collection_users@[i as int] == cu);
            }
            i = i + 1;
            assert forall|col: u64| #[trigger] m@.contains_key(col) <==> exists|j: int| 0 <= j < i
                && #[trigger] vault.collection_users@[j].user_uuid == user && vault.collection_users@[j].collection_uuid == col by {
                if cu.user_uuid == user && col == cu.collection_uuid {
                    assert(vault.collection_users@[i - 1].user_uuid == user);
                }
            }
        }
        m
    }

    fn group_grants_of(vault: &Vault, user: u64) -> (m: HashMap<u64, CollectionGroup>)
        ensures
            !vault.groups_enabled ==> m@ == Map::<u64, CollectionGroup>::empty(),
            forall|col: u64| #[trigger] m@.contains_key(col) <==> vault.groups_enabled && vault.spec_has_group_grant(user, col),
            forall|col: u64| #[trigger] m@.contains_key(col) ==> vault.spec_combined_grant(m@[col], user, col),
    {
        let mut m: HashMap<u64, CollectionGroup> = HashMap::new();
        if !vault.groups_enabled {
            return m;
        }
        let mut i: usize = 0;
        while i < vault.collection_groups.len()
            invariant
                vault.groups_enabled,
                i <= vault.collection_groups@.len(),
                forall|col: u64| #[trigger] m@.contains_key(col) <==> exists|j: int| 0 <= j < i
                    && #[trigger] vault.collection_groups@[j].collections_uuid == col
                    && vault.spec_group_grant_of(vault.collection_groups@[j], user),
                forall|col: u64| #[trigger] m@.contains_key(col) ==> vault.spec_combined_upto(m@[col], user, col, i as int),
            decreases vault.collection_groups@.len() - i,
        {
            let cg = vault.collection_groups[i];
            let ghost m0 = m@;
            if vault.in_group(user, cg.groups_uuid) {
                let merged = match m.get(&cg.collections_uuid) {
                    Some(e) => CollectionGroup {
                        collections_uuid: e.collections_uuid,
                        groups_uuid: e.groups_uuid,
                        read_only: e.read_only && cg.read_only,
                        hide_passwords: e.hide_passwords && cg.hide_passwords,
                        manage: e.manage || cg.manage,
                    },
                    None => cg,
                };
                m.insert(cg.collections_uuid, merged);
            }
            i = i + 1;
            proof {
                let k = i - 1;
                assert(vault.collection_groups@[k] == cg);
                assert forall|col: u64| #[trigger] m@.contains_key(col) <==> exists|j: int| 0 <= j < i
                    && #[trigger] vault.collection_groups@[j].collections_uuid == col
                    && vault.spec_group_grant_of(vault.collection_groups@[j], user) by {
                    if col == cg.collections_uuid && vault.spec_group_grant_of(cg, user) {
                        assert(vault.collection_groups@[k].collections_uuid == col);
                    }
                }
                assert forall|col: u64| #[trigger] m@.contains_key(col) implies vault.spec_combined_upto(m@[col], user, col, i as int) by {
                    if col == cg.collections_uuid && vault.spec_group_grant_of(cg, user) {
                        if m0.contains_key(col) {
                            assert(vault.spec_combined_upto(m0[col], user, col, k));
                        } else {
                            assert forall|j: int| 0 <= j < k implies !(#[trigger] vault.collection_groups@[j].collections_uuid == col
                                && vault.spec_group_grant_of(vault.collection_groups@[j], user)) by {}
                        }
                        let g = m@[col];
                        assert(g.manage ==> exists|j: int| 0 <= j < i
                            && #[trigger] vault.collection_groups@[j].collections_uuid == col
                            && vault.spec_group_grant_of(vault.collection_groups@[j], user) && vault.collection_groups@[j].manage) by {
                            if cg.manage {
                                assert(vault.collection_groups@[k].collections_uuid == col);
                            }
                        }
                    } else {
                        assert(m@[col] == m0[col]);
                        assert(vault.spec_combined_upto(m0[col], user, col, k));
                    }
                }
            }
        }
        m
    }

    fn cipher_collections_of(vault: &Vault, user: u64) -> (m: HashMap<u64, Vec<u64>>)
        ensures
            forall|c: u64, col: u64| #[trigger] listed(m@, c, col)
                <==> (vault.spec_linked(c, col) && vault.spec_collection_visible(user, col)),
            forall|c: u64| #[trigger] m@.contains_key(c) ==> m@[c]@.len() > 0,
    {
        let mut m: HashMap<u64, Vec<u64>> = HashMap::new();
        let mut i: usize = 0;
        while i < vault.collection_ciphers.len()
            invariant
                i <= vault.collection_ciphers@.len(),
                forall|c: u64, col: u64| #[trigger] listed(m@, c, col)
                    <==> (exists|j: int| 0 <= j < i && #[trigger] vault.collection_ciphers@[j]
                        == (CollectionCipher { cipher_uuid: c, collection_uuid: col })) && vault.spec_collection_visible(user, col),
                forall|c: u64| #[trigger] m@.contains_key(c) ==> m@[c]@.len() > 0,
            decreases vault.collection_ciphers@.len() - i,
        {
            let link = vault.collection_ciphers[i];
            let ghost m0 = m@;
            if vault.collection_visible(user, link.collection_uuid) {
                push_to(&mut m, link.cipher_uuid, link.collection_uuid);
            }
            i = i + 1;
            proof {
                assert(vault.collection_ciphers@[i - 1] == link);
                let pushed = vault.spec_collection_visible(user, link.collection_uuid);
                assert forall|c: u64, col: u64| #[trigger] listed(m@, c, col)
                    <==> (exists|j: int| 0 <= j < i && #[trigger] vault.collection_ciphers@[j]
                        == (CollectionCipher { cipher_uuid: c, collection_uuid: col })) && vault.spec_collection_visible(user, col) by {
                    let l = CollectionCipher { cipher_uuid: c, collection_uuid: col };
                    let prev_has = exists|j: int| 0 <= j < i - 1 && #[trigger] vault.collection_ciphers@[j] == l;
                    let now_has = exists|j: int| 0 <= j < i && #[trigger] vault.collection_ciphers@[j] == l;
                    assert(now_has == (prev_has || link == l)) by {
                        if now_has && !prev_has {
                            let j = choose|j: int| 0 <= j < i && #[trigger] vault.collection_ciphers@[j] == l;
                            assert(j == i - 1);
                        }
                        if link == l {
                            assert(vault.collection_ciphers@[i - 1] == l);
                        }
                    }
                    assert(listed(m0, c, col) == (prev_has && vault.spec_collection_visible(user, col)));
                    if pushed && c == link.cipher_uuid {
                        assert(listed(m@, c, col) == (listed(m0, c, col) || col == link.collection_uuid)) by {
                            let s1 = m@[c]@;
                            let s0 = if m0.contains_key(c) { m0[c]@ } else { Seq::<u64>::empty() };
                            assert(s1 == s0.push(link.collection_uuid));
                            if s1.contains(col) {
                                let q = choose|q: int| 0 <= q < s1.len() && s1[q] == col;
                                if q < s0.len() { assert(s0[q] == col); }
                            }
                            if listed(m0, c, col) {
                                let q = choose|q: int| 0 <= q < s0.len() && s0[q] == col;
                                assert(s1[q] == col);
                            }
                            if col == link.collection_uuid {
                                assert(s1[s0.len() as int] == col);
                            }
                        }
                    } else if pushed {
                        assert(m@.contains_key(c) == m0.contains_key(c));
                        if m0.contains_key(c) {
                            assert(m@[c] == m0[c]);
                        }
                    }
                }
            }
        }
        assert forall|c: u64, col: u64| (exists|j: int| 0 <= j < vault.collection_ciphers@.len()
            && #[trigger] vault.collection_ciphers@[j] == (CollectionCipher { cipher_uuid: c, collection_uuid: col }))
            <==> #[trigger] vault.spec_linked(c, col) by {}
        m
    }

    fn cipher_attachments_of(vault: &Vault, user: u64) -> (m: HashMap<u64, Vec<Attachment>>)
        requires
            vault.wf(),
        ensures
            forall|c: u64| #[trigger] m@.contains_key(c) ==> m@[c]@.no_duplicates(),
            forall|c: u64, a: Attachment| #[trigger] listed(m@, c, a)
                <==> (vault.attachments@.contains(a) && a.cipher_uuid == c && vault.spec_cipher_in_scope(user, c)),
            forall|c: u64| #[trigger] m@.contains_key(c) ==> m@[c]@.len() > 0,
    {
        let mut m: HashMap<u64, Vec<Attachment>> = HashMap::new();
        let mut i: usize = 0;
        while i < vault.attachments.len()
            invariant
                i <= vault.attachments@.len(),
                forall|c: u64, a: Attachment| #[trigger] listed(m@, c, a)
                    <==> ((exists|j: int| 0 <= j < i && #[trigger] vault.attachments@[j] == a) && a.cipher_uuid == c
                        && vault.spec_cipher_in_scope(user, c)),
                forall|c: u64| #[trigger] m@.contains_key(c) ==> m@[c]@.len() > 0,
                forall|c: u64| #[trigger] m@.contains_key(c) ==> m@[c]@.no_duplicates(),
                vault.wf(),
            decreases vault.attachments@.len() - i,
        {
            let att = vault.attachments[i].duplicate();
            let ghost m0 = m@;
            let c0 = att.cipher_uuid;
            if vault.cipher_in_scope(user, c0) {
                push_to(&mut m, c0, att);
            }
            i = i + 1;
            proof {
                let a0 = vault.attachments@[i - 1];
                assert forall|c: u64| #[trigger] m@.contains_key(c) implies m@[c]@.no_duplicates() by {
                    if c == c0 && vault.spec_cipher_in_scope(user, c0) {
                        let s0 = if m0.contains_key(c) { m0[c]@ } else { Seq::<Attachment>::empty() };
                        assert(m@[c]@ == s0.push(a0));
                        if s0.contains(a0) {
                            assert(listed(m0, c, a0));
                            let j = choose|j: int| 0 <= j < i - 1 && #[trigger] vault.attachments@[j] == a0;
                            assert(vault.attachments@[j].id == vault.attachments@[i - 1].id);
                        }
                        assert forall|x: int, y: int| 0 <= x < m@[c]@.len() && 0 <= y < m@[c]@.len() && x != y
                            implies m@[c]@[x] != m@[c]@[y] by {
                            if x == s0.len() as int {
                                assert(s0[y] == m@[c]@[y]);
                            } else if y == s0.len() as int {
                                assert(s0[x] == m@[c]@[x]);
                            } else {
                                assert(s0[x] == m@[c]@[x] && s0[y] == m@[c]@[y]);
                            }
                        }
                    } else if vault.spec_cipher_in_scope(user, c0) {
                        assert(m@[c] == m0[c]);
                    }
                }
                let pushed = vault.spec_cipher_in_scope(user, c0);
                assert(att == a0);
                assert forall|c: u64, a: Attachment| #[trigger] listed(m@, c, a)
                    <==> ((exists|j: int| 0 <= j < i && #[trigger] vault.attachments@[j] == a) && a.cipher_uuid == c
                        && vault.spec_cipher_in_scope(user, c)) by {
                    let prev_has = exists|j: int| 0 <= j < i - 1 && #[trigger] vault.attachments@[j] == a;
                    let now_has = exists|j: int| 0 <= j < i && #[trigger] vault.attachments@[j] == a;
                    assert(now_has == (prev_has || a0 == a)) by {
                        if now_has && !prev_has {
                            let j = choose|j: int| 0 <= j < i && #[trigger] vault.attachments@[j] == a;
                            assert(j == i - 1);
                        }
                        if a0 == a {
                            assert(vault.attachments@[i - 1] == a);
                        }
                    }
                    assert(listed(m0, c, a) == (prev_has && a.cipher_uuid == c && vault.spec_cipher_in_scope(user, c)));
                    if pushed && c == c0 {
                        assert(listed(m@, c, a) == (listed(m0, c, a) || a == a0)) by {
                            let s1 = m@[c]@;
                            let s0 = if m0.contains_key(c) { m0[c]@ } else { Seq::<Attachment>::empty() };
                            assert(s1 == s0.push(a0));
                            if s1.contains(a) {
                                let q = choose|q: int| 0 <= q < s1.len() && s1[q] == a;
                                if q < s0.len() { assert(s0[q] == a); }
                            }
                            if listed(m0, c, a) {
                                let q = choose|q: int| 0 <= q < s0.len() && s0[q] == a;
                                assert(s1[q] == a);
                            }
                            if a == a0 {
                                assert(s1[s0.len() as int] == a);
                            }
                        }
                    } else if pushed {
                        assert(m@.contains_key(c) == m0.contains_key(c));
                        if m0.contains_key(c) {
                            assert(m@[c] == m0[c]);
                        }
                    }
                }
            }
        }
        m
    }

    /// The snapshot for one user. An organization view holds no folders
    /// and no favorites; group grants and group full access count only
    /// where groups are enabled.
    pub fn new(user_id: u64, sync_type: CipherSyncType, vault: &Vault) -> (r: CipherSyncData)
        requires
            vault.wf(),
        ensures
            forall|c: u64| #[trigger] r.cipher_attachments@.contains_key(c) ==> r.cipher_attachments@[c]@.no_duplicates(),
            sync_type == CipherSyncType::Organization ==> r.cipher_folders@ == Map::<u64, u64>::empty()
                && r.cipher_favorites@ == Set::<u64>::empty(),
            sync_type == CipherSyncType::User ==> {
                &&& forall|c: u64| #[trigger] r.cipher_folders@.contains_key(c) <==> vault.spec_has_folder(user_id, c)
                &&& forall|c: u64| #[trigger] r.cipher_folders@.contains_key(c)
                    ==> vault.spec_in_folder(user_id, c, r.cipher_folders@[c])
                &&& forall|c: u64| #[trigger] r.cipher_favorites@.contains(c) <==> vault.spec_is_favorite(user_id, c)
            },
            forall|c: u64, a: Attachment| #[trigger] listed(r.cipher_attachments@, c, a)
                <==> (vault.attachments@.contains(a) && a.cipher_uuid == c && vault.spec_cipher_in_scope(user_id, c)),
            forall|c: u64, col: u64| #[trigger] listed(r.cipher_collections@, c, col)
                <==> (vault.spec_linked(c, col) && vault.spec_collection_visible(user_id, col)),
            forall|c: u64| #[trigger] r.cipher_collections@.contains_key(c) ==> r.cipher_collections@[c]@.len() > 0,
            forall|c: u64| #[trigger] r.cipher_attachments@.contains_key(c) ==> r.cipher_attachments@[c]@.len() > 0,
            forall|o: u64| #[trigger] r.members@.contains_key(o) <==> vault.spec_is_member(user_id, o),
            forall|o: u64| #[trigger] r.members@.contains_key(o) ==> r.members@[o].of(user_id, o)
                && vault.memberships@.contains(r.members@[o]),
            forall|col: u64| #[trigger] r.user_collections@.contains_key(col) <==> vault.spec_has_user_grant(user_id, col),
            forall|col: u64| #[trigger] r.user_collections@.contains_key(col) ==> r.user_collections@[col].user_uuid == user_id
                && r.user_collections@[col].collection_uuid == col && vault.collection_users@.contains(r.user_collections@[col]),
            forall|col: u64| #[trigger] r.user_collections_groups@.contains_key(col)
                <==> vault.groups_enabled && vault.spec_has_group_grant(user_id, col),
            forall|col: u64| #[trigger] r.user_collections_groups@.contains_key(col)
                ==> vault.spec_combined_grant(r.user_collections_groups@[col], user_id, col),
            forall|o: u64| #[trigger] r.user_group_full_access_for_organizations@.contains(o) <==> vault.spec_group_full(user_id, o),
    {
        let cipher_folders: HashMap<u64, u64>;
        let cipher_favorites: HashSet<u64>;
        match sync_type {
            CipherSyncType::User => {
                cipher_folders = Self::folders_of(vault, user_id);
                cipher_favorites = Self::favorites_of(vault, user_id);
            },
            CipherSyncType::Organization => {
                cipher_folders = HashMap::new();
                cipher_favorites = HashSet::new();
            },
        }
        CipherSyncData {
            cipher_attachments: Self::cipher_attachments_of(vault, user_id),
            cipher_folders,
            cipher_favorites,
            cipher_collections: Self::cipher_collections_of(vault, user_id),
            members: Self::members_of(vault, user_id),
            user_collections: Self::user_grants_of(vault, user_id),
            user_collections_groups: Self::group_grants_of(vault, user_id),
            user_group_full_access_for_organizations: Self::group_full_orgs(vault, user_id),
        }
    }

    fn group_full_orgs(vault: &Vault, user: u64) -> (s: HashSet<u64>)
        ensures
            forall|o: u64| #[trigger] s@.contains(o) <==> vault.spec_group_full(user, o),
    {
        let mut s: HashSet<u64> = HashSet::new();
        if !vault.groups_enabled {
            return s;
        }
        let mut i: usize = 0;
        while i < vault.groups.len()
            invariant
                vault.groups_enabled,
                i <= vault.groups@.len(),
                forall|o: u64| #[trigger] s@.contains(o) <==> exists|j: int| 0 <= j < i
                    && #[trigger] vault.groups@[j].full_in(o) && vault.spec_in_group(user, vault.groups@[j].uuid),
            decreases vault.groups@.len() - i,
        {
            let g = vault.groups[i];
            if g.access_all && vault.in_group(user, g.uuid) {
                s.insert(g.org_uuid);
            }
            i = i + 1;
            assert forall|o: u64| #[trigger] s@.contains(o) <==> exists|j: int| 0 <= j < i
                && #[trigger] vault.groups@[j].full_in(o) && vault.spec_in_group(user, vault.groups@[j].uuid) by {
                if g.access_all && vault.spec_in_group(user, g.uuid) && o == g.org_uuid {
                    assert(vault.groups@[i - 1].full_in(o));
                }
            }
        }
        s
    }
}

/// The list under the key holds the item.
pub open spec fn listed<T>(m: Map<u64, Vec<T>>, k: u64, x: T) -> bool {
    m.contains_key(k) && m[k]@.contains(x)
}

/// Appends the item to the list under the key, starting the list if the
/// key is new.
fn push_to<T>(m: &mut HashMap<u64, Vec<T>>, k: u64, x: T)
    ensures
        final(m)@.dom() == old(m)@.dom().insert(k),
        final(m)@[k]@ == (if old(m)@.contains_key(k) { old(m)@[k]@ } else { Seq::<T>::empty() }).push(x),
        forall|k2: u64| k2 != k && old(m)@.contains_key(k2) ==> #[trigger] final(m)@[k2] == old(m)@[k2],
{
    let ghost m0 = m@;
    let mut list = match m.remove(&k) {
        Some(l) => l,
        None => Vec::new(),
    };
    list.push(x);
    m.insert(k, list);
    assert(m@.dom() =~= m0.dom().insert(k));
}

} // verus!
