//! Reconciliation of the collections that hold a cipher with a posted set.

use vstd::prelude::*;
use crate::error::CipherError;
use crate::model::{CollectionCipher, Vault};

verus! {

impl Vault {
    pub open spec fn spec_linked(self, cipher: u64, col: u64) -> bool {
        exists|i: int| 0 <= i < self.collection_ciphers@.len()
            && #[trigger] self.collection_ciphers@[i] == (CollectionCipher { cipher_uuid: cipher, collection_uuid: col })
    }

    pub open spec fn spec_collection_in_org(self, col: u64, org: Option<u64>) -> bool {
        org.is_some() && exists|i: int| 0 <= i < self.collections@.len() && #[trigger] self.collections@[i].uuid == col
            && self.collections@[i].org_uuid == org->Some_0
    }

    /// The user sees the collection when reconciling: through a grant or
    /// full access, or, on the admin entry point, as an owner or admin of
    /// the cipher's organization.
    pub open spec fn spec_sees(self, user: u64, col: u64, org: Option<u64>, admin: bool) -> bool {
        self.spec_collection_visible(user, col) || (admin && org.is_some() && self.spec_member_admin(user, org->Some_0))
    }

    /// The collection's visible link to the cipher differs from the posted set.
    pub open spec fn spec_changed(self, cipher: u64, col: u64, posted: Seq<u64>, user: u64, org: Option<u64>, admin: bool) -> bool {
        (self.spec_linked(cipher, col) && self.spec_sees(user, col, org, admin)) != posted.contains(col)
    }

    pub open spec fn spec_may_edit(self, user: u64, col: u64, org: Option<u64>, admin: bool) -> bool {
        org.is_some() && if admin {
            self.spec_collection_writable_admin(user, col, org->Some_0)
        } else {
            self.spec_collection_writable(user, col, org->Some_0)
        }
    }

    /// Every changed collection must belong to the cipher's organization,
    /// then every one must be writable by the user.
    pub open spec fn spec_reconcile_check(self, cipher: u64, org: Option<u64>, user: u64, posted: Seq<u64>, admin: bool) -> Result<(), CipherError> {
        if exists|col: u64| #[trigger] self.spec_changed(cipher, col, posted, user, org, admin) && !self.spec_collection_in_org(col, org) {
            Err(CipherError::InvalidCollection)
        } else if exists|col: u64| #[trigger] self.spec_changed(cipher, col, posted, user, org, admin)
            && !self.spec_may_edit(user, col, org, admin) {
            Err(CipherError::CollectionNotWritable)
        } else {
            Ok(())
        }
    }

    fn sees(&self, user: u64, col: u64, org: Option<u64>, admin: bool) -> (r: bool)
        ensures
            r == self.spec_sees(user, col, org, admin),
    {
        if self.collection_visible(user, col) {
            return true;
        }
        match org {
            Some(o) => admin && self.is_org_admin(user, o),
            None => false,
        }
    }

    pub fn is_linked(&self, cipher: u64, col: u64) -> (r: bool)
        ensures
            r == self.spec_linked(cipher, col),
    {
        let target = CollectionCipher { cipher_uuid: cipher, collection_uuid: col };
        let mut i: usize = 0;
        while i < self.collection_ciphers.len()
            invariant
                target == (CollectionCipher { cipher_uuid: cipher, collection_uuid: col }),
                i <= self.collection_ciphers@.len(),
                forall|j: int| 0 <= j < i ==> #[trigger] self.collection_ciphers@[j] != target,
            decreases self.collection_ciphers@.len() - i,
        {
            let l = self.collection_ciphers[i];
            if l.cipher_uuid == cipher && l.collection_uuid == col {
                assert(self.collection_ciphers@[i as int] == target);
                return true;
            }
            i = i + 1;
        }
        false
    }

    pub fn collection_in_org(&self, col: u64, org: Option<u64>) -> (r: bool)
        ensures
            r == self.spec_collection_in_org(col, org),
    {
        let o = match org {
            Some(o) => o,
            None => return false,
        };
        let mut i: usize = 0;
        while i < self.collections.len()
            invariant
                org == Some(o),
                i <= self.collections@.len(),
                forall|j: int| 0 <= j < i ==> !(#[trigger] self.collections@[j].uuid == col
                    && self.collections@[j].org_uuid == o),
            decreases self.collections@.len() - i,
        {
            if self.collections[i].uuid == col && self.collections[i].org_uuid == o {
                assert(self.collections@[i as int].uuid == col);
                return true;
            }
            i = i + 1;
        }
        false
    }

    fn may_edit(&self, user: u64, col: u64, org: Option<u64>, admin: bool) -> (r: bool)
        ensures
            r == self.spec_may_edit(user, col, org, admin),
    {
        match org {
            None => false,
            Some(o) => if admin {
                self.is_collection_writable_admin(user, col, o)
            } else {
                self.is_collection_writable(user, col, o)
            },
        }
    }

    /// Checks every changed collection: `writes` false asks whether it
    /// belongs to the organization, true whether the user may edit it.
    /// Returns a changed collection that fails, if any.
    fn find_failing(&self, cipher: u64, org: Option<u64>, user: u64, posted: &Vec<u64>, admin: bool, writes: bool) -> (r: Option<u64>)
        ensures
            match r {
                Some(col) => self.spec_changed(cipher, col, posted@, user, org, admin) && !(if writes {
                    self.spec_may_edit(user, col, org, admin) } else { self.spec_collection_in_org(col, org) }),
                None => forall|col: u64| #[trigger] self.spec_changed(cipher, col, posted@, user, org, admin) ==> (if writes {
                    self.spec_may_edit(user, col, org, admin) } else { self.spec_collection_in_org(col, org) }),
            },
    {
        let mut i: usize = 0;
        while i < posted.len()
            invariant
                i <= posted@.len(),
                forall|j: int| 0 <= j < i && !(self.spec_linked(cipher, #[trigger] posted@[j])
                    && self.spec_sees(user, posted@[j], org, admin)) ==> (if writes {
                    self.spec_may_edit(user, posted@[j], org, admin) } else { self.spec_collection_in_org(posted@[j], org) }),
            decreases posted@.len() - i,
        {
            let col = posted[i];
            if !(self.is_linked(cipher, col) && self.sees(user, col, org, admin)) {
                let ok = if writes { self.may_edit(user, col, org, admin) } else { self.collection_in_org(col, org) };
                if !ok {
                    assert(posted@.contains(col) && posted@[i as int] == col);
                    return Some(col);
                }
            }
            i = i + 1;
        }
        let mut k: usize = 0;
        while k < self.collection_ciphers.len()
            invariant
                k <= self.collection_ciphers@.len(),
                forall|j: int| 0 <= j < posted@.len() && !(self.spec_linked(cipher, #[trigger] posted@[j])
                    && self.spec_sees(user, posted@[j], org, admin)) ==> (if writes {
                    self.spec_may_edit(user, posted@[j], org, admin) } else { self.spec_collection_in_org(posted@[j], org) }),
                forall|j: int| 0 <= j < k && #[trigger] self.collection_ciphers@[j].cipher_uuid == cipher
                    && self.spec_sees(user, self.collection_ciphers@[j].collection_uuid, org, admin)
                    && !posted@.contains(self.collection_ciphers@[j].collection_uuid) ==> (if writes {
                    self.spec_may_edit(user, self.collection_ciphers@[j].collection_uuid, org, admin) }
                    else { self.spec_collection_in_org(self.collection_ciphers@[j].collection_uuid, org) }),
            decreases self.collection_ciphers@.len() - k,
        {
            let link = self.collection_ciphers[k];
            if link.cipher_uuid == cipher && self.sees(user, link.collection_uuid, org, admin)
                && !vec_contains(posted, link.collection_uuid) {
                let ok = if writes {
                    self.may_edit(user, link.collection_uuid, org, admin)
                } else {
                    self.collection_in_org(link.collection_uuid, org)
                };
                if !ok {
                    assert(self.collection_ciphers@[k as int] == link);
                    assert(self.spec_linked(cipher, link.collection_uuid));
                    return Some(link.collection_uuid);
                }
            }
            k = k + 1;
        }
        assert forall|col: u64| #[trigger] self.spec_changed(cipher, col, posted@, user, org, admin) implies (if writes {
            self.spec_may_edit(user, col, org, admin) } else { self.spec_collection_in_org(col, org) }) by {
            if posted@.contains(col) {
                let j = choose|j: int| 0 <= j < posted@.len() && posted@[j] == col;
            } else {
                let j = choose|j: int| 0 <= j < self.collection_ciphers@.len()
                    && #[trigger] self.collection_ciphers@[j] == (CollectionCipher { cipher_uuid: cipher, collection_uuid: col });
                assert(self.collection_ciphers@[j].cipher_uuid == cipher);
            }
        }
        None
    }

    /// Makes the collections of the cipher that the user sees exactly the
    /// posted ones, after checking each collection that changes; links the
    /// user does not see stay, and nothing changes when a check fails.
    /// `admin` selects the organization-admin entry point.
    #[verifier::rlimit(40)]
    pub fn reconcile_collections(&mut self, cipher: u64, org: Option<u64>, user: u64, posted: &Vec<u64>, admin: bool) -> (r: Result<(), CipherError>)
        ensures
            r == old(self).spec_reconcile_check(cipher, org, user, posted@, admin),
            r is Err ==> *final(self) == *old(self),
            r is Ok ==> forall|col: u64| posted@.contains(col) ==> #[trigger] final(self).spec_linked(cipher, col),
            r is Ok ==> forall|col: u64| !posted@.contains(col) ==> (#[trigger] final(self).spec_linked(cipher, col)
                <==> old(self).spec_linked(cipher, col) && !old(self).spec_sees(user, col, org, admin)),
            r is Ok ==> forall|col: u64| (#[trigger] final(self).spec_linked(cipher, col) && final(self).spec_sees(user, col, org, admin))
                <==> posted@.contains(col),
            forall|l: CollectionCipher| l.cipher_uuid != cipher ==>
                (final(self).collection_ciphers@.contains(l) <==> old(self).collection_ciphers@.contains(l)),
            final(self).collections@ == old(self).collections@,
            final(self).ciphers@ == old(self).ciphers@,
            final(self).memberships@ == old(self).memberships@,
            final(self).attachments@ == old(self).attachments@,
            final(self).same_tables_but_links(*old(self)),
    {
        match self.find_failing(cipher, org, user, posted, admin, false) {
            Some(col) => return Err(CipherError::InvalidCollection),
            None => {},
        }
        match self.find_failing(cipher, org, user, posted, admin, true) {
            Some(col) => {
                assert(self.spec_changed(cipher, col, posted@, user, org, admin) && !self.spec_may_edit(user, col, org, admin));
                return Err(CipherError::CollectionNotWritable);
            },
            None => {},
        }
        assert forall|col: u64| posted@.contains(col) implies #[trigger] old(self).spec_sees(user, col, org, admin) by {
            if !(self.spec_linked(cipher, col) && self.spec_sees(user, col, org, admin)) {
                assert(self.spec_changed(cipher, col, posted@, user, org, admin));
                lemma_edit_sees(*self, user, col, org, admin);
            }
        }
        let mut kept: Vec<CollectionCipher> = Vec::new();
        let mut i: usize = 0;
        while i < self.collection_ciphers.len()
            invariant
                i <= self.collection_ciphers@.len(),
                forall|k: int| 0 <= k < kept@.len() ==> self.collection_ciphers@.contains(#[trigger] kept@[k])
                    && (kept@[k].cipher_uuid == cipher ==> posted@.contains(kept@[k].collection_uuid)
                        || !self.spec_sees(user, kept@[k].collection_uuid, org, admin)),
                forall|j: int| 0 <= j < i && (self.collection_ciphers@[j].cipher_uuid != cipher
                    || posted@.contains(self.collection_ciphers@[j].collection_uuid)
                    || !self.spec_sees(user, self.collection_ciphers@[j].collection_uuid, org, admin))
                    ==> kept@.contains(#[trigger] self.collection_ciphers@[j]),
            decreases self.collection_ciphers@.len() - i,
        {
            let link = self.collection_ciphers[i];
            let ghost prev = kept@;
            if link.cipher_uuid != cipher || vec_contains(posted, link.collection_uuid)
                || !self.sees(user, link.collection_uuid, org, admin) {
                kept.push(link);
            }
            i = i + 1;
            proof {
                assert forall|k: int| 0 <= k < kept@.len() implies self.collection_ciphers@.contains(#[trigger] kept@[k])
                    && (kept@[k].cipher_uuid == cipher ==> posted@.contains(kept@[k].collection_uuid)
                        || !self.spec_sees(user, kept@[k].collection_uuid, org, admin)) by {
                    if k < prev.len() {
                        assert(kept@[k] == prev[k]);
                    } else {
                        assert(kept@[k] == self.collection_ciphers@[i - 1]);
                    }
                }
                assert forall|j: int| 0 <= j < i && (self.collection_ciphers@[j].cipher_uuid != cipher
                    || posted@.contains(self.collection_ciphers@[j].collection_uuid)
                    || !self.spec_sees(user, self.collection_ciphers@[j].collection_uuid, org, admin))
                    implies kept@.contains(#[trigger] self.collection_ciphers@[j]) by {
                    if j < i - 1 {
                        let k = choose|k: int| 0 <= k < prev.len() && prev[k] == self.collection_ciphers@[j];
                        assert(kept@[k] == prev[k]);
                    } else {
                        assert(kept@[kept@.len() - 1] == self.collection_ciphers@[j]);
                    }
                }
            }
        }
        let ghost base = kept@;
        let mut p: usize = 0;
        while p < posted.len()
            invariant
                p <= posted@.len(),
                base.len() <= kept@.len(),
                forall|k: int| 0 <= k < base.len() ==> kept@[k] == base[k],
                forall|k: int| base.len() <= k < kept@.len() ==> (#[trigger] kept@[k]).cipher_uuid == cipher
                    && posted@.contains(kept@[k].collection_uuid),
                forall|j: int| 0 <= j < p ==> kept@.contains(CollectionCipher { cipher_uuid: cipher, collection_uuid: #[trigger] posted@[j] }),
            decreases posted@.len() - p,
        {
            let link = CollectionCipher { cipher_uuid: cipher, collection_uuid: posted[p] };
            let ghost prev = kept@;
            if !vec_contains_link(&kept, link) {
                kept.push(link);
                assert(kept@[kept@.len() - 1] == link);
            }
            p = p + 1;
            proof {
                assert forall|j: int| 0 <= j < p implies kept@.contains(CollectionCipher { cipher_uuid: cipher, collection_uuid: #[trigger] posted@[j] }) by {
                    if j < p - 1 {
                        let l = CollectionCipher { cipher_uuid: cipher, collection_uuid: posted@[j] };
                        let k = choose|k: int| 0 <= k < prev.len() && prev[k] == l;
                        assert(kept@[k] == prev[k]);
                    }
                }
            }
        }
        let ghost old_links = self.collection_ciphers@;
        self.collection_ciphers = kept;
        assert(self.collection_ciphers@ == kept@);
        assert forall|col: u64| posted@.contains(col) implies #[trigger] self.spec_linked(cipher, col) by {
            let j = choose|j: int| 0 <= j < posted@.len() && posted@[j] == col;
            let l = CollectionCipher { cipher_uuid: cipher, collection_uuid: col };
            assert(kept@.contains(CollectionCipher { cipher_uuid: cipher, collection_uuid: posted@[j] }));
            let k = choose|k: int| 0 <= k < kept@.len() && kept@[k] == l;
            assert(self.collection_ciphers@[k] == l);
        }
        assert forall|col: u64| !posted@.contains(col) implies (#[trigger] self.spec_linked(cipher, col)
            <==> old(self).spec_linked(cipher, col) && !old(self).spec_sees(user, col, org, admin)) by {
            let l = CollectionCipher { cipher_uuid: cipher, collection_uuid: col };
            if self.spec_linked(cipher, col) {
                let k = choose|k: int| 0 <= k < self.collection_ciphers@.len() && #[trigger] self.collection_ciphers@[k] == l;
                assert(kept@[k] == l);
                if k < base.len() {
                    assert(base[k] == l);
                    assert(old_links.contains(l));
                    let j = choose|j: int| 0 <= j < old_links.len() && old_links[j] == l;
                    assert(old(self).collection_ciphers@[j] == l);
                } else {
                    assert(kept@[k] == l);
                }
            }
            if old(self).spec_linked(cipher, col) && !old(self).spec_sees(user, col, org, admin) {
                let j = choose|j: int| 0 <= j < old(self).collection_ciphers@.len() && #[trigger] old(self).collection_ciphers@[j] == l;
                assert(old_links[j] == l);
                assert(base.contains(old_links[j]));
                let k = choose|k: int| 0 <= k < base.len() && base[k] == l;
                assert(kept@[k] == l);
                assert(self.collection_ciphers@[k] == l);
            }
        }
        assert(self.same_tables_but_links(*old(self)));
        assert forall|col: u64| (#[trigger] self.spec_linked(cipher, col) && self.spec_sees(user, col, org, admin))
            <==> posted@.contains(col) by {
            lemma_sees_frame(*old(self), *self, user, col, org, admin);
        }
        assert forall|l: CollectionCipher| l.cipher_uuid != cipher implies
            (self.collection_ciphers@.contains(l) <==> old_links.contains(l)) by {
            if self.collection_ciphers@.contains(l) {
                let k = choose|k: int| 0 <= k < kept@.len() && kept@[k] == l;
                if k < base.len() {
                    assert(base[k] == l);
                } else {
                    assert(kept@[k].cipher_uuid == cipher);
                }
            }
            if old_links.contains(l) {
                let j = choose|j: int| 0 <= j < old_links.len() && old_links[j] == l;
                assert(base.contains(old_links[j]));
                let k = choose|k: int| 0 <= k < base.len() && base[k] == l;
                assert(kept@[k] == l);
            }
        }
        Ok(())
    }
}

pub fn vec_contains(v: &Vec<u64>, x: u64) -> (r: bool)
    ensures
        r == v@.contains(x),
{
    let mut i: usize = 0;
    while i < v.len()
        invariant
            i <= v@.len(),
            forall|j: int| 0 <= j < i ==> v@[j] != x,
        decreases v@.len() - i,
    {
        if v[i] == x {
            assert(v@[i as int] == x);
            return true;
        }
        i = i + 1;
    }
    false
}

fn vec_contains_link(v: &Vec<CollectionCipher>, x: CollectionCipher) -> (r: bool)
    ensures
        r == v@.contains(x),
{
    let mut i: usize = 0;
    while i < v.len()
        invariant
            i <= v@.len(),
            forall|j: int| 0 <= j < i ==> v@[j] != x,
        decreases v@.len() - i,
    {
        let l = v[i];
        if l.cipher_uuid == x.cipher_uuid && l.collection_uuid == x.collection_uuid {
            assert(v@[i as int] == x);
            return true;
        }
        i = i + 1;
    }
    false
}

impl Vault {
    /// Every table but the collection links agrees.
    pub open spec fn same_tables_but_links(self, o: Vault) -> bool {
        &&& self.groups_enabled == o.groups_enabled
        &&& self.ciphers@ == o.ciphers@
        &&& self.memberships@ == o.memberships@
        &&& self.collections@ == o.collections@
        &&& self.collection_users@ == o.collection_users@
        &&& self.collection_groups@ == o.collection_groups@
        &&& self.groups@ == o.groups@
        &&& self.group_users@ == o.group_users@
        &&& self.folders@ == o.folders@
        &&& self.folder_ciphers@ == o.folder_ciphers@
        &&& self.favorites@ == o.favorites@
        &&& self.attachments@ == o.attachments@
    }
}

/// What a user sees does not depend on the collection links.
pub proof fn lemma_sees_frame(a: Vault, b: Vault, user: u64, col: u64, org: Option<u64>, admin: bool)
    requires
        b.same_tables_but_links(a),
    ensures
        b.spec_sees(user, col, org, admin) == a.spec_sees(user, col, org, admin),
{
    assert forall|i: int| 0 <= i < a.collection_groups@.len() implies
        #[trigger] b.group_grant_admits(b.collection_groups@[i], user, col, false)
        == a.group_grant_admits(a.collection_groups@[i], user, col, false) by {
        assert(b.spec_in_group(user, b.collection_groups@[i].groups_uuid)
            == a.spec_in_group(user, a.collection_groups@[i].groups_uuid));
    }
    if b.spec_collection_grant(user, col, false) != a.spec_collection_grant(user, col, false) {
        if b.spec_collection_grant(user, col, false) {
            if !(exists|i: int| 0 <= i < b.collection_users@.len() && #[trigger] b.collection_users@[i].admits(user, col, false)) {
                let i = choose|i: int| 0 <= i < b.collection_groups@.len()
                    && #[trigger] b.group_grant_admits(b.collection_groups@[i], user, col, false);
                assert(a.group_grant_admits(a.collection_groups@[i], user, col, false));
            }
        } else {
            if !(exists|i: int| 0 <= i < a.collection_users@.len() && #[trigger] a.collection_users@[i].admits(user, col, false)) {
                let i = choose|i: int| 0 <= i < a.collection_groups@.len()
                    && #[trigger] a.group_grant_admits(a.collection_groups@[i], user, col, false);
                assert(b.group_grant_admits(b.collection_groups@[i], user, col, false));
            }
        }
    }
    assert forall|o: u64| #[trigger] b.spec_is_member(user, o) == a.spec_is_member(user, o)
        && b.spec_member_full(user, o) == a.spec_member_full(user, o)
        && b.spec_group_full(user, o) == a.spec_group_full(user, o)
        && b.spec_member_admin(user, o) == a.spec_member_admin(user, o) by {}
    if b.spec_collection_visible(user, col) != a.spec_collection_visible(user, col) {
        if b.spec_collection_visible(user, col) && !b.spec_collection_grant(user, col, false) {
            let k = choose|k: int| 0 <= k < b.collections@.len() && #[trigger] b.collections@[k].uuid == col
                && b.spec_is_member(user, b.collections@[k].org_uuid)
                && (b.spec_member_full(user, b.collections@[k].org_uuid) || b.spec_group_full(user, b.collections@[k].org_uuid));
            assert(a.collections@[k].uuid == col);
        } else if a.spec_collection_visible(user, col) && !a.spec_collection_grant(user, col, false) {
            let k = choose|k: int| 0 <= k < a.collections@.len() && #[trigger] a.collections@[k].uuid == col
                && a.spec_is_member(user, a.collections@[k].org_uuid)
                && (a.spec_member_full(user, a.collections@[k].org_uuid) || a.spec_group_full(user, a.collections@[k].org_uuid));
            assert(b.collections@[k].uuid == col);
        }
    }
}

/// A collection of the organization that the user may edit is one the
/// user sees.
pub proof fn lemma_edit_sees(v: Vault, user: u64, col: u64, org: Option<u64>, admin: bool)
    requires
        v.spec_collection_in_org(col, org),
        v.spec_may_edit(user, col, org, admin),
    ensures
        v.spec_sees(user, col, org, admin),
{
    let o = org->Some_0;
    if !(admin && v.spec_member_admin(user, o)) {
        assert(v.spec_collection_writable(user, col, o));
        if v.spec_collection_grant(user, col, true) {
            if exists|j: int| 0 <= j < v.collection_users@.len() && #[trigger] v.collection_users@[j].admits(user, col, true) {
                let j = choose|j: int| 0 <= j < v.collection_users@.len() && #[trigger] v.collection_users@[j].admits(user, col, true);
                assert(v.collection_users@[j].admits(user, col, false));
            } else {
                let j = choose|j: int| 0 <= j < v.collection_groups@.len()
                    && #[trigger] v.group_grant_admits(v.collection_groups@[j], user, col, true);
                assert(v.group_grant_admits(v.collection_groups@[j], user, col, false));
            }
        } else {
            let k = choose|k: int| 0 <= k < v.collections@.len() && #[trigger] v.collections@[k].uuid == col
                && v.collections@[k].org_uuid == o;
            assert(v.collections@[k].uuid == col);
        }
    }
}

/// Posting the set of collections of a cipher that the user already sees
/// passes every check and changes no link: a second reconciliation with
/// the same set is a no-op.
pub proof fn lemma_reconcile_converges(v: Vault, cipher: u64, org: Option<u64>, user: u64, posted: Seq<u64>, admin: bool)
    requires
        forall|col: u64| (#[trigger] v.spec_linked(cipher, col) && v.spec_sees(user, col, org, admin)) <==> posted.contains(col),
    ensures
        v.spec_reconcile_check(cipher, org, user, posted, admin) == Ok::<(), CipherError>(()),
        forall|col: u64| !(#[trigger] v.spec_changed(cipher, col, posted, user, org, admin)),
{
    assert forall|col: u64| !(#[trigger] v.spec_changed(cipher, col, posted, user, org, admin)) by {
        assert((v.spec_linked(cipher, col) && v.spec_sees(user, col, org, admin)) == posted.contains(col));
    }
}

} // verus!
