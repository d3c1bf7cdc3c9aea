//! The operations on stored ciphers that a request asks for: each finds
//! the cipher, checks the user's access, changes the store and reports the
//! audit event that is due.

use vstd::prelude::*;
use crate::error::CipherError;
use crate::model::{Attachment, Cipher, CollectionCipher, Favorite, Folder, FolderCipher, MembershipType, Timestamp, Vault};
use crate::access::{lemma_access_frame, lemma_grant_frame};
use crate::update::{
    note_len, spec_personal_ownership, spec_update_check, update_cipher_from_data, CipherData, EventType, PartialCipherData, UpdateOutcome, UpdateType,
};

verus! {

impl Vault {
    pub open spec fn spec_has_cipher(self, id: u64) -> bool {
        exists|i: int| 0 <= i < self.ciphers@.len() && #[trigger] self.ciphers@[i].uuid == id
    }

    /// The stored cipher with the id (meaningful where it exists).
    pub open spec fn spec_cipher(self, id: u64) -> Cipher {
        self.ciphers@[choose|i: int| 0 <= i < self.ciphers@.len() && #[trigger] self.ciphers@[i].uuid == id]
    }

    /// Cipher ids are unique, and every stored cipher has exactly one
    /// owner.
    pub open spec fn wf(self) -> bool {
        &&& forall|i: int, j: int| 0 <= i < self.ciphers@.len() && 0 <= j < self.ciphers@.len()
            && #[trigger] self.ciphers@[i].uuid == #[trigger] self.ciphers@[j].uuid ==> i == j
        &&& forall|i: int| 0 <= i < self.ciphers@.len() ==> (#[trigger] self.ciphers@[i]).owner_exclusive()
        &&& forall|i: int, j: int| 0 <= i < self.attachments@.len() && 0 <= j < self.attachments@.len()
            && #[trigger] self.attachments@[i].id == #[trigger] self.attachments@[j].id ==> i == j
    }

    pub open spec fn spec_has_attachment(self, id: u64) -> bool {
        exists|i: int| 0 <= i < self.attachments@.len() && #[trigger] self.attachments@[i].id == id
    }

    /// The stored attachment with the id (meaningful where it exists).
    pub open spec fn spec_attachment(self, id: u64) -> Attachment {
        self.attachments@[choose|i: int| 0 <= i < self.attachments@.len() && #[trigger] self.attachments@[i].id == id]
    }

    /// The index of the cipher with the id.
    pub fn find_cipher(&self, id: u64) -> (r: Option<usize>)
        requires
            self.wf(),
        ensures
            match r {
                Some(i) => i < self.ciphers@.len() && self.ciphers@[i as int].uuid == id && self.spec_has_cipher(id)
                    && self.spec_cipher(id) == self.ciphers@[i as int],
                None => !self.spec_has_cipher(id),
            },
    {
        let mut i: usize = 0;
        while i < self.ciphers.len()
            invariant
                self.wf(),
                i <= self.ciphers@.len(),
                forall|j: int| 0 <= j < i ==> #[trigger] self.ciphers@[j].uuid != id,
            decreases self.ciphers@.len() - i,
        {
            if self.ciphers[i].uuid == id {
                assert(self.ciphers@[i as int].uuid == id);
                let ghost k = choose|k: int| 0 <= k < self.ciphers@.len() && #[trigger] self.ciphers@[k].uuid == id;
                assert(self.ciphers@[k].uuid == self.ciphers@[i as int].uuid);
                return Some(i);
            }
            i = i + 1;
        }
        None
    }

    /// The cipher with the id, if the user may read it.
    pub fn get_cipher(&self, cipher_id: u64, user: u64) -> (r: Result<Cipher, CipherError>)
        requires
            self.wf(),
        ensures
            !self.spec_has_cipher(cipher_id) ==> r == Err::<Cipher, CipherError>(CipherError::CipherNotFound),
            self.spec_has_cipher(cipher_id) ==> r == if self.spec_readable(user, self.spec_cipher(cipher_id)) {
                Ok::<Cipher, CipherError>(self.spec_cipher(cipher_id))
            } else {
                Err(CipherError::NotAccessible)
            },
    {
        let i = match self.find_cipher(cipher_id) {
            Some(i) => i,
            None => return Err(CipherError::CipherNotFound),
        };
        if !self.is_accessible_to_user(user, &self.ciphers[i]) {
            return Err(CipherError::NotAccessible);
        }
        Ok(self.ciphers[i].duplicate())
    }

    /// The cipher with the id, if the user may modify it.
    pub fn writable_cipher(&self, cipher_id: u64, user: u64) -> (r: Result<usize, CipherError>)
        requires
            self.wf(),
        ensures
            !self.spec_has_cipher(cipher_id) ==> r == Err::<usize, CipherError>(CipherError::CipherNotFound),
            self.spec_has_cipher(cipher_id) && !self.spec_writable(user, self.spec_cipher(cipher_id))
                ==> r == Err::<usize, CipherError>(CipherError::NotWritable),
            r is Ok <==> self.spec_has_cipher(cipher_id) && self.spec_writable(user, self.spec_cipher(cipher_id)),
            r is Ok ==> r->Ok_0 < self.ciphers@.len() && self.ciphers@[r->Ok_0 as int] == self.spec_cipher(cipher_id)
                && self.ciphers@[r->Ok_0 as int].uuid == cipher_id,
    {
        let i = match self.find_cipher(cipher_id) {
            Some(i) => i,
            None => return Err(CipherError::CipherNotFound),
        };
        if !self.is_write_accessible_to_user(user, &self.ciphers[i]) {
            return Err(CipherError::NotWritable);
        }
        Ok(i)
    }

    /// Sets only the user's folder and favorite mark of a cipher, which
    /// needs no write access to the cipher itself.
    pub fn put_cipher_partial(&mut self, cipher_id: u64, data: PartialCipherData, user: u64) -> (r: Result<(), CipherError>)
        requires
            old(self).wf(),
        ensures
            r == if !old(self).spec_has_cipher(cipher_id) {
                Err(CipherError::CipherNotFound)
            } else if data.folder_id.is_some() && !old(self).spec_folder_of_user(data.folder_id->Some_0, user) {
                Err(CipherError::FolderNotFound)
            } else {
                Ok::<(), CipherError>(())
            },
            r is Err ==> *final(self) == *old(self),
            final(self).same_structure(*old(self)),
            final(self).attachments@ == old(self).attachments@,
            r is Ok ==> forall|f: u64| #[trigger] final(self).spec_in_folder(user, cipher_id, f) <==> data.folder_id == Some(f),
            r is Ok ==> final(self).spec_is_favorite(user, cipher_id) == data.favorite,
    {
        if self.find_cipher(cipher_id).is_none() {
            return Err(CipherError::CipherNotFound);
        }
        match data.folder_id {
            Some(f) => if !self.folder_of_user(f, user) {
                return Err(CipherError::FolderNotFound);
            },
            None => {},
        }
        let ghost v0 = *self;
        self.move_to_folder(cipher_id, data.folder_id, user);
        let ghost v1 = *self;
        self.set_favorite(cipher_id, Some(data.favorite), user);
        assert forall|f: u64| #[trigger] self.spec_in_folder(user, cipher_id, f) <==> data.folder_id == Some(f) by {
            assert(v1.spec_in_folder(user, cipher_id, f) == self.spec_in_folder(user, cipher_id, f));
            assert(v0.spec_folder_of_user(f, user) == old(self).spec_folder_of_user(f, user));
        }
        Ok(())
    }

    /// Changes the collections that hold a cipher the user may write;
    /// `admin` selects the organization-admin entry point.
    fn update_collections(&mut self, cipher_id: u64, user: u64, posted: &Vec<u64>, admin: bool) -> (r: Result<Option<EventType>, CipherError>)
        requires
            old(self).wf(),
        ensures
            !old(self).spec_has_cipher(cipher_id) ==> r == Err::<Option<EventType>, CipherError>(CipherError::CipherNotFound),
            old(self).spec_has_cipher(cipher_id) && !old(self).spec_writable(user, old(self).spec_cipher(cipher_id))
                ==> r == Err::<Option<EventType>, CipherError>(CipherError::NotWritable),
            old(self).spec_has_cipher(cipher_id) && old(self).spec_writable(user, old(self).spec_cipher(cipher_id)) ==> {
                let check = old(self).spec_reconcile_check(cipher_id, old(self).spec_cipher(cipher_id).organization_uuid,
                    user, posted@, admin);
                &&& check is Err ==> r == Err::<Option<EventType>, CipherError>(check->Err_0)
                &&& check is Ok ==> r == Ok::<Option<EventType>, CipherError>(
                    if old(self).spec_cipher(cipher_id).organization_uuid.is_some() {
                        Some(EventType::CipherUpdatedCollections) } else { None })
            },
            r is Err ==> *final(self) == *old(self),
            r is Ok ==> forall|col: u64| posted@.contains(col) ==> #[trigger] final(self).spec_linked(cipher_id, col),
            r is Ok ==> forall|col: u64| !posted@.contains(col)
                && old(self).spec_sees(user, col, old(self).spec_cipher(cipher_id).organization_uuid, admin)
                ==> !#[trigger] final(self).spec_linked(cipher_id, col),
            r is Ok ==> forall|col: u64| !posted@.contains(col)
                && !old(self).spec_sees(user, col, old(self).spec_cipher(cipher_id).organization_uuid, admin)
                ==> (#[trigger] final(self).spec_linked(cipher_id, col) == old(self).spec_linked(cipher_id, col)),
            final(self).ciphers@ == old(self).ciphers@,
            final(self).same_tables_but_links(*old(self)),
            final(self).wf(),
    {
        let i = self.writable_cipher(cipher_id, user)?;
        let org = self.ciphers[i].organization_uuid;
        assert(org == old(self).spec_cipher(cipher_id).organization_uuid);
        let rr = self.reconcile_collections(cipher_id, org, user, posted, admin);
        match rr {
            Err(e) => return Err(e),
            Ok(_) => {},
        }
        assert(rr is Ok);
        if org.is_some() {
            Ok(Some(EventType::CipherUpdatedCollections))
        } else {
            Ok(None)
        }
    }

    /// Makes the posted collections exactly those that hold the cipher.
    pub fn post_collections_update(&mut self, cipher_id: u64, user: u64, posted: &Vec<u64>) -> (r: Result<Option<EventType>, CipherError>)
        requires
            old(self).wf(),
        ensures
            !old(self).spec_has_cipher(cipher_id) ==> r == Err::<Option<EventType>, CipherError>(CipherError::CipherNotFound),
            old(self).spec_has_cipher(cipher_id) && !old(self).spec_writable(user, old(self).spec_cipher(cipher_id))
                ==> r == Err::<Option<EventType>, CipherError>(CipherError::NotWritable),
            old(self).spec_has_cipher(cipher_id) && old(self).spec_writable(user, old(self).spec_cipher(cipher_id)) ==> {
                let check = old(self).spec_reconcile_check(cipher_id, old(self).spec_cipher(cipher_id).organization_uuid,
                    user, posted@, false);
                &&& check is Err ==> r == Err::<Option<EventType>, CipherError>(check->Err_0)
                &&& check is Ok ==> r == Ok::<Option<EventType>, CipherError>(
                    if old(self).spec_cipher(cipher_id).organization_uuid.is_some() {
                        Some(EventType::CipherUpdatedCollections) } else { None })
            },
            r is Err ==> *final(self) == *old(self),
            r is Ok ==> forall|col: u64| posted@.contains(col) ==> #[trigger] final(self).spec_linked(cipher_id, col),
            r is Ok ==> forall|col: u64| !posted@.contains(col)
                && old(self).spec_sees(user, col, old(self).spec_cipher(cipher_id).organization_uuid, false)
                ==> !#[trigger] final(self).spec_linked(cipher_id, col),
            r is Ok ==> forall|col: u64| !posted@.contains(col)
                && !old(self).spec_sees(user, col, old(self).spec_cipher(cipher_id).organization_uuid, false)
                ==> (#[trigger] final(self).spec_linked(cipher_id, col) == old(self).spec_linked(cipher_id, col)),
            final(self).ciphers@ == old(self).ciphers@,
            final(self).same_tables_but_links(*old(self)),
            final(self).wf(),
    {
        self.update_collections(cipher_id, user, posted, false)
    }

    /// The organization-admin entry point of `post_collections_update`:
    /// owners and admins may edit every collection of the organization.
    pub fn post_collections_admin(&mut self, cipher_id: u64, user: u64, posted: &Vec<u64>) -> (r: Result<Option<EventType>, CipherError>)
        requires
            old(self).wf(),
        ensures
            !old(self).spec_has_cipher(cipher_id) ==> r == Err::<Option<EventType>, CipherError>(CipherError::CipherNotFound),
            old(self).spec_has_cipher(cipher_id) && !old(self).spec_writable(user, old(self).spec_cipher(cipher_id))
                ==> r == Err::<Option<EventType>, CipherError>(CipherError::NotWritable),
            old(self).spec_has_cipher(cipher_id) && old(self).spec_writable(user, old(self).spec_cipher(cipher_id)) ==> {
                let check = old(self).spec_reconcile_check(cipher_id, old(self).spec_cipher(cipher_id).organization_uuid,
                    user, posted@, true);
                &&& check is Err ==> r == Err::<Option<EventType>, CipherError>(check->Err_0)
                &&& check is Ok ==> r == Ok::<Option<EventType>, CipherError>(
                    if old(self).spec_cipher(cipher_id).organization_uuid.is_some() {
                        Some(EventType::CipherUpdatedCollections) } else { None })
            },
            r is Err ==> *final(self) == *old(self),
            r is Ok ==> forall|col: u64| posted@.contains(col) ==> #[trigger] final(self).spec_linked(cipher_id, col),
            r is Ok ==> forall|col: u64| !posted@.contains(col)
                && old(self).spec_sees(user, col, old(self).spec_cipher(cipher_id).organization_uuid, true)
                ==> !#[trigger] final(self).spec_linked(cipher_id, col),
            r is Ok ==> forall|col: u64| !posted@.contains(col)
                && !old(self).spec_sees(user, col, old(self).spec_cipher(cipher_id).organization_uuid, true)
                ==> (#[trigger] final(self).spec_linked(cipher_id, col) == old(self).spec_linked(cipher_id, col)),
            final(self).ciphers@ == old(self).ciphers@,
            final(self).same_tables_but_links(*old(self)),
            final(self).wf(),
    {
        self.update_collections(cipher_id, user, posted, true)
    }
}

/// A cipher posted together with the collections it is shared into.
#[derive(Debug)]
pub struct ShareCipherData {
    pub cipher: CipherData,
    pub collection_ids: Vec<u64>,
}

/// Several ciphers, each carrying its id, shared into the same collections.
#[derive(Debug)]
pub struct ShareSelectedCipherData {
    pub ciphers: Vec<CipherData>,
    pub collection_ids: Vec<u64>,
}

impl Vault {
    /// The checks a request for a new cipher with no revision date goes
    /// through, in order; `shared` tells whether collections come with it.
    pub open spec fn spec_create_check(self, data: CipherData, user: u64, shared: bool, policy_applies: bool,
        max_note_size: usize) -> Result<(), CipherError> {
        if spec_personal_ownership(Some(data.organization_id), policy_applies) is Err {
            Err(CipherError::PersonalOwnershipPolicy)
        } else if data.notes.is_some() && note_len(data.notes->Some_0) > max_note_size {
            Err(CipherError::NotesTooLong)
        } else if data.organization_id.is_some() && !self.spec_is_member(user, data.organization_id->Some_0) {
            Err(CipherError::NotOrganizationMember)
        } else if data.organization_id.is_some() && !(shared || self.spec_member_full(user, data.organization_id->Some_0)) {
            Err(CipherError::TransferDenied)
        } else if data.folder_id.is_some() && !self.spec_folder_of_user(data.folder_id->Some_0, user) {
            Err(CipherError::FolderNotFound)
        } else {
            Ok(())
        }
    }

    /// Every collection a share names belongs to the organization and is
    /// writable by the user (nothing to check without an organization).
    pub open spec fn spec_share_collections_ok(self, org: Option<u64>, cols: Seq<u64>, user: u64) -> bool {
        org is None || forall|j: int| 0 <= j < cols.len() ==> self.spec_collection_in_org(#[trigger] cols[j], org)
            && self.spec_collection_writable(user, cols[j], org->Some_0)
    }
}

impl Vault {
    /// The outcome of sharing the cipher with the id as posted, in the
    /// order the checks are made.
    pub open spec fn spec_share_check(self, id: u64, data: CipherData, cols: Seq<u64>, user: u64, policy_applies: bool,
        max_note_size: usize) -> Result<(), CipherError> {
        let org = data.organization_id;
        if !self.spec_has_cipher(id) {
            Err(CipherError::CipherNotFound)
        } else if !self.spec_writable(user, self.spec_cipher(id)) {
            Err(CipherError::NotWritable)
        } else if org is Some && exists|j: int| 0 <= j < cols.len() && !self.spec_collection_in_org(#[trigger] cols[j], org) {
            Err(CipherError::InvalidCollection)
        } else if org is Some && exists|j: int| 0 <= j < cols.len()
            && !self.spec_collection_writable(user, #[trigger] cols[j], org->Some_0) {
            Err(CipherError::CollectionNotWritable)
        } else {
            let pre = spec_update_check(self, self.spec_cipher(id), data, user, true, spec_share_update_type(data),
                policy_applies, max_note_size);
            if pre is Err {
                Err(pre->Err_0)
            } else if data.spec_payload() is Err {
                Err(data.spec_payload()->Err_0)
            } else {
                Ok(())
            }
        }
    }
}

/// A share with a revision date updates; without one it creates.
pub open spec fn spec_share_update_type(d: CipherData) -> UpdateType {
    if d.last_known_revision_date.is_some() { UpdateType::SyncCipherUpdate } else { UpdateType::SyncCipherCreate }
}

/// Under unique ids, the attachment at an index is the attachment of its id.
pub proof fn lemma_attachment_at(v: Vault, i: int)
    requires
        v.wf(),
        0 <= i < v.attachments@.len(),
    ensures
        v.spec_has_attachment(v.attachments@[i].id),
        v.spec_attachment(v.attachments@[i].id) == v.attachments@[i],
{
    let id = v.attachments@[i].id;
    assert(v.attachments@[i].id == id);
    let k = choose|k: int| 0 <= k < v.attachments@.len() && #[trigger] v.attachments@[k].id == id;
    assert(v.attachments@[k].id == v.attachments@[i].id);
}

/// Under unique ids, the cipher at an index is the cipher of its id.
pub proof fn lemma_cipher_at(v: Vault, i: int)
    requires
        v.wf(),
        0 <= i < v.ciphers@.len(),
    ensures
        v.spec_has_cipher(v.ciphers@[i].uuid),
        v.spec_cipher(v.ciphers@[i].uuid) == v.ciphers@[i],
{
    let id = v.ciphers@[i].uuid;
    assert(v.ciphers@[i].uuid == id);
    let k = choose|k: int| 0 <= k < v.ciphers@.len() && #[trigger] v.ciphers@[k].uuid == id;
    assert(v.ciphers@[k].uuid == v.ciphers@[i].uuid);
}

impl Vault {
    /// No stored cipher has the largest id, so a fresh one can be made.
    pub open spec fn spec_cipher_ids_left(self) -> bool {
        forall|j: int| 0 <= j < self.ciphers@.len() ==> #[trigger] self.ciphers@[j].uuid != u64::MAX
    }

    /// No stored attachment has the largest id, so a fresh one can be made.
    pub open spec fn spec_attachment_ids_left(self) -> bool {
        forall|j: int| 0 <= j < self.attachments@.len() ==> #[trigger] self.attachments@[j].id != u64::MAX
    }

    /// An id that no stored cipher has: one past the largest.
    pub fn fresh_cipher_id(&self) -> (r: Option<u64>)
        ensures
            r is Some ==> !self.spec_has_cipher(r->Some_0),
            r is Some <==> self.spec_cipher_ids_left(),
            r is Some ==> r->Some_0 == 1 || exists|j: int| 0 <= j < self.ciphers@.len()
                && #[trigger] self.ciphers@[j].uuid == r->Some_0 - 1,
    {
        let mut top: u64 = 0;
        let mut i: usize = 0;
        while i < self.ciphers.len()
            invariant
                i <= self.ciphers@.len(),
                forall|j: int| 0 <= j < i ==> #[trigger] self.ciphers@[j].uuid <= top,
                top == 0 || exists|j: int| 0 <= j < i && #[trigger] self.ciphers@[j].uuid == top,
            decreases self.ciphers@.len() - i,
        {
            if self.ciphers[i].uuid > top {
                top = self.ciphers[i].uuid;
            }
            i = i + 1;
        }
        top.checked_add(1)
    }

    /// An id that no stored attachment has: one past the largest.
    pub fn fresh_attachment_id(&self) -> (r: Option<u64>)
        ensures
            r is Some ==> forall|j: int| 0 <= j < self.attachments@.len() ==> #[trigger] self.attachments@[j].id != r->Some_0,
            r is Some <==> self.spec_attachment_ids_left(),
    {
        let mut top: u64 = 0;
        let mut i: usize = 0;
        while i < self.attachments.len()
            invariant
                i <= self.attachments@.len(),
                forall|j: int| 0 <= j < i ==> #[trigger] self.attachments@[j].id <= top,
                top == 0 || exists|j: int| 0 <= j < i && #[trigger] self.attachments@[j].id == top,
            decreases self.attachments@.len() - i,
        {
            if self.attachments[i].id > top {
                top = self.attachments[i].id;
            }
            i = i + 1;
        }
        top.checked_add(1)
    }

    /// Stores a cipher with an id not in use.
    pub fn add_cipher(&mut self, c: Cipher)
        requires
            old(self).wf(),
            !old(self).spec_has_cipher(c.uuid),
            c.owner_exclusive(),
        ensures
            final(self).wf(),
            final(self).ciphers@ == old(self).ciphers@.push(c),
            final(self).spec_has_cipher(c.uuid),
            final(self).spec_cipher(c.uuid) == c,
            final(self).attachments@ == old(self).attachments@,
            final(self).collection_ciphers@ == old(self).collection_ciphers@,
            final(self).same_structure_but_ciphers(*old(self)),
    {
        let ghost n = self.ciphers@.len();
        self.ciphers.push(c);
        assert forall|i: int, j: int| 0 <= i < self.ciphers@.len() && 0 <= j < self.ciphers@.len()
            && #[trigger] self.ciphers@[i].uuid == #[trigger] self.ciphers@[j].uuid implies i == j by {
            if i < n && j == n {
                assert(old(self).ciphers@[i].uuid == c.uuid);
            }
            if j < n && i == n {
                assert(old(self).ciphers@[j].uuid == c.uuid);
            }
            if i < n && j < n {
                assert(old(self).ciphers@[i].uuid == old(self).ciphers@[j].uuid);
            }
        }
        proof { lemma_cipher_at(*self, n as int); }
    }

    /// Replaces the stored cipher at the index by one with the same id.
    fn replace_cipher(&mut self, i: usize, c: Cipher)
        requires
            old(self).wf(),
            i < old(self).ciphers@.len(),
            old(self).ciphers@[i as int].uuid == c.uuid,
            c.owner_exclusive(),
        ensures
            final(self).wf(),
            final(self).ciphers@ == old(self).ciphers@.update(i as int, c),
            final(self).spec_has_cipher(c.uuid),
            final(self).spec_cipher(c.uuid) == c,
            final(self).attachments@ == old(self).attachments@,
            final(self).collection_ciphers@ == old(self).collection_ciphers@,
            final(self).same_structure_but_ciphers(*old(self)),
            forall|x: u64| x != c.uuid ==> #[trigger] final(self).spec_has_cipher(x) == old(self).spec_has_cipher(x),
            forall|x: u64| x != c.uuid && old(self).spec_has_cipher(x)
                ==> #[trigger] final(self).spec_cipher(x) == old(self).spec_cipher(x),
    {
        self.ciphers.set(i, c);
        assert forall|a: int, b: int| 0 <= a < self.ciphers@.len() && 0 <= b < self.ciphers@.len()
            && #[trigger] self.ciphers@[a].uuid == #[trigger] self.ciphers@[b].uuid implies a == b by {
            assert(self.ciphers@[a].uuid == old(self).ciphers@[a].uuid);
            assert(self.ciphers@[b].uuid == old(self).ciphers@[b].uuid);
        }
        proof { lemma_cipher_at(*self, i as int); }
        assert forall|x: u64| x != c.uuid implies #[trigger] self.spec_has_cipher(x) == old(self).spec_has_cipher(x)
            && (old(self).spec_has_cipher(x) ==> self.spec_cipher(x) == old(self).spec_cipher(x)) by {
            lemma_frame_one(*old(self), *self, i as int, x);
        }
        assert forall|x: u64| x != c.uuid && old(self).spec_has_cipher(x)
            implies #[trigger] self.spec_cipher(x) == old(self).spec_cipher(x) by {
            lemma_frame_one(*old(self), *self, i as int, x);
        }
    }
}

impl Vault {
    /// The first `k` ids are done: soft-marked with `mark` (`None` for a
    /// restore), or gone for a hard delete; every other id's cipher is as
    /// it was in `o`.
    pub open spec fn spec_deleted_prefix(self, o: Vault, ids: Seq<u64>, k: int, soft: bool, mark: Option<Timestamp>) -> bool {
        &&& soft ==> forall|q: int| 0 <= q < k ==> self.spec_has_cipher(#[trigger] ids[q])
            && self.spec_cipher(ids[q]) == (Cipher { deleted_at: mark, ..o.spec_cipher(ids[q]) })
        &&& !soft ==> forall|q: int| 0 <= q < k ==> !self.spec_has_cipher(#[trigger] ids[q])
        &&& forall|x: u64| (forall|p: int| 0 <= p < k ==> ids[p] != x) ==>
            #[trigger] self.spec_has_cipher(x) == o.spec_has_cipher(x)
            && (o.spec_has_cipher(x) ==> self.spec_cipher(x) == o.spec_cipher(x))
    }
}

/// One more id done keeps the prefix property.
proof fn lemma_prefix_step(o: Vault, a: Vault, b: Vault, ids: Seq<u64>, k: int, soft: bool, mark: Option<Timestamp>)
    requires
        0 <= k < ids.len(),
        a.spec_deleted_prefix(o, ids, k, soft, mark),
        forall|x: u64| x != ids[k] ==> #[trigger] b.spec_has_cipher(x) == a.spec_has_cipher(x),
        forall|x: u64| x != ids[k] && a.spec_has_cipher(x) ==> #[trigger] b.spec_cipher(x) == a.spec_cipher(x),
        soft ==> b.spec_has_cipher(ids[k]) && b.spec_cipher(ids[k]) == (Cipher { deleted_at: mark, ..a.spec_cipher(ids[k]) }),
        soft ==> a.spec_has_cipher(ids[k]),
        soft ==> o.spec_has_cipher(ids[k]),
        !soft ==> !b.spec_has_cipher(ids[k]),
    ensures
        b.spec_deleted_prefix(o, ids, k + 1, soft, mark),
{
    let id = ids[k];
    if soft {
        assert forall|q: int| 0 <= q < k + 1 implies b.spec_has_cipher(#[trigger] ids[q])
            && b.spec_cipher(ids[q]) == (Cipher { deleted_at: mark, ..o.spec_cipher(ids[q]) }) by {
            if ids[q] != id {
                assert(a.spec_has_cipher(ids[q]));
            } else if (forall|p: int| 0 <= p < k ==> ids[p] != id) {
                assert(a.spec_cipher(id) == o.spec_cipher(id));
            } else {
                let p = choose|p: int| 0 <= p < k && ids[p] == id;
                assert(a.spec_cipher(ids[p]) == (Cipher { deleted_at: mark, ..o.spec_cipher(ids[p]) }));
            }
        }
    } else {
        assert forall|q: int| 0 <= q < k + 1 implies !b.spec_has_cipher(#[trigger] ids[q]) by {
            if ids[q] != id {
                assert(!a.spec_has_cipher(ids[q]));
            }
        }
    }
    assert forall|x: u64| (forall|p: int| 0 <= p < k + 1 ==> ids[p] != x) implies
        #[trigger] b.spec_has_cipher(x) == o.spec_has_cipher(x)
        && (o.spec_has_cipher(x) ==> b.spec_cipher(x) == o.spec_cipher(x)) by {
        assert(x != ids[k]);
        assert(forall|p: int| 0 <= p < k ==> ids[p] != x);
    }
}

/// A share's outcome for a cipher depends only on that cipher, its links
/// and the membership, grant and folder tables.
proof fn lemma_share_check_frame(a: Vault, b: Vault, id: u64, data: CipherData, cols: Seq<u64>, user: u64,
    policy_applies: bool, max_note_size: usize)
    requires
        b.same_grant_tables(a),
        b.folders@ == a.folders@,
        b.spec_has_cipher(id) == a.spec_has_cipher(id),
        a.spec_has_cipher(id) ==> b.spec_cipher(id) == a.spec_cipher(id),
        forall|l: CollectionCipher| l.cipher_uuid == id ==>
            (#[trigger] b.collection_ciphers@.contains(l) <==> a.collection_ciphers@.contains(l)),
    ensures
        b.spec_share_check(id, data, cols, user, policy_applies, max_note_size)
            == a.spec_share_check(id, data, cols, user, policy_applies, max_note_size),
{
    if a.spec_has_cipher(id) {
        let c = a.spec_cipher(id);
        assert(c.uuid == id);
        lemma_access_frame(a, b, user, c, c, true);
    }
    assert forall|col: u64, o: u64| #[trigger] b.spec_collection_writable(user, col, o) == a.spec_collection_writable(user, col, o)
        && b.spec_collection_in_org(col, Some(o)) == a.spec_collection_in_org(col, Some(o)) by {
        lemma_grant_frame(a, b, user, col, true);
        assert(b.spec_is_member(user, o) == a.spec_is_member(user, o));
        assert(b.spec_member_full(user, o) == a.spec_member_full(user, o));
        assert(b.spec_group_full(user, o) == a.spec_group_full(user, o));
    }
    assert forall|o: u64| #[trigger] b.spec_is_member(user, o) == a.spec_is_member(user, o)
        && b.spec_member_full(user, o) == a.spec_member_full(user, o) by {}
    assert forall|f: u64| #[trigger] b.spec_folder_of_user(f, user) == a.spec_folder_of_user(f, user) by {}
    if data.organization_id is Some {
        let o = data.organization_id->Some_0;
        assert((exists|j: int| 0 <= j < cols.len() && !b.spec_collection_in_org(#[trigger] cols[j], Some(o)))
            == (exists|j: int| 0 <= j < cols.len() && !a.spec_collection_in_org(#[trigger] cols[j], Some(o)))) by {
            assert forall|j: int| 0 <= j < cols.len() implies b.spec_collection_in_org(#[trigger] cols[j], Some(o))
                == a.spec_collection_in_org(cols[j], Some(o)) by {
                assert(b.spec_collection_writable(user, cols[j], o) == a.spec_collection_writable(user, cols[j], o));
            }
        }
        assert((exists|j: int| 0 <= j < cols.len() && !b.spec_collection_writable(user, #[trigger] cols[j], o))
            == (exists|j: int| 0 <= j < cols.len() && !a.spec_collection_writable(user, #[trigger] cols[j], o))) by {
            assert forall|j: int| 0 <= j < cols.len() implies b.spec_collection_writable(user, #[trigger] cols[j], o)
                == a.spec_collection_writable(user, cols[j], o) by {}
        }
    }
}

/// Removing the cipher with one id leaves every other id's cipher as it was.
proof fn lemma_purge_one_frame(a: Vault, b: Vault, id: u64, x: u64)
    requires
        a.wf(),
        b.wf(),
        forall|c: Cipher| #[trigger] b.ciphers@.contains(c) <==> a.ciphers@.contains(c) && c.uuid != id,
        x != id,
    ensures
        b.spec_has_cipher(x) == a.spec_has_cipher(x),
        a.spec_has_cipher(x) ==> b.spec_cipher(x) == a.spec_cipher(x),
{
    if a.spec_has_cipher(x) {
        let j = choose|j: int| 0 <= j < a.ciphers@.len() && #[trigger] a.ciphers@[j].uuid == x;
        assert(a.ciphers@.contains(a.ciphers@[j]));
        assert(b.ciphers@.contains(a.ciphers@[j]));
        let k = choose|k: int| 0 <= k < b.ciphers@.len() && b.ciphers@[k] == a.ciphers@[j];
        lemma_cipher_at(a, j);
        lemma_cipher_at(b, k);
    }
    if b.spec_has_cipher(x) {
        let k = choose|k: int| 0 <= k < b.ciphers@.len() && #[trigger] b.ciphers@[k].uuid == x;
        assert(b.ciphers@.contains(b.ciphers@[k]));
        let j = choose|j: int| 0 <= j < a.ciphers@.len() && a.ciphers@[j] == b.ciphers@[k];
        assert(a.ciphers@[j].uuid == x);
    }
}

/// Replacing the cipher at one index by one of the same id leaves every
/// other id's cipher as it was.
proof fn lemma_frame_one(a: Vault, b: Vault, i: int, x: u64)
    requires
        a.wf(),
        b.wf(),
        0 <= i < a.ciphers@.len(),
        b.ciphers@.len() == a.ciphers@.len(),
        forall|j: int| 0 <= j < a.ciphers@.len() && j != i ==> b.ciphers@[j] == a.ciphers@[j],
        b.ciphers@[i].uuid == a.ciphers@[i].uuid,
        x != a.ciphers@[i].uuid,
    ensures
        b.spec_has_cipher(x) == a.spec_has_cipher(x),
        a.spec_has_cipher(x) ==> b.spec_cipher(x) == a.spec_cipher(x),
{
    if a.spec_has_cipher(x) {
        let j = choose|j: int| 0 <= j < a.ciphers@.len() && #[trigger] a.ciphers@[j].uuid == x;
        lemma_cipher_at(a, j);
        assert(b.ciphers@[j] == a.ciphers@[j]);
        lemma_cipher_at(b, j);
    }
    if b.spec_has_cipher(x) {
        let j = choose|j: int| 0 <= j < b.ciphers@.len() && #[trigger] b.ciphers@[j].uuid == x;
        assert(a.ciphers@[j] == b.ciphers@[j]);
    }
}

impl Vault {
    /// Every table but the ciphers agrees.
    pub open spec fn same_structure_but_ciphers(self, o: Vault) -> bool {
        &&& self.groups_enabled == o.groups_enabled
        &&& self.memberships@ == o.memberships@
        &&& self.collections@ == o.collections@
        &&& self.collection_ciphers@ == o.collection_ciphers@
        &&& self.collection_users@ == o.collection_users@
        &&& self.collection_groups@ == o.collection_groups@
        &&& self.groups@ == o.groups@
        &&& self.group_users@ == o.group_users@
        &&& self.folders@ == o.folders@
        &&& self.folder_ciphers@ == o.folder_ciphers@
        &&& self.favorites@ == o.favorites@
        &&& self.attachments@ == o.attachments@
    }

    /// Applies an update request to a stored cipher the user may write.
    pub fn put_cipher(&mut self, cipher_id: u64, data: CipherData, user: u64, policy_applies: bool,
        max_note_size: usize, now: Timestamp) -> (r: Result<UpdateOutcome, CipherError>)
        requires
            old(self).wf(),
        ensures
            final(self).wf(),
            !old(self).spec_has_cipher(cipher_id) ==> r == Err::<UpdateOutcome, CipherError>(CipherError::CipherNotFound),
            old(self).spec_has_cipher(cipher_id) && !old(self).spec_writable(user, old(self).spec_cipher(cipher_id))
                ==> r == Err::<UpdateOutcome, CipherError>(CipherError::NotWritable),
            old(self).spec_has_cipher(cipher_id) && old(self).spec_writable(user, old(self).spec_cipher(cipher_id)) ==> {
                let pre = spec_update_check(*old(self), old(self).spec_cipher(cipher_id), data, user, false,
                    UpdateType::SyncCipherUpdate, policy_applies, max_note_size);
                &&& pre is Err ==> r == Err::<UpdateOutcome, CipherError>(pre->Err_0) && *final(self) == *old(self)
                &&& pre is Ok && data.spec_payload() is Err ==> r == Err::<UpdateOutcome, CipherError>(data.spec_payload()->Err_0)
                    && *final(self) == *old(self)
                &&& (r is Ok <==> pre is Ok && data.spec_payload() is Ok)
            },
            !(old(self).spec_has_cipher(cipher_id) && old(self).spec_writable(user, old(self).spec_cipher(cipher_id)))
                ==> *final(self) == *old(self),
            r is Ok ==> {
                let c = final(self).spec_cipher(cipher_id);
                &&& final(self).spec_has_cipher(cipher_id)
                &&& c.owner_exclusive()
                &&& c.organization_uuid == data.organization_id
                &&& data.organization_id is None ==> c.user_uuid == Some(user)
                &&& c.key == data.key && c.notes == data.notes
                &&& r->Ok_0.update_type == UpdateType::SyncCipherUpdate
                &&& c.name == data.name && c.updated_at == now
                &&& r->Ok_0.event == crate::update::spec_event(UpdateType::SyncCipherUpdate,
                    old(self).spec_cipher(cipher_id).organization_uuid.is_none() && data.organization_id.is_some(),
                    c.organization_uuid)
            },
    {
        let i = self.writable_cipher(cipher_id, user)?;
        let mut cipher = self.ciphers[i].duplicate();
        let ghost v0 = *self;
        let out = update_cipher_from_data(self, &mut cipher, data, user, &None, UpdateType::SyncCipherUpdate,
            policy_applies, max_note_size, now)?;
        assert(self.ciphers@ == v0.ciphers@);
        self.replace_cipher(i, cipher);
        Ok(out)
    }

    /// Creates a personal cipher from the request.
    pub fn post_ciphers(&mut self, data: CipherData, user: u64, policy_applies: bool, max_note_size: usize,
        now: Timestamp) -> (r: Result<(u64, UpdateOutcome), CipherError>)
        requires
            old(self).wf(),
        ensures
            final(self).wf(),
            r is Ok ==> {
                let c = final(self).spec_cipher(r->Ok_0.0);
                &&& !old(self).spec_has_cipher(r->Ok_0.0)
                &&& final(self).spec_has_cipher(r->Ok_0.0)
                &&& c.owner_exclusive()
                &&& c.name == data.name && c.atype == data.atype && c.updated_at == now
            },
            data.organization_id.is_none() && policy_applies
                ==> r == Err::<(u64, UpdateOutcome), CipherError>(CipherError::PersonalOwnershipPolicy),
            old(self).spec_cipher_ids_left() ==> {
                let check = old(self).spec_create_check(data, user, false, policy_applies, max_note_size);
                &&& check is Err ==> r == Err::<(u64, UpdateOutcome), CipherError>(check->Err_0)
                &&& check is Ok && data.spec_payload() is Err
                    ==> r == Err::<(u64, UpdateOutcome), CipherError>(data.spec_payload()->Err_0)
                &&& (r is Ok <==> check is Ok && data.spec_payload() is Ok)
            },
            !old(self).spec_cipher_ids_left() ==> r is Err,
            r is Err ==> final(self).ciphers@ == old(self).ciphers@,
            r is Ok ==> {
                let c = final(self).spec_cipher(r->Ok_0.0);
                &&& c.organization_uuid == data.organization_id
                &&& data.organization_id is None ==> c.user_uuid == Some(user)
                &&& r->Ok_0.1.update_type == UpdateType::SyncCipherCreate
            },
    {
        crate::update::enforce_personal_ownership_policy(Some(data.organization_id), policy_applies)?;
        let mut data = data;
        data.last_known_revision_date = None;
        let id = match self.fresh_cipher_id() {
            Some(id) => id,
            None => return Err(CipherError::IdsExhausted),
        };
        let mut cipher = Cipher::new(data.atype, data.name.clone(), now);
        cipher.uuid = id;
        let out = update_cipher_from_data(self, &mut cipher, data, user, &None, UpdateType::SyncCipherCreate,
            policy_applies, max_note_size, now)?;
        self.add_cipher(cipher);
        Ok((id, out))
    }

    /// Links the cipher to the collection unless it already is.
    pub fn link_collection(&mut self, cipher: u64, col: u64)
        ensures
            final(self).spec_linked(cipher, col),
            forall|c: u64, k: u64| #[trigger] old(self).spec_linked(c, k) ==> final(self).spec_linked(c, k),
            forall|c: u64, k: u64| #[trigger] final(self).spec_linked(c, k) ==> old(self).spec_linked(c, k)
                || (c == cipher && k == col),
            final(self).ciphers@ == old(self).ciphers@,
            final(self).attachments@ == old(self).attachments@,
            final(self).memberships@ == old(self).memberships@,
            final(self).collections@ == old(self).collections@,
            final(self).folders@ == old(self).folders@,
            final(self).folder_ciphers@ == old(self).folder_ciphers@,
            final(self).favorites@ == old(self).favorites@,
            final(self).groups_enabled == old(self).groups_enabled,
            final(self).groups@ == old(self).groups@,
            final(self).group_users@ == old(self).group_users@,
            final(self).collection_users@ == old(self).collection_users@,
            final(self).collection_groups@ == old(self).collection_groups@,
            forall|l: CollectionCipher| l.cipher_uuid != cipher ==>
                (#[trigger] final(self).collection_ciphers@.contains(l) <==> old(self).collection_ciphers@.contains(l)),
    {
        if self.is_linked(cipher, col) {
            return;
        }
        let link = CollectionCipher { cipher_uuid: cipher, collection_uuid: col };
        let ghost n = self.collection_ciphers@.len();
        self.collection_ciphers.push(link);
        assert(self.collection_ciphers@[n as int] == link);
        assert forall|l: CollectionCipher| l.cipher_uuid != cipher implies
            (#[trigger] self.collection_ciphers@.contains(l) <==> old(self).collection_ciphers@.contains(l)) by {
            if self.collection_ciphers@.contains(l) {
                let j = choose|j: int| 0 <= j < self.collection_ciphers@.len() && self.collection_ciphers@[j] == l;
                assert(j < n);
                assert(old(self).collection_ciphers@[j] == l);
            }
            if old(self).collection_ciphers@.contains(l) {
                let j = choose|j: int| 0 <= j < n && old(self).collection_ciphers@[j] == l;
                assert(self.collection_ciphers@[j] == l);
            }
        }
        assert forall|c: u64, k: u64| #[trigger] old(self).spec_linked(c, k) implies self.spec_linked(c, k) by {
            let j = choose|j: int| 0 <= j < n && #[trigger] old(self).collection_ciphers@[j]
                == (CollectionCipher { cipher_uuid: c, collection_uuid: k });
            assert(self.collection_ciphers@[j] == old(self).collection_ciphers@[j]);
        }
        assert forall|c: u64, k: u64| #[trigger] self.spec_linked(c, k) implies old(self).spec_linked(c, k)
            || (c == cipher && k == col) by {
            let j = choose|j: int| 0 <= j < n + 1 && #[trigger] self.collection_ciphers@[j]
                == (CollectionCipher { cipher_uuid: c, collection_uuid: k });
            if j < n {
                assert(old(self).collection_ciphers@[j] == self.collection_ciphers@[j]);
            }
        }
    }

    /// Shares a cipher the user may write into collections of the posted
    /// organization and applies the posted cipher. Every collection is
    /// checked before any is linked.
    #[verifier::loop_isolation(false)]
    pub fn share_cipher_by_uuid(&mut self, cipher_id: u64, data: ShareCipherData, user: u64, policy_applies: bool,
        max_note_size: usize, now: Timestamp) -> (r: Result<(UpdateOutcome, Vec<u64>), CipherError>)
        requires
            old(self).wf(),
        ensures
            final(self).wf(),
            !old(self).spec_has_cipher(cipher_id) ==> r == Err::<(UpdateOutcome, Vec<u64>), CipherError>(CipherError::CipherNotFound),
            old(self).spec_has_cipher(cipher_id) && !old(self).spec_writable(user, old(self).spec_cipher(cipher_id))
                ==> r == Err::<(UpdateOutcome, Vec<u64>), CipherError>(CipherError::NotWritable),
            data.cipher.organization_id.is_some() && (exists|j: int| 0 <= j < data.collection_ids@.len()
                && !old(self).spec_collection_in_org(#[trigger] data.collection_ids@[j], data.cipher.organization_id))
                && old(self).spec_has_cipher(cipher_id) && old(self).spec_writable(user, old(self).spec_cipher(cipher_id))
                ==> r == Err::<(UpdateOutcome, Vec<u64>), CipherError>(CipherError::InvalidCollection),
            data.cipher.organization_id.is_some() && (forall|j: int| 0 <= j < data.collection_ids@.len()
                ==> old(self).spec_collection_in_org(#[trigger] data.collection_ids@[j], data.cipher.organization_id))
                && (exists|j: int| 0 <= j < data.collection_ids@.len() && !old(self).spec_collection_writable(user,
                    #[trigger] data.collection_ids@[j], data.cipher.organization_id->Some_0))
                && old(self).spec_has_cipher(cipher_id) && old(self).spec_writable(user, old(self).spec_cipher(cipher_id))
                ==> r == Err::<(UpdateOutcome, Vec<u64>), CipherError>(CipherError::CollectionNotWritable),
            old(self).spec_has_cipher(cipher_id) && old(self).spec_writable(user, old(self).spec_cipher(cipher_id))
                && old(self).spec_share_collections_ok(data.cipher.organization_id, data.collection_ids@, user) ==> {
                let pre = spec_update_check(*old(self), old(self).spec_cipher(cipher_id), data.cipher, user, true,
                    spec_share_update_type(data.cipher), policy_applies, max_note_size);
                &&& pre is Err ==> r == Err::<(UpdateOutcome, Vec<u64>), CipherError>(pre->Err_0)
                &&& pre is Ok && data.cipher.spec_payload() is Err
                    ==> r == Err::<(UpdateOutcome, Vec<u64>), CipherError>(data.cipher.spec_payload()->Err_0)
                &&& (r is Ok <==> pre is Ok && data.cipher.spec_payload() is Ok)
            },
            match old(self).spec_share_check(cipher_id, data.cipher, data.collection_ids@, user, policy_applies, max_note_size) {
                Ok(_) => r is Ok,
                Err(e) => r == Err::<(UpdateOutcome, Vec<u64>), CipherError>(e),
            },
            final(self).same_grant_tables(*old(self)),
            final(self).folders@ == old(self).folders@,
            forall|l: CollectionCipher| l.cipher_uuid != cipher_id ==>
                (#[trigger] final(self).collection_ciphers@.contains(l) <==> old(self).collection_ciphers@.contains(l)),
            r is Ok ==> old(self).spec_has_cipher(cipher_id) && old(self).spec_writable(user, old(self).spec_cipher(cipher_id))
                && old(self).spec_share_collections_ok(data.cipher.organization_id, data.collection_ids@, user),
            forall|x: u64| x != cipher_id ==> #[trigger] final(self).spec_has_cipher(x) == old(self).spec_has_cipher(x),
            forall|x: u64| x != cipher_id && old(self).spec_has_cipher(x)
                ==> #[trigger] final(self).spec_cipher(x) == old(self).spec_cipher(x),
            r is Ok ==> {
                let c = final(self).spec_cipher(cipher_id);
                &&& final(self).spec_has_cipher(cipher_id)
                &&& c.owner_exclusive()
                &&& c.organization_uuid == data.cipher.organization_id
                &&& data.cipher.organization_id is None ==> c.user_uuid == Some(user)
                &&& r->Ok_0.0.update_type == spec_share_update_type(data.cipher)
                &&& r->Ok_0.0.event == crate::update::spec_event(spec_share_update_type(data.cipher),
                    old(self).spec_cipher(cipher_id).organization_uuid.is_none() && data.cipher.organization_id.is_some(),
                    c.organization_uuid)
                &&& r->Ok_0.1@ == if data.cipher.organization_id.is_some() { data.collection_ids@ } else { Seq::<u64>::empty() }
                &&& data.cipher.organization_id.is_some() ==> forall|j: int| 0 <= j < data.collection_ids@.len()
                    ==> final(self).spec_linked(cipher_id, #[trigger] data.collection_ids@[j])
            },
    {
        let i = self.writable_cipher(cipher_id, user)?;
        let mut shared: Vec<u64> = Vec::new();
        match data.cipher.organization_id {
            Some(org) => {
                let mut k: usize = 0;
                while k < data.collection_ids.len()
                    invariant
                        k <= data.collection_ids@.len(),
                        *self == *old(self),
                        data.cipher.organization_id == Some(org),
                        forall|j: int| 0 <= j < k ==> self.spec_collection_in_org(#[trigger] data.collection_ids@[j], Some(org)),
                    decreases data.collection_ids@.len() - k,
                {
                    if !self.collection_in_org(data.collection_ids[k], Some(org)) {
                        return Err(CipherError::InvalidCollection);
                    }
                    k = k + 1;
                }
                let mut k: usize = 0;
                while k < data.collection_ids.len()
                    invariant
                        k <= data.collection_ids@.len(),
                        *self == *old(self),
                        forall|j: int| 0 <= j < k ==> self.spec_collection_writable(user, #[trigger] data.collection_ids@[j], org),
                    decreases data.collection_ids@.len() - k,
                {
                    if !self.is_collection_writable(user, data.collection_ids[k], org) {
                        return Err(CipherError::CollectionNotWritable);
                    }
                    k = k + 1;
                }
                let mut k: usize = 0;
                while k < data.collection_ids.len()
                    invariant
                        k <= data.collection_ids@.len(),
                        self.wf(),
                        self.ciphers@ == old(self).ciphers@,
                        self.memberships@ == old(self).memberships@,
                        self.folders@ == old(self).folders@,
                        self.attachments@ == old(self).attachments@,
                        self.same_grant_tables(*old(self)),
                        forall|l: CollectionCipher| l.cipher_uuid != cipher_id ==>
                            (#[trigger] self.collection_ciphers@.contains(l) <==> old(self).collection_ciphers@.contains(l)),
                        shared@ == data.collection_ids@.subrange(0, k as int),
                        forall|j: int| 0 <= j < k ==> self.spec_linked(cipher_id, #[trigger] data.collection_ids@[j]),
                    decreases data.collection_ids@.len() - k,
                {
                    let col = data.collection_ids[k];
                    self.link_collection(cipher_id, col);
                    shared.push(col);
                    k = k + 1;
                    assert(shared@ =~= data.collection_ids@.subrange(0, k as int));
                }
                assert(shared@ =~= data.collection_ids@);
            },
            None => {},
        }
        let ghost linked_before = *self;
        let ut = if data.cipher.last_known_revision_date.is_some() {
            UpdateType::SyncCipherUpdate
        } else {
            UpdateType::SyncCipherCreate
        };
        let mut cipher = self.ciphers[i].duplicate();
        assert(ut == spec_share_update_type(data.cipher));
        assert(linked_before.memberships@ == old(self).memberships@ && linked_before.folders@ == old(self).folders@);
        assert(spec_update_check(linked_before, cipher, data.cipher, user, true, ut, policy_applies, max_note_size)
            == spec_update_check(*old(self), old(self).spec_cipher(cipher_id), data.cipher, user, true, ut, policy_applies,
            max_note_size));
        let announced = Some(shared);
        let out = update_cipher_from_data(self, &mut cipher, data.cipher, user, &announced, ut, policy_applies,
            max_note_size, now)?;
        self.replace_cipher(i, cipher);
        assert(self.collection_ciphers@ == linked_before.collection_ciphers@);
        let list = match announced {
            Some(l) => l,
            None => Vec::new(),
        };
        Ok((out, list))
    }
}

/// Which ciphers a purge removes.
#[derive(Clone, Copy, Debug, PartialEq, Eq, Structural)]
pub enum Purge {
    /// The cipher with the id.
    Cipher(u64),
    /// Every cipher of the organization.
    Organization(u64),
    /// Every cipher the user owns.
    OwnedBy(u64),
    /// Every soft-deleted cipher whose deletion is older than the instant.
    TrashedBefore(Timestamp),
}

impl Purge {
    pub open spec fn hits(self, c: Cipher) -> bool {
        match self {
            Purge::Cipher(id) => c.uuid == id,
            Purge::Organization(o) => c.organization_uuid == Some(o),
            Purge::OwnedBy(u) => c.user_uuid == Some(u),
            Purge::TrashedBefore(t) => match c.deleted_at {
                Some(d) => d.total_nanos() < t.total_nanos(),
                None => false,
            },
        }
    }

    pub fn hits_cipher(&self, c: &Cipher) -> (r: bool)
        ensures
            r == self.hits(*c),
    {
        match self {
            Purge::Cipher(id) => c.uuid == *id,
            Purge::Organization(o) => c.organization_uuid == Some(*o),
            Purge::OwnedBy(u) => c.user_uuid == Some(*u),
            Purge::TrashedBefore(t) => match c.deleted_at {
                Some(d) => (d.secs as i128) * 1_000_000_000i128 + (d.nanos as i128)
                    < (t.secs as i128) * 1_000_000_000i128 + (t.nanos as i128),
                None => false,
            },
        }
    }
}

impl Vault {
    /// A stored cipher with the id is one the purge removes.
    pub open spec fn spec_purged_id(self, id: u64, p: Purge) -> bool {
        exists|k: int| 0 <= k < self.ciphers@.len() && #[trigger] self.ciphers@[k].uuid == id && p.hits(self.ciphers@[k])
    }

    /// Removes the ciphers the purge names together with their attachments.
    pub fn purge_ciphers(&mut self, p: Purge) -> (removed: Vec<Cipher>)
        requires
            old(self).wf(),
        ensures
            final(self).wf(),
            forall|c: Cipher| #[trigger] final(self).ciphers@.contains(c) <==> old(self).ciphers@.contains(c) && !p.hits(c),
            forall|c: Cipher| #[trigger] removed@.contains(c) <==> old(self).ciphers@.contains(c) && p.hits(c),
            forall|a: Attachment| #[trigger] final(self).attachments@.contains(a) <==>
                old(self).attachments@.contains(a) && !old(self).spec_purged_id(a.cipher_uuid, p),
            forall|l: CollectionCipher| #[trigger] final(self).collection_ciphers@.contains(l) <==>
                old(self).collection_ciphers@.contains(l) && !old(self).spec_purged_id(l.cipher_uuid, p),
            forall|l: FolderCipher| #[trigger] final(self).folder_ciphers@.contains(l) <==>
                old(self).folder_ciphers@.contains(l) && !old(self).spec_purged_id(l.cipher_uuid, p),
            forall|l: Favorite| #[trigger] final(self).favorites@.contains(l) <==>
                old(self).favorites@.contains(l) && !old(self).spec_purged_id(l.cipher_uuid, p),
            final(self).same_grant_tables(*old(self)),
            final(self).folders@ == old(self).folders@,
    {
        let mut kept: Vec<Cipher> = Vec::new();
        let mut removed: Vec<Cipher> = Vec::new();
        let mut gone: Vec<u64> = Vec::new();
        let ghost mut idx: Seq<int> = Seq::empty();
        let mut i: usize = 0;
        while i < self.ciphers.len()
            invariant
                *self == *old(self),
                self.wf(),
                i <= self.ciphers@.len(),
                idx.len() == kept@.len(),
                forall|k: int| 0 <= k < kept@.len() ==> 0 <= #[trigger] idx[k] < i && self.ciphers@[idx[k]] == kept@[k]
                    && !p.hits(kept@[k]),
                forall|a: int, b: int| 0 <= a < b < idx.len() ==> #[trigger] idx[a] < #[trigger] idx[b],
                forall|j: int| 0 <= j < i && !p.hits(self.ciphers@[j]) ==> kept@.contains(#[trigger] self.ciphers@[j]),
                forall|c: Cipher| #[trigger] removed@.contains(c) <==> exists|j: int| 0 <= j < i && #[trigger] self.ciphers@[j] == c && p.hits(c),
                forall|id: u64| #[trigger] gone@.contains(id) <==> exists|j: int| 0 <= j < i && #[trigger] self.ciphers@[j].uuid == id
                    && p.hits(self.ciphers@[j]),
            decreases self.ciphers@.len() - i,
        {
            let c = self.ciphers[i].duplicate();
            let ghost k0 = kept@;
            let ghost r0 = removed@;
            let ghost g0 = gone@;
            if p.hits_cipher(&c) {
                gone.push(c.uuid);
                removed.push(c);
            } else {
                kept.push(c);
                proof { idx = idx.push(i as int); }
            }
            i = i + 1;
            proof {
                let ci = self.ciphers@[i - 1];
                assert forall|j: int| 0 <= j < i && !p.hits(self.ciphers@[j]) implies kept@.contains(#[trigger] self.ciphers@[j]) by {
                    if j < i - 1 {
                        let k = choose|k: int| 0 <= k < k0.len() && k0[k] == self.ciphers@[j];
                        assert(kept@[k] == k0[k]);
                    } else {
                        assert(kept@[kept@.len() - 1] == self.ciphers@[j]);
                    }
                }
                assert forall|cc: Cipher| #[trigger] removed@.contains(cc) <==> exists|j: int| 0 <= j < i
                    && #[trigger] self.ciphers@[j] == cc && p.hits(cc) by {
                    if removed@.contains(cc) && !r0.contains(cc) {
                        assert(self.ciphers@[i - 1] == cc);
                    }
                    if r0.contains(cc) {
                        let q = choose|q: int| 0 <= q < r0.len() && r0[q] == cc;
                        assert(removed@[q] == cc);
                    }
                    if (exists|j: int| 0 <= j < i && #[trigger] self.ciphers@[j] == cc && p.hits(cc))
                        && !(exists|j: int| 0 <= j < i - 1 && #[trigger] self.ciphers@[j] == cc && p.hits(cc)) {
                        assert(removed@[removed@.len() - 1] == cc);
                    }
                }
                assert forall|id: u64| #[trigger] gone@.contains(id) <==> exists|j: int| 0 <= j < i
                    && #[trigger] self.ciphers@[j].uuid == id && p.hits(self.ciphers@[j]) by {
                    if gone@.contains(id) && !g0.contains(id) {
                        assert(self.ciphers@[i - 1].uuid == id);
                    }
                    if g0.contains(id) {
                        let q = choose|q: int| 0 <= q < g0.len() && g0[q] == id;
                        assert(gone@[q] == id);
                    }
                    if (exists|j: int| 0 <= j < i && #[trigger] self.ciphers@[j].uuid == id && p.hits(self.ciphers@[j]))
                        && !(exists|j: int| 0 <= j < i - 1 && #[trigger] self.ciphers@[j].uuid == id && p.hits(self.ciphers@[j])) {
                        assert(gone@[gone@.len() - 1] == id);
                    }
                }
            }
        }
        let mut atts: Vec<Attachment> = Vec::new();
        let ghost mut aidx: Seq<int> = Seq::empty();
        let mut j: usize = 0;
        while j < self.attachments.len()
            invariant
                *self == *old(self),
                j <= self.attachments@.len(),
                forall|id: u64| #[trigger] gone@.contains(id) <==> self.spec_purged_id(id, p),
                forall|a: Attachment| #[trigger] atts@.contains(a) <==> (exists|q: int| 0 <= q < j && #[trigger] self.attachments@[q] == a)
                    && !self.spec_purged_id(a.cipher_uuid, p),
                aidx.len() == atts@.len(),
                forall|k: int| 0 <= k < atts@.len() ==> 0 <= #[trigger] aidx[k] < j && self.attachments@[aidx[k]] == atts@[k],
                forall|a: int, b: int| 0 <= a < b < aidx.len() ==> #[trigger] aidx[a] < #[trigger] aidx[b],
            decreases self.attachments@.len() - j,
        {
            let a = self.attachments[j].duplicate();
            let ghost a0 = atts@;
            if !crate::collections::vec_contains(&gone, a.cipher_uuid) {
                atts.push(a);
                proof { aidx = aidx.push(j as int); }
            }
            j = j + 1;
            proof {
                assert forall|x: Attachment| #[trigger] atts@.contains(x) <==> (exists|q: int| 0 <= q < j && #[trigger] self.attachments@[q] == x)
                    && !self.spec_purged_id(x.cipher_uuid, p) by {
                    if atts@.contains(x) && !a0.contains(x) {
                        assert(self.attachments@[j - 1] == x);
                    }
                    if a0.contains(x) {
                        let q = choose|q: int| 0 <= q < a0.len() && a0[q] == x;
                        assert(atts@[q] == x);
                    }
                    if (exists|q: int| 0 <= q < j && #[trigger] self.attachments@[q] == x)
                        && !(exists|q: int| 0 <= q < j - 1 && #[trigger] self.attachments@[q] == x)
                        && !self.spec_purged_id(x.cipher_uuid, p) {
                        assert(atts@[atts@.len() - 1] == x);
                    }
                }
            }
        }
        assert forall|c: Cipher| #[trigger] kept@.contains(c) <==> old(self).ciphers@.contains(c) && !p.hits(c) by {
            if kept@.contains(c) {
                let k = choose|k: int| 0 <= k < kept@.len() && kept@[k] == c;
                assert(old(self).ciphers@[idx[k]] == c);
            }
            if old(self).ciphers@.contains(c) && !p.hits(c) {
                let q = choose|q: int| 0 <= q < old(self).ciphers@.len() && old(self).ciphers@[q] == c;
            }
        }
        assert forall|c: Cipher| #[trigger] removed@.contains(c) <==> old(self).ciphers@.contains(c) && p.hits(c) by {
            if old(self).ciphers@.contains(c) && p.hits(c) {
                let q = choose|q: int| 0 <= q < old(self).ciphers@.len() && old(self).ciphers@[q] == c;
            }
        }
        assert forall|a: Attachment| #[trigger] atts@.contains(a) <==>
            old(self).attachments@.contains(a) && !old(self).spec_purged_id(a.cipher_uuid, p) by {
            if old(self).attachments@.contains(a) {
                let q = choose|q: int| 0 <= q < old(self).attachments@.len() && old(self).attachments@[q] == a;
            }
        }
        assert forall|k: int| 0 <= k < kept@.len() implies (#[trigger] kept@[k]).owner_exclusive() by {
            assert(old(self).ciphers@[idx[k]] == kept@[k]);
        }
        assert forall|a: int, b: int| 0 <= a < atts@.len() && 0 <= b < atts@.len()
            && #[trigger] atts@[a].id == #[trigger] atts@[b].id implies a == b by {
            assert(old(self).attachments@[aidx[a]].id == old(self).attachments@[aidx[b]].id);
            if a < b {
                assert(aidx[a] < aidx[b]);
            }
            if b < a {
                assert(aidx[b] < aidx[a]);
            }
        }
        assert forall|a: int, b: int| 0 <= a < kept@.len() && 0 <= b < kept@.len()
            && #[trigger] kept@[a].uuid == #[trigger] kept@[b].uuid implies a == b by {
            assert(old(self).ciphers@[idx[a]].uuid == old(self).ciphers@[idx[b]].uuid);
            if a < b {
                assert(idx[a] < idx[b]);
            }
            if b < a {
                assert(idx[b] < idx[a]);
            }
        }
        let links = drop_collection_links(&self.collection_ciphers, &gone);
        let placements = drop_folder_links(&self.folder_ciphers, &gone);
        let favorites = drop_favorites(&self.favorites, &gone);
        self.ciphers = kept;
        self.attachments = atts;
        self.collection_ciphers = links;
        self.folder_ciphers = placements;
        self.favorites = favorites;
        removed
    }

}


impl Vault {
    /// Deletes a cipher the user may write: a soft delete marks it with
    /// the time, a hard delete removes it and its attachments. Returns the
    /// audit event, due for organization ciphers only.
    pub fn delete_cipher_by_uuid(&mut self, cipher_id: u64, user: u64, soft_delete: bool, now: Timestamp)
        -> (r: Result<Option<EventType>, CipherError>)
        requires
            old(self).wf(),
        ensures
            final(self).wf(),
            !old(self).spec_has_cipher(cipher_id) ==> r == Err::<Option<EventType>, CipherError>(CipherError::CipherNotFound),
            old(self).spec_has_cipher(cipher_id) && !old(self).spec_writable(user, old(self).spec_cipher(cipher_id))
                ==> r == Err::<Option<EventType>, CipherError>(CipherError::NotWritable),
            r is Ok <==> old(self).spec_has_cipher(cipher_id) && old(self).spec_writable(user, old(self).spec_cipher(cipher_id)),
            r is Err ==> *final(self) == *old(self),
            r is Ok ==> r->Ok_0 == if old(self).spec_cipher(cipher_id).organization_uuid.is_none() { None } else if soft_delete {
                Some(EventType::CipherSoftDeleted) } else { Some(EventType::CipherDeleted) },
            r is Ok && soft_delete ==> final(self).spec_has_cipher(cipher_id)
                && final(self).spec_cipher(cipher_id) == (Cipher { deleted_at: Some(now), ..old(self).spec_cipher(cipher_id) })
                && final(self).spec_cipher(cipher_id).deleted_at == Some(now),
            r is Ok && !soft_delete ==> !final(self).spec_has_cipher(cipher_id)
                && forall|j: int| 0 <= j < final(self).attachments@.len() ==> (#[trigger] final(self).attachments@[j]).cipher_uuid != cipher_id,
            forall|x: u64| x != cipher_id ==> #[trigger] final(self).spec_has_cipher(x) == old(self).spec_has_cipher(x),
            forall|x: u64| x != cipher_id && old(self).spec_has_cipher(x)
                ==> #[trigger] final(self).spec_cipher(x) == old(self).spec_cipher(x),
            r is Ok && !soft_delete ==> forall|c: Cipher| #[trigger] final(self).ciphers@.contains(c) ==> old(self).ciphers@.contains(c),
            final(self).same_grant_tables(*old(self)),
            soft_delete ==> final(self).collection_ciphers@ == old(self).collection_ciphers@,
            forall|l: CollectionCipher| l.cipher_uuid != cipher_id ==>
                (#[trigger] final(self).collection_ciphers@.contains(l) <==> old(self).collection_ciphers@.contains(l)),
            r is Ok && !soft_delete ==> {
                &&& forall|l: CollectionCipher| #[trigger] final(self).collection_ciphers@.contains(l) ==> l.cipher_uuid != cipher_id
                &&& forall|l: FolderCipher| #[trigger] final(self).folder_ciphers@.contains(l) ==> l.cipher_uuid != cipher_id
                &&& forall|l: Favorite| #[trigger] final(self).favorites@.contains(l) ==> l.cipher_uuid != cipher_id
            },
    {
        let i = self.writable_cipher(cipher_id, user)?;
        let is_org = self.ciphers[i].organization_uuid.is_some();
        if soft_delete {
            let mut c = self.ciphers[i].duplicate();
            c.deleted_at = Some(now);
            self.replace_cipher(i, c);
        } else {
            let ghost v0 = *self;
            self.purge_ciphers(Purge::Cipher(cipher_id));
            assert(!self.spec_has_cipher(cipher_id)) by {
                if self.spec_has_cipher(cipher_id) {
                    let k = choose|k: int| 0 <= k < self.ciphers@.len() && #[trigger] self.ciphers@[k].uuid == cipher_id;
                    assert(self.ciphers@.contains(self.ciphers@[k]));
                }
            }
            assert forall|j: int| 0 <= j < self.attachments@.len() implies (#[trigger] self.attachments@[j]).cipher_uuid != cipher_id by {
                assert(self.attachments@.contains(self.attachments@[j]));
                if self.attachments@[j].cipher_uuid == cipher_id {
                    assert(v0.ciphers@[i as int].uuid == cipher_id);
                    assert(v0.spec_purged_id(cipher_id, Purge::Cipher(cipher_id)));
                }
            }
            assert forall|x: u64| x != cipher_id implies #[trigger] self.spec_has_cipher(x) == old(self).spec_has_cipher(x)
                && (old(self).spec_has_cipher(x) ==> self.spec_cipher(x) == old(self).spec_cipher(x)) by {
                lemma_purge_one_frame(v0, *self, cipher_id, x);
            }
            assert forall|x: u64| x != cipher_id && old(self).spec_has_cipher(x)
                implies #[trigger] self.spec_cipher(x) == old(self).spec_cipher(x) by {
                lemma_purge_one_frame(v0, *self, cipher_id, x);
            }
            assert(v0.spec_purged_id(cipher_id, Purge::Cipher(cipher_id))) by {
                assert(v0.ciphers@[i as int].uuid == cipher_id);
            }
            assert forall|x: u64| x != cipher_id implies !#[trigger] v0.spec_purged_id(x, Purge::Cipher(cipher_id)) by {}
        }
        if is_org {
            Ok(Some(if soft_delete { EventType::CipherSoftDeleted } else { EventType::CipherDeleted }))
        } else {
            Ok(None)
        }
    }

    /// Deletes the ciphers in order, stopping at the first failure; the
    /// deletions before it stay and the ciphers after it are untouched.
    /// Returns the audit events with their ciphers.
    pub fn delete_multiple_ciphers(&mut self, ids: &Vec<u64>, user: u64, soft_delete: bool, now: Timestamp)
        -> (r: Result<Vec<(u64, EventType)>, CipherError>)
        requires
            old(self).wf(),
        ensures
            final(self).wf(),
            ids@.len() == 0 ==> r is Ok && *final(self) == *old(self),
            r is Ok <==> forall|k: int| 0 <= k < ids@.len() ==> old(self).spec_has_cipher(#[trigger] ids@[k])
                && old(self).spec_writable(user, old(self).spec_cipher(ids@[k]))
                && (!soft_delete ==> forall|p: int| 0 <= p < k ==> ids@[p] != ids@[k]),
            r is Ok ==> final(self).spec_deleted_prefix(*old(self), ids@, ids@.len() as int, soft_delete, Some(now)),
            r is Err ==> exists|k: int| 0 <= k < ids@.len()
                && #[trigger] final(self).spec_deleted_prefix(*old(self), ids@, k, soft_delete, Some(now))
                && (forall|q: int| 0 <= q < k ==> old(self).spec_has_cipher(#[trigger] ids@[q])
                    && old(self).spec_writable(user, old(self).spec_cipher(ids@[q])))
                && r->Err_0 == if !old(self).spec_has_cipher(ids@[k])
                    || (!soft_delete && exists|p: int| 0 <= p < k && ids@[p] == ids@[k]) {
                    CipherError::CipherNotFound
                } else {
                    CipherError::NotWritable
                },
    {
        let mut events: Vec<(u64, EventType)> = Vec::new();
        let mut k: usize = 0;
        while k < ids.len()
            invariant
                self.wf(),
                old(self).wf(),
                k <= ids@.len(),
                self.same_grant_tables(*old(self)),
                soft_delete ==> self.collection_ciphers@ == old(self).collection_ciphers@,
                forall|l: CollectionCipher| (forall|p: int| 0 <= p < k ==> ids@[p] != l.cipher_uuid) ==>
                    (#[trigger] self.collection_ciphers@.contains(l) <==> old(self).collection_ciphers@.contains(l)),
                ids@.len() == 0 ==> *self == *old(self),
                forall|q: int| 0 <= q < k ==> old(self).spec_has_cipher(#[trigger] ids@[q])
                    && old(self).spec_writable(user, old(self).spec_cipher(ids@[q]))
                    && (!soft_delete ==> forall|p: int| 0 <= p < q ==> ids@[p] != ids@[q]),
                self.spec_deleted_prefix(*old(self), ids@, k as int, soft_delete, Some(now)),
            decreases ids@.len() - k,
        {
            let id = ids[k];
            let ghost cur = *self;
            let ghost touched = exists|p: int| 0 <= p < k && ids@[p] == id;
            proof {
                if !touched {
                    assert(cur.spec_has_cipher(id) == old(self).spec_has_cipher(id));
                    if old(self).spec_has_cipher(id) {
                        let c = old(self).spec_cipher(id);
                        lemma_access_frame(*old(self), cur, user, c, c, true);
                    }
                } else {
                    let p = choose|p: int| 0 <= p < k && ids@[p] == id;
                    if soft_delete {
                        let c = old(self).spec_cipher(id);
                        assert(old(self).spec_has_cipher(ids@[p]));
                        lemma_access_frame(*old(self), cur, user, c, cur.spec_cipher(id), true);
                    }
                }
            }
            let res = self.delete_cipher_by_uuid(id, user, soft_delete, now);
            match res {
                Err(e) => {
                    proof {
                        assert(self.spec_deleted_prefix(*old(self), ids@, k as int, soft_delete, Some(now)));
                        assert(e == if !old(self).spec_has_cipher(ids@[k as int])
                            || (!soft_delete && exists|p: int| 0 <= p < k && ids@[p] == ids@[k as int]) {
                            CipherError::CipherNotFound
                        } else {
                            CipherError::NotWritable
                        });
                        if touched {
                            let p = choose|p: int| 0 <= p < k && ids@[p] == id;
                            assert(ids@[p] == ids@[k as int]);
                        }
                        assert(!(old(self).spec_has_cipher(ids@[k as int])
                            && old(self).spec_writable(user, old(self).spec_cipher(ids@[k as int]))
                            && (!soft_delete ==> forall|p: int| 0 <= p < k ==> ids@[p] != ids@[k as int])));
                    }
                    return Err(e);
                },
                Ok(ev) => {
                    match ev {
                        Some(e) => events.push((id, e)),
                        None => {},
                    }
                },
            }
            proof {
                if !touched {
                    assert(old(self).spec_has_cipher(ids@[k as int]));
                }
                assert forall|q: int| 0 <= q < k + 1 implies old(self).spec_has_cipher(#[trigger] ids@[q])
                    && old(self).spec_writable(user, old(self).spec_cipher(ids@[q]))
                    && (!soft_delete ==> forall|p: int| 0 <= p < q ==> ids@[p] != ids@[q]) by {
                    if q == k && touched {
                        let p = choose|p: int| 0 <= p < k && ids@[p] == id;
                        assert(ids@[p] == ids@[q]);
                    }
                }
                lemma_prefix_step(*old(self), cur, *self, ids@, k as int, soft_delete, Some(now));
            }
            k = k + 1;
        }
        Ok(events)
    }

    /// Takes the soft-delete mark off a cipher the user may write.
    pub fn restore_cipher_by_uuid(&mut self, cipher_id: u64, user: u64) -> (r: Result<Option<EventType>, CipherError>)
        requires
            old(self).wf(),
        ensures
            final(self).wf(),
            !old(self).spec_has_cipher(cipher_id) ==> r == Err::<Option<EventType>, CipherError>(CipherError::CipherNotFound),
            old(self).spec_has_cipher(cipher_id) && !old(self).spec_writable(user, old(self).spec_cipher(cipher_id))
                ==> r == Err::<Option<EventType>, CipherError>(CipherError::NotWritable),
            r is Ok <==> old(self).spec_has_cipher(cipher_id) && old(self).spec_writable(user, old(self).spec_cipher(cipher_id)),
            r is Err ==> *final(self) == *old(self),
            r is Ok ==> final(self).spec_has_cipher(cipher_id) && final(self).spec_cipher(cipher_id).deleted_at.is_none()
                && final(self).spec_cipher(cipher_id) == (Cipher { deleted_at: None, ..old(self).spec_cipher(cipher_id) }),
            final(self).same_access_tables(*old(self)),
            r is Ok ==> r->Ok_0 == if old(self).spec_cipher(cipher_id).organization_uuid.is_some() {
                    Some(EventType::CipherRestored) } else { None },
            r is Ok ==> (forall|x: u64| x != cipher_id ==> #[trigger] final(self).spec_has_cipher(x) == old(self).spec_has_cipher(x))
                && (forall|x: u64| x != cipher_id && old(self).spec_has_cipher(x)
                    ==> #[trigger] final(self).spec_cipher(x) == old(self).spec_cipher(x)),
    {
        let i = self.writable_cipher(cipher_id, user)?;
        let mut c = self.ciphers[i].duplicate();
        c.deleted_at = None;
        let is_org = c.organization_uuid.is_some();
        assert(c.uuid == cipher_id);
        self.replace_cipher(i, c);
        if is_org {
            Ok(Some(EventType::CipherRestored))
        } else {
            Ok(None)
        }
    }

    /// Restores the ciphers in order, stopping at the first failure; the
    /// restorations before it stay and the ciphers after it are untouched.
    pub fn restore_multiple_ciphers(&mut self, ids: &Vec<u64>, user: u64) -> (r: Result<Vec<(u64, EventType)>, CipherError>)
        requires
            old(self).wf(),
        ensures
            final(self).wf(),
            ids@.len() == 0 ==> r is Ok && *final(self) == *old(self),
            r is Ok <==> forall|k: int| 0 <= k < ids@.len() ==> old(self).spec_has_cipher(#[trigger] ids@[k])
                && old(self).spec_writable(user, old(self).spec_cipher(ids@[k])),
            r is Ok ==> final(self).spec_deleted_prefix(*old(self), ids@, ids@.len() as int, true, None),
            r is Err ==> exists|k: int| 0 <= k < ids@.len()
                && #[trigger] final(self).spec_deleted_prefix(*old(self), ids@, k, true, None)
                && (forall|q: int| 0 <= q < k ==> old(self).spec_has_cipher(#[trigger] ids@[q])
                    && old(self).spec_writable(user, old(self).spec_cipher(ids@[q])))
                && r->Err_0 == if !old(self).spec_has_cipher(ids@[k]) { CipherError::CipherNotFound } else {
                    CipherError::NotWritable },
    {
        let mut events: Vec<(u64, EventType)> = Vec::new();
        let mut k: usize = 0;
        while k < ids.len()
            invariant
                self.wf(),
                old(self).wf(),
                k <= ids@.len(),
                self.same_access_tables(*old(self)),
                ids@.len() == 0 ==> *self == *old(self),
                forall|q: int| 0 <= q < k ==> old(self).spec_has_cipher(#[trigger] ids@[q])
                    && old(self).spec_writable(user, old(self).spec_cipher(ids@[q])),
                self.spec_deleted_prefix(*old(self), ids@, k as int, true, None),
            decreases ids@.len() - k,
        {
            let id = ids[k];
            let ghost cur = *self;
            let ghost touched = exists|p: int| 0 <= p < k && ids@[p] == id;
            proof {
                if !touched {
                    assert(cur.spec_has_cipher(id) == old(self).spec_has_cipher(id));
                    if old(self).spec_has_cipher(id) {
                        let c = old(self).spec_cipher(id);
                        lemma_access_frame(*old(self), cur, user, c, c, true);
                    }
                } else {
                    let p = choose|p: int| 0 <= p < k && ids@[p] == id;
                    let c = old(self).spec_cipher(id);
                    assert(old(self).spec_has_cipher(ids@[p]));
                    lemma_access_frame(*old(self), cur, user, c, cur.spec_cipher(id), true);
                }
            }
            let res = self.restore_cipher_by_uuid(id, user);
            match res {
                Err(e) => {
                    proof {
                        assert(self.spec_deleted_prefix(*old(self), ids@, k as int, true, None));
                        assert(e == if !old(self).spec_has_cipher(ids@[k as int]) { CipherError::CipherNotFound } else {
                            CipherError::NotWritable });
                    }
                    return Err(e);
                },
                Ok(ev) => {
                    match ev {
                        Some(e) => events.push((id, e)),
                        None => {},
                    }
                },
            }
            proof {
                lemma_prefix_step(*old(self), cur, *self, ids@, k as int, true, None);
            }
            k = k + 1;
        }
        Ok(events)
    }

    /// Removes one attachment of a cipher the user may write.
    pub fn delete_cipher_attachment_by_id(&mut self, cipher_id: u64, attachment_id: u64, user: u64)
        -> (r: Result<Option<EventType>, CipherError>)
        requires
            old(self).wf(),
        ensures
            final(self).wf(),
            r == if !old(self).spec_has_attachment(attachment_id) {
                Err(CipherError::AttachmentNotFound)
            } else if old(self).spec_attachment(attachment_id).cipher_uuid != cipher_id {
                Err(CipherError::AttachmentOfOtherCipher)
            } else if !old(self).spec_has_cipher(cipher_id) {
                Err(CipherError::CipherNotFound)
            } else if !old(self).spec_writable(user, old(self).spec_cipher(cipher_id)) {
                Err(CipherError::NotWritable)
            } else if old(self).spec_cipher(cipher_id).organization_uuid.is_some() {
                Ok::<Option<EventType>, CipherError>(Some(EventType::CipherAttachmentDeleted))
            } else {
                Ok(None)
            },
            r is Err ==> *final(self) == *old(self),
            r is Ok ==> !final(self).spec_has_attachment(attachment_id) && final(self).ciphers@ == old(self).ciphers@,
            r is Ok ==> exists|j: int| 0 <= j < old(self).attachments@.len() && (#[trigger] old(self).attachments@[j]).id == attachment_id
                && old(self).attachments@[j].cipher_uuid == cipher_id
                && final(self).attachments@ == old(self).attachments@.remove(j),
    {
        let j = self.attachment_of(cipher_id, attachment_id)?;
        let i = self.writable_cipher(cipher_id, user)?;
        let is_org = self.ciphers[i].organization_uuid.is_some();
        let ghost v0 = *self;
        proof { lemma_attachment_at(v0, j as int); }
        self.attachments.remove(j);
        proof { crate::attachments::lemma_removed_attachment(v0, *self, j as int); }
        assert(self.ciphers@ == old(self).ciphers@);
        if is_org {
            Ok(Some(EventType::CipherAttachmentDeleted))
        } else {
            Ok(None)
        }
    }

    /// Puts each listed cipher the user may read into the user's folder,
    /// stopping at the first failure.
    pub fn move_cipher_selected(&mut self, ids: &Vec<u64>, folder_id: Option<u64>, user: u64) -> (r: Result<(), CipherError>)
        requires
            old(self).wf(),
        ensures
            final(self).wf(),
            final(self).ciphers@ == old(self).ciphers@,
            folder_id.is_some() && !old(self).spec_folder_of_user(folder_id->Some_0, user)
                ==> r == Err::<(), CipherError>(CipherError::FolderNotFound) && *final(self) == *old(self),
            r is Ok ==> forall|k: int, f: u64| 0 <= k < ids@.len() ==>
                (#[trigger] final(self).spec_in_folder(user, ids@[k], f) <==> folder_id == Some(f)),
            r is Ok <==> (folder_id is None || old(self).spec_folder_of_user(folder_id->Some_0, user))
                && forall|k: int| 0 <= k < ids@.len() ==> old(self).spec_has_cipher(#[trigger] ids@[k])
                    && old(self).spec_readable(user, old(self).spec_cipher(ids@[k])),
    {
        match folder_id {
            Some(f) => if !self.folder_of_user(f, user) {
                return Err(CipherError::FolderNotFound);
            },
            None => {},
        }
        let mut k: usize = 0;
        while k < ids.len()
            invariant
                self.wf(),
                self.ciphers@ == old(self).ciphers@,
                self.folders@ == old(self).folders@,
                k <= ids@.len(),
                folder_id.is_some() ==> self.spec_folder_of_user(folder_id->Some_0, user),
                forall|q: int, f: u64| 0 <= q < k ==> (#[trigger] self.spec_in_folder(user, ids@[q], f) <==> folder_id == Some(f)),
                self.same_access_tables(*old(self)),
                old(self).wf(),
                folder_id is None || old(self).spec_folder_of_user(folder_id->Some_0, user),
                forall|q: int| 0 <= q < k ==> old(self).spec_has_cipher(#[trigger] ids@[q])
                    && old(self).spec_readable(user, old(self).spec_cipher(ids@[q])),
            decreases ids@.len() - k,
        {
            let id = ids[k];
            let i = match self.find_cipher(id) {
                Some(i) => i,
                None => {
                    assert(!old(self).spec_has_cipher(ids@[k as int])) by {
                        if old(self).spec_has_cipher(id) {
                            let j = choose|j: int| 0 <= j < old(self).ciphers@.len() && #[trigger] old(self).ciphers@[j].uuid == id;
                            assert(self.ciphers@[j].uuid == id);
                        }
                    }
                    return Err(CipherError::CipherNotFound);
                },
            };
            proof {
                lemma_cipher_at(*self, i as int);
                lemma_cipher_at(*old(self), i as int);
                lemma_access_frame(*old(self), *self, user, self.ciphers@[i as int], self.ciphers@[i as int], false);
            }
            if !self.is_accessible_to_user(user, &self.ciphers[i]) {
                return Err(CipherError::NotAccessible);
            }
            let ghost v0 = *self;
            self.move_to_folder(id, folder_id, user);
            proof {
                assert forall|q: int, f: u64| 0 <= q < k + 1 implies (#[trigger] self.spec_in_folder(user, ids@[q], f)
                    <==> folder_id == Some(f)) by {
                    assert(v0.spec_folder_of_user(f, user) == self.spec_folder_of_user(f, user));
                    if q < k && ids@[q] != id {
                        assert(v0.spec_in_folder(user, ids@[q], f) == self.spec_in_folder(user, ids@[q], f)) by {
                            let fc = folder_link(ids@[q], f);
                            if v0.spec_in_folder(user, ids@[q], f) {
                                let j = choose|j: int| 0 <= j < v0.folder_ciphers@.len() && #[trigger] v0.folder_ciphers@[j] == fc;
                                assert(self.folder_ciphers@.contains(v0.folder_ciphers@[j]));
                            }
                            if self.spec_in_folder(user, ids@[q], f) {
                                let j = choose|j: int| 0 <= j < self.folder_ciphers@.len() && #[trigger] self.folder_ciphers@[j] == fc;
                                assert(self.folder_ciphers@.contains(fc));
                                assert(v0.folder_ciphers@.contains(fc));
                                let j0 = choose|j0: int| 0 <= j0 < v0.folder_ciphers@.len() && v0.folder_ciphers@[j0] == fc;
                                assert(v0.folder_ciphers@[j0] == fc);
                            }
                        }
                    }
                }
            }
            k = k + 1;
        }
        Ok(())
    }

    /// Empties a vault: with an organization, every cipher of it, which
    /// only an owner of the organization may do; without, every cipher the
    /// user owns and every folder of the user.
    pub fn delete_all(&mut self, organization: Option<u64>, user: u64) -> (r: Result<Option<EventType>, CipherError>)
        requires
            old(self).wf(),
        ensures
            final(self).wf(),
            r is Err ==> *final(self) == *old(self),
            organization.is_some() ==> (r is Ok <==> exists|i: int| 0 <= i < old(self).memberships@.len()
                && #[trigger] old(self).memberships@[i].of(user, organization->Some_0)
                && old(self).memberships@[i].atype == MembershipType::Owner),
            organization.is_none() ==> r is Ok,
            r is Ok ==> forall|c: Cipher| #[trigger] final(self).ciphers@.contains(c) <==> old(self).ciphers@.contains(c)
                && !(match organization { Some(o) => c.organization_uuid == Some(o), None => c.user_uuid == Some(user) }),
            r is Ok && organization.is_none() ==> forall|f: Folder| #[trigger] final(self).folders@.contains(f)
                <==> old(self).folders@.contains(f) && f.user_uuid != user,
            r is Ok && organization.is_some() ==> final(self).folders@ == old(self).folders@,
            r is Ok ==> r->Ok_0 == if organization.is_some() { Some(EventType::OrganizationPurgedVault) } else { None },
            r is Ok ==> forall|a: Attachment| #[trigger] final(self).attachments@.contains(a) <==>
                old(self).attachments@.contains(a) && !old(self).spec_purged_id(a.cipher_uuid, match organization {
                    Some(o) => Purge::Organization(o),
                    None => Purge::OwnedBy(user),
                }),
    {
        match organization {
            Some(org) => {
                if !self.is_org_owner(user, org) {
                    return Err(CipherError::NotOrganizationOwner);
                }
                self.purge_ciphers(Purge::Organization(org));
                Ok(Some(EventType::OrganizationPurgedVault))
            },
            None => {
                self.purge_ciphers(Purge::OwnedBy(user));
                let ghost f_old = self.folders@;
                assert(f_old == old(self).folders@);
                let mut kept: Vec<Folder> = Vec::new();
                let mut i: usize = 0;
                while i < self.folders.len()
                    invariant
                        i <= self.folders@.len(),
                        self.folders@ == f_old,
                        forall|f: Folder| #[trigger] kept@.contains(f) <==> (exists|q: int| 0 <= q < i && #[trigger] f_old[q] == f)
                            && f.user_uuid != user,
                    decreases self.folders@.len() - i,
                {
                    let ghost k0 = kept@;
                    if self.folders[i].user_uuid != user {
                        kept.push(self.folders[i].duplicate());
                    }
                    i = i + 1;
                    proof {
                        assert forall|f: Folder| #[trigger] kept@.contains(f) <==> (exists|q: int| 0 <= q < i && #[trigger] f_old[q] == f)
                            && f.user_uuid != user by {
                            if kept@.contains(f) && !k0.contains(f) {
                                assert(f_old[i - 1] == f);
                            }
                            if k0.contains(f) {
                                let q = choose|q: int| 0 <= q < k0.len() && k0[q] == f;
                                assert(kept@[q] == f);
                            }
                            if (exists|q: int| 0 <= q < i && #[trigger] f_old[q] == f)
                                && !(exists|q: int| 0 <= q < i - 1 && #[trigger] f_old[q] == f) && f.user_uuid != user {
                                assert(kept@[kept@.len() - 1] == f);
                            }
                        }
                    }
                }
                assert forall|f: Folder| f_old.contains(f) implies exists|q: int| 0 <= q < f_old.len() && #[trigger] f_old[q] == f by {
                    let q = choose|q: int| 0 <= q < f_old.len() && f_old[q] == f;
                }
                self.folders = kept;
                Ok(None)
            },
        }
    }

    /// Whether the user is an owner of the organization.
    pub fn is_org_owner(&self, user: u64, org: u64) -> (r: bool)
        ensures
            r == exists|i: int| 0 <= i < self.memberships@.len() && #[trigger] self.memberships@[i].of(user, org)
                && self.memberships@[i].atype == MembershipType::Owner,
    {
        let mut i: usize = 0;
        while i < self.memberships.len()
            invariant
                i <= self.memberships@.len(),
                forall|j: int| 0 <= j < i ==> !(#[trigger] self.memberships@[j].of(user, org)
                    && self.memberships@[j].atype == MembershipType::Owner),
            decreases self.memberships@.len() - i,
        {
            let m = self.memberships[i];
            if m.user_uuid == user && m.org_uuid == org && m.atype == MembershipType::Owner {
                assert(self.memberships@[i as int].of(user, org));
                return true;
            }
            i = i + 1;
        }
        false
    }

    /// Creates a cipher owned by the user and shares it as posted. A
    /// cipher for an organization needs at least one collection.
    pub fn post_ciphers_create(&mut self, data: ShareCipherData, user: u64, policy_applies: bool, max_note_size: usize,
        now: Timestamp) -> (r: Result<(u64, UpdateOutcome, Vec<u64>), CipherError>)
        requires
            old(self).wf(),
        ensures
            final(self).wf(),
            data.cipher.organization_id.is_some() && data.collection_ids@.len() == 0
                ==> r == Err::<(u64, UpdateOutcome, Vec<u64>), CipherError>(CipherError::MissingCollections) && *final(self) == *old(self),
            data.cipher.organization_id.is_none() && policy_applies
                ==> r == Err::<(u64, UpdateOutcome, Vec<u64>), CipherError>(CipherError::PersonalOwnershipPolicy) && *final(self) == *old(self),
            old(self).spec_cipher_ids_left() && !(data.cipher.organization_id.is_some() && data.collection_ids@.len() == 0)
                ==> (r is Ok <==> old(self).spec_create_check(data.cipher, user, true, policy_applies, max_note_size) is Ok
                    && old(self).spec_share_collections_ok(data.cipher.organization_id, data.collection_ids@, user)
                    && data.cipher.spec_payload() is Ok),
            r is Ok ==> {
                let c = final(self).spec_cipher(r->Ok_0.0);
                &&& !old(self).spec_has_cipher(r->Ok_0.0)
                &&& final(self).spec_has_cipher(r->Ok_0.0)
                &&& c.owner_exclusive()
                &&& c.organization_uuid == data.cipher.organization_id
                &&& data.cipher.organization_id is None ==> c.user_uuid == Some(user)
                &&& r->Ok_0.1.update_type == UpdateType::SyncCipherCreate
                &&& r->Ok_0.2@ == if data.cipher.organization_id.is_some() { data.collection_ids@ } else { Seq::<u64>::empty() }
            },
    {
        if data.cipher.organization_id.is_some() && data.collection_ids.len() == 0 {
            return Err(CipherError::MissingCollections);
        }
        crate::update::enforce_personal_ownership_policy(Some(data.cipher.organization_id), policy_applies)?;
        let id = match self.fresh_cipher_id() {
            Some(id) => id,
            None => return Err(CipherError::IdsExhausted),
        };
        let mut cipher = Cipher::new(data.cipher.atype, data.cipher.name.clone(), now);
        cipher.uuid = id;
        cipher.user_uuid = Some(user);
        let ghost c0 = cipher;
        self.add_cipher(cipher);
        let ghost v1 = *self;
        let ghost d0 = data.cipher;
        let mut data = data;
        data.cipher.last_known_revision_date = None;
        assert(v1.spec_share_collections_ok(data.cipher.organization_id, data.collection_ids@, user)
            == old(self).spec_share_collections_ok(d0.organization_id, data.collection_ids@, user)) by {
            assert(v1.collections@ == old(self).collections@ && v1.memberships@ == old(self).memberships@
                && v1.groups@ == old(self).groups@ && v1.group_users@ == old(self).group_users@
                && v1.collection_users@ == old(self).collection_users@
                && v1.collection_groups@ == old(self).collection_groups@ && v1.groups_enabled == old(self).groups_enabled);
            assert forall|col: u64, o: u64| v1.spec_collection_in_org(col, Some(o)) == old(self).spec_collection_in_org(col, Some(o))
                && #[trigger] v1.spec_collection_writable(user, col, o) == old(self).spec_collection_writable(user, col, o) by {
                assert(v1.spec_is_member(user, o) == old(self).spec_is_member(user, o));
                assert(v1.spec_member_full(user, o) == old(self).spec_member_full(user, o));
                assert(v1.spec_group_full(user, o) == old(self).spec_group_full(user, o));
                assert forall|i: int| 0 <= i < v1.collection_groups@.len() implies
                    #[trigger] v1.group_grant_admits(v1.collection_groups@[i], user, col, true)
                    == old(self).group_grant_admits(old(self).collection_groups@[i], user, col, true) by {
                    assert(v1.spec_in_group(user, v1.collection_groups@[i].groups_uuid)
                        == old(self).spec_in_group(user, old(self).collection_groups@[i].groups_uuid));
                }
                if v1.spec_collection_grant(user, col, true) && !old(self).spec_collection_grant(user, col, true) {
                    if !(exists|i: int| 0 <= i < v1.collection_users@.len() && #[trigger] v1.collection_users@[i].admits(user, col, true)) {
                        let i = choose|i: int| 0 <= i < v1.collection_groups@.len()
                            && #[trigger] v1.group_grant_admits(v1.collection_groups@[i], user, col, true);
                        assert(old(self).group_grant_admits(old(self).collection_groups@[i], user, col, true));
                    }
                }
                if !v1.spec_collection_grant(user, col, true) && old(self).spec_collection_grant(user, col, true) {
                    if !(exists|i: int| 0 <= i < old(self).collection_users@.len()
                        && #[trigger] old(self).collection_users@[i].admits(user, col, true)) {
                        let i = choose|i: int| 0 <= i < old(self).collection_groups@.len()
                            && #[trigger] old(self).group_grant_admits(old(self).collection_groups@[i], user, col, true);
                        assert(v1.group_grant_admits(v1.collection_groups@[i], user, col, true));
                    }
                }
            }
        }
        assert(v1.spec_writable(user, c0));
        assert(spec_share_update_type(data.cipher) == UpdateType::SyncCipherCreate);
        assert((spec_update_check(v1, c0, data.cipher, user, true, UpdateType::SyncCipherCreate, policy_applies,
            max_note_size) is Ok) == (old(self).spec_create_check(d0, user, true, policy_applies, max_note_size) is Ok));
        assert(data.cipher.spec_payload() == d0.spec_payload());
        let (out, announced) = self.share_cipher_by_uuid(id, data, user, policy_applies, max_note_size, now)?;
        Ok((id, out, announced))
    }

    /// Shares each listed cipher into the posted collections, last first,
    /// stopping at the first failure. Every cipher must carry its id.
    #[verifier::loop_isolation(false)]
    pub fn put_cipher_share_selected(&mut self, data: ShareSelectedCipherData, user: u64, policy_applies: bool,
        max_note_size: usize, now: Timestamp) -> (r: Result<(), CipherError>)
        requires
            old(self).wf(),
        ensures
            final(self).wf(),
            data.ciphers@.len() == 0 ==> r == Err::<(), CipherError>(CipherError::MissingCiphers) && *final(self) == *old(self),
            data.ciphers@.len() > 0 && data.collection_ids@.len() == 0
                ==> r == Err::<(), CipherError>(CipherError::MissingCollections) && *final(self) == *old(self),
            data.ciphers@.len() > 0 && data.collection_ids@.len() > 0
                && (exists|j: int| 0 <= j < data.ciphers@.len() && (#[trigger] data.ciphers@[j]).id.is_none())
                ==> r == Err::<(), CipherError>(CipherError::MissingIds) && *final(self) == *old(self),
            r is Ok ==> forall|k: int| 0 <= k < data.ciphers@.len() ==> {
                let id = (#[trigger] data.ciphers@[k]).id->Some_0;
                &&& data.ciphers@[k].id is Some
                &&& final(self).spec_has_cipher(id)
                &&& exists|j: int| 0 <= j < data.ciphers@.len() && data.ciphers@[j].id == Some(id)
                    && final(self).spec_cipher(id).organization_uuid == data.ciphers@[j].organization_id
            },
    {
        if data.ciphers.len() == 0 {
            return Err(CipherError::MissingCiphers);
        }
        if data.collection_ids.len() == 0 {
            return Err(CipherError::MissingCollections);
        }
        let mut k: usize = 0;
        while k < data.ciphers.len()
            invariant
                k <= data.ciphers@.len(),
                forall|j: int| 0 <= j < k ==> (#[trigger] data.ciphers@[j]).id.is_some(),
            decreases data.ciphers@.len() - k,
        {
            if data.ciphers[k].id.is_none() {
                return Err(CipherError::MissingIds);
            }
            k = k + 1;
        }
        let ghost posted = data.ciphers@;
        let ShareSelectedCipherData { ciphers, collection_ids } = data;
        let mut ciphers = ciphers;
        while ciphers.len() > 0
            invariant
                self.wf(),
                ciphers@.len() <= posted.len(),
                ciphers@ == posted.subrange(0, ciphers@.len() as int),
                posted == data.ciphers@,
                forall|j: int| 0 <= j < posted.len() ==> (#[trigger] posted[j]).id.is_some(),
                forall|m: int| ciphers@.len() <= m < posted.len() ==> {
                    let id = (#[trigger] posted[m]).id->Some_0;
                    &&& self.spec_has_cipher(id)
                    &&& exists|j: int| ciphers@.len() <= j < posted.len() && posted[j].id == Some(id)
                        && self.spec_cipher(id).organization_uuid == posted[j].organization_id
                },
            decreases ciphers@.len(),
        {
            let ghost c0 = ciphers@;
            let cipher = ciphers.pop().unwrap();
            let ghost n = ciphers@.len() as int;
            assert(cipher == c0[n]);
            assert(c0[n] == posted[n]);
            assert(ciphers@ =~= posted.subrange(0, n));
            let id = match cipher.id {
                Some(id) => id,
                None => return Err(CipherError::MissingIds),
            };
            let share = ShareCipherData { cipher, collection_ids: copy_ids(&collection_ids) };
            let ghost before = *self;
            self.share_cipher_by_uuid(id, share, user, policy_applies, max_note_size, now)?;
            proof {
                assert forall|m: int| n <= m < posted.len() implies {
                    let x = (#[trigger] posted[m]).id->Some_0;
                    &&& self.spec_has_cipher(x)
                    &&& exists|j: int| n <= j < posted.len() && posted[j].id == Some(x)
                        && self.spec_cipher(x).organization_uuid == posted[j].organization_id
                } by {
                    let x = posted[m].id->Some_0;
                    if x == id {
                        assert(posted[n].id == Some(x));
                    } else {
                        assert(before.spec_has_cipher(x));
                        let j = choose|j: int| n + 1 <= j < posted.len() && posted[j].id == Some(x)
                            && before.spec_cipher(x).organization_uuid == posted[j].organization_id;
                        assert(self.spec_cipher(x) == before.spec_cipher(x));
                    }
                }
            }
        }
        Ok(())
    }
}

/// The entries whose cipher is not among the removed ids, in order.
fn drop_collection_links(v: &Vec<CollectionCipher>, gone: &Vec<u64>) -> (r: Vec<CollectionCipher>)
    ensures
        forall|x: CollectionCipher| #[trigger] r@.contains(x) <==> v@.contains(x) && !gone@.contains(x.cipher_uuid),
{
    let mut out: Vec<CollectionCipher> = Vec::new();
    let mut i: usize = 0;
    while i < v.len()
        invariant
            i <= v@.len(),
            forall|x: CollectionCipher| #[trigger] out@.contains(x) <==> (exists|q: int| 0 <= q < i && #[trigger] v@[q] == x)
                && !gone@.contains(x.cipher_uuid),
        decreases v@.len() - i,
    {
        let e = v[i];
        let ghost o0 = out@;
        if !crate::collections::vec_contains(gone, e.cipher_uuid) {
            out.push(e);
        }
        i = i + 1;
        proof {
            assert forall|x: CollectionCipher| #[trigger] out@.contains(x) <==> (exists|q: int| 0 <= q < i && #[trigger] v@[q] == x)
                && !gone@.contains(x.cipher_uuid) by {
                if out@.contains(x) && !o0.contains(x) {
                    assert(v@[i - 1] == x);
                }
                if o0.contains(x) {
                    let q = choose|q: int| 0 <= q < o0.len() && o0[q] == x;
                    assert(out@[q] == x);
                }
                if (exists|q: int| 0 <= q < i && #[trigger] v@[q] == x) && !(exists|q: int| 0 <= q < i - 1 && #[trigger] v@[q] == x)
                    && !gone@.contains(x.cipher_uuid) {
                    assert(out@[out@.len() - 1] == x);
                }
            }
        }
    }
    assert forall|x: CollectionCipher| v@.contains(x) implies exists|q: int| 0 <= q < v@.len() && #[trigger] v@[q] == x by {
        let q = choose|q: int| 0 <= q < v@.len() && v@[q] == x;
    }
    out
}

/// The entries whose cipher is not among the removed ids, in order.
fn drop_folder_links(v: &Vec<FolderCipher>, gone: &Vec<u64>) -> (r: Vec<FolderCipher>)
    ensures
        forall|x: FolderCipher| #[trigger] r@.contains(x) <==> v@.contains(x) && !gone@.contains(x.cipher_uuid),
{
    let mut out: Vec<FolderCipher> = Vec::new();
    let mut i: usize = 0;
    while i < v.len()
        invariant
            i <= v@.len(),
            forall|x: FolderCipher| #[trigger] out@.contains(x) <==> (exists|q: int| 0 <= q < i && #[trigger] v@[q] == x)
                && !gone@.contains(x.cipher_uuid),
        decreases v@.len() - i,
    {
        let e = v[i];
        let ghost o0 = out@;
        if !crate::collections::vec_contains(gone, e.cipher_uuid) {
            out.push(e);
        }
        i = i + 1;
        proof {
            assert forall|x: FolderCipher| #[trigger] out@.contains(x) <==> (exists|q: int| 0 <= q < i && #[trigger] v@[q] == x)
                && !gone@.contains(x.cipher_uuid) by {
                if out@.contains(x) && !o0.contains(x) {
                    assert(v@[i - 1] == x);
                }
                if o0.contains(x) {
                    let q = choose|q: int| 0 <= q < o0.len() && o0[q] == x;
                    assert(out@[q] == x);
                }
                if (exists|q: int| 0 <= q < i && #[trigger] v@[q] == x) && !(exists|q: int| 0 <= q < i - 1 && #[trigger] v@[q] == x)
                    && !gone@.contains(x.cipher_uuid) {
                    assert(out@[out@.len() - 1] == x);
                }
            }
        }
    }
    assert forall|x: FolderCipher| v@.contains(x) implies exists|q: int| 0 <= q < v@.len() && #[trigger] v@[q] == x by {
        let q = choose|q: int| 0 <= q < v@.len() && v@[q] == x;
    }
    out
}

/// The entries whose cipher is not among the removed ids, in order.
fn drop_favorites(v: &Vec<Favorite>, gone: &Vec<u64>) -> (r: Vec<Favorite>)
    ensures
        forall|x: Favorite| #[trigger] r@.contains(x) <==> v@.contains(x) && !gone@.contains(x.cipher_uuid),
{
    let mut out: Vec<Favorite> = Vec::new();
    let mut i: usize = 0;
    while i < v.len()
        invariant
            i <= v@.len(),
            forall|x: Favorite| #[trigger] out@.contains(x) <==> (exists|q: int| 0 <= q < i && #[trigger] v@[q] == x)
                && !gone@.contains(x.cipher_uuid),
        decreases v@.len() - i,
    {
        let e = v[i];
        let ghost o0 = out@;
        if !crate::collections::vec_contains(gone, e.cipher_uuid) {
            out.push(e);
        }
        i = i + 1;
        proof {
            assert forall|x: Favorite| #[trigger] out@.contains(x) <==> (exists|q: int| 0 <= q < i && #[trigger] v@[q] == x)
                && !gone@.contains(x.cipher_uuid) by {
                if out@.contains(x) && !o0.contains(x) {
                    assert(v@[i - 1] == x);
                }
                if o0.contains(x) {
                    let q = choose|q: int| 0 <= q < o0.len() && o0[q] == x;
                    assert(out@[q] == x);
                }
                if (exists|q: int| 0 <= q < i && #[trigger] v@[q] == x) && !(exists|q: int| 0 <= q < i - 1 && #[trigger] v@[q] == x)
                    && !gone@.contains(x.cipher_uuid) {
                    assert(out@[out@.len() - 1] == x);
                }
            }
        }
    }
    assert forall|x: Favorite| v@.contains(x) implies exists|q: int| 0 <= q < v@.len() && #[trigger] v@[q] == x by {
        let q = choose|q: int| 0 <= q < v@.len() && v@[q] == x;
    }
    out
}

/// The folder placement record of a cipher in a folder.
pub open spec fn folder_link(cipher: u64, folder: u64) -> crate::model::FolderCipher {
    crate::model::FolderCipher { cipher_uuid: cipher, folder_uuid: folder }
}

/// A copy of a list of ids.
pub fn copy_ids(v: &Vec<u64>) -> (r: Vec<u64>)
    ensures
        r@ == v@,
{
    let mut r: Vec<u64> = Vec::new();
    let mut i: usize = 0;
    while i < v.len()
        invariant
            i <= v@.len(),
            r@ == v@.subrange(0, i as int),
        decreases v@.len() - i,
    {
        r.push(v[i]);
        i = i + 1;
        assert(r@ == v@.subrange(0, i as int));
    }
    r
}

impl Vault {
    /// Removes, with their attachments, the ciphers that were moved to the
    /// trash before the cutoff. Returns how many went.
    pub fn purge_trashed_ciphers(&mut self, cutoff: Timestamp) -> (r: usize)
        requires
            old(self).wf(),
        ensures
            final(self).wf(),
            forall|c: Cipher| #[trigger] final(self).ciphers@.contains(c) <==> old(self).ciphers@.contains(c)
                && !Purge::TrashedBefore(cutoff).hits(c),
    {
        let removed = self.purge_ciphers(Purge::TrashedBefore(cutoff));
        removed.len()
    }
}

} // verus!
