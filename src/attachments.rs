//! Attachment records: reservation, upload under the owner's storage
//! ceiling, and lookup.

use vstd::prelude::*;
use crate::error::CipherError;
use crate::model::{Attachment, Cipher, Vault};
use crate::quota::{attachment_allowance, check_upload_size, check_within_allowance, fits_i64, spec_allowance,
    spec_upload_check, upload_len};
use crate::update::EventType;

verus! {

/// Whose storage an attachment counts against.
#[derive(Clone, Copy, Debug, PartialEq, Eq, Structural)]
pub enum Owner {
    User(u64),
    Organization(u64),
}

/// The configured storage ceilings in KiB (`None`: unlimited, zero:
/// attachments disabled).
#[derive(Clone, Copy, Debug, PartialEq, Eq, Structural)]
pub struct AttachmentLimits {
    pub user_limit_kb: Option<i64>,
    pub org_limit_kb: Option<i64>,
}

/// The owner of a cipher and the ceiling that applies to it.
pub open spec fn spec_owner_limit(c: Cipher, limits: AttachmentLimits) -> Option<(Owner, Option<i64>)> {
    match c.user_uuid {
        Some(u) => Some((Owner::User(u), limits.user_limit_kb)),
        None => match c.organization_uuid {
            Some(o) => Some((Owner::Organization(o), limits.org_limit_kb)),
            None => None,
        },
    }
}

impl Vault {
    pub open spec fn spec_owned_by(self, cipher: u64, owner: Owner) -> bool {
        exists|k: int| 0 <= k < self.ciphers@.len() && #[trigger] self.ciphers@[k].uuid == cipher && match owner {
            Owner::User(u) => self.ciphers@[k].user_uuid == Some(u),
            Owner::Organization(o) => self.ciphers@[k].organization_uuid == Some(o),
        }
    }

    /// Bytes of the first `n` attachments that count against the owner.
    pub open spec fn spec_used_upto(self, owner: Owner, n: int) -> int
        decreases n,
    {
        if n <= 0 {
            0
        } else {
            self.spec_used_upto(owner, n - 1) + if self.spec_owned_by(self.attachments@[n - 1].cipher_uuid, owner) {
                self.attachments@[n - 1].file_size as int
            } else {
                0
            }
        }
    }

    /// Every running total of the owner's bytes fits in an `i64`.
    pub open spec fn spec_used_fits(self, owner: Owner) -> bool {
        forall|n: int| 0 <= n <= self.attachments@.len() ==> fits_i64(#[trigger] self.spec_used_upto(owner, n))
    }

    /// What is left for the owner of the cipher, or the error that stops
    /// an upload: no owner, attachments disabled, an overflow, or storage
    /// exhausted.
    pub open spec fn spec_owner_allowance(self, c: Cipher, limits: AttachmentLimits, size_adjust: i64) -> Result<Option<i64>, CipherError> {
        match spec_owner_limit(c, limits) {
            None => Err(CipherError::NoOwner),
            Some(ol) => {
                let owner = ol.0;
                let limit = ol.1;
                if limit is None {
                    Ok(None)
                } else if limit == Some(0i64) {
                    Err(CipherError::AttachmentsDisabled)
                } else if !self.spec_used_fits(owner) {
                    Err(CipherError::SizeOverflow)
                } else {
                    spec_allowance(limit, self.spec_used(owner) as i64, size_adjust)
                }
            },
        }
    }

    /// The outcome of an upload, in the order the checks are made.
    pub open spec fn spec_save_check(self, attachment_id: Option<u64>, cipher_id: u64, data_len: usize, has_name: bool,
        has_key: bool, user: u64, limits: AttachmentLimits) -> Result<(), CipherError> {
        let c = self.spec_cipher(cipher_id);
        let adjust: i64 = match attachment_id {
            Some(a) => self.spec_attachment(a).file_size,
            None => 0,
        };
        let size = data_len as i64;
        if attachment_id is Some && !self.spec_has_attachment(attachment_id->Some_0) {
            Err(CipherError::AttachmentNotFound)
        } else if attachment_id is Some && self.spec_attachment(attachment_id->Some_0).cipher_uuid != cipher_id {
            Err(CipherError::AttachmentOfOtherCipher)
        } else if data_len > i64::MAX {
            Err(CipherError::SizeOverflow)
        } else if !self.spec_has_cipher(cipher_id) {
            Err(CipherError::CipherNotFound)
        } else if !self.spec_writable(user, c) {
            Err(CipherError::NotWritable)
        } else {
            match self.spec_owner_allowance(c, limits, adjust) {
                Err(e) => Err(e),
                Ok(left) => if left is Some && size > left->Some_0 {
                    Err(CipherError::StorageLimitExceeded)
                } else if attachment_id is Some {
                    match spec_upload_check(adjust, size) {
                        Err(e) => Err(e),
                        Ok(_) => Ok(()),
                    }
                } else if !has_name {
                    Err(CipherError::NoFileName)
                } else if !has_key {
                    Err(CipherError::NoAttachmentKey)
                } else if !self.spec_attachment_ids_left() {
                    Err(CipherError::IdsExhausted)
                } else {
                    Ok(())
                },
            }
        }
    }

    /// Bytes of all attachments that count against the owner.
    pub open spec fn spec_used(self, owner: Owner) -> int {
        self.spec_used_upto(owner, self.attachments@.len() as int)
    }

    pub fn owned_by(&self, cipher: u64, owner: Owner) -> (r: bool)
        ensures
            r == self.spec_owned_by(cipher, owner),
    {
        let mut k: usize = 0;
        while k < self.ciphers.len()
            invariant
                k <= self.ciphers@.len(),
                forall|j: int| 0 <= j < k ==> !(#[trigger] self.ciphers@[j].uuid == cipher && match owner {
                    Owner::User(u) => self.ciphers@[j].user_uuid == Some(u),
                    Owner::Organization(o) => self.ciphers@[j].organization_uuid == Some(o),
                }),
            decreases self.ciphers@.len() - k,
        {
            let c = &self.ciphers[k];
            let hit = match owner {
                Owner::User(u) => c.user_uuid == Some(u),
                Owner::Organization(o) => c.organization_uuid == Some(o),
            };
            if c.uuid == cipher && hit {
                assert(self.ciphers@[k as int].uuid == cipher);
                return true;
            }
            k = k + 1;
        }
        false
    }

    /// The bytes stored for the owner, or `None` where a partial sum does
    /// not fit in an `i64`.
    pub fn size_used(&self, owner: Owner) -> (r: Option<i64>)
        ensures
            match r {
                Some(x) => x == self.spec_used(owner) && self.spec_used_fits(owner),
                None => !self.spec_used_fits(owner),
            },
    {
        let mut total: i64 = 0;
        let mut i: usize = 0;
        while i < self.attachments.len()
            invariant
                i <= self.attachments@.len(),
                total == self.spec_used_upto(owner, i as int),
                forall|n: int| 0 <= n <= i ==> fits_i64(#[trigger] self.spec_used_upto(owner, n)),
            decreases self.attachments@.len() - i,
        {
            if self.owned_by(self.attachments[i].cipher_uuid, owner) {
                match total.checked_add(self.attachments[i].file_size) {
                    Some(t) => total = t,
                    None => {
                        assert(!fits_i64(self.spec_used_upto(owner, i + 1)));
                        return None;
                    },
                }
            }
            i = i + 1;
        }
        Some(total)
    }

    /// The index of the attachment of the cipher with the id.
    pub fn attachment_of(&self, cipher_id: u64, attachment_id: u64) -> (r: Result<usize, CipherError>)
        requires
            self.wf(),
        ensures
            !self.spec_has_attachment(attachment_id) ==> r == Err::<usize, CipherError>(CipherError::AttachmentNotFound),
            self.spec_has_attachment(attachment_id) && self.spec_attachment(attachment_id).cipher_uuid != cipher_id
                ==> r == Err::<usize, CipherError>(CipherError::AttachmentOfOtherCipher),
            r is Ok <==> self.spec_has_attachment(attachment_id) && self.spec_attachment(attachment_id).cipher_uuid == cipher_id,
            r is Ok ==> r->Ok_0 < self.attachments@.len() && self.attachments@[r->Ok_0 as int] == self.spec_attachment(attachment_id),
    {
        let j = match self.find_attachment(attachment_id) {
            Some(j) => j,
            None => return Err(CipherError::AttachmentNotFound),
        };
        proof { crate::operations::lemma_attachment_at(*self, j as int); }
        if self.attachments[j].cipher_uuid != cipher_id {
            return Err(CipherError::AttachmentOfOtherCipher);
        }
        Ok(j)
    }

    /// The attachment of a cipher the user may read.
    pub fn get_attachment(&self, cipher_id: u64, attachment_id: u64, user: u64) -> (r: Result<Attachment, CipherError>)
        requires
            self.wf(),
        ensures
            !self.spec_has_cipher(cipher_id) ==> r == Err::<Attachment, CipherError>(CipherError::CipherNotFound),
            self.spec_has_cipher(cipher_id) && !self.spec_readable(user, self.spec_cipher(cipher_id))
                ==> r == Err::<Attachment, CipherError>(CipherError::NotAccessible),
            self.spec_has_cipher(cipher_id) && self.spec_readable(user, self.spec_cipher(cipher_id)) ==> {
                &&& !self.spec_has_attachment(attachment_id) ==> r == Err::<Attachment, CipherError>(CipherError::AttachmentNotFound)
                &&& self.spec_has_attachment(attachment_id) && self.spec_attachment(attachment_id).cipher_uuid != cipher_id
                    ==> r == Err::<Attachment, CipherError>(CipherError::AttachmentOfOtherCipher)
                &&& self.spec_has_attachment(attachment_id) && self.spec_attachment(attachment_id).cipher_uuid == cipher_id
                    ==> r == Ok::<Attachment, CipherError>(self.spec_attachment(attachment_id))
            },
    {
        let i = match self.find_cipher(cipher_id) {
            Some(i) => i,
            None => return Err(CipherError::CipherNotFound),
        };
        if !self.is_accessible_to_user(user, &self.ciphers[i]) {
            return Err(CipherError::NotAccessible);
        }
        let j = self.attachment_of(cipher_id, attachment_id)?;
        let a = self.attachments[j].duplicate();
        assert(self.attachments@[j as int] == a);
        Ok(a)
    }

    /// Reserves an attachment record of the declared size for a cipher the
    /// user may write; the bytes follow in a second request.
    pub fn post_attachment_v2(&mut self, cipher_id: u64, user: u64, file_name: String, key: String, file_size: i64)
        -> (r: Result<u64, CipherError>)
        requires
            old(self).wf(),
        ensures
            final(self).wf(),
            !old(self).spec_has_cipher(cipher_id) ==> r == Err::<u64, CipherError>(CipherError::CipherNotFound),
            old(self).spec_has_cipher(cipher_id) && !old(self).spec_writable(user, old(self).spec_cipher(cipher_id))
                ==> r == Err::<u64, CipherError>(CipherError::NotWritable),
            old(self).spec_has_cipher(cipher_id) && old(self).spec_writable(user, old(self).spec_cipher(cipher_id)) && file_size < 0
                ==> r == Err::<u64, CipherError>(CipherError::NegativeSize),
            old(self).spec_has_cipher(cipher_id) && old(self).spec_writable(user, old(self).spec_cipher(cipher_id)) && file_size >= 0
                ==> r == if old(self).spec_attachment_ids_left() { Ok::<u64, CipherError>(r->Ok_0) } else {
                    Err(CipherError::IdsExhausted) },
            r is Err ==> *final(self) == *old(self),
            r is Ok ==> final(self).attachments@ == old(self).attachments@.push(Attachment {
                id: r->Ok_0, cipher_uuid: cipher_id, file_name, file_size, akey: Some(key) })
                && !old(self).spec_has_attachment(r->Ok_0),
            final(self).ciphers@ == old(self).ciphers@,
    {
        self.writable_cipher(cipher_id, user)?;
        if file_size < 0 {
            return Err(CipherError::NegativeSize);
        }
        let id = match self.fresh_attachment_id() {
            Some(id) => id,
            None => return Err(CipherError::IdsExhausted),
        };
        self.attachments.push(Attachment { id, cipher_uuid: cipher_id, file_name, file_size, akey: Some(key) });
        proof { lemma_pushed_attachment(*old(self), *self, id); }
        Ok(id)
    }

    /// The allowance for the owner of the cipher, or the error that stops
    /// the upload.
    fn owner_allowance(&self, c: &Cipher, limits: AttachmentLimits, size_adjust: i64) -> (r: Result<Option<i64>, CipherError>)
        ensures
            r == self.spec_owner_allowance(*c, limits, size_adjust),
    {
        let (owner, limit) = match c.user_uuid {
            Some(u) => (Owner::User(u), limits.user_limit_kb),
            None => match c.organization_uuid {
                Some(o) => (Owner::Organization(o), limits.org_limit_kb),
                None => return Err(CipherError::NoOwner),
            },
        };
        match limit {
            None => Ok(None),
            Some(l) => {
                if l == 0 {
                    return Err(CipherError::AttachmentsDisabled);
                }
                let used = match self.size_used(owner) {
                    Some(u) => u,
                    None => return Err(CipherError::SizeOverflow),
                };
                attachment_allowance(limit, used, size_adjust)
            },
        }
    }

    /// Accepts the bytes of an attachment of a cipher the user may write.
    /// With `attachment_id` the reserved record is filled: the received
    /// size must lie within one MiB of the declared one, else the record is
    /// removed; inside that band the stored size becomes the received one.
    /// Without it a new record is made from the file name and key. Either
    /// way the owner's ceiling must admit the bytes. Returns the id of the
    /// record and the audit event, due for organization ciphers.
    pub fn save_attachment(
        &mut self,
        attachment_id: Option<u64>,
        cipher_id: u64,
        data_len: usize,
        file_name: Option<String>,
        key: Option<String>,
        user: u64,
        limits: AttachmentLimits,
    ) -> (r: Result<(u64, Option<EventType>), CipherError>)
        requires
            old(self).wf(),
        ensures
            final(self).wf(),
            final(self).ciphers@ == old(self).ciphers@,
            ({
                let check = old(self).spec_save_check(attachment_id, cipher_id, data_len, file_name is Some, key is Some,
                    user, limits);
                &&& check is Ok <==> r is Ok
                &&& check is Err ==> r == Err::<(u64, Option<EventType>), CipherError>(check->Err_0)
            }),
            r is Err && !(attachment_id is Some && r->Err_0 is SizeMismatch) ==> *final(self) == *old(self),
            attachment_id is Some ==> match r {
                Ok(v) => exists|j: int| 0 <= j < old(self).attachments@.len()
                    && (#[trigger] old(self).attachments@[j]).id == attachment_id->Some_0
                    && final(self).attachments@ == old(self).attachments@.update(j, Attachment {
                        file_size: data_len as i64, ..old(self).attachments@[j] })
                    && v.0 == attachment_id->Some_0,
                Err(CipherError::SizeMismatch { min, max, got }) => exists|j: int| 0 <= j < old(self).attachments@.len()
                    && (#[trigger] old(self).attachments@[j]).id == attachment_id->Some_0
                    && final(self).attachments@ == old(self).attachments@.remove(j)
                    && !final(self).spec_has_attachment(attachment_id->Some_0),
                Err(_) => true,
            },
            attachment_id is None ==> match r {
                Ok(v) => file_name is Some && key is Some && final(self).attachments@ == old(self).attachments@.push(Attachment {
                    id: v.0, cipher_uuid: cipher_id, file_name: file_name->Some_0, file_size: data_len as i64, akey: key })
                    && !old(self).spec_has_attachment(v.0),
                Err(_) => true,
            },
            r is Ok ==> r->Ok_0.1 == if old(self).spec_cipher(cipher_id).organization_uuid.is_some() {
                Some(EventType::CipherAttachmentCreated) } else { None },
    {
        let slot = match attachment_id {
            Some(a) => Some(self.attachment_of(cipher_id, a)?),
            None => None,
        };
        let size = upload_len(data_len)?;
        let i = self.writable_cipher(cipher_id, user)?;
        let size_adjust = match slot {
            Some(j) => self.attachments[j].file_size,
            None => 0,
        };
        let left = self.owner_allowance(&self.ciphers[i], limits, size_adjust)?;
        check_within_allowance(size, left)?;
        let is_org = self.ciphers[i].organization_uuid.is_some();
        let event = if is_org { Some(EventType::CipherAttachmentCreated) } else { None };
        let ghost v0 = *self;
        let file_id = match slot {
            Some(j) => {
                let declared = self.attachments[j].file_size;
                match check_upload_size(declared, size) {
                    Err(e) => {
                        match e {
                            CipherError::SizeMismatch { min, max, got } => {
                                self.attachments.remove(j);
                                proof { lemma_removed_attachment(v0, *self, j as int); }
                            },
                            _ => {},
                        }
                        return Err(e);
                    },
                    Ok(changed) => {
                        if changed {
                            let a = Attachment {
                                id: self.attachments[j].id,
                                cipher_uuid: self.attachments[j].cipher_uuid,
                                file_name: self.attachments[j].file_name.clone(),
                                file_size: size,
                                akey: crate::model::copy_text(&self.attachments[j].akey),
                            };
                            self.attachments.set(j, a);
                            assert forall|x: int, y: int| 0 <= x < self.attachments@.len() && 0 <= y < self.attachments@.len()
                                && #[trigger] self.attachments@[x].id == #[trigger] self.attachments@[y].id implies x == y by {
                                assert(v0.attachments@[x].id == v0.attachments@[y].id);
                            }
                        } else {
                            assert(self.attachments@ == v0.attachments@.update(j as int, Attachment {
                                file_size: data_len as i64, ..v0.attachments@[j as int] }));
                        }
                        self.attachments[j].id
                    },
                }
            },
            None => {
                let name = match file_name {
                    Some(n) => n,
                    None => return Err(CipherError::NoFileName),
                };
                if key.is_none() {
                    return Err(CipherError::NoAttachmentKey);
                }
                let id = match self.fresh_attachment_id() {
                    Some(id) => id,
                    None => return Err(CipherError::IdsExhausted),
                };
                self.attachments.push(Attachment { id, cipher_uuid: cipher_id, file_name: name, file_size: size, akey: key });
                proof { lemma_pushed_attachment(v0, *self, id); }
                id
            },
        };
        Ok((file_id, event))
    }
}

/// Removing one attachment keeps the store well formed and drops its id.
pub(crate) proof fn lemma_removed_attachment(a: Vault, b: Vault, j: int)
    requires
        a.wf(),
        0 <= j < a.attachments@.len(),
        b.ciphers@ == a.ciphers@,
        b.attachments@ == a.attachments@.remove(j),
    ensures
        b.wf(),
        !b.spec_has_attachment(a.attachments@[j].id),
{
    assert forall|x: int, y: int| 0 <= x < b.attachments@.len() && 0 <= y < b.attachments@.len()
        && #[trigger] b.attachments@[x].id == #[trigger] b.attachments@[y].id implies x == y by {
        let x0 = if x < j { x } else { x + 1 };
        let y0 = if y < j { y } else { y + 1 };
        assert(a.attachments@[x0].id == a.attachments@[y0].id);
    }
    if b.spec_has_attachment(a.attachments@[j].id) {
        let k = choose|k: int| 0 <= k < b.attachments@.len() && #[trigger] b.attachments@[k].id == a.attachments@[j].id;
        let k0 = if k < j { k } else { k + 1 };
        assert(a.attachments@[k0].id == a.attachments@[j].id);
    }
}

/// Adding an attachment with an unused id keeps the store well formed.
pub(crate) proof fn lemma_pushed_attachment(a: Vault, b: Vault, id: u64)
    requires
        a.wf(),
        forall|j: int| 0 <= j < a.attachments@.len() ==> #[trigger] a.attachments@[j].id != id,
        b.ciphers@ == a.ciphers@,
        b.attachments@.len() == a.attachments@.len() + 1,
        forall|j: int| 0 <= j < a.attachments@.len() ==> #[trigger] b.attachments@[j] == a.attachments@[j],
        b.attachments@[a.attachments@.len() as int].id == id,
    ensures
        b.wf(),
        !a.spec_has_attachment(id),
{
    let n = a.attachments@.len() as int;
    assert forall|x: int, y: int| 0 <= x < b.attachments@.len() && 0 <= y < b.attachments@.len()
        && #[trigger] b.attachments@[x].id == #[trigger] b.attachments@[y].id implies x == y by {
        if x < n && y < n {
            assert(a.attachments@[x].id == a.attachments@[y].id);
        } else if x < n {
            assert(a.attachments@[x].id == id);
        } else if y < n {
            assert(a.attachments@[y].id == id);
        }
    }
}

} // verus!
