//! Validation and application of a create or update request for a cipher:
//! personal-ownership policy, stale-write detection, ownership transfer,
//! attachment key rotation, payload selection and the per-user folder and
//! favorite of the cipher.

use vstd::prelude::*;
use serde_json::Value;
use crate::error::CipherError;
use crate::model::{Attachment, Cipher, Favorite, FolderCipher, Timestamp, Vault};
use crate::payload::{
    fields_text, history_text, json_text_of, list_acceptable, list_cleaned, payload_acceptable, payload_cleaned, payload_text,
};

verus! {

/// How a change is announced to the user's other devices.
#[derive(Clone, Copy, Debug, PartialEq, Eq, Structural)]
pub enum UpdateType {
    SyncCipherCreate,
    SyncCipherUpdate,
    /// Bulk import: no staleness check, no per-item event or notification.
    Import,
}

/// Audit events of cipher changes.
#[derive(Clone, Copy, Debug, PartialEq, Eq, Structural)]
pub enum EventType {
    CipherCreated,
    CipherUpdated,
    CipherShared,
    CipherDeleted,
    CipherSoftDeleted,
    CipherRestored,
    CipherAttachmentCreated,
    CipherAttachmentDeleted,
    CipherUpdatedCollections,
    OrganizationPurgedVault,
}

/// New name and wrapped key of an attachment, posted on key rotation.
#[derive(Clone, Debug)]
pub struct Attachments2Data {
    pub file_name: String,
    pub key: String,
}

/// A change of only the per-user folder and favorite of a cipher.
#[derive(Clone, Copy, Debug, PartialEq, Eq, Structural)]
pub struct PartialCipherData {
    pub folder_id: Option<u64>,
    pub favorite: bool,
}

/// A cipher as posted by a client. `atype` selects which of the five
/// payloads is stored: 1 login, 2 secure note, 3 card, 4 identity, 5 SSH key.
#[derive(Debug)]
pub struct CipherData {
    pub id: Option<u64>,
    pub folder_id: Option<u64>,
    pub organization_id: Option<u64>,
    pub key: Option<String>,
    pub atype: i32,
    pub name: String,
    pub notes: Option<String>,
    pub fields: Option<Value>,
    pub login: Option<Value>,
    pub secure_note: Option<Value>,
    pub card: Option<Value>,
    pub identity: Option<Value>,
    pub ssh_key: Option<Value>,
    pub favorite: Option<bool>,
    pub reprompt: Option<i32>,
    pub password_history: Option<Value>,
    pub attachments2: Option<Vec<(u64, Attachments2Data)>>,
    /// ISO 8601 revision time of the client's copy.
    pub last_known_revision_date: Option<String>,
}

/// What a successful update asks the caller to announce.
#[derive(Clone, Copy, Debug, PartialEq, Eq, Structural)]
pub struct UpdateOutcome {
    /// The audit event, for organization ciphers outside an import.
    pub event: Option<EventType>,
    /// Whether the users who see the cipher are notified.
    pub notify: bool,
    /// The kind of change the notification announces.
    pub update_type: UpdateType,
    /// The revision date could not be read and was passed over.
    pub unreadable_revision: bool,
}

/// The outcome of comparing a client's revision date with the stored one.
#[derive(Clone, Copy, Debug, PartialEq, Eq, Structural)]
pub enum RevisionCheck {
    Absent,
    Current,
    Unparseable,
}

/// The instant that chrono reads from an ISO 8601 text, if it reads one.
pub uninterp spec fn parsed_revision_date(s: Seq<char>) -> Option<Timestamp>;

/// Relies on chrono::NaiveDateTime::parse_from_str with the `%+` (ISO 8601)
/// format, then `and_utc().timestamp()` and `timestamp_subsec_nanos()`.
#[verifier::external_body]
fn parse_revision_date(s: &str) -> (r: Option<Timestamp>)
    ensures
        r == parsed_revision_date(s@),
{
    match chrono::NaiveDateTime::parse_from_str(s, "%+") {
        Ok(d) => Some(Timestamp { secs: d.and_utc().timestamp(), nanos: d.and_utc().timestamp_subsec_nanos() }),
        Err(_) => None,
    }
}

/// The stored copy is more than one second newer than the client's.
pub open spec fn spec_is_stale(stored: Timestamp, client: Timestamp) -> bool {
    stored.total_nanos() - client.total_nanos() > 1_000_000_000
}

pub fn is_stale(stored: Timestamp, client: Timestamp) -> (r: bool)
    ensures
        r == spec_is_stale(stored, client),
{
    let a: i128 = stored.secs as i128 * 1_000_000_000i128 + stored.nanos as i128;
    let b: i128 = client.secs as i128 * 1_000_000_000i128 + client.nanos as i128;
    a - b > 1_000_000_000i128
}

pub open spec fn spec_check_parsed(stored: Timestamp, parsed: Option<Timestamp>) -> Result<RevisionCheck, CipherError> {
    match parsed {
        None => Ok(RevisionCheck::Unparseable),
        Some(t) => if spec_is_stale(stored, t) { Err(CipherError::StaleRevision) } else { Ok(RevisionCheck::Current) },
    }
}

/// Judges a client revision date already read: a stale one is refused,
/// an unreadable one is tolerated.
pub fn check_parsed_revision(stored: Timestamp, parsed: Option<Timestamp>) -> (r: Result<RevisionCheck, CipherError>)
    ensures
        r == spec_check_parsed(stored, parsed),
{
    match parsed {
        None => Ok(RevisionCheck::Unparseable),
        Some(t) => if is_stale(stored, t) {
            Err(CipherError::StaleRevision)
        } else {
            Ok(RevisionCheck::Current)
        },
    }
}

pub open spec fn spec_check_revision(stored: Timestamp, last_known: Option<String>) -> Result<RevisionCheck, CipherError> {
    match last_known {
        None => Ok(RevisionCheck::Absent),
        Some(s) => spec_check_parsed(stored, parsed_revision_date(s@)),
    }
}

/// Rejects an update made against a copy older than the stored cipher.
pub fn check_revision(stored: Timestamp, last_known: &Option<String>) -> (r: Result<RevisionCheck, CipherError>)
    ensures
        r == spec_check_revision(stored, *last_known),
{
    match last_known {
        None => Ok(RevisionCheck::Absent),
        Some(s) => check_parsed_revision(stored, parse_revision_date(s.as_str())),
    }
}

/// A personal-vault target is refused where the personal-ownership policy
/// applies to the user (`policy_applies`, from the policy store).
/// `organization_id` is the organization of the posted cipher; `None`
/// outer means no cipher is posted (a bulk import).
pub open spec fn spec_personal_ownership(organization_id: Option<Option<u64>>, policy_applies: bool) -> Result<(), CipherError> {
    let personal = match organization_id {
        None => true,
        Some(o) => o.is_none(),
    };
    if personal && policy_applies { Err(CipherError::PersonalOwnershipPolicy) } else { Ok(()) }
}

pub fn enforce_personal_ownership_policy(organization_id: Option<Option<u64>>, policy_applies: bool) -> (r: Result<(), CipherError>)
    ensures
        r == spec_personal_ownership(organization_id, policy_applies),
{
    let personal = match organization_id {
        None => true,
        Some(o) => o.is_none(),
    };
    if personal && policy_applies {
        Err(CipherError::PersonalOwnershipPolicy)
    } else {
        Ok(())
    }
}

/// The payload that the type selects.
pub open spec fn spec_select_payload<T>(atype: i32, login: Option<T>, secure_note: Option<T>, card: Option<T>,
    identity: Option<T>, ssh_key: Option<T>) -> Result<T, CipherError> {
    let chosen = if atype == 1 { login } else if atype == 2 { secure_note } else if atype == 3 { card }
        else if atype == 4 { identity } else { ssh_key };
    if atype < 1 || atype > 5 {
        Err(CipherError::InvalidType)
    } else {
        match chosen {
            Some(p) => Ok(p),
            None => Err(CipherError::DataMissing),
        }
    }
}

pub fn select_payload<T>(atype: i32, login: Option<T>, secure_note: Option<T>, card: Option<T>,
    identity: Option<T>, ssh_key: Option<T>) -> (r: Result<T, CipherError>)
    ensures
        r == spec_select_payload(atype, login, secure_note, card, identity, ssh_key),
{
    let chosen = if atype == 1 {
        login
    } else if atype == 2 {
        secure_note
    } else if atype == 3 {
        card
    } else if atype == 4 {
        identity
    } else if atype == 5 {
        ssh_key
    } else {
        return Err(CipherError::InvalidType);
    };
    match chosen {
        Some(p) => Ok(p),
        None => Err(CipherError::DataMissing),
    }
}

/// The audit event of an update: a transfer into an organization is a
/// creation on the create path and a share on the update path.
pub open spec fn spec_event(ut: UpdateType, transfer: bool, org: Option<u64>) -> Option<EventType> {
    if ut == UpdateType::Import || org.is_none() {
        None
    } else if ut == UpdateType::SyncCipherCreate && transfer {
        Some(EventType::CipherCreated)
    } else if ut == UpdateType::SyncCipherUpdate && transfer {
        Some(EventType::CipherShared)
    } else {
        Some(EventType::CipherUpdated)
    }
}

pub fn classify_event(ut: UpdateType, transfer: bool, org: Option<u64>) -> (r: Option<EventType>)
    ensures
        r == spec_event(ut, transfer, org),
{
    if ut == UpdateType::Import || org.is_none() {
        None
    } else if ut == UpdateType::SyncCipherCreate && transfer {
        Some(EventType::CipherCreated)
    } else if ut == UpdateType::SyncCipherUpdate && transfer {
        Some(EventType::CipherShared)
    } else {
        Some(EventType::CipherUpdated)
    }
}

/// Only the reprompt values None (0) and Password (1) are kept.
pub open spec fn spec_reprompt(r: Option<i32>) -> Option<i32> {
    match r {
        Some(x) => if x == 0 || x == 1 { Some(x) } else { None },
        None => None,
    }
}

/// The length of a text in UTF-8 bytes.
pub open spec fn note_len(s: String) -> usize {
    vstd::utf8::encode_utf8(s@).len() as usize
}

/// The checks that precede any change, in the order they are made.
pub open spec fn spec_update_check(v: Vault, c: Cipher, data: CipherData, user: u64, shared: bool, ut: UpdateType,
    policy_applies: bool, max_note_size: usize) -> Result<RevisionCheck, CipherError> {
    let policy = spec_personal_ownership(Some(data.organization_id), policy_applies);
    let rev = if ut == UpdateType::Import { Ok(RevisionCheck::Absent) } else {
        spec_check_revision(c.updated_at, data.last_known_revision_date)
    };
    if policy is Err {
        Err(policy->Err_0)
    } else if rev is Err {
        rev
    } else if c.organization_uuid.is_some() && c.organization_uuid != data.organization_id {
        Err(CipherError::OrganizationMismatch)
    } else if data.notes.is_some() && note_len(data.notes->Some_0) > max_note_size {
        Err(CipherError::NotesTooLong)
    } else if data.organization_id.is_some() && !v.spec_is_member(user, data.organization_id->Some_0) {
        Err(CipherError::NotOrganizationMember)
    } else if data.organization_id.is_some() && !(shared || v.spec_member_full(user, data.organization_id->Some_0)
        || v.spec_writable(user, c)) {
        Err(CipherError::TransferDenied)
    } else if data.folder_id.is_some() && !v.spec_folder_of_user(data.folder_id->Some_0, user) {
        Err(CipherError::FolderNotFound)
    } else {
        rev
    }
}

impl CipherData {
    /// The payload the type selects, refused where it is no object, where
    /// its `uris` list holds an entry that is no object, or where the
    /// custom fields form a list with an entry that is no object.
    pub open spec fn spec_payload(self) -> Result<Value, CipherError> {
        match spec_select_payload(self.atype, self.login, self.secure_note, self.card, self.identity, self.ssh_key) {
            Err(e) => Err(e),
            Ok(p) => if !payload_acceptable(p) || (self.fields is Some && !list_acceptable(self.fields->Some_0)) {
                Err(CipherError::InvalidPayload)
            } else {
                Ok(p)
            },
        }
    }
}

/// Validates the request and applies it to the cipher. `user` makes the
/// request; `shared_to_collections` holds the collections it shares the
/// cipher into; `policy_applies` tells whether the personal-ownership
/// policy binds the user; `now` becomes the revision time. On success the
/// cipher has exactly one owner, the user's folder and favorite are set,
/// and the result tells which audit event and notification are due.
pub fn update_cipher_from_data(
    vault: &mut Vault,
    cipher: &mut Cipher,
    data: CipherData,
    user: u64,
    shared_to_collections: &Option<Vec<u64>>,
    ut: UpdateType,
    policy_applies: bool,
    max_note_size: usize,
    now: Timestamp,
) -> (r: Result<UpdateOutcome, CipherError>)
    ensures
        ({
            let pre = spec_update_check(*old(vault), *old(cipher), data, user, shared_to_collections.is_some(), ut,
                policy_applies, max_note_size);
            &&& pre is Err ==> r == Err::<UpdateOutcome, CipherError>(pre->Err_0) && *final(vault) == *old(vault)
                && *final(cipher) == *old(cipher)
            &&& pre is Ok && data.spec_payload() is Err ==> r == Err::<UpdateOutcome, CipherError>(data.spec_payload()->Err_0)
                && *final(cipher) == *old(cipher) && *final(vault) == *old(vault)
            &&& pre is Ok && data.spec_payload() is Ok ==> r is Ok
            &&& r is Ok ==> pre is Ok && data.spec_payload() is Ok
        }),
        final(vault).same_structure(*old(vault)),
        forall|i: int| 0 <= i < old(vault).attachments@.len() && old(vault).attachments@[i].cipher_uuid != old(cipher).uuid
            ==> #[trigger] final(vault).attachments@[i] == old(vault).attachments@[i],
        final(vault).attachments@.len() == old(vault).attachments@.len(),
        forall|i: int| 0 <= i < old(vault).attachments@.len() ==> (#[trigger] final(vault).attachments@[i]).id
            == old(vault).attachments@[i].id && final(vault).attachments@[i].cipher_uuid == old(vault).attachments@[i].cipher_uuid,
        r is Ok ==> forall|i: int| 0 <= i < old(vault).attachments@.len() ==> {
            let a = old(vault).attachments@[i];
            match data.attachments2 {
                Some(rot) => if a.cipher_uuid == old(cipher).uuid && spec_posted(rot@, a.id, rot@.len() as int) {
                    spec_rotated_last(rot@, a, final(vault).attachments@[i], rot@.len() as int)
                } else {
                    #[trigger] final(vault).attachments@[i] == a
                },
                None => final(vault).attachments@[i] == a,
            }
        },
        r is Ok ==> {
            let out = r->Ok_0;
            let c = *final(cipher);
            &&& c.owner_exclusive()
            &&& match data.organization_id {
                Some(o) => c.organization_uuid == Some(o) && c.user_uuid.is_none(),
                None => c.user_uuid == Some(user) && c.organization_uuid.is_none(),
            }
            &&& c.uuid == old(cipher).uuid && c.atype == old(cipher).atype
            &&& c.key == data.key && c.name == data.name && c.notes == data.notes
            &&& exists|p: Value| payload_cleaned(data.spec_payload()->Ok_0, p) && c.data@ == json_text_of(p)
            &&& match data.fields {
                Some(f) => c.fields is Some && exists|p: Value| list_cleaned(f, p) && c.fields->Some_0@ == json_text_of(p),
                None => c.fields is None,
            }
            &&& match data.password_history {
                Some(h) => c.password_history is Some && c.password_history->Some_0@ == json_text_of(h),
                None => c.password_history is None,
            }
            &&& c.reprompt == spec_reprompt(data.reprompt)
            &&& c.updated_at == now && c.deleted_at == old(cipher).deleted_at
            &&& out.event == spec_event(ut, old(cipher).organization_uuid.is_none() && data.organization_id.is_some(),
                c.organization_uuid)
            &&& out.notify == (ut != UpdateType::Import)
            &&& out.update_type == ut
            &&& out.unreadable_revision == (spec_update_check(*old(vault), *old(cipher), data, user,
                shared_to_collections.is_some(), ut, policy_applies, max_note_size) == Ok::<RevisionCheck, CipherError>(RevisionCheck::Unparseable))
            &&& forall|f: u64| #[trigger] final(vault).spec_in_folder(user, c.uuid, f) <==> data.folder_id == Some(f)
            &&& final(vault).spec_is_favorite(user, c.uuid) == match data.favorite {
                Some(b) => b,
                None => old(vault).spec_is_favorite(user, c.uuid),
            }
        },
{
    enforce_personal_ownership_policy(Some(data.organization_id), policy_applies)?;
    let rev = if ut == UpdateType::Import {
        RevisionCheck::Absent
    } else {
        check_revision(cipher.updated_at, &data.last_known_revision_date)?
    };
    if cipher.organization_uuid.is_some() && cipher.organization_uuid != data.organization_id {
        return Err(CipherError::OrganizationMismatch);
    }
    match &data.notes {
        Some(n) => if n.as_str().len() > max_note_size {
            return Err(CipherError::NotesTooLong);
        },
        None => {},
    }
    let transfer = cipher.organization_uuid.is_none() && data.organization_id.is_some();
    match data.organization_id {
        Some(o) => {
            if !vault.is_member(user, o) {
                return Err(CipherError::NotOrganizationMember);
            }
            if !(shared_to_collections.is_some() || vault.member_has_full_access(user, o)
                || vault.is_write_accessible_to_user(user, cipher)) {
                return Err(CipherError::TransferDenied);
            }
        },
        None => {},
    }
    match data.folder_id {
        Some(f) => if !vault.folder_of_user(f, user) {
            return Err(CipherError::FolderNotFound);
        },
        None => {},
    }
    let ghost v0 = *vault;
    assert(spec_update_check(v0, *cipher, data, user, shared_to_collections.is_some(), ut, policy_applies, max_note_size)
        == Ok::<RevisionCheck, CipherError>(rev));
    let ghost d = data;
    let type_data = select_payload(data.atype, data.login, data.secure_note, data.card, data.identity, data.ssh_key)?;
    let ghost posted = type_data;
    let stored_data = match payload_text(type_data) {
        Some(t) => t,
        None => return Err(CipherError::InvalidPayload),
    };
    let stored_fields = match data.fields {
        Some(f) => match fields_text(f) {
            Some(t) => Some(t),
            None => return Err(CipherError::InvalidPayload),
        },
        None => None,
    };
    match &data.attachments2 {
        Some(rotations) => vault.rotate_attachment_keys(cipher.uuid, rotations),
        None => {},
    }
    match data.organization_id {
        Some(o) => {
            cipher.organization_uuid = Some(o);
            cipher.user_uuid = None;
        },
        None => {
            cipher.user_uuid = Some(user);
        },
    }
    cipher.key = data.key;
    cipher.name = data.name;
    cipher.notes = data.notes;
    cipher.fields = stored_fields;
    cipher.data = stored_data;
    cipher.password_history = match data.password_history {
        Some(h) => Some(history_text(h)),
        None => None,
    };
    cipher.reprompt = match data.reprompt {
        Some(x) => if x == 0 || x == 1 { Some(x) } else { None },
        None => None,
    };
    cipher.updated_at = now;
    let ghost v1 = *vault;
    assert(v1.folders@ == v0.folders@);
    assert(data.folder_id.is_some() ==> v1.spec_folder_of_user(data.folder_id->Some_0, user));
    vault.move_to_folder(cipher.uuid, data.folder_id, user);
    let ghost v2 = *vault;
    assert(v2.favorites@ == v0.favorites@);
    vault.set_favorite(cipher.uuid, data.favorite, user);
    assert(vault.folder_ciphers@ == v2.folder_ciphers@ && vault.folders@ == v2.folders@);
    assert forall|f: u64| #[trigger] vault.spec_in_folder(user, cipher.uuid, f) <==> data.folder_id == Some(f) by {
        assert(v2.spec_in_folder(user, cipher.uuid, f) == vault.spec_in_folder(user, cipher.uuid, f));
    }
    let event = classify_event(ut, transfer, cipher.organization_uuid);
    Ok(UpdateOutcome { event, notify: ut != UpdateType::Import, update_type: ut, unreadable_revision: rev == RevisionCheck::Unparseable })
}

impl Vault {
    pub open spec fn spec_folder_of_user(self, folder: u64, user: u64) -> bool {
        exists|i: int| 0 <= i < self.folders@.len() && #[trigger] self.folders@[i].uuid == folder
            && self.folders@[i].user_uuid == user
    }

    /// The user keeps the cipher in the folder.
    pub open spec fn spec_in_folder(self, user: u64, cipher: u64, folder: u64) -> bool {
        self.spec_folder_of_user(folder, user) && exists|i: int| 0 <= i < self.folder_ciphers@.len()
            && #[trigger] self.folder_ciphers@[i] == (FolderCipher { cipher_uuid: cipher, folder_uuid: folder })
    }

    pub open spec fn spec_is_favorite(self, user: u64, cipher: u64) -> bool {
        exists|i: int| 0 <= i < self.favorites@.len()
            && #[trigger] self.favorites@[i] == (Favorite { user_uuid: user, cipher_uuid: cipher })
    }

    /// All tables but attachments, folder placements and favorites agree.
    pub open spec fn same_structure(self, o: Vault) -> bool {
        &&& self.groups_enabled == o.groups_enabled
        &&& self.ciphers@ == o.ciphers@
        &&& self.memberships@ == o.memberships@
        &&& self.collections@ == o.collections@
        &&& self.collection_ciphers@ == o.collection_ciphers@
        &&& self.collection_users@ == o.collection_users@
        &&& self.collection_groups@ == o.collection_groups@
        &&& self.groups@ == o.groups@
        &&& self.group_users@ == o.group_users@
        &&& self.folders@ == o.folders@
    }

    /// Whether the folder exists and belongs to the user.
    pub fn folder_of_user(&self, folder: u64, user: u64) -> (r: bool)
        ensures
            r == self.spec_folder_of_user(folder, user),
    {
        let mut i: usize = 0;
        while i < self.folders.len()
            invariant
                i <= self.folders@.len(),
                forall|j: int| 0 <= j < i ==> !(#[trigger] self.folders@[j].uuid == folder
                    && self.folders@[j].user_uuid == user),
            decreases self.folders@.len() - i,
        {
            let f = &self.folders[i];
            if f.uuid == folder && f.user_uuid == user {
                assert(self.folders@[i as int].uuid == folder);
                return true;
            }
            i = i + 1;
        }
        false
    }

    /// The index of the attachment with the id, if any.
    pub fn find_attachment(&self, id: u64) -> (r: Option<usize>)
        ensures
            match r {
                Some(i) => i < self.attachments@.len() && self.attachments@[i as int].id == id,
                None => forall|j: int| 0 <= j < self.attachments@.len() ==> #[trigger] self.attachments@[j].id != id,
            },
    {
        let mut i: usize = 0;
        while i < self.attachments.len()
            invariant
                i <= self.attachments@.len(),
                forall|j: int| 0 <= j < i ==> #[trigger] self.attachments@[j].id != id,
            decreases self.attachments@.len() - i,
        {
            if self.attachments[i].id == id {
                return Some(i);
            }
            i = i + 1;
        }
        None
    }

    /// Puts the cipher in the folder for the user only (`None`: in no
    /// folder); the placements of other users stay.
    pub fn move_to_folder(&mut self, cipher: u64, folder: Option<u64>, user: u64)
        ensures
            final(self).same_structure(*old(self)),
            final(self).attachments@ == old(self).attachments@,
            final(self).favorites@ == old(self).favorites@,
            forall|f: u64| #[trigger] final(self).spec_in_folder(user, cipher, f)
                <==> (folder == Some(f) && old(self).spec_folder_of_user(f, user)),
            forall|j: int| 0 <= j < old(self).folder_ciphers@.len()
                && !(old(self).folder_ciphers@[j].cipher_uuid == cipher
                    && old(self).spec_folder_of_user(old(self).folder_ciphers@[j].folder_uuid, user))
                ==> final(self).folder_ciphers@.contains(#[trigger] old(self).folder_ciphers@[j]),
            forall|x: FolderCipher| #[trigger] final(self).folder_ciphers@.contains(x)
                ==> old(self).folder_ciphers@.contains(x) || x.cipher_uuid == cipher,
    {
        let mut kept: Vec<FolderCipher> = Vec::new();
        let mut i: usize = 0;
        while i < self.folder_ciphers.len()
            invariant
                i <= self.folder_ciphers@.len(),
                forall|k: int| 0 <= k < kept@.len() ==> !(#[trigger] kept@[k].cipher_uuid == cipher
                    && self.spec_folder_of_user(kept@[k].folder_uuid, user)),
                forall|k: int| 0 <= k < kept@.len() ==> self.folder_ciphers@.contains(#[trigger] kept@[k]),
                forall|j: int| 0 <= j < i && !(self.folder_ciphers@[j].cipher_uuid == cipher
                    && self.spec_folder_of_user(self.folder_ciphers@[j].folder_uuid, user))
                    ==> kept@.contains(#[trigger] self.folder_ciphers@[j]),
            decreases self.folder_ciphers@.len() - i,
        {
            let fc = self.folder_ciphers[i];
            let ghost prev = kept@;
            if !(fc.cipher_uuid == cipher && self.folder_of_user(fc.folder_uuid, user)) {
                kept.push(fc);
            }
            i = i + 1;
            proof {
                assert forall|k: int| 0 <= k < kept@.len() implies self.folder_ciphers@.contains(#[trigger] kept@[k]) by {
                    if k < prev.len() {
                        assert(kept@[k] == prev[k]);
                    } else {
                        assert(kept@[k] == self.folder_ciphers@[i - 1]);
                    }
                }
                assert forall|j: int| 0 <= j < i && !(self.folder_ciphers@[j].cipher_uuid == cipher
                    && self.spec_folder_of_user(self.folder_ciphers@[j].folder_uuid, user))
                    implies kept@.contains(#[trigger] self.folder_ciphers@[j]) by {
                    if j < i - 1 {
                        let k = choose|k: int| 0 <= k < prev.len() && prev[k] == self.folder_ciphers@[j];
                        assert(kept@[k] == prev[k]);
                    } else {
                        assert(kept@[kept@.len() - 1] == self.folder_ciphers@[j]);
                    }
                }
            }
        }
        let ghost before = kept@;
        match folder {
            Some(f) => {
                kept.push(FolderCipher { cipher_uuid: cipher, folder_uuid: f });
            },
            None => {},
        }
        assert forall|j: int| 0 <= j < old(self).folder_ciphers@.len()
            && !(old(self).folder_ciphers@[j].cipher_uuid == cipher
                && old(self).spec_folder_of_user(old(self).folder_ciphers@[j].folder_uuid, user))
            implies kept@.contains(#[trigger] old(self).folder_ciphers@[j]) by {
            let k = choose|k: int| 0 <= k < before.len() && before[k] == old(self).folder_ciphers@[j];
            assert(kept@[k] == before[k]);
        }
        assert forall|x: FolderCipher| #[trigger] kept@.contains(x) implies old(self).folder_ciphers@.contains(x)
            || x.cipher_uuid == cipher by {
            let k = choose|k: int| 0 <= k < kept@.len() && kept@[k] == x;
            if k < before.len() {
                assert(before[k] == kept@[k]);
                assert(old(self).folder_ciphers@.contains(before[k]));
            }
        }
        self.folder_ciphers = kept;
        assert forall|f: u64| #[trigger] self.spec_in_folder(user, cipher, f)
            <==> (folder == Some(f) && old(self).spec_folder_of_user(f, user)) by {
            assert(self.folders@ == old(self).folders@);
            assert(self.spec_folder_of_user(f, user) == old(self).spec_folder_of_user(f, user));
            if self.spec_in_folder(user, cipher, f) {
                let k = choose|k: int| 0 <= k < self.folder_ciphers@.len()
                    && #[trigger] self.folder_ciphers@[k] == (FolderCipher { cipher_uuid: cipher, folder_uuid: f });
                if k < before.len() {
                    assert(before[k].cipher_uuid == cipher);
                    assert(!old(self).spec_folder_of_user(before[k].folder_uuid, user));
                    assert(false);
                }
            }
            if folder == Some(f) && old(self).spec_folder_of_user(f, user) {
                assert(self.folder_ciphers@[before.len() as int] == (FolderCipher { cipher_uuid: cipher, folder_uuid: f }));
            }
        }
    }

    /// Marks (`Some(true)`) or unmarks (`Some(false)`) the cipher as a
    /// favorite of the user; `None` leaves the mark as it is.
    pub fn set_favorite(&mut self, cipher: u64, favorite: Option<bool>, user: u64)
        ensures
            final(self).same_structure(*old(self)),
            final(self).attachments@ == old(self).attachments@,
            final(self).folder_ciphers@ == old(self).folder_ciphers@,
            final(self).spec_is_favorite(user, cipher) == match favorite {
                Some(b) => b,
                None => old(self).spec_is_favorite(user, cipher),
            },
            forall|u: u64, c: u64| !(u == user && c == cipher) ==>
                (#[trigger] final(self).spec_is_favorite(u, c) == old(self).spec_is_favorite(u, c)),
    {
        let mark = match favorite {
            None => return,
            Some(b) => b,
        };
        let target = Favorite { user_uuid: user, cipher_uuid: cipher };
        let mut kept: Vec<Favorite> = Vec::new();
        let mut i: usize = 0;
        while i < self.favorites.len()
            invariant
                i <= self.favorites@.len(),
                forall|k: int| 0 <= k < kept@.len() ==> #[trigger] kept@[k] != target,
                forall|k: int| 0 <= k < kept@.len() ==> self.favorites@.contains(#[trigger] kept@[k]),
                forall|j: int| 0 <= j < i && self.favorites@[j] != target ==> kept@.contains(#[trigger] self.favorites@[j]),
            decreases self.favorites@.len() - i,
        {
            let f = self.favorites[i];
            let ghost prev = kept@;
            if f != target {
                kept.push(f);
            }
            i = i + 1;
            proof {
                assert forall|k: int| 0 <= k < kept@.len() implies #[trigger] kept@[k] != target
                    && self.favorites@.contains(kept@[k]) by {
                    if k < prev.len() {
                        assert(kept@[k] == prev[k]);
                    } else {
                        assert(kept@[k] == self.favorites@[i - 1]);
                    }
                }
                assert forall|j: int| 0 <= j < i && self.favorites@[j] != target
                    implies kept@.contains(#[trigger] self.favorites@[j]) by {
                    if j < i - 1 {
                        let k = choose|k: int| 0 <= k < prev.len() && prev[k] == self.favorites@[j];
                        assert(kept@[k] == prev[k]);
                    } else {
                        assert(kept@[kept@.len() - 1] == self.favorites@[j]);
                    }
                }
            }
        }
        let ghost before = kept@;
        if mark {
            kept.push(target);
        }
        self.favorites = kept;
        assert forall|u: u64, c: u64| !(u == user && c == cipher) implies
            (#[trigger] self.spec_is_favorite(u, c) == old(self).spec_is_favorite(u, c)) by {
            let fv = Favorite { user_uuid: u, cipher_uuid: c };
            if self.spec_is_favorite(u, c) {
                let k = choose|k: int| 0 <= k < self.favorites@.len() && #[trigger] self.favorites@[k] == fv;
                if k < before.len() {
                    assert(old(self).favorites@.contains(before[k]));
                }
            }
            if old(self).spec_is_favorite(u, c) {
                let j = choose|j: int| 0 <= j < old(self).favorites@.len() && #[trigger] old(self).favorites@[j] == fv;
                assert(before.contains(fv));
                let k = choose|k: int| 0 <= k < before.len() && before[k] == fv;
                assert(self.favorites@[k] == fv);
            }
        }
        if mark {
            assert(self.favorites@[before.len() as int] == target);
        }
    }

    /// Stores the posted file names and keys on the attachments of the
    /// cipher. A posted id that names no attachment of the cipher is
    /// passed over; where an id is posted twice the later entry wins.
    pub fn rotate_attachment_keys(&mut self, cipher: u64, rotations: &Vec<(u64, Attachments2Data)>)
        ensures
            final(self).same_structure(*old(self)),
            final(self).folder_ciphers@ == old(self).folder_ciphers@,
            final(self).favorites@ == old(self).favorites@,
            final(self).attachments@.len() == old(self).attachments@.len(),
            forall|i: int| 0 <= i < old(self).attachments@.len() ==> {
                &&& (#[trigger] final(self).attachments@[i]).id == old(self).attachments@[i].id
                &&& final(self).attachments@[i].cipher_uuid == old(self).attachments@[i].cipher_uuid
                &&& final(self).attachments@[i].file_size == old(self).attachments@[i].file_size
            },
            forall|i: int| 0 <= i < old(self).attachments@.len() ==> {
                let a = old(self).attachments@[i];
                if a.cipher_uuid == cipher && spec_posted(rotations@, a.id, rotations@.len() as int) {
                    spec_rotated_last(rotations@, a, #[trigger] final(self).attachments@[i], rotations@.len() as int)
                } else {
                    #[trigger] final(self).attachments@[i] == a
                }
            },
    {
        let mut k: usize = 0;
        while k < rotations.len()
            invariant
                k <= rotations@.len(),
                self.same_structure(*old(self)),
                self.folder_ciphers@ == old(self).folder_ciphers@,
                self.favorites@ == old(self).favorites@,
                self.attachments@.len() == old(self).attachments@.len(),
                forall|i: int| 0 <= i < old(self).attachments@.len() ==> {
                    let a = old(self).attachments@[i];
                    if a.cipher_uuid == cipher && spec_posted(rotations@, a.id, k as int) {
                        spec_rotated_last(rotations@, a, #[trigger] self.attachments@[i], k as int)
                    } else {
                        #[trigger] self.attachments@[i] == a
                    }
                },
            decreases rotations@.len() - k,
        {
            let id = rotations[k].0;
            let ghost start = self.attachments@;
            let mut j: usize = 0;
            while j < self.attachments.len()
                invariant
                    k < rotations@.len(),
                    id == rotations@[k as int].0,
                    j <= self.attachments@.len(),
                    self.same_structure(*old(self)),
                    self.folder_ciphers@ == old(self).folder_ciphers@,
                    self.favorites@ == old(self).favorites@,
                    self.attachments@.len() == old(self).attachments@.len(),
                    start.len() == old(self).attachments@.len(),
                    forall|i: int| 0 <= i < old(self).attachments@.len() ==> {
                        let a = old(self).attachments@[i];
                        if a.cipher_uuid == cipher && spec_posted(rotations@, a.id, k as int) {
                            spec_rotated_last(rotations@, a, #[trigger] start[i], k as int)
                        } else {
                            #[trigger] start[i] == a
                        }
                    },
                    forall|i: int| 0 <= i < old(self).attachments@.len() ==> {
                        let a = old(self).attachments@[i];
                        if a.cipher_uuid == cipher && i < j && a.id == id {
                            spec_rotated(a, rotations@[k as int].1, #[trigger] self.attachments@[i])
                        } else {
                            #[trigger] self.attachments@[i] == start[i]
                        }
                    },
                decreases self.attachments@.len() - j,
            {
                if self.attachments[j].id == id && self.attachments[j].cipher_uuid == cipher {
                    let updated = Attachment {
                        id: self.attachments[j].id,
                        cipher_uuid: self.attachments[j].cipher_uuid,
                        file_name: rotations[k].1.file_name.clone(),
                        file_size: self.attachments[j].file_size,
                        akey: Some(rotations[k].1.key.clone()),
                    };
                    self.attachments.set(j, updated);
                }
                j = j + 1;
            }
            k = k + 1;
            proof {
                assert forall|i: int| 0 <= i < old(self).attachments@.len() implies {
                    let a = old(self).attachments@[i];
                    if a.cipher_uuid == cipher && spec_posted(rotations@, a.id, k as int) {
                        spec_rotated_last(rotations@, a, #[trigger] self.attachments@[i], k as int)
                    } else {
                        #[trigger] self.attachments@[i] == a
                    }
                } by {
                    let a = old(self).attachments@[i];
                    if a.cipher_uuid == cipher && a.id == id {
                        assert(rotations@[k - 1].0 == a.id);
                        assert(spec_posted(rotations@, a.id, k as int));
                        assert(spec_rotated_last(rotations@, a, self.attachments@[i], k as int)) by {
                            assert(rotations@[k - 1].0 == a.id);
                        }
                    } else if a.cipher_uuid == cipher && spec_posted(rotations@, a.id, k as int) {
                        assert(spec_posted(rotations@, a.id, k - 1)) by {
                            let q = choose|q: int| 0 <= q < k && #[trigger] rotations@[q].0 == a.id;
                            assert(q != k - 1);
                        }
                        let q = choose|q: int| 0 <= q < k - 1 && #[trigger] rotations@[q].0 == a.id
                            && (forall|q2: int| q < q2 < k - 1 ==> #[trigger] rotations@[q2].0 != a.id)
                            && spec_rotated(a, rotations@[q].1, start[i]);
                        assert(forall|q2: int| q < q2 < k ==> #[trigger] rotations@[q2].0 != a.id);
                    } else if a.cipher_uuid == cipher {
                        assert(!spec_posted(rotations@, a.id, k - 1));
                    }
                }
            }
        }
    }
}

/// Among the first `n` posted entries, the last one naming `a`'s id gives
/// `b` its name and key.
pub open spec fn spec_rotated_last(rotations: Seq<(u64, Attachments2Data)>, a: Attachment, b: Attachment, n: int) -> bool {
    exists|q: int| 0 <= q < n && #[trigger] rotations[q].0 == a.id
        && (forall|q2: int| q < q2 < n ==> #[trigger] rotations[q2].0 != a.id)
        && spec_rotated(a, rotations[q].1, b)
}

/// Some of the first `n` posted entries names the id.
pub open spec fn spec_posted(rotations: Seq<(u64, Attachments2Data)>, id: u64, n: int) -> bool {
    exists|q: int| 0 <= q < n && #[trigger] rotations[q].0 == id
}

/// `b` is `a` with the posted name and key.
pub open spec fn spec_rotated(a: Attachment, posted: Attachments2Data, b: Attachment) -> bool {
    b == (Attachment { file_name: posted.file_name, akey: Some(posted.key), ..a })
}

} // verus!
