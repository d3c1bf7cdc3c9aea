//! The cipher list of a sync and the bulk import of a vault.

use vstd::prelude::*;
use crate::error::CipherError;
use crate::model::{Cipher, Folder, Timestamp, Vault};
use crate::update::{note_len, spec_update_check, update_cipher_from_data, CipherData, UpdateType};

verus! {

/// A client's version, without pre-release part.
#[derive(Clone, Copy, Debug, PartialEq, Eq, Structural)]
pub struct ClientVersion {
    pub major: u64,
    pub minor: u64,
    pub patch: u64,
}

/// `v` is not lower than `min` in (major, minor, patch) order.
pub open spec fn spec_at_least(v: ClientVersion, min: ClientVersion) -> bool {
    v.major > min.major || (v.major == min.major && (v.minor > min.minor
        || (v.minor == min.minor && v.patch >= min.patch)))
}

/// Relies on semver::VersionReq::matches for one `>=` comparator with
/// major, minor and patch and no pre-release: a version without
/// pre-release matches when it is not lower in (major, minor, patch) order.
#[verifier::external_body]
fn version_at_least(v: ClientVersion, min: ClientVersion) -> (r: bool)
    ensures
        r == spec_at_least(v, min),
{
    let req = semver::VersionReq { comparators: vec![semver::Comparator {
        op: semver::Op::GreaterEq,
        major: min.major,
        minor: Some(min.minor),
        patch: Some(min.patch),
        pre: semver::Prerelease::EMPTY,
    }] };
    req.matches(&semver::Version::new(v.major, v.minor, v.patch))
}

/// The type number of SSH key ciphers.
pub const SSH_KEY_TYPE: i32 = 5;

/// The first client version that understands SSH key ciphers.
pub open spec fn ssh_keys_since() -> ClientVersion {
    ClientVersion { major: 2024, minor: 12, patch: 0 }
}

/// SSH key ciphers go only to clients that know them; an unknown client
/// gets none.
pub open spec fn spec_shows_ssh_keys(client: Option<ClientVersion>) -> bool {
    match client {
        Some(v) => spec_at_least(v, ssh_keys_since()),
        None => false,
    }
}

pub fn shows_ssh_keys(client: Option<ClientVersion>) -> (r: bool)
    ensures
        r == spec_shows_ssh_keys(client),
{
    match client {
        Some(v) => version_at_least(v, ClientVersion { major: 2024, minor: 12, patch: 0 }),
        None => false,
    }
}

/// A folder as posted in an import; a known id of the user's is reused.
#[derive(Debug)]
pub struct FolderData {
    pub id: Option<u64>,
    pub name: String,
}

/// A whole vault posted at once: ciphers, folders, and pairs of a cipher
/// index and a folder index.
#[derive(Debug)]
pub struct ImportData {
    pub ciphers: Vec<CipherData>,
    pub folders: Vec<FolderData>,
    pub folder_relationships: Vec<(usize, usize)>,
}

/// An import is owed success when the policy does not bind the user, every
/// note fits, every pair names a posted folder, every cipher has its
/// payload and names no organization, and fresh ids remain for every new
/// folder and cipher.
pub open spec fn spec_import_owed(v: Vault, data: ImportData, policy_applies: bool, max_note_size: usize) -> bool {
    &&& !policy_applies
    &&& forall|k: int| 0 <= k < data.ciphers@.len() ==> !((#[trigger] data.ciphers@[k]).notes is Some
        && note_len(data.ciphers@[k].notes->Some_0) > max_note_size)
    &&& forall|q: int| 0 <= q < data.folder_relationships@.len() ==> (#[trigger] data.folder_relationships@[q]).1 < data.folders@.len()
    &&& forall|k: int| 0 <= k < data.ciphers@.len() ==> (#[trigger] data.ciphers@[k]).spec_payload() is Ok
        && data.ciphers@[k].organization_id is None
    &&& data.folders@.len() + 1 < u64::MAX && data.ciphers@.len() + 1 < u64::MAX
    &&& forall|j: int| 0 <= j < v.folders@.len() ==> (#[trigger] v.folders@[j]).uuid + data.folders@.len() < u64::MAX
    &&& forall|j: int| 0 <= j < v.ciphers@.len() ==> (#[trigger] v.ciphers@[j]).uuid + data.ciphers@.len() < u64::MAX
}

impl Vault {
    /// The stored ciphers are those of `o` followed by one new cipher for
    /// each of the first `k` posted entries, with its name and organization,
    /// owned by the user where the entry names no organization.
    pub open spec fn spec_import_prefix(self, o: Vault, d: Seq<CipherData>, user: u64, k: int) -> bool {
        &&& 0 <= k <= d.len()
        &&& self.ciphers@.len() == o.ciphers@.len() + k
        &&& self.ciphers@.subrange(0, o.ciphers@.len() as int) == o.ciphers@
        &&& forall|q: int| 0 <= q < k ==> {
            let c = #[trigger] self.ciphers@[o.ciphers@.len() + q];
            &&& c.name == d[q].name
            &&& c.organization_uuid == d[q].organization_id
            &&& d[q].organization_id is None ==> c.user_uuid == Some(user)
        }
    }
}

impl Vault {
    /// The ciphers of a sync: those the user may read, without SSH keys for
    /// clients that do not know them, in stored order.
    pub fn sync_ciphers(&self, user: u64, client: Option<ClientVersion>) -> (r: Vec<Cipher>)
        ensures
            forall|c: Cipher| #[trigger] r@.contains(c) <==> self.ciphers@.contains(c) && self.spec_readable(user, c)
                && (spec_shows_ssh_keys(client) || c.atype != SSH_KEY_TYPE),
    {
        self.visible_ciphers(user, shows_ssh_keys(client))
    }

    /// Every cipher the user may read, in stored order.
    pub fn get_ciphers(&self, user: u64) -> (r: Vec<Cipher>)
        ensures
            forall|c: Cipher| #[trigger] r@.contains(c) <==> self.ciphers@.contains(c) && self.spec_readable(user, c),
    {
        self.visible_ciphers(user, true)
    }

    /// The ciphers the user may read; SSH keys only with `show`.
    fn visible_ciphers(&self, user: u64, show: bool) -> (r: Vec<Cipher>)
        ensures
            forall|c: Cipher| #[trigger] r@.contains(c) <==> self.ciphers@.contains(c) && self.spec_readable(user, c)
                && (show || c.atype != SSH_KEY_TYPE),
    {
        let mut out: Vec<Cipher> = Vec::new();
        let mut i: usize = 0;
        while i < self.ciphers.len()
            invariant
                i <= self.ciphers@.len(),
                forall|c: Cipher| #[trigger] out@.contains(c) <==> (exists|j: int| 0 <= j < i && #[trigger] self.ciphers@[j] == c)
                    && self.spec_readable(user, c) && (show || c.atype != SSH_KEY_TYPE),
            decreases self.ciphers@.len() - i,
        {
            let ghost o0 = out@;
            let c = &self.ciphers[i];
            if self.is_accessible_to_user(user, c) && (show || c.atype != SSH_KEY_TYPE) {
                out.push(c.duplicate());
            }
            i = i + 1;
            proof {
                assert forall|x: Cipher| #[trigger] out@.contains(x) <==> (exists|j: int| 0 <= j < i && #[trigger] self.ciphers@[j] == x)
                    && self.spec_readable(user, x) && (show || x.atype != SSH_KEY_TYPE) by {
                    if out@.contains(x) && !o0.contains(x) {
                        assert(self.ciphers@[i - 1] == x);
                    }
                    if o0.contains(x) {
                        let q = choose|q: int| 0 <= q < o0.len() && o0[q] == x;
                        assert(out@[q] == x);
                    }
                    if (exists|j: int| 0 <= j < i && #[trigger] self.ciphers@[j] == x)
                        && !(exists|j: int| 0 <= j < i - 1 && #[trigger] self.ciphers@[j] == x)
                        && self.spec_readable(user, x) && (show || x.atype != SSH_KEY_TYPE) {
                        assert(out@[out@.len() - 1] == x);
                    }
                }
            }
        }
        assert forall|c: Cipher| #[trigger] self.ciphers@.contains(c) implies exists|j: int| 0 <= j < self.ciphers@.len()
            && #[trigger] self.ciphers@[j] == c by {
            let j = choose|j: int| 0 <= j < self.ciphers@.len() && self.ciphers@[j] == c;
        }
        out
    }

    /// Whether the user has a folder with the id.
    fn user_has_folder(&self, id: Option<u64>, user: u64) -> (r: bool)
        ensures
            r == (id is Some && self.spec_folder_of_user(id->Some_0, user)),
    {
        match id {
            Some(f) => self.folder_of_user(f, user),
            None => false,
        }
    }

    /// An id that no folder has: one past the largest.
    fn fresh_folder_id(&self) -> (r: Option<u64>)
        ensures
            r is Some ==> forall|j: int| 0 <= j < self.folders@.len() ==> #[trigger] self.folders@[j].uuid != r->Some_0,
            r is Some <==> forall|j: int| 0 <= j < self.folders@.len() ==> #[trigger] self.folders@[j].uuid != u64::MAX,
            r is Some ==> r->Some_0 == 1 || exists|j: int| 0 <= j < self.folders@.len()
                && #[trigger] self.folders@[j].uuid == r->Some_0 - 1,
    {
        let mut top: u64 = 0;
        let mut i: usize = 0;
        while i < self.folders.len()
            invariant
                i <= self.folders@.len(),
                forall|j: int| 0 <= j < i ==> #[trigger] self.folders@[j].uuid <= top,
                top == 0 || exists|j: int| 0 <= j < i && #[trigger] self.folders@[j].uuid == top,
            decreases self.folders@.len() - i,
        {
            if self.folders[i].uuid > top {
                top = self.folders[i].uuid;
            }
            i = i + 1;
        }
        top.checked_add(1)
    }

    /// Imports a vault for the user. Nothing is stored
    /// when the personal-ownership policy binds the user, when a note is
    /// too long or when a pair names no posted folder; then folders and
    /// ciphers are created in order, stopping at the first failure.
    /// Returns the ids of the new ciphers.
    #[verifier::loop_isolation(false)]
    pub fn post_ciphers_import(&mut self, data: ImportData, user: u64, policy_applies: bool, max_note_size: usize,
        now: Timestamp) -> (r: Result<Vec<u64>, CipherError>)
        requires
            old(self).wf(),
        ensures
            final(self).wf(),
            policy_applies ==> r == Err::<Vec<u64>, CipherError>(CipherError::PersonalOwnershipPolicy) && *final(self) == *old(self),
            !policy_applies && (exists|k: int| 0 <= k < data.ciphers@.len() && (#[trigger] data.ciphers@[k]).notes is Some
                && note_len(data.ciphers@[k].notes->Some_0) > max_note_size)
                ==> r == Err::<Vec<u64>, CipherError>(CipherError::NotesTooLong) && *final(self) == *old(self),
            r is Ok ==> r->Ok_0@.len() == data.ciphers@.len()
                && final(self).ciphers@.len() == old(self).ciphers@.len() + data.ciphers@.len()
                && forall|k: int| old(self).ciphers@.len() <= k < final(self).ciphers@.len()
                    ==> (#[trigger] final(self).ciphers@[k]).owner_exclusive(),
            spec_import_owed(*old(self), data, policy_applies, max_note_size) ==> r is Ok,
            r is Err ==> exists|k: int| #[trigger] final(self).spec_import_prefix(*old(self), data.ciphers@, user, k),
            r is Ok ==> forall|k: int| 0 <= k < data.ciphers@.len() ==> {
                let c = #[trigger] final(self).ciphers@[old(self).ciphers@.len() + k];
                &&& c.uuid == r->Ok_0@[k]
                &&& c.name == data.ciphers@[k].name
                &&& c.organization_uuid == data.ciphers@[k].organization_id
                &&& data.ciphers@[k].organization_id is None ==> c.user_uuid == Some(user)
            },
    {
        if policy_applies {
            assert(self.ciphers@.subrange(0, self.ciphers@.len() as int) =~= self.ciphers@);
            assert(self.spec_import_prefix(*old(self), data.ciphers@, user, 0));
            return Err(CipherError::PersonalOwnershipPolicy);
        }
        let mut k: usize = 0;
        while k < data.ciphers.len()
            invariant
                k <= data.ciphers@.len(),
                *self == *old(self),
                forall|q: int| 0 <= q < k ==> !((#[trigger] data.ciphers@[q]).notes is Some
                    && note_len(data.ciphers@[q].notes->Some_0) > max_note_size),
            decreases data.ciphers@.len() - k,
        {
            match &data.ciphers[k].notes {
                Some(n) => if n.as_str().len() > max_note_size {
                    assert(self.ciphers@.subrange(0, self.ciphers@.len() as int) =~= self.ciphers@);
            assert(self.spec_import_prefix(*old(self), data.ciphers@, user, 0));
            return Err(CipherError::NotesTooLong);
                },
                None => {},
            }
            k = k + 1;
        }
        let mut k: usize = 0;
        while k < data.folder_relationships.len()
            invariant
                k <= data.folder_relationships@.len(),
                *self == *old(self),
                forall|q: int| 0 <= q < k ==> (#[trigger] data.folder_relationships@[q]).1 < data.folders@.len(),
            decreases data.folder_relationships@.len() - k,
        {
            if data.folder_relationships[k].1 >= data.folders.len() {
                assert(self.ciphers@.subrange(0, self.ciphers@.len() as int) =~= self.ciphers@);
            assert(self.spec_import_prefix(*old(self), data.ciphers@, user, 0));
            return Err(CipherError::InvalidFolderRelation);
            }
            k = k + 1;
        }
        let ImportData { ciphers, folders, folder_relationships } = data;
        let ghost owed = spec_import_owed(*old(self), data, policy_applies, max_note_size);
        let mut folder_ids: Vec<u64> = Vec::new();
        let mut k: usize = 0;
        while k < folders.len()
            invariant
                k <= folders@.len(),
                folders@ == data.folders@,
                folder_ids@.len() == k,
                self.wf(),
                self.ciphers@ == old(self).ciphers@,
                forall|j: int| 0 <= j < k ==> self.spec_folder_of_user(#[trigger] folder_ids@[j], user),
                owed ==> forall|j: int| 0 <= j < self.folders@.len()
                    ==> (#[trigger] self.folders@[j]).uuid + (folders@.len() - k) < u64::MAX,
            decreases folders@.len() - k,
        {
            let ghost f0 = self.folders@;
            if self.user_has_folder(folders[k].id, user) {
                folder_ids.push(folders[k].id.unwrap());
            } else {
                let id = match self.fresh_folder_id() {
                    Some(id) => id,
                    None => {
                        proof {
                            if owed {
                                let j = choose|j: int| 0 <= j < self.folders@.len() && #[trigger] self.folders@[j].uuid == u64::MAX;
                                assert(self.folders@[j].uuid + (folders@.len() - k) < u64::MAX);
                            }
                        }
                        assert(self.ciphers@ =~= old(self).ciphers@.subrange(0, old(self).ciphers@.len() as int));
                        assert(self.ciphers@.subrange(0, self.ciphers@.len() as int) =~= self.ciphers@);
            assert(self.spec_import_prefix(*old(self), data.ciphers@, user, 0));
                        return Err(CipherError::IdsExhausted);
                    },
                };
                proof {
                    if owed && id != 1 {
                        let j = choose|j: int| 0 <= j < self.folders@.len() && #[trigger] self.folders@[j].uuid == id - 1;
                        assert(self.folders@[j].uuid + (folders@.len() - k) < u64::MAX);
                    }
                    assert(owed ==> id + (folders@.len() - (k + 1)) < u64::MAX);
                }
                self.folders.push(Folder { uuid: id, user_uuid: user, name: folders[k].name.clone() });
                folder_ids.push(id);
                proof {
                    assert(self.folders@[f0.len() as int].uuid == id);
                }
            }
            proof {
                assert forall|j: int| 0 <= j < k + 1 implies self.spec_folder_of_user(#[trigger] folder_ids@[j], user) by {
                    if j < k {
                        let i = choose|i: int| 0 <= i < f0.len() && #[trigger] f0[i].uuid == folder_ids@[j] && f0[i].user_uuid == user;
                        assert(self.folders@[i] == f0[i]);
                    }
                }
                assert forall|j: int| 0 <= j < self.folders@.len() implies owed ==>
                    (#[trigger] self.folders@[j]).uuid + (folders@.len() - (k + 1)) < u64::MAX by {
                    if j < f0.len() {
                        assert(self.folders@[j] == f0[j]);
                    } else {
                        assert(self.folders@[j].uuid == folder_ids@[k as int]);
                    }
                }
            }
            k = k + 1;
        }
        let mut created: Vec<u64> = Vec::new();
        let ghost d = data.ciphers@;
        let mut ciphers = ciphers;
        let mut reversed: Vec<CipherData> = Vec::new();
        while ciphers.len() > 0
            invariant
                reversed@.len() + ciphers@.len() == d.len(),
                ciphers@ == d.subrange(0, ciphers@.len() as int),
                forall|j: int| 0 <= j < reversed@.len() ==> #[trigger] reversed@[j] == d[d.len() - 1 - j],
            decreases ciphers@.len(),
        {
            let ghost c0 = ciphers@;
            let item = ciphers.pop().unwrap();
            assert(item == d[c0.len() - 1]);
            reversed.push(item);
            assert(ciphers@ =~= d.subrange(0, ciphers@.len() as int));
        }
        let ghost rev = reversed@;
        let ghost base = self.ciphers@.len();
        let mut index: usize = 0;
        while reversed.len() > 0
            invariant
                reversed@.len() + index == data.ciphers@.len(),
                created@.len() == index,
                self.wf(),
                self.ciphers@.len() == base + index,
                folder_ids@.len() == folders@.len(),
                forall|q: int| 0 <= q < folder_relationships@.len() ==> (#[trigger] folder_relationships@[q]).1 < folders@.len(),
                forall|q: int| old(self).ciphers@.len() <= q < self.ciphers@.len()
                    ==> (#[trigger] self.ciphers@[q]).owner_exclusive(),
                base == old(self).ciphers@.len(),
                forall|j: int| 0 <= j < folder_ids@.len() ==> self.spec_folder_of_user(#[trigger] folder_ids@[j], user),
                owed ==> forall|j: int| 0 <= j < self.ciphers@.len()
                    ==> (#[trigger] self.ciphers@[j]).uuid + (d.len() - index) < u64::MAX,
                reversed@ == rev.subrange(0, reversed@.len() as int),
                rev.len() == d.len(),
                forall|j: int| 0 <= j < rev.len() ==> #[trigger] rev[j] == d[d.len() - 1 - j],
                self.ciphers@.subrange(0, base as int) == old(self).ciphers@,
                forall|k: int| 0 <= k < index ==> {
                    let c = #[trigger] self.ciphers@[base + k];
                    &&& c.uuid == created@[k]
                    &&& c.name == d[k].name
                    &&& c.organization_uuid == d[k].organization_id
                    &&& d[k].organization_id is None ==> c.user_uuid == Some(user)
                },
            decreases reversed@.len(),
        {
            let ghost r0 = reversed@;
            let mut cipher_data = reversed.pop().unwrap();
            assert(cipher_data == rev[r0.len() - 1]);
            assert(cipher_data == d[index as int]);
            assert(reversed@ =~= rev.subrange(0, reversed@.len() as int));
            let mut folder: Option<u64> = None;
            let mut q: usize = 0;
            while q < folder_relationships.len()
                invariant
                    q <= folder_relationships@.len(),
                    folder is None || exists|j: int| 0 <= j < folder_ids@.len() && folder == Some(#[trigger] folder_ids@[j]),
                    folder_ids@.len() == folders@.len(),
                    forall|j: int| 0 <= j < folder_relationships@.len() ==> (#[trigger] folder_relationships@[j]).1 < folders@.len(),
                decreases folder_relationships@.len() - q,
            {
                if folder_relationships[q].0 == index {
                    folder = Some(folder_ids[folder_relationships[q].1]);
                }
                q = q + 1;
            }
            cipher_data.folder_id = folder;
            let id = match self.fresh_cipher_id() {
                Some(id) => id,
                None => {
                    proof {
                        if owed {
                            let j = choose|j: int| 0 <= j < self.ciphers@.len() && #[trigger] self.ciphers@[j].uuid == u64::MAX;
                            assert(self.ciphers@[j].uuid + (d.len() - index) < u64::MAX);
                        }
                    }
                    assert(self.spec_import_prefix(*old(self), d, user, index as int));
                    return Err(CipherError::IdsExhausted);
                },
            };
            proof {
                if owed && id != 1 {
                    let j = choose|j: int| 0 <= j < self.ciphers@.len() && #[trigger] self.ciphers@[j].uuid == id - 1;
                    assert(self.ciphers@[j].uuid + (d.len() - index) < u64::MAX);
                }
                assert(owed ==> id + (d.len() - (index + 1)) < u64::MAX);
            }
            let mut cipher = Cipher::new(cipher_data.atype, cipher_data.name.clone(), now);
            cipher.uuid = id;
            let ghost v0 = *self;
            proof {
                if owed {
                    assert(d[index as int].spec_payload() is Ok && d[index as int].organization_id is None);
                    assert(cipher_data.spec_payload() == d[index as int].spec_payload());
                    if folder is Some {
                        let j = choose|j: int| 0 <= j < folder_ids@.len() && folder == Some(#[trigger] folder_ids@[j]);
                        assert(v0.spec_folder_of_user(folder_ids@[j], user));
                    }
                    assert(spec_update_check(v0, cipher, cipher_data, user, false, UpdateType::Import, false, max_note_size) is Ok);
                }
            }
            match update_cipher_from_data(self, &mut cipher, cipher_data, user, &None, UpdateType::Import, false,
                max_note_size, now) {
                Ok(_) => {},
                Err(e) => {
                    assert(*self == v0);
                    assert(self.spec_import_prefix(*old(self), d, user, index as int));
                    return Err(e);
                },
            }
            assert(self.ciphers@ == v0.ciphers@);
            let ghost v1 = *self;
            self.add_cipher(cipher);
            proof {
                assert forall|j: int| 0 <= j < folder_ids@.len() implies self.spec_folder_of_user(#[trigger] folder_ids@[j], user) by {
                    assert(v0.spec_folder_of_user(folder_ids@[j], user));
                    let i = choose|i: int| 0 <= i < v0.folders@.len() && #[trigger] v0.folders@[i].uuid == folder_ids@[j]
                        && v0.folders@[i].user_uuid == user;
                    assert(self.folders@[i] == v0.folders@[i]);
                }
                assert(self.ciphers@.subrange(0, base as int) =~= v1.ciphers@.subrange(0, base as int));
                assert forall|j: int| 0 <= j < self.ciphers@.len() implies owed ==>
                    (#[trigger] self.ciphers@[j]).uuid + (d.len() - (index + 1)) < u64::MAX by {
                    if j < v1.ciphers@.len() {
                        assert(self.ciphers@[j] == v1.ciphers@[j]);
                    }
                }
            }
            created.push(id);
            index = index + 1;
        }
        Ok(created)
    }
}

} // verus!
