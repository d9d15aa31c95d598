use vstd::prelude::*;
use vstd::utf8::encode_utf8;
use crate::byte_order::bytes_lt;
use crate::key_codec::{
    encode_key, key_bytes, lemma_key_bytes_injective, lemma_key_round_trip,
    lemma_parse_key_sound, lemma_same_owner_order, parse_key, KEY_MAX_SIZE,
};
use crate::payload::{payload_value, reads_back};
use crate::region_map::{region_contents, RegionMap};
use crate::vault_types::{
    KeyView, StoreError, UserId, VaultData, VaultDataView, VaultId, VaultKey,
};

verus! {

/// The region that holds the map of vaults.
pub const VAULTS_REGION: u8 = 0;

/// Mathematical value of one entry of a batch: owner id, vault id, vault.
pub type ChangeView = (Seq<char>, Seq<char>, VaultDataView);

/// Every stored key is the encoding of a key and fits the codec's bound,
/// and every stored value is the encoding of a vault.
pub open spec fn well_formed(contents: Map<Seq<u8>, Seq<u8>>) -> bool {
    forall|kb: Seq<u8>| #[trigger]
        contents.dom().contains(kb) ==> parse_key(kb) is Some && kb.len() <= KEY_MAX_SIZE
            && payload_value(contents[kb]) is Some
}

/// The stored vaults by key, read off the raw entries.
pub open spec fn stored_vaults(contents: Map<Seq<u8>, Seq<u8>>) -> Map<KeyView, VaultDataView> {
    Map::new(
        |k: KeyView| contents.dom().contains(key_bytes(k)),
        |k: KeyView| payload_value(contents[key_bytes(k)]).unwrap(),
    )
}

/// The byte string `kb` is the encoding of a key of owner `user`.
pub open spec fn owner_is(kb: Seq<u8>, user: Seq<char>) -> bool {
    parse_key(kb) matches Some(k) && k.0 == user
}

/// The vaults of one owner, by vault id.
pub open spec fn vaults_of(vaults: Map<KeyView, VaultDataView>, user: Seq<char>) -> Map<
    Seq<char>,
    VaultDataView,
> {
    Map::new(
        |v: Seq<char>| vaults.dom().contains((user, v)),
        |v: Seq<char>| vaults[(user, v)],
    )
}

/// The owner has at least one vault.
pub open spec fn has_user(vaults: Map<KeyView, VaultDataView>, user: Seq<char>) -> bool {
    exists|v: Seq<char>| #[trigger] vaults.dom().contains((user, v))
}

/// The store after an upsert is asked for: the key holds the vault where
/// the upsert is accepted; otherwise nothing changes.
pub open spec fn upserted(vaults: Map<KeyView, VaultDataView>, key: KeyView, data: VaultDataView) -> Map<
    KeyView,
    VaultDataView,
> {
    if upsert_error(key, data) is None {
        vaults.insert(key, data)
    } else {
        vaults
    }
}

/// Why an upsert is refused, if it is: the encoded key is over its bound,
/// or the vault has no encoding that reads back as the vault.
pub open spec fn upsert_error(key: KeyView, data: VaultDataView) -> Option<StoreError> {
    if key_bytes(key).len() > KEY_MAX_SIZE {
        Some(StoreError::CapacityExceeded)
    } else if !reads_back(data) {
        Some(StoreError::EncodeFailure)
    } else {
        None
    }
}

/// The store without the vaults of one owner.
pub open spec fn without_user(vaults: Map<KeyView, VaultDataView>, user: Seq<char>) -> Map<
    KeyView,
    VaultDataView,
> {
    Map::new(|k: KeyView| vaults.dom().contains(k) && k.0 != user, |k: KeyView| vaults[k])
}

/// The store after the upserts of a batch, applied in the batch's order.
pub open spec fn applied(vaults: Map<KeyView, VaultDataView>, changes: Seq<ChangeView>) -> Map<
    KeyView,
    VaultDataView,
>
    decreases changes.len(),
{
    if changes.len() == 0 {
        vaults
    } else {
        upserted(
            applied(vaults, changes.drop_last()),
            (changes.last().0, changes.last().1),
            changes.last().2,
        )
    }
}

/// The mathematical value of a batch.
pub open spec fn changes_view(changes: Seq<(UserId, VaultId, VaultData)>) -> Seq<ChangeView> {
    changes.map_values(|c: (UserId, VaultId, VaultData)| (c.0@, c.1@, c.2@))
}

/// `list` holds each vault of `vaults` once, with its id, in ascending order
/// of the vault ids.
pub open spec fn is_listing(
    vaults: Map<Seq<char>, VaultDataView>,
    list: Seq<(VaultId, VaultData)>,
) -> bool {
    &&& forall|i: int|
        0 <= i < list.len() ==> vaults.dom().contains((#[trigger] list[i]).0@)
            && vaults[list[i].0@] == list[i].1@
    &&& forall|v: Seq<char>| #[trigger]
        vaults.dom().contains(v) ==> exists|i: int|
            0 <= i < list.len() && (#[trigger] list[i]).0@ == v
    &&& forall|i: int, j: int|
        0 <= i < j < list.len() ==> bytes_lt(
            encode_utf8((#[trigger] list[i]).0@),
            encode_utf8((#[trigger] list[j]).0@),
        )
}

proof fn lemma_stored_insert(contents: Map<Seq<u8>, Seq<u8>>, k: KeyView, b: Seq<u8>)
    ensures
        stored_vaults(contents.insert(key_bytes(k), b)) == stored_vaults(contents).insert(
            k,
            payload_value(b).unwrap(),
        ),
{
    let lhs = stored_vaults(contents.insert(key_bytes(k), b));
    let rhs = stored_vaults(contents).insert(k, payload_value(b).unwrap());
    assert forall|k2: KeyView| lhs.dom().contains(k2) == rhs.dom().contains(k2) by {
        if key_bytes(k2) == key_bytes(k) {
            lemma_key_bytes_injective(k2, k);
        }
    }
    assert forall|k2: KeyView| lhs.dom().contains(k2) implies lhs[k2] == rhs[k2] by {
        if key_bytes(k2) == key_bytes(k) {
            lemma_key_bytes_injective(k2, k);
        }
    }
    assert(lhs =~= rhs);
}

proof fn lemma_stored_remove(contents: Map<Seq<u8>, Seq<u8>>, k: KeyView)
    ensures
        stored_vaults(contents.remove(key_bytes(k))) == stored_vaults(contents).remove(k),
{
    let lhs = stored_vaults(contents.remove(key_bytes(k)));
    let rhs = stored_vaults(contents).remove(k);
    assert forall|k2: KeyView| lhs.dom().contains(k2) == rhs.dom().contains(k2) by {
        if key_bytes(k2) == key_bytes(k) {
            lemma_key_bytes_injective(k2, k);
        }
    }
    assert(lhs =~= rhs);
}

/// The persistent store of vaults: an ordered map from encoded keys to
/// encoded vaults in one region of stable memory. Its value is the map
/// from keys to vaults that the entries encode.
pub struct VaultStore {
    map: RegionMap,
}

impl VaultStore {
    /// The raw entries of the underlying map.
    pub closed spec fn raw(&self) -> Map<Seq<u8>, Seq<u8>> {
        region_contents(self.map)
    }

    /// The store's invariant.
    pub open spec fn wf(&self) -> bool {
        well_formed(self.raw())
    }

    /// The stored vaults by key.
    pub open spec fn view(&self) -> Map<KeyView, VaultDataView> {
        stored_vaults(self.raw())
    }

    /// A store that holds nothing, in a region written afresh.
    pub fn new() -> (s: VaultStore)
        ensures
            s.wf(),
            s@ == (Map::<KeyView, VaultDataView>::empty()),
    {
        let s = VaultStore { map: RegionMap::create(VAULTS_REGION) };
        assert(s@ =~= Map::<KeyView, VaultDataView>::empty());
        s
    }

    /// Takes a map as the store's own after checking every entry of it:
    /// `DecodeFailure` where a key is not the encoding of a key within the
    /// codec's bound, or a value not the encoding of a vault.
    pub fn from_region(map: RegionMap) -> (r: Result<VaultStore, StoreError>)
        ensures
            match r {
                Ok(s) => s.wf() && s.raw() == region_contents(map),
                Err(e) => e == StoreError::DecodeFailure && !well_formed(region_contents(map)),
            },
    {
        let entries = map.entries();
        let mut i: usize = 0;
        while i < entries.len()
            invariant
                i <= entries.len(),
                forall|e: int|
                    0 <= e < entries@.len() ==> region_contents(map).dom().contains(
                        (#[trigger] entries@[e]).0@,
                    ) && region_contents(map)[entries@[e].0@] == entries@[e].1@,
                forall|k: Seq<u8>|
                    region_contents(map).dom().contains(k) ==> exists|e: int|
                        0 <= e < entries@.len() && (#[trigger] entries@[e]).0@ == k,
                forall|e: int|
                    0 <= e < i ==> parse_key((#[trigger] entries@[e]).0@) is Some
                        && entries@[e].0@.len() <= KEY_MAX_SIZE && payload_value(
                        entries@[e].1@,
                    ) is Some,
            decreases entries.len() - i,
        {
            let entry = &entries[i];
            assert(region_contents(map).dom().contains(entries@[i as int].0@));
            if entry.0.len() > KEY_MAX_SIZE {
                return Err(StoreError::DecodeFailure);
            }
            match VaultKey::from_bytes(&entry.0) {
                Ok(_) => {},
                Err(_) => {
                    return Err(StoreError::DecodeFailure);
                },
            }
            match VaultData::from_bytes(&entry.1) {
                Ok(_) => {},
                Err(_) => {
                    return Err(StoreError::DecodeFailure);
                },
            }
            i += 1;
        }
        Ok(VaultStore { map })
    }

    /// Opens the store on what its region holds: the persisted vaults, or
    /// nothing where none were persisted. Fails with `DecodeFailure` where
    /// the region holds an entry that is no key with its vault.
    pub fn open() -> (r: Result<VaultStore, StoreError>)
        ensures
            match r {
                Ok(s) => s.wf(),
                Err(e) => e == StoreError::DecodeFailure,
            },
    {
        VaultStore::from_region(RegionMap::load(VAULTS_REGION))
    }

    /// Inserts the vault under `(user_id, vault_id)`, or replaces the one
    /// that is there. Refused, with the store unchanged, where the key does
    /// not fit its bound (`CapacityExceeded`) or the vault has no encoding
    /// that reads back as the vault (`EncodeFailure`).
    pub fn add_or_update_vault(&mut self, user_id: UserId, vault_id: VaultId, vault: VaultData) -> (r:
        Result<(), StoreError>)
        requires
            old(self).wf(),
        ensures
            final(self).wf(),
            final(self)@ == upserted(old(self)@, (user_id@, vault_id@), vault@),
            match upsert_error((user_id@, vault_id@), vault@) {
                Some(e) => r == Err::<(), StoreError>(e),
                None => r is Ok,
            },
    {
        let kb = match encode_key(&user_id, &vault_id) {
            Ok(kb) => kb,
            Err(e) => {
                return Err(e);
            },
        };
        let pb = match vault.to_bytes() {
            Ok(pb) => pb,
            Err(e) => {
                return Err(e);
            },
        };
        proof {
            lemma_key_round_trip((user_id@, vault_id@));
            lemma_stored_insert(self.raw(), (user_id@, vault_id@), pb@);
        }
        self.map.insert(kb, pb);
        Ok(())
    }

    /// The vault stored under `(user_id, vault_id)`, or nothing where the
    /// key is absent.
    pub fn get_vault(&self, user_id: UserId, vault_id: VaultId) -> (r: Option<VaultData>)
        requires
            self.wf(),
        ensures
            match r {
                Some(d) => self@.dom().contains((user_id@, vault_id@)) && self@[(
                    user_id@,
                    vault_id@,
                )] == d@,
                None => !self@.dom().contains((user_id@, vault_id@)),
            },
    {
        let kb = match encode_key(&user_id, &vault_id) {
            Ok(kb) => kb,
            Err(_) => {
                return None;
            },
        };
        match self.map.get(&kb) {
            None => None,
            Some(pb) => match VaultData::from_bytes(&pb) {
                Ok(d) => Some(d),
                Err(_) => {
                    assert(false);
                    None
                },
            },
        }
    }

    /// All vaults of `user_id`, each with its id, in ascending order of
    /// the ids.
    pub fn get_all_vaults_for_user(&self, user_id: UserId) -> (r: Vec<(VaultId, VaultData)>)
        requires
            self.wf(),
        ensures
            is_listing(vaults_of(self@, user_id@), r@),
    {
        let entries = self.map.entries();
        let ghost u = user_id@;
        let mut out: Vec<(VaultId, VaultData)> = Vec::new();
        let ghost mut idx: Seq<int> = Seq::empty();
        let mut i: usize = 0;
        while i < entries.len()
            invariant
                i <= entries.len(),
                self.wf(),
                u == user_id@,
                idx.len() == out@.len(),
                forall|e: int|
                    0 <= e < entries@.len() ==> region_contents(self.map).dom().contains(
                        (#[trigger] entries@[e]).0@,
                    ) && region_contents(self.map)[entries@[e].0@] == entries@[e].1@,
                forall|j: int|
                    0 <= j < idx.len() ==> 0 <= #[trigger] idx[j] < i && entries@[idx[j]].0@
                        == key_bytes((u, out@[j].0@)) && payload_value(entries@[idx[j]].1@)
                        == Some(out@[j].1@),
                forall|j1: int, j2: int|
                    0 <= j1 < j2 < idx.len() ==> #[trigger] idx[j1] < #[trigger] idx[j2],
                forall|e: int|
                    0 <= e < i && owner_is((#[trigger] entries@[e]).0@, u) ==> idx.contains(e),
            decreases entries.len() - i,
        {
            let entry = &entries[i];
            let ghost kb = entries@[i as int].0@;
            assert(region_contents(self.map).dom().contains(kb));
            proof {
                lemma_parse_key_sound(kb);
            }
            match VaultKey::from_bytes(&entry.0) {
                Err(_) => {
                    assert(false);
                },
                Ok(key) => {
                    if key.user_id == user_id {
                        match VaultData::from_bytes(&entry.1) {
                            Err(_) => {
                                assert(false);
                            },
                            Ok(data) => {
                                let ghost old_idx = idx;
                                out.push((key.vault_id, data));
                                proof {
                                    idx = idx.push(i as int);
                                    assert forall|e: int|
                                        0 <= e < i + 1 && owner_is(
                                            (#[trigger] entries@[e]).0@,
                                            u,
                                        ) implies idx.contains(e) by {
                                        if e < i {
                                            assert(old_idx.contains(e));
                                            let j = choose|j: int|
                                                0 <= j < old_idx.len() && old_idx[j] == e;
                                            assert(idx[j] == e);
                                        } else {
                                            assert(idx[idx.len() - 1] == e);
                                        }
                                    }
                                }
                            },
                        }
                    }
                },
            }
            i += 1;
        }
        proof {
            let w = vaults_of(self@, u);
            let list = out@;
            assert forall|j: int| 0 <= j < list.len() implies w.dom().contains(
                (#[trigger] list[j]).0@,
            ) && w[list[j].0@] == list[j].1@ by {
                let e = idx[j];
                assert(region_contents(self.map).dom().contains(entries@[e].0@));
            }
            assert forall|v: Seq<char>| #[trigger] w.dom().contains(v) implies exists|j: int|
                0 <= j < list.len() && (#[trigger] list[j]).0@ == v by {
                let kb = key_bytes((u, v));
                assert(region_contents(self.map).dom().contains(kb));
                let e = choose|e: int| 0 <= e < entries@.len() && (#[trigger] entries@[e]).0@ == kb;
                lemma_key_round_trip((u, v));
                assert(owner_is(entries@[e].0@, u));
                assert(idx.contains(e));
                let j = choose|j: int| 0 <= j < idx.len() && idx[j] == e;
                lemma_key_bytes_injective((u, list[j].0@), (u, v));
            }
            assert forall|j1: int, j2: int| 0 <= j1 < j2 < list.len() implies bytes_lt(
                encode_utf8((#[trigger] list[j1]).0@),
                encode_utf8((#[trigger] list[j2]).0@),
            ) by {
                assert(idx[j1] < idx[j2]);
                assert(bytes_lt(entries@[idx[j1]].0@, entries@[idx[j2]].0@));
                lemma_same_owner_order(u, list[j1].0@, list[j2].0@);
            }
        }
        out
    }

    /// Whether `user_id` has at least one vault. Walks the keys until one
    /// of this owner is found.
    pub fn user_exists(&self, user_id: UserId) -> (r: bool)
        requires
            self.wf(),
        ensures
            r == has_user(self@, user_id@),
    {
        let keys = self.map.keys();
        let ghost u = user_id@;
        let mut i: usize = 0;
        while i < keys.len()
            invariant
                i <= keys.len(),
                self.wf(),
                u == user_id@,
                forall|e: int|
                    0 <= e < keys@.len() ==> region_contents(self.map).dom().contains(
                        (#[trigger] keys@[e])@,
                    ),
                forall|e: int| 0 <= e < i ==> !owner_is((#[trigger] keys@[e])@, u),
            decreases keys.len() - i,
        {
            let entry = &keys[i];
            let ghost kb = keys@[i as int]@;
            assert(region_contents(self.map).dom().contains(kb));
            proof {
                lemma_parse_key_sound(kb);
            }
            match VaultKey::from_bytes(entry) {
                Err(_) => {
                    assert(false);
                },
                Ok(key) => {
                    if key.user_id == user_id {
                        assert(self@.dom().contains((u, key.vault_id@)));
                        return true;
                    }
                },
            }
            i += 1;
        }
        proof {
            if has_user(self@, u) {
                let v = choose|v: Seq<char>| #[trigger] self@.dom().contains((u, v));
                let kb = key_bytes((u, v));
                assert(region_contents(self.map).dom().contains(kb));
                let e = choose|e: int| 0 <= e < keys@.len() && (#[trigger] keys@[e])@ == kb;
                lemma_key_round_trip((u, v));
                assert(owner_is(keys@[e]@, u));
            }
        }
        false
    }

    /// Removes the vault under `(user_id, vault_id)`; nothing changes
    /// where there is none.
    pub fn delete_vault(&mut self, user_id: UserId, vault_id: VaultId)
        requires
            old(self).wf(),
        ensures
            final(self).wf(),
            final(self)@ == old(self)@.remove((user_id@, vault_id@)),
    {
        match encode_key(&user_id, &vault_id) {
            Ok(kb) => {
                proof {
                    lemma_stored_remove(self.raw(), (user_id@, vault_id@));
                }
                self.map.remove(&kb);
            },
            Err(_) => {
                assert(self@ =~= self@.remove((user_id@, vault_id@)));
            },
        }
    }

    /// Removes every vault of `user_id`: first the owner's keys are
    /// collected from a walk over all keys, then each is removed.
    pub fn clear_all_user_vaults(&mut self, user_id: UserId)
        requires
            old(self).wf(),
        ensures
            final(self).wf(),
            final(self)@ == without_user(old(self)@, user_id@),
    {
        let ghost u = user_id@;
        let ghost c0 = self.raw();
        let keys = self.map.keys();
        let mut keys_to_delete: Vec<Vec<u8>> = Vec::new();
        let mut i: usize = 0;
        while i < keys.len()
            invariant
                i <= keys.len(),
                self.wf(),
                u == user_id@,
                c0 == self.raw(),
                forall|e: int|
                    0 <= e < keys@.len() ==> c0.dom().contains((#[trigger] keys@[e])@),
                forall|t: int|
                    0 <= t < keys_to_delete@.len() ==> owner_is((#[trigger] keys_to_delete@[t])@, u),
                forall|e: int|
                    0 <= e < i && owner_is((#[trigger] keys@[e])@, u) ==> exists|t: int|
                        0 <= t < keys_to_delete@.len() && (#[trigger] keys_to_delete@[t])@
                            == keys@[e]@,
            decreases keys.len() - i,
        {
            let entry = &keys[i];
            let ghost kb = keys@[i as int]@;
            assert(c0.dom().contains(kb));
            match VaultKey::from_bytes(entry) {
                Err(_) => {
                    assert(false);
                },
                Ok(key) => {
                    if key.user_id == user_id {
                        let ghost before = keys_to_delete@;
                        let copy = copy_bytes(entry);
                        keys_to_delete.push(copy);
                        proof {
                            assert forall|e: int|
                                0 <= e < i + 1 && owner_is(
                                    (#[trigger] keys@[e])@,
                                    u,
                                ) implies exists|t: int|
                                0 <= t < keys_to_delete@.len() && (#[trigger] keys_to_delete@[t])@
                                    == keys@[e]@ by {
                                if e < i {
                                    let t = choose|t: int|
                                        0 <= t < before.len() && (#[trigger] before[t])@
                                            == keys@[e]@;
                                    assert(keys_to_delete@[t]@ == keys@[e]@);
                                } else {
                                    assert(keys_to_delete@[keys_to_delete@.len() - 1]@
                                        == keys@[e]@);
                                }
                            }
                        }
                    }
                },
            }
            i += 1;
        }
        let ghost mut removed: Set<Seq<u8>> = Set::empty();
        let mut j: usize = 0;
        assert(self.raw() =~= c0.remove_keys(removed));
        while j < keys_to_delete.len()
            invariant
                j <= keys_to_delete.len(),
                self.raw() == c0.remove_keys(removed),
                forall|kb: Seq<u8>| #[trigger] removed.contains(kb) ==> owner_is(kb, u),
                forall|t: int| 0 <= t < j ==> removed.contains((#[trigger] keys_to_delete@[t])@),
                forall|t: int|
                    0 <= t < keys_to_delete@.len() ==> owner_is((#[trigger] keys_to_delete@[t])@, u),
            decreases keys_to_delete.len() - j,
        {
            let ghost kb = keys_to_delete@[j as int]@;
            self.map.remove(&keys_to_delete[j]);
            proof {
                removed = removed.insert(kb);
                assert(self.raw() =~= c0.remove_keys(removed));
            }
            j += 1;
        }
        proof {
            let lhs = self@;
            let rhs = without_user(stored_vaults(c0), u);
            assert forall|k: KeyView| lhs.dom().contains(k) == rhs.dom().contains(k) by {
                lemma_key_round_trip(k);
                let kb = key_bytes(k);
                if c0.dom().contains(kb) && k.0 == u {
                    let e = choose|e: int|
                        0 <= e < keys@.len() && (#[trigger] keys@[e])@ == kb;
                    assert(owner_is(keys@[e]@, u));
                    let t = choose|t: int|
                        0 <= t < keys_to_delete@.len() && (#[trigger] keys_to_delete@[t])@
                            == keys@[e]@;
                    assert(removed.contains(keys_to_delete@[t]@));
                }
            }
            assert(lhs =~= rhs);
        }
    }

    /// Applies the upserts of a batch in its order, all or none: where an
    /// entry would be refused alone, the first such entry's error is
    /// returned and the store is unchanged.
    pub fn apply_config_changes(&mut self, changes: Vec<(UserId, VaultId, VaultData)>) -> (r:
        Result<(), StoreError>)
        requires
            old(self).wf(),
        ensures
            final(self).wf(),
            match r {
                Ok(_) => final(self)@ == applied(old(self)@, changes_view(changes@))
                    && forall|i: int|
                    0 <= i < changes@.len() ==> upsert_error(
                        ((#[trigger] changes@[i]).0@, changes@[i].1@),
                        changes@[i].2@,
                    ) is None,
                Err(e) => final(self)@ == old(self)@ && exists|i: int|
                    0 <= i < changes@.len() && upsert_error(
                        ((#[trigger] changes@[i]).0@, changes@[i].1@),
                        changes@[i].2@,
                    ) == Some(e) && forall|j: int|
                        0 <= j < i ==> upsert_error(
                            ((#[trigger] changes@[j]).0@, changes@[j].1@),
                            changes@[j].2@,
                        ) is None,
            },
    {
        let ghost cv = changes_view(changes@);
        let ghost v0 = self@;
        let mut encoded: Vec<(Vec<u8>, Vec<u8>)> = Vec::new();
        let mut i: usize = 0;
        while i < changes.len()
            invariant
                i <= changes.len(),
                self.wf(),
                self@ == v0,
                encoded@.len() == i,
                forall|j: int|
                    0 <= j < i ==> upsert_error(
                        ((#[trigger] changes@[j]).0@, changes@[j].1@),
                        changes@[j].2@,
                    ) is None,
                forall|j: int|
                    0 <= j < i ==> (#[trigger] encoded@[j]).0@ == key_bytes(
                        (changes@[j].0@, changes@[j].1@),
                    ) && payload_value(encoded@[j].1@) == Some(changes@[j].2@),
            decreases changes.len() - i,
        {
            let change = &changes[i];
            let kb = match encode_key(&change.0, &change.1) {
                Ok(kb) => kb,
                Err(e) => {
                    return Err(e);
                },
            };
            let pb = match change.2.to_bytes() {
                Ok(pb) => pb,
                Err(e) => {
                    return Err(e);
                },
            };
            encoded.push((kb, pb));
            i += 1;
        }
        let mut j: usize = 0;
        assert(cv.take(0) =~= Seq::<ChangeView>::empty());
        while j < encoded.len()
            invariant
                j <= encoded.len(),
                encoded@.len() == changes@.len(),
                cv == changes_view(changes@),
                self.wf(),
                self@ == applied(v0, cv.take(j as int)),
                forall|t: int|
                    0 <= t < changes@.len() ==> upsert_error(
                        ((#[trigger] changes@[t]).0@, changes@[t].1@),
                        changes@[t].2@,
                    ) is None,
                forall|t: int|
                    0 <= t < encoded@.len() ==> (#[trigger] encoded@[t]).0@ == key_bytes(
                        (changes@[t].0@, changes@[t].1@),
                    ) && payload_value(encoded@[t].1@) == Some(changes@[t].2@),
            decreases encoded.len() - j,
        {
            let kb = copy_bytes(&encoded[j].0);
            let pb = copy_bytes(&encoded[j].1);
            proof {
                let k = (changes@[j as int].0@, changes@[j as int].1@);
                assert(encoded@[j as int].0@ == key_bytes(k));
                lemma_key_round_trip(k);
                lemma_stored_insert(self.raw(), k, pb@);
                assert(cv.take(j + 1).drop_last() =~= cv.take(j as int));
                assert(cv.take(j + 1).last() == cv[j as int]);
                assert(cv[j as int] == (changes@[j as int].0@, changes@[j as int].1@, changes@[j as int].2@));
            }
            self.map.insert(kb, pb);
            j += 1;
        }
        assert(cv.take(j as int) =~= cv);
        Ok(())
    }
}

/// A copy of a byte string.
fn copy_bytes(bytes: &Vec<u8>) -> (r: Vec<u8>)
    ensures
        r@ == bytes@,
{
    let mut r: Vec<u8> = Vec::new();
    let mut i: usize = 0;
    while i < bytes.len()
        invariant
            i <= bytes.len(),
            r@ == bytes@.take(i as int),
        decreases bytes.len() - i,
    {
        r.push(bytes[i]);
        assert(r@ =~= bytes@.take(i + 1));
        i += 1;
    }
    assert(bytes@.take(i as int) =~= bytes@);
    r
}

} // verus!
