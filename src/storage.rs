//! Durable tables: lot records by id, and the set of registered identities.
//!
//! Both are stable B-tree maps, each in its own region of one memory, so
//! that the growth of one never overwrites the other.
use ic_stable_structures::memory_manager::{MemoryId, MemoryManager, VirtualMemory};
use ic_stable_structures::{DefaultMemoryImpl, StableBTreeMap};
use vstd::prelude::*;

verus! {

/// The region that holds the lot records.
pub const LOTS_REGION: u8 = 0;

/// The region that holds the registered identities.
pub const USERS_REGION: u8 = 1;

/// The two durable tables over one memory.
#[verifier::external_body]
pub struct Storage {
    memory: DefaultMemoryImpl,
    regions: (u8, u8),
    lots: StableBTreeMap<u64, Vec<u8>, VirtualMemory<DefaultMemoryImpl>>,
    users: StableBTreeMap<Vec<u8>, bool, VirtualMemory<DefaultMemoryImpl>>,
}

/// The records of the lots table, by lot id.
pub uninterp spec fn lot_records(s: Storage) -> Map<u64, Seq<u8>>;

/// The entries of the registered-identities table.
pub uninterp spec fn user_entries(s: Storage) -> Map<Seq<u8>, bool>;

impl Storage {
    /// Relies on `MemoryManager::init` and `StableBTreeMap::init`: the tables
    /// are loaded from what the host's memory already holds in the two
    /// regions, or made empty. `MemoryId::new` refuses the id 255.
    #[verifier::external_body]
    pub(crate) fn open(lots_region: u8, users_region: u8) -> (r: Storage)
        requires
            lots_region != users_region,
            lots_region < 255,
            users_region < 255,
    {
        let memory = DefaultMemoryImpl::default();
        let manager = MemoryManager::init(memory.clone());
        Storage {
            lots: StableBTreeMap::init(manager.get(MemoryId::new(lots_region))),
            users: StableBTreeMap::init(manager.get(MemoryId::new(users_region))),
            regions: (lots_region, users_region),
            memory,
        }
    }

    /// Relies on `MemoryManager::init` and `StableBTreeMap::init` loading the
    /// layout that they find: the tables read back from the same memory hold
    /// what they held before.
    #[verifier::external_body]
    pub(crate) fn reopen(self) -> (r: Storage)
        ensures
            lot_records(r) == lot_records(self),
            user_entries(r) == user_entries(self),
    {
        let (memory, regions) = (self.memory, self.regions);
        let manager = MemoryManager::init(memory.clone());
        Storage {
            lots: StableBTreeMap::init(manager.get(MemoryId::new(regions.0))),
            users: StableBTreeMap::init(manager.get(MemoryId::new(regions.1))),
            regions,
            memory,
        }
    }

    /// Relies on `StableBTreeMap::get`: the value stored under `id`, if any.
    #[verifier::external_body]
    pub(crate) fn lot_record(&self, id: u64) -> (r: Option<Vec<u8>>)
        ensures
            match r {
                Some(v) => lot_records(*self).contains_key(id) && v@ == lot_records(*self)[id],
                None => !lot_records(*self).contains_key(id),
            },
    {
        self.lots.get(&id)
    }

    /// Relies on `StableBTreeMap::insert`: afterwards `id` maps to `record`
    /// and the other entries are unchanged.
    #[verifier::external_body]
    pub(crate) fn put_lot_record(&mut self, id: u64, record: Vec<u8>)
        ensures
            lot_records(*final(self)) == lot_records(*old(self)).insert(id, record@),
            user_entries(*final(self)) == user_entries(*old(self)),
    {
        self.lots.insert(id, record);
    }

    /// Relies on `StableBTreeMap::iter`: every entry once, by ascending key.
    #[verifier::external_body]
    pub(crate) fn lot_entries(&self) -> (r: Vec<(u64, Vec<u8>)>)
        ensures
            forall|i: int, j: int| 0 <= i < j < r@.len() ==> r@[i].0 < r@[j].0,
            forall|i: int|
                0 <= i < r@.len() ==> lot_records(*self).contains_key(#[trigger] r@[i].0)
                    && r@[i].1@ == lot_records(*self)[r@[i].0],
            forall|k: u64|
                lot_records(*self).contains_key(k) ==> exists|i: int|
                    0 <= i < r@.len() && #[trigger] r@[i].0 == k,
    {
        self.lots.iter().map(|e| e.into_pair()).collect()
    }

    /// Relies on `StableBTreeMap::contains_key`.
    #[verifier::external_body]
    pub(crate) fn has_user(&self, who: &Vec<u8>) -> (r: bool)
        ensures
            r == user_entries(*self).contains_key(who@),
    {
        self.users.contains_key(who)
    }

    /// Relies on `StableBTreeMap::insert`: afterwards `who` maps to `flag`
    /// and the other entries are unchanged.
    #[verifier::external_body]
    pub(crate) fn put_user(&mut self, who: Vec<u8>, flag: bool)
        ensures
            user_entries(*final(self)) == user_entries(*old(self)).insert(who@, flag),
            lot_records(*final(self)) == lot_records(*old(self)),
    {
        self.users.insert(who, flag);
    }
}

} // verus!
