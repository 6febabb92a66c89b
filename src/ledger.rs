//! The ledger service: registration, lot creation, status updates and reads.
use crate::codec::{
    lemma_lot_round_trip, lot_fits, parse_lot, CoffeeLot, LotV, Update, UpdateV,
};
use crate::storage::{lot_records, user_entries, Storage, LOTS_REGION, USERS_REGION};
use vstd::prelude::*;

verus! {

/// Why a ledger operation did not take effect.
#[derive(Debug, PartialEq, Eq, Structural)]
pub enum LedgerError {
    /// The caller was never registered.
    Unauthorized,
    /// No lot has the given id.
    NotFound,
    /// The lot would no longer fit in one record.
    TooLarge,
    /// Every lot id has been handed out.
    IdsExhausted,
    /// A stored record is not the record of a consistent lot.
    Corrupt,
}

/// The status of a lot that has no updates yet.
pub open spec fn harvested() -> Seq<char> {
    "Harvested"@
}

/// A stored lot agrees with its key, and its status mirrors its last update.
pub open spec fn lot_consistent(k: u64, l: LotV) -> bool {
    &&& l.id == k
    &&& l.updates.len() > 0 ==> l.status == l.updates.last().status
}

/// Every record decodes to a lot that is consistent with its key.
pub open spec fn records_consistent(records: Map<u64, Seq<u8>>) -> bool {
    forall|k: u64| #[trigger]
        records.contains_key(k) ==> parse_lot(records[k]) is Some && lot_consistent(
            k,
            parse_lot(records[k])->Some_0,
        )
}

/// The lots that the records hold, by id.
pub open spec fn lots_of(records: Map<u64, Seq<u8>>) -> Map<u64, LotV> {
    Map::new(|k: u64| records.contains_key(k), |k: u64| parse_lot(records[k])->Some_0)
}

/// The lot that `create_lot` makes.
pub open spec fn new_lot(
    id: u64,
    farmer: Seq<char>,
    harvest_date: Seq<char>,
    location: Seq<char>,
    now: u64,
) -> LotV {
    LotV {
        id,
        farmer,
        harvest_date,
        location,
        status: harvested(),
        updates: Seq::empty(),
        timestamp: now,
    }
}

/// `l` with `u` appended to its trail and its status set to that of `u`.
pub open spec fn with_update(l: LotV, u: UpdateV) -> LotV {
    LotV { status: u.status, updates: l.updates.push(u), ..l }
}

/// What `create_lot` stores, or why it stores nothing.
pub open spec fn create_result(
    users: Set<Seq<u8>>,
    next: Option<u64>,
    caller: Seq<u8>,
    farmer: Seq<char>,
    harvest_date: Seq<char>,
    location: Seq<char>,
    now: u64,
) -> Result<LotV, LedgerError> {
    if !users.contains(caller) {
        Err(LedgerError::Unauthorized)
    } else {
        match next {
            None => Err(LedgerError::IdsExhausted),
            Some(id) => {
                let l = new_lot(id, farmer, harvest_date, location, now);
                if lot_fits(l) {
                    Ok(l)
                } else {
                    Err(LedgerError::TooLarge)
                }
            },
        }
    }
}

/// What `append_update` stores under `lot_id`, or why it stores nothing.
pub open spec fn append_result(
    users: Set<Seq<u8>>,
    lots: Map<u64, LotV>,
    caller: Seq<u8>,
    lot_id: u64,
    status: Seq<char>,
    details: Seq<char>,
    now: u64,
) -> Result<LotV, LedgerError> {
    if !users.contains(caller) {
        Err(LedgerError::Unauthorized)
    } else if !lots.contains_key(lot_id) {
        Err(LedgerError::NotFound)
    } else {
        let l = with_update(
            lots[lot_id],
            UpdateV { status, details, timestamp: now, updated_by: caller },
        );
        if lot_fits(l) {
            Ok(l)
        } else {
            Err(LedgerError::TooLarge)
        }
    }
}

/// Every lot of `before` is still in `after`, with its trail as a prefix of
/// the trail it has there.
pub open spec fn trails_grow(before: Map<u64, LotV>, after: Map<u64, LotV>) -> bool {
    forall|k: u64| #[trigger]
        before.contains_key(k) ==> after.contains_key(k) && before[k].updates.len()
            <= after[k].updates.len() && after[k].updates.take(before[k].updates.len() as int)
            == before[k].updates
}

/// The lots, the registered identities and the next lot id.
pub struct Ledger {
    store: Storage,
    next_id: Option<u64>,
}

impl Ledger {
    /// The lots, by id.
    pub closed spec fn lots(&self) -> Map<u64, LotV> {
        lots_of(lot_records(self.store))
    }

    /// The registered identities.
    pub closed spec fn users(&self) -> Set<Seq<u8>> {
        user_entries(self.store).dom()
    }

    /// The id that the next lot gets; `None` once every id is taken.
    pub closed spec fn next_free(&self) -> Option<u64> {
        self.next_id
    }

    pub closed spec fn wf(&self) -> bool {
        &&& records_consistent(lot_records(self.store))
        &&& match self.next_id {
            Some(n) => forall|k: u64| #[trigger]
                lot_records(self.store).contains_key(k) ==> k < n,
            None => lot_records(self.store).contains_key(u64::MAX),
        }
    }

    /// Builds a ledger over `store`, checking every record and taking the
    /// next id one past the largest one stored.
    fn load(store: Storage) -> (r: Result<Ledger, LedgerError>)
        ensures
            match r {
                Ok(l) => l.wf() && l.lots() == lots_of(lot_records(store)) && l.users()
                    == user_entries(store).dom(),
                Err(e) => e == LedgerError::Corrupt && !records_consistent(lot_records(store)),
            },
    {
        let entries = store.lot_entries();
        let ghost records = lot_records(store);
        let mut next: Option<u64> = Some(0);
        let mut i: usize = 0;
        while i < entries.len()
            invariant
                records == lot_records(store),
                0 <= i <= entries@.len(),
                forall|a: int, b: int|
                    0 <= a < b < entries@.len() ==> entries@[a].0 < entries@[b].0,
                forall|a: int|
                    0 <= a < entries@.len() ==> records.contains_key(#[trigger] entries@[a].0)
                        && entries@[a].1@ == records[entries@[a].0],
                forall|k: u64|
                    records.contains_key(k) ==> exists|a: int|
                        0 <= a < entries@.len() && #[trigger] entries@[a].0 == k,
                forall|a: int|
                    0 <= a < i ==> parse_lot(#[trigger] entries@[a].1@) is Some && lot_consistent(
                        entries@[a].0,
                        parse_lot(entries@[a].1@)->Some_0,
                    ),
                match next {
                    Some(n) => forall|a: int| 0 <= a < i ==> #[trigger] entries@[a].0 < n,
                    None => records.contains_key(u64::MAX),
                },
            decreases entries@.len() - i,
        {
            let k = entries[i].0;
            let lot = match CoffeeLot::from_bytes(&entries[i].1) {
                Ok(l) => l,
                Err(_) => {
                    return Err(LedgerError::Corrupt);
                },
            };
            if lot.id != k {
                return Err(LedgerError::Corrupt);
            }
            let n = lot.updates.len();
            if n > 0 && lot.status != lot.updates[n - 1].status {
                proof {
                    assert(lot@.updates.last() == lot.updates@[n - 1]@);
                }
                return Err(LedgerError::Corrupt);
            }
            proof {
                if n > 0 {
                    assert(lot@.updates.last() == lot.updates@[n - 1]@);
                }
            }
            next = if k == u64::MAX {
                None
            } else {
                Some(k + 1)
            };
            i = i + 1;
        }
        let l = Ledger { store, next_id: next };
        proof {
            assert forall|k: u64| #[trigger] records.contains_key(k) implies parse_lot(
                records[k],
            ) is Some && lot_consistent(k, parse_lot(records[k])->Some_0) by {
                let a = choose|a: int| 0 <= a < entries@.len() && #[trigger] entries@[a].0 == k;
            }
            if let Some(n) = next {
                assert forall|k: u64| #[trigger] records.contains_key(k) implies k < n by {
                    let a = choose|a: int| 0 <= a < entries@.len() && #[trigger] entries@[a].0 == k;
                }
            }
        }
        Ok(l)
    }

    /// Opens the ledger over the host's memory: lot records in one region,
    /// registered identities in another. Fails with `Corrupt` when a stored
    /// record is not that of a consistent lot.
    pub fn open() -> (r: Result<Ledger, LedgerError>)
        ensures
            match r {
                Ok(l) => l.wf(),
                Err(e) => e == LedgerError::Corrupt,
            },
    {
        Ledger::load(Storage::open(LOTS_REGION, USERS_REGION))
    }

    /// Reads the ledger back from the memory it is stored in, as after a
    /// restart of the process: the lots and the registered identities are
    /// those that were there before.
    pub fn restart(self) -> (r: Result<Ledger, LedgerError>)
        requires
            self.wf(),
        ensures
            r matches Ok(l) && l.wf() && l.lots() == self.lots() && l.users() == self.users(),
            r matches Ok(l) && trails_grow(self.lots(), l.lots()),
    {
        proof {
            lemma_trails_grow_reflexive(self.lots());
        }
        let store = self.store.reopen();
        Ledger::load(store)
    }

    /// Registers `caller`; registering twice changes nothing more.
    pub fn register_user(&mut self, caller: &Vec<u8>) -> (r: bool)
        requires
            old(self).wf(),
        ensures
            final(self).wf(),
            r,
            final(self).users() == old(self).users().insert(caller@),
            final(self).lots() == old(self).lots(),
            final(self).next_free() == old(self).next_free(),
            trails_grow(old(self).lots(), final(self).lots()),
    {
        self.store.put_user(caller.clone(), true);
        proof {
            lemma_trails_grow_reflexive(old(self).lots());
            assert(final(self).users() =~= old(self).users().insert(caller@)) by {
                assert(self.users() =~= old(self).users().insert(caller@));
            }
        }
        true
    }

    /// Whether `caller` may change the ledger.
    pub fn is_caller_registered(&self, caller: &Vec<u8>) -> (r: bool)
        ensures
            r == self.users().contains(caller@),
    {
        self.store.has_user(caller)
    }

    /// Creates a lot with status "Harvested" and no updates under the next
    /// free id, and returns that id.
    pub fn create_lot(
        &mut self,
        caller: &Vec<u8>,
        farmer: String,
        harvest_date: String,
        location: String,
        now: u64,
    ) -> (r: Result<u64, LedgerError>)
        requires
            old(self).wf(),
        ensures
            final(self).wf(),
            final(self).users() == old(self).users(),
            match create_result(
                old(self).users(),
                old(self).next_free(),
                caller@,
                farmer@,
                harvest_date@,
                location@,
                now,
            ) {
                Ok(l) => r == Ok::<u64, LedgerError>(l.id) && final(self).lots() == old(
                    self,
                ).lots().insert(l.id, l),
                Err(e) => r == Err::<u64, LedgerError>(e) && final(self).lots() == old(
                    self,
                ).lots() && final(self).next_free() == old(self).next_free(),
            },
            r matches Ok(id) ==> forall|k: u64| #[trigger]
                old(self).lots().contains_key(k) ==> k < id,
            trails_grow(old(self).lots(), final(self).lots()),
    {
        proof {
            lemma_trails_grow_reflexive(self.lots());
        }
        if !self.store.has_user(caller) {
            return Err(LedgerError::Unauthorized);
        }
        let id = match self.next_id {
            Some(n) => n,
            None => {
                return Err(LedgerError::IdsExhausted);
            },
        };
        let lot = CoffeeLot {
            id,
            farmer,
            harvest_date,
            location,
            status: "Harvested".to_owned(),
            updates: Vec::new(),
            timestamp: now,
        };
        assert(lot@.updates =~= Seq::<UpdateV>::empty());
        let record = match lot.to_bytes() {
            Ok(b) => b,
            Err(_) => {
                return Err(LedgerError::TooLarge);
            },
        };
        proof {
            lemma_lot_round_trip(lot@);
        }
        self.store.put_lot_record(id, record);
        self.next_id = if id == u64::MAX {
            None
        } else {
            Some(id + 1)
        };
        proof {
            assert(self.lots() =~= old(self).lots().insert(id, lot@));
            assert forall|k: u64| #[trigger] old(self).lots().contains_key(k) implies self.lots().contains_key(k)
                && old(self).lots()[k].updates.len() <= self.lots()[k].updates.len()
                && self.lots()[k].updates.take(old(self).lots()[k].updates.len() as int)
                == old(self).lots()[k].updates by {
                assert(k != id);
                assert(old(self).lots()[k].updates.take(old(self).lots()[k].updates.len() as int)
                    =~= old(self).lots()[k].updates);
            }
        }
        Ok(id)
    }

    /// Appends an update by `caller` to the lot `lot_id` and sets the lot's
    /// status to `status`.
    pub fn append_update(
        &mut self,
        caller: &Vec<u8>,
        lot_id: u64,
        status: String,
        details: String,
        now: u64,
    ) -> (r: Result<(), LedgerError>)
        requires
            old(self).wf(),
        ensures
            final(self).wf(),
            final(self).users() == old(self).users(),
            final(self).next_free() == old(self).next_free(),
            match append_result(
                old(self).users(),
                old(self).lots(),
                caller@,
                lot_id,
                status@,
                details@,
                now,
            ) {
                Ok(l) => r is Ok && final(self).lots() == old(self).lots().insert(lot_id, l),
                Err(e) => r == Err::<(), LedgerError>(e) && final(self).lots() == old(
                    self,
                ).lots(),
            },
            trails_grow(old(self).lots(), final(self).lots()),
    {
        proof {
            lemma_trails_grow_reflexive(self.lots());
        }
        if !self.store.has_user(caller) {
            return Err(LedgerError::Unauthorized);
        }
        let record = match self.store.lot_record(lot_id) {
            Some(b) => b,
            None => {
                return Err(LedgerError::NotFound);
            },
        };
        let mut lot = match CoffeeLot::from_bytes(&record) {
            Ok(l) => l,
            Err(_) => {
                return Err(LedgerError::Corrupt);
            },
        };
        let ghost before = lot@;
        let update = Update {
            status: status.clone(),
            details,
            timestamp: now,
            updated_by: caller.clone(),
        };
        lot.updates.push(update);
        lot.status = status;
        proof {
            let u = UpdateV {
                status: status@,
                details: details@,
                timestamp: now,
                updated_by: caller@,
            };
            assert(lot@.updates =~= before.updates.push(u));
            assert(lot@ == with_update(before, u));
        }
        let record = match lot.to_bytes() {
            Ok(b) => b,
            Err(_) => {
                return Err(LedgerError::TooLarge);
            },
        };
        proof {
            lemma_lot_round_trip(lot@);
        }
        self.store.put_lot_record(lot_id, record);
        proof {
            assert(self.lots() =~= old(self).lots().insert(lot_id, lot@));
            assert forall|k: u64| #[trigger] old(self).lots().contains_key(k) implies self.lots().contains_key(k)
                && old(self).lots()[k].updates.len() <= self.lots()[k].updates.len()
                && self.lots()[k].updates.take(old(self).lots()[k].updates.len() as int)
                == old(self).lots()[k].updates by {
                assert(old(self).lots()[k].updates.take(old(self).lots()[k].updates.len() as int)
                    =~= old(self).lots()[k].updates);
                assert(lot@.updates.take(before.updates.len() as int) =~= before.updates);
            }
        }
        Ok(())
    }

    /// The lot with id `lot_id`, if there is one.
    pub fn get_lot(&self, lot_id: u64) -> (r: Option<CoffeeLot>)
        requires
            self.wf(),
        ensures
            match r {
                Some(l) => self.lots().contains_key(lot_id) && l@ == self.lots()[lot_id],
                None => !self.lots().contains_key(lot_id),
            },
    {
        match self.store.lot_record(lot_id) {
            Some(b) => match CoffeeLot::from_bytes(&b) {
                Ok(l) => Some(l),
                Err(_) => None,
            },
            None => None,
        }
    }

    /// Every lot, by ascending id.
    pub fn get_all_lots(&self) -> (r: Vec<CoffeeLot>)
        requires
            self.wf(),
        ensures
            forall|i: int, j: int| 0 <= i < j < r@.len() ==> r@[i].id < r@[j].id,
            forall|i: int|
                0 <= i < r@.len() ==> self.lots().contains_key(#[trigger] r@[i].id)
                    && r@[i]@ == self.lots()[r@[i].id],
            forall|k: u64|
                self.lots().contains_key(k) ==> exists|i: int|
                    0 <= i < r@.len() && #[trigger] r@[i].id == k,
    {
        let entries = self.store.lot_entries();
        let ghost records = lot_records(self.store);
        let mut out: Vec<CoffeeLot> = Vec::new();
        let mut i: usize = 0;
        while i < entries.len()
            invariant
                self.wf(),
                records == lot_records(self.store),
                0 <= i <= entries@.len(),
                out@.len() == i,
                forall|a: int, b: int|
                    0 <= a < b < entries@.len() ==> entries@[a].0 < entries@[b].0,
                forall|a: int|
                    0 <= a < entries@.len() ==> records.contains_key(#[trigger] entries@[a].0)
                        && entries@[a].1@ == records[entries@[a].0],
                forall|a: int|
                    0 <= a < i ==> #[trigger] out@[a].id == entries@[a].0 && out@[a]@
                        == self.lots()[entries@[a].0],
            decreases entries@.len() - i,
        {
            let lot = match CoffeeLot::from_bytes(&entries[i].1) {
                Ok(l) => l,
                Err(_) => {
                    proof {
                        assert(records.contains_key(entries@[i as int].0));
                    }
                    return out;
                },
            };
            proof {
                assert(records.contains_key(entries@[i as int].0));
            }
            out.push(lot);
            i = i + 1;
        }
        proof {
            assert forall|k: u64| self.lots().contains_key(k) implies exists|a: int|
                0 <= a < out@.len() && #[trigger] out@[a].id == k by {
                let a = choose|a: int| 0 <= a < entries@.len() && #[trigger] entries@[a].0 == k;
                assert(out@[a].id == k);
            }
        }
        out
    }

    /// `create_lot` with its outcome reduced to the new id, or `None`.
    pub fn add_lot(
        &mut self,
        caller: &Vec<u8>,
        farmer: String,
        harvest_date: String,
        location: String,
        now: u64,
    ) -> (r: Option<u64>)
        requires
            old(self).wf(),
        ensures
            final(self).wf(),
            final(self).users() == old(self).users(),
            match create_result(
                old(self).users(),
                old(self).next_free(),
                caller@,
                farmer@,
                harvest_date@,
                location@,
                now,
            ) {
                Ok(l) => r == Some(l.id) && final(self).lots() == old(self).lots().insert(l.id, l),
                Err(_) => r is None && final(self).lots() == old(self).lots()
                    && final(self).next_free() == old(self).next_free(),
            },
            r matches Some(id) ==> forall|k: u64| #[trigger]
                old(self).lots().contains_key(k) ==> k < id,
            trails_grow(old(self).lots(), final(self).lots()),
    {
        match self.create_lot(caller, farmer, harvest_date, location, now) {
            Ok(id) => Some(id),
            Err(_) => None,
        }
    }

    /// `append_update` with its outcome reduced to a confirmation, or `None`.
    pub fn update_lot(
        &mut self,
        caller: &Vec<u8>,
        lot_id: u64,
        status: String,
        details: String,
        now: u64,
    ) -> (r: Option<String>)
        requires
            old(self).wf(),
        ensures
            final(self).wf(),
            final(self).users() == old(self).users(),
            final(self).next_free() == old(self).next_free(),
            match append_result(
                old(self).users(),
                old(self).lots(),
                caller@,
                lot_id,
                status@,
                details@,
                now,
            ) {
                Ok(l) => r matches Some(m) && m@ == update_confirmation() && final(self).lots()
                    == old(self).lots().insert(lot_id, l),
                Err(_) => r is None && final(self).lots() == old(self).lots(),
            },
            trails_grow(old(self).lots(), final(self).lots()),
    {
        match self.append_update(caller, lot_id, status, details, now) {
            Ok(()) => Some("Update successful".to_owned()),
            Err(_) => None,
        }
    }
}

/// The text that `update_lot` returns on success.
pub open spec fn update_confirmation() -> Seq<char> {
    "Update successful"@
}

/// Nothing changes a lot map into one whose trails are shorter.
pub proof fn lemma_trails_grow_reflexive(lots: Map<u64, LotV>)
    ensures
        trails_grow(lots, lots),
{
    assert forall|k: u64| #[trigger] lots.contains_key(k) implies lots[k].updates.take(
        lots[k].updates.len() as int,
    ) == lots[k].updates by {
        assert(lots[k].updates.take(lots[k].updates.len() as int) =~= lots[k].updates);
    }
}

/// Trails only grow across any sequence of operations: the relation that
/// each operation keeps composes.
pub proof fn lemma_trails_grow_transitive(a: Map<u64, LotV>, b: Map<u64, LotV>, c: Map<u64, LotV>)
    requires
        trails_grow(a, b),
        trails_grow(b, c),
    ensures
        trails_grow(a, c),
{
    assert forall|k: u64| #[trigger] a.contains_key(k) implies c.contains_key(k)
        && a[k].updates.len() <= c[k].updates.len() && c[k].updates.take(
        a[k].updates.len() as int,
    ) == a[k].updates by {
        let n = a[k].updates.len() as int;
        assert(c[k].updates.take(n) =~= c[k].updates.take(b[k].updates.len() as int).take(n));
    }
}

/// Ids strictly increase: an id handed out while the ledger held `first`
/// exceeds every id it held then, and lots are never dropped, so an id
/// handed out later exceeds `first`.
pub proof fn lemma_ids_increase(
    earlier: Map<u64, LotV>,
    later: Map<u64, LotV>,
    first: u64,
    second: u64,
)
    requires
        earlier.contains_key(first),
        trails_grow(earlier, later),
        forall|k: u64| #[trigger] later.contains_key(k) ==> k < second,
    ensures
        first < second,
{
    assert(later.contains_key(first));
}

/// Only registered callers change the ledger, and a registered caller is
/// never turned away as unregistered.
pub proof fn lemma_authorization_gate(
    users: Set<Seq<u8>>,
    lots: Map<u64, LotV>,
    next: Option<u64>,
    caller: Seq<u8>,
    lot_id: u64,
    farmer: Seq<char>,
    harvest_date: Seq<char>,
    location: Seq<char>,
    status: Seq<char>,
    details: Seq<char>,
    now: u64,
)
    ensures
        (create_result(users, next, caller, farmer, harvest_date, location, now)
            == Err::<LotV, LedgerError>(LedgerError::Unauthorized)) <==> !users.contains(caller),
        (append_result(users, lots, caller, lot_id, status, details, now) == Err::<
            LotV,
            LedgerError,
        >(LedgerError::Unauthorized)) <==> !users.contains(caller),
{
}

/// After a successful update the lot's status and the status of the last
/// entry of its trail are both the new status.
pub proof fn lemma_status_mirrors_update(
    users: Set<Seq<u8>>,
    lots: Map<u64, LotV>,
    caller: Seq<u8>,
    lot_id: u64,
    status: Seq<char>,
    details: Seq<char>,
    now: u64,
)
    requires
        append_result(users, lots, caller, lot_id, status, details, now) is Ok,
    ensures
        ({
            let l = append_result(users, lots, caller, lot_id, status, details, now)->Ok_0;
            &&& l.status == status
            &&& l.updates.last().status == status
        }),
{
}

} // verus!
