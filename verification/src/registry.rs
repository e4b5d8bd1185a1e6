//! Ships, their data accounts, the fingerprints logged in them and the
//! observers allowed to read them.
//!
//! Each operation changes the records it is handed and returns the event
//! that announces the change. Every accepted fingerprint of
//! [`add_data_fingerprint`] deposits a fixed fee into the fundraising pool.

use vstd::prelude::*;
use crate::address::{lemma_address_by_view, Address};
use crate::digest::{blake3_digest, fingerprint_of, Fingerprint};
use crate::fundraising::{deposit_fee, FundraisingAccount, FundraisingErrors};
use crate::ledger::{deposit_outcome, Pool};

verus! {

/// Bytes in front of every stored record that tell its kind.
pub const ANCHOR_DISCRIMINATOR: usize = 8;

/// Stored size of an address.
pub const PUBKEY_SIZE: usize = 32;

/// Stored size of a fingerprint.
pub const FINGERPRINT_SIZE: usize = 32;

/// Stored size of an encrypted master key.
pub const MASTER_KEY_SIZE: usize = 128;

/// Fee charged for every fingerprint that is logged by itself.
pub const TX_COST: u64 = 10_000_000;

/// Bytes by which a data account grows when it is reallocated.
pub const DATA_ACCOUNT_GROWTH: usize = 10240;

/// Why the registry rejected a request.
#[derive(Clone, Copy, Debug, PartialEq, Eq, Structural)]
pub enum CustomErrors {
    /// The observer is already waiting for approval.
    ExternalObserverAlreadyRequested,
}

/// A ship and the data accounts opened for it.
#[derive(Clone, Debug)]
pub struct ShipAccount {
    pub ship: Address,
    pub ship_management: Address,
    pub data_accounts: Vec<Address>,
    pub data_account_starting_timestamps: Vec<u64>,
}

/// The log of fingerprints of one ship over one period.
#[derive(Clone, Debug)]
pub struct DataAccount {
    pub ship: Address,
    pub fingerprints: Vec<Fingerprint>,
}

/// The observers of one data account: those waiting for approval and those
/// approved, each list with the keys that belong to its entries.
#[derive(Clone, Debug)]
pub struct ExternalObserversAccount {
    pub unapproved_external_observers: Vec<Address>,
    pub unapproved_external_observers_x25519_pks: Vec<Address>,
    pub external_observers: Vec<Address>,
    pub external_observers_x25519_pks: Vec<Address>,
    pub external_observers_master_keys: Vec<[u8; 128]>,
}

/// A ship account was set up.
#[derive(Clone, Copy, Debug)]
pub struct ShipInitialized {
    pub ship: Address,
    pub ship_management: Address,
}

/// A data account was opened for a ship.
#[derive(Clone, Debug)]
pub struct DataAccountInitialized {
    pub ship: Address,
    pub data_account: Address,
    pub external_observers: Vec<Address>,
    pub external_observers_keys: Vec<[u8; 128]>,
}

/// A fingerprint was logged; the event carries the batch it was taken of.
#[derive(Clone, Debug)]
pub struct DataFingerprintAdded {
    pub ship: Address,
    pub fingerprint: Fingerprint,
    pub ciphertext: Vec<u8>,
    pub tag: Vec<u8>,
    pub iv: Vec<u8>,
    pub ciphertext_timestamp: u64,
    pub data_account: Address,
}

/// An observer asked for access to a data account.
#[derive(Clone, Copy, Debug)]
pub struct ExternalObserverRequested {
    pub data_account: Address,
    pub external_observer: Address,
}

/// An observer was approved and handed the encrypted master key.
#[derive(Clone, Copy, Debug)]
pub struct ExternalObserverAdded {
    pub data_account: Address,
    pub external_observer: Address,
    pub external_observers_account: Address,
    pub ship_account: Address,
    pub ship_management: Address,
    pub external_observer_encrypted_master_key: [u8; 128],
}

/// `i` is the first place at which `list` holds `key`.
pub open spec fn is_first_index(list: Seq<Address>, key: Address, i: int) -> bool {
    &&& 0 <= i < list.len()
    &&& list[i] == key
    &&& forall|j: int| 0 <= j < i ==> list[j] != key
}

/// The first place at which `list` holds `key`; meaningful when it holds it.
pub open spec fn first_index(list: Seq<Address>, key: Address) -> int {
    choose|i: int| is_first_index(list, key, i)
}

/// The smallest of four lengths.
pub open spec fn shortest(a: int, b: int, c: int, d: int) -> int {
    let ab = if a <= b {
        a
    } else {
        b
    };
    let cd = if c <= d {
        c
    } else {
        d
    };
    if ab <= cd {
        ab
    } else {
        cd
    }
}

/// `event` announces the fingerprint `fingerprint`, logged for `ship` in
/// `data_account`, of the batch made of `ciphertext`, `tag` and `iv`.
pub open spec fn announces(
    event: DataFingerprintAdded,
    ship: Address,
    data_account: Address,
    fingerprint: Fingerprint,
    ciphertext: Seq<u8>,
    tag: Seq<u8>,
    iv: Seq<u8>,
    ciphertext_timestamp: u64,
) -> bool {
    &&& event.ship == ship
    &&& event.data_account == data_account
    &&& event.fingerprint == fingerprint
    &&& event.ciphertext@ == ciphertext
    &&& event.tag@ == tag
    &&& event.iv@ == iv
    &&& event.ciphertext_timestamp == ciphertext_timestamp
}

/// Base plus `len` entries of `width` bytes, if that fits.
fn table_size(base: usize, len: usize, width: usize) -> (size: Option<usize>)
    ensures
        match size {
            Some(s) => s == base + len * width,
            None => base + len * width > usize::MAX,
        },
{
    match len.checked_mul(width) {
        Some(bytes) => base.checked_add(bytes),
        None => {
            assert(len * width >= 0) by (nonlinear_arith)
                requires
                    len >= 0,
                    width >= 0,
            ;
            None
        },
    }
}

/// First index of `key` in `list`.
fn position_of(list: &Vec<Address>, key: &Address) -> (found: Option<usize>)
    ensures
        match found {
            Some(i) => is_first_index(list@, *key, i as int) && first_index(list@, *key) == i,
            None => !list@.contains(*key),
        },
{
    let mut i: usize = 0;
    while i < list.len()
        invariant
            i <= list.len(),
            forall|j: int| 0 <= j < i ==> list@[j] != *key,
        decreases list.len() - i,
    {
        proof {
            lemma_address_by_view(list@[i as int], *key);
        }
        if list[i] == *key {
            proof {
                let k = first_index(list@, *key);
                assert(is_first_index(list@, *key, i as int));
                assert(is_first_index(list@, *key, k));
                if k < i {
                    assert(list@[k] != *key);
                }
            }
            return Some(i);
        }
        i += 1;
    }
    None
}

/// A copy of a list of master keys.
fn copy_keys(keys: &Vec<[u8; 128]>) -> (copy: Vec<[u8; 128]>)
    ensures
        copy@ == keys@,
{
    let copy = keys.clone();
    assert forall|i: int| 0 <= i < keys.len() implies copy@[i] == keys@[i] by {
        assert(cloned(keys@[i], copy@[i]));
        assert(copy@[i] =~= keys@[i]);
    }
    assert(copy@ =~= keys@);
    copy
}

impl ShipAccount {
    /// Bytes that the stored ship account takes.
    pub open spec fn size(&self) -> nat {
        (8 + 32 + 32 + 4 + self.data_accounts@.len() * 32 + 4
            + self.data_account_starting_timestamps@.len() * 8) as nat
    }

    /// Bytes that the stored ship account takes, if the number fits.
    pub fn checked_size(&self) -> (size: Option<usize>)
        ensures
            match size {
                Some(s) => s == self.size(),
                None => self.size() > usize::MAX,
            },
    {
        let fixed = ANCHOR_DISCRIMINATOR + PUBKEY_SIZE + PUBKEY_SIZE + 4;
        match table_size(fixed, self.data_accounts.len(), PUBKEY_SIZE) {
            Some(with_accounts) => match with_accounts.checked_add(4) {
                Some(with_prefix) => table_size(
                    with_prefix,
                    self.data_account_starting_timestamps.len(),
                    8,
                ),
                None => None,
            },
            None => None,
        }
    }

    /// Bytes that the stored ship account takes.
    pub fn get_size(&self) -> (size: usize)
        requires
            self.size() <= usize::MAX,
        ensures
            size == self.size(),
    {
        match self.checked_size() {
            Some(size) => size,
            None => 0,
        }
    }
}

impl ExternalObserversAccount {
    /// Bytes that the stored observers account takes.
    pub open spec fn size(&self) -> nat {
        (8 + 4 + self.unapproved_external_observers@.len() * 32 + 4
            + self.unapproved_external_observers_x25519_pks@.len() * 32 + 4
            + self.external_observers_x25519_pks@.len() * 32 + 4
            + self.external_observers@.len() * 32 + 4
            + self.external_observers_master_keys@.len() * 128) as nat
    }

    /// `observer` waits for approval and its key is on record.
    pub open spec fn approvable(&self, observer: Address) -> bool {
        &&& self.unapproved_external_observers@.contains(observer)
        &&& first_index(self.unapproved_external_observers@, observer)
            < self.unapproved_external_observers_x25519_pks@.len()
    }

    /// Bytes that the stored observers account takes, if the number fits.
    pub fn checked_size(&self) -> (size: Option<usize>)
        ensures
            match size {
                Some(s) => s == self.size(),
                None => self.size() > usize::MAX,
            },
    {
        let a = match table_size(
            ANCHOR_DISCRIMINATOR + 4,
            self.unapproved_external_observers.len(),
            PUBKEY_SIZE,
        ) {
            Some(a) => a,
            None => {
                return None;
            },
        };
        let a = match a.checked_add(4) {
            Some(a) => a,
            None => {
                return None;
            },
        };
        let b = match table_size(
            a,
            self.unapproved_external_observers_x25519_pks.len(),
            PUBKEY_SIZE,
        ) {
            Some(b) => b,
            None => {
                return None;
            },
        };
        let b = match b.checked_add(4) {
            Some(b) => b,
            None => {
                return None;
            },
        };
        let c = match table_size(b, self.external_observers_x25519_pks.len(), PUBKEY_SIZE) {
            Some(c) => c,
            None => {
                return None;
            },
        };
        let c = match c.checked_add(4) {
            Some(c) => c,
            None => {
                return None;
            },
        };
        let d = match table_size(c, self.external_observers.len(), PUBKEY_SIZE) {
            Some(d) => d,
            None => {
                return None;
            },
        };
        let d = match d.checked_add(4) {
            Some(d) => d,
            None => {
                return None;
            },
        };
        table_size(d, self.external_observers_master_keys.len(), MASTER_KEY_SIZE)
    }

    /// Bytes that the stored observers account takes.
    pub fn get_size(&self) -> (size: usize)
        requires
            self.size() <= usize::MAX,
        ensures
            size == self.size(),
    {
        match self.checked_size() {
            Some(size) => size,
            None => 0,
        }
    }

    /// Whether `observer` can be approved: it waits for approval and its
    /// key is on record.
    pub fn can_approve(&self, observer: &Address) -> (yes: bool)
        ensures
            yes == self.approvable(*observer),
    {
        match position_of(&self.unapproved_external_observers, observer) {
            Some(i) => i < self.unapproved_external_observers_x25519_pks.len(),
            None => false,
        }
    }
}

/// The size to which a data account of `data_len` bytes is reallocated:
/// [`DATA_ACCOUNT_GROWTH`] bytes more, if that fits.
pub fn reallocate_data_account(data_len: usize) -> (new_size: Option<usize>)
    ensures
        match new_size {
            Some(s) => s == data_len + DATA_ACCOUNT_GROWTH,
            None => data_len + DATA_ACCOUNT_GROWTH > usize::MAX,
        },
{
    data_len.checked_add(DATA_ACCOUNT_GROWTH)
}

/// Sets up `ship_account` for `ship` under `ship_management`, with no data
/// account yet.
pub fn initialize_ship(ship_account: &mut ShipAccount, ship: Address, ship_management: Address)
    -> (event: ShipInitialized)
    ensures
        final(ship_account).ship == ship,
        final(ship_account).ship_management == ship_management,
        final(ship_account).data_accounts@ == Seq::<Address>::empty(),
        final(ship_account).data_account_starting_timestamps == old(
            ship_account,
        ).data_account_starting_timestamps,
        event.ship == ship,
        event.ship_management == ship_management,
{
    ship_account.ship = ship;
    ship_account.data_accounts = Vec::new();
    ship_account.ship_management = ship_management;
    ShipInitialized { ship, ship_management }
}

/// Opens the data account `data_account_key` of `ship`, starting at
/// `timestamp`, with the given approved observers.
///
/// The ship account lists the new data account and its starting time. The
/// data account starts with an empty log. The observers account lists the
/// given observers, their keys and their encrypted master keys as approved,
/// and nobody as waiting.
pub fn add_data_account(
    ship_account: &mut ShipAccount,
    data_account: &mut DataAccount,
    external_observers_account: &mut ExternalObserversAccount,
    ship: Address,
    data_account_key: Address,
    external_observers: Vec<Address>,
    external_observers_keys: Vec<[u8; 128]>,
    external_observers_x25519_pks: Vec<Address>,
    timestamp: u64,
) -> (event: DataAccountInitialized)
    requires
        external_observers.len() == external_observers_keys.len(),
        external_observers.len() == external_observers_x25519_pks.len(),
    ensures
        final(ship_account).ship == old(ship_account).ship,
        final(ship_account).ship_management == old(ship_account).ship_management,
        final(ship_account).data_accounts@ == old(ship_account).data_accounts@.push(
            data_account_key,
        ),
        final(ship_account).data_account_starting_timestamps@ == old(
            ship_account,
        ).data_account_starting_timestamps@.push(timestamp),
        final(data_account).ship == ship,
        final(data_account).fingerprints@ == Seq::<Fingerprint>::empty(),
        final(external_observers_account).unapproved_external_observers@ == Seq::<
            Address,
        >::empty(),
        final(external_observers_account).unapproved_external_observers_x25519_pks@ == Seq::<
            Address,
        >::empty(),
        final(external_observers_account).external_observers@ == external_observers@,
        final(external_observers_account).external_observers_x25519_pks@
            == external_observers_x25519_pks@,
        final(external_observers_account).external_observers_master_keys@
            == external_observers_keys@,
        event.ship == ship,
        event.data_account == data_account_key,
        event.external_observers@ == external_observers@,
        event.external_observers_keys@ == external_observers_keys@,
{
    ship_account.data_accounts.push(data_account_key);
    ship_account.data_account_starting_timestamps.push(timestamp);

    data_account.ship = ship;
    data_account.fingerprints = Vec::new();

    external_observers_account.unapproved_external_observers = Vec::new();
    external_observers_account.unapproved_external_observers_x25519_pks = Vec::new();
    external_observers_account.external_observers_master_keys = copy_keys(
        &external_observers_keys,
    );
    external_observers_account.external_observers = external_observers.clone();
    external_observers_account.external_observers_x25519_pks = external_observers_x25519_pks;

    DataAccountInitialized {
        ship,
        data_account: data_account_key,
        external_observers,
        external_observers_keys,
    }
}

/// `external_observer` asks for access to `data_account` and leaves the key
/// under which a master key can be encrypted for them.
///
/// The observer and the key are appended to the waiting lists. Fails with
/// `ExternalObserverAlreadyRequested`, changing nothing, when the observer
/// is waiting already.
pub fn external_observer_request(
    external_observers_account: &mut ExternalObserversAccount,
    data_account: Address,
    external_observer: Address,
    external_observer_x25519_pk: Address,
) -> (result: Result<ExternalObserverRequested, CustomErrors>)
    ensures
        match result {
            Ok(event) => {
                &&& !old(external_observers_account).unapproved_external_observers@.contains(
                    external_observer,
                )
                &&& final(external_observers_account).unapproved_external_observers@ == old(
                    external_observers_account,
                ).unapproved_external_observers@.push(external_observer)
                &&& final(external_observers_account).unapproved_external_observers_x25519_pks@
                    == old(
                    external_observers_account,
                ).unapproved_external_observers_x25519_pks@.push(external_observer_x25519_pk)
                &&& final(external_observers_account).external_observers == old(
                    external_observers_account,
                ).external_observers
                &&& final(external_observers_account).external_observers_x25519_pks == old(
                    external_observers_account,
                ).external_observers_x25519_pks
                &&& final(external_observers_account).external_observers_master_keys == old(
                    external_observers_account,
                ).external_observers_master_keys
                &&& event.data_account == data_account
                &&& event.external_observer == external_observer
            },
            Err(e) => {
                &&& e == CustomErrors::ExternalObserverAlreadyRequested
                &&& old(external_observers_account).unapproved_external_observers@.contains(
                    external_observer,
                )
                &&& *final(external_observers_account) == *old(external_observers_account)
            },
        },
{
    match position_of(
        &external_observers_account.unapproved_external_observers,
        &external_observer,
    ) {
        None => {
            external_observers_account.unapproved_external_observers.push(external_observer);
            external_observers_account.unapproved_external_observers_x25519_pks.push(
                external_observer_x25519_pk,
            );
            Ok(ExternalObserverRequested { data_account, external_observer })
        },
        Some(_) => Err(CustomErrors::ExternalObserverAlreadyRequested),
    }
}

/// Approves the waiting observer `external_observer_to_be_approved` and
/// records the master key encrypted for them.
///
/// The observer and the key they left are taken off the waiting lists, at
/// the first place where the observer stands, and appended to the approved
/// lists together with the encrypted master key.
pub fn add_external_observer(
    external_observers_account: &mut ExternalObserversAccount,
    data_account: Address,
    external_observers_account_key: Address,
    ship_account: Address,
    ship_management: Address,
    external_observer_to_be_approved: Address,
    external_observer_encrypted_master_key: [u8; 128],
) -> (event: ExternalObserverAdded)
    requires
        old(external_observers_account).approvable(external_observer_to_be_approved),
    ensures
        ({
            let before = *old(external_observers_account);
            let after = *final(external_observers_account);
            let i = first_index(
                before.unapproved_external_observers@,
                external_observer_to_be_approved,
            );
            &&& after.unapproved_external_observers@
                == before.unapproved_external_observers@.remove(i)
            &&& after.unapproved_external_observers_x25519_pks@
                == before.unapproved_external_observers_x25519_pks@.remove(i)
            &&& after.external_observers@ == before.external_observers@.push(
                external_observer_to_be_approved,
            )
            &&& after.external_observers_x25519_pks@
                == before.external_observers_x25519_pks@.push(
                before.unapproved_external_observers_x25519_pks@[i],
            )
            &&& after.external_observers_master_keys@
                == before.external_observers_master_keys@.push(
                external_observer_encrypted_master_key,
            )
        }),
        event.data_account == data_account,
        event.external_observer == external_observer_to_be_approved,
        event.external_observers_account == external_observers_account_key,
        event.ship_account == ship_account,
        event.ship_management == ship_management,
        event.external_observer_encrypted_master_key == external_observer_encrypted_master_key,
{
    let eo_index = match position_of(
        &external_observers_account.unapproved_external_observers,
        &external_observer_to_be_approved,
    ) {
        Some(i) => i,
        None => 0,
    };
    external_observers_account.unapproved_external_observers.remove(eo_index);
    let eo_x25519_pk = external_observers_account.unapproved_external_observers_x25519_pks.remove(
        eo_index,
    );
    external_observers_account.external_observers.push(external_observer_to_be_approved);
    external_observers_account.external_observers_x25519_pks.push(eo_x25519_pk);
    external_observers_account.external_observers_master_keys.push(
        external_observer_encrypted_master_key,
    );
    ExternalObserverAdded {
        data_account,
        external_observer: external_observer_to_be_approved,
        external_observers_account: external_observers_account_key,
        ship_account,
        ship_management,
        external_observer_encrypted_master_key,
    }
}

/// Appends `fingerprint` to the log of `data_account` and returns the event
/// that publishes the batch it was taken of.
pub fn log_fingerprint(
    data_account: &mut DataAccount,
    ship: Address,
    data_account_key: Address,
    fingerprint: Fingerprint,
    ciphertext: Vec<u8>,
    tag: Vec<u8>,
    iv: Vec<u8>,
    ciphertext_timestamp: u64,
) -> (event: DataFingerprintAdded)
    ensures
        final(data_account).ship == old(data_account).ship,
        final(data_account).fingerprints@ == old(data_account).fingerprints@.push(fingerprint),
        announces(
            event,
            ship,
            data_account_key,
            fingerprint,
            ciphertext@,
            tag@,
            iv@,
            ciphertext_timestamp,
        ),
{
    data_account.fingerprints.push(fingerprint);
    DataFingerprintAdded {
        ship,
        fingerprint,
        ciphertext,
        tag,
        iv,
        ciphertext_timestamp,
        data_account: data_account_key,
    }
}

/// Charges the fee of one batch to the pool and logs `fingerprint`.
///
/// The fee [`TX_COST`] is added to the fees collected by
/// `fundraising_account`; then the fingerprint is appended to the log. Fails
/// with `ArithmeticOverflow`, changing neither record, when the pool cannot
/// take the fee.
pub fn record_fingerprint(
    data_account: &mut DataAccount,
    fundraising_account: &mut FundraisingAccount,
    ship: Address,
    data_account_key: Address,
    fingerprint: Fingerprint,
    ciphertext: Vec<u8>,
    tag: Vec<u8>,
    iv: Vec<u8>,
    ciphertext_timestamp: u64,
) -> (result: Result<DataFingerprintAdded, FundraisingErrors>)
    ensures
        match result {
            Ok(event) => {
                &&& deposit_outcome(old(fundraising_account)@, TX_COST) == Ok::<
                    Pool,
                    FundraisingErrors,
                >(final(fundraising_account)@)
                &&& final(fundraising_account).total_fees_collected == old(
                    fundraising_account,
                ).total_fees_collected + TX_COST
                &&& final(data_account).ship == old(data_account).ship
                &&& final(data_account).fingerprints@ == old(data_account).fingerprints@.push(
                    fingerprint,
                )
                &&& announces(
                    event,
                    ship,
                    data_account_key,
                    fingerprint,
                    ciphertext@,
                    tag@,
                    iv@,
                    ciphertext_timestamp,
                )
            },
            Err(e) => {
                &&& e == FundraisingErrors::ArithmeticOverflow
                &&& old(fundraising_account).total_fees_collected + TX_COST > u64::MAX
                &&& *final(fundraising_account) == *old(fundraising_account)
                &&& *final(data_account) == *old(data_account)
            },
        },
        old(fundraising_account)@.wf() ==> final(fundraising_account)@.wf(),
{
    match deposit_fee(fundraising_account, TX_COST) {
        Ok(()) => Ok(
            log_fingerprint(
                data_account,
                ship,
                data_account_key,
                fingerprint,
                ciphertext,
                tag,
                iv,
                ciphertext_timestamp,
            ),
        ),
        Err(e) => Err(e),
    }
}

/// Accepts one ciphertext batch of `ship`: charges the fee, logs the
/// fingerprint of `ciphertext` and returns the event that publishes the
/// batch.
///
/// The fingerprint is the BLAKE3 digest of `ciphertext`. All else is as in
/// [`record_fingerprint`].
pub fn add_data_fingerprint(
    data_account: &mut DataAccount,
    fundraising_account: &mut FundraisingAccount,
    ship: Address,
    data_account_key: Address,
    ciphertext: Vec<u8>,
    tag: Vec<u8>,
    iv: Vec<u8>,
    ciphertext_timestamp: u64,
) -> (result: Result<DataFingerprintAdded, FundraisingErrors>)
    ensures
        match result {
            Ok(event) => {
                &&& deposit_outcome(old(fundraising_account)@, TX_COST) == Ok::<
                    Pool,
                    FundraisingErrors,
                >(final(fundraising_account)@)
                &&& final(fundraising_account).total_fees_collected == old(
                    fundraising_account,
                ).total_fees_collected + TX_COST
                &&& final(data_account).ship == old(data_account).ship
                &&& final(data_account).fingerprints@ == old(data_account).fingerprints@.push(
                    event.fingerprint,
                )
                &&& event.fingerprint@ == blake3_digest(ciphertext@)
                &&& announces(
                    event,
                    ship,
                    data_account_key,
                    event.fingerprint,
                    ciphertext@,
                    tag@,
                    iv@,
                    ciphertext_timestamp,
                )
            },
            Err(e) => {
                &&& e == FundraisingErrors::ArithmeticOverflow
                &&& old(fundraising_account).total_fees_collected + TX_COST > u64::MAX
                &&& *final(fundraising_account) == *old(fundraising_account)
                &&& *final(data_account) == *old(data_account)
            },
        },
        old(fundraising_account)@.wf() ==> final(fundraising_account)@.wf(),
{
    let fingerprint = fingerprint_of(&ciphertext);
    record_fingerprint(
        data_account,
        fundraising_account,
        ship,
        data_account_key,
        fingerprint,
        ciphertext,
        tag,
        iv,
        ciphertext_timestamp,
    )
}

/// Logs the fingerprints of several batches of `ship` at once, without a
/// fee, and returns one event for each.
///
/// Batch `i` is made of the `i`-th ciphertext, tag, nonce and timestamp; as
/// many batches are logged as the shortest of the four lists has entries.
/// Their fingerprints, the BLAKE3 digests of the ciphertexts, are appended
/// to the log in order.
pub fn add_multiple_data_fingerprints(
    data_account: &mut DataAccount,
    ship: Address,
    data_account_key: Address,
    ciphertexts: Vec<Vec<u8>>,
    tags: Vec<Vec<u8>>,
    ivs: Vec<Vec<u8>>,
    ciphertext_timestamps: Vec<u64>,
) -> (events: Vec<DataFingerprintAdded>)
    requires
        ciphertexts.len() == ciphertext_timestamps.len(),
    ensures
        events.len() == shortest(
            ciphertexts.len() as int,
            tags.len() as int,
            ivs.len() as int,
            ciphertext_timestamps.len() as int,
        ),
        final(data_account).ship == old(data_account).ship,
        final(data_account).fingerprints@.len() == old(data_account).fingerprints@.len()
            + events.len(),
        final(data_account).fingerprints@.subrange(
            0,
            old(data_account).fingerprints@.len() as int,
        ) == old(data_account).fingerprints@,
        forall|i: int|
            0 <= i < events.len() ==> {
                &&& (#[trigger] events[i]).fingerprint@ == blake3_digest(ciphertexts[i]@)
                &&& final(data_account).fingerprints@[old(data_account).fingerprints@.len() + i]
                    == events[i].fingerprint
                &&& announces(
                    events[i],
                    ship,
                    data_account_key,
                    events[i].fingerprint,
                    ciphertexts[i]@,
                    tags[i]@,
                    ivs[i]@,
                    ciphertext_timestamps[i],
                )
            },
{
    let mut count = ciphertexts.len();
    if tags.len() < count {
        count = tags.len();
    }
    if ivs.len() < count {
        count = ivs.len();
    }
    if ciphertext_timestamps.len() < count {
        count = ciphertext_timestamps.len();
    }
    let ghost logged = data_account.fingerprints@;
    let mut events: Vec<DataFingerprintAdded> = Vec::new();
    let mut i: usize = 0;
    while i < count
        invariant
            i <= count,
            count <= ciphertexts.len(),
            count <= tags.len(),
            count <= ivs.len(),
            count <= ciphertext_timestamps.len(),
            events.len() == i,
            data_account.ship == old(data_account).ship,
            logged == old(data_account).fingerprints@,
            data_account.fingerprints@.len() == logged.len() + i,
            data_account.fingerprints@.subrange(0, logged.len() as int) == logged,
            forall|k: int|
                0 <= k < i ==> {
                    &&& (#[trigger] events[k]).fingerprint@ == blake3_digest(ciphertexts[k]@)
                    &&& data_account.fingerprints@[logged.len() + k] == events[k].fingerprint
                    &&& announces(
                        events[k],
                        ship,
                        data_account_key,
                        events[k].fingerprint,
                        ciphertexts[k]@,
                        tags[k]@,
                        ivs[k]@,
                        ciphertext_timestamps[k],
                    )
                },
        decreases count - i,
    {
        let ghost earlier = data_account.fingerprints@;
        let ghost announced = events@;
        let ciphertext = ciphertexts[i].clone();
        let fingerprint = fingerprint_of(&ciphertext);
        let event = log_fingerprint(
            data_account,
            ship,
            data_account_key,
            fingerprint,
            ciphertext,
            tags[i].clone(),
            ivs[i].clone(),
            ciphertext_timestamps[i],
        );
        events.push(event);
        proof {
            assert(data_account.fingerprints@.subrange(0, logged.len() as int)
                =~= earlier.subrange(0, logged.len() as int));
            assert forall|k: int| 0 <= k < i + 1 implies {
                &&& (#[trigger] events[k]).fingerprint@ == blake3_digest(ciphertexts[k]@)
                &&& data_account.fingerprints@[logged.len() + k] == events[k].fingerprint
                &&& announces(
                    events[k],
                    ship,
                    data_account_key,
                    events[k].fingerprint,
                    ciphertexts[k]@,
                    tags[k]@,
                    ivs[k]@,
                    ciphertext_timestamps[k],
                )
            } by {
                if k < i {
                    assert(events[k] == announced[k]);
                    assert(data_account.fingerprints@[logged.len() + k] == earlier[logged.len()
                        + k]);
                }
            }
        }
        i += 1;
    }
    events
}

} // verus!
