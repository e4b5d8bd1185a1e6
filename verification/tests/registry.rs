use anchor_lang::solana_program::blake3;
use pont_network::address::Address;
use pont_network::digest::{fingerprint_of, Fingerprint};
use pont_network::fundraising::{start_fundraising, FundraisingErrors};
use pont_network::registry::{
    add_data_account, add_data_fingerprint, add_external_observer, add_multiple_data_fingerprints,
    external_observer_request, initialize_ship, log_fingerprint, reallocate_data_account,
    record_fingerprint, CustomErrors, DataAccount, ExternalObserversAccount, ShipAccount,
    DATA_ACCOUNT_GROWTH, TX_COST,
};

fn key(tag: u8) -> Address {
    Address::new([tag; 32])
}

fn blank_ship() -> ShipAccount {
    ShipAccount {
        ship: key(0),
        ship_management: key(0),
        data_accounts: Vec::new(),
        data_account_starting_timestamps: Vec::new(),
    }
}

fn blank_data() -> DataAccount {
    DataAccount { ship: key(0), fingerprints: Vec::new() }
}

fn blank_observers() -> ExternalObserversAccount {
    ExternalObserversAccount {
        unapproved_external_observers: Vec::new(),
        unapproved_external_observers_x25519_pks: Vec::new(),
        external_observers: Vec::new(),
        external_observers_x25519_pks: Vec::new(),
        external_observers_master_keys: Vec::new(),
    }
}

const EMPTY_DIGEST: [u8; 32] = [
    0xaf, 0x13, 0x49, 0xb9, 0xf5, 0xf9, 0xa1, 0xa6, 0xa0, 0x40, 0x4d, 0xea, 0x36, 0xdc, 0xc9, 0x49,
    0x9b, 0xcb, 0x25, 0xc9, 0xad, 0xc1, 0x12, 0xb7, 0xcc, 0x9a, 0x93, 0xca, 0xe4, 0x1f, 0x32, 0x62,
];

#[test]
fn fingerprint_of_nothing_is_the_known_digest() {
    assert_eq!(fingerprint_of(&Vec::new()).to_bytes(), EMPTY_DIGEST);
}

#[test]
fn fingerprint_is_the_digest_of_the_ciphertext() {
    let data: Vec<u8> = (0..=255u8).collect();
    let fingerprint = fingerprint_of(&data);
    assert_eq!(fingerprint.to_bytes(), blake3::hash(&data).to_bytes());
    assert_ne!(fingerprint.to_bytes().to_vec(), data[..32].to_vec());
    let mut other = data.clone();
    other[0] = 1;
    assert_ne!(fingerprint_of(&other).to_bytes(), fingerprint.to_bytes());
}

#[test]
fn fingerprint_keeps_the_bytes_it_is_made_from() {
    let fingerprint = Fingerprint::from([9u8; 32]);
    assert_eq!(fingerprint.to_bytes(), [9u8; 32]);
    assert_eq!(fingerprint.0, [9u8; 32]);
}

#[test]
fn ship_is_set_up_without_data_accounts() {
    let mut ship = blank_ship();
    ship.data_accounts.push(key(77));
    let event = initialize_ship(&mut ship, key(1), key(2));
    assert_eq!(ship.ship, key(1));
    assert_eq!(ship.ship_management, key(2));
    assert!(ship.data_accounts.is_empty());
    assert!(ship.data_account_starting_timestamps.is_empty());
    assert_eq!(event.ship, key(1));
    assert_eq!(event.ship_management, key(2));
}

#[test]
fn data_account_is_opened_with_its_observers() {
    let mut ship = blank_ship();
    initialize_ship(&mut ship, key(1), key(2));
    let mut data = blank_data();
    let mut observers = blank_observers();
    observers.unapproved_external_observers.push(key(50));
    observers.unapproved_external_observers_x25519_pks.push(key(51));
    let event = add_data_account(
        &mut ship,
        &mut data,
        &mut observers,
        key(1),
        key(10),
        vec![key(3), key(4)],
        vec![[5u8; 128], [6u8; 128]],
        vec![key(7), key(8)],
        1234,
    );
    assert_eq!(ship.data_accounts, vec![key(10)]);
    assert_eq!(ship.data_account_starting_timestamps, vec![1234]);
    assert_eq!(ship.ship, key(1));
    assert_eq!(ship.ship_management, key(2));
    assert_eq!(data.ship, key(1));
    assert!(data.fingerprints.is_empty());
    assert!(observers.unapproved_external_observers.is_empty());
    assert!(observers.unapproved_external_observers_x25519_pks.is_empty());
    assert_eq!(observers.external_observers, vec![key(3), key(4)]);
    assert_eq!(observers.external_observers_x25519_pks, vec![key(7), key(8)]);
    assert_eq!(observers.external_observers_master_keys, vec![[5u8; 128], [6u8; 128]]);
    assert_eq!(event.ship, key(1));
    assert_eq!(event.data_account, key(10));
    assert_eq!(event.external_observers, vec![key(3), key(4)]);
    assert_eq!(event.external_observers_keys, vec![[5u8; 128], [6u8; 128]]);

    add_data_account(
        &mut ship,
        &mut data,
        &mut observers,
        key(1),
        key(11),
        Vec::new(),
        Vec::new(),
        Vec::new(),
        5678,
    );
    assert_eq!(ship.data_accounts, vec![key(10), key(11)]);
    assert_eq!(ship.data_account_starting_timestamps, vec![1234, 5678]);
}

#[test]
fn observer_request_is_queued_once() {
    let mut observers = blank_observers();
    let event = external_observer_request(&mut observers, key(10), key(3), key(30)).unwrap();
    assert_eq!(event.data_account, key(10));
    assert_eq!(event.external_observer, key(3));
    external_observer_request(&mut observers, key(10), key(4), key(40)).unwrap();
    assert_eq!(observers.unapproved_external_observers, vec![key(3), key(4)]);
    assert_eq!(observers.unapproved_external_observers_x25519_pks, vec![key(30), key(40)]);
    assert_eq!(
        external_observer_request(&mut observers, key(10), key(3), key(31)).err(),
        Some(CustomErrors::ExternalObserverAlreadyRequested)
    );
    assert_eq!(observers.unapproved_external_observers, vec![key(3), key(4)]);
    assert_eq!(observers.unapproved_external_observers_x25519_pks, vec![key(30), key(40)]);
    assert!(observers.external_observers.is_empty());
}

#[test]
fn observer_is_approved_with_the_key_it_left() {
    let mut observers = blank_observers();
    external_observer_request(&mut observers, key(10), key(3), key(30)).unwrap();
    external_observer_request(&mut observers, key(10), key(4), key(40)).unwrap();
    external_observer_request(&mut observers, key(10), key(5), key(50)).unwrap();
    assert!(observers.can_approve(&key(4)));
    assert!(!observers.can_approve(&key(6)));
    let event =
        add_external_observer(&mut observers, key(10), key(11), key(12), key(13), key(4), [8u8; 128]);
    assert_eq!(observers.unapproved_external_observers, vec![key(3), key(5)]);
    assert_eq!(observers.unapproved_external_observers_x25519_pks, vec![key(30), key(50)]);
    assert_eq!(observers.external_observers, vec![key(4)]);
    assert_eq!(observers.external_observers_x25519_pks, vec![key(40)]);
    assert_eq!(observers.external_observers_master_keys, vec![[8u8; 128]]);
    assert_eq!(event.data_account, key(10));
    assert_eq!(event.external_observer, key(4));
    assert_eq!(event.external_observers_account, key(11));
    assert_eq!(event.ship_account, key(12));
    assert_eq!(event.ship_management, key(13));
    assert_eq!(event.external_observer_encrypted_master_key, [8u8; 128]);
    assert!(!observers.can_approve(&key(4)));
}

#[test]
fn observer_without_a_recorded_key_cannot_be_approved() {
    let mut observers = blank_observers();
    observers.unapproved_external_observers = vec![key(3), key(4)];
    observers.unapproved_external_observers_x25519_pks = vec![key(30)];
    assert!(observers.can_approve(&key(3)));
    assert!(!observers.can_approve(&key(4)));
}

#[test]
fn ship_account_size_counts_every_entry() {
    let mut ship = blank_ship();
    assert_eq!(ship.get_size(), 8 + 32 + 32 + 4 + 4);
    assert_eq!(ship.checked_size(), Some(80));
    ship.data_accounts = vec![key(1), key(2), key(3)];
    ship.data_account_starting_timestamps = vec![1, 2];
    assert_eq!(ship.get_size(), 80 + 3 * 32 + 2 * 8);
    assert_eq!(ship.checked_size(), Some(192));
}

#[test]
fn observers_account_size_counts_every_entry() {
    let mut observers = blank_observers();
    assert_eq!(observers.get_size(), 8 + 5 * 4);
    observers.unapproved_external_observers = vec![key(1)];
    observers.unapproved_external_observers_x25519_pks = vec![key(1), key(2)];
    observers.external_observers_x25519_pks = vec![key(1), key(2), key(3)];
    observers.external_observers = vec![key(1), key(2), key(3), key(4)];
    observers.external_observers_master_keys = vec![[0u8; 128]; 5];
    assert_eq!(observers.get_size(), 28 + 32 + 64 + 96 + 128 + 640);
    assert_eq!(observers.checked_size(), Some(988));
}

#[test]
fn data_account_grows_by_ten_kibibytes() {
    assert_eq!(DATA_ACCOUNT_GROWTH, 10 * 1024);
    assert_eq!(reallocate_data_account(0), Some(10240));
    assert_eq!(reallocate_data_account(7_720), Some(17_960));
    assert_eq!(reallocate_data_account(usize::MAX - 10240), Some(usize::MAX));
    assert_eq!(reallocate_data_account(usize::MAX - 10239), None);
}

#[test]
fn logged_fingerprint_is_appended_and_announced() {
    let mut data = blank_data();
    data.ship = key(1);
    let first = log_fingerprint(
        &mut data,
        key(1),
        key(10),
        Fingerprint::from([1u8; 32]),
        vec![1, 2, 3],
        vec![4],
        vec![5, 6],
        42,
    );
    log_fingerprint(&mut data, key(1), key(10), Fingerprint::from([2u8; 32]), vec![], vec![], vec![], 43);
    assert_eq!(data.ship, key(1));
    assert_eq!(data.fingerprints.len(), 2);
    assert_eq!(data.fingerprints[0].to_bytes(), [1u8; 32]);
    assert_eq!(data.fingerprints[1].to_bytes(), [2u8; 32]);
    assert_eq!(first.ship, key(1));
    assert_eq!(first.data_account, key(10));
    assert_eq!(first.fingerprint.to_bytes(), [1u8; 32]);
    assert_eq!(first.ciphertext, vec![1, 2, 3]);
    assert_eq!(first.tag, vec![4]);
    assert_eq!(first.iv, vec![5, 6]);
    assert_eq!(first.ciphertext_timestamp, 42);
}

#[test]
fn recorded_fingerprint_charges_the_fixed_fee() {
    let mut data = blank_data();
    let mut pool = start_fundraising(0, key(99)).unwrap();
    assert_eq!(TX_COST, 10_000_000);
    let event = record_fingerprint(
        &mut data,
        &mut pool,
        key(1),
        key(10),
        Fingerprint::from([7u8; 32]),
        vec![9],
        vec![8],
        vec![7],
        1,
    )
    .unwrap();
    assert_eq!(pool.total_fees_collected, 10_000_000);
    assert_eq!(data.fingerprints.len(), 1);
    assert_eq!(event.fingerprint.to_bytes(), [7u8; 32]);
    record_fingerprint(&mut data, &mut pool, key(1), key(10), Fingerprint::from([8u8; 32]), vec![], vec![], vec![], 2)
        .unwrap();
    assert_eq!(pool.total_fees_collected, 20_000_000);
    assert_eq!(data.fingerprints.len(), 2);
}

#[test]
fn recorded_fingerprint_is_refused_when_the_fee_counter_is_full() {
    let mut data = blank_data();
    let mut pool = start_fundraising(0, key(99)).unwrap();
    pool.total_fees_collected = u64::MAX - TX_COST + 1;
    let refused = record_fingerprint(
        &mut data,
        &mut pool,
        key(1),
        key(10),
        Fingerprint::from([7u8; 32]),
        vec![9],
        vec![8],
        vec![7],
        1,
    );
    assert_eq!(refused.err(), Some(FundraisingErrors::ArithmeticOverflow));
    assert_eq!(pool.total_fees_collected, u64::MAX - TX_COST + 1);
    assert!(data.fingerprints.is_empty());
    pool.total_fees_collected -= 1;
    assert!(add_data_fingerprint(&mut data, &mut pool, key(1), key(10), vec![9], vec![8], vec![7], 1).is_ok());
    assert_eq!(pool.total_fees_collected, u64::MAX);
}

#[test]
fn accepted_batch_logs_its_digest_and_feeds_the_pool() {
    let mut data = blank_data();
    let mut pool = start_fundraising(0, key(99)).unwrap();
    let ciphertext = vec![0xde, 0xad, 0xbe, 0xef];
    let event = add_data_fingerprint(
        &mut data,
        &mut pool,
        key(1),
        key(10),
        ciphertext.clone(),
        vec![1; 16],
        vec![2; 12],
        777,
    )
    .unwrap();
    let digest = blake3::hash(&ciphertext).to_bytes();
    assert_eq!(event.fingerprint.to_bytes(), digest);
    assert_eq!(event.ciphertext, ciphertext);
    assert_eq!(event.tag, vec![1; 16]);
    assert_eq!(event.iv, vec![2; 12]);
    assert_eq!(event.ciphertext_timestamp, 777);
    assert_eq!(event.ship, key(1));
    assert_eq!(event.data_account, key(10));
    assert_eq!(data.fingerprints.len(), 1);
    assert_eq!(data.fingerprints[0].to_bytes(), digest);
    assert_eq!(pool.total_fees_collected, TX_COST);

    let empty = add_data_fingerprint(&mut data, &mut pool, key(1), key(10), vec![], vec![], vec![], 778).unwrap();
    assert_eq!(empty.fingerprint.to_bytes(), EMPTY_DIGEST);
    assert_eq!(pool.total_fees_collected, 2 * TX_COST);
}

#[test]
fn several_batches_are_logged_in_order_without_a_fee() {
    let mut data = blank_data();
    data.fingerprints.push(Fingerprint::from([1u8; 32]));
    let ciphertexts = vec![vec![1u8], vec![2u8, 2], vec![]];
    let events = add_multiple_data_fingerprints(
        &mut data,
        key(1),
        key(10),
        ciphertexts.clone(),
        vec![vec![10], vec![20], vec![30]],
        vec![vec![11], vec![21], vec![31]],
        vec![100, 200, 300],
    );
    assert_eq!(events.len(), 3);
    assert_eq!(data.fingerprints.len(), 4);
    assert_eq!(data.fingerprints[0].to_bytes(), [1u8; 32]);
    for i in 0..3 {
        let digest = blake3::hash(&ciphertexts[i]).to_bytes();
        assert_eq!(data.fingerprints[i + 1].to_bytes(), digest);
        assert_eq!(events[i].fingerprint.to_bytes(), digest);
        assert_eq!(events[i].ciphertext, ciphertexts[i]);
        assert_eq!(events[i].tag, vec![10 * (i as u8 + 1)]);
        assert_eq!(events[i].iv, vec![10 * (i as u8 + 1) + 1]);
        assert_eq!(events[i].ciphertext_timestamp, 100 * (i as u64 + 1));
        assert_eq!(events[i].ship, key(1));
        assert_eq!(events[i].data_account, key(10));
    }
    assert_eq!(events[2].fingerprint.to_bytes(), EMPTY_DIGEST);
}

#[test]
fn several_batches_stop_at_the_shortest_list() {
    let mut data = blank_data();
    let events = add_multiple_data_fingerprints(
        &mut data,
        key(1),
        key(10),
        vec![vec![1u8], vec![2u8], vec![3u8]],
        vec![vec![10], vec![20]],
        vec![vec![11]],
        vec![100, 200, 300],
    );
    assert_eq!(events.len(), 1);
    assert_eq!(data.fingerprints.len(), 1);
    assert_eq!(events[0].ciphertext, vec![1u8]);
    let none = add_multiple_data_fingerprints(&mut data, key(1), key(10), vec![], vec![], vec![], vec![]);
    assert!(none.is_empty());
    assert_eq!(data.fingerprints.len(), 1);
}
