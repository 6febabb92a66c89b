use coffee_ledger::codec::{CodecError, CoffeeLot, Update, MAX_RECORD_SIZE};
use coffee_ledger::ledger::{Ledger, LedgerError};

fn alice() -> Vec<u8> {
    vec![0xa1, 0x1c, 0xe0]
}

fn bob() -> Vec<u8> {
    vec![0xb0, 0xb0]
}

fn fresh() -> Ledger {
    Ledger::open().expect("a fresh memory holds no records")
}

#[test]
fn scenario_register_create_update_read() {
    let mut l = fresh();
    assert!(l.register_user(&alice()));
    let id = l.add_lot(&alice(), "Jane".to_string(), "2024-01-01".to_string(), "Farm1".to_string(), 10);
    assert_eq!(id, Some(0));
    let r = l.update_lot(&alice(), 0, "Roasted".to_string(), "batch 7".to_string(), 20);
    assert_eq!(r, Some("Update successful".to_string()));
    let lot = l.get_lot(0).unwrap();
    assert_eq!(lot.status, "Roasted");
    assert_eq!(lot.updates.len(), 1);
    assert_eq!(lot.updates[0].status, "Roasted");
    assert_eq!(lot.updates[0].details, "batch 7");
    assert_eq!(lot.updates[0].timestamp, 20);
    assert_eq!(lot.updates[0].updated_by, alice());
    assert_eq!(lot.farmer, "Jane");
    assert_eq!(lot.harvest_date, "2024-01-01");
    assert_eq!(lot.location, "Farm1");
    assert_eq!(lot.timestamp, 10);
    assert!(l.get_lot(1).is_none());
    let none = l.add_lot(&bob(), "X".to_string(), "Y".to_string(), "Z".to_string(), 30);
    assert_eq!(none, None);
    assert_eq!(l.get_all_lots().len(), 1);
}

#[test]
fn new_lot_starts_harvested_and_empty() {
    let mut l = fresh();
    l.register_user(&alice());
    let id = l.create_lot(&alice(), "F".to_string(), "D".to_string(), "L".to_string(), 5).unwrap();
    let lot = l.get_lot(id).unwrap();
    assert_eq!(lot.status, "Harvested");
    assert!(lot.updates.is_empty());
    assert_eq!(lot.id, id);
}

#[test]
fn ids_strictly_increase() {
    let mut l = fresh();
    l.register_user(&alice());
    let mut last: Option<u64> = None;
    for i in 0..5u64 {
        let id = l.add_lot(&alice(), format!("farmer {i}"), "d".to_string(), "l".to_string(), i).unwrap();
        assert_eq!(id, i);
        if let Some(p) = last {
            assert!(p < id);
        }
        last = Some(id);
    }
    let ids: Vec<u64> = l.get_all_lots().iter().map(|x| x.id).collect();
    assert_eq!(ids, vec![0, 1, 2, 3, 4]);
}

#[test]
fn unregistered_callers_are_turned_away() {
    let mut l = fresh();
    assert!(!l.is_caller_registered(&bob()));
    assert_eq!(
        l.create_lot(&bob(), "a".to_string(), "b".to_string(), "c".to_string(), 1),
        Err(LedgerError::Unauthorized)
    );
    l.register_user(&alice());
    l.add_lot(&alice(), "a".to_string(), "b".to_string(), "c".to_string(), 1).unwrap();
    assert_eq!(
        l.append_update(&bob(), 0, "s".to_string(), "d".to_string(), 2),
        Err(LedgerError::Unauthorized)
    );
    assert_eq!(l.update_lot(&bob(), 0, "s".to_string(), "d".to_string(), 2), None);
    assert!(l.get_lot(0).unwrap().updates.is_empty());
    assert!(l.register_user(&bob()));
    assert!(l.is_caller_registered(&bob()));
    assert_eq!(l.append_update(&bob(), 0, "s".to_string(), "d".to_string(), 2), Ok(()));
    assert!(l.add_lot(&bob(), "a".to_string(), "b".to_string(), "c".to_string(), 3).is_some());
}

#[test]
fn registering_twice_is_harmless() {
    let mut l = fresh();
    assert!(l.register_user(&alice()));
    assert!(l.register_user(&alice()));
    assert!(l.is_caller_registered(&alice()));
    assert!(!l.is_caller_registered(&bob()));
}

#[test]
fn missing_lot_is_not_found() {
    let mut l = fresh();
    l.register_user(&alice());
    assert_eq!(
        l.append_update(&alice(), 7, "s".to_string(), "d".to_string(), 1),
        Err(LedgerError::NotFound)
    );
    assert_eq!(l.update_lot(&alice(), 7, "s".to_string(), "d".to_string(), 1), None);
    assert!(l.get_all_lots().is_empty());
}

#[test]
fn status_mirrors_last_update_and_trail_only_grows() {
    let mut l = fresh();
    l.register_user(&alice());
    l.register_user(&bob());
    let id = l.add_lot(&alice(), "a".to_string(), "b".to_string(), "c".to_string(), 1).unwrap();
    let statuses = ["Dried", "Milled", "Shipped"];
    let mut prev_len = 0;
    for (i, s) in statuses.iter().enumerate() {
        let who = if i % 2 == 0 { alice() } else { bob() };
        assert!(l.update_lot(&who, id, s.to_string(), format!("step {i}"), 100 + i as u64).is_some());
        let lot = l.get_lot(id).unwrap();
        assert_eq!(lot.status, *s);
        assert_eq!(lot.updates.last().unwrap().status, *s);
        assert_eq!(lot.updates.last().unwrap().updated_by, who);
        assert!(lot.updates.len() > prev_len);
        prev_len = lot.updates.len();
    }
    let lot = l.get_lot(id).unwrap();
    let trail: Vec<&str> = lot.updates.iter().map(|u| u.status.as_str()).collect();
    assert_eq!(trail, statuses.to_vec());
}

#[test]
fn oversized_lot_is_rejected_without_a_write() {
    let mut l = fresh();
    l.register_user(&alice());
    let big = "x".repeat(MAX_RECORD_SIZE);
    assert_eq!(
        l.create_lot(&alice(), big, "d".to_string(), "l".to_string(), 1),
        Err(LedgerError::TooLarge)
    );
    assert!(l.get_all_lots().is_empty());
    let id = l.add_lot(&alice(), "a".to_string(), "b".to_string(), "c".to_string(), 1).unwrap();
    assert_eq!(id, 0);
}

#[test]
fn update_that_overflows_record_is_rejected() {
    let mut l = fresh();
    l.register_user(&alice());
    let id = l.add_lot(&alice(), "a".to_string(), "b".to_string(), "c".to_string(), 1).unwrap();
    let mut n = 0;
    loop {
        match l.append_update(&alice(), id, format!("s{n}"), "details".to_string(), n) {
            Ok(()) => n += 1,
            Err(e) => {
                assert_eq!(e, LedgerError::TooLarge);
                break;
            }
        }
        assert!(n < 1000);
    }
    let lot = l.get_lot(id).unwrap();
    assert_eq!(lot.updates.len() as u64, n);
    assert_eq!(lot.status, format!("s{}", n - 1));
    assert!(lot.to_bytes().unwrap().len() <= MAX_RECORD_SIZE);
}

#[test]
fn restart_keeps_lots_and_users() {
    let mut l = fresh();
    l.register_user(&alice());
    l.add_lot(&alice(), "Jane".to_string(), "2024-01-01".to_string(), "Farm1".to_string(), 1);
    l.add_lot(&alice(), "Ana".to_string(), "2024-02-02".to_string(), "Farm2".to_string(), 2);
    l.update_lot(&alice(), 1, "Roasted".to_string(), "batch 7".to_string(), 3);
    let before = l.get_all_lots();
    let lot1 = l.get_lot(1);
    let mut l = l.restart().unwrap();
    assert_eq!(l.get_all_lots(), before);
    assert_eq!(l.get_lot(1), lot1);
    assert!(l.is_caller_registered(&alice()));
    assert_eq!(l.add_lot(&alice(), "N".to_string(), "d".to_string(), "l".to_string(), 4), Some(2));
}

#[test]
fn lot_record_round_trip() {
    let lot = CoffeeLot {
        id: 42,
        farmer: "José Café ☕".to_string(),
        harvest_date: "2024-01-01".to_string(),
        location: "Huila".to_string(),
        status: "Roasted".to_string(),
        updates: vec![
            Update { status: "Dried".to_string(), details: "".to_string(), timestamp: 7, updated_by: vec![1, 2] },
            Update { status: "Roasted".to_string(), details: "batch 7".to_string(), timestamp: u64::MAX, updated_by: vec![] },
        ],
        timestamp: 3,
    };
    let b = lot.to_bytes().unwrap();
    assert_eq!(CoffeeLot::from_bytes(&b), Ok(lot));
}

#[test]
fn update_record_exact_bytes() {
    let u = Update { status: "ok".to_string(), details: "é".to_string(), timestamp: 258, updated_by: vec![9] };
    let b = u.to_bytes().unwrap();
    let expected: Vec<u8> = vec![
        2, 0, 0, 0, b'o', b'k', //
        2, 0, 0, 0, 0xc3, 0xa9, //
        2, 1, 0, 0, 0, 0, 0, 0, //
        1, 0, 0, 0, 9,
    ];
    assert_eq!(b, expected);
    assert_eq!(Update::from_bytes(&b), Ok(u));
}

#[test]
fn corrupt_records_are_refused() {
    assert_eq!(CoffeeLot::from_bytes(&vec![1, 2, 3]), Err(CodecError::Corrupt));
    assert_eq!(Update::from_bytes(&vec![]), Err(CodecError::Corrupt));
    let u = Update { status: "a".to_string(), details: "b".to_string(), timestamp: 1, updated_by: vec![] };
    let mut b = u.to_bytes().unwrap();
    b.push(0);
    assert_eq!(Update::from_bytes(&b), Err(CodecError::Corrupt));
    let bad_utf8: Vec<u8> = vec![1, 0, 0, 0, 0xff, 0, 0, 0, 0, 0, 0, 0, 0, 0, 0, 0, 0, 0, 0, 0, 0];
    assert_eq!(Update::from_bytes(&bad_utf8), Err(CodecError::Corrupt));
}

#[test]
fn oversized_values_do_not_encode() {
    let u = Update { status: "s".repeat(MAX_RECORD_SIZE), details: String::new(), timestamp: 0, updated_by: vec![] };
    assert_eq!(u.to_bytes(), Err(CodecError::TooLarge));
    let lot = CoffeeLot {
        id: 0,
        farmer: String::new(),
        harvest_date: String::new(),
        location: String::new(),
        status: String::new(),
        updates: vec![u],
        timestamp: 0,
    };
    assert_eq!(lot.to_bytes(), Err(CodecError::TooLarge));
    let exact = Update { status: "s".repeat(MAX_RECORD_SIZE - 20), details: String::new(), timestamp: 0, updated_by: vec![] };
    assert_eq!(exact.to_bytes().unwrap().len(), MAX_RECORD_SIZE);
}
