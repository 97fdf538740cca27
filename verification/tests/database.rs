use suspension_engine::db::Database;
use suspension_engine::error::PersistenceError;
use suspension_engine::suspension::Suspension;

fn record(id: i64, guild_id: i64, user_id: i64, from: i64, until: i64, active: bool) -> Suspension {
    Suspension {
        id,
        guild_id,
        user_id,
        moderator_id: 900,
        previous_roles: vec![String::from("11"), String::from("12")],
        from_timestamp: from,
        until_timestamp: until,
        reason: Some(String::from("spam")),
        active,
    }
}

fn add(db: &mut Database, guild_id: i64, user_id: i64, from: i64, until: i64) -> i64 {
    db.log_suspension(
        guild_id,
        user_id,
        900,
        vec![String::from("11"), String::from("12")],
        from,
        until,
        Some(String::from("spam")),
    )
    .unwrap()
}

fn ids(records: &[Suspension]) -> Vec<i64> {
    records.iter().map(|r| r.id).collect()
}

#[test]
fn a_new_table_is_empty() {
    let mut db = Database::new();
    assert_eq!(db.len(), 0);
    assert!(db.claim_due(i64::MAX).is_empty());
    assert!(db.get_suspensions(1, 2).is_empty());
    assert!(db.get_active_suspensions(1, 2, 0).is_empty());
    assert!(db.get_all_active_suspensions(1, 0).is_empty());
    assert!(db.claim_one(1).is_none());
}

#[test]
fn created_records_are_active_and_end_after_they_begin() {
    let mut db = Database::new();
    assert_eq!(add(&mut db, 1, 2, 100, 200), 1);
    assert_eq!(add(&mut db, 1, 3, 150, 151), 2);
    assert_eq!(db.len(), 2);
    let found = db.get_all_active_suspensions(1, 0);
    assert_eq!(found, vec![record(1, 1, 2, 100, 200, true), record(2, 1, 3, 150, 151, true)]);
    for r in &found {
        assert!(r.active);
        assert!(r.until_timestamp > r.from_timestamp);
    }
}

#[test]
fn a_record_that_does_not_end_after_it_began_is_refused() {
    let mut db = Database::new();
    assert_eq!(
        db.log_suspension(1, 2, 3, vec![], 100, 100, None),
        Err(PersistenceError::InvalidInterval)
    );
    assert_eq!(
        db.log_suspension(1, 2, 3, vec![], 100, 99, None),
        Err(PersistenceError::InvalidInterval)
    );
    assert_eq!(db.len(), 0);
    assert_eq!(db.log_suspension(1, 2, 3, vec![], 100, 101, None), Ok(1));
}

#[test]
fn the_table_does_not_check_for_a_suspension_in_force() {
    let mut db = Database::new();
    assert_eq!(add(&mut db, 1, 2, 100, 200), 1);
    assert_eq!(add(&mut db, 1, 2, 100, 200), 2);
    assert_eq!(ids(&db.get_active_suspensions(1, 2, 150)), vec![1, 2]);
}

#[test]
fn claim_due_takes_exactly_what_is_due() {
    let mut db = Database::new();
    add(&mut db, 1, 2, 0, 100);
    add(&mut db, 1, 3, 0, 200);
    add(&mut db, 2, 2, 0, 150);
    add(&mut db, 2, 4, 0, 151);
    let claimed = db.claim_due(150);
    assert_eq!(claimed, vec![record(1, 1, 2, 0, 100, true), record(3, 2, 2, 0, 150, true)]);
    // What was claimed is inactive now, the rest is as it was.
    let history = db.get_suspensions(1, 2);
    assert_eq!(history, vec![record(1, 1, 2, 0, 100, false)]);
    assert_eq!(db.get_suspensions(2, 2), vec![record(3, 2, 2, 0, 150, false)]);
    assert_eq!(db.get_suspensions(1, 3), vec![record(2, 1, 3, 0, 200, true)]);
    assert_eq!(db.get_suspensions(2, 4), vec![record(4, 2, 4, 0, 151, true)]);
    assert_eq!(db.len(), 4);
}

#[test]
fn claim_due_at_the_very_second() {
    let mut db = Database::new();
    add(&mut db, 1, 2, 0, 100);
    assert!(db.claim_due(99).is_empty());
    assert_eq!(ids(&db.claim_due(100)), vec![1]);
}

#[test]
fn claim_due_never_returns_a_record_twice() {
    let mut db = Database::new();
    add(&mut db, 1, 2, 0, 100);
    let mut successes = 0;
    for attempt in 0..10 {
        let claimed = db.claim_due(100 + attempt);
        if !claimed.is_empty() {
            assert_eq!(ids(&claimed), vec![1]);
            successes += 1;
        }
    }
    assert_eq!(successes, 1);
    // Not with an earlier or a much later clock either.
    assert!(db.claim_due(0).is_empty());
    assert!(db.claim_due(i64::MAX).is_empty());
}

#[test]
fn claims_with_overlapping_times_share_no_record() {
    let mut db = Database::new();
    for k in 0..20 {
        add(&mut db, 1, k, 0, 10 * (k + 1));
    }
    let mut seen: Vec<i64> = Vec::new();
    for now in [35, 20, 35, 120, 90, 500, 500] {
        for r in db.claim_due(now) {
            assert!(!seen.contains(&r.id));
            assert!(r.active);
            assert!(r.until_timestamp <= now);
            seen.push(r.id);
        }
    }
    seen.sort();
    assert_eq!(seen, (1..=20).collect::<Vec<i64>>());
}

#[test]
fn claim_one_claims_once() {
    let mut db = Database::new();
    add(&mut db, 1, 2, 0, 100);
    add(&mut db, 1, 3, 0, 100);
    assert_eq!(db.claim_one(2), Some(record(2, 1, 3, 0, 100, true)));
    assert_eq!(db.claim_one(2), None);
    assert_eq!(db.claim_one(3), None);
    assert_eq!(db.claim_one(0), None);
    assert_eq!(db.claim_one(-1), None);
    // The other record is untouched, and the monitor does not get the
    // claimed one.
    assert_eq!(ids(&db.claim_due(100)), vec![1]);
}

#[test]
fn a_record_claimed_by_the_monitor_cannot_be_claimed_by_hand() {
    let mut db = Database::new();
    add(&mut db, 1, 2, 0, 100);
    assert_eq!(ids(&db.claim_due(100)), vec![1]);
    assert_eq!(db.claim_one(1), None);
    assert!(db.claim_member(1, 2, 0).is_empty());
}

#[test]
fn set_suspension_inactive_says_whether_it_lifted() {
    let mut db = Database::new();
    add(&mut db, 1, 2, 0, 100);
    assert!(db.set_suspension_inactive(1));
    assert!(!db.set_suspension_inactive(1));
    assert!(!db.set_suspension_inactive(5));
    assert_eq!(db.get_suspensions(1, 2), vec![record(1, 1, 2, 0, 100, false)]);
}

#[test]
fn active_suspensions_are_those_not_yet_due() {
    let mut db = Database::new();
    add(&mut db, 1, 2, 0, 100);
    add(&mut db, 1, 2, 0, 300);
    add(&mut db, 1, 3, 0, 300);
    add(&mut db, 2, 2, 0, 300);
    assert_eq!(ids(&db.get_active_suspensions(1, 2, 50)), vec![1, 2]);
    assert_eq!(ids(&db.get_active_suspensions(1, 2, 99)), vec![1, 2]);
    assert_eq!(ids(&db.get_active_suspensions(1, 2, 100)), vec![2]);
    assert_eq!(ids(&db.get_active_suspensions(1, 2, 300)), Vec::<i64>::new());
    assert_eq!(ids(&db.get_all_active_suspensions(1, 100)), vec![2, 3]);
    assert_eq!(ids(&db.get_all_active_suspensions(2, 100)), vec![4]);
    assert_eq!(ids(&db.get_all_active_suspensions(3, 100)), Vec::<i64>::new());
    db.claim_one(2);
    assert_eq!(ids(&db.get_active_suspensions(1, 2, 50)), vec![1]);
    assert_eq!(ids(&db.get_all_active_suspensions(1, 100)), vec![3]);
}

#[test]
fn claim_member_takes_what_is_in_force() {
    let mut db = Database::new();
    add(&mut db, 1, 2, 0, 100);
    add(&mut db, 1, 2, 0, 300);
    add(&mut db, 1, 3, 0, 300);
    add(&mut db, 2, 2, 0, 300);
    assert_eq!(ids(&db.claim_member(1, 2, 100)), vec![2]);
    assert!(db.claim_member(1, 2, 100).is_empty());
    // The record that was due already is left to the monitor.
    assert_eq!(ids(&db.claim_due(100)), vec![1]);
    assert_eq!(ids(&db.get_all_active_suspensions(1, 100)), vec![3]);
    assert_eq!(ids(&db.get_all_active_suspensions(2, 100)), vec![4]);
}

#[test]
fn history_is_ordered_by_beginning() {
    let mut db = Database::new();
    add(&mut db, 1, 2, 500, 600);
    add(&mut db, 1, 2, 100, 200);
    add(&mut db, 1, 3, 50, 60);
    add(&mut db, 1, 2, 300, 400);
    add(&mut db, 1, 2, 100, 150);
    add(&mut db, 2, 2, 1, 2);
    db.claim_due(250);
    let history = db.get_suspensions(1, 2);
    assert_eq!(
        history,
        vec![
            record(2, 1, 2, 100, 200, false),
            record(5, 1, 2, 100, 150, false),
            record(4, 1, 2, 300, 400, true),
            record(1, 1, 2, 500, 600, true),
        ]
    );
    assert_eq!(ids(&db.get_suspensions(1, 3)), vec![3]);
    assert_eq!(ids(&db.get_suspensions(2, 2)), vec![6]);
    assert!(db.get_suspensions(2, 3).is_empty());
}

#[test]
fn from_records_takes_a_table() {
    let records = vec![
        record(3, 1, 2, 0, 100, false),
        record(4, 1, 3, 0, 100, true),
        record(9, 1, 4, 0, 100, true),
    ];
    let mut db = Database::from_records(records).unwrap();
    assert_eq!(db.len(), 3);
    assert_eq!(ids(&db.claim_due(100)), vec![4, 9]);
    assert_eq!(add(&mut db, 1, 5, 0, 1), 10);
    let mut empty = Database::from_records(vec![]).unwrap();
    assert_eq!(add(&mut empty, 1, 5, 0, 1), 1);
}

#[test]
fn from_records_refuses_what_is_no_table() {
    let bad = |records: Vec<Suspension>| {
        assert_eq!(Database::from_records(records).err(), Some(PersistenceError::MalformedRow));
    };
    bad(vec![record(0, 1, 2, 0, 100, true)]);
    bad(vec![record(-4, 1, 2, 0, 100, true)]);
    bad(vec![record(2, 1, 2, 0, 100, true), record(2, 1, 3, 0, 100, true)]);
    bad(vec![record(2, 1, 2, 0, 100, true), record(1, 1, 3, 0, 100, true)]);
    bad(vec![record(1, 1, 2, 100, 100, true)]);
    bad(vec![record(1, 1, 2, 100, 0, true)]);
    bad(vec![record(i64::MAX, 1, 2, 0, 100, true)]);
}

#[test]
fn identities_run_out() {
    let mut db = Database::from_records(vec![record(i64::MAX - 2, 1, 2, 0, 100, true)]).unwrap();
    assert_eq!(db.log_suspension(1, 2, 3, vec![], 0, 1, None), Ok(i64::MAX - 1));
    assert_eq!(
        db.log_suspension(1, 2, 3, vec![], 0, 1, None),
        Err(PersistenceError::IdentityExhausted)
    );
    assert_eq!(
        db.log_suspension(1, 2, 3, vec![], 1, 0, None),
        Err(PersistenceError::InvalidInterval)
    );
    assert_eq!(db.len(), 2);
}
