//! Tests of the streak engine: consecutive days, same-day idempotence,
//! gap resets, and the raced first check-in.

use areuok::day_of;
use areuok::streak::CheckinLog;

const DAY: u64 = 86400;
const DEV: u128 = 0x1111;
const OTHER: u128 = 0x2222;

#[test]
fn day_of_counts_utc_days() {
    assert_eq!(day_of(0), 0);
    assert_eq!(day_of(86399), 0);
    assert_eq!(day_of(86400), 1);
    assert_eq!(day_of(10 * DAY + 12345), 10);
}

#[test]
fn first_checkin_has_streak_one() {
    let mut log = CheckinLog::new();
    let rec = log.record_checkin(DEV, 10 * DAY + 7);
    assert_eq!(rec.device_id, DEV);
    assert_eq!(rec.date, 10 * DAY + 7);
    assert_eq!(rec.streak, 1);
    assert_eq!(log.records.len(), 1);
}

#[test]
fn consecutive_days_count_up() {
    let mut log = CheckinLog::new();
    for k in 0..5u64 {
        let rec = log.record_checkin(DEV, (10 + k) * DAY + 100 * k);
        assert_eq!(rec.streak, (k + 1) as i32);
    }
    assert_eq!(log.records.len(), 5);
}

#[test]
fn same_day_checkin_returns_identical_record() {
    let mut log = CheckinLog::new();
    let first = log.record_checkin(DEV, 20 * DAY + 30);
    let second = log.record_checkin(DEV, 20 * DAY + 9000);
    assert_eq!(second.date, first.date);
    assert_eq!(second.streak, first.streak);
    assert_eq!(second.device_id, first.device_id);
    assert_eq!(log.records.len(), 1);
}

#[test]
fn one_day_gap_increments() {
    let mut log = CheckinLog::new();
    log.record_checkin(DEV, 10 * DAY);
    let rec = log.record_checkin(DEV, 11 * DAY + 500);
    assert_eq!(rec.streak, 2);
}

#[test]
fn gap_of_two_days_resets_to_one() {
    let mut log = CheckinLog::new();
    log.record_checkin(DEV, 10 * DAY);
    log.record_checkin(DEV, 11 * DAY);
    let rec = log.record_checkin(DEV, 13 * DAY + 42);
    assert_eq!(rec.streak, 1);
}

#[test]
fn large_gap_resets_to_one() {
    let mut log = CheckinLog::new();
    let r1 = log.record_checkin(DEV, 10 * DAY);
    assert_eq!(r1.streak, 1);
    let r2 = log.record_checkin(DEV, 400 * DAY);
    assert_eq!(r2.streak, 1);
    assert_eq!(log.records.len(), 2);
}

#[test]
fn racing_first_checkins_persist_one_record() {
    // Both racers read an empty log and computed streak 1; their inserts
    // serialize at the storage layer.
    let mut log = CheckinLog::new();
    let winner = log.checkin_commit(DEV, 30 * DAY + 1, 1);
    let loser = log.checkin_commit(DEV, 30 * DAY + 2, 1);
    assert_eq!(log.records.len(), 1);
    assert_eq!(winner.streak, 1);
    assert_eq!(loser.date, winner.date);
    assert_eq!(loser.streak, 1);
}

#[test]
fn many_racing_first_checkins_persist_one_record() {
    // Three racers read the empty log, computed streak 1, and their
    // inserts serialize one after the other.
    let mut log = CheckinLog::new();
    let r1 = log.checkin_commit(DEV, 30 * DAY + 1, 1);
    let r2 = log.checkin_commit(DEV, 30 * DAY + 2, 1);
    let r3 = log.checkin_commit(DEV, 30 * DAY + 3, 1);
    assert_eq!(log.records.len(), 1);
    assert_eq!(r2, r1);
    assert_eq!(r3, r1);
    assert_eq!(r1.streak, 1);
}

#[test]
fn devices_have_independent_streaks() {
    let mut log = CheckinLog::new();
    log.record_checkin(DEV, 10 * DAY);
    log.record_checkin(DEV, 11 * DAY);
    let other = log.record_checkin(OTHER, 11 * DAY);
    assert_eq!(other.streak, 1);
    let dev_rec = log.record_checkin(DEV, 12 * DAY);
    assert_eq!(dev_rec.streak, 3);
}
