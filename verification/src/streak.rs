//! The streak engine: the append-only log of check-in records and the
//! idempotent per-day state transition over it.
//!
//! The linchpin invariant is that the log holds at most one record per
//! device and UTC calendar day. A check-in on a day that already has a
//! record returns that record unchanged; otherwise a new record is inserted
//! whose streak continues the previous day's streak or restarts at 1.

use vstd::prelude::*;
use vstd::arithmetic::div_mod::lemma_div_is_ordered;
use vstd::arithmetic::div_mod::lemma_div_by_multiple;
use vstd::arithmetic::mul::lemma_mul_inequality;
use crate::models::SigninRecord;
use crate::spec_day_of;
use crate::day_of;

verus! {

/// At most one record per device and UTC day, and every streak is at least 1
/// and no larger than the number of calendar days since the epoch plus one.
pub open spec fn wf_records(s: Seq<SigninRecord>) -> bool {
    &&& forall|i: int, j: int|
        #![trigger s[i].device_id, s[j].device_id]
        0 <= i < s.len() && 0 <= j < s.len() && i != j && s[i].device_id == s[j].device_id
            ==> spec_day_of(s[i].date) != spec_day_of(s[j].date)
    &&& forall|i: int|
        0 <= i < s.len() ==> 1 <= #[trigger] s[i].streak && s[i].streak - 1 <= spec_day_of(
            s[i].date,
        )
}

/// The log holds a record of `dev` on calendar day `day`.
pub open spec fn has_checkin_on(s: Seq<SigninRecord>, dev: u128, day: u64) -> bool {
    exists|i: int|
        0 <= i < s.len() && s[i].device_id == dev && spec_day_of(s[i].date) == day
}

/// The record of `dev` on day `day`; meaningful when `has_checkin_on` holds,
/// and unique when the log is well formed.
pub open spec fn checkin_on(s: Seq<SigninRecord>, dev: u128, day: u64) -> SigninRecord {
    s[choose|i: int|
        0 <= i < s.len() && s[i].device_id == dev && spec_day_of(s[i].date) == day]
}

/// How many records of `dev` on day `day` the log holds.
pub open spec fn checkin_count_on(s: Seq<SigninRecord>, dev: u128, day: u64) -> nat
    decreases s.len(),
{
    if s.len() == 0 {
        0
    } else {
        checkin_count_on(s.drop_last(), dev, day) + (if s.last().device_id == dev
            && spec_day_of(s.last().date) == day {
            1nat
        } else {
            0nat
        })
    }
}

/// The most recent record of `dev` falls exactly on the day before `today`:
/// a record of yesterday exists and no record of `dev` reaches `today`.
pub open spec fn latest_is_yesterday(s: Seq<SigninRecord>, dev: u128, today: u64) -> bool {
    &&& today >= 1
    &&& has_checkin_on(s, dev, (today - 1) as u64)
    &&& forall|i: int|
        0 <= i < s.len() && s[i].device_id == dev ==> spec_day_of(#[trigger] s[i].date) < today
}

/// The streak a fresh record of `dev` gets on day `today`: one more than
/// yesterday's streak when the most recent record is from yesterday, else 1.
pub open spec fn spec_next_streak(s: Seq<SigninRecord>, dev: u128, today: u64) -> int {
    if latest_is_yesterday(s, dev, today) {
        checkin_on(s, dev, (today - 1) as u64).streak + 1
    } else {
        1
    }
}

/// The record a first check-in of `dev` at time `now` would insert.
pub open spec fn spec_new_record(s: Seq<SigninRecord>, dev: u128, now: u64) -> SigninRecord {
    SigninRecord {
        device_id: dev,
        date: now,
        streak: spec_next_streak(s, dev, spec_day_of(now)) as i32,
    }
}

/// The storage-level insert of an already computed record: a no-op when a
/// record of `dev` for the day of `now` exists (the concurrent winner's),
/// an append otherwise.
pub open spec fn commit_step(
    s: Seq<SigninRecord>,
    dev: u128,
    now: u64,
    streak: i32,
) -> Seq<SigninRecord> {
    if has_checkin_on(s, dev, spec_day_of(now)) {
        s
    } else {
        s.push(SigninRecord { device_id: dev, date: now, streak })
    }
}

/// The whole check-in transition: a no-op when `dev` already checked in on
/// the day of `now`, otherwise an append of the next record.
pub open spec fn checkin_step(s: Seq<SigninRecord>, dev: u128, now: u64) -> Seq<SigninRecord> {
    commit_step(s, dev, now, spec_next_streak(s, dev, spec_day_of(now)) as i32)
}

/// The record a check-in of `dev` at time `now` returns: the existing record
/// of the day if there is one, else the freshly inserted one.
pub open spec fn spec_checkin_result(s: Seq<SigninRecord>, dev: u128, now: u64) -> SigninRecord {
    if has_checkin_on(s, dev, spec_day_of(now)) {
        checkin_on(s, dev, spec_day_of(now))
    } else {
        spec_new_record(s, dev, now)
    }
}

/// In a well-formed log the record of a device and day is unique, so any
/// index that matches carries `checkin_on`'s value.
pub proof fn lemma_checkin_on_unique(s: Seq<SigninRecord>, dev: u128, day: u64, i: int)
    requires
        wf_records(s),
        0 <= i < s.len(),
        s[i].device_id == dev,
        spec_day_of(s[i].date) == day,
    ensures
        has_checkin_on(s, dev, day),
        checkin_on(s, dev, day) == s[i],
{
    let j = choose|j: int|
        0 <= j < s.len() && s[j].device_id == dev && spec_day_of(s[j].date) == day;
    assert(s[i].device_id == s[j].device_id);
}

/// The append-only log of check-in records.
pub struct CheckinLog {
    pub records: Vec<SigninRecord>,
}

impl CheckinLog {
    /// The log's invariant.
    pub open spec fn well_formed(&self) -> bool {
        wf_records(self.records@)
    }

    /// Creates an empty log.
    pub fn new() -> (r: Self)
        ensures
            r.records@ == Seq::<SigninRecord>::empty(),
            r.well_formed(),
    {
        CheckinLog { records: Vec::new() }
    }

    /// Looks up the record of `dev` on calendar day `day`.
    pub fn find_on_day(&self, dev: u128, day: u64) -> (r: Option<SigninRecord>)
        requires
            self.well_formed(),
        ensures
            r is Some <==> has_checkin_on(self.records@, dev, day),
            (r matches Some(rec) ==> rec == checkin_on(self.records@, dev, day)),
    {
        let n = self.records.len();
        let mut i: usize = 0;
        while i < n
            invariant
                n == self.records@.len(),
                0 <= i <= n,
                self.well_formed(),
                forall|k: int|
                    0 <= k < i ==> !(#[trigger] self.records@[k].device_id == dev
                        && spec_day_of(self.records@[k].date) == day),
            decreases n - i,
        {
            let rec = self.records[i];
            if rec.device_id == dev && day_of(rec.date) == day {
                proof {
                    lemma_checkin_on_unique(self.records@, dev, day, i as int);
                }
                return Some(rec);
            }
            i += 1;
        }
        None
    }

    /// Looks up the most recent record of `dev`, the one with the greatest
    /// timestamp, which by well-formedness also carries the greatest day.
    pub fn latest_record(&self, dev: u128) -> (r: Option<SigninRecord>)
        requires
            self.well_formed(),
        ensures
            r is Some <==> exists|i: int|
                0 <= i < self.records@.len() && self.records@[i].device_id == dev,
            (r matches Some(rec) ==> {
                &&& exists|i: int|
                    0 <= i < self.records@.len() && self.records@[i] == rec
                &&& rec.device_id == dev
                &&& forall|i: int|
                    0 <= i < self.records@.len() && self.records@[i].device_id == dev
                        ==> spec_day_of(#[trigger] self.records@[i].date) <= spec_day_of(rec.date)
            }),
    {
        let n = self.records.len();
        let mut best: Option<SigninRecord> = None;
        let mut i: usize = 0;
        while i < n
            invariant
                n == self.records@.len(),
                0 <= i <= n,
                best is Some <==> exists|k: int|
                    0 <= k < i && self.records@[k].device_id == dev,
                (best matches Some(b) ==> {
                    &&& exists|k: int| 0 <= k < i && self.records@[k] == b
                    &&& b.device_id == dev
                    &&& forall|k: int|
                        0 <= k < i && self.records@[k].device_id == dev ==> #[trigger] self.records@[k].date
                            <= b.date
                }),
            decreases n - i,
        {
            let rec = self.records[i];
            if rec.device_id == dev {
                match best {
                    Some(b) => {
                        if rec.date > b.date {
                            best = Some(rec);
                        }
                    },
                    None => {
                        best = Some(rec);
                    },
                }
            }
            i += 1;
        }
        proof {
            if best is Some {
                let b = best->0;
                assert forall|k: int|
                    0 <= k < self.records@.len() && self.records@[k].device_id == dev implies
                    spec_day_of(#[trigger] self.records@[k].date) <= spec_day_of(b.date) by {
                    lemma_div_is_ordered(self.records@[k].date as int, b.date as int, 86400);
                }
            }
        }
        best
    }

    /// The storage-level insert. It enforces the one-record-per-day
    /// invariant: when a record of `dev` for the day of `now` already exists
    /// (a concurrent call won the race), the computed record is discarded
    /// and the existing one is returned.
    pub fn checkin_commit(&mut self, dev: u128, now: u64, streak: i32) -> (r: SigninRecord)
        requires
            old(self).well_formed(),
            1 <= streak,
            streak - 1 <= spec_day_of(now),
        ensures
            final(self).well_formed(),
            final(self).records@ == commit_step(old(self).records@, dev, now, streak),
            r == (if has_checkin_on(old(self).records@, dev, spec_day_of(now)) {
                checkin_on(old(self).records@, dev, spec_day_of(now))
            } else {
                SigninRecord { device_id: dev, date: now, streak }
            }),
            has_checkin_on(final(self).records@, dev, spec_day_of(now)),
            r == checkin_on(final(self).records@, dev, spec_day_of(now)),
    {
        let day = day_of(now);
        match self.find_on_day(dev, day) {
            Some(rec) => rec,
            None => {
                let rec = SigninRecord { device_id: dev, date: now, streak };
                self.records.push(rec);
                proof {
                    let s = old(self).records@;
                    let s2 = self.records@;
                    assert forall|i: int, j: int|
                        #![trigger s2[i].device_id, s2[j].device_id]
                        0 <= i < s2.len() && 0 <= j < s2.len() && i != j && s2[i].device_id
                            == s2[j].device_id implies spec_day_of(s2[i].date) != spec_day_of(
                        s2[j].date,
                    ) by {
                        if i == s.len() || j == s.len() {
                            let k = if i == s.len() { j } else { i };
                            assert(0 <= k < s.len() && s2[k] == s[k]);
                        }
                    }
                    lemma_checkin_on_unique(s2, dev, day, s.len() as int);
                }
                rec
            },
        }
    }

    /// The check-in operation: idempotent within a UTC day, and continuing
    /// or restarting the streak across days.
    pub fn record_checkin(&mut self, dev: u128, now: u64) -> (r: SigninRecord)
        requires
            old(self).well_formed(),
            spec_day_of(now) + 1 <= i32::MAX,
        ensures
            final(self).well_formed(),
            final(self).records@ == checkin_step(old(self).records@, dev, now),
            r == spec_checkin_result(old(self).records@, dev, now),
            has_checkin_on(old(self).records@, dev, spec_day_of(now)) ==> final(self).records@
                == old(self).records@,
    {
        let day = day_of(now);
        if let Some(rec) = self.find_on_day(dev, day) {
            return rec;
        }
        let last = self.latest_record(dev);
        let streak: i32;
        match last {
            Some(rec) => {
                let rec_day = day_of(rec.date);
                if day >= 1 && rec_day == day - 1 {
                    proof {
                        let s = self.records@;
                        let i = choose|i: int| 0 <= i < s.len() && s[i] == rec;
                        assert(s[i].streak - 1 <= spec_day_of(s[i].date));
                        lemma_checkin_on_unique(s, dev, (day - 1) as u64, i);
                        assert(latest_is_yesterday(s, dev, day));
                    }
                    streak = rec.streak + 1;
                } else {
                    proof {
                        let s = self.records@;
                        if latest_is_yesterday(s, dev, day) {
                            let j = choose|j: int|
                                0 <= j < s.len() && s[j].device_id == dev && spec_day_of(
                                    s[j].date,
                                ) == (day - 1) as u64;
                            assert(spec_day_of(s[j].date) <= spec_day_of(rec.date));
                        }
                    }
                    streak = 1;
                }
            },
            None => {
                proof {
                    let s = self.records@;
                    if latest_is_yesterday(s, dev, day) {
                        let j = choose|j: int|
                            0 <= j < s.len() && s[j].device_id == dev && spec_day_of(s[j].date)
                                == (day - 1) as u64;
                    }
                }
                streak = 1;
            },
        }
        self.checkin_commit(dev, now, streak)
    }
}

/// The check-in transition keeps the log well formed, and on a fresh day it
/// appends exactly the record that `spec_checkin_result` describes.
pub proof fn lemma_step_preserves_wf(s: Seq<SigninRecord>, dev: u128, now: u64)
    requires
        wf_records(s),
        spec_day_of(now) + 1 <= i32::MAX,
    ensures
        wf_records(checkin_step(s, dev, now)),
        1 <= spec_next_streak(s, dev, spec_day_of(now)) <= spec_day_of(now) + 1,
        has_checkin_on(checkin_step(s, dev, now), dev, spec_day_of(now)),
        checkin_on(checkin_step(s, dev, now), dev, spec_day_of(now)) == spec_checkin_result(
            s,
            dev,
            now,
        ),
{
    let day = spec_day_of(now);
    if latest_is_yesterday(s, dev, day) {
        let j = choose|j: int|
            0 <= j < s.len() && s[j].device_id == dev && spec_day_of(s[j].date) == (day - 1) as u64;
        lemma_checkin_on_unique(s, dev, (day - 1) as u64, j);
        assert(s[j].streak - 1 <= spec_day_of(s[j].date));
    }
    if has_checkin_on(s, dev, day) {
        let i = choose|i: int|
            0 <= i < s.len() && s[i].device_id == dev && spec_day_of(s[i].date) == day;
        lemma_checkin_on_unique(s, dev, day, i);
    } else {
        let s2 = checkin_step(s, dev, now);
        assert(s2 == s.push(spec_new_record(s, dev, now)));
        assert forall|i: int, j: int|
            #![trigger s2[i].device_id, s2[j].device_id]
            0 <= i < s2.len() && 0 <= j < s2.len() && i != j && s2[i].device_id
                == s2[j].device_id implies spec_day_of(s2[i].date) != spec_day_of(s2[j].date) by {
            if i == s.len() || j == s.len() {
                let k = if i == s.len() { j } else { i };
                assert(0 <= k < s.len() && s2[k] == s[k]);
            }
        }
        lemma_checkin_on_unique(s2, dev, day, s.len() as int);
    }
}

/// Checking in twice on the same UTC calendar day leaves the log as after
/// the first check-in and returns the identical record both times: no
/// duplicate record is ever created.
pub proof fn lemma_checkin_idempotent(s: Seq<SigninRecord>, dev: u128, now1: u64, now2: u64)
    requires
        wf_records(s),
        spec_day_of(now1) == spec_day_of(now2),
        spec_day_of(now1) + 1 <= i32::MAX,
    ensures
        checkin_step(checkin_step(s, dev, now1), dev, now2) == checkin_step(s, dev, now1),
        spec_checkin_result(checkin_step(s, dev, now1), dev, now2) == spec_checkin_result(
            s,
            dev,
            now1,
        ),
{
    let day = spec_day_of(now1);
    lemma_step_preserves_wf(s, dev, now1);
    let s1 = checkin_step(s, dev, now1);
    assert(has_checkin_on(s1, dev, day));
}

/// A gap of at least two days since every previous check-in of the device
/// resets the streak to 1.
pub proof fn lemma_gap_resets_streak(s: Seq<SigninRecord>, dev: u128, today: u64)
    requires
        wf_records(s),
        forall|i: int|
            0 <= i < s.len() && s[i].device_id == dev ==> spec_day_of(#[trigger] s[i].date) + 2
                <= today,
    ensures
        spec_next_streak(s, dev, today) == 1,
{
    if latest_is_yesterday(s, dev, today) {
        let j = choose|j: int|
            0 <= j < s.len() && s[j].device_id == dev && spec_day_of(s[j].date) == (today
                - 1) as u64;
        assert(spec_day_of(s[j].date) + 2 <= today);
    }
}

/// A log without records of `dev` counts zero records of `dev` on any day.
pub proof fn lemma_count_zero_when_absent(s: Seq<SigninRecord>, dev: u128, day: u64)
    requires
        forall|i: int| 0 <= i < s.len() ==> (#[trigger] s[i].device_id) != dev,
    ensures
        checkin_count_on(s, dev, day) == 0,
    decreases s.len(),
{
    if s.len() > 0 {
        lemma_count_zero_when_absent(s.drop_last(), dev, day);
    }
}

/// Two racing first-time check-ins of the same device on the same day, each
/// having computed its streak from the state before either insert, commit
/// one after the other: exactly one record is persisted, with streak 1, and
/// the second insert is the no-op that re-reads the winner's record.
pub proof fn lemma_racing_first_checkins(
    s: Seq<SigninRecord>,
    dev: u128,
    now1: u64,
    now2: u64,
    streak1: i32,
    streak2: i32,
)
    requires
        wf_records(s),
        forall|i: int| 0 <= i < s.len() ==> (#[trigger] s[i].device_id) != dev,
        spec_day_of(now1) == spec_day_of(now2),
        streak1 == spec_next_streak(s, dev, spec_day_of(now1)),
        streak2 == spec_next_streak(s, dev, spec_day_of(now2)),
    ensures
        streak1 == 1 && streak2 == 1,
        commit_step(commit_step(s, dev, now1, streak1), dev, now2, streak2) == commit_step(
            s,
            dev,
            now1,
            streak1,
        ),
        checkin_count_on(commit_step(s, dev, now1, streak1), dev, spec_day_of(now1)) == 1,
{
    let day = spec_day_of(now1);
    if latest_is_yesterday(s, dev, day) {
        let j = choose|j: int|
            0 <= j < s.len() && s[j].device_id == dev && spec_day_of(s[j].date) == (day - 1) as u64;
    }
    assert(!has_checkin_on(s, dev, day));
    let s1 = commit_step(s, dev, now1, streak1);
    let rec = SigninRecord { device_id: dev, date: now1, streak: streak1 };
    assert(s1 == s.push(rec));
    assert(has_checkin_on(s1, dev, day)) by {
        assert(s1[s.len() as int] == rec);
    }
    lemma_count_zero_when_absent(s, dev, day);
    assert(s1.drop_last() == s);
}

/// The storage states that racing first-time check-ins of `dev` reach:
/// each racer read the log before any of them wrote, found no record of
/// `dev`, computed streak 1, and their inserts serialize in the order of
/// `nows`.
pub open spec fn commit_race(s: Seq<SigninRecord>, dev: u128, nows: Seq<u64>) -> Seq<SigninRecord>
    decreases nows.len(),
{
    if nows.len() == 0 {
        s
    } else {
        commit_step(commit_race(s, dev, nows.drop_last()), dev, nows.last(), 1)
    }
}

/// However many first-time check-ins of the same device race on the same
/// UTC day, only the first serialized insert lands: every later one is the
/// no-op that re-reads the winner's record, so exactly one record for the
/// day is persisted and its streak is 1. Each later insert returns
/// `checkin_on` of its pre-state, which this lemma pins to the winner's
/// record; a racer that reads only after the winner's insert returns the
/// same record by `record_checkin`'s same-day clause, proved for every
/// state. This holds for any prefix of the race as well, so every
/// interleaving of the serialized inserts is covered.
pub proof fn lemma_racing_checkins_single_record(s: Seq<SigninRecord>, dev: u128, nows: Seq<u64>)
    requires
        wf_records(s),
        forall|i: int| 0 <= i < s.len() ==> (#[trigger] s[i].device_id) != dev,
        nows.len() >= 1,
        forall|k: int|
            0 <= k < nows.len() ==> spec_day_of(#[trigger] nows[k]) == spec_day_of(nows[0]),
    ensures
        commit_race(s, dev, nows) == s.push(
            SigninRecord { device_id: dev, date: nows[0], streak: 1 },
        ),
        wf_records(commit_race(s, dev, nows)),
        has_checkin_on(commit_race(s, dev, nows), dev, spec_day_of(nows[0])),
        checkin_on(commit_race(s, dev, nows), dev, spec_day_of(nows[0])) == (SigninRecord {
            device_id: dev,
            date: nows[0],
            streak: 1,
        }),
        checkin_count_on(commit_race(s, dev, nows), dev, spec_day_of(nows[0])) == 1,
    decreases nows.len(),
{
    let day = spec_day_of(nows[0]);
    let rec1 = SigninRecord { device_id: dev, date: nows[0], streak: 1 };
    let s1 = s.push(rec1);
    if nows.len() == 1 {
        assert(commit_race(s, dev, nows.drop_last()) == s);
        assert(!has_checkin_on(s, dev, day)) by {
            if has_checkin_on(s, dev, day) {
                let w = choose|w: int|
                    0 <= w < s.len() && s[w].device_id == dev && spec_day_of(s[w].date) == day;
            }
        }
        assert(nows.last() == nows[0]);
        assert(commit_race(s, dev, nows) == s1);
        assert forall|i: int, j: int|
            #![trigger s1[i].device_id, s1[j].device_id]
            0 <= i < s1.len() && 0 <= j < s1.len() && i != j && s1[i].device_id
                == s1[j].device_id implies spec_day_of(s1[i].date) != spec_day_of(s1[j].date) by {
            if i == s.len() || j == s.len() {
                let k = if i == s.len() { j } else { i };
                assert(0 <= k < s.len() && s1[k] == s[k]);
            }
        }
        lemma_checkin_on_unique(s1, dev, day, s.len() as int);
        lemma_count_zero_when_absent(s, dev, day);
        assert(s1.drop_last() == s);
    } else {
        let pre = nows.drop_last();
        assert forall|k: int| 0 <= k < pre.len() implies spec_day_of(#[trigger] pre[k])
            == spec_day_of(pre[0]) by {
            assert(pre[k] == nows[k]);
            assert(pre[0] == nows[0]);
        }
        lemma_racing_checkins_single_record(s, dev, pre);
        assert(pre[0] == nows[0]);
        assert(commit_race(s, dev, pre) == s1);
        assert(has_checkin_on(s1, dev, spec_day_of(nows.last()))) by {
            assert(s1[s.len() as int] == rec1);
            assert(spec_day_of(nows.last()) == day);
        }
        assert(commit_race(s, dev, nows) == s1);
    }
}

/// The run of `n` daily check-ins of `dev`, one at midnight of each of the
/// consecutive days `first_day`, `first_day + 1`, and so on.
pub open spec fn consecutive_checkins(
    s: Seq<SigninRecord>,
    dev: u128,
    first_day: u64,
    n: nat,
) -> Seq<SigninRecord>
    decreases n,
{
    if n == 0 {
        s
    } else {
        checkin_step(
            consecutive_checkins(s, dev, first_day, (n - 1) as nat),
            dev,
            ((first_day + n - 1) * 86400) as u64,
        )
    }
}

/// Checking in on `n` consecutive UTC calendar days, starting from a log
/// with no records of the device, yields streak `k` on the `k`-th day for
/// every `k` up to `n`: in particular streak `n` on the `n`-th day.
pub proof fn lemma_consecutive_days_streak(s: Seq<SigninRecord>, dev: u128, first_day: u64, n: nat)
    requires
        wf_records(s),
        forall|i: int| 0 <= i < s.len() ==> (#[trigger] s[i].device_id) != dev,
        1 <= n,
        first_day + n <= i32::MAX,
        (first_day + n) * 86400 <= u64::MAX,
    ensures
        wf_records(consecutive_checkins(s, dev, first_day, n)),
        forall|i: int|
            0 <= i < consecutive_checkins(s, dev, first_day, n).len()
                && (#[trigger] consecutive_checkins(s, dev, first_day, n)[i].device_id) == dev
                ==> first_day <= spec_day_of(consecutive_checkins(s, dev, first_day, n)[i].date)
                < first_day + n,
        forall|d: u64|
            first_day <= d < first_day + n ==> #[trigger] has_checkin_on(
                consecutive_checkins(s, dev, first_day, n),
                dev,
                d,
            ) && checkin_on(consecutive_checkins(s, dev, first_day, n), dev, d).streak == d
                - first_day + 1,
    decreases n,
{
    let d_new = (first_day + n - 1) as u64;
    let now_new = ((first_day + n - 1) * 86400) as u64;
    assert((first_day + n - 1) * 86400 <= (first_day + n) * 86400) by {
        lemma_mul_inequality(first_day + n - 1, first_day + n, 86400);
    }
    assert(spec_day_of(now_new) == d_new) by {
        lemma_div_by_multiple((first_day + n - 1) as int, 86400);
    }
    if n == 1 {
        let s1 = consecutive_checkins(s, dev, first_day, 1);
        assert(consecutive_checkins(s, dev, first_day, 0) == s);
        if latest_is_yesterday(s, dev, d_new) {
            let j = choose|j: int|
                0 <= j < s.len() && s[j].device_id == dev && spec_day_of(s[j].date) == (d_new
                    - 1) as u64;
        }
        assert(!has_checkin_on(s, dev, d_new));
        lemma_step_preserves_wf(s, dev, now_new);
        assert(s1 == s.push(spec_new_record(s, dev, now_new)));
        assert forall|d: u64| first_day <= d < first_day + n implies #[trigger] has_checkin_on(
            s1,
            dev,
            d,
        ) && checkin_on(s1, dev, d).streak == d - first_day + 1 by {
            lemma_checkin_on_unique(s1, dev, d_new, s.len() as int);
        }
    } else {
        lemma_consecutive_days_streak(s, dev, first_day, (n - 1) as nat);
        let prev = consecutive_checkins(s, dev, first_day, (n - 1) as nat);
        let s1 = consecutive_checkins(s, dev, first_day, n);
        // The previous run holds yesterday's record with streak n - 1, and
        // no record of the device reaches the new day.
        assert(has_checkin_on(prev, dev, (d_new - 1) as u64));
        assert(checkin_on(prev, dev, (d_new - 1) as u64).streak == n - 1);
        assert(latest_is_yesterday(prev, dev, d_new));
        assert(!has_checkin_on(prev, dev, d_new));
        assert(spec_next_streak(prev, dev, d_new) == n);
        lemma_step_preserves_wf(prev, dev, now_new);
        let rec = spec_new_record(prev, dev, now_new);
        assert(s1 == prev.push(rec));
        assert(rec.streak == n);
        assert forall|d: u64| first_day <= d < first_day + n implies #[trigger] has_checkin_on(
            s1,
            dev,
            d,
        ) && checkin_on(s1, dev, d).streak == d - first_day + 1 by {
            if d < first_day + n - 1 {
                assert(has_checkin_on(prev, dev, d));
                let i = choose|i: int|
                    0 <= i < prev.len() && prev[i].device_id == dev && spec_day_of(prev[i].date)
                        == d;
                lemma_checkin_on_unique(prev, dev, d, i);
                lemma_checkin_on_unique(s1, dev, d, i);
            } else {
                lemma_checkin_on_unique(s1, dev, d_new, prev.len() as int);
            }
        }
    }
}

} // verus!
