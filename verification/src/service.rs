//! The service state and the operations behind the HTTP surface: the
//! check-in flow that persists the streak transition and publishes the
//! event, the device status query, and the enriched relation listing.

use vstd::prelude::*;
use crate::bus::SseManager;
use crate::bus::push_bounded;
use crate::clock::now_utc_seconds;
use crate::devices::DeviceDirectory;
use crate::devices::device_idx;
use crate::devices::has_device;
use crate::errors::AppError;
use crate::models::Device;
use crate::models::DeviceStatusResponse;
use crate::models::SigninRecord;
use crate::models::SseEvent;
use crate::models::SupervisionRelation;
use crate::spec_day_of;
use crate::streak::CheckinLog;
use crate::streak::checkin_step;
use crate::streak::has_checkin_on;
use crate::streak::spec_checkin_result;
use crate::supervision::SupervisionStore;

verus! {

/// The check-in event that a check-in of `device_id` at `now` publishes:
/// it carries the device's current display name.
pub open spec fn spec_signin_event(devs: Seq<Device>, device_id: u128, now: u64) -> SseEvent {
    SseEvent::Signin {
        device_id,
        device_name: devs[device_idx(devs, device_id)].device_name,
        time: now,
    }
}

/// The relation enriched with both parties' display names, as the listing
/// returns it; an unknown party keeps `None`.
pub open spec fn spec_enriched(rel: SupervisionRelation, devs: Seq<Device>) -> SupervisionRelation {
    SupervisionRelation {
        supervisor_name: if has_device(devs, rel.supervisor_id) {
            Some(devs[device_idx(devs, rel.supervisor_id)].device_name)
        } else {
            None
        },
        target_name: if has_device(devs, rel.target_id) {
            Some(devs[device_idx(devs, rel.target_id)].device_name)
        } else {
            None
        },
        ..rel
    }
}

/// The relations in which `id` is either party, most recently created
/// first, each enriched with both device names.
pub open spec fn spec_relations_for(
    rels: Seq<SupervisionRelation>,
    devs: Seq<Device>,
    id: u128,
) -> Seq<SupervisionRelation>
    decreases rels.len(),
{
    if rels.len() == 0 {
        Seq::empty()
    } else {
        let rest = spec_relations_for(rels.drop_last(), devs, id);
        if rels.last().supervisor_id == id || rels.last().target_id == id {
            seq![spec_enriched(rels.last(), devs)] + rest
        } else {
            rest
        }
    }
}

/// The shared state of the service: the device registry, the check-in log,
/// the supervision store, and the process-wide event bus.
pub struct AppState {
    pub devices: DeviceDirectory,
    pub checkins: CheckinLog,
    pub supervision: SupervisionStore,
    pub sse_manager: SseManager,
}

impl AppState {
    /// All four parts are well formed.
    pub open spec fn well_formed(&self) -> bool {
        &&& self.devices.well_formed()
        &&& self.checkins.well_formed()
        &&& self.supervision.well_formed()
        &&& self.sse_manager.well_formed()
    }

    /// Creates the empty service state with a fresh event bus.
    pub fn new() -> (r: Self)
        ensures
            r.well_formed(),
            r.devices.devices@.len() == 0,
            r.checkins.records@.len() == 0,
            r.supervision.requests@.len() == 0,
            r.supervision.relations@.len() == 0,
            r.sse_manager.subs@.len() == 0,
    {
        AppState {
            devices: DeviceDirectory::new(),
            checkins: CheckinLog::new(),
            supervision: SupervisionStore::new(),
            sse_manager: SseManager::new(),
        }
    }

    /// The check-in operation: touches the device's last-seen time, runs
    /// the idempotent streak transition, and publishes the check-in event
    /// to the bus. Publishing cannot fail, whatever the number of
    /// subscribers, and a repeated check-in on the same UTC day returns
    /// the existing record and publishes nothing. An unknown device is an
    /// internal failure with nothing recorded.
    pub fn signin(&mut self, device_id: u128, now: u64) -> (r: Result<SigninRecord, AppError>)
        requires
            old(self).well_formed(),
            spec_day_of(now) + 1 <= i32::MAX,
        ensures
            final(self).well_formed(),
            (!has_device(old(self).devices.devices@, device_id) ==> (r matches Err(e)
                && e is Internal && *final(self) == *old(self))),
            (has_device(old(self).devices.devices@, device_id) ==> (r matches Ok(rec) && {
                let devs0 = old(self).devices.devices@;
                let recs0 = old(self).checkins.records@;
                &&& rec == spec_checkin_result(recs0, device_id, now)
                &&& final(self).checkins.records@ == checkin_step(recs0, device_id, now)
                &&& final(self).devices.devices@ == devs0.update(
                    device_idx(devs0, device_id),
                    (Device { last_seen_at: now, ..devs0[device_idx(devs0, device_id)] }),
                )
                &&& final(self).supervision == old(self).supervision
                &&& (has_checkin_on(recs0, device_id, spec_day_of(now)) ==> final(self).sse_manager
                    == old(self).sse_manager)
                &&& (!has_checkin_on(recs0, device_id, spec_day_of(now)) ==> {
                    let e = spec_signin_event(devs0, device_id, now);
                    let subs0 = old(self).sse_manager.subs@;
                    &&& final(self).sse_manager.subs@.len() == subs0.len()
                    &&& forall|k: int|
                        0 <= k < subs0.len()
                            ==> (#[trigger] final(self).sse_manager.subs@[k].handle)
                            == subs0[k].handle && final(self).sse_manager.subs@[k].queue@
                            == push_bounded(
                            subs0[k].queue@,
                            e,
                            old(self).sse_manager.capacity as nat,
                        )
                })
            })),
    {
        let dev = match self.devices.get_device(device_id) {
            Ok(d) => d,
            Err(_) => {
                return Err(
                    AppError::Internal("Device is not registered; nothing recorded".to_string()),
                );
            },
        };
        self.devices.touch_last_seen(device_id, now);
        let day = crate::day_of(now);
        if let Some(existing) = self.checkins.find_on_day(device_id, day) {
            return Ok(existing);
        }
        let rec = self.checkins.record_checkin(device_id, now);
        let event = SseEvent::Signin { device_id, device_name: dev.device_name, time: now };
        let _subscriber_count = self.sse_manager.broadcast(event);
        Ok(rec)
    }

    /// The check-in operation at the current wall-clock time. Whatever the
    /// clock returned, the state moves by one check-in transition at that
    /// time; a time so far in the future that the streak would overflow is
    /// refused as an internal failure with nothing recorded.
    pub fn signin_now(&mut self, device_id: u128) -> (r: Result<SigninRecord, AppError>)
        requires
            old(self).well_formed(),
        ensures
            final(self).well_formed(),
            (r matches Ok(rec) ==> exists|now: u64|
                {
                    &&& #[trigger] spec_day_of(now) + 1 <= i32::MAX
                    &&& has_device(old(self).devices.devices@, device_id)
                    &&& rec == spec_checkin_result(old(self).checkins.records@, device_id, now)
                    &&& final(self).checkins.records@ == checkin_step(
                        old(self).checkins.records@,
                        device_id,
                        now,
                    )
                }),
            (r matches Err(e) ==> e is Internal && *final(self) == *old(self)),
    {
        let now = now_utc_seconds();
        let day = crate::day_of(now);
        if day >= (i32::MAX as u64) {
            return Err(AppError::Internal("The clock is out of range".to_string()));
        }
        let r = self.signin(device_id, now);
        match r {
            Ok(rec) => {
                proof {
                    assert(spec_day_of(now) + 1 <= i32::MAX);
                }
                Ok(rec)
            },
            Err(e) => Err(e),
        }
    }

    /// The device status query: the device's identity and mode, the time
    /// of its most recent check-in, and its current streak (0 when it has
    /// never checked in).
    pub fn get_device_status(&self, id: u128) -> (r: Result<DeviceStatusResponse, AppError>)
        requires
            self.well_formed(),
        ensures
            r is Ok <==> has_device(self.devices.devices@, id),
            (r matches Err(e) ==> e is NotFound),
            (r matches Ok(st) ==> {
                let d = self.devices.devices@[device_idx(self.devices.devices@, id)];
                let recs = self.checkins.records@;
                &&& st.device_id == id
                &&& st.device_name@ == d.device_name@
                &&& st.mode == d.mode
                &&& (st.last_signin is Some <==> exists|i: int|
                    0 <= i < recs.len() && (#[trigger] recs[i]).device_id == id)
                &&& (st.last_signin is None ==> st.streak == 0)
                &&& (st.last_signin matches Some(ts) ==> exists|i: int|
                    0 <= i < recs.len() && (#[trigger] recs[i]) == (SigninRecord {
                        device_id: id,
                        date: ts,
                        streak: st.streak,
                    }) && forall|j: int|
                        0 <= j < recs.len() && recs[j].device_id == id ==> spec_day_of(
                            #[trigger] recs[j].date,
                        ) <= spec_day_of(ts))
            }),
    {
        let dev = match self.devices.get_device(id) {
            Ok(d) => d,
            Err(e) => {
                return Err(e);
            },
        };
        let last = self.checkins.latest_record(id);
        match last {
            Some(rec) => Ok(
                DeviceStatusResponse {
                    device_id: id,
                    device_name: dev.device_name,
                    mode: dev.mode,
                    last_signin: Some(rec.date),
                    streak: rec.streak,
                },
            ),
            None => Ok(
                DeviceStatusResponse {
                    device_id: id,
                    device_name: dev.device_name,
                    mode: dev.mode,
                    last_signin: None,
                    streak: 0,
                },
            ),
        }
    }

    /// Lists the relations in which `device_id` is either party, most
    /// recently created first, each enriched with both device names.
    #[verifier::loop_isolation(false)]
    pub fn list_supervision_relations(&self, device_id: u128) -> (r: Vec<SupervisionRelation>)
        requires
            self.well_formed(),
        ensures
            r@ == spec_relations_for(
                self.supervision.relations@,
                self.devices.devices@,
                device_id,
            ),
    {
        let rels = &self.supervision.relations;
        let devs = &self.devices;
        let n = rels.len();
        let mut out: Vec<SupervisionRelation> = Vec::new();
        let mut j: usize = n;
        proof {
            assert(rels@.subrange(0, n as int) =~= rels@);
        }
        while j > 0
            invariant
                0 <= j <= n,
                out@ + spec_relations_for(
                    rels@.subrange(0, j as int),
                    devs.devices@,
                    device_id,
                ) == spec_relations_for(rels@, devs.devices@, device_id),
            decreases j,
        {
            j -= 1;
            let ghost pre = rels@.subrange(0, j as int + 1);
            proof {
                assert(pre.drop_last() =~= rels@.subrange(0, j as int));
                assert(pre.last() == rels@[j as int]);
            }
            let rel = &rels[j];
            if rel.supervisor_id == device_id || rel.target_id == device_id {
                let supervisor_name: Option<String> = match devs.get_device(rel.supervisor_id) {
                    Ok(d) => Some(d.device_name),
                    Err(_) => None,
                };
                let target_name: Option<String> = match devs.get_device(rel.target_id) {
                    Ok(d) => Some(d.device_name),
                    Err(_) => None,
                };
                let enriched = SupervisionRelation {
                    relation_id: rel.relation_id,
                    supervisor_id: rel.supervisor_id,
                    target_id: rel.target_id,
                    supervisor_name,
                    target_name,
                    created_at: rel.created_at,
                };
                let ghost out_old = out@;
                proof {
                    assert(enriched == spec_enriched(pre.last(), devs.devices@));
                }
                out.push(enriched);
                proof {
                    assert(out@ =~= out_old + seq![spec_enriched(pre.last(), devs.devices@)]);
                    assert((out_old + seq![spec_enriched(pre.last(), devs.devices@)])
                        + spec_relations_for(pre.drop_last(), devs.devices@, device_id) =~= out_old
                        + (seq![spec_enriched(pre.last(), devs.devices@)] + spec_relations_for(
                        pre.drop_last(),
                        devs.devices@,
                        device_id,
                    )));
                }
            }
        }
        proof {
            assert(rels@.subrange(0, 0) =~= Seq::<SupervisionRelation>::empty());
            assert(out@ + Seq::<SupervisionRelation>::empty() =~= out@);
        }
        out
    }
}

} // verus!
