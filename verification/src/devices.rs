//! The device registry: registration with unique names and IMEI
//! deduplication, the rename cooldown, lookups, and the name search.

use vstd::prelude::*;
use crate::SECONDS_PER_DAY;
use crate::errors::AppError;
use crate::idgen::fresh_uuid;
use crate::clock::now_utc_seconds;
use crate::models::Device;
use crate::models::DeviceRegisterRequest;
use crate::models::DeviceUpdateNameRequest;

verus! {

/// Days a device must wait between renames.
pub const RENAME_COOLDOWN_DAYS: u64 = 15;

/// Some device carries this id.
pub open spec fn has_device(devs: Seq<Device>, id: u128) -> bool {
    exists|i: int| 0 <= i < devs.len() && (#[trigger] devs[i]).device_id == id
}

/// The index of the device with this id; meaningful when `has_device`
/// holds, unique when the registry is well formed.
pub open spec fn device_idx(devs: Seq<Device>, id: u128) -> int {
    choose|i: int| 0 <= i < devs.len() && (#[trigger] devs[i]).device_id == id
}

/// Some device carries this display name.
pub open spec fn name_used(devs: Seq<Device>, name: Seq<char>) -> bool {
    exists|i: int| 0 <= i < devs.len() && (#[trigger] devs[i]).device_name@ == name
}

/// Some device other than `id` carries this display name.
pub open spec fn name_used_by_other(devs: Seq<Device>, name: Seq<char>, id: u128) -> bool {
    exists|i: int|
        0 <= i < devs.len() && (#[trigger] devs[i]).device_name@ == name && devs[i].device_id
            != id
}

/// Some device carries this IMEI.
pub open spec fn imei_used(devs: Seq<Device>, imei: Seq<char>) -> bool {
    exists|i: int|
        0 <= i < devs.len() && (#[trigger] devs[i]).imei is Some && devs[i].imei->0@ == imei
}

/// The index of the device with this IMEI; meaningful when `imei_used`
/// holds, unique when the registry is well formed.
pub open spec fn imei_idx(devs: Seq<Device>, imei: Seq<char>) -> int {
    choose|i: int|
        0 <= i < devs.len() && (#[trigger] devs[i]).imei is Some && devs[i].imei->0@ == imei
}

/// The rename cooldown still runs: fewer than 15 whole days have passed
/// since the last rename (a clock that went backwards also blocks).
pub open spec fn rename_blocked(last: u64, now: u64) -> bool {
    now < last || (now - last) / 86400 < RENAME_COOLDOWN_DAYS
}

/// The registry invariant: ids, display names and present IMEIs are all
/// unique.
pub open spec fn wf_devices(devs: Seq<Device>) -> bool {
    &&& forall|i: int, j: int|
        #![trigger devs[i].device_id, devs[j].device_id]
        0 <= i < devs.len() && 0 <= j < devs.len() && i != j ==> devs[i].device_id
            != devs[j].device_id
    &&& forall|i: int, j: int|
        #![trigger devs[i].device_name, devs[j].device_name]
        0 <= i < devs.len() && 0 <= j < devs.len() && i != j ==> devs[i].device_name@
            != devs[j].device_name@
    &&& forall|i: int, j: int|
        #![trigger devs[i].imei, devs[j].imei]
        0 <= i < devs.len() && 0 <= j < devs.len() && i != j && devs[i].imei is Some
            && devs[j].imei is Some ==> devs[i].imei->0@ != devs[j].imei->0@
}

/// The ASCII-lowercased code point of a character: the model of the
/// case-insensitive name match.
pub open spec fn fold_char(c: char) -> u32 {
    if 65 <= c as u32 && c as u32 <= 90 {
        (c as u32 + 32) as u32
    } else {
        c as u32
    }
}

/// The two texts are equal ignoring ASCII case.
pub open spec fn ci_eq(a: Seq<char>, b: Seq<char>) -> bool {
    a.len() == b.len() && forall|i: int| 0 <= i < a.len() ==> fold_char(#[trigger] a[i])
        == fold_char(b[i])
}

/// `q` occurs in `name`, ignoring ASCII case.
pub open spec fn ci_contains(name: Seq<char>, q: Seq<char>) -> bool {
    exists|k: int|
        0 <= k && #[trigger] ci_eq(name.subrange(k, k + q.len() as int), q) && k + q.len()
            <= name.len()
}

/// How many devices' names contain `q`, ignoring ASCII case.
pub open spec fn count_matches(devs: Seq<Device>, q: Seq<char>) -> nat
    decreases devs.len(),
{
    if devs.len() == 0 {
        0
    } else {
        count_matches(devs.drop_last(), q) + (if ci_contains(devs.last().device_name@, q) {
            1nat
        } else {
            0nat
        })
    }
}

/// Lexicographic order on texts by code point: the model of the ascending
/// name order in which search results are listed.
pub open spec fn name_le(a: Seq<char>, b: Seq<char>) -> bool
    decreases a.len(),
{
    if a.len() == 0 {
        true
    } else if b.len() == 0 {
        false
    } else if (a[0] as u32) < (b[0] as u32) {
        true
    } else if (a[0] as u32) > (b[0] as u32) {
        false
    } else {
        name_le(a.drop_first(), b.drop_first())
    }
}

/// The name order is total.
pub proof fn lemma_name_le_total(a: Seq<char>, b: Seq<char>)
    ensures
        name_le(a, b) || name_le(b, a),
    decreases a.len(),
{
    if a.len() != 0 && b.len() != 0 && (a[0] as u32) == (b[0] as u32) {
        lemma_name_le_total(a.drop_first(), b.drop_first());
    }
}

/// The name order is transitive.
pub proof fn lemma_name_le_trans(a: Seq<char>, b: Seq<char>, c: Seq<char>)
    requires
        name_le(a, b),
        name_le(b, c),
    ensures
        name_le(a, c),
    decreases a.len(),
{
    if a.len() != 0 {
        assert(b.len() != 0);
        assert(c.len() != 0);
        if !((a[0] as u32) < (c[0] as u32)) {
            assert((a[0] as u32) == (b[0] as u32));
            assert((b[0] as u32) == (c[0] as u32));
            lemma_name_le_trans(a.drop_first(), b.drop_first(), c.drop_first());
        }
    }
}

/// A list of devices stands in ascending name order.
pub open spec fn sorted_by_name(s: Seq<Device>) -> bool {
    forall|i: int, j: int|
        0 <= i < j < s.len() ==> #[trigger] name_le(s[i].device_name@, s[j].device_name@)
}

/// Compares two names in the lexicographic order `name_le`.
#[verifier::loop_isolation(false)]
fn name_le_exec(a: &String, b: &String) -> (r: bool)
    ensures
        r == name_le(a@, b@),
{
    let alen = a.as_str().unicode_len();
    let blen = b.as_str().unicode_len();
    proof {
        assert(a@.subrange(0, alen as int) =~= a@);
        assert(b@.subrange(0, blen as int) =~= b@);
    }
    let mut i: usize = 0;
    while i < alen && i < blen
        invariant
            0 <= i <= alen,
            i <= blen,
            name_le(a@, b@) == name_le(
                a@.subrange(i as int, alen as int),
                b@.subrange(i as int, blen as int),
            ),
        decreases alen - i,
    {
        let ca = a.as_str().get_char(i);
        let cb = b.as_str().get_char(i);
        proof {
            let sa = a@.subrange(i as int, alen as int);
            let sb = b@.subrange(i as int, blen as int);
            assert(sa[0] == a@[i as int]);
            assert(sb[0] == b@[i as int]);
            assert(sa.drop_first() =~= a@.subrange(i as int + 1, alen as int));
            assert(sb.drop_first() =~= b@.subrange(i as int + 1, blen as int));
        }
        if (ca as u32) < (cb as u32) {
            return true;
        }
        if (ca as u32) > (cb as u32) {
            return false;
        }
        i += 1;
    }
    proof {
        let sa = a@.subrange(i as int, alen as int);
        let sb = b@.subrange(i as int, blen as int);
        if i == alen {
            assert(sa.len() == 0);
        } else {
            assert(sb.len() == 0 && sa.len() != 0);
        }
    }
    i == alen
}

/// The position where a name belongs in an ascending list: every entry
/// before it precedes the name, and the entry at it (if any) does not.
#[verifier::loop_isolation(false)]
fn insert_position(v: &Vec<Device>, name: &String) -> (pos: usize)
    ensures
        0 <= pos <= v@.len(),
        forall|t: int| 0 <= t < pos ==> name_le((#[trigger] v@[t]).device_name@, name@),
        pos < v@.len() ==> !name_le(v@[pos as int].device_name@, name@),
{
    let n = v.len();
    let mut pos: usize = 0;
    while pos < n
        invariant
            0 <= pos <= n,
            forall|t: int| 0 <= t < pos ==> name_le((#[trigger] v@[t]).device_name@, name@),
        decreases n - pos,
    {
        if !name_le_exec(&v[pos].device_name, name) {
            return pos;
        }
        pos += 1;
    }
    pos
}

/// Compares two characters ignoring ASCII case.
fn chars_fold_eq(a: char, b: char) -> (r: bool)
    ensures
        r == (fold_char(a) == fold_char(b)),
{
    let av: u32 = a as u32;
    let bv: u32 = b as u32;
    let af: u32 = if 65 <= av && av <= 90 {
        av + 32
    } else {
        av
    };
    let bf: u32 = if 65 <= bv && bv <= 90 {
        bv + 32
    } else {
        bv
    };
    af == bf
}

/// Tests whether the query occurs in the name, ignoring ASCII case.
#[verifier::loop_isolation(false)]
fn name_contains_ci(name: &String, query: &String) -> (r: bool)
    ensures
        r == ci_contains(name@, query@),
{
    let n = name.as_str().unicode_len();
    let m = query.as_str().unicode_len();
    if m > n {
        proof {
            if ci_contains(name@, query@) {
                let k = choose|k: int|
                    0 <= k && #[trigger] ci_eq(name@.subrange(k, k + query@.len() as int), query@)
                        && k + query@.len() <= name@.len();
            }
        }
        return false;
    }
    let mut k: usize = 0;
    while k <= n - m
        invariant
            m <= n,
            0 <= k <= n - m + 1,
            forall|s: int|
                0 <= s < k ==> !ci_eq(#[trigger] name@.subrange(s, s + query@.len() as int), query@),
        decreases n - m + 1 - k,
    {
        let mut j: usize = 0;
        let mut all: bool = true;
        while j < m && all
            invariant
                0 <= j <= m,
                k + m <= n,
                all ==> forall|t: int|
                    0 <= t < j ==> fold_char(#[trigger] name@[k + t]) == fold_char(query@[t]),
                !all ==> !ci_eq(name@.subrange(k as int, k as int + m), query@),
            decreases m - j + (if all { 1int } else { 0int }),
        {
            if !chars_fold_eq(name.as_str().get_char(k + j), query.as_str().get_char(j)) {
                proof {
                    let sub = name@.subrange(k as int, k as int + m);
                    assert(sub[j as int] == name@[k + j]);
                }
                all = false;
            } else {
                j += 1;
            }
        }
        if all {
            proof {
                let sub = name@.subrange(k as int, k as int + m);
                assert forall|t: int| 0 <= t < m implies fold_char(#[trigger] sub[t]) == fold_char(
                    query@[t],
                ) by {
                    assert(sub[t] == name@[k + t]);
                }
                assert(ci_eq(sub, query@));
            }
            return true;
        }
        k += 1;
    }
    proof {
        if ci_contains(name@, query@) {
            let s = choose|s: int|
                0 <= s && #[trigger] ci_eq(name@.subrange(s, s + query@.len() as int), query@) && s
                    + query@.len() <= name@.len();
            assert(s < k);
        }
    }
    false
}

/// The registry of devices.
pub struct DeviceDirectory {
    pub devices: Vec<Device>,
}

impl DeviceDirectory {
    /// The registry invariant.
    pub open spec fn well_formed(&self) -> bool {
        wf_devices(self.devices@)
    }

    /// Creates an empty registry.
    pub fn new() -> (r: Self)
        ensures
            r.well_formed(),
            r.devices@ == Seq::<Device>::empty(),
    {
        DeviceDirectory { devices: Vec::new() }
    }

    /// Finds the position of the device with this id.
    #[verifier::loop_isolation(false)]
    fn find_device(&self, id: u128) -> (r: Option<usize>)
        requires
            self.well_formed(),
        ensures
            r is Some <==> has_device(self.devices@, id),
            (r matches Some(i) ==> 0 <= i < self.devices@.len() && i == device_idx(
                self.devices@,
                id,
            ) && self.devices@[i as int].device_id == id),
    {
        let n = self.devices.len();
        let mut i: usize = 0;
        while i < n
            invariant
                0 <= i <= n,
                forall|k: int| 0 <= k < i ==> (#[trigger] self.devices@[k]).device_id != id,
            decreases n - i,
        {
            if self.devices[i].device_id == id {
                proof {
                    let w = device_idx(self.devices@, id);
                    assert(self.devices@[w].device_id == self.devices@[i as int].device_id);
                }
                return Some(i);
            }
            i += 1;
        }
        None
    }

    /// Looks up a device by id.
    pub fn get_device(&self, id: u128) -> (r: Result<Device, AppError>)
        requires
            self.well_formed(),
        ensures
            (r matches Ok(d) ==> has_device(self.devices@, id) && d == self.devices@[device_idx(
                self.devices@,
                id,
            )]),
            (r matches Err(e) ==> e is NotFound && !has_device(self.devices@, id)),
    {
        match self.find_device(id) {
            Some(i) => Ok(self.devices[i].clone()),
            None => Err(AppError::NotFound("Device not found".to_string())),
        }
    }

    /// Tests whether any device (other than `except`, if given) carries the
    /// name.
    #[verifier::loop_isolation(false)]
    fn name_in_use_by_other(&self, name: &String, except: Option<u128>) -> (r: bool)
        ensures
            (except is None ==> r == name_used(self.devices@, name@)),
            (except matches Some(id) ==> r == name_used_by_other(self.devices@, name@, id)),
    {
        let n = self.devices.len();
        let mut i: usize = 0;
        while i < n
            invariant
                0 <= i <= n,
                forall|k: int|
                    0 <= k < i ==> !((#[trigger] self.devices@[k]).device_name@ == name@
                        && (except is None || self.devices@[k].device_id != except->0)),
            decreases n - i,
        {
            if self.devices[i].device_name == *name {
                match except {
                    Some(id) => {
                        if self.devices[i].device_id != id {
                            return true;
                        }
                    },
                    None => {
                        return true;
                    },
                }
            }
            i += 1;
        }
        false
    }

    /// Finds the position of the device with this IMEI.
    #[verifier::loop_isolation(false)]
    fn find_by_imei(&self, imei: &String) -> (r: Option<usize>)
        requires
            self.well_formed(),
        ensures
            r is Some <==> imei_used(self.devices@, imei@),
            (r matches Some(i) ==> 0 <= i < self.devices@.len() && i == imei_idx(
                self.devices@,
                imei@,
            )),
    {
        let n = self.devices.len();
        let mut i: usize = 0;
        while i < n
            invariant
                0 <= i <= n,
                forall|k: int|
                    0 <= k < i ==> !((#[trigger] self.devices@[k]).imei is Some
                        && self.devices@[k].imei->0@ == imei@),
            decreases n - i,
        {
            let matches_here: bool = match &self.devices[i].imei {
                Some(m) => *m == *imei,
                None => false,
            };
            if matches_here {
                proof {
                    let w = imei_idx(self.devices@, imei@);
                    assert(self.devices@[w].imei->0@ == self.devices@[i as int].imei->0@);
                }
                return Some(i);
            }
            i += 1;
        }
        None
    }

    /// Registers a device under the given fresh id: a taken name is
    /// rejected, a known IMEI returns the already registered device
    /// unchanged, and otherwise the new device is inserted and returned.
    pub fn register_device_with_id(
        &mut self,
        req: &DeviceRegisterRequest,
        device_id: u128,
        now: u64,
    ) -> (r: Result<Device, AppError>)
        requires
            old(self).well_formed(),
            !has_device(old(self).devices@, device_id),
        ensures
            final(self).well_formed(),
            (name_used(old(self).devices@, req.device_name@) ==> (r matches Err(e)
                && e is BadRequest && *final(self) == *old(self))),
            (req.imei matches Some(m) ==> ((!name_used(old(self).devices@, req.device_name@)
                && imei_used(old(self).devices@, m@)) ==> (r matches Ok(d) && d == old(
                self,
            ).devices@[imei_idx(old(self).devices@, m@)] && *final(self) == *old(self)))),
            (!name_used(old(self).devices@, req.device_name@) && (req.imei is None
                || !imei_used(old(self).devices@, req.imei->0@)) ==> (r matches Ok(d) && d == (
            Device {
                device_id,
                device_name: req.device_name,
                imei: req.imei,
                mode: req.mode,
                created_at: now,
                last_seen_at: now,
                last_name_updated_at: None,
            }) && final(self).devices@ == old(self).devices@.push(d))),
    {
        if self.name_in_use_by_other(&req.device_name, None) {
            return Err(AppError::BadRequest("Device name already exists".to_string()));
        }
        match &req.imei {
            Some(m) => {
                if let Some(i) = self.find_by_imei(m) {
                    return Ok(self.devices[i].clone());
                }
            },
            None => {},
        }
        let d = Device {
            device_id,
            device_name: req.device_name.clone(),
            imei: crate::models::clone_opt_string(&req.imei),
            mode: req.mode,
            created_at: now,
            last_seen_at: now,
            last_name_updated_at: None,
        };
        let out = d.clone();
        self.devices.push(d);
        proof {
            let s0 = old(self).devices@;
            let s1 = self.devices@;
            assert forall|i: int, j: int|
                #![trigger s1[i].device_id, s1[j].device_id]
                0 <= i < s1.len() && 0 <= j < s1.len() && i != j implies s1[i].device_id
                != s1[j].device_id by {
                if i == s0.len() || j == s0.len() {
                    let k = if i == s0.len() { j } else { i };
                    assert(0 <= k < s0.len() && s1[k] == s0[k]);
                }
            }
            assert forall|i: int, j: int|
                #![trigger s1[i].device_name, s1[j].device_name]
                0 <= i < s1.len() && 0 <= j < s1.len() && i != j implies s1[i].device_name@
                != s1[j].device_name@ by {
                if i == s0.len() || j == s0.len() {
                    let k = if i == s0.len() { j } else { i };
                    assert(0 <= k < s0.len() && s1[k] == s0[k]);
                }
            }
            assert forall|i: int, j: int|
                #![trigger s1[i].imei, s1[j].imei]
                0 <= i < s1.len() && 0 <= j < s1.len() && i != j && s1[i].imei is Some
                    && s1[j].imei is Some implies s1[i].imei->0@ != s1[j].imei->0@ by {
                if i == s0.len() || j == s0.len() {
                    let k = if i == s0.len() { j } else { i };
                    assert(0 <= k < s0.len() && s1[k] == s0[k]);
                }
            }
        }
        Ok(out)
    }

    /// Registers a device, drawing a fresh id and stamping the current
    /// time. A random id collision leaves the registry unchanged and
    /// returns an internal error.
    pub fn register_device(&mut self, req: &DeviceRegisterRequest) -> (r: Result<Device, AppError>)
        requires
            old(self).well_formed(),
        ensures
            final(self).well_formed(),
            (name_used(old(self).devices@, req.device_name@) ==> (r matches Err(e)
                && e is BadRequest && *final(self) == *old(self))),
            (req.imei matches Some(m) ==> ((!name_used(old(self).devices@, req.device_name@)
                && imei_used(old(self).devices@, m@)) ==> (r matches Ok(d) && d == old(
                self,
            ).devices@[imei_idx(old(self).devices@, m@)] && *final(self) == *old(self)))),
            (!name_used(old(self).devices@, req.device_name@) && (req.imei is None
                || !imei_used(old(self).devices@, req.imei->0@)) ==> match r {
                Ok(d) => {
                    &&& d.device_name@ == req.device_name@
                    &&& d.imei == req.imei
                    &&& d.mode == req.mode
                    &&& d.last_name_updated_at is None
                    &&& !has_device(old(self).devices@, d.device_id)
                    &&& final(self).devices@ == old(self).devices@.push(d)
                },
                Err(e) => e is Internal && *final(self) == *old(self) && old(
                    self,
                ).devices@.len() > 0,
            }),
    {
        let device_id = fresh_uuid();
        let now = now_utc_seconds();
        if self.find_device(device_id).is_some() {
            if self.name_in_use_by_other(&req.device_name, None) {
                return Err(AppError::BadRequest("Device name already exists".to_string()));
            }
            let imei_known: bool = match &req.imei {
                Some(m) => self.find_by_imei(m).is_some(),
                None => false,
            };
            if imei_known {
                match &req.imei {
                    Some(m) => {
                        if let Some(i) = self.find_by_imei(m) {
                            return Ok(self.devices[i].clone());
                        }
                    },
                    None => {},
                }
            }
            return Err(AppError::Internal("Could not allocate a fresh device id".to_string()));
        }
        self.register_device_with_id(req, device_id, now)
    }

    /// Renames a device: the device must exist, the name must not belong to
    /// another device, and at least 15 whole days must have passed since
    /// the previous rename. On success the updated device is returned.
    pub fn update_device_name(
        &mut self,
        id: u128,
        req: &DeviceUpdateNameRequest,
        now: u64,
    ) -> (r: Result<Device, AppError>)
        requires
            old(self).well_formed(),
        ensures
            final(self).well_formed(),
            (!has_device(old(self).devices@, id) ==> (r matches Err(e) && e is NotFound
                && *final(self) == *old(self))),
            (has_device(old(self).devices@, id) && name_used_by_other(
                old(self).devices@,
                req.device_name@,
                id,
            ) ==> (r matches Err(e) && e is BadRequest && *final(self) == *old(self))),
            (has_device(old(self).devices@, id) && !name_used_by_other(
                old(self).devices@,
                req.device_name@,
                id,
            ) && (old(self).devices@[device_idx(old(self).devices@, id)].last_name_updated_at
                matches Some(last) && rename_blocked(last, now)) ==> (r matches Err(e)
                && e is BadRequest && *final(self) == *old(self))),
            (has_device(old(self).devices@, id) && !name_used_by_other(
                old(self).devices@,
                req.device_name@,
                id,
            ) && (old(self).devices@[device_idx(old(self).devices@, id)].last_name_updated_at
                is None || !rename_blocked(
                old(self).devices@[device_idx(old(self).devices@, id)].last_name_updated_at->0,
                now,
            )) ==> (r matches Ok(d) && {
                let i = device_idx(old(self).devices@, id);
                let d0 = old(self).devices@[i];
                &&& d == (Device {
                    device_name: req.device_name,
                    last_name_updated_at: Some(now),
                    ..d0
                })
                &&& final(self).devices@ == old(self).devices@.update(i, d)
            })),
    {
        let i = match self.find_device(id) {
            Some(i) => i,
            None => {
                return Err(AppError::NotFound("Device not found".to_string()));
            },
        };
        if self.name_in_use_by_other(&req.device_name, Some(id)) {
            return Err(AppError::BadRequest("Device name already exists".to_string()));
        }
        let blocked: bool = match self.devices[i].last_name_updated_at {
            Some(last) => now < last || (now - last) / SECONDS_PER_DAY < RENAME_COOLDOWN_DAYS,
            None => false,
        };
        if blocked {
            return Err(
                AppError::BadRequest(
                    "Device name cannot be updated before the rename cooldown ends".to_string(),
                ),
            );
        }
        let d = &mut self.devices[i];
        d.device_name = req.device_name.clone();
        d.last_name_updated_at = Some(now);
        let out = self.devices[i].clone();
        proof {
            let s0 = old(self).devices@;
            let s1 = self.devices@;
            assert forall|a: int, b: int|
                #![trigger s1[a].device_id, s1[b].device_id]
                0 <= a < s1.len() && 0 <= b < s1.len() && a != b implies s1[a].device_id
                != s1[b].device_id by {
                assert(s1[a].device_id == s0[a].device_id);
                assert(s1[b].device_id == s0[b].device_id);
            }
            assert forall|a: int, b: int|
                #![trigger s1[a].device_name, s1[b].device_name]
                0 <= a < s1.len() && 0 <= b < s1.len() && a != b implies s1[a].device_name@
                != s1[b].device_name@ by {
                if a != i as int && b != i as int {
                    assert(s1[a] == s0[a]);
                    assert(s1[b] == s0[b]);
                } else {
                    let k = if a == i as int { b } else { a };
                    assert(s1[k] == s0[k]);
                    assert(!(s0[k].device_name@ == req.device_name@ && s0[k].device_id != id));
                }
            }
            assert forall|a: int, b: int|
                #![trigger s1[a].imei, s1[b].imei]
                0 <= a < s1.len() && 0 <= b < s1.len() && a != b && s1[a].imei is Some
                    && s1[b].imei is Some implies s1[a].imei->0@ != s1[b].imei->0@ by {
                assert(s1[a].imei == s0[a].imei);
                assert(s1[b].imei == s0[b].imei);
            }
        }
        Ok(out)
    }

    /// Searches devices by display name: queries shorter than two
    /// characters return nothing; otherwise the devices whose names
    /// contain the query, ignoring ASCII case, sorted ascending by name,
    /// capped at the first 20 in that order (any match left out has a name
    /// no earlier than every returned one).
    #[verifier::loop_isolation(false)]
    #[verifier::rlimit(80)]
    pub fn search_devices(&self, query: &String) -> (r: Vec<Device>)
        ensures
            query@.len() < 2 ==> r@ == Seq::<Device>::empty(),
            query@.len() >= 2 ==> {
                let total = count_matches(self.devices@, query@);
                &&& r@.len() == (if total < 20 {
                    total
                } else {
                    20nat
                })
                &&& sorted_by_name(r@)
                &&& forall|i: int|
                    0 <= i < r@.len() ==> ci_contains((#[trigger] r@[i]).device_name@, query@)
                        && self.devices@.contains(r@[i])
                &&& forall|j: int|
                    0 <= j < self.devices@.len() && ci_contains(
                        (#[trigger] self.devices@[j]).device_name@,
                        query@,
                    ) && !r@.contains(self.devices@[j]) ==> forall|i: int|
                        0 <= i < r@.len() ==> name_le(
                            (#[trigger] r@[i]).device_name@,
                            self.devices@[j].device_name@,
                        )
            },
    {
        let qlen = query.as_str().unicode_len();
        if qlen < 2 {
            return Vec::new();
        }
        let n = self.devices.len();
        let mut full: Vec<Device> = Vec::new();
        let mut i: usize = 0;
        while i < n
            invariant
                0 <= i <= n,
                full@.len() == count_matches(self.devices@.subrange(0, i as int), query@),
                sorted_by_name(full@),
                forall|t: int|
                    0 <= t < full@.len() ==> ci_contains(
                        (#[trigger] full@[t]).device_name@,
                        query@,
                    ) && self.devices@.contains(full@[t]),
                forall|j: int|
                    0 <= j < i && ci_contains(
                        (#[trigger] self.devices@[j]).device_name@,
                        query@,
                    ) ==> full@.contains(self.devices@[j]),
            decreases n - i,
        {
            let ghost pre1 = self.devices@.subrange(0, i as int + 1);
            proof {
                assert(pre1.drop_last() =~= self.devices@.subrange(0, i as int));
                assert(pre1.last() == self.devices@[i as int]);
            }
            if name_contains_ci(&self.devices[i].device_name, query) {
                let d = self.devices[i].clone();
                let pos = insert_position(&full, &d.device_name);
                let ghost full_old = full@;
                full.insert(pos, d);
                proof {
                    let p = pos as int;
                    full_old.insert_ensures(p, d);
                    if p < full_old.len() {
                        lemma_name_le_total(full_old[p].device_name@, d.device_name@);
                    }
                    assert forall|x: int, y: int|
                        0 <= x < y < full@.len() implies #[trigger] name_le(
                        full@[x].device_name@,
                        full@[y].device_name@,
                    ) by {
                        if y < p {
                            assert(full@[x] == full_old[x]);
                            assert(full@[y] == full_old[y]);
                        } else if x > p {
                            assert(full@[x] == full_old[x - 1]);
                            assert(full@[y] == full_old[y - 1]);
                        } else if x == p {
                            assert(full@[x] == d);
                            assert(full@[y] == full_old[y - 1]);
                            if y - 1 > p {
                                lemma_name_le_trans(
                                    d.device_name@,
                                    full_old[p].device_name@,
                                    full_old[y - 1].device_name@,
                                );
                            }
                        } else if y == p {
                            assert(full@[x] == full_old[x]);
                            assert(full@[y] == d);
                        } else {
                            assert(full@[x] == full_old[x]);
                            assert(full@[y] == full_old[y - 1]);
                        }
                    }
                    assert forall|dv: Device| full_old.contains(dv) implies full@.contains(
                        dv,
                    ) by {
                        let w = choose|w: int| 0 <= w < full_old.len() && full_old[w] == dv;
                        if w < p {
                            assert(full@[w] == dv);
                        } else {
                            assert(full@[w + 1] == dv);
                        }
                    }
                    assert(full@[p] == d);
                    assert(full@.contains(self.devices@[i as int]));
                    assert forall|t: int| 0 <= t < full@.len() implies ci_contains(
                        (#[trigger] full@[t]).device_name@,
                        query@,
                    ) && self.devices@.contains(full@[t]) by {
                        if t < p {
                            assert(full@[t] == full_old[t]);
                        } else if t > p {
                            assert(full@[t] == full_old[t - 1]);
                        }
                    }
                }
            }
            i += 1;
        }
        proof {
            assert(self.devices@.subrange(0, n as int) =~= self.devices@);
        }
        let ghost fullv = full@;
        if full.len() > 20 {
            full.truncate(20);
        }
        proof {
            let devs = self.devices@;
            let q = query@;
            if fullv.len() > 20 {
                assert(full@ == fullv.subrange(0, 20));
            }
            assert forall|x: int, y: int|
                0 <= x < y < full@.len() implies #[trigger] name_le(
                full@[x].device_name@,
                full@[y].device_name@,
            ) by {
                assert(full@[x] == fullv[x]);
                assert(full@[y] == fullv[y]);
            }
            assert forall|t: int| 0 <= t < full@.len() implies ci_contains(
                (#[trigger] full@[t]).device_name@,
                q,
            ) && devs.contains(full@[t]) by {
                assert(full@[t] == fullv[t]);
            }
            assert forall|j: int|
                0 <= j < devs.len() && ci_contains((#[trigger] devs[j]).device_name@, q)
                    && !full@.contains(devs[j]) implies forall|t: int|
                    0 <= t < full@.len() ==> name_le(
                        (#[trigger] full@[t]).device_name@,
                        devs[j].device_name@,
                    ) by {
                assert(fullv.contains(devs[j]));
                let w = choose|w: int| 0 <= w < fullv.len() && fullv[w] == devs[j];
                assert forall|t: int| 0 <= t < full@.len() implies name_le(
                    (#[trigger] full@[t]).device_name@,
                    devs[j].device_name@,
                ) by {
                    if w < full@.len() {
                        assert(full@[w] == fullv[w]);
                        assert(full@.contains(devs[j]));
                    }
                    assert(full@[t] == fullv[t]);
                    if t < w {
                        assert(name_le(fullv[t].device_name@, fullv[w].device_name@));
                    } else {
                        assert(t == w);
                    }
                }
            }
        }
        full
    }

    /// Touches a device's last-seen timestamp; a missing device is ignored,
    /// as the touch is best effort and independent of the check-in logic.
    pub fn touch_last_seen(&mut self, id: u128, now: u64)
        requires
            old(self).well_formed(),
        ensures
            final(self).well_formed(),
            (!has_device(old(self).devices@, id) ==> *final(self) == *old(self)),
            (has_device(old(self).devices@, id) ==> {
                let i = device_idx(old(self).devices@, id);
                final(self).devices@ == old(self).devices@.update(
                    i,
                    Device { last_seen_at: now, ..old(self).devices@[i] },
                )
            }),
    {
        if let Some(i) = self.find_device(id) {
            let d = &mut self.devices[i];
            d.last_seen_at = now;
            proof {
                let s0 = old(self).devices@;
                let s1 = self.devices@;
                assert forall|a: int, b: int|
                    #![trigger s1[a].device_id, s1[b].device_id]
                    0 <= a < s1.len() && 0 <= b < s1.len() && a != b implies s1[a].device_id
                    != s1[b].device_id by {
                    assert(s1[a].device_id == s0[a].device_id);
                    assert(s1[b].device_id == s0[b].device_id);
                }
                assert forall|a: int, b: int|
                    #![trigger s1[a].device_name, s1[b].device_name]
                    0 <= a < s1.len() && 0 <= b < s1.len() && a != b implies s1[a].device_name@
                    != s1[b].device_name@ by {
                    assert(s1[a].device_name == s0[a].device_name);
                    assert(s1[b].device_name == s0[b].device_name);
                }
                assert forall|a: int, b: int|
                    #![trigger s1[a].imei, s1[b].imei]
                    0 <= a < s1.len() && 0 <= b < s1.len() && a != b && s1[a].imei is Some
                        && s1[b].imei is Some implies s1[a].imei->0@ != s1[b].imei->0@ by {
                    assert(s1[a].imei == s0[a].imei);
                    assert(s1[b].imei == s0[b].imei);
                }
            }
        }
    }
}

} // verus!
