//! The device directory: enrolment upserts, lookups and last-seen times.
use vstd::prelude::*;
use crate::model::{Db, DbError, Device, devices_unique};


verus! {

pub open spec fn has_device(s: Seq<Device>, pk: u64) -> bool {
    exists|i: int| 0 <= i < s.len() && s[i].pk == pk
}

/// Device `x` seen at time `now`.
pub open spec fn seen_at(x: Device, now: i64) -> Device {
    Device { last_synced: Some(now), ..x }
}

/// The device table after every device with identifier `pk` was seen at `now`.
pub open spec fn devices_seen(s: Seq<Device>, pk: u64, now: i64) -> Seq<Device> {
    Seq::new(s.len(), |i: int| if s[i].pk == pk { seen_at(s[i], now) } else { s[i] })
}

/// A device found by its management id.
#[derive(Clone, Copy, Debug, PartialEq, Eq, Structural)]
pub struct GetDeviceResult {
    pub pk: u64,
    pub tenant_pk: u64,
}

/// A device found by its serial number.
#[derive(Clone, Debug)]
pub struct GetDeviceBySerialResult {
    pub id: String,
    pub tenant_pk: u64,
}

/// The devices whose management id is `m`, in table order.
pub open spec fn devices_with_mdm_id(s: Seq<Device>, m: Seq<char>) -> Seq<Device>
    decreases s.len(),
{
    if s.len() == 0 {
        s
    } else if s.last().mdm_id@ == m {
        devices_with_mdm_id(s.drop_last(), m).push(s.last())
    } else {
        devices_with_mdm_id(s.drop_last(), m)
    }
}

/// The devices whose serial number is `n`, in table order.
pub open spec fn devices_with_serial(s: Seq<Device>, n: Seq<char>) -> Seq<Device>
    decreases s.len(),
{
    if s.len() == 0 {
        s
    } else if s.last().serial_number@ == n {
        devices_with_serial(s.drop_last(), n).push(s.last())
    } else {
        devices_with_serial(s.drop_last(), n)
    }
}

/// The enrolment fields of a device, as written by an upsert.
pub struct Enrollment {
    pub id: String,
    pub mdm_id: String,
    pub name: String,
    pub enrollment_type: String,
    pub os: String,
    pub serial_number: String,
    pub tenant_pk: u64,
    pub owner_pk: Option<u64>,
    pub enrolled_by_pk: Option<u64>,
}

pub open spec fn same_device(x: Device, e: Enrollment) -> bool {
    x.tenant_pk == e.tenant_pk && x.mdm_id@ == e.mdm_id@
}

/// Device `x` with its enrolment fields overwritten by `e`; its identifier
/// and last-seen time stay.
pub open spec fn overwritten(x: Device, e: Enrollment) -> Device {
    Device {
        id: e.id,
        name: e.name,
        enrollment_type: e.enrollment_type,
        os: e.os,
        serial_number: e.serial_number,
        owner_pk: e.owner_pk,
        enrolled_by_pk: e.enrolled_by_pk,
        ..x
    }
}

/// The greatest device identifier, 0 for no device.
pub open spec fn max_pk(s: Seq<Device>) -> u64
    decreases s.len(),
{
    if s.len() == 0 {
        0
    } else if s.last().pk > max_pk(s.drop_last()) {
        s.last().pk
    } else {
        max_pk(s.drop_last())
    }
}

pub proof fn lemma_max_pk(s: Seq<Device>)
    ensures
        forall|i: int| 0 <= i < s.len() ==> #[trigger] s[i].pk <= max_pk(s),
    decreases s.len(),
{
    if s.len() > 0 {
        lemma_max_pk(s.drop_last());
        assert(forall|i: int| 0 <= i < s.len() - 1 ==> s.drop_last()[i] == s[i]);
    }
}

/// Every device found by management id `m` is a device of `s` with that id;
/// with unique devices, no two of them share a tenant.
pub proof fn lemma_devices_with_mdm_id(s: Seq<Device>, m: Seq<char>)
    ensures
        forall|k: int|
            0 <= k < devices_with_mdm_id(s, m).len() ==> exists|i: int|
                0 <= i < s.len() && s[i] == #[trigger] devices_with_mdm_id(s, m)[k] && s[i].mdm_id@ == m,
        devices_unique(s) ==> forall|k1: int, k2: int|
            0 <= k1 < devices_with_mdm_id(s, m).len() && 0 <= k2 < devices_with_mdm_id(s, m).len() && k1 != k2
                ==> #[trigger] devices_with_mdm_id(s, m)[k1].tenant_pk != #[trigger] devices_with_mdm_id(s, m)[k2].tenant_pk,
    decreases s.len(),
{
    if s.len() > 0 {
        let pre = s.drop_last();
        lemma_devices_with_mdm_id(pre, m);
        let f0 = devices_with_mdm_id(pre, m);
        let f = devices_with_mdm_id(s, m);
        assert(forall|i: int| 0 <= i < pre.len() ==> pre[i] == s[i]);
        assert(s[s.len() - 1] == s.last());
        if devices_unique(s) {
            assert forall|a: int, b: int|
                0 <= a < pre.len() && 0 <= b < pre.len() && a != b implies #[trigger] pre[a].pk != #[trigger] pre[b].pk
                    && !(pre[a].tenant_pk == pre[b].tenant_pk && pre[a].mdm_id@ == pre[b].mdm_id@) by {
                assert(s[a].pk != s[b].pk);
            }
        }
        assert forall|k: int| 0 <= k < f.len() implies exists|i: int|
            0 <= i < s.len() && s[i] == #[trigger] f[k] && s[i].mdm_id@ == m by {
            if k < f0.len() {
                let i = choose|i: int| 0 <= i < pre.len() && pre[i] == f0[k] && pre[i].mdm_id@ == m;
                assert(s[i] == f[k]);
            } else {
                assert(s[s.len() - 1] == f[k]);
            }
        }
        if devices_unique(s) {
            assert forall|k1: int, k2: int|
                0 <= k1 < f.len() && 0 <= k2 < f.len() && k1 != k2 implies #[trigger] f[k1].tenant_pk
                    != #[trigger] f[k2].tenant_pk by {
                if k1 >= f0.len() || k2 >= f0.len() {
                    let kk = if k1 >= f0.len() { k2 } else { k1 };
                    let i = choose|i: int| 0 <= i < pre.len() && pre[i] == f0[kk] && pre[i].mdm_id@ == m;
                    assert(s[i] == f[kk]);
                    assert(s[i].pk != s[s.len() - 1].pk);
                } else {
                    assert(f[k1] == f0[k1] && f[k2] == f0[k2]);
                }
            }
        }
    }
}

impl Device {
    pub fn copy(&self) -> (r: Device)
        ensures
            r == *self,
    {
        Device {
            pk: self.pk,
            id: self.id.clone(),
            mdm_id: self.mdm_id.clone(),
            name: self.name.clone(),
            enrollment_type: self.enrollment_type.clone(),
            os: self.os.clone(),
            serial_number: self.serial_number.clone(),
            tenant_pk: self.tenant_pk,
            owner_pk: self.owner_pk,
            enrolled_by_pk: self.enrolled_by_pk,
            last_synced: self.last_synced,
        }
    }
}

impl Db {
    /// The devices enrolled under management id `mdm_device_id`.
    pub fn get_device(&self, mdm_device_id: &String) -> (r: Vec<GetDeviceResult>)
        ensures
            self.wf() ==> forall|k1: int, k2: int|
                0 <= k1 < r@.len() && 0 <= k2 < r@.len() && k1 != k2 ==> #[trigger] r@[k1].tenant_pk
                    != #[trigger] r@[k2].tenant_pk,
            r@.len() == devices_with_mdm_id(self.devices@, mdm_device_id@).len(),
            forall|k: int|
                0 <= k < r@.len() ==> #[trigger] r@[k] == (GetDeviceResult {
                    pk: devices_with_mdm_id(self.devices@, mdm_device_id@)[k].pk,
                    tenant_pk: devices_with_mdm_id(self.devices@, mdm_device_id@)[k].tenant_pk,
                }),
    {
        let ghost s = self.devices@;
        let mut r: Vec<GetDeviceResult> = Vec::new();
        let mut i: usize = 0;
        while i < self.devices.len()
            invariant
                i <= s.len(),
                s == self.devices@,
                r@.len() == devices_with_mdm_id(s.take(i as int), mdm_device_id@).len(),
                forall|k: int|
                    0 <= k < r@.len() ==> #[trigger] r@[k] == (GetDeviceResult {
                        pk: devices_with_mdm_id(s.take(i as int), mdm_device_id@)[k].pk,
                        tenant_pk: devices_with_mdm_id(s.take(i as int), mdm_device_id@)[k].tenant_pk,
                    }),
            decreases s.len() - i,
        {
            proof {
                assert(s.take(i as int + 1).drop_last() =~= s.take(i as int));
                assert(s.take(i as int + 1).last() == s[i as int]);
            }
            if self.devices[i].mdm_id.eq(mdm_device_id) {
                r.push(GetDeviceResult { pk: self.devices[i].pk, tenant_pk: self.devices[i].tenant_pk });
            }
            i = i + 1;
        }
        proof {
            assert(s.take(i as int) =~= s);
            lemma_devices_with_mdm_id(s, mdm_device_id@);
            if self.wf() {
                let f = devices_with_mdm_id(s, mdm_device_id@);
                assert forall|k1: int, k2: int|
                    0 <= k1 < r@.len() && 0 <= k2 < r@.len() && k1 != k2 implies #[trigger] r@[k1].tenant_pk
                        != #[trigger] r@[k2].tenant_pk by {
                    assert(f[k1].tenant_pk != f[k2].tenant_pk);
                }
            }
        }
        r
    }

    /// The devices whose serial number is `serial_number`.
    pub fn get_device_by_serial(&self, serial_number: &String) -> (r: Vec<GetDeviceBySerialResult>)
        ensures
            r@.len() == devices_with_serial(self.devices@, serial_number@).len(),
            forall|k: int|
                0 <= k < r@.len() ==> (#[trigger] r@[k]).id == devices_with_serial(self.devices@, serial_number@)[k].id
                    && r@[k].tenant_pk == devices_with_serial(self.devices@, serial_number@)[k].tenant_pk,
    {
        let ghost s = self.devices@;
        let mut r: Vec<GetDeviceBySerialResult> = Vec::new();
        let mut i: usize = 0;
        while i < self.devices.len()
            invariant
                i <= s.len(),
                s == self.devices@,
                r@.len() == devices_with_serial(s.take(i as int), serial_number@).len(),
                forall|k: int|
                    0 <= k < r@.len() ==> (#[trigger] r@[k]).id == devices_with_serial(s.take(i as int), serial_number@)[k].id
                        && r@[k].tenant_pk == devices_with_serial(s.take(i as int), serial_number@)[k].tenant_pk,
            decreases s.len() - i,
        {
            proof {
                assert(s.take(i as int + 1).drop_last() =~= s.take(i as int));
                assert(s.take(i as int + 1).last() == s[i as int]);
            }
            if self.devices[i].serial_number.eq(serial_number) {
                r.push(GetDeviceBySerialResult { id: self.devices[i].id.clone(), tenant_pk: self.devices[i].tenant_pk });
            }
            i = i + 1;
        }
        proof {
            assert(s.take(i as int) =~= s);
        }
        r
    }

    /// Enrols a device, keyed by tenant and management id. Where such a
    /// device exists its enrolment fields are overwritten; otherwise a new
    /// device is added with the identifier after the greatest one in use
    /// (`InvariantViolation`, with nothing changed, when none is left).
    pub fn create_device(&mut self, e: Enrollment) -> (r: Result<(), DbError>)
        requires
            old(self).wf(),
        ensures
            final(self).wf(),
            final(self).assignments == old(self).assignments,
            final(self).memberships == old(self).memberships,
            final(self).deploys == old(self).deploys,
            final(self).statuses == old(self).statuses,
            final(self).actions == old(self).actions,
            (exists|i: int| 0 <= i < old(self).devices@.len() && #[trigger] same_device(old(self).devices@[i], e))
                ==> r is Ok && final(self).devices@ == Seq::new(
                old(self).devices@.len(),
                |i: int|
                    if same_device(old(self).devices@[i], e) {
                        overwritten(old(self).devices@[i], e)
                    } else {
                        old(self).devices@[i]
                    },
            ),
            (forall|i: int| 0 <= i < old(self).devices@.len() ==> !#[trigger] same_device(old(self).devices@[i], e))
                ==> if max_pk(old(self).devices@) < u64::MAX {
                r is Ok && final(self).devices@ == old(self).devices@.push(
                    Device {
                        pk: (max_pk(old(self).devices@) + 1) as u64,
                        id: e.id,
                        mdm_id: e.mdm_id,
                        name: e.name,
                        enrollment_type: e.enrollment_type,
                        os: e.os,
                        serial_number: e.serial_number,
                        tenant_pk: e.tenant_pk,
                        owner_pk: e.owner_pk,
                        enrolled_by_pk: e.enrolled_by_pk,
                        last_synced: None,
                    },
                )
            } else {
                r == Err::<(), DbError>(DbError::InvariantViolation) && final(self).devices@ == old(self).devices@
            },
    {
        let ghost s = old(self).devices@;
        let ghost want = Seq::new(s.len(), |i: int| if same_device(s[i], e) { overwritten(s[i], e) } else { s[i] });
        let mut found = false;
        let mut top: u64 = 0;
        let mut i: usize = 0;
        while i < self.devices.len()
            invariant
                i <= s.len(),
                self.devices@.len() == s.len(),
                want == Seq::new(s.len(), |i: int| if same_device(s[i], e) { overwritten(s[i], e) } else { s[i] }),
                forall|j: int| 0 <= j < i ==> #[trigger] self.devices@[j] == want[j],
                forall|j: int| i <= j < s.len() ==> #[trigger] self.devices@[j] == s[j],
                found <==> exists|j: int| 0 <= j < i && #[trigger] same_device(s[j], e),
                top == max_pk(s.take(i as int)),
                self.assignments == old(self).assignments,
                self.memberships == old(self).memberships,
                self.deploys == old(self).deploys,
                self.statuses == old(self).statuses,
                self.actions == old(self).actions,
            decreases s.len() - i,
        {
            proof {
                assert(s.take(i as int + 1).drop_last() =~= s.take(i as int));
                assert(s.take(i as int + 1).last() == s[i as int]);
            }
            let x = self.devices[i].copy();
            if x.pk > top {
                top = x.pk;
            }
            let same = x.tenant_pk == e.tenant_pk && x.mdm_id.eq(&e.mdm_id);
            assert(same == same_device(s[i as int], e));
            if same {
                let y = Device {
                    pk: x.pk,
                    id: e.id.clone(),
                    mdm_id: x.mdm_id,
                    name: e.name.clone(),
                    enrollment_type: e.enrollment_type.clone(),
                    os: e.os.clone(),
                    serial_number: e.serial_number.clone(),
                    tenant_pk: x.tenant_pk,
                    owner_pk: e.owner_pk,
                    enrolled_by_pk: e.enrolled_by_pk,
                    last_synced: x.last_synced,
                };
                self.devices.set(i, y);
                found = true;
            }
            i = i + 1;
        }
        proof {
            assert(s.take(i as int) =~= s);
        }
        if found {
            proof {
                assert(self.devices@ =~= want);
                assert forall|a: int, b: int|
                    0 <= a < want.len() && 0 <= b < want.len() && a != b implies #[trigger] want[a].pk != #[trigger] want[b].pk
                        && !(want[a].tenant_pk == want[b].tenant_pk && want[a].mdm_id@ == want[b].mdm_id@) by {
                    assert(s[a].pk != s[b].pk);
                }
            }
            return Ok(());
        }
        proof {
            assert(self.devices@ =~= s);
            lemma_max_pk(s);
        }
        if top == u64::MAX {
            return Err(DbError::InvariantViolation);
        }
        self.devices.push(
            Device {
                pk: top + 1,
                id: e.id,
                mdm_id: e.mdm_id,
                name: e.name,
                enrollment_type: e.enrollment_type,
                os: e.os,
                serial_number: e.serial_number,
                tenant_pk: e.tenant_pk,
                owner_pk: e.owner_pk,
                enrolled_by_pk: e.enrolled_by_pk,
                last_synced: None,
            },
        );
        proof {
            let t = self.devices@;
            assert forall|a: int, b: int|
                0 <= a < t.len() && 0 <= b < t.len() && a != b implies #[trigger] t[a].pk != #[trigger] t[b].pk
                    && !(t[a].tenant_pk == t[b].tenant_pk && t[a].mdm_id@ == t[b].mdm_id@) by {
                if a < s.len() && b < s.len() {
                    assert(t[a] == s[a] && t[b] == s[b]);
                    assert(s[a].pk != s[b].pk);
                } else if a < s.len() {
                    assert(t[a] == s[a]);
                    assert(!same_device(s[a], e));
                } else {
                    assert(t[b] == s[b]);
                    assert(!same_device(s[b], e));
                }
            }
        }
        Ok(())
    }

    /// Whether a device with identifier `pk` is enrolled.
    pub fn device_exists(&self, pk: u64) -> (r: bool)
        ensures
            r == has_device(self.devices@, pk),
    {
        let mut i: usize = 0;
        while i < self.devices.len()
            invariant
                i <= self.devices@.len(),
                forall|j: int| 0 <= j < i ==> #[trigger] self.devices@[j].pk != pk,
            decreases self.devices@.len() - i,
        {
            if self.devices[i].pk == pk {
                return true;
            }
            i = i + 1;
        }
        false
    }

    /// Sets the last-seen time of device `device_id` to `now`. `NotFound`,
    /// with nothing changed, when no such device is enrolled.
    pub fn update_device_lastseen(&mut self, device_id: u64, now: i64) -> (r: Result<(), DbError>)
        requires
            old(self).wf(),
        ensures
            final(self).wf(),
            r is Ok <==> has_device(old(self).devices@, device_id),
            r matches Err(e) ==> e == DbError::NotFound,
            final(self).devices@ == devices_seen(old(self).devices@, device_id, now),
            final(self).assignments == old(self).assignments,
            final(self).memberships == old(self).memberships,
            final(self).deploys == old(self).deploys,
            final(self).statuses == old(self).statuses,
            final(self).actions == old(self).actions,
    {
        let ghost s = old(self).devices@;
        let mut found = false;
        let mut i: usize = 0;
        while i < self.devices.len()
            invariant
                i <= s.len(),
                self.devices@.len() == s.len(),
                forall|j: int| 0 <= j < i ==> #[trigger] self.devices@[j] == devices_seen(s, device_id, now)[j],
                forall|j: int| i <= j < s.len() ==> #[trigger] self.devices@[j] == s[j],
                found <==> exists|j: int| 0 <= j < i && s[j].pk == device_id,
                self.assignments == old(self).assignments,
                self.memberships == old(self).memberships,
                self.deploys == old(self).deploys,
                self.statuses == old(self).statuses,
                self.actions == old(self).actions,
            decreases s.len() - i,
        {
            if self.devices[i].pk == device_id {
                let mut x = self.devices[i].copy();
                x.last_synced = Some(now);
                self.devices.set(i, x);
                found = true;
            }
            i = i + 1;
        }
        proof {
            assert(self.devices@ =~= devices_seen(s, device_id, now));
            let t = self.devices@;
            assert forall|a: int, b: int|
                0 <= a < t.len() && 0 <= b < t.len() && a != b implies #[trigger] t[a].pk != #[trigger] t[b].pk
                    && !(t[a].tenant_pk == t[b].tenant_pk && t[a].mdm_id@ == t[b].mdm_id@) by {
                assert(s[a].pk != s[b].pk);
            }
        }
        if found {
            Ok(())
        } else {
            Err(DbError::NotFound)
        }
    }
}

} // verus!
