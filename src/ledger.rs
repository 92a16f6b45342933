//! The deploy status ledger: one row per (device, deploy), Pending until the
//! device reports Applied or Conflict, then never changed again.
use vstd::prelude::*;
use crate::model::{Db, DbError, DeployStatus, DeployVariant, copy_opt, same_row, statuses_unique};

verus! {

/// A request to record a Pending row for `deploy_pk` on `device_pk`.
#[derive(Clone, Copy, Debug, PartialEq, Eq, Structural)]
pub struct CreatePolicyDeployStatus {
    pub device_pk: u64,
    pub deploy_pk: u64,
}

/// What a device reports for a deploy.
#[derive(Clone, Debug)]
pub enum Outcome {
    Applied,
    /// The device could not apply the deploy; the payload (JSON text)
    /// describes the conflicting settings.
    Conflict(String),
}

/// A Pending row of `device_pk` for `deploy_pk`.
#[derive(Clone, Debug)]
pub struct GetPendingDeployStatusesResult {
    pub deploy_pk: u64,
    pub conflicts: Option<String>,
}

/// The row of device `d` for deploy `dep`, if one exists.
pub open spec fn find_status(s: Seq<DeployStatus>, d: u64, dep: u64) -> Option<DeployStatus>
    decreases s.len(),
{
    if s.len() == 0 {
        None
    } else if s.last().device_pk == d && s.last().deploy_pk == dep {
        Some(s.last())
    } else {
        find_status(s.drop_last(), d, dep)
    }
}

pub open spec fn has_row(s: Seq<DeployStatus>, d: u64, dep: u64) -> bool {
    exists|i: int| 0 <= i < s.len() && s[i].device_pk == d && s[i].deploy_pk == dep
}

pub open spec fn pending_row(v: CreatePolicyDeployStatus) -> DeployStatus {
    DeployStatus {
        device_pk: v.device_pk,
        deploy_pk: v.deploy_pk,
        variant: DeployVariant::Pending,
        conflicts: None,
        done_at: None,
    }
}

/// The conflict payload that a row surfaces: set only on a Conflict row.
pub open spec fn conflict_of(o: Option<DeployStatus>) -> Option<String> {
    match o {
        Some(x) => if x.variant == DeployVariant::Conflict {
            x.conflicts
        } else {
            None
        },
        None => None,
    }
}

/// The state of a row, Pending where there is none yet.
pub open spec fn variant_of(o: Option<DeployStatus>) -> DeployVariant {
    match o {
        Some(x) => x.variant,
        None => DeployVariant::Pending,
    }
}

/// The Pending rows of device `d`, in ledger order.
pub open spec fn pending_of(s: Seq<DeployStatus>, d: u64) -> Seq<DeployStatus>
    decreases s.len(),
{
    if s.len() == 0 {
        s
    } else if s.last().device_pk == d && s.last().variant == DeployVariant::Pending {
        pending_of(s.drop_last(), d).push(s.last())
    } else {
        pending_of(s.drop_last(), d)
    }
}

/// The ledger after recording Pending rows for `batch`, skipping every pair
/// that already has a row.
pub open spec fn with_pending(s: Seq<DeployStatus>, batch: Seq<CreatePolicyDeployStatus>) -> Seq<DeployStatus>
    decreases batch.len(),
{
    if batch.len() == 0 {
        s
    } else {
        let s0 = with_pending(s, batch.drop_last());
        let v = batch.last();
        if find_status(s0, v.device_pk, v.deploy_pk) is Some {
            s0
        } else {
            s0.push(pending_row(v))
        }
    }
}

/// The row after a device reported `outcome` at time `done_at`: a Pending row
/// becomes terminal, a terminal row stays as it is.
pub open spec fn after_outcome(x: DeployStatus, outcome: Outcome, done_at: i64) -> DeployStatus {
    if x.variant == DeployVariant::Pending {
        match outcome {
            Outcome::Applied => DeployStatus {
                variant: DeployVariant::Applied,
                conflicts: None,
                done_at: Some(done_at),
                ..x
            },
            Outcome::Conflict(c) => DeployStatus {
                variant: DeployVariant::Conflict,
                conflicts: Some(c),
                done_at: Some(done_at),
                ..x
            },
        }
    } else {
        x
    }
}

pub proof fn lemma_find_status(s: Seq<DeployStatus>, d: u64, dep: u64)
    ensures
        find_status(s, d, dep) is None <==> !has_row(s, d, dep),
        find_status(s, d, dep) matches Some(x) ==> s.contains(x) && x.device_pk == d && x.deploy_pk == dep,
    decreases s.len(),
{
    if s.len() > 0 {
        let pre = s.drop_last();
        lemma_find_status(pre, d, dep);
        assert(forall|i: int| 0 <= i < pre.len() ==> pre[i] == s[i]);
        assert(s[s.len() - 1] == s.last());
        if has_row(pre, d, dep) {
            let i = choose|i: int| 0 <= i < pre.len() && pre[i].device_pk == d && pre[i].deploy_pk == dep;
            assert(s[i] == pre[i]);
        }
        if has_row(s, d, dep) && !(s.last().device_pk == d && s.last().deploy_pk == dep) {
            let i = choose|i: int| 0 <= i < s.len() && s[i].device_pk == d && s[i].deploy_pk == dep;
            assert(pre[i] == s[i]);
        }
        if let Some(x) = find_status(pre, d, dep) {
            let i = choose|i: int| 0 <= i < pre.len() && pre[i] == x;
            assert(s[i] == x);
        }
    }
}

/// With unique rows, the row found is the one that is stored for the pair.
pub proof fn lemma_find_status_unique(s: Seq<DeployStatus>, i: int)
    requires
        statuses_unique(s),
        0 <= i < s.len(),
    ensures
        find_status(s, s[i].device_pk, s[i].deploy_pk) == Some(s[i]),
{
    lemma_find_status(s, s[i].device_pk, s[i].deploy_pk);
    assert(has_row(s, s[i].device_pk, s[i].deploy_pk));
    let x = find_status(s, s[i].device_pk, s[i].deploy_pk)->Some_0;
    let j = choose|j: int| 0 <= j < s.len() && s[j] == x;
    if j != i {
        assert(same_row(s[i], s[j]));
    }
}

pub proof fn lemma_push_unique(s: Seq<DeployStatus>, x: DeployStatus)
    requires
        statuses_unique(s),
        !has_row(s, x.device_pk, x.deploy_pk),
    ensures
        statuses_unique(s.push(x)),
{
    let t = s.push(x);
    assert forall|i: int, j: int| 0 <= i < t.len() && 0 <= j < t.len() && i != j implies !(#[trigger] same_row(t[i], t[j])) by {
        if i < s.len() && j < s.len() {
            assert(t[i] == s[i] && t[j] == s[j]);
            assert(!same_row(s[i], s[j]));
        } else if i < s.len() {
            assert(t[i] == s[i]);
        } else {
            assert(t[j] == s[j]);
        }
    }
}

/// Recording Pending rows keeps the rows unique, keeps every row that was
/// there, and leaves a row for every pair of the batch.
pub proof fn lemma_with_pending(s: Seq<DeployStatus>, batch: Seq<CreatePolicyDeployStatus>)
    requires
        statuses_unique(s),
    ensures
        statuses_unique(with_pending(s, batch)),
        forall|d: u64, dep: u64|
            #[trigger] find_status(s, d, dep) is Some ==> find_status(with_pending(s, batch), d, dep)
                == find_status(s, d, dep),
        forall|k: int|
            0 <= k < batch.len() ==> #[trigger] find_status(with_pending(s, batch), batch[k].device_pk, batch[k].deploy_pk)
                is Some,
        forall|d: u64, dep: u64|
            #[trigger] find_status(s, d, dep) is None ==> conflict_of(find_status(with_pending(s, batch), d, dep))
                is None && variant_of(find_status(with_pending(s, batch), d, dep)) == DeployVariant::Pending,
    decreases batch.len(),
{
    if batch.len() > 0 {
        let pre = batch.drop_last();
        let v = batch.last();
        lemma_with_pending(s, pre);
        let s0 = with_pending(s, pre);
        lemma_find_status(s0, v.device_pk, v.deploy_pk);
        assert(s0.push(pending_row(v)).drop_last() =~= s0);
        if find_status(s0, v.device_pk, v.deploy_pk) is None {
            lemma_push_unique(s0, pending_row(v));
        }
        assert forall|k: int| 0 <= k < batch.len() implies #[trigger] find_status(
            with_pending(s, batch),
            batch[k].device_pk,
            batch[k].deploy_pk,
        ) is Some by {
            if k < pre.len() {
                assert(pre[k] == batch[k]);
                assert(find_status(s0, pre[k].device_pk, pre[k].deploy_pk) is Some);
            }
        }
    }
}

/// Recording Pending rows leaves every existing row as it was: its variant,
/// conflicts and completion time are never reset.
pub proof fn lemma_pending_keeps_existing(s: Seq<DeployStatus>, batch: Seq<CreatePolicyDeployStatus>, i: int)
    requires
        statuses_unique(s),
        0 <= i < s.len(),
    ensures
        find_status(with_pending(s, batch), s[i].device_pk, s[i].deploy_pk) == Some(s[i]),
{
    lemma_find_status_unique(s, i);
    lemma_with_pending(s, batch);
}

/// Recording the same batch of Pending rows twice writes nothing the second
/// time.
pub proof fn lemma_with_pending_idempotent(s: Seq<DeployStatus>, b2: Seq<CreatePolicyDeployStatus>)
    requires
        statuses_unique(s),
        forall|k: int| 0 <= k < b2.len() ==> find_status(s, #[trigger] b2[k].device_pk, b2[k].deploy_pk) is Some,
    ensures
        with_pending(s, b2) == s,
    decreases b2.len(),
{
    if b2.len() > 0 {
        let pre = b2.drop_last();
        assert forall|k: int| 0 <= k < pre.len() implies find_status(s, #[trigger] pre[k].device_pk, pre[k].deploy_pk) is Some by {
            assert(pre[k] == b2[k]);
        }
        lemma_with_pending_idempotent(s, pre);
        assert(b2[b2.len() - 1] == b2.last());
    }
}

impl Db {
    /// The ledger row of device `d` for deploy `dep`, if any.
    pub fn status_for(&self, d: u64, dep: u64) -> (r: Option<DeployStatus>)
        ensures
            r == find_status(self.statuses@, d, dep),
            r is None <==> !has_row(self.statuses@, d, dep),
            r matches Some(x) ==> self.statuses@.contains(x) && x.device_pk == d && x.deploy_pk == dep,
    {
        let ghost s = self.statuses@;
        let mut found: Option<DeployStatus> = None;
        let mut i: usize = 0;
        while i < self.statuses.len()
            invariant
                i <= s.len(),
                s == self.statuses@,
                found == find_status(s.take(i as int), d, dep),
            decreases s.len() - i,
        {
            proof {
                assert(s.take(i as int + 1).drop_last() =~= s.take(i as int));
                assert(s.take(i as int + 1).last() == s[i as int]);
            }
            let x = &self.statuses[i];
            if x.device_pk == d && x.deploy_pk == dep {
                found = Some(x.copy());
            }
            i = i + 1;
        }
        proof {
            assert(s.take(i as int) =~= s);
            lemma_find_status(s, d, dep);
        }
        found
    }

    /// Records a Pending row (no conflicts, no completion time) for each
    /// pair of `values`. A pair that already has a row keeps it untouched,
    /// so repeating the same batch writes nothing.
    pub fn create_policy_deploy_status(&mut self, values: Vec<CreatePolicyDeployStatus>)
        requires
            old(self).wf(),
        ensures
            final(self).wf(),
            final(self).statuses@ == with_pending(old(self).statuses@, values@),
            final(self).devices == old(self).devices,
            final(self).assignments == old(self).assignments,
            final(self).memberships == old(self).memberships,
            final(self).deploys == old(self).deploys,
            final(self).actions == old(self).actions,
    {
        let ghost s = self.statuses@;
        let mut i: usize = 0;
        while i < values.len()
            invariant
                i <= values@.len(),
                self.wf(),
                self.statuses@ == with_pending(s, values@.take(i as int)),
                self.devices == old(self).devices,
                self.assignments == old(self).assignments,
                self.memberships == old(self).memberships,
                self.deploys == old(self).deploys,
                self.actions == old(self).actions,
            decreases values@.len() - i,
        {
            proof {
                assert(values@.take(i as int + 1).drop_last() =~= values@.take(i as int));
                assert(values@.take(i as int + 1).last() == values@[i as int]);
            }
            let v = values[i];
            let existing = self.status_for(v.device_pk, v.deploy_pk);
            if existing.is_none() {
                proof {
                    lemma_push_unique(self.statuses@, pending_row(v));
                }
                self.statuses.push(
                    DeployStatus {
                        device_pk: v.device_pk,
                        deploy_pk: v.deploy_pk,
                        variant: DeployVariant::Pending,
                        conflicts: None,
                        done_at: None,
                    },
                );
            }
            i = i + 1;
        }
        proof {
            assert(values@.take(i as int) =~= values@);
        }
    }

    /// Records what device `d` reported for deploy `dep` at time `done_at`.
    /// A Pending row becomes Applied or Conflict; a row that is already
    /// Applied or Conflict is left as it is (a retried report is a no-op).
    /// `NotFound` when the device has no row for the deploy.
    pub fn record_outcome(&mut self, d: u64, dep: u64, outcome: Outcome, done_at: i64) -> (r: Result<(), DbError>)
        requires
            old(self).wf(),
        ensures
            final(self).wf(),
            r is Ok <==> has_row(old(self).statuses@, d, dep),
            r matches Err(e) ==> e == DbError::NotFound,
            final(self).statuses@.len() == old(self).statuses@.len(),
            forall|i: int|
                0 <= i < old(self).statuses@.len() ==> #[trigger] final(self).statuses@[i] == if old(
                    self,
                ).statuses@[i].device_pk == d && old(self).statuses@[i].deploy_pk == dep {
                    after_outcome(old(self).statuses@[i], outcome, done_at)
                } else {
                    old(self).statuses@[i]
                },
            final(self).devices == old(self).devices,
            final(self).assignments == old(self).assignments,
            final(self).memberships == old(self).memberships,
            final(self).deploys == old(self).deploys,
            final(self).actions == old(self).actions,
    {
        let mut i: usize = 0;
        while i < self.statuses.len() && !(self.statuses[i].device_pk == d && self.statuses[i].deploy_pk == dep)
            invariant
                i <= self.statuses@.len(),
                self.statuses == old(self).statuses,
                forall|j: int| 0 <= j < i ==> !(#[trigger] self.statuses@[j].device_pk == d && self.statuses@[j].deploy_pk == dep),
            decreases self.statuses@.len() - i,
        {
            i = i + 1;
        }
        if i == self.statuses.len() {
            return Err(DbError::NotFound);
        }
        let ghost s = self.statuses@;
        assert(s[i as int].device_pk == d && s[i as int].deploy_pk == dep);
        let x = self.statuses[i].copy();
        if x.variant == DeployVariant::Pending {
            let row = match outcome {
                Outcome::Applied => DeployStatus {
                    device_pk: x.device_pk,
                    deploy_pk: x.deploy_pk,
                    variant: DeployVariant::Applied,
                    conflicts: None,
                    done_at: Some(done_at),
                },
                Outcome::Conflict(c) => DeployStatus {
                    device_pk: x.device_pk,
                    deploy_pk: x.deploy_pk,
                    variant: DeployVariant::Conflict,
                    conflicts: Some(c),
                    done_at: Some(done_at),
                },
            };
            self.statuses.set(i, row);
        }
        proof {
            assert forall|j: int| 0 <= j < s.len() && j != i implies !(s[j].device_pk == d && s[j].deploy_pk == dep) by {
                assert(!same_row(s[i as int], s[j]));
            }
            assert forall|a: int, b: int|
                0 <= a < self.statuses@.len() && 0 <= b < self.statuses@.len() && a != b implies !(#[trigger] same_row(self.statuses@[a], self.statuses@[b])) by {
                assert(!same_row(s[a], s[b]));
            }
        }
        Ok(())
    }

    /// The Pending rows of device `d`, in ledger order.
    pub fn get_pending_deploy_statuses(&self, d: u64) -> (r: Vec<GetPendingDeployStatusesResult>)
        ensures
            r@.len() == pending_of(self.statuses@, d).len(),
            forall|k: int|
                0 <= k < r@.len() ==> (#[trigger] r@[k]).deploy_pk == pending_of(self.statuses@, d)[k].deploy_pk
                    && r@[k].conflicts == pending_of(self.statuses@, d)[k].conflicts,
    {
        let ghost s = self.statuses@;
        let mut r: Vec<GetPendingDeployStatusesResult> = Vec::new();
        let mut i: usize = 0;
        while i < self.statuses.len()
            invariant
                i <= s.len(),
                s == self.statuses@,
                r@.len() == pending_of(s.take(i as int), d).len(),
                forall|k: int|
                    0 <= k < r@.len() ==> (#[trigger] r@[k]).deploy_pk == pending_of(s.take(i as int), d)[k].deploy_pk
                        && r@[k].conflicts == pending_of(s.take(i as int), d)[k].conflicts,
            decreases s.len() - i,
        {
            proof {
                assert(s.take(i as int + 1).drop_last() =~= s.take(i as int));
                assert(s.take(i as int + 1).last() == s[i as int]);
            }
            let x = &self.statuses[i];
            if x.device_pk == d && x.variant == DeployVariant::Pending {
                let item = GetPendingDeployStatusesResult { deploy_pk: x.deploy_pk, conflicts: copy_opt(&x.conflicts) };
                r.push(item);
            }
            i = i + 1;
        }
        proof {
            assert(s.take(i as int) =~= s);
        }
        r
    }
}

} // verus!
