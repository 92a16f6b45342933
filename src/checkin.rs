//! The check-in reconciler: what a device should run now, and the Pending
//! rows for what it has not seen yet.
use vstd::prelude::*;
use crate::model::{Assignment, Db, DbError, Deploy, DeployStatus, DeployVariant, Membership, QueuedDeviceActionsResult, Scope, copy_opt};
use crate::resolver::{resolution, lemma_resolution_exact, applicable, resolved_scope, has_key, keys_distinct};
use crate::deploys::{latest, latest_acked, latest_exact, latest_acked_exact, lemma_latest_acked_exact, has_deploy_of, latest_reported, reported_row, lemma_latest_reported_same, lemma_latest_reported_exact, lemma_latest_exact};
use crate::ledger::{CreatePolicyDeployStatus, Outcome, conflict_of, variant_of, find_status, has_row, lemma_find_status, lemma_with_pending, lemma_with_pending_idempotent, with_pending, after_outcome, lemma_find_status_unique};
use crate::devices::{has_device, devices_seen};
use crate::queue::queue_of;

verus! {

/// What one applicable policy asks of the device.
#[derive(Clone, Debug)]
pub struct PolicyPlan {
    pub policy_pk: u64,
    pub scope: Scope,
    /// The latest deploy of the policy.
    pub deploy_pk: u64,
    pub data: String,
    /// Where the device stands on the policy: Conflict when its most recent
    /// report on any deploy of the policy is a conflict; otherwise the state
    /// of its row for the latest deploy (Pending while it has not reported,
    /// a new deploy being Pending from this check-in on; Applied when it is
    /// up to date).
    pub variant: DeployVariant,
    /// The conflict payload of the device's most recent report on any deploy
    /// of the policy, when that report is a conflict. A newer deploy that
    /// is still Pending does not hide it.
    pub conflicts: Option<String>,
}

/// The answer to a check-in.
#[derive(Clone, Debug)]
pub struct CheckinPlan {
    pub policies: Vec<PolicyPlan>,
    pub actions: Vec<QueuedDeviceActionsResult>,
}

/// The latest deploy of a policy.
#[derive(Clone, Debug)]
pub struct GetPolicyDataForCheckinLatestDeployResult {
    pub pk: u64,
    pub data: String,
}

/// The most recent deploy of a policy that the device has a ledger row for,
/// with the row's conflict payload.
#[derive(Clone, Debug)]
pub struct GetPolicyDataForCheckinLastDeployResult {
    pub pk: u64,
    pub data: String,
    pub conflicts: Option<String>,
}

/// What the store holds of one applicable policy for a check-in.
#[derive(Clone, Debug)]
pub struct GetPolicyDataForCheckinResult {
    pub scope: Scope,
    pub policy_pk: u64,
    pub latest_deploy: GetPolicyDataForCheckinLatestDeployResult,
    pub last_deploy: Option<GetPolicyDataForCheckinLastDeployResult>,
}

pub open spec fn last_deploy_of(x: Option<Deploy>, statuses: Seq<DeployStatus>, d: u64) -> Option<GetPolicyDataForCheckinLastDeployResult> {
    match x {
        Some(y) => Some(GetPolicyDataForCheckinLastDeployResult {
            pk: y.pk,
            data: y.data,
            conflicts: find_status(statuses, d, y.pk)->Some_0.conflicts,
        }),
        None => None,
    }
}

/// One entry for each resolved policy that has a deploy, in resolution order.
pub open spec fn policy_data_of(deploys: Seq<Deploy>, statuses: Seq<DeployStatus>, res: Seq<(u64, Scope)>, d: u64) -> Seq<GetPolicyDataForCheckinResult>
    decreases res.len(),
{
    if res.len() == 0 {
        seq![]
    } else {
        let pre = policy_data_of(deploys, statuses, res.drop_last(), d);
        let (p, scope) = res.last();
        match latest(deploys, p) {
            Some(x) => pre.push(GetPolicyDataForCheckinResult {
                scope: scope,
                policy_pk: p,
                latest_deploy: GetPolicyDataForCheckinLatestDeployResult { pk: x.pk, data: x.data },
                last_deploy: last_deploy_of(latest_acked(deploys, statuses, p, d), statuses, d),
            }),
            None => pre,
        }
    }
}

/// The device's most recent report (Applied or Conflict) on any deploy of
/// policy `p`.
pub open spec fn last_outcome(deploys: Seq<Deploy>, statuses: Seq<DeployStatus>, p: u64, d: u64) -> Option<DeployStatus> {
    match latest_reported(deploys, statuses, p, d) {
        Some(y) => reported_row(statuses, d, y.pk),
        None => None,
    }
}

/// Conflict when the last report is a conflict, else the state of the row
/// of the latest deploy.
pub open spec fn plan_variant(last: Option<DeployStatus>, current: Option<DeployStatus>) -> DeployVariant {
    match last {
        Some(r) => if r.variant == DeployVariant::Conflict {
            DeployVariant::Conflict
        } else {
            variant_of(current)
        },
        None => variant_of(current),
    }
}

pub open spec fn plan_entry(deploys: Seq<Deploy>, p: u64, scope: Scope, x: Deploy, statuses: Seq<DeployStatus>, d: u64) -> PolicyPlan {
    PolicyPlan {
        policy_pk: p,
        scope: scope,
        deploy_pk: x.pk,
        data: x.data,
        variant: plan_variant(last_outcome(deploys, statuses, p, d), find_status(statuses, d, x.pk)),
        conflicts: conflict_of(last_outcome(deploys, statuses, p, d)),
    }
}

/// One entry for each resolved policy that has a deploy, in resolution order.
pub open spec fn plan_of(deploys: Seq<Deploy>, statuses: Seq<DeployStatus>, res: Seq<(u64, Scope)>, d: u64) -> Seq<PolicyPlan>
    decreases res.len(),
{
    if res.len() == 0 {
        seq![]
    } else {
        let pre = plan_of(deploys, statuses, res.drop_last(), d);
        let (p, scope) = res.last();
        match latest(deploys, p) {
            Some(x) => pre.push(plan_entry(deploys, p, scope, x, statuses, d)),
            None => pre,
        }
    }
}

/// The Pending rows a plan needs: one for each entry whose deploy has no row.
pub open spec fn batch_of(plan: Seq<PolicyPlan>, statuses: Seq<DeployStatus>, d: u64) -> Seq<CreatePolicyDeployStatus>
    decreases plan.len(),
{
    if plan.len() == 0 {
        seq![]
    } else {
        let pre = batch_of(plan.drop_last(), statuses, d);
        if find_status(statuses, d, plan.last().deploy_pk) is None {
            pre.push(CreatePolicyDeployStatus { device_pk: d, deploy_pk: plan.last().deploy_pk })
        } else {
            pre
        }
    }
}

/// The policies of a check-in of device `d`.
pub open spec fn checkin_plan(
    asg: Seq<Assignment>,
    mem: Seq<Membership>,
    deploys: Seq<Deploy>,
    statuses: Seq<DeployStatus>,
    d: u64,
) -> Seq<PolicyPlan> {
    plan_of(deploys, statuses, resolution(asg, mem, d), d)
}

/// The Pending rows that a check-in of device `d` records.
pub open spec fn checkin_batch(
    asg: Seq<Assignment>,
    mem: Seq<Membership>,
    deploys: Seq<Deploy>,
    statuses: Seq<DeployStatus>,
    d: u64,
) -> Seq<CreatePolicyDeployStatus> {
    batch_of(checkin_plan(asg, mem, deploys, statuses, d), statuses, d)
}

/// Every entry of the plan whose deploy has no row is in the batch.
pub proof fn lemma_batch_of(plan: Seq<PolicyPlan>, statuses: Seq<DeployStatus>, d: u64)
    ensures
        forall|k: int|
            0 <= k < plan.len() && find_status(statuses, d, #[trigger] plan[k].deploy_pk) is None ==> exists|j: int|
                0 <= j < batch_of(plan, statuses, d).len() && batch_of(plan, statuses, d)[j] == (
                CreatePolicyDeployStatus { device_pk: d, deploy_pk: plan[k].deploy_pk }),
    decreases plan.len(),
{
    if plan.len() > 0 {
        let pre = plan.drop_last();
        lemma_batch_of(pre, statuses, d);
        let b = batch_of(plan, statuses, d);
        let b0 = batch_of(pre, statuses, d);
        assert forall|k: int|
            0 <= k < plan.len() && find_status(statuses, d, #[trigger] plan[k].deploy_pk) is None implies exists|j: int|
                0 <= j < b.len() && b[j] == (CreatePolicyDeployStatus { device_pk: d, deploy_pk: plan[k].deploy_pk }) by {
            if k < pre.len() {
                assert(pre[k] == plan[k]);
                let j = choose|j: int|
                    0 <= j < b0.len() && b0[j] == (CreatePolicyDeployStatus { device_pk: d, deploy_pk: pre[k].deploy_pk });
                assert(b[j] == b0[j]);
            } else {
                assert(b[b0.len() as int] == (CreatePolicyDeployStatus { device_pk: d, deploy_pk: plan[k].deploy_pk }));
            }
        }
    }
}

/// The plan is the same computed on any two ledgers that agree on every
/// reported row and on the state of each latest deploy's row.
pub proof fn lemma_plan_same_conflicts(
    deploys: Seq<Deploy>,
    s1: Seq<DeployStatus>,
    s2: Seq<DeployStatus>,
    res: Seq<(u64, Scope)>,
    d: u64,
)
    requires
        forall|dep: u64| #[trigger] reported_row(s1, d, dep) == reported_row(s2, d, dep),
        forall|p: u64|
            #[trigger] latest(deploys, p) is Some ==> variant_of(find_status(s1, d, latest(deploys, p)->Some_0.pk))
                == variant_of(find_status(s2, d, latest(deploys, p)->Some_0.pk)),
    ensures
        plan_of(deploys, s1, res, d) == plan_of(deploys, s2, res, d),
    decreases res.len(),
{
    if res.len() > 0 {
        lemma_plan_same_conflicts(deploys, s1, s2, res.drop_last(), d);
        let (p, scope) = res.last();
        lemma_latest_reported_same(deploys, s1, s2, p, d);
    }
}

/// The deploy that a last-deploy entry of policy `p` names.
pub open spec fn named_deploy(l: Option<GetPolicyDataForCheckinLastDeployResult>, p: u64) -> Option<Deploy> {
    match l {
        Some(x) => Some(Deploy { pk: x.pk, policy_pk: p, data: x.data }),
        None => None,
    }
}

/// What the policies of a check-in are: each an applicable policy, listed
/// once, with its resolved scope and its latest deploy; and every
/// applicable policy that has a deploy is listed.
pub open spec fn plan_exact(asg: Seq<Assignment>, mem: Seq<Membership>, deploys: Seq<Deploy>, d: u64, plan: Seq<PolicyPlan>) -> bool {
    &&& forall|k1: int, k2: int|
        0 <= k1 < plan.len() && 0 <= k2 < plan.len() && k1 != k2 ==> #[trigger] plan[k1].policy_pk
            != #[trigger] plan[k2].policy_pk
    &&& forall|k: int|
        0 <= k < plan.len() ==> applicable(asg, mem, (#[trigger] plan[k]).policy_pk, d) && plan[k].scope
            == resolved_scope(asg, plan[k].policy_pk, d) && latest_exact(
            deploys,
            plan[k].policy_pk,
            Some(Deploy { pk: plan[k].deploy_pk, policy_pk: plan[k].policy_pk, data: plan[k].data }),
        )
    &&& forall|p: u64|
        #[trigger] applicable(asg, mem, p, d) && has_deploy_of(deploys, p) ==> exists|k: int|
            0 <= k < plan.len() && plan[k].policy_pk == p
}

/// What the policy data of a check-in is: each entry an applicable policy,
/// listed once, with its resolved scope, its latest deploy, and the most
/// recent of its deploys that the device has a row for, with that row's
/// conflicts; and every applicable policy that has a deploy is listed.
pub open spec fn policy_data_exact(
    asg: Seq<Assignment>,
    mem: Seq<Membership>,
    deploys: Seq<Deploy>,
    statuses: Seq<DeployStatus>,
    d: u64,
    v: Seq<GetPolicyDataForCheckinResult>,
) -> bool {
    &&& forall|k1: int, k2: int|
        0 <= k1 < v.len() && 0 <= k2 < v.len() && k1 != k2 ==> #[trigger] v[k1].policy_pk != #[trigger] v[k2].policy_pk
    &&& forall|k: int|
        0 <= k < v.len() ==> applicable(asg, mem, (#[trigger] v[k]).policy_pk, d) && v[k].scope == resolved_scope(
            asg,
            v[k].policy_pk,
            d,
        ) && latest_exact(
            deploys,
            v[k].policy_pk,
            Some(Deploy { pk: v[k].latest_deploy.pk, policy_pk: v[k].policy_pk, data: v[k].latest_deploy.data }),
        ) && latest_acked_exact(deploys, statuses, v[k].policy_pk, d, named_deploy(v[k].last_deploy, v[k].policy_pk))
            && (v[k].last_deploy is Some ==> v[k].last_deploy->Some_0.conflicts == find_status(
            statuses,
            d,
            v[k].last_deploy->Some_0.pk,
        )->Some_0.conflicts)
    &&& forall|p: u64|
        #[trigger] applicable(asg, mem, p, d) && has_deploy_of(deploys, p) ==> exists|k: int|
            0 <= k < v.len() && v[k].policy_pk == p
}

proof fn lemma_plan_of_shape(deploys: Seq<Deploy>, statuses: Seq<DeployStatus>, res: Seq<(u64, Scope)>, d: u64)
    ensures
        forall|k: int|
            0 <= k < plan_of(deploys, statuses, res, d).len() ==> exists|j: int|
                0 <= j < res.len() && res[j].0 == (#[trigger] plan_of(deploys, statuses, res, d)[k]).policy_pk
                    && res[j].1 == plan_of(deploys, statuses, res, d)[k].scope && latest(
                    deploys,
                    res[j].0,
                ) == Some(
                    Deploy {
                        pk: plan_of(deploys, statuses, res, d)[k].deploy_pk,
                        policy_pk: res[j].0,
                        data: plan_of(deploys, statuses, res, d)[k].data,
                    },
                ),
        forall|j: int|
            0 <= j < res.len() && #[trigger] latest(deploys, res[j].0) is Some ==> exists|k: int|
                0 <= k < plan_of(deploys, statuses, res, d).len() && plan_of(deploys, statuses, res, d)[k].policy_pk
                    == res[j].0 && plan_of(deploys, statuses, res, d)[k].deploy_pk == latest(deploys, res[j].0)->Some_0.pk,
        keys_distinct(res) ==> forall|k1: int, k2: int|
            0 <= k1 < plan_of(deploys, statuses, res, d).len() && 0 <= k2 < plan_of(deploys, statuses, res, d).len()
                && k1 != k2 ==> #[trigger] plan_of(deploys, statuses, res, d)[k1].policy_pk
                != #[trigger] plan_of(deploys, statuses, res, d)[k2].policy_pk,
    decreases res.len(),
{
    if res.len() > 0 {
        let pre = res.drop_last();
        lemma_plan_of_shape(deploys, statuses, pre, d);
        let pl0 = plan_of(deploys, statuses, pre, d);
        let pl = plan_of(deploys, statuses, res, d);
        let n = res.len() - 1;
        assert(forall|j: int| 0 <= j < pre.len() ==> pre[j] == res[j]);
        assert(res[n] == res.last());
        let p = res[n].0;
        if let Some(x) = latest(deploys, p) {
            lemma_latest_exact(deploys, p);
            assert(pl == pl0.push(plan_entry(deploys, p, res[n].1, x, statuses, d)));
        }
        assert forall|k: int| 0 <= k < pl.len() implies exists|j: int|
            0 <= j < res.len() && res[j].0 == (#[trigger] pl[k]).policy_pk && res[j].1 == pl[k].scope && latest(
                deploys,
                res[j].0,
            ) == Some(Deploy { pk: pl[k].deploy_pk, policy_pk: res[j].0, data: pl[k].data }) by {
            if k < pl0.len() {
                assert(pl[k] == pl0[k]);
                let j = choose|j: int|
                    0 <= j < pre.len() && pre[j].0 == (#[trigger] pl0[k]).policy_pk && pre[j].1 == pl0[k].scope && latest(
                        deploys,
                        pre[j].0,
                    ) == Some(Deploy { pk: pl0[k].deploy_pk, policy_pk: pre[j].0, data: pl0[k].data });
                assert(res[j] == pre[j]);
            } else {
                assert(res[n].0 == pl[k].policy_pk);
            }
        }
        assert forall|j: int|
            0 <= j < res.len() && #[trigger] latest(deploys, res[j].0) is Some implies exists|k: int|
                0 <= k < pl.len() && pl[k].policy_pk == res[j].0 && pl[k].deploy_pk == latest(deploys, res[j].0)->Some_0.pk by {
            if j < pre.len() {
                assert(pre[j] == res[j]);
                assert(latest(deploys, pre[j].0) is Some);
                let k = choose|k: int|
                    0 <= k < pl0.len() && pl0[k].policy_pk == pre[j].0 && pl0[k].deploy_pk == latest(deploys, pre[j].0)->Some_0.pk;
                assert(pl[k] == pl0[k]);
            } else {
                assert(pl[pl0.len() as int].policy_pk == res[j].0);
            }
        }
        if keys_distinct(res) {
            assert forall|a: int, b: int|
                0 <= a < pre.len() && 0 <= b < pre.len() && a != b implies #[trigger] pre[a].0 != #[trigger] pre[b].0 by {
                assert(res[a].0 != res[b].0);
            }
            assert forall|k1: int, k2: int|
                0 <= k1 < pl.len() && 0 <= k2 < pl.len() && k1 != k2 implies #[trigger] pl[k1].policy_pk
                    != #[trigger] pl[k2].policy_pk by {
                if k1 < pl0.len() && k2 < pl0.len() {
                    assert(pl[k1] == pl0[k1] && pl[k2] == pl0[k2]);
                } else {
                    let kk = if k1 < pl0.len() { k1 } else { k2 };
                    assert(pl[kk] == pl0[kk]);
                    let j = choose|j: int|
                        0 <= j < pre.len() && pre[j].0 == (#[trigger] pl0[kk]).policy_pk && pre[j].1 == pl0[kk].scope && latest(
                            deploys,
                            pre[j].0,
                        ) == Some(Deploy { pk: pl0[kk].deploy_pk, policy_pk: pre[j].0, data: pl0[kk].data });
                    assert(res[j].0 != res[n].0);
                }
            }
        }
    }
}

proof fn lemma_policy_data_of_shape(deploys: Seq<Deploy>, statuses: Seq<DeployStatus>, res: Seq<(u64, Scope)>, d: u64)
    ensures
        forall|k: int|
            0 <= k < policy_data_of(deploys, statuses, res, d).len() ==> exists|j: int|
                0 <= j < res.len() && res[j].0 == (#[trigger] policy_data_of(deploys, statuses, res, d)[k]).policy_pk
                    && res[j].1 == policy_data_of(deploys, statuses, res, d)[k].scope && latest(deploys, res[j].0) == Some(
                    Deploy {
                        pk: policy_data_of(deploys, statuses, res, d)[k].latest_deploy.pk,
                        policy_pk: res[j].0,
                        data: policy_data_of(deploys, statuses, res, d)[k].latest_deploy.data,
                    },
                ) && policy_data_of(deploys, statuses, res, d)[k].last_deploy == last_deploy_of(
                    latest_acked(deploys, statuses, res[j].0, d),
                    statuses,
                    d,
                ),
        forall|j: int|
            0 <= j < res.len() && #[trigger] latest(deploys, res[j].0) is Some ==> exists|k: int|
                0 <= k < policy_data_of(deploys, statuses, res, d).len() && policy_data_of(deploys, statuses, res, d)[k].policy_pk
                    == res[j].0,
        keys_distinct(res) ==> forall|k1: int, k2: int|
            0 <= k1 < policy_data_of(deploys, statuses, res, d).len() && 0 <= k2 < policy_data_of(deploys, statuses, res, d).len()
                && k1 != k2 ==> #[trigger] policy_data_of(deploys, statuses, res, d)[k1].policy_pk
                != #[trigger] policy_data_of(deploys, statuses, res, d)[k2].policy_pk,
    decreases res.len(),
{
    if res.len() > 0 {
        let pre = res.drop_last();
        lemma_policy_data_of_shape(deploys, statuses, pre, d);
        let pl0 = policy_data_of(deploys, statuses, pre, d);
        let pl = policy_data_of(deploys, statuses, res, d);
        let n = res.len() - 1;
        assert(forall|j: int| 0 <= j < pre.len() ==> pre[j] == res[j]);
        assert(res[n] == res.last());
        let p = res[n].0;
        if let Some(x) = latest(deploys, p) {
            lemma_latest_exact(deploys, p);
        }
        assert forall|k: int| 0 <= k < pl.len() implies exists|j: int|
            0 <= j < res.len() && res[j].0 == (#[trigger] pl[k]).policy_pk && res[j].1 == pl[k].scope && latest(
                deploys,
                res[j].0,
            ) == Some(Deploy { pk: pl[k].latest_deploy.pk, policy_pk: res[j].0, data: pl[k].latest_deploy.data })
                && pl[k].last_deploy == last_deploy_of(latest_acked(deploys, statuses, res[j].0, d), statuses, d) by {
            if k < pl0.len() {
                assert(pl[k] == pl0[k]);
                let j = choose|j: int|
                    0 <= j < pre.len() && pre[j].0 == (#[trigger] pl0[k]).policy_pk && pre[j].1 == pl0[k].scope && latest(
                        deploys,
                        pre[j].0,
                    ) == Some(Deploy { pk: pl0[k].latest_deploy.pk, policy_pk: pre[j].0, data: pl0[k].latest_deploy.data })
                        && pl0[k].last_deploy == last_deploy_of(latest_acked(deploys, statuses, pre[j].0, d), statuses, d);
                assert(res[j] == pre[j]);
            } else {
                assert(res[n].0 == pl[k].policy_pk);
            }
        }
        assert forall|j: int|
            0 <= j < res.len() && #[trigger] latest(deploys, res[j].0) is Some implies exists|k: int|
                0 <= k < pl.len() && pl[k].policy_pk == res[j].0 by {
            if j < pre.len() {
                assert(pre[j] == res[j]);
                assert(latest(deploys, pre[j].0) is Some);
                let k = choose|k: int| 0 <= k < pl0.len() && pl0[k].policy_pk == pre[j].0;
                assert(pl[k] == pl0[k]);
            } else {
                assert(pl[pl0.len() as int].policy_pk == res[j].0);
            }
        }
        if keys_distinct(res) {
            assert forall|a: int, b: int|
                0 <= a < pre.len() && 0 <= b < pre.len() && a != b implies #[trigger] pre[a].0 != #[trigger] pre[b].0 by {
                assert(res[a].0 != res[b].0);
            }
            assert forall|k1: int, k2: int|
                0 <= k1 < pl.len() && 0 <= k2 < pl.len() && k1 != k2 implies #[trigger] pl[k1].policy_pk
                    != #[trigger] pl[k2].policy_pk by {
                if k1 < pl0.len() && k2 < pl0.len() {
                    assert(pl[k1] == pl0[k1] && pl[k2] == pl0[k2]);
                } else {
                    let kk = if k1 < pl0.len() { k1 } else { k2 };
                    assert(pl[kk] == pl0[kk]);
                    let j = choose|j: int|
                        0 <= j < pre.len() && pre[j].0 == (#[trigger] pl0[kk]).policy_pk && pre[j].1 == pl0[kk].scope && latest(
                            deploys,
                            pre[j].0,
                        ) == Some(Deploy { pk: pl0[kk].latest_deploy.pk, policy_pk: pre[j].0, data: pl0[kk].latest_deploy.data })
                            && pl0[kk].last_deploy == last_deploy_of(latest_acked(deploys, statuses, pre[j].0, d), statuses, d);
                    assert(res[j].0 != res[n].0);
                }
            }
        }
    }
}

/// The plan of a check-in is exactly what `plan_exact` says.
pub proof fn lemma_checkin_plan_exact(asg: Seq<Assignment>, mem: Seq<Membership>, deploys: Seq<Deploy>, statuses: Seq<DeployStatus>, d: u64)
    ensures
        plan_exact(asg, mem, deploys, d, checkin_plan(asg, mem, deploys, statuses, d)),
{
    let res = resolution(asg, mem, d);
    let plan = checkin_plan(asg, mem, deploys, statuses, d);
    lemma_resolution_exact(asg, mem, d);
    lemma_plan_of_shape(deploys, statuses, res, d);
    assert forall|k: int| 0 <= k < plan.len() implies applicable(asg, mem, (#[trigger] plan[k]).policy_pk, d) && plan[k].scope
        == resolved_scope(asg, plan[k].policy_pk, d) && latest_exact(
        deploys,
        plan[k].policy_pk,
        Some(Deploy { pk: plan[k].deploy_pk, policy_pk: plan[k].policy_pk, data: plan[k].data }),
    ) by {
        let j = choose|j: int|
            0 <= j < res.len() && res[j].0 == (#[trigger] plan[k]).policy_pk && res[j].1 == plan[k].scope && latest(
                deploys,
                res[j].0,
            ) == Some(Deploy { pk: plan[k].deploy_pk, policy_pk: res[j].0, data: plan[k].data });
        assert(applicable(asg, mem, res[j].0, d));
        assert(res[j].1 == resolved_scope(asg, res[j].0, d));
        lemma_latest_exact(deploys, res[j].0);
    }
    assert forall|p: u64| #[trigger] applicable(asg, mem, p, d) && has_deploy_of(deploys, p) implies exists|k: int|
        0 <= k < plan.len() && plan[k].policy_pk == p by {
        assert(has_key(res, p));
        let j = choose|j: int| 0 <= j < res.len() && res[j].0 == p;
        lemma_latest_exact(deploys, p);
        assert(latest(deploys, res[j].0) is Some);
    }
}

/// The policy data of a check-in is exactly what `policy_data_exact` says.
pub proof fn lemma_policy_data_exact(asg: Seq<Assignment>, mem: Seq<Membership>, deploys: Seq<Deploy>, statuses: Seq<DeployStatus>, d: u64)
    ensures
        policy_data_exact(asg, mem, deploys, statuses, d, policy_data_of(deploys, statuses, resolution(asg, mem, d), d)),
{
    let res = resolution(asg, mem, d);
    let v = policy_data_of(deploys, statuses, res, d);
    lemma_resolution_exact(asg, mem, d);
    lemma_policy_data_of_shape(deploys, statuses, res, d);
    assert forall|k: int| 0 <= k < v.len() implies applicable(asg, mem, (#[trigger] v[k]).policy_pk, d) && v[k].scope
        == resolved_scope(asg, v[k].policy_pk, d) && latest_exact(
        deploys,
        v[k].policy_pk,
        Some(Deploy { pk: v[k].latest_deploy.pk, policy_pk: v[k].policy_pk, data: v[k].latest_deploy.data }),
    ) && latest_acked_exact(deploys, statuses, v[k].policy_pk, d, named_deploy(v[k].last_deploy, v[k].policy_pk)) && (
    v[k].last_deploy is Some ==> v[k].last_deploy->Some_0.conflicts == find_status(
        statuses,
        d,
        v[k].last_deploy->Some_0.pk,
    )->Some_0.conflicts) by {
        let j = choose|j: int|
            0 <= j < res.len() && res[j].0 == (#[trigger] v[k]).policy_pk && res[j].1 == v[k].scope && latest(
                deploys,
                res[j].0,
            ) == Some(Deploy { pk: v[k].latest_deploy.pk, policy_pk: res[j].0, data: v[k].latest_deploy.data })
                && v[k].last_deploy == last_deploy_of(latest_acked(deploys, statuses, res[j].0, d), statuses, d);
        let p = res[j].0;
        assert(applicable(asg, mem, p, d));
        assert(res[j].1 == resolved_scope(asg, p, d));
        lemma_latest_exact(deploys, p);
        lemma_latest_acked_exact(deploys, statuses, p, d);
        if let Some(y) = latest_acked(deploys, statuses, p, d) {
            assert(named_deploy(v[k].last_deploy, p) == Some(y));
        }
    }
    assert forall|p: u64| #[trigger] applicable(asg, mem, p, d) && has_deploy_of(deploys, p) implies exists|k: int|
        0 <= k < v.len() && v[k].policy_pk == p by {
        assert(has_key(res, p));
        let j = choose|j: int| 0 <= j < res.len() && res[j].0 == p;
        lemma_latest_exact(deploys, p);
        assert(latest(deploys, res[j].0) is Some);
    }
}

proof fn lemma_policy_data_same_shape(deploys: Seq<Deploy>, s1: Seq<DeployStatus>, s2: Seq<DeployStatus>, res: Seq<(u64, Scope)>, d: u64)
    ensures
        policy_data_of(deploys, s1, res, d).len() == policy_data_of(deploys, s2, res, d).len(),
        forall|k: int|
            0 <= k < policy_data_of(deploys, s1, res, d).len() ==> (#[trigger] policy_data_of(deploys, s1, res, d)[k]).policy_pk
                == policy_data_of(deploys, s2, res, d)[k].policy_pk && policy_data_of(deploys, s1, res, d)[k].scope
                == policy_data_of(deploys, s2, res, d)[k].scope && policy_data_of(deploys, s1, res, d)[k].latest_deploy
                == policy_data_of(deploys, s2, res, d)[k].latest_deploy,
    decreases res.len(),
{
    if res.len() > 0 {
        lemma_policy_data_same_shape(deploys, s1, s2, res.drop_last(), d);
    }
}

/// Asking for the policy data again after a check-in recorded its Pending
/// rows, with no policy change in between, gives the same policies, scopes
/// and latest deploys, and every latest deploy now has a row of the device:
/// nothing is left to record.
pub proof fn lemma_policy_data_idempotent(
    asg: Seq<Assignment>,
    mem: Seq<Membership>,
    deploys: Seq<Deploy>,
    statuses: Seq<DeployStatus>,
    d: u64,
)
    requires
        crate::model::statuses_unique(statuses),
    ensures
        ({
            let res = resolution(asg, mem, d);
            let after = with_pending(statuses, checkin_batch(asg, mem, deploys, statuses, d));
            let v1 = policy_data_of(deploys, statuses, res, d);
            let v2 = policy_data_of(deploys, after, res, d);
            &&& v2.len() == v1.len()
            &&& forall|k: int|
                0 <= k < v2.len() ==> (#[trigger] v2[k]).policy_pk == v1[k].policy_pk && v2[k].scope == v1[k].scope
                    && v2[k].latest_deploy == v1[k].latest_deploy && v2[k].last_deploy is Some
                    && v2[k].last_deploy->Some_0.pk == v2[k].latest_deploy.pk
        }),
{
    let res = resolution(asg, mem, d);
    let after = with_pending(statuses, checkin_batch(asg, mem, deploys, statuses, d));
    let v2 = policy_data_of(deploys, after, res, d);
    lemma_policy_data_same_shape(deploys, after, statuses, res, d);
    lemma_rows_after_checkin(asg, mem, deploys, statuses, d);
    lemma_policy_data_of_shape(deploys, after, res, d);
    assert forall|k: int| 0 <= k < v2.len() implies (#[trigger] v2[k]).last_deploy is Some && v2[k].last_deploy->Some_0.pk
        == v2[k].latest_deploy.pk by {
        let j = choose|j: int|
            0 <= j < res.len() && res[j].0 == (#[trigger] v2[k]).policy_pk && res[j].1 == v2[k].scope && latest(
                deploys,
                res[j].0,
            ) == Some(Deploy { pk: v2[k].latest_deploy.pk, policy_pk: res[j].0, data: v2[k].latest_deploy.data })
                && v2[k].last_deploy == last_deploy_of(latest_acked(deploys, after, res[j].0, d), after, d);
        lemma_acked_is_latest(deploys, after, res[j].0, d);
    }
}

/// When the latest deploy of `p` has a row of device `d`, it is also the
/// most recent deploy of `p` that has one.
proof fn lemma_acked_is_latest(deploys: Seq<Deploy>, statuses: Seq<DeployStatus>, p: u64, d: u64)
    requires
        latest(deploys, p) is Some,
        find_status(statuses, d, latest(deploys, p)->Some_0.pk) is Some,
    ensures
        latest_acked(deploys, statuses, p, d) is Some,
        latest_acked(deploys, statuses, p, d)->Some_0.pk == latest(deploys, p)->Some_0.pk,
{
    let x = latest(deploys, p)->Some_0;
    lemma_latest_exact(deploys, p);
    lemma_latest_acked_exact(deploys, statuses, p, d);
    let i = choose|i: int| 0 <= i < deploys.len() && deploys[i] == x;
    assert(deploys[i].policy_pk == p && find_status(statuses, d, deploys[i].pk) is Some);
    let y = latest_acked(deploys, statuses, p, d)->Some_0;
    let iy = choose|iy: int| 0 <= iy < deploys.len() && deploys[iy] == y;
    assert(deploys[iy].policy_pk == p);
}

/// After a check-in records its Pending rows, the latest deploy of every
/// resolved policy has a row of the device.
proof fn lemma_rows_after_checkin(
    asg: Seq<Assignment>,
    mem: Seq<Membership>,
    deploys: Seq<Deploy>,
    statuses: Seq<DeployStatus>,
    d: u64,
)
    requires
        crate::model::statuses_unique(statuses),
    ensures
        forall|j: int|
            0 <= j < resolution(asg, mem, d).len() && #[trigger] latest(deploys, resolution(asg, mem, d)[j].0) is Some
                ==> find_status(
                with_pending(statuses, checkin_batch(asg, mem, deploys, statuses, d)),
                d,
                latest(deploys, resolution(asg, mem, d)[j].0)->Some_0.pk,
            ) is Some,
{
    let res = resolution(asg, mem, d);
    let plan = checkin_plan(asg, mem, deploys, statuses, d);
    let batch = checkin_batch(asg, mem, deploys, statuses, d);
    let after = with_pending(statuses, batch);
    lemma_with_pending(statuses, batch);
    lemma_batch_of(plan, statuses, d);
    lemma_plan_of_shape(deploys, statuses, res, d);
    assert forall|j: int| 0 <= j < res.len() && #[trigger] latest(deploys, res[j].0) is Some implies find_status(
        after,
        d,
        latest(deploys, res[j].0)->Some_0.pk,
    ) is Some by {
        let kp = choose|kp: int|
            0 <= kp < plan.len() && plan[kp].policy_pk == res[j].0 && plan[kp].deploy_pk == latest(deploys, res[j].0)->Some_0.pk;
        if find_status(statuses, d, plan[kp].deploy_pk) is None {
            let b = choose|b: int|
                0 <= b < batch.len() && batch[b] == (CreatePolicyDeployStatus { device_pk: d, deploy_pk: plan[kp].deploy_pk });
            assert(find_status(after, batch[b].device_pk, batch[b].deploy_pk) is Some);
        }
    }
}

/// Checking in twice with no change in between gives the same plan, and
/// the second check-in records no Pending row.
pub proof fn lemma_checkin_idempotent(
    asg: Seq<Assignment>,
    mem: Seq<Membership>,
    deploys: Seq<Deploy>,
    statuses: Seq<DeployStatus>,
    d: u64,
)
    requires
        crate::model::statuses_unique(statuses),
    ensures
        ({
            let after = with_pending(statuses, checkin_batch(asg, mem, deploys, statuses, d));
            &&& checkin_plan(asg, mem, deploys, after, d) == checkin_plan(asg, mem, deploys, statuses, d)
            &&& with_pending(after, checkin_batch(asg, mem, deploys, after, d)) == after
        }),
{
    let plan = checkin_plan(asg, mem, deploys, statuses, d);
    let batch = checkin_batch(asg, mem, deploys, statuses, d);
    let after = with_pending(statuses, batch);
    lemma_with_pending(statuses, batch);
    assert forall|p: u64| #[trigger] latest(deploys, p) is Some implies variant_of(
        find_status(after, d, latest(deploys, p)->Some_0.pk),
    ) == variant_of(find_status(statuses, d, latest(deploys, p)->Some_0.pk)) by {
        let dep = latest(deploys, p)->Some_0.pk;
        if find_status(statuses, d, dep) is None {
            assert(variant_of(find_status(after, d, dep)) == DeployVariant::Pending);
        }
    }
    assert forall|dep: u64| #[trigger] reported_row(after, d, dep) == reported_row(statuses, d, dep) by {
        if find_status(statuses, d, dep) is None {
            assert(variant_of(find_status(after, d, dep)) == DeployVariant::Pending);
        }
    }
    lemma_plan_same_conflicts(deploys, after, statuses, resolution(asg, mem, d), d);
    let b2 = checkin_batch(asg, mem, deploys, after, d);
    lemma_batch_of(plan, statuses, d);
    assert forall|k: int| 0 <= k < plan.len() implies find_status(after, d, #[trigger] plan[k].deploy_pk) is Some by {
        if find_status(statuses, d, plan[k].deploy_pk) is None {
            let j = choose|j: int|
                0 <= j < batch.len() && batch[j] == (CreatePolicyDeployStatus { device_pk: d, deploy_pk: plan[k].deploy_pk });
            assert(find_status(after, batch[j].device_pk, batch[j].deploy_pk) is Some);
        }
    }
    lemma_batch_empty(plan, after, d);
    lemma_with_pending_idempotent(after, b2);
}

proof fn lemma_batch_empty(plan: Seq<PolicyPlan>, statuses: Seq<DeployStatus>, d: u64)
    requires
        forall|k: int| 0 <= k < plan.len() ==> find_status(statuses, d, #[trigger] plan[k].deploy_pk) is Some,
    ensures
        batch_of(plan, statuses, d).len() == 0,
    decreases plan.len(),
{
    if plan.len() > 0 {
        let pre = plan.drop_last();
        assert forall|k: int| 0 <= k < pre.len() implies find_status(statuses, d, #[trigger] pre[k].deploy_pk) is Some by {
            assert(pre[k] == plan[k]);
        }
        lemma_batch_empty(pre, statuses, d);
        assert(plan[plan.len() - 1] == plan.last());
    }
}

/// Rows of other pairs are found as before when one row is replaced by a
/// row of the same pair.
proof fn lemma_find_status_update(s: Seq<DeployStatus>, i: int, x: DeployStatus, d: u64, dep: u64)
    requires
        crate::model::statuses_unique(s),
        0 <= i < s.len(),
        x.device_pk == s[i].device_pk && x.deploy_pk == s[i].deploy_pk,
        !(d == s[i].device_pk && dep == s[i].deploy_pk),
    ensures
        find_status(s.update(i, x), d, dep) == find_status(s, d, dep),
{
    let t = s.update(i, x);
    assert forall|a: int, b: int|
        0 <= a < t.len() && 0 <= b < t.len() && a != b implies !(#[trigger] crate::model::same_row(t[a], t[b])) by {
        assert(!crate::model::same_row(s[a], s[b]));
    }
    lemma_find_status(s, d, dep);
    lemma_find_status(t, d, dep);
    if has_row(s, d, dep) {
        let m = choose|m: int| 0 <= m < s.len() && s[m].device_pk == d && s[m].deploy_pk == dep;
        lemma_find_status_unique(s, m);
        lemma_find_status_unique(t, m);
    } else if has_row(t, d, dep) {
        let m = choose|m: int| 0 <= m < t.len() && t[m].device_pk == d && t[m].deploy_pk == dep;
        assert(s[m] == t[m]);
    }
}

/// After a device reports a conflict on a deploy of an applicable policy,
/// its check-ins surface the reported payload, and the Conflict state, for
/// that policy as long as no newer deploy of the policy has a report of the
/// device: a newer deploy with no row yet, or with a Pending row, does not
/// hide it.
pub proof fn lemma_conflict_visible(
    asg: Seq<Assignment>,
    mem: Seq<Membership>,
    deploys: Seq<Deploy>,
    statuses: Seq<DeployStatus>,
    d: u64,
    i: int,
    j: int,
    payload: String,
    done_at: i64,
)
    requires
        crate::model::statuses_unique(statuses),
        crate::model::deploy_pks_unique(deploys),
        0 <= i < statuses.len(),
        0 <= j < deploys.len(),
        statuses[i].device_pk == d,
        statuses[i].deploy_pk == deploys[j].pk,
        statuses[i].variant == DeployVariant::Pending,
        crate::resolver::applicable(asg, mem, deploys[j].policy_pk, d),
        forall|k: int|
            0 <= k < deploys.len() && deploys[k].policy_pk == deploys[j].policy_pk && deploys[k].pk > deploys[j].pk
                ==> #[trigger] reported_row(statuses, d, deploys[k].pk) is None,
    ensures
        ({
            let reported = statuses.update(i, after_outcome(statuses[i], Outcome::Conflict(payload), done_at));
            let plan = checkin_plan(asg, mem, deploys, reported, d);
            exists|k: int|
                0 <= k < plan.len() && plan[k].policy_pk == deploys[j].policy_pk && plan[k].conflicts == Some(payload)
                    && plan[k].variant == DeployVariant::Conflict
        }),
{
    let dep = deploys[j].pk;
    let p = deploys[j].policy_pk;
    let row = after_outcome(statuses[i], Outcome::Conflict(payload), done_at);
    let reported = statuses.update(i, row);
    assert forall|a: int, b: int|
        0 <= a < reported.len() && 0 <= b < reported.len() && a != b implies !(#[trigger] crate::model::same_row(reported[a], reported[b])) by {
        assert(!crate::model::same_row(statuses[a], statuses[b]));
    }
    lemma_find_status_unique(reported, i);
    assert(reported_row(reported, d, dep) == Some(row));
    lemma_latest_reported_exact(deploys, reported, p, d);
    assert(deploys[j].policy_pk == p && reported_row(reported, d, deploys[j].pk) is Some);
    let y = latest_reported(deploys, reported, p, d)->Some_0;
    let jy = choose|jy: int| 0 <= jy < deploys.len() && deploys[jy] == y;
    if y.pk != dep {
        lemma_find_status_update(statuses, i, row, d, y.pk);
        assert(reported_row(statuses, d, deploys[jy].pk) is None);
        assert(false);
    }
    if jy != j {
        assert(deploys[jy].pk != deploys[j].pk);
    }
    assert(last_outcome(deploys, reported, p, d) == Some(row));
    let res = resolution(asg, mem, d);
    lemma_resolution_exact(asg, mem, d);
    assert(crate::resolver::has_key(res, p));
    let k = choose|k: int| 0 <= k < res.len() && res[k].0 == p;
    lemma_latest_exact(deploys, p);
    assert(crate::deploys::has_deploy_of(deploys, p));
    lemma_plan_has(deploys, reported, res, d, k);
    let plan = checkin_plan(asg, mem, deploys, reported, d);
    let e = plan_entry(deploys, p, res[k].1, latest(deploys, p)->Some_0, reported, d);
    let m = choose|m: int| 0 <= m < plan.len() && plan[m] == e;
    assert(plan[m].conflicts == Some(payload));
}

proof fn lemma_latest_acked_has_row(deploys: Seq<Deploy>, statuses: Seq<DeployStatus>, p: u64, d: u64)
    ensures
        latest_acked(deploys, statuses, p, d) matches Some(y) ==> find_status(statuses, d, y.pk) is Some,
    decreases deploys.len(),
{
    if deploys.len() > 0 {
        lemma_latest_acked_has_row(deploys.drop_last(), statuses, p, d);
    }
}

proof fn lemma_plan_has(deploys: Seq<Deploy>, statuses: Seq<DeployStatus>, res: Seq<(u64, Scope)>, d: u64, k: int)
    requires
        0 <= k < res.len(),
        latest(deploys, res[k].0) is Some,
    ensures
        plan_of(deploys, statuses, res, d).contains(
            plan_entry(deploys, res[k].0, res[k].1, latest(deploys, res[k].0)->Some_0, statuses, d),
        ),
    decreases res.len(),
{
    let pre = res.drop_last();
    if k < pre.len() {
        assert(pre[k] == res[k]);
        lemma_plan_has(deploys, statuses, pre, d, k);
        let pl0 = plan_of(deploys, statuses, pre, d);
        let e = plan_entry(deploys, res[k].0, res[k].1, latest(deploys, res[k].0)->Some_0, statuses, d);
        let m = choose|m: int| 0 <= m < pl0.len() && pl0[m] == e;
        assert(plan_of(deploys, statuses, res, d)[m] == e);
    } else {
        let pl = plan_of(deploys, statuses, res, d);
        assert(pl[pl.len() - 1] == plan_entry(deploys, res[k].0, res[k].1, latest(deploys, res[k].0)->Some_0, statuses, d));
    }
}

impl Db {
    /// For each policy that applies to device `device_pk` and has a deploy:
    /// its scope, its latest deploy, and the most recent of its deploys that
    /// the device has a ledger row for, with that row's conflicts.
    pub fn get_policy_data_for_checkin(&self, device_pk: u64) -> (r: Vec<GetPolicyDataForCheckinResult>)
        ensures
            r@ == policy_data_of(
                self.deploys@,
                self.statuses@,
                resolution(self.assignments@, self.memberships@, device_pk),
                device_pk,
            ),
            policy_data_exact(self.assignments@, self.memberships@, self.deploys@, self.statuses@, device_pk, r@),
    {
        proof {
            lemma_policy_data_exact(self.assignments@, self.memberships@, self.deploys@, self.statuses@, device_pk);
        }
        let res = self.resolve_applicable_policies(device_pk);
        let mut out: Vec<GetPolicyDataForCheckinResult> = Vec::new();
        let mut k: usize = 0;
        while k < res.len()
            invariant
                k <= res@.len(),
                out@ == policy_data_of(self.deploys@, self.statuses@, res@.take(k as int), device_pk),
            decreases res@.len() - k,
        {
            proof {
                assert(res@.take(k as int + 1).drop_last() =~= res@.take(k as int));
                assert(res@.take(k as int + 1).last() == res@[k as int]);
            }
            let (p, scope) = res[k];
            if let Some(x) = self.latest_deploy(p) {
                let last = match self.last_acked_deploy(p, device_pk) {
                    Some(y) => {
                        let row = self.status_for(device_pk, y.pk);
                        let conflicts = match row {
                            Some(st) => st.conflicts,
                            None => None,
                        };
                        Some(GetPolicyDataForCheckinLastDeployResult { pk: y.pk, data: y.data, conflicts: conflicts })
                    },
                    None => None,
                };
                proof {
                    if let Some(y) = latest_acked(self.deploys@, self.statuses@, p, device_pk) {
                        lemma_latest_acked_has_row(self.deploys@, self.statuses@, p, device_pk);
                    }
                }
                out.push(
                    GetPolicyDataForCheckinResult {
                        scope: scope,
                        policy_pk: p,
                        latest_deploy: GetPolicyDataForCheckinLatestDeployResult { pk: x.pk, data: x.data },
                        last_deploy: last,
                    },
                );
            }
            k = k + 1;
        }
        proof {
            assert(res@.take(k as int) =~= res@);
        }
        out
    }

    /// Answers a check-in of device `device_pk` at time `now`: for every
    /// applicable policy that has a deploy, its scope and its latest deploy;
    /// the payload of the device's most recent report on any deploy of the
    /// policy when that report is a conflict (the policy is then in
    /// conflict, even while a newer deploy is still Pending; a later Applied
    /// report on a newer deploy clears it); and the device's queued actions.
    /// Only reports count as the most recent status, never Pending rows, so
    /// the answer does not change when this check-in writes its rows. Records, in one batch, a Pending row for every latest
    /// deploy that the device has no row for, and sets the device's
    /// last-seen time. `NotFound`, with nothing changed, when the device is
    /// not enrolled. Repeating the check-in gives the same plan and records
    /// nothing more.
    pub fn checkin(&mut self, device_pk: u64, now: i64) -> (r: Result<CheckinPlan, DbError>)
        requires
            old(self).wf(),
        ensures
            final(self).wf(),
            r is Ok <==> has_device(old(self).devices@, device_pk),
            match r {
                Ok(plan) => {
                    &&& plan_exact(old(self).assignments@, old(self).memberships@, old(self).deploys@, device_pk, plan.policies@)
                    &&& plan.policies@ == checkin_plan(
                        old(self).assignments@,
                        old(self).memberships@,
                        old(self).deploys@,
                        old(self).statuses@,
                        device_pk,
                    )
                    &&& plan.actions@ == queue_of(old(self).actions@, device_pk)
                    &&& final(self).statuses@ == with_pending(
                        old(self).statuses@,
                        checkin_batch(
                            old(self).assignments@,
                            old(self).memberships@,
                            old(self).deploys@,
                            old(self).statuses@,
                            device_pk,
                        ),
                    )
                    &&& final(self).devices@ == devices_seen(old(self).devices@, device_pk, now)
                },
                Err(e) => e == DbError::NotFound && final(self).statuses == old(self).statuses && final(self).devices == old(self).devices,
            },
            final(self).assignments == old(self).assignments,
            final(self).memberships == old(self).memberships,
            final(self).deploys == old(self).deploys,
            final(self).actions == old(self).actions,
    {
        proof {
            lemma_checkin_plan_exact(self.assignments@, self.memberships@, self.deploys@, self.statuses@, device_pk);
        }
        if !self.device_exists(device_pk) {
            return Err(DbError::NotFound);
        }
        let res = self.resolve_applicable_policies(device_pk);
        let ghost deploys = self.deploys@;
        let ghost statuses = self.statuses@;
        let mut policies: Vec<PolicyPlan> = Vec::new();
        let mut batch: Vec<CreatePolicyDeployStatus> = Vec::new();
        let mut k: usize = 0;
        while k < res.len()
            invariant
                k <= res@.len(),
                deploys == self.deploys@,
                statuses == self.statuses@,
                policies@ == plan_of(deploys, statuses, res@.take(k as int), device_pk),
                batch@ == batch_of(policies@, statuses, device_pk),
            decreases res@.len() - k,
        {
            proof {
                assert(res@.take(k as int + 1).drop_last() =~= res@.take(k as int));
                assert(res@.take(k as int + 1).last() == res@[k as int]);
            }
            let (p, scope) = res[k];
            match self.latest_deploy(p) {
                Some(x) => {
                    let current = match self.status_for(device_pk, x.pk) {
                        Some(row) => row.variant,
                        None => {
                            batch.push(CreatePolicyDeployStatus { device_pk: device_pk, deploy_pk: x.pk });
                            DeployVariant::Pending
                        },
                    };
                    let last = match self.last_reported_deploy(p, device_pk) {
                        Some(y) => self.status_for(device_pk, y.pk),
                        None => None,
                    };
                    let (variant, conflicts) = match last {
                        Some(row) => if row.variant == DeployVariant::Conflict {
                            (DeployVariant::Conflict, copy_opt(&row.conflicts))
                        } else {
                            (current, None)
                        },
                        None => (current, None),
                    };
                    let ghost before = policies@;
                    policies.push(
                        PolicyPlan {
                            policy_pk: p,
                            scope: scope,
                            deploy_pk: x.pk,
                            data: x.data,
                            variant: variant,
                            conflicts: conflicts,
                        },
                    );
                    proof {
                        assert(policies@.drop_last() =~= before);
                    }
                },
                None => {},
            }
            k = k + 1;
        }
        proof {
            assert(res@.take(k as int) =~= res@);
        }
        self.create_policy_deploy_status(batch);
        let _ = self.update_device_lastseen(device_pk, now);
        let actions = self.queued_device_actions(device_pk);
        Ok(CheckinPlan { policies, actions })
    }
}

} // verus!
