//! The policy store: append-only, versioned deploys of each policy.
use vstd::prelude::*;
use crate::model::{Db, DbError, Deploy, DeployStatus, DeployVariant, deploy_pks_unique};
use crate::ledger::find_status;

verus! {

/// The deploy of policy `p` with the greatest identifier, if any.
pub open spec fn latest(s: Seq<Deploy>, p: u64) -> Option<Deploy>
    decreases s.len(),
{
    if s.len() == 0 {
        None
    } else {
        let r = latest(s.drop_last(), p);
        let x = s.last();
        if x.policy_pk == p && match r {
            Some(y) => y.pk < x.pk,
            None => true,
        } {
            Some(x)
        } else {
            r
        }
    }
}

/// The deploy of policy `p` with the greatest identifier among those that
/// device `d` has a ledger row for, if any.
pub open spec fn latest_acked(s: Seq<Deploy>, statuses: Seq<DeployStatus>, p: u64, d: u64) -> Option<Deploy>
    decreases s.len(),
{
    if s.len() == 0 {
        None
    } else {
        let r = latest_acked(s.drop_last(), statuses, p, d);
        let x = s.last();
        if x.policy_pk == p && find_status(statuses, d, x.pk) is Some && match r {
            Some(y) => y.pk < x.pk,
            None => true,
        } {
            Some(x)
        } else {
            r
        }
    }
}

/// The row of device `d` for deploy `dep` once the device has reported on
/// it (Applied or Conflict); nothing while the row is Pending or absent.
pub open spec fn reported_row(statuses: Seq<DeployStatus>, d: u64, dep: u64) -> Option<DeployStatus> {
    match find_status(statuses, d, dep) {
        Some(x) => if x.variant != DeployVariant::Pending {
            Some(x)
        } else {
            None
        },
        None => None,
    }
}

/// The deploy of policy `p` with the greatest identifier among those that
/// device `d` has reported on, if any.
pub open spec fn latest_reported(s: Seq<Deploy>, statuses: Seq<DeployStatus>, p: u64, d: u64) -> Option<Deploy>
    decreases s.len(),
{
    if s.len() == 0 {
        None
    } else {
        let r = latest_reported(s.drop_last(), statuses, p, d);
        let x = s.last();
        if x.policy_pk == p && reported_row(statuses, d, x.pk) is Some && match r {
            Some(y) => y.pk < x.pk,
            None => true,
        } {
            Some(x)
        } else {
            r
        }
    }
}

/// `r` is a deploy of `p` in `s` that device `d` has a row for, with the
/// greatest identifier among such deploys, or nothing when there is none.
pub open spec fn latest_acked_exact(s: Seq<Deploy>, statuses: Seq<DeployStatus>, p: u64, d: u64, r: Option<Deploy>) -> bool {
    match r {
        None => forall|i: int|
            0 <= i < s.len() && #[trigger] s[i].policy_pk == p ==> find_status(statuses, d, s[i].pk) is None,
        Some(x) => {
            &&& s.contains(x)
            &&& x.policy_pk == p
            &&& find_status(statuses, d, x.pk) is Some
            &&& forall|i: int|
                0 <= i < s.len() && #[trigger] s[i].policy_pk == p && find_status(statuses, d, s[i].pk) is Some
                    ==> s[i].pk <= x.pk
        },
    }
}

/// `r` is a deploy of `p` in `s` that device `d` has reported on, with the
/// greatest identifier among such deploys, or nothing when there is none.
pub open spec fn latest_reported_exact(s: Seq<Deploy>, statuses: Seq<DeployStatus>, p: u64, d: u64, r: Option<Deploy>) -> bool {
    match r {
        None => forall|i: int|
            0 <= i < s.len() && #[trigger] s[i].policy_pk == p ==> reported_row(statuses, d, s[i].pk) is None,
        Some(x) => {
            &&& s.contains(x)
            &&& x.policy_pk == p
            &&& reported_row(statuses, d, x.pk) is Some
            &&& forall|i: int|
                0 <= i < s.len() && #[trigger] s[i].policy_pk == p && reported_row(statuses, d, s[i].pk) is Some
                    ==> s[i].pk <= x.pk
        },
    }
}

pub proof fn lemma_latest_acked_exact(s: Seq<Deploy>, statuses: Seq<DeployStatus>, p: u64, d: u64)
    ensures
        latest_acked_exact(s, statuses, p, d, latest_acked(s, statuses, p, d)),
    decreases s.len(),
{
    if s.len() > 0 {
        let pre = s.drop_last();
        lemma_latest_acked_exact(pre, statuses, p, d);
        assert(forall|i: int| 0 <= i < pre.len() ==> pre[i] == s[i]);
        assert(s[s.len() - 1] == s.last());
        if let Some(y) = latest_acked(pre, statuses, p, d) {
            let j = choose|j: int| 0 <= j < pre.len() && pre[j] == y;
            assert(s[j] == y);
        }
        assert forall|i: int|
            0 <= i < s.len() && #[trigger] s[i].policy_pk == p && find_status(statuses, d, s[i].pk) is Some implies
                latest_acked(s, statuses, p, d) is Some && s[i].pk <= latest_acked(s, statuses, p, d)->Some_0.pk by {
            if i < pre.len() {
                assert(pre[i] == s[i]);
            }
        }
    }
}

pub proof fn lemma_latest_reported_exact(s: Seq<Deploy>, statuses: Seq<DeployStatus>, p: u64, d: u64)
    ensures
        latest_reported_exact(s, statuses, p, d, latest_reported(s, statuses, p, d)),
    decreases s.len(),
{
    if s.len() > 0 {
        let pre = s.drop_last();
        lemma_latest_reported_exact(pre, statuses, p, d);
        assert(forall|i: int| 0 <= i < pre.len() ==> pre[i] == s[i]);
        assert(s[s.len() - 1] == s.last());
        if let Some(y) = latest_reported(pre, statuses, p, d) {
            let j = choose|j: int| 0 <= j < pre.len() && pre[j] == y;
            assert(s[j] == y);
        }
        assert forall|i: int|
            0 <= i < s.len() && #[trigger] s[i].policy_pk == p && reported_row(statuses, d, s[i].pk) is Some implies
                latest_reported(s, statuses, p, d) is Some && s[i].pk <= latest_reported(s, statuses, p, d)->Some_0.pk by {
            if i < pre.len() {
                assert(pre[i] == s[i]);
            }
        }
    }
}

/// Two ledgers that agree on every reported row give the same most
/// recently reported deploy.
pub proof fn lemma_latest_reported_same(s: Seq<Deploy>, st1: Seq<DeployStatus>, st2: Seq<DeployStatus>, p: u64, d: u64)
    requires
        forall|dep: u64| #[trigger] reported_row(st1, d, dep) == reported_row(st2, d, dep),
    ensures
        latest_reported(s, st1, p, d) == latest_reported(s, st2, p, d),
    decreases s.len(),
{
    if s.len() > 0 {
        lemma_latest_reported_same(s.drop_last(), st1, st2, p, d);
        assert(reported_row(st1, d, s.last().pk) == reported_row(st2, d, s.last().pk));
    }
}

pub open spec fn has_deploy_of(s: Seq<Deploy>, p: u64) -> bool {
    exists|i: int| 0 <= i < s.len() && s[i].policy_pk == p
}

/// `r` is a deploy of `p` in `s` whose identifier is the maximum among
/// `p`'s deploys, or nothing when `p` has no deploy.
pub open spec fn latest_exact(s: Seq<Deploy>, p: u64, r: Option<Deploy>) -> bool {
    match r {
        None => !has_deploy_of(s, p),
        Some(x) => {
            &&& s.contains(x)
            &&& x.policy_pk == p
            &&& forall|i: int| 0 <= i < s.len() && #[trigger] s[i].policy_pk == p ==> s[i].pk <= x.pk
        },
    }
}

pub proof fn lemma_latest_exact(s: Seq<Deploy>, p: u64)
    ensures
        latest_exact(s, p, latest(s, p)),
    decreases s.len(),
{
    if s.len() > 0 {
        let pre = s.drop_last();
        lemma_latest_exact(pre, p);
        assert(forall|i: int| 0 <= i < pre.len() ==> pre[i] == s[i]);
        assert(s[s.len() - 1] == s.last());
        match latest(pre, p) {
            Some(y) => {
                let j = choose|j: int| 0 <= j < pre.len() && pre[j] == y;
                assert(s[j] == y);
            },
            None => {
                assert forall|i: int| 0 <= i < pre.len() implies pre[i].policy_pk != p by {
                    if pre[i].policy_pk == p {
                        assert(has_deploy_of(pre, p));
                    }
                }
            },
        }
        match latest(s, p) {
            Some(x) => {},
            None => {
                assert forall|i: int| 0 <= i < s.len() implies s[i].policy_pk != p by {
                    if i < pre.len() {
                        assert(pre[i] == s[i]);
                    }
                }
            },
        }
    }
}

/// Which deploy is latest does not depend on the order in which the deploys
/// were stored: two tables holding the same deploys, with unique
/// identifiers, give the same latest deploy of every policy.
pub proof fn lemma_latest_ignores_order(s1: Seq<Deploy>, s2: Seq<Deploy>, p: u64)
    requires
        s1.to_set() == s2.to_set(),
        deploy_pks_unique(s1),
        deploy_pks_unique(s2),
    ensures
        latest(s1, p) == latest(s2, p),
{
    lemma_latest_exact(s1, p);
    lemma_latest_exact(s2, p);
    assert forall|x: Deploy| s1.contains(x) <==> s2.contains(x) by {
        assert(s1.to_set().contains(x) == s1.contains(x));
        assert(s2.to_set().contains(x) == s2.contains(x));
    }
    match (latest(s1, p), latest(s2, p)) {
        (Some(x1), Some(x2)) => {
            let i1 = choose|i: int| 0 <= i < s2.len() && s2[i] == x1;
            let i2 = choose|i: int| 0 <= i < s2.len() && s2[i] == x2;
            let j2 = choose|i: int| 0 <= i < s1.len() && s1[i] == x2;
            assert(s1[j2].policy_pk == p);
            assert(s2[i1].policy_pk == p);
            assert(x1.pk == x2.pk);
            if i1 != i2 {
                assert(s2[i1].pk != s2[i2].pk);
            }
        },
        (Some(x1), None) => {
            let i1 = choose|i: int| 0 <= i < s2.len() && s2[i] == x1;
            assert(s2[i1].policy_pk == p);
        },
        (None, Some(x2)) => {
            let j2 = choose|i: int| 0 <= i < s1.len() && s1[i] == x2;
            assert(s1[j2].policy_pk == p);
        },
        (None, None) => {},
    }
}

impl Db {
    /// The deploy of policy `policy_pk` with the greatest identifier, or
    /// `None` when the policy has no deploy.
    pub fn latest_deploy(&self, policy_pk: u64) -> (r: Option<Deploy>)
        ensures
            r == latest(self.deploys@, policy_pk),
            latest_exact(self.deploys@, policy_pk, r),
    {
        let ghost s = self.deploys@;
        let mut best: Option<Deploy> = None;
        let mut i: usize = 0;
        while i < self.deploys.len()
            invariant
                i <= s.len(),
                s == self.deploys@,
                best == latest(s.take(i as int), policy_pk),
            decreases s.len() - i,
        {
            proof {
                assert(s.take(i as int + 1).drop_last() =~= s.take(i as int));
                assert(s.take(i as int + 1).last() == s[i as int]);
            }
            let x = &self.deploys[i];
            if x.policy_pk == policy_pk {
                let newer = match &best {
                    Some(y) => y.pk < x.pk,
                    None => true,
                };
                if newer {
                    best = Some(x.copy());
                }
            }
            i = i + 1;
        }
        proof {
            assert(s.take(i as int) =~= s);
            lemma_latest_exact(s, policy_pk);
        }
        best
    }

    /// The deploy of policy `policy_pk` with the greatest identifier among
    /// those that device `d` has a ledger row for.
    pub fn last_acked_deploy(&self, policy_pk: u64, d: u64) -> (r: Option<Deploy>)
        ensures
            r == latest_acked(self.deploys@, self.statuses@, policy_pk, d),
            latest_acked_exact(self.deploys@, self.statuses@, policy_pk, d, r),
    {
        let ghost s = self.deploys@;
        let mut best: Option<Deploy> = None;
        let mut i: usize = 0;
        while i < self.deploys.len()
            invariant
                i <= s.len(),
                s == self.deploys@,
                best == latest_acked(s.take(i as int), self.statuses@, policy_pk, d),
            decreases s.len() - i,
        {
            proof {
                assert(s.take(i as int + 1).drop_last() =~= s.take(i as int));
                assert(s.take(i as int + 1).last() == s[i as int]);
            }
            let x = &self.deploys[i];
            if x.policy_pk == policy_pk && self.status_for(d, x.pk).is_some() {
                let newer = match &best {
                    Some(y) => y.pk < x.pk,
                    None => true,
                };
                if newer {
                    best = Some(x.copy());
                }
            }
            i = i + 1;
        }
        proof {
            assert(s.take(i as int) =~= s);
            lemma_latest_acked_exact(s, self.statuses@, policy_pk, d);
        }
        best
    }

    /// The deploy of policy `policy_pk` with the greatest identifier among
    /// those that device `d` has reported on (Applied or Conflict).
    pub fn last_reported_deploy(&self, policy_pk: u64, d: u64) -> (r: Option<Deploy>)
        ensures
            r == latest_reported(self.deploys@, self.statuses@, policy_pk, d),
            latest_reported_exact(self.deploys@, self.statuses@, policy_pk, d, r),
    {
        let ghost s = self.deploys@;
        let mut best: Option<Deploy> = None;
        let mut i: usize = 0;
        while i < self.deploys.len()
            invariant
                i <= s.len(),
                s == self.deploys@,
                best == latest_reported(s.take(i as int), self.statuses@, policy_pk, d),
            decreases s.len() - i,
        {
            proof {
                assert(s.take(i as int + 1).drop_last() =~= s.take(i as int));
                assert(s.take(i as int + 1).last() == s[i as int]);
            }
            let x = &self.deploys[i];
            if x.policy_pk == policy_pk {
                let reported = match self.status_for(d, x.pk) {
                    Some(row) => row.variant != DeployVariant::Pending,
                    None => false,
                };
                if reported {
                    let newer = match &best {
                        Some(y) => y.pk < x.pk,
                        None => true,
                    };
                    if newer {
                        best = Some(x.copy());
                    }
                }
            }
            i = i + 1;
        }
        proof {
            assert(s.take(i as int) =~= s);
            lemma_latest_reported_exact(s, self.statuses@, policy_pk, d);
        }
        best
    }

    /// The deploy whose identifier is `pk`.
    pub fn deploy(&self, pk: u64) -> (r: Result<Deploy, DbError>)
        ensures
            match r {
                Ok(x) => self.deploys@.contains(x) && x.pk == pk,
                Err(e) => e == DbError::NotFound && forall|i: int|
                    0 <= i < self.deploys@.len() ==> #[trigger] self.deploys@[i].pk != pk,
            },
    {
        let mut i: usize = 0;
        while i < self.deploys.len()
            invariant
                i <= self.deploys@.len(),
                forall|j: int| 0 <= j < i ==> #[trigger] self.deploys@[j].pk != pk,
            decreases self.deploys@.len() - i,
        {
            if self.deploys[i].pk == pk {
                let x = self.deploys[i].copy();
                assert(self.deploys@[i as int] == x);
                return Ok(x);
            }
            i = i + 1;
        }
        Err(DbError::NotFound)
    }

    /// Appends a deploy. Deploys are never changed or removed; an identifier
    /// that is already taken is refused with `WriteConflict`.
    pub fn insert_deploy(&mut self, d: Deploy) -> (r: Result<(), DbError>)
        requires
            old(self).wf(),
        ensures
            final(self).wf(),
            final(self).devices == old(self).devices,
            final(self).assignments == old(self).assignments,
            final(self).memberships == old(self).memberships,
            final(self).statuses == old(self).statuses,
            final(self).actions == old(self).actions,
            (exists|i: int| 0 <= i < old(self).deploys@.len() && #[trigger] old(self).deploys@[i].pk == d.pk)
                ==> r == Err::<(), DbError>(DbError::WriteConflict) && final(self).deploys == old(self).deploys,
            (forall|i: int| 0 <= i < old(self).deploys@.len() ==> #[trigger] old(self).deploys@[i].pk != d.pk)
                ==> r is Ok && final(self).deploys@ == old(self).deploys@.push(d),
    {
        match self.deploy(d.pk) {
            Ok(_) => Err(DbError::WriteConflict),
            Err(_) => {
                self.deploys.push(d);
                Ok(())
            },
        }
    }
}

} // verus!
