//! Which policies apply to a device, and through which scope.
use vstd::prelude::*;
use crate::model::{Assignable, Assignment, Db, Membership, Scope, stronger};

verus! {

pub open spec fn is_member(mem: Seq<Membership>, g: u64, d: u64) -> bool {
    exists|j: int| 0 <= j < mem.len() && mem[j] == (Membership { group_pk: g, device_pk: d })
}

/// The scope through which edge `a` reaches device `d`, if it does.
pub open spec fn edge_scope(a: Assignment, mem: Seq<Membership>, d: u64) -> Option<Scope> {
    match a.target {
        Assignable::Device(x) => if x == d {
            Some(Scope::Direct)
        } else {
            None
        },
        Assignable::Group(g) => if is_member(mem, g, d) {
            Some(Scope::Group)
        } else {
            None
        },
    }
}

pub open spec fn directly_assigned(asg: Seq<Assignment>, p: u64, d: u64) -> bool {
    exists|i: int|
        0 <= i < asg.len() && asg[i] == (Assignment { policy_pk: p, target: Assignable::Device(d) })
}

pub open spec fn group_assigned(asg: Seq<Assignment>, mem: Seq<Membership>, p: u64, d: u64) -> bool {
    exists|i: int, g: u64|
        0 <= i < asg.len() && asg[i] == (Assignment { policy_pk: p, target: Assignable::Group(g) })
            && is_member(mem, g, d)
}

/// A policy applies to a device iff an edge connects it directly or via a
/// group that contains the device.
pub open spec fn applicable(asg: Seq<Assignment>, mem: Seq<Membership>, p: u64, d: u64) -> bool {
    directly_assigned(asg, p, d) || group_assigned(asg, mem, p, d)
}

/// Direct whenever a direct edge exists, Group otherwise.
pub open spec fn resolved_scope(asg: Seq<Assignment>, p: u64, d: u64) -> Scope {
    if directly_assigned(asg, p, d) {
        Scope::Direct
    } else {
        Scope::Group
    }
}

pub open spec fn has_key(r: Seq<(u64, Scope)>, p: u64) -> bool {
    exists|k: int| 0 <= k < r.len() && r[k].0 == p
}

pub open spec fn keys_distinct(r: Seq<(u64, Scope)>) -> bool {
    forall|k1: int, k2: int|
        0 <= k1 < r.len() && 0 <= k2 < r.len() && k1 != k2 ==> #[trigger] r[k1].0 != #[trigger] r[k2].0
}

/// Adds policy `p` reached through scope `s`, keeping one entry per policy
/// with the stronger scope.
pub open spec fn merge(r: Seq<(u64, Scope)>, p: u64, s: Scope) -> Seq<(u64, Scope)> {
    if has_key(r, p) {
        let k = choose|k: int| 0 <= k < r.len() && r[k].0 == p;
        r.update(k, (p, stronger(r[k].1, s)))
    } else {
        r.push((p, s))
    }
}

/// The resolved policies of device `d`, one entry per policy, in the order
/// in which each policy's first edge to the device appears.
pub open spec fn resolution(asg: Seq<Assignment>, mem: Seq<Membership>, d: u64) -> Seq<(u64, Scope)>
    decreases asg.len(),
{
    if asg.len() == 0 {
        seq![]
    } else {
        let r = resolution(asg.drop_last(), mem, d);
        match edge_scope(asg.last(), mem, d) {
            Some(s) => merge(r, asg.last().policy_pk, s),
            None => r,
        }
    }
}

/// What a resolution is: each applicable policy exactly once, with Direct
/// whenever a direct edge exists.
pub open spec fn resolution_exact(asg: Seq<Assignment>, mem: Seq<Membership>, d: u64, r: Seq<(u64, Scope)>) -> bool {
    &&& keys_distinct(r)
    &&& forall|k: int| 0 <= k < r.len() ==> applicable(asg, mem, #[trigger] r[k].0, d)
    &&& forall|k: int| 0 <= k < r.len() ==> (#[trigger] r[k]).1 == resolved_scope(asg, r[k].0, d)
    &&& forall|p: u64| applicable(asg, mem, p, d) ==> #[trigger] has_key(r, p)
}

pub proof fn lemma_resolution_exact(asg: Seq<Assignment>, mem: Seq<Membership>, d: u64)
    ensures
        resolution_exact(asg, mem, d, resolution(asg, mem, d)),
    decreases asg.len(),
{
    if asg.len() > 0 {
        let pre = asg.drop_last();
        let a = asg.last();
        lemma_resolution_exact(pre, mem, d);
        let r0 = resolution(pre, mem, d);
        let r = resolution(asg, mem, d);
        assert(forall|i: int| 0 <= i < pre.len() ==> pre[i] == asg[i]);
        assert(asg[asg.len() - 1] == a);
        assert forall|p: u64| directly_assigned(pre, p, d) implies directly_assigned(asg, p, d) by {
            let i = choose|i: int|
                0 <= i < pre.len() && pre[i] == (Assignment { policy_pk: p, target: Assignable::Device(d) });
            assert(asg[i] == pre[i]);
        }
        assert forall|p: u64| group_assigned(pre, mem, p, d) implies group_assigned(asg, mem, p, d) by {
            let (i, g) = choose|i: int, g: u64|
                0 <= i < pre.len() && pre[i] == (Assignment { policy_pk: p, target: Assignable::Group(g) })
                    && is_member(mem, g, d);
            assert(asg[i] == pre[i]);
        }
        assert forall|p: u64|
            directly_assigned(asg, p, d) && !directly_assigned(pre, p, d) implies a == (Assignment {
                policy_pk: p,
                target: Assignable::Device(d),
            }) by {
            let i = choose|i: int|
                0 <= i < asg.len() && asg[i] == (Assignment { policy_pk: p, target: Assignable::Device(d) });
            if i < pre.len() {
                assert(pre[i] == asg[i]);
            }
        }
        assert forall|p: u64|
            group_assigned(asg, mem, p, d) && !group_assigned(pre, mem, p, d) implies a.policy_pk == p
                && edge_scope(a, mem, d) == Some(Scope::Group) by {
            let (i, g) = choose|i: int, g: u64|
                0 <= i < asg.len() && asg[i] == (Assignment { policy_pk: p, target: Assignable::Group(g) })
                    && is_member(mem, g, d);
            if i < pre.len() {
                assert(pre[i] == asg[i]);
            }
        }
        match edge_scope(a, mem, d) {
            Some(s) => {
                let p = a.policy_pk;
                if s == Scope::Direct {
                    assert(asg[asg.len() - 1] == (Assignment { policy_pk: p, target: Assignable::Device(d) }));
                    assert(directly_assigned(asg, p, d));
                } else {
                    let g = choose|g: u64| a.target == Assignable::Group(g);
                    assert(asg[asg.len() - 1] == (Assignment { policy_pk: p, target: Assignable::Group(g) }));
                    assert(group_assigned(asg, mem, p, d));
                }
                if has_key(r0, p) {
                    let k = choose|k: int| 0 <= k < r0.len() && r0[k].0 == p;
                    assert(r == r0.update(k, (p, stronger(r0[k].1, s))));
                    assert forall|q: u64| applicable(asg, mem, q, d) implies #[trigger] has_key(r, q) by {
                        if q != p {
                            assert(applicable(pre, mem, q, d));
                            assert(has_key(r0, q));
                            let j = choose|j: int| 0 <= j < r0.len() && r0[j].0 == q;
                            assert(r[j].0 == q);
                        } else {
                            assert(r[k].0 == q);
                        }
                    }
                } else {
                    assert(r == r0.push((p, s)));
                    assert forall|q: u64| applicable(asg, mem, q, d) implies #[trigger] has_key(r, q) by {
                        if q != p {
                            assert(applicable(pre, mem, q, d));
                            assert(has_key(r0, q));
                            let j = choose|j: int| 0 <= j < r0.len() && r0[j].0 == q;
                            assert(r[j].0 == q);
                        } else {
                            assert(r[r0.len() as int].0 == q);
                        }
                    }
                }
            },
            None => {
                assert forall|q: u64| applicable(asg, mem, q, d) implies #[trigger] has_key(r, q) by {
                    assert(applicable(pre, mem, q, d));
                }
            },
        }
    }
}

impl Db {
    /// Whether device `d` is a member of group `g`.
    pub fn is_group_member(&self, g: u64, d: u64) -> (r: bool)
        ensures
            r == is_member(self.memberships@, g, d),
    {
        let mut j: usize = 0;
        while j < self.memberships.len()
            invariant
                j <= self.memberships@.len(),
                forall|k: int| 0 <= k < j ==> self.memberships@[k] != (Membership { group_pk: g, device_pk: d }),
            decreases self.memberships@.len() - j,
        {
            let m = self.memberships[j];
            if m.group_pk == g && m.device_pk == d {
                assert(self.memberships@[j as int] == (Membership { group_pk: g, device_pk: d }));
                return true;
            }
            j = j + 1;
        }
        false
    }

    /// The policies that apply to device `d`, each once, with its scope:
    /// Direct when the policy is assigned to the device itself (also when a
    /// group of the device has it too), Group when it reaches the device only
    /// through groups.
    pub fn resolve_applicable_policies(&self, d: u64) -> (r: Vec<(u64, Scope)>)
        ensures
            r@ == resolution(self.assignments@, self.memberships@, d),
            resolution_exact(self.assignments@, self.memberships@, d, r@),
    {
        let mut r: Vec<(u64, Scope)> = Vec::new();
        let mut i: usize = 0;
        let ghost asg = self.assignments@;
        let ghost mem = self.memberships@;
        while i < self.assignments.len()
            invariant
                i <= asg.len(),
                asg == self.assignments@,
                mem == self.memberships@,
                r@ == resolution(asg.take(i as int), mem, d),
            decreases asg.len() - i,
        {
            proof {
                lemma_resolution_exact(asg.take(i as int), mem, d);
                assert(asg.take(i as int + 1).drop_last() =~= asg.take(i as int));
                assert(asg.take(i as int + 1).last() == asg[i as int]);
            }
            let a = self.assignments[i];
            let scope: Option<Scope> = match a.target {
                Assignable::Device(x) => if x == d {
                    Some(Scope::Direct)
                } else {
                    None
                },
                Assignable::Group(g) => if self.is_group_member(g, d) {
                    Some(Scope::Group)
                } else {
                    None
                },
            };
            assert(scope == edge_scope(a, mem, d));
            if let Some(s) = scope {
                let mut k: usize = 0;
                while k < r.len() && r[k].0 != a.policy_pk
                    invariant
                        k <= r@.len(),
                        forall|j: int| 0 <= j < k ==> r@[j].0 != a.policy_pk,
                    decreases r@.len() - k,
                {
                    k = k + 1;
                }
                if k < r.len() {
                    let cur = r[k].1;
                    proof {
                        let c = choose|c: int| 0 <= c < r@.len() && r@[c].0 == a.policy_pk;
                        assert(c == k);
                    }
                    r.set(k, (a.policy_pk, cur.stronger(s)));
                } else {
                    r.push((a.policy_pk, s));
                }
            }
            i = i + 1;
        }
        proof {
            assert(asg.take(i as int) =~= asg);
            lemma_resolution_exact(asg, mem, d);
        }
        r
    }
}

/// A policy assigned to a device both directly and through a group of the
/// device is resolved exactly once, with scope Direct.
pub proof fn lemma_direct_outranks_group(asg: Seq<Assignment>, mem: Seq<Membership>, p: u64, d: u64)
    requires
        directly_assigned(asg, p, d),
        group_assigned(asg, mem, p, d),
    ensures
        ({
            let r = resolution(asg, mem, d);
            exists|k: int|
                0 <= k < r.len() && r[k] == (p, Scope::Direct) && forall|k2: int|
                    0 <= k2 < r.len() && #[trigger] r[k2].0 == p ==> k2 == k
        }),
{
    lemma_resolution_exact(asg, mem, d);
    let r = resolution(asg, mem, d);
    assert(has_key(r, p));
    let k = choose|k: int| 0 <= k < r.len() && r[k].0 == p;
    assert(r[k] == (p, Scope::Direct));
}

} // verus!
