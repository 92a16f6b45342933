//! The device action queue: commands waiting for a device, oldest first.
use vstd::prelude::*;
use vstd::seq_lib::{to_multiset_build, to_multiset_insert};
use crate::model::{Db, QueuedDeviceActionsResult};

verus! {

/// The actions queued for device `d`, in table order.
pub open spec fn actions_of(s: Seq<QueuedDeviceActionsResult>, d: u64) -> Seq<QueuedDeviceActionsResult>
    decreases s.len(),
{
    if s.len() == 0 {
        s
    } else if s.last().device_pk == d {
        actions_of(s.drop_last(), d).push(s.last())
    } else {
        actions_of(s.drop_last(), d)
    }
}

/// Where `x` goes in `q`: after every element created no later than `x`.
pub open spec fn ins_pos(q: Seq<QueuedDeviceActionsResult>, x: QueuedDeviceActionsResult) -> int
    decreases q.len(),
{
    if q.len() == 0 {
        0
    } else if q.last().created_at > x.created_at {
        ins_pos(q.drop_last(), x)
    } else {
        q.len() as int
    }
}

/// The queue of device `d`: its actions by creation time, ascending; actions
/// created at the same time keep their table order.
pub open spec fn queue_of(s: Seq<QueuedDeviceActionsResult>, d: u64) -> Seq<QueuedDeviceActionsResult>
    decreases s.len(),
{
    if s.len() == 0 {
        s
    } else if s.last().device_pk == d {
        let q = queue_of(s.drop_last(), d);
        q.insert(ins_pos(q, s.last()), s.last())
    } else {
        queue_of(s.drop_last(), d)
    }
}

pub open spec fn sorted_by_creation(q: Seq<QueuedDeviceActionsResult>) -> bool {
    forall|i: int, j: int| 0 <= i < j < q.len() ==> #[trigger] q[i].created_at <= #[trigger] q[j].created_at
}

pub proof fn lemma_ins_pos(q: Seq<QueuedDeviceActionsResult>, x: QueuedDeviceActionsResult)
    ensures
        0 <= ins_pos(q, x) <= q.len(),
        forall|i: int| ins_pos(q, x) <= i < q.len() ==> #[trigger] q[i].created_at > x.created_at,
        ins_pos(q, x) > 0 && sorted_by_creation(q) ==> q[ins_pos(q, x) - 1].created_at <= x.created_at,
    decreases q.len(),
{
    if q.len() > 0 && q.last().created_at > x.created_at {
        lemma_ins_pos(q.drop_last(), x);
        assert forall|i: int| ins_pos(q, x) <= i < q.len() implies #[trigger] q[i].created_at > x.created_at by {
            if i < q.len() - 1 {
                assert(q.drop_last()[i] == q[i]);
            }
        }
        if ins_pos(q, x) > 0 {
            assert(q.drop_last()[ins_pos(q, x) - 1] == q[ins_pos(q, x) - 1]);
        }
    }
}

/// The queue holds exactly the device's actions, sorted by creation time.
pub proof fn lemma_queue_of(s: Seq<QueuedDeviceActionsResult>, d: u64)
    ensures
        sorted_by_creation(queue_of(s, d)),
        queue_of(s, d).to_multiset() == actions_of(s, d).to_multiset(),
    decreases s.len(),
{
    broadcast use to_multiset_build, to_multiset_insert;

    if s.len() > 0 {
        lemma_queue_of(s.drop_last(), d);
        if s.last().device_pk == d {
            let q = queue_of(s.drop_last(), d);
            let x = s.last();
            let p = ins_pos(q, x);
            lemma_ins_pos(q, x);
            let r = q.insert(p, x);
            assert forall|i: int, j: int| 0 <= i < j < r.len() implies #[trigger] r[i].created_at <= #[trigger] r[j].created_at by {
                if j < p {
                } else if j == p {
                    if i < p {
                        assert(q[i].created_at <= q[p - 1].created_at);
                    }
                } else if i < p {
                    assert(r[j] == q[j - 1]);
                } else if i == p {
                    assert(r[j] == q[j - 1]);
                } else {
                    assert(r[i] == q[i - 1] && r[j] == q[j - 1]);
                }
            }
        }
    }
}

impl Db {
    /// The actions queued for device `d`, oldest first; actions created at
    /// the same time come in the order they were queued.
    pub fn queued_device_actions(&self, d: u64) -> (r: Vec<QueuedDeviceActionsResult>)
        ensures
            r@ == queue_of(self.actions@, d),
            sorted_by_creation(r@),
            r@.to_multiset() == actions_of(self.actions@, d).to_multiset(),
    {
        let ghost s = self.actions@;
        let mut q: Vec<QueuedDeviceActionsResult> = Vec::new();
        let mut i: usize = 0;
        while i < self.actions.len()
            invariant
                i <= s.len(),
                s == self.actions@,
                q@ == queue_of(s.take(i as int), d),
            decreases s.len() - i,
        {
            proof {
                assert(s.take(i as int + 1).drop_last() =~= s.take(i as int));
                assert(s.take(i as int + 1).last() == s[i as int]);
            }
            if self.actions[i].device_pk == d {
                let x = self.actions[i].copy();
                let mut j: usize = q.len();
                proof {
                    assert(q@.take(q@.len() as int) =~= q@);
                }
                while j > 0 && q[j - 1].created_at > x.created_at
                    invariant
                        j <= q@.len(),
                        ins_pos(q@, x) == ins_pos(q@.take(j as int), x),
                    decreases j,
                {
                    proof {
                        assert(q@.take(j as int).drop_last() =~= q@.take(j as int - 1));
                    }
                    j = j - 1;
                }
                q.insert(j, x);
            }
            i = i + 1;
        }
        proof {
            assert(s.take(i as int) =~= s);
            lemma_queue_of(s, d);
        }
        q
    }
}

} // verus!
