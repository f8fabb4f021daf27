//! Simulation events and the queue that hands them out in time order.

use vstd::prelude::*;

verus! {

/// A simulation event.
#[derive(Debug, Clone, Copy, PartialEq, Eq, Structural)]
pub enum Event {
    /// Arrival of a job, at a time.
    JobStart(u64),
    /// End of a job, at a time, with the job's ID.
    JobEnd(u64, u64),
    /// End of the experiment, at a time.
    ExperimentEnd(u64),
    /// Defragmentation, at a time.
    Defragmentation(u64),
}

impl Event {
    pub open spec fn at(self) -> u64 {
        match self {
            Event::JobStart(t) => t,
            Event::JobEnd(t, _) => t,
            Event::ExperimentEnd(t) => t,
            Event::Defragmentation(t) => t,
        }
    }

    /// The event's time.
    pub fn time(&self) -> (r: u64)
        ensures
            r == self.at(),
    {
        match self {
            Event::JobStart(t) | Event::JobEnd(t, _) | Event::ExperimentEnd(t)
            | Event::Defragmentation(t) => *t,
        }
    }
}

/// Index of the first event of least time.
pub open spec fn earliest(q: Seq<Event>) -> int
    decreases q.len(),
{
    if q.len() <= 1 {
        0
    } else if q.last().at() < q[earliest(q.drop_last())].at() {
        q.len() - 1
    } else {
        earliest(q.drop_last())
    }
}

pub(crate) proof fn lemma_earliest(q: Seq<Event>)
    requires
        q.len() > 0,
    ensures
        0 <= earliest(q) < q.len(),
        forall|j: int| 0 <= j < q.len() ==> q[earliest(q)].at() <= (#[trigger] q[j]).at(),
        forall|j: int| 0 <= j < earliest(q) ==> q[earliest(q)].at() < (#[trigger] q[j]).at(),
    decreases q.len(),
{
    if q.len() > 1 {
        let p = q.drop_last();
        lemma_earliest(p);
        let e = earliest(p);
        assert(p[e] == q[e]);
        assert(q.last() == q[q.len() - 1]);
        if q.last().at() < p[e].at() {
            assert(earliest(q) == q.len() - 1);
            assert forall|j: int| 0 <= j < q.len() - 1 implies q[q.len() - 1].at() < (
            #[trigger] q[j]).at() by {
                assert(p[j] == q[j]);
            }
        } else {
            assert(earliest(q) == e);
            assert forall|j: int| 0 <= j < q.len() - 1 implies q[e].at() <= (
            #[trigger] q[j]).at() by {
                assert(p[j] == q[j]);
            }
            assert forall|j: int| 0 <= j < e implies q[e].at() < (#[trigger] q[j]).at() by {
                assert(p[j] == q[j]);
            }
        }
    }
}

/// Removes and returns the first event of least time.
pub(crate) fn pop_earliest(q: &mut Vec<Event>) -> (r: Event)
    requires
        old(q).len() > 0,
    ensures
        r == old(q)@[earliest(old(q)@)],
        final(q)@ == old(q)@.remove(earliest(old(q)@)),
        forall|j: int| 0 <= j < old(q).len() ==> r.at() <= (#[trigger] old(q)@[j]).at(),
{
    proof {
        lemma_earliest(old(q)@);
    }
    let mut best: usize = 0;
    let mut j: usize = 1;
    while j < q.len()
        invariant
            1 <= j <= q.len(),
            q@ == old(q)@,
            best == earliest(q@.take(j as int)),
        decreases q.len() - j,
    {
        assert(q@.take(j + 1).drop_last() =~= q@.take(j as int));
        proof {
            lemma_earliest(q@.take(j as int));
        }
        assert(q@.take(j + 1)[best as int] == q@[best as int]);
        if q[j].time() < q[best].time() {
            best = j;
        }
        j = j + 1;
    }
    assert(q@.take(j as int) =~= q@);
    q.remove(best)
}

} // verus!
