//! Compute nodes, the allocation index, and the placement of tasks on
//! nodes: the invariant that ties them, the policies, departure,
//! defragmentation and the traffic measures.

use vstd::prelude::*;
use rand::rngs::StdRng;
use rand::seq::SliceRandom;
use crate::job::{
    Job, seq_sum, lemma_sum_nonneg, sources_into, cpu_of, state_of, arg_of, lemma_sum_take,
    lemma_sum_prefix_le,
};
use crate::simulation::Policy;

verus! {

/// A compute node: the tasks it hosts, as (job ID, task ID), and the sum of
/// their CPU requests.
pub struct Node {
    pub jobs: Vec<(u64, u32)>,
    pub used: usize,
}

impl Node {
    /// Whether the node hosts a task.
    pub fn is_active(&self) -> (r: bool)
        ensures
            r == (self.jobs.len() > 0),
    {
        self.jobs.len() > 0
    }
}

/// An active job, with the node of each of its placed tasks: tasks
/// `0..placement.len()` are placed, task `t` on node `placement[t]`.
pub struct Active {
    pub id: u64,
    pub job: Job,
    pub placement: Vec<usize>,
}

/// CPU placed on node `n` by the tasks of one job.
pub open spec fn job_load(e: Active, n: int) -> int {
    seq_sum(load_terms(e, n))
}

/// The CPU request of each placed task of a job if it is on node `n`, else 0.
pub open spec fn load_terms(e: Active, n: int) -> Seq<int> {
    Seq::new(e.placement@.len(), |t: int| load_term(e, n, t))
}

pub open spec fn load_term(e: Active, n: int, t: int) -> int {
    if e.placement@[t] == n {
        e.job.tasks()[t].cpu_request as int
    } else {
        0
    }
}

/// CPU placed on node `n`.
pub open spec fn node_load(a: Seq<Active>, n: int) -> int {
    seq_sum(a.map_values(|e: Active| job_load(e, n)))
}

/// Task `x.1` of job `x.0` is placed on node `n`.
pub open spec fn hosts(a: Seq<Active>, n: int, x: (u64, u32)) -> bool {
    exists|i: int|
        0 <= i < a.len() && (#[trigger] a[i]).id == x.0 && x.1 < a[i].placement@.len()
            && a[i].placement@[x.1 as int] == n
}

/// Job IDs increase along the table, so each appears once.
pub open spec fn ids_increasing(a: Seq<Active>) -> bool {
    forall|i: int, j: int| 0 <= i < j < a.len() ==> (#[trigger] a[i]).id < (#[trigger] a[j]).id
}

/// The node table and the allocation index agree, and no node is over
/// capacity.
pub open spec fn placement_ok(a: Seq<Active>, nodes: Seq<Node>, cap: int) -> bool {
    &&& ids_increasing(a)
    &&& forall|i: int|
        0 <= i < a.len() ==> (#[trigger] a[i]).job.wf() && a[i].placement@.len()
            <= a[i].job.tasks().len()
    &&& forall|i: int, t: int|
        0 <= i < a.len() && 0 <= t < a[i].placement@.len() ==> (#[trigger] a[i].placement@[t])
            < nodes.len()
    &&& forall|n: int| 0 <= n < nodes.len() ==> (#[trigger] nodes[n]).jobs@.no_duplicates()
    &&& forall|n: int, x: (u64, u32)|
        #![trigger nodes[n].jobs@.contains(x)]
        #![trigger hosts(a, n, x)]
        0 <= n < nodes.len() ==> (nodes[n].jobs@.contains(x) <==> hosts(a, n, x))
    &&& forall|n: int|
        0 <= n < nodes.len() ==> (#[trigger] nodes[n]).used == node_load(a, n) && node_load(a, n)
            <= cap
}

pub proof fn lemma_sum_update(s: Seq<int>, i: int, v: int)
    requires
        0 <= i < s.len(),
    ensures
        seq_sum(s.update(i, v)) == seq_sum(s) - s[i] + v,
    decreases s.len(),
{
    if i == s.len() - 1 {
        assert(s.update(i, v).drop_last() =~= s.drop_last());
    } else {
        lemma_sum_update(s.drop_last(), i, v);
        assert(s.update(i, v).drop_last() =~= s.drop_last().update(i, v));
    }
}

pub proof fn lemma_sum_remove(s: Seq<int>, i: int)
    requires
        0 <= i < s.len(),
    ensures
        seq_sum(s.remove(i)) == seq_sum(s) - s[i],
    decreases s.len(),
{
    if i == s.len() - 1 {
        assert(s.remove(i) =~= s.drop_last());
    } else {
        lemma_sum_remove(s.drop_last(), i);
        assert(s.remove(i).drop_last() =~= s.drop_last().remove(i));
    }
}

pub proof fn lemma_sum_zero(s: Seq<int>)
    requires
        forall|k: int| 0 <= k < s.len() ==> s[k] == 0,
    ensures
        seq_sum(s) == 0,
    decreases s.len(),
{
    if s.len() > 0 {
        lemma_sum_zero(s.drop_last());
    }
}

/// A term of a sum of non-negative terms is at most the sum.
pub proof fn lemma_sum_term_le(s: Seq<int>, i: int)
    requires
        0 <= i < s.len(),
        forall|k: int| 0 <= k < s.len() ==> s[k] >= 0,
    ensures
        s[i] <= seq_sum(s),
{
    lemma_sum_remove(s, i);
    let r = s.remove(i);
    assert forall|k: int| 0 <= k < r.len() implies r[k] >= 0 by {
        if k < i {
            assert(r[k] == s[k]);
        } else {
            assert(r[k] == s[k + 1]);
        }
    }
    lemma_sum_nonneg(r);
}

pub(crate) proof fn lemma_job_load_nonneg(e: Active, n: int)
    ensures
        job_load(e, n) >= 0,
{
    lemma_sum_nonneg(load_terms(e, n));
}

/// A node that no task is placed on carries no load.
pub proof fn lemma_load_unused(a: Seq<Active>, n: int)
    requires
        forall|i: int, t: int|
            0 <= i < a.len() && 0 <= t < a[i].placement@.len() ==> a[i].placement@[t] != n,
    ensures
        node_load(a, n) == 0,
{
    let s = a.map_values(|e: Active| job_load(e, n));
    assert forall|k: int| 0 <= k < s.len() implies s[k] == 0 by {
        let terms = load_terms(a[k], n);
        assert forall|t: int| 0 <= t < terms.len() implies terms[t] == 0 by {
            assert(a[k].placement@[t] != n);
        }
        lemma_sum_zero(terms);
    }
    lemma_sum_zero(s);
}

/// Loads change only at the entry that was replaced.
pub(crate) proof fn lemma_load_update(a: Seq<Active>, i: int, e: Active, n: int)
    requires
        0 <= i < a.len(),
    ensures
        node_load(a.update(i, e), n) == node_load(a, n) - job_load(a[i], n) + job_load(e, n),
{
    let s = a.map_values(|x: Active| job_load(x, n));
    assert(a.update(i, e).map_values(|x: Active| job_load(x, n)) =~= s.update(i, job_load(e, n)));
    lemma_sum_update(s, i, job_load(e, n));
}

pub(crate) proof fn lemma_ids_unique(a: Seq<Active>, i: int, j: int)
    requires
        ids_increasing(a),
        0 <= i < a.len(),
        0 <= j < a.len(),
        a[i].id == a[j].id,
    ensures
        i == j,
{
    if i < j {
        assert(a[i].id < a[j].id);
    } else if j < i {
        assert(a[j].id < a[i].id);
    }
}

pub(crate) proof fn lemma_job_load_push(e: Active, e2: Active, n: int, m: int)
    requires
        e2.job == e.job,
        0 <= n <= usize::MAX,
        e2.placement@ == e.placement@.push(n as usize),
    ensures
        job_load(e2, m) == job_load(e, m) + (if m == n {
            e.job.tasks()[e.placement@.len() as int].cpu_request as int
        } else {
            0
        }),
{
    let t = e.placement@.len() as int;
    let terms2 = load_terms(e2, m);
    let terms = load_terms(e, m);
    assert(terms2.drop_last() =~= terms) by {
        assert forall|u: int| 0 <= u < t implies terms2[u] == terms[u] by {
            assert(e2.placement@[u] == e.placement@[u]);
        }
    }
    assert(terms2.last() == load_term(e2, m, t));
    assert(e2.placement@[t] == n as usize);
    assert(seq_sum(terms2) == seq_sum(terms2.drop_last()) + terms2.last());
}

/// Placing the next task of entry `i` on node `n`.
pub proof fn lemma_place(
    a: Seq<Active>,
    nodes: Seq<Node>,
    cap: int,
    i: int,
    n: int,
    a2: Seq<Active>,
    nodes2: Seq<Node>,
)
    requires
        placement_ok(a, nodes, cap),
        0 <= i < a.len(),
        a[i].placement@.len() < a[i].job.tasks().len(),
        0 <= n < nodes.len() <= usize::MAX,
        nodes[n].used + a[i].job.tasks()[a[i].placement@.len() as int].cpu_request <= cap,
        a2 == a.update(i, a2[i]),
        a2[i].id == a[i].id,
        a2[i].job == a[i].job,
        a2[i].placement@ == a[i].placement@.push(n as usize),
        nodes2 == nodes.update(n, nodes2[n]),
        nodes2[n].jobs@ == nodes[n].jobs@.push((a[i].id, a[i].placement@.len() as u32)),
        nodes2[n].used == nodes[n].used + a[i].job.tasks()[a[i].placement@.len() as int].cpu_request,
    ensures
        placement_ok(a2, nodes2, cap),
{
    let t = a[i].placement@.len() as int;
    let x0 = (a[i].id, t as u32);
    let cpu = a[i].job.tasks()[t].cpu_request as int;
    assert(a[i].job.wf());
    assert(ids_increasing(a2)) by {
        assert forall|p: int, q: int| 0 <= p < q < a2.len() implies (#[trigger] a2[p]).id < (
        #[trigger] a2[q]).id by {
            assert(a[p].id < a[q].id);
        }
    }
    assert forall|p: int, u: int|
        0 <= p < a2.len() && 0 <= u < a2[p].placement@.len() implies (#[trigger] a2[p].placement@[u])
        < nodes2.len() by {
        if p != i {
            assert(a2[p] == a[p]);
        } else if u < t {
            assert(a2[p].placement@[u] == a[i].placement@[u]);
        }
    }
    // the new pair was not hosted anywhere
    assert forall|m: int| 0 <= m < nodes.len() implies !hosts(a, m, x0) by {
        if hosts(a, m, x0) {
            let q = choose|q: int|
                0 <= q < a.len() && (#[trigger] a[q]).id == x0.0 && x0.1 < a[q].placement@.len()
                    && a[q].placement@[x0.1 as int] == m;
            lemma_ids_unique(a, i, q);
        }
    }
    assert forall|m: int, x: (u64, u32)| 0 <= m < nodes2.len() implies #[trigger] hosts(a2, m, x)
        == (hosts(a, m, x) || (m == n && x == x0)) by {
        if hosts(a2, m, x) {
            let q = choose|q: int|
                0 <= q < a2.len() && (#[trigger] a2[q]).id == x.0 && x.1 < a2[q].placement@.len()
                    && a2[q].placement@[x.1 as int] == m;
            if q != i {
                assert(a2[q] == a[q]);
                assert(hosts(a, m, x));
            } else if (x.1 as int) < t {
                assert(a2[q].placement@[x.1 as int] == a[q].placement@[x.1 as int]);
                assert(a[q].id == x.0 && x.1 < a[q].placement@.len() && a[q].placement@[x.1 as int]
                    == m);
                assert(hosts(a, m, x));
            } else {
                assert(x.1 as int == t);
                assert(a2[q].placement@[t] == n as usize);
                assert(m == n);
                assert(x == x0);
            }
        }
        if hosts(a, m, x) {
            let q = choose|q: int|
                0 <= q < a.len() && (#[trigger] a[q]).id == x.0 && x.1 < a[q].placement@.len()
                    && a[q].placement@[x.1 as int] == m;
            if q != i {
                assert(a2[q] == a[q]);
            } else {
                assert(a2[q].placement@[x.1 as int] == m);
            }
            assert(hosts(a2, m, x));
        }
        if m == n && x == x0 {
            assert(a2[i].placement@[t] == n as usize);
            assert(hosts(a2, m, x));
        }
    }
    assert forall|m: int| 0 <= m < nodes2.len() implies (#[trigger] nodes2[m]).jobs@.no_duplicates() by {
        if m == n {
            assert(!nodes[n].jobs@.contains(x0));
            assert(nodes[n].jobs@.no_duplicates());
            assert forall|p: int, q: int|
                0 <= p < nodes2[n].jobs@.len() && 0 <= q < nodes2[n].jobs@.len() && p != q
                    implies nodes2[n].jobs@[p]
                != nodes2[n].jobs@[q] by {
                if p == nodes[n].jobs@.len() as int {
                    assert(nodes[n].jobs@[q] == nodes2[n].jobs@[q]);
                } else if q == nodes[n].jobs@.len() as int {
                    assert(nodes[n].jobs@[p] == nodes2[n].jobs@[p]);
                }
            }
        }
    }
    assert forall|m: int, x: (u64, u32)| 0 <= m < nodes2.len() implies (
    #[trigger] nodes2[m].jobs@.contains(x) <==> hosts(a2, m, x)) by {
        assert(nodes[m].jobs@.contains(x) <==> hosts(a, m, x));
        if m == n {
            if nodes2[m].jobs@.contains(x) && x != x0 {
                let k = choose|k: int| 0 <= k < nodes2[m].jobs@.len() && nodes2[m].jobs@[k] == x;
                assert(nodes[m].jobs@[k] == x);
            }
            if nodes[m].jobs@.contains(x) {
                let k = choose|k: int| 0 <= k < nodes[m].jobs@.len() && nodes[m].jobs@[k] == x;
                assert(nodes2[m].jobs@[k] == x);
            }
            if x == x0 {
                assert(nodes2[m].jobs@[nodes[m].jobs@.len() as int] == x0);
            }
        } else {
            assert(nodes2[m] == nodes[m]);
        }
    }
    // loads
    let e = a[i];
    let e2 = a2[i];
    assert forall|m: int| 0 <= m < nodes2.len() implies (#[trigger] nodes2[m]).used == node_load(
        a2,
        m,
    ) && node_load(a2, m) <= cap by {
        lemma_load_update(a, i, e2, m);
        lemma_job_load_push(e, e2, n, m);
        assert(nodes[m].used == node_load(a, m));
        if m != n {
            assert(nodes2[m] == nodes[m]);
        }
    }
}

/// Removing the last placed task of entry `i`, found at position `k` of its
/// node's list.
pub proof fn lemma_unplace(
    a: Seq<Active>,
    nodes: Seq<Node>,
    cap: int,
    i: int,
    k: int,
    a2: Seq<Active>,
    nodes2: Seq<Node>,
)
    requires
        placement_ok(a, nodes, cap),
        nodes.len() <= usize::MAX,
        0 <= i < a.len(),
        a[i].placement@.len() > 0,
        0 <= k < nodes[a[i].placement@.last() as int].jobs@.len(),
        nodes[a[i].placement@.last() as int].jobs@[k] == (a[i].id, (a[i].placement@.len() - 1) as u32),
        a2 == a.update(i, a2[i]),
        a2[i].id == a[i].id,
        a2[i].job == a[i].job,
        a2[i].placement@ == a[i].placement@.drop_last(),
        nodes2 == nodes.update(a[i].placement@.last() as int, nodes2[a[i].placement@.last() as int]),
        nodes2[a[i].placement@.last() as int].jobs@ == nodes[a[i].placement@.last() as int].jobs@.remove(k),
        nodes2[a[i].placement@.last() as int].used == nodes[a[i].placement@.last() as int].used
            - a[i].job.tasks()[a[i].placement@.len() - 1].cpu_request,
    ensures
        placement_ok(a2, nodes2, cap),
{
    let t = a[i].placement@.len() - 1;
    let n = a[i].placement@.last() as int;
    let x0 = (a[i].id, t as u32);
    let e = a[i];
    let e2 = a2[i];
    assert(e.placement@ == e2.placement@.push(n as usize));
    assert(e.placement@[t] == n);
    assert(a[i].job.wf());
    assert(ids_increasing(a2)) by {
        assert forall|p: int, q: int| 0 <= p < q < a2.len() implies (#[trigger] a2[p]).id < (
        #[trigger] a2[q]).id by {
            assert(a[p].id < a[q].id);
        }
    }
    assert forall|p: int, u: int|
        0 <= p < a2.len() && 0 <= u < a2[p].placement@.len() implies (#[trigger] a2[p].placement@[u])
        < nodes2.len() by {
        if p != i {
            assert(a2[p] == a[p]);
        } else {
            assert(a2[p].placement@[u] == a[i].placement@[u]);
        }
    }
    assert forall|m: int, x: (u64, u32)| 0 <= m < nodes2.len() implies #[trigger] hosts(a2, m, x)
        == (hosts(a, m, x) && x != x0) by {
        if hosts(a2, m, x) {
            let q = choose|q: int|
                0 <= q < a2.len() && (#[trigger] a2[q]).id == x.0 && x.1 < a2[q].placement@.len()
                    && a2[q].placement@[x.1 as int] == m;
            if q != i {
                assert(a2[q] == a[q]);
                assert(hosts(a, m, x));
                assert(a[q].id != a[i].id) by {
                    if a[q].id == a[i].id {
                        lemma_ids_unique(a, q, i);
                    }
                }
            } else {
                assert(a2[q].placement@[x.1 as int] == a[q].placement@[x.1 as int]);
                assert(a[q].id == x.0 && x.1 < a[q].placement@.len() && a[q].placement@[x.1 as int]
                    == m);
                assert(hosts(a, m, x));
            }
        }
        if hosts(a, m, x) && x != x0 {
            let q = choose|q: int|
                0 <= q < a.len() && (#[trigger] a[q]).id == x.0 && x.1 < a[q].placement@.len()
                    && a[q].placement@[x.1 as int] == m;
            if q != i {
                assert(a2[q] == a[q]);
            } else {
                assert(x.1 as int != t);
                assert(a2[q].placement@[x.1 as int] == m);
            }
            assert(hosts(a2, m, x));
        }
    }
    assert forall|m: int| 0 <= m < nodes2.len() implies (#[trigger] nodes2[m]).jobs@.no_duplicates() by {
        if m == n {
            let j = nodes[n].jobs@;
            assert forall|p: int, q: int|
                0 <= p < nodes2[n].jobs@.len() && 0 <= q < nodes2[n].jobs@.len() && p != q
                    implies nodes2[n].jobs@[p]
                != nodes2[n].jobs@[q] by {
                let pp = if p < k { p } else { p + 1 };
                let qq = if q < k { q } else { q + 1 };
                assert(nodes2[n].jobs@[p] == j[pp]);
                assert(nodes2[n].jobs@[q] == j[qq]);
            }
        } else {
            assert(nodes2[m] == nodes[m]);
        }
    }
    assert forall|m: int, x: (u64, u32)| 0 <= m < nodes2.len() implies (
    #[trigger] nodes2[m].jobs@.contains(x) <==> hosts(a2, m, x)) by {
        assert(nodes[m].jobs@.contains(x) <==> hosts(a, m, x));
        if m == n {
            let j = nodes[n].jobs@;
            if nodes2[m].jobs@.contains(x) {
                let p = choose|p: int| 0 <= p < nodes2[m].jobs@.len() && nodes2[m].jobs@[p] == x;
                let pp = if p < k { p } else { p + 1 };
                assert(j[pp] == x);
                assert(pp != k);
                assert(j.no_duplicates());
                assert(x != x0);
            }
            if nodes[m].jobs@.contains(x) && x != x0 {
                let p = choose|p: int| 0 <= p < j.len() && j[p] == x;
                assert(p != k);
                if p < k {
                    assert(nodes2[m].jobs@[p] == x);
                } else {
                    assert(nodes2[m].jobs@[p - 1] == x);
                }
            }
        } else {
            assert(nodes2[m] == nodes[m]);
            if x == x0 {
                assert(!hosts(a, m, x)) by {
                    if hosts(a, m, x) {
                        let q = choose|q: int|
                            0 <= q < a.len() && (#[trigger] a[q]).id == x.0 && x.1
                                < a[q].placement@.len() && a[q].placement@[x.1 as int] == m;
                        lemma_ids_unique(a, q, i);
                    }
                }
            }
        }
    }
    assert forall|m: int| 0 <= m < nodes2.len() implies (#[trigger] nodes2[m]).used == node_load(
        a2,
        m,
    ) && node_load(a2, m) <= cap by {
        lemma_load_update(a, i, e2, m);
        lemma_job_load_push(e2, e, n, m);
        assert(nodes[m].used == node_load(a, m));
        lemma_job_load_nonneg(e2, m);
        if m != n {
            assert(nodes2[m] == nodes[m]);
        }
    }
}

/// The node of the last placed task of entry `i` carries at least its CPU.
pub proof fn lemma_used_covers(a: Seq<Active>, nodes: Seq<Node>, cap: int, i: int)
    requires
        placement_ok(a, nodes, cap),
        nodes.len() <= usize::MAX,
        0 <= i < a.len(),
        a[i].placement@.len() > 0,
    ensures
        nodes[a[i].placement@.last() as int].used >= a[i].job.tasks()[a[i].placement@.len()
            - 1].cpu_request,
{
    let n = a[i].placement@.last() as int;
    let t = a[i].placement@.len() - 1;
    let terms = load_terms(a[i], n);
    assert(terms[t] == a[i].job.tasks()[t].cpu_request);
    assert forall|u: int| 0 <= u < terms.len() implies terms[u] >= 0 by {}
    lemma_sum_term_le(terms, t);
    let s = a.map_values(|e: Active| job_load(e, n));
    assert forall|u: int| 0 <= u < s.len() implies s[u] >= 0 by {
        lemma_job_load_nonneg(a[u], n);
    }
    lemma_sum_term_le(s, i);
    assert(a[i].placement@[t] < nodes.len());
}

/// Removing an entry with no placed task.
pub proof fn lemma_drop_entry(a: Seq<Active>, nodes: Seq<Node>, cap: int, i: int)
    requires
        placement_ok(a, nodes, cap),
        0 <= i < a.len(),
        a[i].placement@.len() == 0,
    ensures
        placement_ok(a.remove(i), nodes, cap),
        forall|n: int| #[trigger] node_load(a.remove(i), n) == node_load(a, n),
{
    let a2 = a.remove(i);
    assert forall|q: int| 0 <= q < a2.len() implies #[trigger] a2[q] == a[if q < i {
        q
    } else {
        q + 1
    }] by {}
    assert(ids_increasing(a2)) by {
        assert forall|p: int, q: int| 0 <= p < q < a2.len() implies (#[trigger] a2[p]).id < (
        #[trigger] a2[q]).id by {
            let pp = if p < i { p } else { p + 1 };
            let qq = if q < i { q } else { q + 1 };
            assert(a[pp].id < a[qq].id);
        }
    }
    assert forall|p: int, u: int|
        0 <= p < a2.len() && 0 <= u < a2[p].placement@.len() implies (#[trigger] a2[p].placement@[u])
        < nodes.len() by {
        let pp = if p < i { p } else { p + 1 };
        assert(a2[p] == a[pp]);
    }
    assert forall|m: int, x: (u64, u32)| 0 <= m < nodes.len() implies #[trigger] hosts(a2, m, x)
        == hosts(a, m, x) by {
        if hosts(a2, m, x) {
            let q = choose|q: int|
                0 <= q < a2.len() && (#[trigger] a2[q]).id == x.0 && x.1 < a2[q].placement@.len()
                    && a2[q].placement@[x.1 as int] == m;
            let qq = if q < i { q } else { q + 1 };
            assert(a[qq] == a2[q]);
            assert(hosts(a, m, x));
        }
        if hosts(a, m, x) {
            let q = choose|q: int|
                0 <= q < a.len() && (#[trigger] a[q]).id == x.0 && x.1 < a[q].placement@.len()
                    && a[q].placement@[x.1 as int] == m;
            assert(q != i);
            let qq = if q < i { q } else { q - 1 };
            assert(a2[qq] == a[q]);
            assert(hosts(a2, m, x));
        }
    }
    assert forall|n: int| #[trigger] node_load(a2, n) == node_load(a, n) by {
        let s = a.map_values(|e: Active| job_load(e, n));
        assert(a2.map_values(|e: Active| job_load(e, n)) =~= s.remove(i));
        lemma_sum_remove(s, i);
        assert(load_terms(a[i], n) =~= Seq::<int>::empty());
    }
    assert forall|m: int, x: (u64, u32)| 0 <= m < nodes.len() implies (
    #[trigger] nodes[m].jobs@.contains(x) <==> hosts(a2, m, x)) by {
        assert(nodes[m].jobs@.contains(x) <==> hosts(a, m, x));
    }
}

/// Appending an entry with a fresh, larger ID and no placed task.
pub proof fn lemma_push_entry(a: Seq<Active>, nodes: Seq<Node>, cap: int, e: Active)
    requires
        placement_ok(a, nodes, cap),
        e.job.wf(),
        e.placement@.len() == 0,
        forall|i: int| 0 <= i < a.len() ==> (#[trigger] a[i]).id < e.id,
    ensures
        placement_ok(a.push(e), nodes, cap),
        forall|n: int| #[trigger] node_load(a.push(e), n) == node_load(a, n),
{
    let a2 = a.push(e);
    assert forall|q: int| 0 <= q < a.len() implies #[trigger] a2[q] == a[q] by {}
    assert(ids_increasing(a2)) by {
        assert forall|p: int, q: int| 0 <= p < q < a2.len() implies (#[trigger] a2[p]).id < (
        #[trigger] a2[q]).id by {
            if q < a.len() {
                assert(a[p].id < a[q].id);
            } else {
                assert(a2[p].id < e.id);
            }
        }
    }
    assert forall|p: int, u: int|
        0 <= p < a2.len() && 0 <= u < a2[p].placement@.len() implies (#[trigger] a2[p].placement@[u])
        < nodes.len() by {
        assert(p < a.len());
    }
    assert forall|m: int, x: (u64, u32)| 0 <= m < nodes.len() implies #[trigger] hosts(a2, m, x)
        == hosts(a, m, x) by {
        if hosts(a2, m, x) {
            let q = choose|q: int|
                0 <= q < a2.len() && (#[trigger] a2[q]).id == x.0 && x.1 < a2[q].placement@.len()
                    && a2[q].placement@[x.1 as int] == m;
            assert(q < a.len());
            assert(a[q] == a2[q]);
            assert(hosts(a, m, x));
        }
        if hosts(a, m, x) {
            let q = choose|q: int|
                0 <= q < a.len() && (#[trigger] a[q]).id == x.0 && x.1 < a[q].placement@.len()
                    && a[q].placement@[x.1 as int] == m;
            assert(a2[q] == a[q]);
            assert(hosts(a2, m, x));
        }
    }
    assert forall|n: int| #[trigger] node_load(a2, n) == node_load(a, n) by {
        let s = a.map_values(|x: Active| job_load(x, n));
        assert(a2.map_values(|x: Active| job_load(x, n)) =~= s.push(job_load(e, n)));
        assert(load_terms(e, n) =~= Seq::<int>::empty());
        assert(s.push(job_load(e, n)).drop_last() =~= s);
    }
    assert forall|m: int, x: (u64, u32)| 0 <= m < nodes.len() implies (
    #[trigger] nodes[m].jobs@.contains(x) <==> hosts(a2, m, x)) by {
        assert(nodes[m].jobs@.contains(x) <==> hosts(a, m, x));
    }
}

/// Appending an empty node.
pub proof fn lemma_new_node(a: Seq<Active>, nodes: Seq<Node>, cap: int, nd: Node)
    requires
        placement_ok(a, nodes, cap),
        nd.jobs@.len() == 0,
        nd.used == 0,
        cap >= 0,
    ensures
        placement_ok(a, nodes.push(nd), cap),
{
    let nodes2 = nodes.push(nd);
    let n = nodes.len() as int;
    assert forall|m: int| 0 <= m < nodes.len() implies #[trigger] nodes2[m] == nodes[m] by {}
    assert forall|i: int, t: int|
        0 <= i < a.len() && 0 <= t < a[i].placement@.len() implies a[i].placement@[t] != n by {
        assert(a[i].placement@[t] < nodes.len());
    }
    lemma_load_unused(a, n);
    assert forall|x: (u64, u32)| !hosts(a, n, x) by {
        if hosts(a, n, x) {
            let q = choose|q: int|
                0 <= q < a.len() && (#[trigger] a[q]).id == x.0 && x.1 < a[q].placement@.len()
                    && a[q].placement@[x.1 as int] == n;
            assert(a[q].placement@[x.1 as int] < nodes.len());
        }
    }
    assert forall|m: int, x: (u64, u32)| 0 <= m < nodes2.len() implies (
    #[trigger] nodes2[m].jobs@.contains(x) <==> hosts(a, m, x)) by {
        if m < n {
            assert(nodes[m].jobs@.contains(x) <==> hosts(a, m, x));
        } else {
            assert(!nodes2[m].jobs@.contains(x));
        }
    }
    assert forall|m: int| 0 <= m < nodes2.len() implies (#[trigger] nodes2[m]).jobs@.no_duplicates() by {
        if m < n {
            assert(nodes[m].jobs@.no_duplicates());
        }
    }
    assert forall|m: int| 0 <= m < nodes2.len() implies (#[trigger] nodes2[m]).used == node_load(
        a,
        m,
    ) && node_load(a, m) <= cap by {
        if m < n {
            assert(nodes[m].used == node_load(a, m));
        }
    }
}

/// A node whose list is empty carries no load.
pub proof fn lemma_idle_unloaded(a: Seq<Active>, nodes: Seq<Node>, cap: int, n: int)
    requires
        placement_ok(a, nodes, cap),
        0 <= n < nodes.len(),
        nodes[n].jobs@.len() == 0,
    ensures
        nodes[n].used == 0,
{
    assert forall|i: int, t: int|
        0 <= i < a.len() && 0 <= t < a[i].placement@.len() implies a[i].placement@[t] != n by {
        if a[i].placement@[t] == n {
            let job = a[i].job;
            assert(job.wf());
            assert(t < job.tasks().len());
            let x = (a[i].id, t as u32);
            assert(hosts(a, n, x));
            assert(nodes[n].jobs@.contains(x));
        }
    }
    lemma_load_unused(a, n);
}

/// Relies on rand's `SliceRandom::choose`: `None` for an empty slice, else
/// one of its elements.
#[verifier::external_body]
pub(crate) fn pick(rng: &mut StdRng, items: &Vec<usize>) -> (r: Option<usize>)
    ensures
        r is None <==> items.len() == 0,
        r is Some ==> items@.contains(r->Some_0),
{
    items.choose(rng).copied()
}

/// Node `nd` can host `cpu` more.
pub open spec fn fits(nd: Node, cap: int, cpu: int) -> bool {
    nd.used + cpu <= cap
}

/// Node `n` is among the nodes that can host `cpu` and leave the least
/// residual capacity.
pub open spec fn least_residual(nodes: Seq<Node>, cap: int, cpu: int, n: int) -> bool {
    &&& 0 <= n < nodes.len()
    &&& fits(nodes[n], cap, cpu)
    &&& forall|m: int| 0 <= m < nodes.len() && fits(#[trigger] nodes[m], cap, cpu)
        ==> nodes[m].used <= nodes[n].used
}

/// The node of the first predecessor in `preds` that is placed and whose
/// node can host `cpu` more.
pub open spec fn first_fit_pred(
    preds: Seq<u32>,
    placement: Seq<usize>,
    nodes: Seq<Node>,
    cap: int,
    cpu: int,
) -> Option<usize>
    decreases preds.len(),
{
    if preds.len() == 0 {
        None
    } else if preds[0] < placement.len() && fits(nodes[placement[preds[0] as int] as int], cap, cpu) {
        Some(placement[preds[0] as int])
    } else {
        first_fit_pred(preds.drop_first(), placement, nodes, cap, cpu)
    }
}

impl Node {
    /// CPU used by the hosted tasks.
    pub fn capacity_used(&self) -> (r: usize)
        ensures
            r == self.used,
    {
        self.used
    }

    /// The residual capacity if the node hosted `new_capacity` more, or
    /// `None` if that does not fit.
    pub fn capacity_residual(&self, node_capacity: usize, new_capacity: usize) -> (r: Option<usize>)
        requires
            self.used <= node_capacity,
        ensures
            r is Some <==> fits(*self, node_capacity as int, new_capacity as int),
            r is Some ==> r->Some_0 == node_capacity - self.used - new_capacity,
    {
        let used = self.capacity_used();
        if new_capacity <= node_capacity - used {
            Some(node_capacity - used - new_capacity)
        } else {
            None
        }
    }
}

/// `nodes2` is `nodes` with task `x`, of CPU request `cpu`, added to the list
/// of node `n`, which is a new node when `n` is one past the end.
pub open spec fn placed_on(nodes: Seq<Node>, nodes2: Seq<Node>, n: int, x: (u64, u32), cpu: int) -> bool {
    &&& 0 <= n <= nodes.len()
    &&& nodes2.len() == if n == nodes.len() { nodes.len() + 1 } else { nodes.len() + 0 }
    &&& forall|m: int| 0 <= m < nodes.len() && m != n ==> #[trigger] nodes2[m] == nodes[m]
    &&& nodes2[n].jobs@ == (if n < nodes.len() { nodes[n].jobs@ } else { Seq::<(u64, u32)>::empty() }).push(x)
    &&& nodes2[n].used == (if n < nodes.len() { nodes[n].used as int } else { 0 }) + cpu
}

/// Best fit's choice of node `n` for task `pl.len()` of `job`, whose earlier
/// tasks sit on the nodes `pl`: the node of the first placed predecessor
/// (most recent edge first) with room; else a node with room that leaves
/// the least residual capacity; else a new node.
pub open spec fn best_fit_rule(nodes: Seq<Node>, job: Job, pl: Seq<usize>, cap: int, n: int) -> bool {
    let t = pl.len() as int;
    let cpu = job.tasks()[t].cpu_request as int;
    match first_fit_pred(sources_into(job.links(), t as u32), pl, nodes, cap, cpu) {
        Some(h) => n == h,
        None => if exists|m: int| 0 <= m < nodes.len() && fits(#[trigger] nodes[m], cap, cpu) {
            least_residual(nodes, cap, cpu, n)
        } else {
            n == nodes.len()
        },
    }
}

/// The random policy's choice of node `n` for task `pl.len()` of `job`: a
/// node with room if there is one, else a new node.
pub open spec fn random_rule(nodes: Seq<Node>, job: Job, pl: Seq<usize>, cap: int, n: int) -> bool {
    let cpu = job.tasks()[pl.len() as int].cpu_request as int;
    if exists|m: int| 0 <= m < nodes.len() && fits(#[trigger] nodes[m], cap, cpu) {
        0 <= n < nodes.len() && fits(nodes[n], cap, cpu)
    } else {
        n == nodes.len()
    }
}

/// The stateful policy's rule for the choice of a node.
pub open spec fn policy_rule(policy: Policy, nodes: Seq<Node>, job: Job, pl: Seq<usize>, cap: int, n: int) -> bool {
    if policy == Policy::StatefulBestFit {
        best_fit_rule(nodes, job, pl, cap, n)
    } else {
        random_rule(nodes, job, pl, cap, n)
    }
}

/// `h[k]` is the node table before task `from + k` of entry `e` was placed:
/// each task went, in task order, to the node the policy's rule gives on
/// that table, and was added there.
pub open spec fn placement_trace(policy: Policy, cap: int, e: Active, from: int, h: Seq<Seq<Node>>) -> bool {
    &&& 0 <= from <= e.placement@.len()
    &&& h.len() == e.placement@.len() - from + 1
    &&& forall|k: int| 0 <= k < h.len() - 1 ==> policy_rule(
        policy,
        #[trigger] h[k],
        e.job,
        e.placement@.take(from + k),
        cap,
        e.placement@[from + k] as int,
    ) && placed_on(
        h[k],
        h[k + 1],
        e.placement@[from + k] as int,
        (e.id, (from + k) as u32),
        e.job.tasks()[from + k].cpu_request as int,
    )
}

/// Entry `i` of `a2` is entry `i` of `a` with one more task placed, on node
/// `n`; the other entries are unchanged.
pub open spec fn placed_one(a: Seq<Active>, a2: Seq<Active>, i: int, n: int) -> bool {
    &&& a2.len() == a.len()
    &&& forall|j: int| 0 <= j < a.len() && j != i ==> #[trigger] a2[j] == a[j]
    &&& a2[i].id == a[i].id
    &&& a2[i].job == a[i].job
    &&& a2[i].placement@ == a[i].placement@.push(n as usize)
}

/// Places the next task of entry `i` on node `n`.
pub(crate) fn place_task(active: &mut Vec<Active>, nodes: &mut Vec<Node>, cap: usize, i: usize, n: usize)
    requires
        placement_ok(old(active)@, old(nodes)@, cap as int),
        i < old(active).len(),
        old(active)@[i as int].placement@.len() < old(active)@[i as int].job.tasks().len(),
        n < old(nodes).len(),
        fits(
            old(nodes)@[n as int],
            cap as int,
            old(active)@[i as int].job.tasks()[old(active)@[i as int].placement@.len() as int].cpu_request as int,
        ),
    ensures
        placement_ok(final(active)@, final(nodes)@, cap as int),
        placed_one(old(active)@, final(active)@, i as int, n as int),
        final(nodes).len() == old(nodes).len(),
        placed_on(
            old(nodes)@,
            final(nodes)@,
            n as int,
            (old(active)@[i as int].id, old(active)@[i as int].placement@.len() as u32),
            old(active)@[i as int].job.tasks()[old(active)@[i as int].placement@.len() as int].cpu_request as int,
        ),
{
    let ghost a = active@;
    let ghost ns = nodes@;
    let t = active[i].placement.len();
    proof {
        assert(active@[i as int].job.wf());
    }
    let cpu = active[i].job.task(t).cpu_request;
    let x = (active[i].id, t as u32);
    let mut nd = nodes.remove(n);
    nd.jobs.push(x);
    nd.used = nd.used + cpu;
    nodes.insert(n, nd);
    let mut e = active.remove(i);
    e.placement.push(n);
    active.insert(i, e);
    proof {
        assert(nodes@ =~= ns.update(n as int, nd));
        assert(active@ =~= a.update(i as int, e));
        lemma_place(a, ns, cap as int, i as int, n as int, active@, nodes@);
    }
}

/// Unplaces the last placed task of entry `i`.
pub(crate) fn unplace_last(active: &mut Vec<Active>, nodes: &mut Vec<Node>, cap: usize, i: usize)
    requires
        placement_ok(old(active)@, old(nodes)@, cap as int),
        i < old(active).len(),
        old(active)@[i as int].placement@.len() > 0,
    ensures
        placement_ok(final(active)@, final(nodes)@, cap as int),
        final(active).len() == old(active).len(),
        forall|j: int| 0 <= j < old(active).len() && j != i
            ==> #[trigger] final(active)@[j] == old(active)@[j],
        final(active)@[i as int].id == old(active)@[i as int].id,
        final(active)@[i as int].job == old(active)@[i as int].job,
        final(active)@[i as int].placement@ == old(active)@[i as int].placement@.drop_last(),
        final(nodes).len() == old(nodes).len(),
{
    let ghost a = active@;
    let ghost ns = nodes@;
    let t = active[i].placement.len() - 1;
    let n = active[i].placement[t];
    proof {
        assert(active@[i as int].job.wf());
        assert(n < nodes.len());
        lemma_used_covers(a, ns, cap as int, i as int);
    }
    let cpu = active[i].job.task(t).cpu_request;
    let x = (active[i].id, t as u32);
    proof {
        assert(hosts(a, n as int, x));
        assert(ns[n as int].jobs@.contains(x));
    }
    let mut k: usize = 0;
    while k < nodes[n].jobs.len() && (nodes[n].jobs[k].0 != x.0 || nodes[n].jobs[k].1 != x.1)
        invariant
            nodes@ == ns,
            n < nodes.len(),
            ns[n as int].jobs@.contains(x),
            k <= ns[n as int].jobs@.len(),
            forall|p: int| 0 <= p < k ==> ns[n as int].jobs@[p] != x,
        decreases ns[n as int].jobs@.len() - k,
    {
        k = k + 1;
    }
    proof {
        if k == ns[n as int].jobs@.len() {
            let p = choose|p: int| 0 <= p < ns[n as int].jobs@.len() && ns[n as int].jobs@[p] == x;
            assert(false);
        }
    }
    let mut nd = nodes.remove(n);
    nd.jobs.remove(k);
    nd.used = nd.used - cpu;
    nodes.insert(n, nd);
    let mut e = active.remove(i);
    e.placement.pop();
    active.insert(i, e);
    proof {
        assert(nodes@ =~= ns.update(n as int, nd));
        assert(active@ =~= a.update(i as int, e));
        lemma_unplace(a, ns, cap as int, i as int, k as int, active@, nodes@);
    }
}

/// Places the next task of entry `i` by best fit: on the node of the first
/// placed predecessor (most recent edge first) that can host it; else on a
/// node that can host it and leaves the least residual capacity, picked at
/// random among equals; else on a new node.
pub(crate) fn place_best_fit(
    active: &mut Vec<Active>,
    nodes: &mut Vec<Node>,
    cap: usize,
    rng: &mut StdRng,
    i: usize,
)
    requires
        placement_ok(old(active)@, old(nodes)@, cap as int),
        i < old(active).len(),
        old(active)@[i as int].placement@.len() < old(active)@[i as int].job.tasks().len(),
        old(active)@[i as int].job.tasks()[old(active)@[i as int].placement@.len() as int].cpu_request
            <= cap,
    ensures
        placement_ok(final(active)@, final(nodes)@, cap as int),
        ({
            let e = old(active)@[i as int];
            let t = e.placement@.len() as int;
            let cpu = e.job.tasks()[t].cpu_request as int;
            let n = final(active)@[i as int].placement@[t] as int;
            &&& placed_one(old(active)@, final(active)@, i as int, n)
            &&& placed_on(old(nodes)@, final(nodes)@, n, (e.id, t as u32), cpu)
            &&& match first_fit_pred(sources_into(e.job.links(), t as u32), e.placement@, old(nodes)@, cap as int, cpu) {
                Some(h) => n == h && final(nodes).len() == old(nodes).len(),
                None => if exists|m: int| 0 <= m < old(nodes).len()
                    && fits(#[trigger] old(nodes)@[m], cap as int, cpu) {
                    least_residual(old(nodes)@, cap as int, cpu, n) && final(nodes).len() == old(nodes).len()
                } else {
                    n == old(nodes).len() && final(nodes).len() == old(nodes).len() + 1
                },
            }
        }),
{
    let ghost a = active@;
    let ghost ns = nodes@;
    let t = active[i].placement.len();
    proof {
        assert(active@[i as int].job.wf());
    }
    let cpu = active[i].job.task(t).cpu_request;
    let preds = active[i].job.predecessors(t as u32);
    let ghost pl = a[i as int].placement@;
    assert(preds@.skip(0) =~= preds@);
    let mut j: usize = 0;
    while j < preds.len()
        invariant
            active@ == a,
            nodes@ == ns,
            placement_ok(a, ns, cap as int),
            i < a.len(),
            pl == a[i as int].placement@,
            t == pl.len(),
            t < a[i as int].job.tasks().len(),
            a == old(active)@,
            ns == old(nodes)@,
            cpu == a[i as int].job.tasks()[t as int].cpu_request,
            preds@ == sources_into(a[i as int].job.links(), t as u32),
            j <= preds.len(),
            first_fit_pred(preds@, pl, ns, cap as int, cpu as int) == first_fit_pred(
                preds@.skip(j as int),
                pl,
                ns,
                cap as int,
                cpu as int,
            ),
        decreases preds.len() - j,
    {
        let p = preds[j] as usize;
        assert(preds@.skip(j as int).drop_first() =~= preds@.skip(j + 1));
        assert(preds@.skip(j as int)[0] == preds@[j as int]);
        if p < t {
            let pn = active[i].placement[p];
            proof {
                assert(pn < nodes.len());
                assert(ns[pn as int].used <= cap);
            }
            if nodes[pn].capacity_residual(cap, cpu).is_some() {
                assert(pl[p as int] == pn);
                assert(fits(ns[pn as int], cap as int, cpu as int));
                assert(first_fit_pred(preds@.skip(j as int), pl, ns, cap as int, cpu as int) == Some(pn));
                place_task(active, nodes, cap, i, pn);
                assert(active@[i as int].placement@[t as int] == pn);
                return;
            }
        }
        j = j + 1;
    }
    assert(preds@.skip(j as int) =~= Seq::<u32>::empty());
    let mut best: Option<usize> = None;
    let mut n: usize = 0;
    while n < nodes.len()
        invariant
            active@ == a,
            nodes@ == ns,
            placement_ok(a, ns, cap as int),
            n <= ns.len(),
            best is None <==> forall|m: int| 0 <= m < n ==> !fits(#[trigger] ns[m], cap as int, cpu as int),
            best is Some ==> exists|m: int| 0 <= m < n
                && fits(#[trigger] ns[m], cap as int, cpu as int)
                && best->Some_0 == cap - ns[m].used - cpu,
            best is Some ==> forall|m: int| 0 <= m < n
                && fits(#[trigger] ns[m], cap as int, cpu as int)
                ==> best->Some_0 <= cap - ns[m].used - cpu,
        decreases ns.len() - n,
    {
        match nodes[n].capacity_residual(cap, cpu) {
            Some(r) => {
                match best {
                    Some(b) => {
                        if r < b {
                            best = Some(r);
                        }
                    },
                    None => {
                        best = Some(r);
                    },
                }
            },
            None => {},
        }
        n = n + 1;
    }
    let mut candidates: Vec<usize> = Vec::new();
    if let Some(b) = best {
        let mut n: usize = 0;
        while n < nodes.len()
            invariant
                active@ == a,
                nodes@ == ns,
                placement_ok(a, ns, cap as int),
                n <= ns.len(),
                forall|m: int| 0 <= m < ns.len()
                    && fits(#[trigger] ns[m], cap as int, cpu as int)
                    ==> b <= cap - ns[m].used - cpu,
                exists|m: int| 0 <= m < ns.len()
                    && fits(#[trigger] ns[m], cap as int, cpu as int)
                    && b == cap - ns[m].used - cpu,
                forall|k: int| 0 <= k < candidates.len()
                    ==> least_residual(ns, cap as int, cpu as int, #[trigger] candidates@[k] as int),
                forall|m: int| 0 <= m < n && least_residual(ns, cap as int, cpu as int, m)
                    ==> candidates@.contains(m as usize),
            decreases ns.len() - n,
        {
            let ghost before = candidates@;
            match nodes[n].capacity_residual(cap, cpu) {
                Some(r) => {
                    if r == b {
                        candidates.push(n);
                        proof {
                            assert forall|m: int| 0 <= m < ns.len()
                                && fits(#[trigger] ns[m], cap as int, cpu as int)
                                implies ns[m].used <= ns[n as int].used by {
                                assert(b <= cap - ns[m].used - cpu);
                            }
                            assert(least_residual(ns, cap as int, cpu as int, n as int));
                        }
                    }
                },
                None => {},
            }
            proof {
                assert forall|m: int| 0 <= m < n + 1
                    && least_residual(ns, cap as int, cpu as int, m)
                    implies candidates@.contains(m as usize) by {
                    if m < n {
                        assert(before.contains(m as usize));
                        let k = choose|k: int| 0 <= k < before.len() && before[k] == m as usize;
                        assert(candidates@[k] == m as usize);
                    } else {
                        let w = choose|w: int| 0 <= w < ns.len()
                            && fits(#[trigger] ns[w], cap as int, cpu as int)
                            && b == cap - ns[w].used - cpu;
                        assert(ns[w].used <= ns[m].used);
                        assert(b <= cap - ns[m].used - cpu);
                        assert(candidates@.last() == m as usize);
                    }
                }
            }
            n = n + 1;
        }
        proof {
            let w = choose|w: int| 0 <= w < ns.len()
                && fits(#[trigger] ns[w], cap as int, cpu as int) && b == cap - ns[w].used - cpu;
            assert forall|m: int| 0 <= m < ns.len()
                && fits(#[trigger] ns[m], cap as int, cpu as int)
                implies ns[m].used <= ns[w].used by {
                assert(b <= cap - ns[m].used - cpu);
            }
            assert(least_residual(ns, cap as int, cpu as int, w));
            assert(candidates@.contains(w as usize));
        }
    }
    proof {
        if best is None {
            assert forall|m: int| 0 <= m < ns.len()
                implies !fits(#[trigger] ns[m], cap as int, cpu as int) by {}
        }
    }
    match pick(rng, &candidates) {
        Some(n) => {
            proof {
                let k = choose|k: int| 0 <= k < candidates.len() && candidates@[k] == n;
                assert(least_residual(ns, cap as int, cpu as int, candidates@[k] as int));
            }
            place_task(active, nodes, cap, i, n);
            assert(active@[i as int].placement@[t as int] == n);
        },
        None => {
            let ghost ns0 = nodes@;
            nodes.push(Node { jobs: Vec::new(), used: 0 });
            proof {
                lemma_new_node(a, ns0, cap as int, nodes@.last());
                assert(nodes@ =~= ns0.push(nodes@.last()));
            }
            let last = nodes.len() - 1;
            place_task(active, nodes, cap, i, last);
            assert(active@[i as int].placement@[t as int] == last);
        },
    }
}

/// Places the next task of entry `i` at random: on a node picked among
/// those that can host it; else on the first idle node; else on a new node.
pub(crate) fn place_random(
    active: &mut Vec<Active>,
    nodes: &mut Vec<Node>,
    cap: usize,
    rng: &mut StdRng,
    i: usize,
)
    requires
        placement_ok(old(active)@, old(nodes)@, cap as int),
        i < old(active).len(),
        old(active)@[i as int].placement@.len() < old(active)@[i as int].job.tasks().len(),
        old(active)@[i as int].job.tasks()[old(active)@[i as int].placement@.len() as int].cpu_request
            <= cap,
    ensures
        placement_ok(final(active)@, final(nodes)@, cap as int),
        ({
            let e = old(active)@[i as int];
            let t = e.placement@.len() as int;
            let cpu = e.job.tasks()[t].cpu_request as int;
            let n = final(active)@[i as int].placement@[t] as int;
            &&& placed_one(old(active)@, final(active)@, i as int, n)
            &&& placed_on(old(nodes)@, final(nodes)@, n, (e.id, t as u32), cpu)
            &&& if exists|m: int| 0 <= m < old(nodes).len()
                && fits(#[trigger] old(nodes)@[m], cap as int, cpu) {
                n < old(nodes).len() && fits(old(nodes)@[n], cap as int, cpu)
                    && final(nodes).len() == old(nodes).len()
            } else {
                n == old(nodes).len() && final(nodes).len() == old(nodes).len() + 1
            }
        }),
{
    let ghost a = active@;
    let ghost ns = nodes@;
    let t = active[i].placement.len();
    proof {
        assert(active@[i as int].job.wf());
    }
    let cpu = active[i].job.task(t).cpu_request;
    let mut candidates: Vec<usize> = Vec::new();
    let mut n: usize = 0;
    while n < nodes.len()
        invariant
            active@ == a,
            nodes@ == ns,
            placement_ok(a, ns, cap as int),
            n <= ns.len(),
            forall|k: int| 0 <= k < candidates.len() ==> #[trigger] candidates@[k] < ns.len()
                && fits(ns[candidates@[k] as int], cap as int, cpu as int),
            forall|m: int| 0 <= m < n && fits(#[trigger] ns[m], cap as int, cpu as int)
                ==> candidates@.contains(m as usize),
        decreases ns.len() - n,
    {
        let ghost before = candidates@;
        if nodes[n].capacity_residual(cap, cpu).is_some() {
            candidates.push(n);
        }
        proof {
            assert forall|m: int| 0 <= m < n + 1
                && fits(#[trigger] ns[m], cap as int, cpu as int)
                implies candidates@.contains(m as usize) by {
                if m < n {
                    let k = choose|k: int| 0 <= k < before.len() && before[k] == m as usize;
                    assert(candidates@[k] == m as usize);
                } else {
                    assert(candidates@.last() == m as usize);
                }
            }
        }
        n = n + 1;
    }
    match pick(rng, &candidates) {
        Some(n) => {
            proof {
                let k = choose|k: int| 0 <= k < candidates.len() && candidates@[k] == n;
                assert(fits(ns[candidates@[k] as int], cap as int, cpu as int));
            }
            place_task(active, nodes, cap, i, n);
            assert(active@[i as int].placement@[t as int] == n);
        },
        None => {
            let mut k: usize = 0;
            while k < nodes.len() && nodes[k].is_active()
                invariant
                    nodes@ == ns,
                    k <= ns.len(),
                decreases ns.len() - k,
            {
                k = k + 1;
            }
            if k < nodes.len() {
                proof {
                    lemma_idle_unloaded(a, ns, cap as int, k as int);
                    assert(fits(ns[k as int], cap as int, cpu as int));
                }
                place_task(active, nodes, cap, i, k);
                assert(active@[i as int].placement@[t as int] == k);
            } else {
                let ghost ns0 = nodes@;
                nodes.push(Node { jobs: Vec::new(), used: 0 });
                proof {
                    lemma_new_node(a, ns0, cap as int, nodes@.last());
                    assert(nodes@ =~= ns0.push(nodes@.last()));
                }
                let last = nodes.len() - 1;
                place_task(active, nodes, cap, i, last);
                assert(active@[i as int].placement@[t as int] == last);
            }
        },
    }
}

/// Every task of every entry has a CPU request within the capacity.
pub open spec fn tasks_fit(a: Seq<Active>, cap: int) -> bool {
    forall|i: int, t: int|
        0 <= i < a.len() && 0 <= t < a[i].job.tasks().len() ==> (#[trigger] a[i].job.tasks()[t]).cpu_request
            <= cap
}

/// Places the remaining tasks of entry `i`, in task order, by `policy`.
pub(crate) fn allocate(
    active: &mut Vec<Active>,
    nodes: &mut Vec<Node>,
    cap: usize,
    rng: &mut StdRng,
    policy: Policy,
    i: usize,
) -> (trace: Ghost<Seq<Seq<Node>>>)
    requires
        placement_ok(old(active)@, old(nodes)@, cap as int),
        i < old(active).len(),
        policy.is_stateful() ==> tasks_fit(old(active)@, cap as int),
    ensures
        placement_ok(final(active)@, final(nodes)@, cap as int),
        !policy.is_stateful() ==> final(active)@ == old(active)@ && final(nodes)@ == old(nodes)@,
        policy.is_stateful() ==> {
            let e = final(active)@[i as int];
            let from = old(active)@[i as int].placement@.len() as int;
            &&& tasks_fit(final(active)@, cap as int)
            &&& final(active).len() == old(active).len()
            &&& forall|j: int| 0 <= j < old(active).len() && j != i
                ==> #[trigger] final(active)@[j] == old(active)@[j]
            &&& e.id == old(active)@[i as int].id
            &&& e.job == old(active)@[i as int].job
            &&& e.placement@.len() == e.job.tasks().len()
            &&& e.placement@.take(from) == old(active)@[i as int].placement@
            &&& placement_trace(policy, cap as int, e, from, trace@)
            &&& trace@[0] == old(nodes)@
            &&& trace@.last() == final(nodes)@
            &&& old(nodes).len() <= final(nodes).len() <= old(nodes).len() + (e.job.tasks().len() - from)
            &&& nodes_extended(old(nodes)@, final(nodes)@)
        },
{
    let ghost a0 = active@;
    let ghost n0 = nodes@;
    match policy {
        Policy::StatefulBestFit | Policy::StatefulRandom => {},
        _ => {
            let r: Ghost<Seq<Seq<Node>>> = Ghost(Seq::<Seq<Node>>::empty().push(n0));
            return r;
        },
    }
    let ghost from = a0[i as int].placement@.len() as int;
    let ghost mut h: Seq<Seq<Node>> = seq![n0];
    assert forall|m: int| 0 <= m < n0.len() implies (#[trigger] n0[m]).jobs@.len() >= n0[m].jobs@.len()
        && n0[m].jobs@.take(n0[m].jobs@.len() as int) == n0[m].jobs@ by {
        assert(n0[m].jobs@.take(n0[m].jobs@.len() as int) =~= n0[m].jobs@);
    }
    let n = active[i].job.node_count();
    while active[i].placement.len() < n
        invariant
            placement_ok(active@, nodes@, cap as int),
            policy.is_stateful(),
            i < active.len(),
            active.len() == a0.len(),
            forall|j: int| 0 <= j < a0.len() && j != i ==> #[trigger] active@[j] == a0[j],
            active@[i as int].id == a0[i as int].id,
            active@[i as int].job == a0[i as int].job,
            n == a0[i as int].job.tasks().len(),
            from == a0[i as int].placement@.len(),
            active@[i as int].placement@.len() <= n,
            active@[i as int].placement@.len() >= from,
            active@[i as int].placement@.take(from) == a0[i as int].placement@,
            tasks_fit(a0, cap as int),
            placement_trace(policy, cap as int, active@[i as int], from, h),
            h[0] == n0,
            h.last() == nodes@,
            n0.len() <= nodes.len() <= n0.len() + (active@[i as int].placement@.len() - from),
            nodes_extended(n0, nodes@),
        decreases n - active@[i as int].placement@.len(),
    {
        let ghost before = active@[i as int];
        let ghost nb = nodes@;
        proof {
            let t = before.placement@.len() as int;
            assert(a0[i as int].job.tasks()[t].cpu_request <= cap);
        }
        match policy {
            Policy::StatefulBestFit => place_best_fit(active, nodes, cap, rng, i),
            _ => place_random(active, nodes, cap, rng, i),
        }
        proof {
            let e = active@[i as int];
            let t = before.placement@.len() as int;
            let nn = e.placement@[t] as int;
            let h2 = h.push(nodes@);
            assert(e.placement@ == before.placement@.push(nn as usize));
            assert(e.placement@.take(t) =~= before.placement@);
            assert(e.placement@.take(from) =~= before.placement@.take(from));
            assert forall|k: int| 0 <= k < h2.len() - 1 implies policy_rule(
                policy,
                #[trigger] h2[k],
                e.job,
                e.placement@.take(from + k),
                cap as int,
                e.placement@[from + k] as int,
            ) && placed_on(
                h2[k],
                h2[k + 1],
                e.placement@[from + k] as int,
                (e.id, (from + k) as u32),
                e.job.tasks()[from + k].cpu_request as int,
            ) by {
                if k < h.len() - 1 {
                    assert(h2[k] == h[k] && h2[k + 1] == h[k + 1]);
                    assert(e.placement@.take(from + k) =~= before.placement@.take(from + k));
                    assert(e.placement@[from + k] == before.placement@[from + k]);
                } else {
                    assert(h2[k] == nb && h2[k + 1] == nodes@);
                    assert(from + k == t);
                }
            }
            lemma_extend_step(n0, nb, nodes@, nn, (e.id, t as u32), e.job.tasks()[t].cpu_request as int);
            h = h2;
        }
    }
    let r: Ghost<Seq<Seq<Node>>> = Ghost(h);
    r
}

/// The node table `nodes` is what placing every task of every entry of `a`,
/// entry by entry in table order and each in task order, by best fit,
/// yields from an empty table: `hs[i]` is the trace of entry `i`.
pub open spec fn rebuilt(cap: int, a: Seq<Active>, hs: Seq<Seq<Seq<Node>>>, nodes: Seq<Node>) -> bool {
    &&& hs.len() == a.len()
    &&& forall|i: int| 0 <= i < a.len() ==> placement_trace(Policy::StatefulBestFit, cap, a[i], 0, #[trigger] hs[i])
    &&& forall|i: int| 0 <= i < a.len() ==> (#[trigger] hs[i])[0] == if i == 0 {
        Seq::<Node>::empty()
    } else {
        hs[i - 1].last()
    }
    &&& a.len() == 0 ==> nodes.len() == 0
    &&& a.len() > 0 ==> hs[a.len() - 1].last() == nodes
}

/// Extending a table that extends the empty one keeps every node busy.
proof fn lemma_extended_from_empty(nb: Seq<Node>, n2: Seq<Node>)
    requires
        nodes_extended(Seq::<Node>::empty(), nb),
        nodes_extended(nb, n2),
    ensures
        nodes_extended(Seq::<Node>::empty(), n2),
{
    assert forall|m: int| 0 <= m < n2.len() implies (#[trigger] n2[m]).jobs@.len() > 0 by {
        if m < nb.len() {
            assert(nb[m].jobs@.len() > 0);
        }
    }
}

/// The nodes of `nodes` keep their lists in front, and every node added
/// after them hosts a task.
pub open spec fn nodes_extended(nodes: Seq<Node>, nodes2: Seq<Node>) -> bool {
    &&& nodes.len() <= nodes2.len()
    &&& forall|m: int| 0 <= m < nodes.len() ==> (#[trigger] nodes2[m]).jobs@.len() >= nodes[m].jobs@.len()
        && nodes2[m].jobs@.take(nodes[m].jobs@.len() as int) == nodes[m].jobs@
    &&& forall|m: int| nodes.len() <= m < nodes2.len() ==> (#[trigger] nodes2[m]).jobs@.len() > 0
}

proof fn lemma_extend_step(n0: Seq<Node>, nb: Seq<Node>, n2: Seq<Node>, n: int, x: (u64, u32), cpu: int)
    requires
        nodes_extended(n0, nb),
        placed_on(nb, n2, n, x, cpu),
    ensures
        nodes_extended(n0, n2),
{
    assert forall|m: int| 0 <= m < n0.len() implies (#[trigger] n2[m]).jobs@.len() >= n0[m].jobs@.len()
        && n2[m].jobs@.take(n0[m].jobs@.len() as int) == n0[m].jobs@ by {
        if m == n {
            assert(nb[m].jobs@.take(n0[m].jobs@.len() as int) == n0[m].jobs@);
            assert(n2[m].jobs@.take(n0[m].jobs@.len() as int) =~= nb[m].jobs@.take(n0[m].jobs@.len() as int));
        } else {
            assert(n2[m] == nb[m]);
        }
    }
    assert forall|m: int| n0.len() <= m < n2.len() implies (#[trigger] n2[m]).jobs@.len() > 0 by {
        if m != n && m < nb.len() {
            assert(n2[m] == nb[m]);
        }
    }
}

/// CPU requested by each active job.
pub open spec fn cpu_terms(a: Seq<Active>) -> Seq<int> {
    a.map_values(|e: Active| seq_sum(cpu_of(e.job.tasks())))
}

/// State size of each active job.
pub open spec fn state_terms(a: Seq<Active>) -> Seq<int> {
    a.map_values(|e: Active| seq_sum(state_of(e.job.tasks())))
}

/// Argument size of each active job.
pub open spec fn arg_terms(a: Seq<Active>) -> Seq<int> {
    a.map_values(|e: Active| seq_sum(arg_of(e.job.links())))
}

/// The argument size of edge `k` if its two tasks sit on different nodes,
/// else 0.
pub open spec fn cross_term(e: Active, k: int) -> int {
    let l = e.job.links()[k];
    if e.placement@[l.0 as int] != e.placement@[l.1 as int] {
        l.2.arg_size as int
    } else {
        0
    }
}

pub open spec fn cross_terms(e: Active) -> Seq<int> {
    Seq::new(e.job.links().len(), |k: int| cross_term(e, k))
}

/// Cross-node traffic of each active job.
pub open spec fn traffic_terms(a: Seq<Active>) -> Seq<int> {
    a.map_values(|e: Active| seq_sum(cross_terms(e)))
}

/// 1 for each node that hosts a task, 0 for the others.
pub open spec fn busy_terms(nodes: Seq<Node>) -> Seq<int> {
    nodes.map_values(|nd: Node| if nd.jobs@.len() > 0 { 1int } else { 0int })
}

/// Every task of every entry is placed.
pub open spec fn all_placed(a: Seq<Active>) -> bool {
    forall|i: int| 0 <= i < a.len() ==> (#[trigger] a[i]).placement@.len() == a[i].job.tasks().len()
}

/// No task of any entry is placed.
pub open spec fn none_placed(a: Seq<Active>) -> bool {
    forall|i: int| 0 <= i < a.len() ==> (#[trigger] a[i]).placement@.len() == 0
}

/// Bounds on `i + 1` words of `usize::MAX`, for sums over a `Vec`.
pub(crate) proof fn lemma_word_products(i: int)
    requires
        0 <= i,
        i + 1 <= usize::MAX,
    ensures
        (i + 1) * (usize::MAX as int) == i * (usize::MAX as int) + usize::MAX,
        (i + 1) * (usize::MAX as int) <= (usize::MAX as int) * (usize::MAX as int),
        (usize::MAX as int) * (usize::MAX as int) + usize::MAX <= u128::MAX,
{
    assert((i + 1) * (usize::MAX as int) == i * (usize::MAX as int) + usize::MAX) by (nonlinear_arith);
    assert((i + 1) * (usize::MAX as int) <= (usize::MAX as int) * (usize::MAX as int)) by (nonlinear_arith)
        requires
            i + 1 <= usize::MAX,
    ;
    assert((usize::MAX as int) * (usize::MAX as int) + usize::MAX <= u128::MAX) by (nonlinear_arith)
        requires
            usize::MAX <= u64::MAX,
    ;
}

/// Sums of CPU requests, state sizes and argument sizes over the active
/// jobs.
pub(crate) fn job_totals(active: &Vec<Active>) -> (r: (u128, u128, u128))
    requires
        forall|i: int| 0 <= i < active.len() ==> (#[trigger] active@[i]).job.wf(),
    ensures
        r.0 == seq_sum(cpu_terms(active@)),
        r.1 == seq_sum(state_terms(active@)),
        r.2 == seq_sum(arg_terms(active@)),
        r.0 <= active.len() * (usize::MAX as int),
{
    let ghost cs = cpu_terms(active@);
    let ghost ss = state_terms(active@);
    let ghost gs = arg_terms(active@);
    let mut cpu: u128 = 0;
    let mut state: u128 = 0;
    let mut args: u128 = 0;
    let mut i: usize = 0;
    while i < active.len()
        invariant
            i <= active.len(),
            forall|k: int| 0 <= k < active.len() ==> (#[trigger] active@[k]).job.wf(),
            cs == cpu_terms(active@),
            ss == state_terms(active@),
            gs == arg_terms(active@),
            cpu == seq_sum(cs.take(i as int)),
            state == seq_sum(ss.take(i as int)),
            args == seq_sum(gs.take(i as int)),
            cpu <= i * (usize::MAX as int),
            state <= i * (usize::MAX as int),
            args <= i * (usize::MAX as int),
        decreases active.len() - i,
    {
        proof {
            lemma_sum_take(cs, i as int);
            lemma_sum_take(ss, i as int);
            lemma_sum_take(gs, i as int);
            lemma_word_products(i as int);
        }
        let c = active[i].job.total_cpu();
        let st = active[i].job.total_state_size();
        let g = active[i].job.total_arg_size();
        cpu = cpu + c as u128;
        state = state + st as u128;
        args = args + g as u128;
        i = i + 1;
    }
    assert(cs.take(i as int) =~= cs);
    assert(ss.take(i as int) =~= ss);
    assert(gs.take(i as int) =~= gs);
    (cpu, state, args)
}

/// Sum of the argument sizes of the edges of a job whose two tasks sit on
/// different nodes.
pub(crate) fn cross_traffic(e: &Active) -> (r: usize)
    requires
        e.job.wf(),
        e.placement@.len() == e.job.tasks().len(),
    ensures
        r == seq_sum(cross_terms(*e)),
{
    let ghost cts = cross_terms(*e);
    let ghost ags = arg_of(e.job.links());
    let n = e.job.edge_count();
    let mut acc: usize = 0;
    let mut k: usize = 0;
    while k < n
        invariant
            e.job.wf(),
            e.placement@.len() == e.job.tasks().len(),
            n == e.job.links().len(),
            cts == cross_terms(*e),
            ags == arg_of(e.job.links()),
            k <= n,
            acc == seq_sum(cts.take(k as int)),
            acc <= seq_sum(ags.take(k as int)),
        decreases n - k,
    {
        proof {
            lemma_sum_take(cts, k as int);
            lemma_sum_take(ags, k as int);
            lemma_sum_prefix_le(ags, k + 1);
        }
        let (u, v, w) = e.job.link(k);
        if e.placement[u as usize] != e.placement[v as usize] {
            acc = acc + w.arg_size;
        }
        k = k + 1;
    }
    assert(cts.take(k as int) =~= cts);
    acc
}

/// Cross-node traffic summed over the active jobs.
pub(crate) fn total_cross_traffic(active: &Vec<Active>) -> (r: u128)
    requires
        forall|i: int| 0 <= i < active.len() ==> (#[trigger] active@[i]).job.wf(),
        all_placed(active@),
    ensures
        r == seq_sum(traffic_terms(active@)),
{
    let ghost ts = traffic_terms(active@);
    let mut acc: u128 = 0;
    let mut i: usize = 0;
    while i < active.len()
        invariant
            i <= active.len(),
            forall|k: int| 0 <= k < active.len() ==> (#[trigger] active@[k]).job.wf(),
            all_placed(active@),
            ts == traffic_terms(active@),
            acc == seq_sum(ts.take(i as int)),
            acc <= i * (usize::MAX as int),
        decreases active.len() - i,
    {
        proof {
            lemma_sum_take(ts, i as int);
            lemma_word_products(i as int);
        }
        let c = cross_traffic(&active[i]);
        acc = acc + c as u128;
        i = i + 1;
    }
    assert(ts.take(i as int) =~= ts);
    acc
}

/// Number of nodes that host a task.
pub(crate) fn busy_count(nodes: &Vec<Node>) -> (r: usize)
    ensures
        r == seq_sum(busy_terms(nodes@)),
{
    let ghost bs = busy_terms(nodes@);
    let mut acc: usize = 0;
    let mut i: usize = 0;
    while i < nodes.len()
        invariant
            i <= nodes.len(),
            bs == busy_terms(nodes@),
            acc == seq_sum(bs.take(i as int)),
            acc <= i,
        decreases nodes.len() - i,
    {
        proof {
            lemma_sum_take(bs, i as int);
        }
        if nodes[i].is_active() {
            acc = acc + 1;
        }
        i = i + 1;
    }
    assert(bs.take(i as int) =~= bs);
    acc
}

/// Removes the job of ID `job_id`, if active, with its tasks from their
/// nodes.
pub(crate) fn deallocate(active: &mut Vec<Active>, nodes: &mut Vec<Node>, cap: usize, job_id: u64)
    requires
        placement_ok(old(active)@, old(nodes)@, cap as int),
        exists|i: int| 0 <= i < old(active).len() && (#[trigger] old(active)@[i]).id == job_id,
    ensures
        placement_ok(final(active)@, final(nodes)@, cap as int),
        final(nodes).len() == old(nodes).len(),
        forall|i: int| 0 <= i < old(active).len() && (#[trigger] old(active)@[i]).id == job_id
            ==> final(active)@ == old(active)@.remove(i),
{
    let ghost a0 = active@;
    let mut i: usize = 0;
    while i < active.len() && active[i].id != job_id
        invariant
            i <= active.len(),
            forall|k: int| 0 <= k < i ==> (#[trigger] active@[k]).id != job_id,
        decreases active.len() - i,
    {
        i = i + 1;
    }
    proof {
        if i == active.len() {
            let j = choose|j: int| 0 <= j < a0.len() && (#[trigger] a0[j]).id == job_id;
            assert(active@[j].id != job_id);
        }
    }
    while active[i].placement.len() > 0
        invariant
            placement_ok(active@, nodes@, cap as int),
            i < active.len(),
            active.len() == a0.len(),
            nodes.len() == old(nodes).len(),
            forall|j: int| 0 <= j < a0.len() && j != i ==> #[trigger] active@[j] == a0[j],
            active@[i as int].id == job_id,
            active@[i as int].id == a0[i as int].id,
            active@[i as int].job == a0[i as int].job,
        decreases active@[i as int].placement@.len(),
    {
        unplace_last(active, nodes, cap, i);
    }
    proof {
        lemma_drop_entry(active@, nodes@, cap as int, i as int);
    }
    let ghost before = active@;
    active.remove(i);
    proof {
        assert forall|j: int| 0 <= j < a0.len() && (#[trigger] a0[j]).id == job_id implies active@
            == a0.remove(j) by {
            assert(ids_increasing(a0)) by {
                assert forall|p: int, q: int| 0 <= p < q < a0.len() implies (#[trigger] a0[p]).id < (
                #[trigger] a0[q]).id by {
                    if p != i && q != i {
                        assert(before[p].id < before[q].id);
                    } else {
                        assert(before[p].id < before[q].id);
                    }
                }
            }
            lemma_ids_unique(a0, i as int, j);
            assert(active@ =~= a0.remove(j));
        }
    }
}

/// 1 for each task whose node differs between `old` and `e`'s placement.
pub open spec fn move_count_terms(old: Seq<usize>, e: Active) -> Seq<int> {
    Seq::new(e.job.tasks().len(), |t: int| if old[t] != e.placement@[t] { 1int } else { 0int })
}

/// The state size of each task whose node differs between `old` and `e`'s
/// placement, else 0.
pub open spec fn move_state_terms(old: Seq<usize>, e: Active) -> Seq<int> {
    Seq::new(
        e.job.tasks().len(),
        |t: int|
            if old[t] != e.placement@[t] {
                e.job.tasks()[t].state_size as int
            } else {
                0int
            },
    )
}

/// Number of tasks that moved, over the entries.
pub open spec fn migration_count(olds: Seq<Seq<usize>>, a: Seq<Active>) -> int {
    seq_sum(Seq::new(a.len(), |i: int| seq_sum(move_count_terms(olds[i], a[i]))))
}

/// State moved, over the entries.
pub open spec fn migration_traffic(olds: Seq<Seq<usize>>, a: Seq<Active>) -> int {
    seq_sum(Seq::new(a.len(), |i: int| seq_sum(move_state_terms(olds[i], a[i]))))
}

/// The placement of each entry.
pub open spec fn placements(a: Seq<Active>) -> Seq<Seq<usize>> {
    a.map_values(|e: Active| e.placement@)
}

/// State moved and number of tasks moved for one job.
pub(crate) fn job_moves(old: &Vec<usize>, e: &Active) -> (r: (usize, usize))
    requires
        e.job.wf(),
        old.len() == e.job.tasks().len(),
        e.placement@.len() == e.job.tasks().len(),
    ensures
        r.0 == seq_sum(move_state_terms(old@, *e)),
        r.1 == seq_sum(move_count_terms(old@, *e)),
{
    let ghost ms = move_state_terms(old@, *e);
    let ghost mc = move_count_terms(old@, *e);
    let ghost ss = state_of(e.job.tasks());
    let n = e.job.node_count();
    let mut traffic: usize = 0;
    let mut count: usize = 0;
    let mut t: usize = 0;
    while t < n
        invariant
            e.job.wf(),
            n == e.job.tasks().len(),
            old.len() == n,
            e.placement@.len() == n,
            ms == move_state_terms(old@, *e),
            mc == move_count_terms(old@, *e),
            ss == state_of(e.job.tasks()),
            t <= n,
            traffic == seq_sum(ms.take(t as int)),
            traffic <= seq_sum(ss.take(t as int)),
            count == seq_sum(mc.take(t as int)),
            count <= t,
        decreases n - t,
    {
        proof {
            lemma_sum_take(ms, t as int);
            lemma_sum_take(mc, t as int);
            lemma_sum_take(ss, t as int);
            lemma_sum_prefix_le(ss, t + 1);
        }
        if old[t] != e.placement[t] {
            let v = e.job.task(t);
            traffic = traffic + v.state_size;
            count = count + 1;
        }
        t = t + 1;
    }
    assert(ms.take(t as int) =~= ms);
    assert(mc.take(t as int) =~= mc);
    (traffic, count)
}

/// Re-places every active job from scratch, in table order, on an empty
/// node table (best fit only; the other policies leave the placement as it
/// is). Returns the state moved and the number of tasks whose node changed.
pub(crate) fn defragment(
    active: &mut Vec<Active>,
    nodes: &mut Vec<Node>,
    cap: usize,
    rng: &mut StdRng,
    policy: Policy,
) -> (r: (u128, u128))
    requires
        placement_ok(old(active)@, old(nodes)@, cap as int),
        policy.is_stateful() ==> all_placed(old(active)@) && tasks_fit(old(active)@, cap as int),
    ensures
        placement_ok(final(active)@, final(nodes)@, cap as int),
        final(active).len() == old(active).len(),
        forall|i: int| 0 <= i < old(active).len() ==> (#[trigger] final(active)@[i]).id == old(active)@[i].id
            && final(active)@[i].job == old(active)@[i].job,
        policy.is_stateful() ==> all_placed(final(active)@) && tasks_fit(final(active)@, cap as int),
        policy != Policy::StatefulBestFit ==> final(active)@ == old(active)@ && final(nodes)@ == old(nodes)@
            && r == (0u128, 0u128),
        policy == Policy::StatefulBestFit
            ==> r.0 == migration_traffic(placements(old(active)@), final(active)@)
            && r.1 == migration_count(placements(old(active)@), final(active)@),
        policy == Policy::StatefulBestFit ==> exists|hs: Seq<Seq<Seq<Node>>>|
            #[trigger] rebuilt(cap as int, final(active)@, hs, final(nodes)@),
        policy == Policy::StatefulBestFit ==> forall|m: int|
            0 <= m < final(nodes).len() ==> (#[trigger] final(nodes)@[m]).jobs@.len() > 0,
{
    match policy {
        Policy::StatefulBestFit => {},
        _ => {
            return (0, 0);
        },
    }
    let ghost a0 = active@;
    let ghost olds_spec = placements(a0);
    let mut olds: Vec<Vec<usize>> = Vec::new();
    let mut fresh: Vec<Active> = Vec::new();
    while active.len() > 0
        invariant
            fresh.len() + active.len() == a0.len(),
            active@ == a0.skip(fresh.len() as int),
            olds.len() == fresh.len(),
            forall|k: int| 0 <= k < fresh.len() ==> (#[trigger] fresh@[k]).id == a0[k].id
                && fresh@[k].job == a0[k].job && fresh@[k].placement@.len() == 0,
            forall|k: int| 0 <= k < olds.len() ==> (#[trigger] olds@[k])@ == a0[k].placement@,
        decreases active.len(),
    {
        let ghost k = fresh.len() as int;
        let e = active.remove(0);
        assert(e == a0[k]);
        assert(active@ =~= a0.skip(k + 1));
        let Active { id, job, placement } = e;
        olds.push(placement);
        fresh.push(Active { id, job, placement: Vec::new() });
    }
    *active = fresh;
    *nodes = Vec::new();
    proof {
        assert(ids_increasing(active@)) by {
            assert forall|p: int, q: int| 0 <= p < q < active@.len() implies (#[trigger] active@[p]).id < (
            #[trigger] active@[q]).id by {
                assert(a0[p].id < a0[q].id);
            }
        }
        assert forall|i: int| 0 <= i < active@.len() implies (#[trigger] active@[i]).job.wf() by {
            assert(a0[i].job.wf());
        }
        assert(placement_ok(active@, nodes@, cap as int));
    }
    let ghost mut hs: Seq<Seq<Seq<Node>>> = Seq::empty();
    let mut i: usize = 0;
    while i < active.len()
        invariant
            placement_ok(active@, nodes@, cap as int),
            active.len() == a0.len(),
            policy == Policy::StatefulBestFit,
            hs.len() == i,
            forall|k: int| 0 <= k < i ==> placement_trace(policy, cap as int, active@[k], 0, #[trigger] hs[k]),
            forall|k: int| 0 <= k < i ==> (#[trigger] hs[k])[0] == if k == 0 {
                Seq::<Node>::empty()
            } else {
                hs[k - 1].last()
            },
            i == 0 ==> nodes@.len() == 0,
            i > 0 ==> hs[i - 1].last() == nodes@,
            nodes_extended(Seq::<Node>::empty(), nodes@),
            olds.len() == a0.len(),
            forall|k: int| 0 <= k < olds.len() ==> (#[trigger] olds@[k])@ == a0[k].placement@,
            all_placed(a0),
            tasks_fit(a0, cap as int),
            i <= active.len(),
            forall|k: int| 0 <= k < a0.len() ==> (#[trigger] active@[k]).id == a0[k].id
                && active@[k].job == a0[k].job,
            forall|k: int| 0 <= k < i
                ==> (#[trigger] active@[k]).placement@.len() == active@[k].job.tasks().len(),
            forall|k: int| i <= k < a0.len() ==> (#[trigger] active@[k]).placement@.len() == 0,
        decreases active.len() - i,
    {
        proof {
            assert forall|j: int, t: int| 0 <= j < active.len()
                && 0 <= t < active@[j].job.tasks().len()
                implies (#[trigger] active@[j].job.tasks()[t]).cpu_request <= cap by {
                assert(active@[j].job == a0[j].job);
                assert(a0[j].job.tasks()[t].cpu_request <= cap);
            }
        }
        let ghost nb = nodes@;
        let ghost ab = active@;
        let tr = allocate(active, nodes, cap, rng, policy, i);
        proof {
            assert forall|k: int| 0 <= k < i implies placement_trace(policy, cap as int, active@[k], 0, #[trigger] hs[k]) by {
                assert(active@[k] == ab[k]);
            }
            lemma_extended_from_empty(nb, nodes@);
            hs = hs.push(tr@);
            assert(nb.len() == 0 || nb == hs[i as int - 1].last());
        }
        i = i + 1;
    }
    proof {
        assert(rebuilt(cap as int, active@, hs, nodes@));
    }
    let ghost a1 = active@;
    let ghost cnt_terms = Seq::new(a1.len(), |k: int| seq_sum(move_count_terms(olds_spec[k], a1[k])));
    let ghost st_terms = Seq::new(a1.len(), |k: int| seq_sum(move_state_terms(olds_spec[k], a1[k])));
    let mut traffic: u128 = 0;
    let mut count: u128 = 0;
    let mut i: usize = 0;
    while i < active.len()
        invariant
            active@ == a1,
            a1.len() == a0.len(),
            olds.len() == a0.len(),
            olds_spec == placements(a0),
            all_placed(a0),
            all_placed(a1),
            forall|k: int| 0 <= k < a0.len() ==> (#[trigger] a1[k]).id == a0[k].id
                && a1[k].job == a0[k].job && a1[k].job.wf(),
            forall|k: int| 0 <= k < olds.len() ==> (#[trigger] olds@[k])@ == a0[k].placement@,
            cnt_terms == Seq::new(a1.len(), |k: int| seq_sum(move_count_terms(olds_spec[k], a1[k]))),
            st_terms == Seq::new(a1.len(), |k: int| seq_sum(move_state_terms(olds_spec[k], a1[k]))),
            i <= a1.len(),
            traffic == seq_sum(st_terms.take(i as int)),
            count == seq_sum(cnt_terms.take(i as int)),
            traffic <= i * (usize::MAX as int),
            count <= i * (usize::MAX as int),
        decreases a1.len() - i,
    {
        proof {
            lemma_sum_take(st_terms, i as int);
            lemma_sum_take(cnt_terms, i as int);
            assert(olds_spec[i as int] == a0[i as int].placement@);
            lemma_word_products(i as int);
        }
        let (tr, c) = job_moves(&olds[i], &active[i]);
        traffic = traffic + tr as u128;
        count = count + c as u128;
        i = i + 1;
    }
    assert(st_terms.take(i as int) =~= st_terms);
    assert(cnt_terms.take(i as int) =~= cnt_terms);
    proof {
        assert forall|j: int, t: int| 0 <= j < active.len()
            && 0 <= t < active@[j].job.tasks().len()
            implies (#[trigger] active@[j].job.tasks()[t]).cpu_request <= cap by {
            assert(a0[j].job.tasks()[t].cpu_request <= cap);
        }
    }
    (traffic, count)
}

} // verus!
