//! Random job DAGs drawn from empirical distributions.

use vstd::prelude::*;
use rand::rngs::StdRng;
use rand::seq::SliceRandom;
use crate::job::{
    Edge, Job, Vertex, MAX_TASKS, seq_sum, cpu_of, state_of, arg_of, merge_links, links_in_range,
    lemma_merge_links, lemma_sum_bounded,
};
use crate::rv_histo::{
    HistoError, IntHisto, IntTable, MemHisto, MemTable, seeded_rng, table_error,
};

verus! {

/// Number of critical-path-length tables, for 2 to 35 tasks.
pub const CPL_TABLES: usize = 34;

/// Number of level tables, for a critical path of 1 to 20 tasks.
pub const LEVEL_TABLES: usize = 20;

/// Largest CPU request, state size or argument size a table may hold.
pub const SIZE_LIMIT: usize = usize::MAX / 2097152;

/// How many times a sibling task's level is drawn before giving up.
pub const MAX_LEVEL_DRAWS: u32 = 1000000;

/// Distance between the seeds of two consecutive generators.
pub const SEED_STEP: u64 = 1000000;

/// Relies on rand's `SliceRandom::choose_multiple`: `min(amount, len)`
/// elements of `items`, at distinct positions.
#[verifier::external_body]
fn choose_targets(rng: &mut StdRng, items: &Vec<usize>, amount: usize) -> (r: Vec<usize>)
    ensures
        r.len() == if amount < items.len() { amount } else { items.len() },
        forall|k: int| 0 <= k < r.len() ==> items@.contains(#[trigger] r@[k]),
{
    items.choose_multiple(rng, amount).cloned().collect()
}

/// The tables a factory draws from, their values already in task units.
pub struct WorkloadTables {
    /// Number of tasks of a job.
    pub task_num: IntTable,
    /// Critical path length, for 2 to 35 tasks (the last for 35 and more).
    pub cpl: Vec<IntTable>,
    /// Level of a sibling task, for a critical path of 1 to 20 tasks (the
    /// last for 20 and more).
    pub level: Vec<IntTable>,
    /// CPU request of a task.
    pub task_cpu: IntTable,
    /// State size and argument size.
    pub task_mem: MemTable,
}

/// Which table was refused.
#[derive(Debug, Clone, Copy, PartialEq, Eq, Structural)]
pub enum TableKind {
    TaskNum,
    Cpl,
    Level,
    TaskCpu,
    TaskMem,
}

/// Why a factory cannot be built.
#[derive(Debug, Clone, Copy, PartialEq, Eq, Structural)]
pub enum FactoryError {
    /// There are not `CPL_TABLES` critical-path tables and `LEVEL_TABLES`
    /// level tables.
    TableCount,
    /// A table is refused; for `Cpl` and `Level` the index is the table's
    /// position in its list.
    Table(TableKind, usize, HistoError),
}

/// Why a job could not be made.
#[derive(Debug, Clone, Copy, PartialEq, Eq, Structural)]
pub enum MakeError {
    /// No level within the critical path came out of `MAX_LEVEL_DRAWS` draws.
    LevelNotDrawn,
    /// A task count of 0 was drawn.
    NoTasks,
    /// A task count above `MAX_TASKS` was drawn.
    TooManyTasks,
    /// A critical path length of 0 was drawn.
    ZeroPathLength,
    /// A level of 0 was drawn (levels count from 1).
    ZeroLevel,
}

/// Whether the tables give a factory.
pub open spec fn tables_ok(t: WorkloadTables) -> bool {
    &&& t.cpl.len() == CPL_TABLES
    &&& t.level.len() == LEVEL_TABLES
    &&& table_error(t.task_num.weights@, t.task_num.values@, 0, usize::MAX as int) is None
    &&& forall|i: int| 0 <= i < CPL_TABLES ==> table_error(
        #[trigger] t.cpl@[i].weights@,
        t.cpl@[i].values@,
        0,
        usize::MAX as int,
    ) is None
    &&& forall|i: int| 0 <= i < LEVEL_TABLES ==> table_error(
        #[trigger] t.level@[i].weights@,
        t.level@[i].values@,
        0,
        usize::MAX as int,
    ) is None
    &&& table_error(t.task_cpu.weights@, t.task_cpu.values@, 0, SIZE_LIMIT as int) is None
    &&& table_error(t.task_mem.weights@, t.task_mem.state_sizes@, 0, SIZE_LIMIT as int) is None
    &&& table_error(t.task_mem.weights@, t.task_mem.arg_sizes@, 0, SIZE_LIMIT as int) is None
}

/// Every task count, path length and level the tables can give is one that
/// `make` accepts at once: counts in `1..=MAX_TASKS`, path lengths from 1,
/// and each level table `k` within `1..=k + 1`.
pub open spec fn tables_draw_valid(t: WorkloadTables) -> bool {
    &&& crate::rv_histo::values_within(t.task_num.values@, 1, MAX_TASKS as int)
    &&& forall|k: int| 0 <= k < CPL_TABLES ==> crate::rv_histo::values_within(
        #[trigger] t.cpl@[k].values@,
        1,
        usize::MAX as int,
    )
    &&& forall|k: int| 0 <= k < LEVEL_TABLES ==> crate::rv_histo::values_within(
        #[trigger] t.level@[k].values@,
        1,
        k + 1,
    )
}

/// Table `i` of kind `kind` gets error `e`.
pub open spec fn table_refused(t: WorkloadTables, kind: TableKind, i: int, e: HistoError) -> bool {
    match kind {
        TableKind::TaskNum => table_error(t.task_num.weights@, t.task_num.values@, 0, usize::MAX as int)
            == Some(e),
        TableKind::Cpl => 0 <= i < t.cpl.len() && table_error(
            t.cpl@[i].weights@,
            t.cpl@[i].values@,
            0,
            usize::MAX as int,
        ) == Some(e),
        TableKind::Level => 0 <= i < t.level.len() && table_error(
            t.level@[i].weights@,
            t.level@[i].values@,
            0,
            usize::MAX as int,
        ) == Some(e),
        TableKind::TaskCpu => table_error(t.task_cpu.weights@, t.task_cpu.values@, 0, SIZE_LIMIT as int)
            == Some(e),
        TableKind::TaskMem => table_error(t.task_mem.weights@, t.task_mem.state_sizes@, 0, SIZE_LIMIT as int)
            == Some(e) || table_error(t.task_mem.weights@, t.task_mem.arg_sizes@, 0, SIZE_LIMIT as int)
            == Some(e),
    }
}

/// Every edge goes from one level to the next, for some assignment of
/// levels to the `n` tasks: the graph is acyclic.
pub open spec fn leveled(links: Seq<(u32, u32, Edge)>, n: nat) -> bool {
    exists|lv: Seq<int>|
        lv.len() == n && forall|i: int|
            0 <= i < links.len() ==> lv[(#[trigger] links[i]).0 as int] + 1 == lv[links[i].1 as int]
}

/// Some edge goes from task `a` to task `b`.
pub open spec fn has_link(links: Seq<(u32, u32, Edge)>, a: u32, b: u32) -> bool {
    exists|e: int| 0 <= e < links.len() && (#[trigger] links[e]).0 == a && links[e].1 == b
}

/// The shape of a made DAG of `n` tasks with critical path length `cpl` and
/// 0-based levels `lv`: tasks `0..cpl` form the chain, one per level, with
/// an edge from each to the next; every task lies on a level of the chain;
/// every edge goes from one level to the next.
pub open spec fn dag_shape(links: Seq<(u32, u32, Edge)>, n: int, cpl: int, lv: Seq<int>) -> bool {
    &&& 1 <= cpl <= n
    &&& lv.len() == n
    &&& forall|t: int| 0 <= t < cpl ==> #[trigger] lv[t] == t
    &&& forall|t: int| 0 <= t < n ==> 0 <= #[trigger] lv[t] < cpl
    &&& forall|e: int| 0 <= e < links.len() ==> lv[(#[trigger] links[e]).0 as int] + 1 == lv[links[e].1 as int]
    &&& forall|i: int| 0 <= i < cpl - 1 ==> #[trigger] has_link(links, i as u32, (i + 1) as u32)
}

/// The path length and the levels came from the factory's tables: the path
/// length from the table for `min(n, 35)` tasks (capped at `n`), each
/// sibling's level from the table for a path of `min(cpl, 20)`.
pub open spec fn drawn_from(f: JobFactory, n: int, cpl: int, lv: Seq<int>) -> bool {
    &&& path_drawn(f, n, cpl)
    &&& forall|t: int| cpl <= t < n ==> f.level_values((if cpl < 20 { cpl } else { 20 }) - 1).contains(
        (#[trigger] lv[t] + 1) as usize,
    )
}

/// The path length came from the table for `min(n, 35)` tasks, capped at
/// `n`; a single task is its own path.
pub open spec fn path_drawn(f: JobFactory, n: int, cpl: int) -> bool {
    &&& n == 1 ==> cpl == 1
    &&& n > 1 ==> exists|v: usize| #[trigger] f.cpl_values(cpl_table(n)).contains(v)
        && cpl == if (v as int) < n { v as int } else { n }
}

/// The path-length table for `n` tasks.
pub open spec fn cpl_table(n: int) -> int {
    (if n < 35 { n } else { 35 }) - 2
}

/// What a job made by `f` is: well formed, with 1 to `MAX_TASKS` tasks and
/// every value drawn from `f`'s tables; its edges join adjacent levels, with
/// the critical path `0..cpl` as a chain from task 0, which no edge enters.
pub open spec fn made_by(f: JobFactory, job: Job) -> bool {
    let n = job.tasks().len();
    &&& job.wf()
    &&& 1 <= n <= MAX_TASKS
    &&& f.num_values().contains(n as usize)
    &&& forall|t: int|
        0 <= t < n ==> f.cpu_values().contains(
            (#[trigger] job.tasks()[t]).cpu_request,
        ) && f.state_values().contains(job.tasks()[t].state_size)
    &&& forall|e: int|
        0 <= e < job.links().len() ==> f.arg_values().contains(
            (#[trigger] job.links()[e]).2.arg_size,
        )
    &&& links_in_range(job.links(), n)
    &&& leveled(job.links(), n)
    &&& n == 1 ==> job.links().len() == 0
    &&& forall|e: int| 0 <= e < job.links().len() ==> (#[trigger] job.links()[e]).1 != 0
    &&& exists|cpl: int, lv: Seq<int>| #[trigger] dag_shape(job.links(), n as int, cpl, lv)
        && drawn_from(f, n as int, cpl, lv)
}

/// Tasks of level below `l` in (level, index) order, then tasks below `t`
/// of level `l` in index order.
pub open spec fn visit(lv: Seq<usize>, l: int, t: int) -> Seq<int>
    decreases l, t,
{
    if t > 0 && t <= lv.len() {
        visit(lv, l, t - 1) + if lv[t - 1] == l {
            seq![t - 1]
        } else {
            Seq::<int>::empty()
        }
    } else if l > 0 {
        visit(lv, l - 1, lv.len() as int)
    } else {
        Seq::empty()
    }
}

/// The edge each task of `s` picked, in the order of `s`: task `x` with
/// `picks[x] == Some((o, a))` gives the edge `(x, o)` of argument size `a`.
pub open spec fn picked_edges(picks: Seq<Option<(usize, usize)>>, s: Seq<int>) -> Seq<(u32, u32, Edge)>
    decreases s.len(),
{
    if s.len() == 0 {
        Seq::empty()
    } else {
        picked_edges(picks, s.drop_last()) + match picks[s.last()] {
            Some(p) => seq![(s.last() as u32, p.0 as u32, Edge { arg_size: p.1 })],
            None => Seq::<(u32, u32, Edge)>::empty(),
        }
    }
}

/// The edges of a job with path length `cpl`, levels `lv`, chain argument
/// sizes `chain_args` and picked edges `picks`: first the chain
/// `(i, i + 1)`, then the picked edges level by level, each level in task
/// order.
pub open spec fn dag_edges(
    cpl: int,
    lv: Seq<usize>,
    chain_args: Seq<usize>,
    picks: Seq<Option<(usize, usize)>>,
) -> Seq<(u32, u32, Edge)> {
    Seq::new((cpl - 1) as nat, |i: int| (i as u32, (i + 1) as u32, Edge { arg_size: chain_args[i] }))
        + picked_edges(picks, visit(lv, cpl - 1, 0))
}

/// Builds a job from its drawn values: tasks `vertices` on levels
/// `level_of`, a critical path of `cpl` tasks whose edges carry
/// `chain_args`, and for each task the edge it picked, if any. The edges
/// are `dag_edges`: the chain first, then the picked edges level by level.
pub fn build_job(
    vertices: Vec<Vertex>,
    cpl: usize,
    level_of: Vec<usize>,
    chain_args: Vec<usize>,
    picks: Vec<Option<(usize, usize)>>,
) -> (r: Job)
    requires
        1 <= cpl <= vertices.len() <= MAX_TASKS,
        level_of.len() == vertices.len(),
        picks.len() == vertices.len(),
        chain_args.len() == cpl - 1,
        forall|t: int| 0 <= t < vertices.len() ==> (#[trigger] vertices@[t]).cpu_request <= SIZE_LIMIT
            && vertices@[t].state_size <= SIZE_LIMIT,
        forall|i: int| 0 <= i < chain_args.len() ==> #[trigger] chain_args@[i] <= SIZE_LIMIT,
        forall|t: int| 0 <= t < picks.len() && (#[trigger] picks@[t]) is Some ==> picks@[t]->Some_0.0
            < vertices.len() && picks@[t]->Some_0.1 <= SIZE_LIMIT,
    ensures
        r.wf(),
        r.tasks() == vertices@,
        r.links() == merge_links(dag_edges(cpl as int, level_of@, chain_args@, picks@)),
        forall|e: int| 0 <= e < r.links().len() ==> #[trigger] from_draws(r.links()[e], cpl as int,
            chain_args@, picks@),
        forall|i: int| 0 <= i < cpl - 1 ==> #[trigger] has_link(r.links(), i as u32, (i + 1) as u32),
{
    let n = vertices.len();
    let ghost lv = level_of@;
    let mut edges: Vec<(u32, u32, Edge)> = Vec::new();
    let mut i: usize = 0;
    while i + 1 < cpl
        invariant
            1 <= cpl <= n <= MAX_TASKS,
            chain_args.len() == cpl - 1,
            i < cpl,
            edges@ == Seq::new(i as nat, |k: int| (k as u32, (k + 1) as u32, Edge { arg_size: chain_args@[k] })),
            forall|k: int| 0 <= k < chain_args.len() ==> #[trigger] chain_args@[k] <= SIZE_LIMIT,
            forall|e: int| 0 <= e < edges.len() ==> #[trigger] from_draws(edges@[e], cpl as int, chain_args@, picks@),
            forall|e: int| 0 <= e < edges.len() ==> (#[trigger] edges@[e]).0 < n && edges@[e].1 < n
                && edges@[e].2.arg_size <= SIZE_LIMIT,
        decreases cpl - i,
    {
        edges.push((i as u32, (i + 1) as u32, Edge::new(chain_args[i])));
        i = i + 1;
        assert(edges@ =~= Seq::new(i as nat, |k: int| (k as u32, (k + 1) as u32, Edge { arg_size: chain_args@[k] })));
    }
    let ghost chain = edges@;
    assert(chain =~= Seq::new((cpl - 1) as nat, |k: int| (k as u32, (k + 1) as u32, Edge { arg_size: chain_args@[k] })));
    let mut l: usize = 0;
    while l + 1 < cpl
        invariant
            1 <= cpl <= n <= MAX_TASKS,
            l < cpl,
            level_of@ == lv,
            lv.len() == n,
            picks.len() == n,
            edges@ == chain + picked_edges(picks@, visit(lv, l as int, 0)),
            edges.len() <= cpl + l * n,
            chain_args.len() == cpl - 1,
            forall|e: int| 0 <= e < edges.len() ==> #[trigger] from_draws(edges@[e], cpl as int, chain_args@, picks@),
            forall|t: int| 0 <= t < picks.len() && (#[trigger] picks@[t]) is Some ==> picks@[t]->Some_0.0
                < n && picks@[t]->Some_0.1 <= SIZE_LIMIT,
            forall|e: int| 0 <= e < edges.len() ==> (#[trigger] edges@[e]).0 < n && edges@[e].1 < n
                && edges@[e].2.arg_size <= SIZE_LIMIT,
        decreases cpl - l,
    {
        let mut t: usize = 0;
        while t < n
            invariant
                1 <= cpl <= n <= MAX_TASKS,
                l + 1 < cpl,
                t <= n,
                level_of@ == lv,
                lv.len() == n,
                picks.len() == n,
                edges@ == chain + picked_edges(picks@, visit(lv, l as int, t as int)),
                edges.len() <= cpl + l * n + t,
                chain_args.len() == cpl - 1,
                forall|e: int| 0 <= e < edges.len() ==> #[trigger] from_draws(edges@[e], cpl as int, chain_args@, picks@),
                forall|u: int| 0 <= u < picks.len() && (#[trigger] picks@[u]) is Some ==> picks@[u]->Some_0.0
                    < n && picks@[u]->Some_0.1 <= SIZE_LIMIT,
                forall|e: int| 0 <= e < edges.len() ==> (#[trigger] edges@[e]).0 < n && edges@[e].1 < n
                    && edges@[e].2.arg_size <= SIZE_LIMIT,
            decreases n - t,
        {
            let ghost vs = visit(lv, l as int, t as int);
            if level_of[t] == l {
                assert(visit(lv, l as int, t + 1) == vs + seq![t as int]);
                assert((vs + seq![t as int]).drop_last() =~= vs);
                match picks[t] {
                    Some(p) => {
                        edges.push((t as u32, p.0 as u32, Edge::new(p.1)));
                    },
                    None => {},
                }
                assert(edges@ =~= chain + picked_edges(picks@, visit(lv, l as int, t + 1)));
            } else {
                assert(visit(lv, l as int, t + 1) =~= vs);
            }
            t = t + 1;
        }
        assert(visit(lv, l + 1, 0) == visit(lv, l as int, n as int));
        assert(cpl + l * n + n <= cpl + (l + 1) * n) by (nonlinear_arith);
        l = l + 1;
    }
    proof {
        assert(edges@ == dag_edges(cpl as int, lv, chain_args@, picks@));
        let d = edges@;
        assert(l * n <= MAX_TASKS * MAX_TASKS) by (nonlinear_arith)
            requires
                l < cpl <= n <= MAX_TASKS,
        ;
        assert(links_in_range(d, n as nat));
        lemma_merge_links(d, n as nat);
        lemma_merge_members(d);
        let merged = merge_links(d);
        assert forall|e: int| 0 <= e < merged.len() implies 0 <= #[trigger] arg_of(merged)[e] <= SIZE_LIMIT by {
            let k = choose|k: int| 0 <= k < d.len() && d[k] == merged[e];
            assert(d[k].2.arg_size <= SIZE_LIMIT);
        }
        lemma_sum_bounded(arg_of(merged), SIZE_LIMIT as int);
        assert forall|t: int| 0 <= t < n implies 0 <= #[trigger] cpu_of(vertices@)[t] <= SIZE_LIMIT by {
            assert(vertices@[t].cpu_request <= SIZE_LIMIT);
        }
        lemma_sum_bounded(cpu_of(vertices@), SIZE_LIMIT as int);
        assert forall|t: int| 0 <= t < n implies 0 <= #[trigger] state_of(vertices@)[t] <= SIZE_LIMIT by {
            assert(vertices@[t].state_size <= SIZE_LIMIT);
        }
        lemma_sum_bounded(state_of(vertices@), SIZE_LIMIT as int);
        assert((merged.len() as int) * (SIZE_LIMIT as int) <= usize::MAX) by (nonlinear_arith)
            requires
                merged.len() <= 2097152,
                SIZE_LIMIT == usize::MAX / 2097152,
        ;
        assert((n as int) * (SIZE_LIMIT as int) <= usize::MAX) by (nonlinear_arith)
            requires
                n <= 2097152,
                SIZE_LIMIT == usize::MAX / 2097152,
        ;
    }
    let job = Job::new(vertices, edges);
    proof {
        let d = dag_edges(cpl as int, lv, chain_args@, picks@);
        lemma_merge_members(d);
        lemma_merge_pairs(d);
        assert forall|e: int| 0 <= e < job.links().len() implies #[trigger] from_draws(job.links()[e], cpl as int,
            chain_args@, picks@) by {
            let k = choose|k: int| 0 <= k < d.len() && d[k] == job.links()[e];
            assert(from_draws(d[k], cpl as int, chain_args@, picks@));
        }
        assert forall|i: int| 0 <= i < cpl - 1 implies #[trigger] has_link(job.links(), i as u32, (i + 1) as u32) by {
            assert(d[i].0 == i as u32 && d[i].1 == (i + 1) as u32);
            assert(has_link(merge_links(d), d[i].0, d[i].1));
        }
    }
    job
}

/// Task `t`'s pick `p` of an edge: a task of the next level, not its chain
/// successor, with an argument size from the memory table.
pub open spec fn pick_ok(f: JobFactory, lv: Seq<usize>, cpl: int, t: int, p: (usize, usize)) -> bool {
    &&& p.0 < lv.len()
    &&& lv[p.0 as int] == lv[t] + 1
    &&& !(p.0 < cpl && t + 1 == p.0)
    &&& f.arg_values().contains(p.1)
    &&& p.1 <= SIZE_LIMIT
}

/// Link `l` is a chain edge with its argument size from `ca`, or the pick of
/// its source task in `pk`.
pub open spec fn from_draws(l: (u32, u32, Edge), cpl: int, ca: Seq<usize>, pk: Seq<Option<(usize, usize)>>) -> bool {
    ||| (l.0 as int) + 1 == l.1 as int && (l.0 as int) < cpl - 1 && l.2.arg_size == ca[l.0 as int]
    ||| pk[l.0 as int] == Some((l.1 as usize, l.2.arg_size))
}

/// The draws of a job of `n` tasks: chain argument sizes `ca` from the
/// memory table, and each task's pick `pk` as `pick_ok` says.
pub open spec fn draws_fit(f: JobFactory, n: int, cpl: int, lv: Seq<usize>, ca: Seq<usize>,
    pk: Seq<Option<(usize, usize)>>) -> bool {
    &&& lv.len() == n
    &&& ca.len() == cpl - 1
    &&& pk.len() == n
    &&& forall|k: int| 0 <= k < ca.len() ==> f.arg_values().contains(#[trigger] ca[k])
    &&& forall|t: int| 0 <= t < n && (#[trigger] pk[t]) is Some ==> pick_ok(f, lv, cpl, t, pk[t]->Some_0)
}

/// Makes random jobs.
pub struct JobFactory {
    num_rv: IntHisto,
    cpl_rv: Vec<IntHisto>,
    lvl_rv: Vec<IntHisto>,
    cpu_rv: IntHisto,
    mem_rv: MemHisto,
    edge_rng: StdRng,
}

/// A value present in a sequence bounded by `[lo, hi]` lies in `[lo, hi]`.
proof fn lemma_contained_within(s: Seq<usize>, x: usize, lo: int, hi: int)
    requires
        s.contains(x),
        crate::rv_histo::values_within(s, lo, hi),
    ensures
        lo <= x <= hi,
{
    let j = choose|j: int| 0 <= j < s.len() && s[j] == x;
    assert(lo <= s[j] <= hi);
}

/// Every pair of endpoints put has an edge in the merged list.
proof fn lemma_merge_pairs(edges: Seq<(u32, u32, Edge)>)
    ensures
        forall|j: int| 0 <= j < edges.len() ==> #[trigger] has_link(merge_links(edges), edges[j].0, edges[j].1),
    decreases edges.len(),
{
    if edges.len() > 0 {
        let prev = edges.drop_last();
        lemma_merge_pairs(prev);
        let m = merge_links(prev);
        let e = edges.last();
        crate::job::lemma_link_index(m, e.0, e.1);
        let m2 = merge_links(edges);
        let k = crate::job::link_index(m, e.0, e.1);
        assert forall|j: int| 0 <= j < edges.len() implies #[trigger] has_link(m2, edges[j].0, edges[j].1) by {
            if j == edges.len() - 1 {
                if k >= 0 {
                    assert(m2[k] == e);
                } else {
                    assert(m2[m.len() as int] == e);
                }
            } else {
                assert(edges[j] == prev[j]);
                assert(has_link(m, prev[j].0, prev[j].1));
                let p = choose|p: int| 0 <= p < m.len() && (#[trigger] m[p]).0 == prev[j].0 && m[p].1 == prev[j].1;
                assert(m2[p].0 == m[p].0 && m2[p].1 == m[p].1);
            }
        }
    }
}

/// Every edge of a merged list is one of the edges put.
proof fn lemma_merge_members(edges: Seq<(u32, u32, Edge)>)
    ensures
        forall|i: int|
            0 <= i < merge_links(edges).len() ==> edges.contains(#[trigger] merge_links(edges)[i]),
    decreases edges.len(),
{
    if edges.len() > 0 {
        let prev = edges.drop_last();
        lemma_merge_members(prev);
        let m = merge_links(prev);
        let e = edges.last();
        crate::job::lemma_link_index(m, e.0, e.1);
        assert forall|i: int| 0 <= i < merge_links(edges).len() implies edges.contains(
            #[trigger] merge_links(edges)[i],
        ) by {
            let x = merge_links(edges)[i];
            if x == e {
                assert(edges[edges.len() - 1] == e);
            } else {
                assert(x == m[i]);
                assert(prev.contains(x));
                let j = choose|j: int| 0 <= j < prev.len() && prev[j] == x;
                assert(edges[j] == x);
            }
        }
    }
}

/// The tasks of level `l`, by index.
fn tasks_at_level(level_of: &Vec<usize>, l: usize) -> (r: Vec<usize>)
    ensures
        r.len() <= level_of.len(),
        forall|k: int|
            0 <= k < r.len() ==> #[trigger] r@[k] < level_of.len() && level_of@[r@[k] as int] == l,
        l < level_of.len() && level_of@[l as int] == l ==> r.len() >= 1,
{
    let mut r: Vec<usize> = Vec::new();
    let mut t: usize = 0;
    while t < level_of.len()
        invariant
            t <= level_of.len(),
            r.len() <= t,
            forall|k: int|
                0 <= k < r.len() ==> #[trigger] r@[k] < level_of.len() && level_of@[r@[k] as int]
                    == l,
            l < t && level_of@[l as int] == l ==> r.len() >= 1,
        decreases level_of.len() - t,
    {
        if level_of[t] == l {
            r.push(t);
        }
        t = t + 1;
    }
    r
}

/// Draws from histogram `k` of a list, keeping the list's histograms.
fn draw_from(hs: &mut Vec<IntHisto>, k: usize) -> (r: usize)
    requires
        k < old(hs).len(),
        forall|i: int| 0 <= i < old(hs).len() ==> (#[trigger] old(hs)@[i]).wf(),
    ensures
        final(hs).len() == old(hs).len(),
        forall|i: int|
            0 <= i < old(hs).len() ==> (#[trigger] final(hs)@[i]).wf() && final(hs)@[i].values()
                == old(hs)@[i].values(),
        old(hs)@[k as int].values().contains(r),
{
    let mut h = hs.remove(k);
    let v = h.sample();
    hs.insert(k, h);
    assert(hs@ =~= old(hs)@.update(k as int, h));
    v
}

impl JobFactory {
    /// The tables of `self` and `other` are the same.
    pub closed spec fn same_tables(&self, other: &JobFactory) -> bool {
        &&& self.num_rv.values() == other.num_rv.values()
        &&& self.cpu_rv.values() == other.cpu_rv.values()
        &&& self.mem_rv.state_sizes() == other.mem_rv.state_sizes()
        &&& self.mem_rv.arg_sizes() == other.mem_rv.arg_sizes()
        &&& self.cpl_rv.len() == other.cpl_rv.len()
        &&& forall|i: int| 0 <= i < self.cpl_rv.len() ==> (#[trigger] self.cpl_rv@[i]).values()
            == other.cpl_rv@[i].values()
        &&& self.lvl_rv.len() == other.lvl_rv.len()
        &&& forall|i: int| 0 <= i < self.lvl_rv.len() ==> (#[trigger] self.lvl_rv@[i]).values()
            == other.lvl_rv@[i].values()
    }

    /// Each level table `k` (for a critical path of `k + 1` tasks, the last
    /// for 20 and more) draws only levels `1..=k + 1`: a sibling's first
    /// level always falls within the critical path.
    pub closed spec fn levels_within_path(&self) -> bool {
        forall|k: int| 0 <= k < LEVEL_TABLES ==> crate::rv_histo::values_within(
            #[trigger] self.lvl_rv@[k].values(),
            1,
            k + 1,
        )
    }

    /// Every draw of a task count, a path length or a level is one that
    /// `make` accepts at once: counts in `1..=MAX_TASKS`, path lengths from 1,
    /// and levels within the path.
    pub closed spec fn draws_valid(&self) -> bool {
        &&& crate::rv_histo::values_within(self.num_rv.values(), 1, MAX_TASKS as int)
        &&& forall|k: int| 0 <= k < CPL_TABLES ==> crate::rv_histo::values_within(
            #[trigger] self.cpl_rv@[k].values(),
            1,
            usize::MAX as int,
        )
        &&& self.levels_within_path()
    }

    /// Possible path lengths of table `k` (for `k + 2` tasks, the last for 35
    /// and more).
    pub closed spec fn cpl_values(&self, k: int) -> Seq<usize> {
        self.cpl_rv@[k].values()
    }

    /// Possible levels of table `k` (for a path of `k + 1` tasks, the last for
    /// 20 and more).
    pub closed spec fn level_values(&self, k: int) -> Seq<usize> {
        self.lvl_rv@[k].values()
    }

    proof fn lemma_same_levels(&self, other: &JobFactory)
        requires
            self.wf(),
            other.wf(),
            self.same_tables(other),
        ensures
            self.levels_within_path() == other.levels_within_path(),
            self.draws_valid() == other.draws_valid(),
            forall|k: int| 0 <= k < CPL_TABLES ==> #[trigger] self.cpl_values(k) == other.cpl_values(k),
            forall|k: int| 0 <= k < LEVEL_TABLES ==> #[trigger] self.level_values(k) == other.level_values(k),
    {
        assert forall|k: int| 0 <= k < CPL_TABLES implies #[trigger] self.cpl_rv@[k].values()
            == other.cpl_rv@[k].values() by {}
        if self.draws_valid() {
            assert forall|k: int| 0 <= k < CPL_TABLES implies crate::rv_histo::values_within(
                #[trigger] other.cpl_rv@[k].values(), 1, usize::MAX as int) by {
                assert(self.cpl_rv@[k].values() == other.cpl_rv@[k].values());
            }
        }
        if other.draws_valid() {
            assert forall|k: int| 0 <= k < CPL_TABLES implies crate::rv_histo::values_within(
                #[trigger] self.cpl_rv@[k].values(), 1, usize::MAX as int) by {
                assert(self.cpl_rv@[k].values() == other.cpl_rv@[k].values());
            }
        }
        assert forall|k: int| 0 <= k < LEVEL_TABLES implies #[trigger] self.lvl_rv@[k].values()
            == other.lvl_rv@[k].values() by {}
        if self.levels_within_path() {
            assert forall|k: int| 0 <= k < LEVEL_TABLES implies crate::rv_histo::values_within(
                #[trigger] other.lvl_rv@[k].values(), 1, k + 1) by {
                assert(self.lvl_rv@[k].values() == other.lvl_rv@[k].values());
            }
        }
        if other.levels_within_path() {
            assert forall|k: int| 0 <= k < LEVEL_TABLES implies crate::rv_histo::values_within(
                #[trigger] self.lvl_rv@[k].values(), 1, k + 1) by {
                assert(self.lvl_rv@[k].values() == other.lvl_rv@[k].values());
            }
        }
    }

    /// Possible task counts.
    pub closed spec fn num_values(&self) -> Seq<usize> {
        self.num_rv.values()
    }

    /// Possible CPU requests.
    pub closed spec fn cpu_values(&self) -> Seq<usize> {
        self.cpu_rv.values()
    }

    /// Possible state sizes.
    pub closed spec fn state_values(&self) -> Seq<usize> {
        self.mem_rv.state_sizes()
    }

    /// Possible argument sizes.
    pub closed spec fn arg_values(&self) -> Seq<usize> {
        self.mem_rv.arg_sizes()
    }

    pub closed spec fn wf(&self) -> bool {
        &&& self.num_rv.wf()
        &&& self.cpl_rv.len() == CPL_TABLES
        &&& forall|i: int| 0 <= i < CPL_TABLES ==> (#[trigger] self.cpl_rv@[i]).wf()
        &&& self.lvl_rv.len() == LEVEL_TABLES
        &&& forall|i: int| 0 <= i < LEVEL_TABLES ==> (#[trigger] self.lvl_rv@[i]).wf()
        &&& self.cpu_rv.wf()
        &&& crate::rv_histo::values_within(self.cpu_rv.values(), 0, SIZE_LIMIT as int)
        &&& self.mem_rv.wf()
        &&& crate::rv_histo::values_within(self.mem_rv.state_sizes(), 0, SIZE_LIMIT as int)
        &&& crate::rv_histo::values_within(self.mem_rv.arg_sizes(), 0, SIZE_LIMIT as int)
    }
}

impl JobFactory {
    /// Whether every CPU request the factory can draw is at most `cap`.
    pub fn cpu_within(&self, cap: usize) -> (r: bool)
        requires
            self.wf(),
        ensures
            r == crate::rv_histo::values_within(self.cpu_values(), 0, cap as int),
    {
        self.cpu_rv.values_within(0, cap)
    }

    /// A factory over `tables`. The generators are seeded with
    /// `seed + SEED_STEP * k` for `k = 1, 2, ...`: the task-count table,
    /// the critical-path tables, the level tables, the CPU table, the
    /// memory table, and last the generator that picks edges.
    pub fn new(seed: u64, tables: WorkloadTables) -> (r: Result<JobFactory, FactoryError>)
        requires
            seed <= u64::MAX - 58 * SEED_STEP,
        ensures
            r is Ok <==> tables_ok(tables),
            r == Err::<JobFactory, FactoryError>(FactoryError::TableCount) <==> tables.cpl.len()
                != CPL_TABLES || tables.level.len() != LEVEL_TABLES,
            r matches Err(FactoryError::Table(kind, i, e)) ==> table_refused(tables, kind, i as int, e),
            r is Ok ==> {
                let f = r->Ok_0;
                &&& f.wf()
                &&& f.num_values() == tables.task_num.values@
                &&& f.cpu_values() == tables.task_cpu.values@
                &&& f.state_values() == tables.task_mem.state_sizes@
                &&& f.arg_values() == tables.task_mem.arg_sizes@
                &&& f.draws_valid() <==> tables_draw_valid(tables)
            },
    {
        let WorkloadTables { task_num, cpl, level, task_cpu, task_mem } = tables;
        if cpl.len() != CPL_TABLES || level.len() != LEVEL_TABLES {
            return Err(FactoryError::TableCount);
        }
        let num_rv = match IntHisto::new(seed + SEED_STEP, task_num, 0, usize::MAX) {
            Ok(h) => h,
            Err(e) => {
                return Err(FactoryError::Table(TableKind::TaskNum, 0, e));
            },
        };
        let ghost cpl0 = cpl@;
        let mut cpl_left = cpl;
        let mut cpl_rv: Vec<IntHisto> = Vec::new();
        let mut i: usize = 0;
        while i < CPL_TABLES
            invariant
                i <= CPL_TABLES,
                cpl0.len() == CPL_TABLES,
                cpl0 == tables.cpl@,
                tables.level.len() == LEVEL_TABLES,
                cpl_left@ == cpl0.skip(i as int),
                cpl_rv.len() == i,
                seed <= u64::MAX - 58 * SEED_STEP,
                forall|j: int|
                    0 <= j < i ==> (#[trigger] cpl_rv@[j]).wf() && cpl_rv@[j].values()
                        == cpl0[j].values@ && table_error(
                        cpl0[j].weights@,
                        cpl0[j].values@,
                        0,
                        usize::MAX as int,
                    ) is None,
            decreases CPL_TABLES - i,
        {
            let t = cpl_left.remove(0);
            assert(t == cpl0[i as int]);
            assert(cpl_left@ =~= cpl0.skip(i + 1));
            let h = match IntHisto::new(seed + SEED_STEP * (2 + i as u64), t, 0, usize::MAX) {
                Ok(h) => h,
                Err(e) => {
                    assert(!tables_ok(tables)) by {
                        assert(tables.cpl@[i as int].weights@ == cpl0[i as int].weights@);
                    }
                    return Err(FactoryError::Table(TableKind::Cpl, i, e));
                },
            };
            let ghost prev = cpl_rv@;
            cpl_rv.push(h);
            proof {
                assert forall|j: int| 0 <= j < i + 1 implies (#[trigger] cpl_rv@[j]).wf()
                    && cpl_rv@[j].values() == cpl0[j].values@ && table_error(
                    cpl0[j].weights@,
                    cpl0[j].values@,
                    0,
                    usize::MAX as int,
                ) is None by {
                    if j < i {
                        assert(cpl_rv@[j] == prev[j]);
                    }
                }
            }
            i = i + 1;
        }
        let ghost lvl0 = level@;
        let mut lvl_left = level;
        let mut lvl_rv: Vec<IntHisto> = Vec::new();
        let mut i: usize = 0;
        while i < LEVEL_TABLES
            invariant
                i <= LEVEL_TABLES,
                lvl0.len() == LEVEL_TABLES,
                lvl0 == tables.level@,
                tables.cpl.len() == CPL_TABLES,
                forall|j: int|
                    0 <= j < CPL_TABLES ==> (#[trigger] cpl_rv@[j]).wf() && cpl_rv@[j].values()
                        == cpl0[j].values@ && table_error(
                        cpl0[j].weights@,
                        cpl0[j].values@,
                        0,
                        usize::MAX as int,
                    ) is None,
                cpl_rv.len() == CPL_TABLES,
                cpl0 == tables.cpl@,
                table_error(tables.task_num.weights@, tables.task_num.values@, 0, usize::MAX as int) is None,
                lvl_left@ == lvl0.skip(i as int),
                lvl_rv.len() == i,
                seed <= u64::MAX - 58 * SEED_STEP,
                forall|j: int|
                    0 <= j < i ==> (#[trigger] lvl_rv@[j]).wf() && lvl_rv@[j].values()
                        == lvl0[j].values@ && table_error(
                        lvl0[j].weights@,
                        lvl0[j].values@,
                        0,
                        usize::MAX as int,
                    ) is None,
            decreases LEVEL_TABLES - i,
        {
            let t = lvl_left.remove(0);
            assert(t == lvl0[i as int]);
            assert(lvl_left@ =~= lvl0.skip(i + 1));
            let h = match IntHisto::new(seed + SEED_STEP * (36 + i as u64), t, 0, usize::MAX) {
                Ok(h) => h,
                Err(e) => {
                    assert(!tables_ok(tables)) by {
                        assert(tables.level@[i as int].weights@ == lvl0[i as int].weights@);
                    }
                    return Err(FactoryError::Table(TableKind::Level, i, e));
                },
            };
            let ghost prev = lvl_rv@;
            lvl_rv.push(h);
            proof {
                assert forall|j: int| 0 <= j < i + 1 implies (#[trigger] lvl_rv@[j]).wf()
                    && lvl_rv@[j].values() == lvl0[j].values@ && table_error(
                    lvl0[j].weights@,
                    lvl0[j].values@,
                    0,
                    usize::MAX as int,
                ) is None by {
                    if j < i {
                        assert(lvl_rv@[j] == prev[j]);
                    }
                }
            }
            i = i + 1;
        }
        let cpu_rv = match IntHisto::new(seed + SEED_STEP * 56, task_cpu, 0, SIZE_LIMIT) {
            Ok(h) => h,
            Err(e) => {
                return Err(FactoryError::Table(TableKind::TaskCpu, 0, e));
            },
        };
        let mem_rv = match MemHisto::new(seed + SEED_STEP * 57, task_mem, SIZE_LIMIT) {
            Ok(h) => h,
            Err(e) => {
                return Err(FactoryError::Table(TableKind::TaskMem, 0, e));
            },
        };
        let edge_rng = seeded_rng(seed + SEED_STEP * 58);
        assert forall|k: int| 0 <= k < LEVEL_TABLES implies #[trigger] lvl_rv@[k].values()
            == tables.level@[k].values@ by {
            assert(lvl_rv@[k].values() == lvl0[k].values@);
        }
        assert forall|j: int| 0 <= j < CPL_TABLES implies table_error(
            #[trigger] tables.cpl@[j].weights@,
            tables.cpl@[j].values@,
            0,
            usize::MAX as int,
        ) is None by {
            assert(cpl_rv@[j].wf());
        }
        assert forall|j: int| 0 <= j < LEVEL_TABLES implies table_error(
            #[trigger] tables.level@[j].weights@,
            tables.level@[j].values@,
            0,
            usize::MAX as int,
        ) is None by {
            assert(lvl_rv@[j].wf());
        }
        let f = JobFactory { num_rv, cpl_rv, lvl_rv, cpu_rv, mem_rv, edge_rng };
        assert(f.levels_within_path() <==> forall|k: int| 0 <= k < LEVEL_TABLES
            ==> crate::rv_histo::values_within(
            #[trigger] tables.level@[k].values@,
            1,
            k + 1,
        )) by {
            if f.levels_within_path() {
                assert forall|k: int| 0 <= k < LEVEL_TABLES implies crate::rv_histo::values_within(
                    #[trigger] tables.level@[k].values@, 1, k + 1) by {
                    assert(f.lvl_rv@[k].values() == tables.level@[k].values@);
                }
            }
            if forall|k: int| 0 <= k < LEVEL_TABLES ==> crate::rv_histo::values_within(
                #[trigger] tables.level@[k].values@, 1, k + 1) {
                assert forall|k: int| 0 <= k < LEVEL_TABLES implies crate::rv_histo::values_within(
                    #[trigger] f.lvl_rv@[k].values(), 1, k + 1) by {
                    assert(f.lvl_rv@[k].values() == tables.level@[k].values@);
                }
            }
        }
        assert(f.draws_valid() <==> tables_draw_valid(tables)) by {
            assert forall|k: int| 0 <= k < CPL_TABLES implies #[trigger] f.cpl_rv@[k].values()
                == tables.cpl@[k].values@ by {
                assert(f.cpl_rv@[k].values() == cpl0[k].values@);
            }
            if f.draws_valid() {
                assert forall|k: int| 0 <= k < CPL_TABLES implies crate::rv_histo::values_within(
                    #[trigger] tables.cpl@[k].values@, 1, usize::MAX as int) by {
                    assert(f.cpl_rv@[k].values() == tables.cpl@[k].values@);
                }
            }
            if tables_draw_valid(tables) {
                assert forall|k: int| 0 <= k < CPL_TABLES implies crate::rv_histo::values_within(
                    #[trigger] f.cpl_rv@[k].values(), 1, usize::MAX as int) by {
                    assert(f.cpl_rv@[k].values() == tables.cpl@[k].values@);
                }
            }
        }
        Ok(f)
    }

    /// Makes a random job: draws the task count and each task's CPU request
    /// and state size; draws the critical path length `cpl`; puts tasks
    /// `0..cpl` on levels `0..cpl` as a chain, and each other task on a level
    /// drawn until it falls within the chain; adds the chain's edges, then,
    /// level by level, from each task to a random task of the next level if
    /// that level has at least as many tasks, skipping chain edges. The job is
    /// `build_job` of these draws. A drawn task count of 0 or above
    /// `MAX_TASKS`, a path length or level of 0, or no level within the path
    /// in `MAX_LEVEL_DRAWS` draws is an error.
    pub fn make(&mut self) -> (r: Result<Job, MakeError>)
        requires
            old(self).wf(),
        ensures
            final(self).wf(),
            final(self).same_tables(old(self)),
            final(self).num_values() == old(self).num_values(),
            final(self).cpu_values() == old(self).cpu_values(),
            final(self).state_values() == old(self).state_values(),
            final(self).arg_values() == old(self).arg_values(),
            final(self).draws_valid() == old(self).draws_valid(),
            forall|k: int| 0 <= k < CPL_TABLES ==> #[trigger] final(self).cpl_values(k) == old(self).cpl_values(k),
            forall|k: int| 0 <= k < LEVEL_TABLES ==> #[trigger] final(self).level_values(k) == old(self).level_values(k),
            old(self).draws_valid() ==> r is Ok,
            r == Err::<Job, MakeError>(MakeError::NoTasks) ==> old(self).num_values().contains(0),
            r == Err::<Job, MakeError>(MakeError::TooManyTasks) ==> exists|i: int|
                0 <= i < old(self).num_values().len() && #[trigger] old(self).num_values()[i] > MAX_TASKS,
            r == Err::<Job, MakeError>(MakeError::ZeroPathLength) ==> exists|k: int|
                0 <= k < CPL_TABLES && #[trigger] old(self).cpl_values(k).contains(0),
            r == Err::<Job, MakeError>(MakeError::ZeroLevel) ==> exists|k: int|
                0 <= k < LEVEL_TABLES && #[trigger] old(self).level_values(k).contains(0),
            r == Err::<Job, MakeError>(MakeError::LevelNotDrawn) ==> !old(self).levels_within_path(),
            r is Ok ==> made_by(*old(self), r->Ok_0),
            r is Ok ==> exists|cpl: int, lv: Seq<usize>, ca: Seq<usize>, pk: Seq<Option<(usize, usize)>>|
                r->Ok_0.links() == merge_links(#[trigger] dag_edges(cpl, lv, ca, pk))
                && draws_fit(*old(self), r->Ok_0.tasks().len() as int, cpl, lv, ca, pk)
                && forall|e: int| 0 <= e < r->Ok_0.links().len() ==> from_draws(
                    #[trigger] r->Ok_0.links()[e],
                    cpl,
                    ca,
                    pk,
                ),
    {
        let ghost f0 = *self;
        let num = self.num_rv.sample();
        proof {
            self.lemma_same_levels(&f0);
        }
        if num == 0 {
            return Err(MakeError::NoTasks);
        }
        if num > MAX_TASKS as usize {
            proof {
                let j = choose|j: int| 0 <= j < f0.num_values().len() && f0.num_values()[j] == num;
                assert(f0.num_values()[j] > MAX_TASKS);
            }
            return Err(MakeError::TooManyTasks);
        }
        proof {
            if f0.draws_valid() {
                lemma_contained_within(f0.num_rv.values(), num, 1, MAX_TASKS as int);
            }
        }
        let mut vertices: Vec<Vertex> = Vec::new();
        let mut i: usize = 0;
        while i < num
            invariant
                self.wf(),
                self.same_tables(&f0),
                i <= num,
                1 <= num <= MAX_TASKS,
                vertices.len() == i,
                forall|t: int|
                    0 <= t < i ==> f0.cpu_values().contains((#[trigger] vertices@[t]).cpu_request)
                        && f0.state_values().contains(vertices@[t].state_size)
                        && vertices@[t].cpu_request <= SIZE_LIMIT && vertices@[t].state_size
                        <= SIZE_LIMIT,
            decreases num - i,
        {
            let cpu = self.cpu_rv.sample();
            let state = self.mem_rv.sample_state();
            proof {
                lemma_contained_within(f0.cpu_values(), cpu, 0, SIZE_LIMIT as int);
                lemma_contained_within(f0.state_values(), state, 0, SIZE_LIMIT as int);
            }
            vertices.push(Vertex::new(cpu, state));
            i = i + 1;
        }

        // critical path length
        let ghost mut vdraw: usize = 0;
        let cpl: usize = if num == 1 {
            1
        } else {
            let key: usize = if num < 35 {
                num
            } else {
                35
            };
            let drawn = draw_from(&mut self.cpl_rv, key - 2);
            proof {
                self.lemma_same_levels(&f0);
                if f0.draws_valid() {
                    assert(crate::rv_histo::values_within(f0.cpl_rv@[key - 2].values(), 1, usize::MAX as int));
                    lemma_contained_within(f0.cpl_rv@[key - 2].values(), drawn, 1, usize::MAX as int);
                }
            }
            if drawn == 0 {
                assert(f0.cpl_values(key - 2).contains(0));
                return Err(MakeError::ZeroPathLength);
            }
            proof {
                vdraw = drawn;
                assert(f0.cpl_values(key - 2).contains(vdraw));
            }
            let c = if drawn < num {
                drawn
            } else {
                num
            };
            assert(c as int == if (vdraw as int) < num as int { vdraw as int } else { num as int });
            assert(path_drawn(f0, num as int, c as int)) by {
                let k2 = if (num as int) < 35 { num as int } else { 35 };
                assert(k2 == key);
                assert(cpl_table(num as int) == key - 2);
                assert(f0.cpl_values(cpl_table(num as int)).contains(vdraw) && (c as int == if (vdraw as int) < (num as int) {
                    vdraw as int
                } else {
                    num as int
                }));
                assert(num as int > 1);
            }
            c
        };

        assert(path_drawn(f0, num as int, cpl as int));
        // levels: the chain first, then each other task
        let mut level_of: Vec<usize> = Vec::new();
        let mut i: usize = 0;
        while i < cpl
            invariant
                path_drawn(f0, num as int, cpl as int),
                i <= cpl <= num,
                level_of.len() == i,
                forall|t: int| 0 <= t < i ==> #[trigger] level_of@[t] == t,
            decreases cpl - i,
        {
            level_of.push(i);
            i = i + 1;
        }
        let key: usize = if cpl < 20 {
            cpl
        } else {
            20
        };
        let mut i: usize = cpl;
        while i < num
            invariant
                path_drawn(f0, num as int, cpl as int),
                forall|t: int| cpl <= t < level_of.len() ==> f0.level_values(key - 1).contains((#[trigger] level_of@[t] + 1) as usize),
                key == if cpl < 20 { cpl } else { 20 },
                self.wf(),
                self.same_tables(&f0),
                1 <= cpl <= num <= MAX_TASKS,
                1 <= key <= LEVEL_TABLES,
                f0 == *old(self),
                f0.wf(),
                f0.levels_within_path() ==> cpl >= key,
                cpl <= i <= num,
                level_of.len() == i,
                forall|t: int| 0 <= t < cpl ==> #[trigger] level_of@[t] == t,
                forall|t: int| 0 <= t < i ==> #[trigger] level_of@[t] < cpl,
            decreases num - i,
        {
            let mut attempts: u32 = 0;
            let mut placed = false;
            while !placed && attempts < MAX_LEVEL_DRAWS
                invariant
                    path_drawn(f0, num as int, cpl as int),
                    forall|t: int| cpl <= t < level_of.len() ==> f0.level_values(key - 1).contains((#[trigger] level_of@[t] + 1) as usize),
                    key == if cpl < 20 { cpl } else { 20 },
                    self.wf(),
                    self.same_tables(&f0),
                    1 <= cpl <= num,
                    1 <= key <= LEVEL_TABLES,
                    cpl <= i < num,
                    attempts <= MAX_LEVEL_DRAWS,
                    f0 == *old(self),
                    f0.wf(),
                    f0.levels_within_path() ==> cpl >= key,
                    f0.levels_within_path() && attempts > 0 ==> placed,
                    !placed ==> level_of.len() == i,
                    placed ==> level_of.len() == i + 1,
                    forall|t: int| 0 <= t < cpl ==> #[trigger] level_of@[t] == t,
                    forall|t: int| 0 <= t < level_of.len() ==> #[trigger] level_of@[t] < cpl,
                decreases MAX_LEVEL_DRAWS - attempts,
            {
                let lvl = draw_from(&mut self.lvl_rv, key - 1);
                proof {
                    if f0.levels_within_path() {
                        assert(crate::rv_histo::values_within(f0.lvl_rv@[key - 1].values(), 1, key as int));
                        lemma_contained_within(f0.lvl_rv@[key - 1].values(), lvl, 1, key as int);
                    }
                }
                if lvl == 0 {
                    proof {
                        self.lemma_same_levels(&f0);
                        assert(f0.level_values(key - 1).contains(0));
                    }
                    return Err(MakeError::ZeroLevel);
                }
                assert(f0.level_values(key - 1).contains(lvl));
                if lvl <= cpl {
                    level_of.push(lvl - 1);
                    placed = true;
                }
                attempts = attempts + 1;
            }
            if !placed {
                proof {
                    self.lemma_same_levels(&f0);
                }
                return Err(MakeError::LevelNotDrawn);
            }
            i = i + 1;
        }
        let ghost lv = level_of@;

        // the critical path
        let mut chain_args: Vec<usize> = Vec::new();
        let mut i: usize = 0;
        while i + 1 < cpl
            invariant
                self.wf(),
                self.same_tables(&f0),
                1 <= cpl <= num <= MAX_TASKS,
                i < cpl,
                chain_args.len() == i,
                forall|k: int| 0 <= k < chain_args.len() ==> f0.arg_values().contains(#[trigger] chain_args@[k])
                    && chain_args@[k] <= SIZE_LIMIT,
            decreases cpl - i,
        {
            let a = self.mem_rv.sample_arg();
            proof {
                lemma_contained_within(f0.arg_values(), a, 0, SIZE_LIMIT as int);
            }
            chain_args.push(a);
            i = i + 1;
        }

        // the edge each task picks towards the next level, if any
        let mut picks: Vec<Option<(usize, usize)>> = Vec::new();
        let mut i: usize = 0;
        while i < num
            invariant
                i <= num,
                picks.len() == i,
                forall|t: int| 0 <= t < i ==> (#[trigger] picks@[t]) is None,
            decreases num - i,
        {
            picks.push(None);
            i = i + 1;
        }
        let mut l: usize = 0;
        while l + 1 < cpl
            invariant
                path_drawn(f0, num as int, cpl as int),
                forall|t: int| cpl <= t < num ==> f0.level_values(key - 1).contains((#[trigger] lv[t] + 1) as usize),
                key == if cpl < 20 { cpl } else { 20 },
                self.wf(),
                self.same_tables(&f0),
                1 <= cpl <= num <= MAX_TASKS,
                level_of@ == lv,
                lv.len() == num,
                forall|t: int| 0 <= t < cpl ==> #[trigger] lv[t] == t,
                forall|t: int| 0 <= t < num ==> #[trigger] lv[t] < cpl,
                chain_args.len() == cpl - 1,
                forall|k: int| 0 <= k < chain_args.len() ==> f0.arg_values().contains(#[trigger] chain_args@[k])
                    && chain_args@[k] <= SIZE_LIMIT,
                picks.len() == num,
                forall|t: int| 0 <= t < num && (#[trigger] picks@[t]) is Some ==> pick_ok(f0, lv, cpl as int, t,
                    picks@[t]->Some_0),
                l < cpl,
            decreases cpl - l,
        {
            let tasks = tasks_at_level(&level_of, l);
            let next = tasks_at_level(&level_of, l + 1);
            let ratio = next.len() / tasks.len();
            let per_task: usize = if ratio < 1 {
                ratio
            } else {
                1
            };
            let mut j: usize = 0;
            while j < tasks.len()
                invariant
                    path_drawn(f0, num as int, cpl as int),
                    forall|t: int| cpl <= t < num ==> f0.level_values(key - 1).contains((#[trigger] lv[t] + 1) as usize),
                    key == if cpl < 20 { cpl } else { 20 },
                    self.wf(),
                    self.same_tables(&f0),
                    1 <= cpl <= num <= MAX_TASKS,
                    level_of@ == lv,
                    lv.len() == num,
                    forall|t: int| 0 <= t < cpl ==> #[trigger] lv[t] == t,
                    forall|t: int| 0 <= t < num ==> #[trigger] lv[t] < cpl,
                    chain_args.len() == cpl - 1,
                    forall|k: int| 0 <= k < chain_args.len() ==> f0.arg_values().contains(#[trigger] chain_args@[k])
                        && chain_args@[k] <= SIZE_LIMIT,
                    picks.len() == num,
                    forall|t: int| 0 <= t < num && (#[trigger] picks@[t]) is Some ==> pick_ok(f0, lv, cpl as int, t,
                        picks@[t]->Some_0),
                    l + 1 < cpl,
                    per_task <= 1,
                    j <= tasks.len(),
                    forall|k: int|
                        0 <= k < tasks.len() ==> #[trigger] tasks@[k] < num && lv[tasks@[k] as int] == l,
                    forall|k: int|
                        0 <= k < next.len() ==> #[trigger] next@[k] < num && lv[next@[k] as int] == l + 1,
                decreases tasks.len() - j,
            {
                let task = tasks[j];
                let chosen = choose_targets(&mut self.edge_rng, &next, per_task);
                let mut c: usize = 0;
                while c < chosen.len()
                    invariant
                        path_drawn(f0, num as int, cpl as int),
                        forall|t: int| cpl <= t < num ==> f0.level_values(key - 1).contains((#[trigger] lv[t] + 1) as usize),
                        key == if cpl < 20 { cpl } else { 20 },
                        self.wf(),
                        self.same_tables(&f0),
                        1 <= cpl <= num <= MAX_TASKS,
                        level_of@ == lv,
                        lv.len() == num,
                        forall|t: int| 0 <= t < cpl ==> #[trigger] lv[t] == t,
                        forall|t: int| 0 <= t < num ==> #[trigger] lv[t] < cpl,
                        chain_args.len() == cpl - 1,
                        forall|k: int| 0 <= k < chain_args.len() ==> f0.arg_values().contains(#[trigger] chain_args@[k])
                            && chain_args@[k] <= SIZE_LIMIT,
                        picks.len() == num,
                        forall|t: int| 0 <= t < num && (#[trigger] picks@[t]) is Some ==> pick_ok(f0, lv, cpl as int, t,
                            picks@[t]->Some_0),
                        task < num,
                        lv[task as int] == l,
                        c <= chosen.len(),
                        forall|k: int| 0 <= k < chosen.len() ==> next@.contains(#[trigger] chosen@[k]),
                        forall|k: int|
                            0 <= k < next.len() ==> #[trigger] next@[k] < num && lv[next@[k] as int] == l + 1,
                    decreases chosen.len() - c,
                {
                    let other = chosen[c];
                    proof {
                        let k = choose|k: int| 0 <= k < next.len() && next@[k] == other;
                        assert(next@[k] < num);
                    }
                    if other >= cpl || task + 1 != other {
                        let a = self.mem_rv.sample_arg();
                        proof {
                            lemma_contained_within(f0.arg_values(), a, 0, SIZE_LIMIT as int);
                        }
                        let ghost before = picks@;
                        picks.remove(task);
                        picks.insert(task, Some((other, a)));
                        assert(picks@ =~= before.update(task as int, Some((other, a))));
                        assert(pick_ok(f0, lv, cpl as int, task as int, (other, a)));
                    }
                    c = c + 1;
                }
                j = j + 1;
            }
            l = l + 1;
        }
        proof {
            assert forall|t: int| 0 <= t < num implies (#[trigger] vertices@[t]).cpu_request <= SIZE_LIMIT
                && vertices@[t].state_size <= SIZE_LIMIT by {}
        }
        let ghost ca = chain_args@;
        let ghost pk = picks@;
        let job = build_job(vertices, cpl, level_of, chain_args, picks);
        proof {
            self.lemma_same_levels(&f0);
            let lvi = lv.map_values(|x: usize| x as int);
            let links = job.links();
            assert forall|e: int| 0 <= e < links.len() implies lvi[(#[trigger] links[e]).0 as int] + 1
                == lvi[links[e].1 as int] && f0.arg_values().contains(links[e].2.arg_size) by {
                assert(from_draws(links[e], cpl as int, ca, pk));
                let x = links[e].0 as int;
                if pk[x] == Some((links[e].1 as usize, links[e].2.arg_size)) {
                    assert(pick_ok(f0, lv, cpl as int, x, pk[x]->Some_0));
                } else {
                    assert(f0.arg_values().contains(ca[x]));
                }
            }
            assert(lvi.len() == job.tasks().len());
            assert(leveled(job.links(), job.tasks().len()));
            assert forall|t: int| 0 <= t < num implies 0 <= #[trigger] lvi[t] < cpl by {
                assert(lv[t] < cpl);
            }
            assert(dag_shape(job.links(), num as int, cpl as int, lvi));
            assert forall|t: int| cpl <= t < num implies f0.level_values((if cpl < 20 { cpl } else { 20 }) - 1).contains(
                (#[trigger] lvi[t] + 1) as usize) by {
                assert(f0.level_values(key - 1).contains((lv[t] + 1) as usize));
            }
            assert(drawn_from(f0, num as int, cpl as int, lvi));
            assert(f0 == *old(self));
            assert(job.tasks().len() == num);
            assert(dag_shape(job.links(), job.tasks().len() as int, cpl as int, lvi)
                && drawn_from(*old(self), job.tasks().len() as int, cpl as int, lvi));
            assert forall|e: int| 0 <= e < links.len() implies (#[trigger] links[e]).1 != 0 by {
                if links[e].1 == 0 {
                    assert(lvi[links[e].0 as int] >= 0);
                }
            }
            if num == 1 && links.len() > 0 {
                assert(lvi[links[0].1 as int] < cpl);
            }
            assert(draws_fit(*old(self), num as int, cpl as int, lv, ca, pk));
        }
        assert(made_by(*old(self), job));
        Ok(job)
    }
}

} // verus!
