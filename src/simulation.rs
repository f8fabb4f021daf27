//! Placement policies and the discrete-event engine.

use vstd::prelude::*;
use vstd::string::StrSliceExecFns;
use rand::rngs::StdRng;
use crate::factory::{FactoryError, JobFactory, MakeError, WorkloadTables, SEED_STEP, tables_ok};
use crate::rv_histo::seeded_rng;
use crate::job::{seq_sum, Job};
use crate::event::{Event, earliest, lemma_earliest, pop_earliest};
use crate::placement::{
    Active, Node, placement_ok, all_placed, none_placed, tasks_fit, hosts, busy_terms,
    traffic_terms, cpu_terms, state_terms, arg_terms, migration_traffic, migration_count,
    placements, node_load, allocate, deallocate, defragment, job_totals, total_cross_traffic,
    busy_count, lemma_word_products, lemma_push_entry, lemma_ids_unique, rebuilt, placement_trace, nodes_extended,
};

verus! {

/// Whether two strings hold the same characters.
fn same_str(a: &str, b: &str) -> (r: bool)
    ensures
        r == (a@ == b@),
{
    let n = a.unicode_len();
    if n != b.unicode_len() {
        return false;
    }
    let mut i: usize = 0;
    while i < n
        invariant
            i <= n,
            n == a@.len(),
            n == b@.len(),
            a@.take(i as int) == b@.take(i as int),
        decreases n - i,
    {
        if a.get_char(i) != b.get_char(i) {
            return false;
        }
        assert(a@.take(i + 1) =~= a@.take(i as int).push(a@[i as int]));
        assert(b@.take(i + 1) =~= b@.take(i as int).push(b@[i as int]));
        i = i + 1;
    }
    assert(a@ =~= a@.take(i as int));
    assert(b@ =~= b@.take(i as int));
    true
}

/// A task allocation policy.
#[derive(Debug, Clone, Copy, PartialEq, Eq, Structural)]
pub enum Policy {
    /// Fluid placement: busy nodes are the load divided by the capacity,
    /// rounded up, at each instant.
    StatelessMinNodes,
    /// Fluid placement that keeps the peak number of nodes busy.
    StatelessMaxBalancing,
    /// Each task goes to the node of a predecessor with room for it, else to
    /// the node it leaves with the least residual capacity, else to a new
    /// node; defragmentation re-places all jobs this way.
    StatefulBestFit,
    /// Each task goes to a random node with room for it, else to the first
    /// idle node, else to a new node.
    StatefulRandom,
}

/// A policy name that is not known.
#[derive(Debug, Clone)]
pub struct UnknownPolicy {
    pub name: String,
}

impl Policy {
    /// Whether the policy places tasks on nodes.
    pub open spec fn is_stateful(self) -> bool {
        self is StatefulBestFit || self is StatefulRandom
    }

    /// The policy's name.
    pub fn name(&self) -> (r: &'static str)
        ensures
            *self == Policy::StatelessMinNodes ==> r@ == "stateless-min-nodes"@,
            *self == Policy::StatelessMaxBalancing ==> r@ == "stateless-max-balancing"@,
            *self == Policy::StatefulBestFit ==> r@ == "stateful-best-fit"@,
            *self == Policy::StatefulRandom ==> r@ == "stateful-random"@,
    {
        match self {
            Policy::StatelessMinNodes => "stateless-min-nodes",
            Policy::StatelessMaxBalancing => "stateless-max-balancing",
            Policy::StatefulBestFit => "stateful-best-fit",
            Policy::StatefulRandom => "stateful-random",
        }
    }

    /// The policy of the given name.
    pub fn from(policy: &str) -> (r: Result<Policy, UnknownPolicy>)
        ensures
            r == Ok::<Policy, UnknownPolicy>(Policy::StatelessMinNodes) <==> policy@
                == "stateless-min-nodes"@,
            r == Ok::<Policy, UnknownPolicy>(Policy::StatelessMaxBalancing) <==> policy@
                == "stateless-max-balancing"@,
            r == Ok::<Policy, UnknownPolicy>(Policy::StatefulBestFit) <==> policy@
                == "stateful-best-fit"@,
            r == Ok::<Policy, UnknownPolicy>(Policy::StatefulRandom) <==> policy@
                == "stateful-random"@,
            r is Err ==> r->Err_0.name@ == policy@,
    {
        proof {
            reveal_strlit("stateless-min-nodes");
            reveal_strlit("stateless-max-balancing");
            reveal_strlit("stateful-best-fit");
            reveal_strlit("stateful-random");
            assert("stateless-min-nodes"@.len() == 19);
            assert("stateless-max-balancing"@.len() == 23);
            assert("stateful-best-fit"@.len() == 17);
            assert("stateful-random"@.len() == 15);
        }
        if same_str(policy, "stateless-min-nodes") {
            Ok(Policy::StatelessMinNodes)
        } else if same_str(policy, "stateless-max-balancing") {
            Ok(Policy::StatelessMaxBalancing)
        } else if same_str(policy, "stateful-best-fit") {
            Ok(Policy::StatefulBestFit)
        } else if same_str(policy, "stateful-random") {
            Ok(Policy::StatefulRandom)
        } else {
            Err(UnknownPolicy { name: policy.to_owned() })
        }
    }

    /// All the policies.
    pub fn all() -> (r: Vec<Policy>)
        ensures
            r@ == seq![
                Policy::StatelessMinNodes,
                Policy::StatelessMaxBalancing,
                Policy::StatefulBestFit,
                Policy::StatefulRandom,
            ],
    {
        let r = vec![
            Policy::StatelessMinNodes,
            Policy::StatelessMaxBalancing,
            Policy::StatefulBestFit,
            Policy::StatefulRandom,
        ];
        assert(r@ =~= seq![
            Policy::StatelessMinNodes,
            Policy::StatelessMaxBalancing,
            Policy::StatefulBestFit,
            Policy::StatefulRandom,
        ]);
        r
    }
}

/// Offset of the placement generator's seed from the base seed.
pub const PLACEMENT_SEED_OFFSET: u64 = 1100000;

/// The integer settings of a simulation.
#[derive(Debug, Clone, Copy)]
pub struct Settings {
    /// Simulated time, in s.
    pub duration: u64,
    /// CPU capacity of a node, in hundredths of a core.
    pub node_capacity: usize,
    /// Period of defragmentation, in s.
    pub defragmentation_interval: u64,
    pub policy: Policy,
    /// Base seed of the generators.
    pub seed: u64,
}

/// Why a simulation cannot be set up.
#[derive(Debug, Clone, Copy, PartialEq, Eq, Structural)]
pub enum ConfigError {
    VanishingDuration,
    VanishingDefragmentationInterval,
    /// The workload tables are refused.
    Tables(FactoryError),
}

/// Why an arriving job could not be started; either is fatal to the run.
#[derive(Debug, Clone, Copy, PartialEq, Eq, Structural)]
pub enum StartError {
    /// The job could not be made.
    Make(MakeError),
    /// Under a stateful policy, task `.1` of job `.0` requests more CPU than
    /// a node has.
    TaskTooLarge(u64, usize),
}

/// Event `e` is the end of job `id`.
pub open spec fn ends_job(e: Event, id: u64) -> bool {
    match e {
        Event::JobEnd(_, j) => j == id,
        _ => false,
    }
}

/// Some entry has ID `id`.
pub open spec fn has_id(a: Seq<Active>, id: u64) -> bool {
    exists|i: int| 0 <= i < a.len() && (#[trigger] a[i]).id == id
}

/// A queue without event `k` keeps the property.
proof fn lemma_ends_remove(q: Seq<Event>, a: Seq<Active>, k: int)
    requires
        ends_ok(q, a),
        0 <= k < q.len(),
    ensures
        ends_ok(q.remove(k), a),
{
    let q2 = q.remove(k);
    assert forall|j: int, id: u64| 0 <= j < q2.len() && #[trigger] ends_job(q2[j], id) implies has_id(a, id) by {
        let jj = if j < k { j } else { j + 1 };
        assert(q2[j] == q[jj]);
    }
    assert forall|j1: int, j2: int, id: u64|
        0 <= j1 < q2.len() && 0 <= j2 < q2.len() && j1 != j2 && #[trigger] ends_job(q2[j1], id)
        implies !#[trigger] ends_job(q2[j2], id) by {
        let a1 = if j1 < k { j1 } else { j1 + 1 };
        let a2 = if j2 < k { j2 } else { j2 + 1 };
        assert(q2[j1] == q[a1] && q2[j2] == q[a2]);
    }
}

/// The property depends on the IDs of the entries alone.
proof fn lemma_ends_same_ids(q: Seq<Event>, a: Seq<Active>, a2: Seq<Active>)
    requires
        ends_ok(q, a),
        a2.len() == a.len(),
        forall|i: int| 0 <= i < a.len() ==> (#[trigger] a2[i]).id == a[i].id,
    ensures
        ends_ok(q, a2),
{
    assert forall|j: int, id: u64| 0 <= j < q.len() && #[trigger] ends_job(q[j], id) implies has_id(a2, id) by {
        let i = choose|i: int| 0 <= i < a.len() && (#[trigger] a[i]).id == id;
        assert(a2[i].id == id);
    }
}

/// Removing entry `i` keeps the property when no queued end names it.
proof fn lemma_ends_drop(q: Seq<Event>, a: Seq<Active>, i: int)
    requires
        ends_ok(q, a),
        0 <= i < a.len(),
        forall|k: int| 0 <= k < q.len() ==> !#[trigger] ends_job(q[k], a[i].id),
    ensures
        ends_ok(q, a.remove(i)),
{
    let a2 = a.remove(i);
    assert forall|j: int, id: u64| 0 <= j < q.len() && #[trigger] ends_job(q[j], id) implies has_id(a2, id) by {
        let p = choose|p: int| 0 <= p < a.len() && (#[trigger] a[p]).id == id;
        assert(p != i);
        let pp = if p < i { p } else { p - 1 };
        assert(a2[pp] == a[p]);
    }
}

/// Each queued end names an active job, and no job has two.
pub open spec fn ends_ok(q: Seq<Event>, a: Seq<Active>) -> bool {
    &&& forall|k: int, id: u64| 0 <= k < q.len() && #[trigger] ends_job(q[k], id) ==> has_id(a, id)
    &&& forall|k1: int, k2: int, id: u64|
        0 <= k1 < q.len() && 0 <= k2 < q.len() && k1 != k2 && #[trigger] ends_job(q[k1], id)
            ==> !#[trigger] ends_job(q[k2], id)
}

/// What an event did.
#[derive(Debug, Clone, Copy, PartialEq, Eq, Structural)]
pub enum Step {
    /// A job arrives: the caller draws its lifetime and the time to the next
    /// arrival, and hands them to `start_job`.
    Arrival,
    /// The job of this ID ended.
    Departure(u64),
    /// The placement was defragmented: migration traffic and number of
    /// migrated tasks.
    Defragmented(u128, u128),
    /// The experiment ended.
    Finished,
}

/// One event, with the statistics of the state before it.
#[derive(Debug, Clone, Copy, PartialEq, Eq, Structural)]
pub struct Tick {
    /// Time of the event.
    pub time: u64,
    /// Time elapsed since the previous event.
    pub interval: u64,
    /// Number of busy nodes.
    pub busy_nodes: u128,
    /// Traffic due to task state, counted by the stateless policies.
    pub state_traffic: u128,
    /// Traffic due to invocation arguments.
    pub edge_traffic: u128,
    pub step: Step,
}

/// The simulation engine.
pub struct Simulation {
    job_factory: JobFactory,
    active: Vec<Active>,
    nodes: Vec<Node>,
    allocate_rng: StdRng,
    events: Vec<Event>,
    now: u64,
    next_id: u64,
    arrival_pending: bool,
    settings: Settings,
}

impl Simulation {
    pub closed spec fn active(&self) -> Seq<Active> {
        self.active@
    }

    pub closed spec fn nodes(&self) -> Seq<Node> {
        self.nodes@
    }

    pub closed spec fn events(&self) -> Seq<Event> {
        self.events@
    }

    pub closed spec fn now(&self) -> u64 {
        self.now
    }

    pub closed spec fn next_id(&self) -> u64 {
        self.next_id
    }

    pub closed spec fn arrival_pending(&self) -> bool {
        self.arrival_pending
    }

    pub closed spec fn settings(&self) -> Settings {
        self.settings
    }

    pub closed spec fn factory(&self) -> JobFactory {
        self.job_factory
    }

    pub closed spec fn wf(&self) -> bool {
        let cap = self.settings.node_capacity as int;
        &&& self.job_factory.wf()
        &&& placement_ok(self.active@, self.nodes@, cap)
        &&& self.settings.duration > 0
        &&& self.settings.defragmentation_interval > 0
        &&& self.settings.policy.is_stateful() ==> all_placed(self.active@) && tasks_fit(self.active@, cap)
        &&& ends_ok(self.events@, self.active@)
        &&& !self.settings.policy.is_stateful() ==> self.nodes@.len() == 0 && none_placed(self.active@)
        &&& forall|i: int| 0 <= i < self.active@.len() ==> (#[trigger] self.active@[i]).id < self.next_id
        &&& forall|k: int| 0 <= k < self.events@.len() ==> (#[trigger] self.events@[k]).at() >= self.now
    }

    /// The busy nodes, state traffic and argument traffic of the current
    /// placement.
    pub open spec fn stats(&self) -> (int, int, int) {
        let a = self.active();
        let cap = self.settings().node_capacity as int;
        if self.settings().policy.is_stateful() {
            (seq_sum(busy_terms(self.nodes())), 0, seq_sum(traffic_terms(a)))
        } else {
            (
                if cap > 0 {
                    (seq_sum(cpu_terms(a)) + cap - 1) / cap
                } else if seq_sum(cpu_terms(a)) > 0 {
                    usize::MAX as int
                } else {
                    0
                },
                seq_sum(state_terms(a)),
                seq_sum(arg_terms(a)),
            )
        }
    }

    /// Sets up a simulation: the job factory over `tables` seeded from
    /// `settings.seed`, the placement generator seeded with
    /// `settings.seed + PLACEMENT_SEED_OFFSET`, and the first arrival at 0,
    /// the end at `duration` and the first defragmentation at
    /// `defragmentation_interval`.
    pub fn new(settings: Settings, tables: WorkloadTables) -> (r: Result<Simulation, ConfigError>)
        requires
            settings.seed <= u64::MAX - 58 * SEED_STEP,
        ensures
            r == Err::<Simulation, ConfigError>(ConfigError::VanishingDuration) <==> settings.duration == 0,
            r == Err::<Simulation, ConfigError>(ConfigError::VanishingDefragmentationInterval)
                <==> settings.duration > 0
                && settings.defragmentation_interval == 0,
            (r is Err && r->Err_0 is Tables) <==> settings.duration > 0
                && settings.defragmentation_interval > 0 && !tables_ok(tables),
            r is Ok <==> settings.duration > 0 && settings.defragmentation_interval > 0 && tables_ok(tables),
            r is Ok ==> {
                let sim = r->Ok_0;
                &&& sim.wf()
                &&& sim.settings() == settings
                &&& sim.active().len() == 0
                &&& sim.nodes().len() == 0
                &&& sim.now() == 0
                &&& sim.next_id() == 0
                &&& !sim.arrival_pending()
                &&& sim.events() == seq![
                    Event::JobStart(0),
                    Event::ExperimentEnd(settings.duration),
                    Event::Defragmentation(settings.defragmentation_interval),
                ]
                &&& sim.factory().cpu_values() == tables.task_cpu.values@
                &&& sim.factory().draws_valid() <==> crate::factory::tables_draw_valid(tables)
            },
    {
        if settings.duration == 0 {
            return Err(ConfigError::VanishingDuration);
        }
        if settings.defragmentation_interval == 0 {
            return Err(ConfigError::VanishingDefragmentationInterval);
        }
        let job_factory = match JobFactory::new(settings.seed, tables) {
            Ok(f) => f,
            Err(e) => {
                return Err(ConfigError::Tables(e));
            },
        };
        let mut events: Vec<Event> = Vec::new();
        events.push(Event::JobStart(0));
        events.push(Event::ExperimentEnd(settings.duration));
        events.push(Event::Defragmentation(settings.defragmentation_interval));
        let sim = Simulation {
            job_factory,
            active: Vec::new(),
            nodes: Vec::new(),
            allocate_rng: seeded_rng(settings.seed + PLACEMENT_SEED_OFFSET),
            events,
            now: 0,
            next_id: 0,
            arrival_pending: false,
            settings,
        };
        assert(sim.events@ =~= seq![
            Event::JobStart(0),
            Event::ExperimentEnd(settings.duration),
            Event::Defragmentation(settings.defragmentation_interval),
        ]);
        assert(placement_ok(sim.active@, sim.nodes@, settings.node_capacity as int));
        Ok(sim)
    }
}

/// The first task whose CPU request exceeds `cap`, if any.
fn first_too_large(job: &Job, cap: usize) -> (r: Option<usize>)
    requires
        job.wf(),
    ensures
        r is None ==> forall|u: int| 0 <= u < job.tasks().len() ==> (#[trigger] job.tasks()[u]).cpu_request <= cap,
        r is Some ==> r->Some_0 < job.tasks().len() && job.tasks()[r->Some_0 as int].cpu_request > cap,
{
    let n = job.node_count();
    let mut t: usize = 0;
    while t < n
        invariant
            job.wf(),
            t <= n,
            n == job.tasks().len(),
            forall|u: int| 0 <= u < t ==> (#[trigger] job.tasks()[u]).cpu_request <= cap,
        decreases n - t,
    {
        if job.task(t).cpu_request > cap {
            return Some(t);
        }
        t = t + 1;
    }
    None
}

/// `a + b`, or `u64::MAX` if that does not fit.
pub open spec fn sat_add(a: u64, b: u64) -> u64 {
    if a as int + b as int <= u64::MAX {
        (a + b) as u64
    } else {
        u64::MAX
    }
}

fn later(a: u64, b: u64) -> (r: u64)
    ensures
        r == sat_add(a, b),
{
    if a <= u64::MAX - b {
        a + b
    } else {
        u64::MAX
    }
}

impl Simulation {
    /// The busy nodes, state traffic and argument traffic of the current
    /// placement.
    fn compute_stats(&self) -> (r: (u128, u128, u128))
        requires
            self.wf(),
        ensures
            r.0 as int == self.stats().0,
            r.1 as int == self.stats().1,
            r.2 as int == self.stats().2,
    {
        let cap = self.settings.node_capacity;
        proof {
            assert forall|i: int| 0 <= i < self.active@.len()
                implies (#[trigger] self.active@[i]).job.wf() by {}
        }
        match self.settings.policy {
            Policy::StatefulBestFit | Policy::StatefulRandom => {
                let busy = busy_count(&self.nodes);
                let traffic = total_cross_traffic(&self.active);
                (busy as u128, 0, traffic)
            },
            _ => {
                let (cpu, state, args) = job_totals(&self.active);
                proof {
                    lemma_word_products(0);
                    if self.active.len() > 0 {
                        lemma_word_products(self.active.len() - 1);
                    }
                }
                let busy = if cap > 0 {
                    (cpu + (cap as u128) - 1) / (cap as u128)
                } else if cpu > 0 {
                    usize::MAX as u128
                } else {
                    0
                };
                (busy, state, args)
            },
        }
    }

    /// Handles the earliest event (the first queued among equal times):
    /// advances the time to it, samples the statistics of the state before
    /// it, then a departure removes its job and a defragmentation re-places
    /// the jobs and schedules the next one. An arrival waits for `start_job`.
    pub fn step(&mut self) -> (r: Tick)
        requires
            old(self).wf(),
            !old(self).arrival_pending(),
        ensures
            final(self).wf(),
            final(self).settings() == old(self).settings(),
            final(self).next_id() == old(self).next_id(),
            final(self).factory() == old(self).factory(),
            old(self).events().len() == 0 ==> r.step == Step::Finished && *final(self) == *old(self),
            old(self).events().len() > 0 ==> {
                let k = earliest(old(self).events());
                let ev = old(self).events()[k];
                let rest = old(self).events().remove(k);
                &&& r.time == ev.at()
                &&& r.interval == ev.at() - old(self).now()
                &&& final(self).now() == ev.at()
                &&& r.busy_nodes as int == old(self).stats().0
                &&& r.state_traffic as int == old(self).stats().1
                &&& r.edge_traffic as int == old(self).stats().2
                &&& forall|j: int| 0 <= j < old(self).events().len()
                    ==> ev.at() <= (#[trigger] old(self).events()[j]).at()
                &&& match ev {
                    Event::JobStart(_) => r.step == Step::Arrival && final(self).arrival_pending()
                        && final(self).active() == old(self).active() && final(self).events() == rest,
                    Event::JobEnd(_, id) => r.step == Step::Departure(id) && !final(self).arrival_pending()
                        && final(self).events() == rest
                        && (forall|i: int| 0 <= i < old(self).active().len()
                            && (#[trigger] old(self).active()[i]).id == id
                            ==> final(self).active() == old(self).active().remove(i))
                        && ((forall|i: int| 0 <= i < old(self).active().len()
                            ==> (#[trigger] old(self).active()[i]).id != id)
                            ==> final(self).active() == old(self).active()),
                    Event::ExperimentEnd(_) => r.step == Step::Finished && !final(self).arrival_pending()
                        && final(self).active() == old(self).active() && final(self).events() == rest,
                    Event::Defragmentation(_) => !final(self).arrival_pending()
                        && final(self).events() == rest.push(Event::Defragmentation(sat_add(ev.at(), old(self).settings().defragmentation_interval)))
                        && final(self).active().len() == old(self).active().len()
                        && (forall|i: int| 0 <= i < old(self).active().len()
                            ==> (#[trigger] final(self).active()[i]).id == old(self).active()[i].id
                            && final(self).active()[i].job == old(self).active()[i].job)
                        && (old(self).settings().policy == Policy::StatefulBestFit
                            ==> r.step == Step::Defragmented(
                            migration_traffic(placements(old(self).active()), final(self).active()) as u128,
                            migration_count(placements(old(self).active()), final(self).active()) as u128))
                        && (old(self).settings().policy != Policy::StatefulBestFit
                            ==> r.step == Step::Defragmented(0, 0))
                        && (old(self).settings().policy == Policy::StatefulBestFit ==> (exists|hs: Seq<Seq<Seq<Node>>>|
                            #[trigger] rebuilt(old(self).settings().node_capacity as int, final(self).active(), hs, final(self).nodes()))
                            && forall|m: int| 0 <= m < final(self).nodes().len() ==> (#[trigger] final(self).nodes()[m]).jobs@.len() > 0),
                }
            },
    {
        if self.events.len() == 0 {
            let stats = self.compute_stats();
            return Tick {
                time: self.now,
                interval: 0,
                busy_nodes: stats.0,
                state_traffic: stats.1,
                edge_traffic: stats.2,
                step: Step::Finished,
            };
        }
        let ghost s0 = *self;
        proof {
            lemma_earliest(self.events@);
            assert(self.events@[earliest(self.events@)].at() >= self.now);
        }
        let ev = pop_earliest(&mut self.events);
        proof {
            lemma_ends_remove(s0.events@, s0.active@, earliest(s0.events@));
        }
        let time = ev.time();
        let interval = time - self.now;
        self.now = time;
        proof {
            assert forall|k: int| 0 <= k < self.events@.len()
                implies (#[trigger] self.events@[k]).at() >= self.now by {
                let q = s0.events@;
                let e = earliest(q);
                let kk = if k < e { k } else { k + 1 };
                assert(self.events@[k] == q[kk]);
            }
        }
        let stats = self.compute_stats();
        let cap = self.settings.node_capacity;
        let step = match ev {
            Event::JobStart(_) => {
                self.arrival_pending = true;
                Step::Arrival
            },
            Event::JobEnd(_, id) => {
                proof {
                    let q = s0.events@;
                    let k = earliest(q);
                    assert(ends_job(q[k], id));
                    assert(has_id(s0.active@, id));
                    assert forall|j: int| 0 <= j < self.events@.len() implies !#[trigger] ends_job(self.events@[j], id) by {
                        let jj = if j < k { j } else { j + 1 };
                        assert(self.events@[j] == q[jj]);
                    }
                    let i = choose|i: int| 0 <= i < s0.active@.len() && (#[trigger] s0.active@[i]).id == id;
                    lemma_ends_drop(self.events@, s0.active@, i);
                }
                deallocate(&mut self.active, &mut self.nodes, cap, id);
                proof {
                    let a0 = s0.active@;
                    assert forall|i: int| 0 <= i < self.active@.len()
                        implies (#[trigger] self.active@[i]).id < self.next_id by {
                        if exists|j: int| 0 <= j < a0.len() && (#[trigger] a0[j]).id == id {
                            let j = choose|j: int| 0 <= j < a0.len() && (#[trigger] a0[j]).id == id;
                            let ii = if i < j { i } else { i + 1 };
                            assert(self.active@[i] == a0[ii]);
                        }
                    }
                    if s0.settings.policy.is_stateful() {
                        if exists|j: int| 0 <= j < a0.len() && (#[trigger] a0[j]).id == id {
                            let j = choose|j: int| 0 <= j < a0.len() && (#[trigger] a0[j]).id == id;
                            assert forall|i: int| 0 <= i < self.active@.len()
                                implies (#[trigger] self.active@[i]).placement@.len() == self.active@[i].job.tasks().len() by {
                                let ii = if i < j { i } else { i + 1 };
                                assert(self.active@[i] == a0[ii]);
                            }
                            assert forall|i: int, t: int| 0 <= i < self.active@.len()
                                && 0 <= t < self.active@[i].job.tasks().len()
                                implies (#[trigger] self.active@[i].job.tasks()[t]).cpu_request <= cap by {
                                let ii = if i < j { i } else { i + 1 };
                                assert(self.active@[i] == a0[ii]);
                            }
                        }
                    } else {
                        if exists|j: int| 0 <= j < a0.len() && (#[trigger] a0[j]).id == id {
                            let j = choose|j: int| 0 <= j < a0.len() && (#[trigger] a0[j]).id == id;
                            assert forall|i: int| 0 <= i < self.active@.len()
                                implies (#[trigger] self.active@[i]).placement@.len() == 0 by {
                                let ii = if i < j { i } else { i + 1 };
                                assert(self.active@[i] == a0[ii]);
                            }
                        }
                    }
                }
                Step::Departure(id)
            },
            Event::ExperimentEnd(_) => Step::Finished,
            Event::Defragmentation(_) => {
                let (traffic, moves) = defragment(
                    &mut self.active,
                    &mut self.nodes,
                    cap,
                    &mut self.allocate_rng,
                    self.settings.policy,
                );
                proof {
                    if s0.settings.policy == Policy::StatefulBestFit {
                        let hs = choose|hs: Seq<Seq<Seq<Node>>>| #[trigger] rebuilt(cap as int, self.active@, hs, self.nodes@);
                        assert(rebuilt(s0.settings.node_capacity as int, self.active@, hs, self.nodes@));
                        assert(rebuilt(s0.settings.node_capacity as int, self.active(), hs, self.nodes()));
                        assert forall|m: int| 0 <= m < self.nodes().len() implies (#[trigger] self.nodes()[m]).jobs@.len() > 0 by {
                            assert(self.nodes@[m].jobs@.len() > 0);
                        }
                    }
                }
                let ghost q1 = self.events@;
                let next = later(time, self.settings.defragmentation_interval);
                self.events.push(Event::Defragmentation(next));
                proof {
                    lemma_ends_same_ids(q1, s0.active@, self.active@);
                    assert forall|j: int, id: u64| 0 <= j < self.events@.len() && #[trigger] ends_job(self.events@[j], id)
                        implies has_id(self.active@, id) by {
                        assert(j < q1.len());
                        assert(self.events@[j] == q1[j]);
                    }
                    assert forall|j1: int, j2: int, id: u64|
                        0 <= j1 < self.events@.len() && 0 <= j2 < self.events@.len() && j1 != j2
                        && #[trigger] ends_job(self.events@[j1], id)
                        implies !#[trigger] ends_job(self.events@[j2], id) by {
                        if j2 < q1.len() {
                            assert(self.events@[j1] == q1[j1] && self.events@[j2] == q1[j2]);
                        }
                    }
                    let a0 = s0.active@;
                    assert forall|i: int| 0 <= i < self.active@.len()
                        implies (#[trigger] self.active@[i]).id < self.next_id by {
                        assert(a0[i].id < s0.next_id);
                    }
                    if !s0.settings.policy.is_stateful() {
                        assert(self.active@ == a0);
                    }
                    assert forall|k: int| 0 <= k < self.events@.len()
                        implies (#[trigger] self.events@[k]).at() >= self.now by {
                        if k < self.events@.len() - 1 {
                            assert(self.events@[k] == self.events@.drop_last()[k]);
                        }
                    }
                }
                proof {
                    if s0.settings.policy == Policy::StatefulBestFit {
                        let hs = choose|hs: Seq<Seq<Seq<Node>>>| #[trigger] rebuilt(cap as int, self.active@, hs, self.nodes@);
                        assert(rebuilt(old(self).settings().node_capacity as int, self.active(), hs, self.nodes()));
                        assert(exists|hs: Seq<Seq<Seq<Node>>>| #[trigger] rebuilt(old(self).settings().node_capacity as int, self.active(), hs, self.nodes()));
                        assert(forall|m: int| 0 <= m < self.nodes().len() ==> (#[trigger] self.nodes()[m]).jobs@.len() > 0);
                    }
                }
                Step::Defragmented(traffic, moves)
            },
        };
        Tick {
            time,
            interval,
            busy_nodes: stats.0,
            state_traffic: stats.1,
            edge_traffic: stats.2,
            step,
        }
    }
}

impl Simulation {
    /// Admits the arriving job: makes it, records it under the next job ID,
    /// places its tasks (stateful policies), and schedules its end
    /// `lifetime` seconds from now and the next arrival `interarrival`
    /// seconds from now (both saturating at `u64::MAX`). Returns the job ID.
    pub fn start_job(&mut self, lifetime: u64, interarrival: u64) -> (r: Result<u64, StartError>)
        requires
            old(self).wf(),
            old(self).arrival_pending(),
            old(self).next_id() < u64::MAX,
        ensures
            final(self).wf(),
            !final(self).arrival_pending(),
            final(self).settings() == old(self).settings(),
            final(self).now() == old(self).now(),
            final(self).factory().draws_valid() == old(self).factory().draws_valid(),
            old(self).factory().draws_valid() ==> !(r matches Err(StartError::Make(_))),
            r matches Err(StartError::TaskTooLarge(id, _)) ==> id == old(self).next_id()
                && old(self).settings().policy.is_stateful() && exists|k: int|
                0 <= k < old(self).factory().cpu_values().len()
                && #[trigger] old(self).factory().cpu_values()[k] > old(self).settings().node_capacity,
            old(self).factory().draws_valid() && (old(self).settings().policy.is_stateful()
                ==> crate::rv_histo::values_within(
                old(self).factory().cpu_values(),
                0,
                old(self).settings().node_capacity as int,
            )) ==> r is Ok,
            r is Ok ==> {
                let a = final(self).active();
                let id = old(self).next_id();
                &&& r->Ok_0 == id
                &&& final(self).next_id() == id + 1
                &&& a.len() == old(self).active().len() + 1
                &&& forall|i: int| 0 <= i < old(self).active().len()
                    ==> #[trigger] a[i] == old(self).active()[i]
                &&& a.last().id == id
                &&& old(self).settings().policy.is_stateful() ==> (exists|h: Seq<Seq<Node>>|
                    #[trigger] placement_trace(old(self).settings().policy, old(self).settings().node_capacity as int, a.last(), 0, h)
                    && h[0] == old(self).nodes() && h.last() == final(self).nodes())
                    && nodes_extended(old(self).nodes(), final(self).nodes())
                &&& !old(self).settings().policy.is_stateful() ==> final(self).nodes() == old(self).nodes()
                &&& final(self).events() == old(self).events().push(
                    Event::JobEnd(sat_add(old(self).now(), lifetime), id),
                ).push(Event::JobStart(sat_add(old(self).now(), interarrival)))
            },
            r is Err ==> final(self).active() == old(self).active() && final(self).events()
                == old(self).events() && final(self).next_id() == old(self).next_id(),
    {
        self.arrival_pending = false;
        let ghost f0 = self.job_factory;
        let job = match self.job_factory.make() {
            Ok(j) => j,
            Err(e) => {
                return Err(StartError::Make(e));
            },
        };
        let ghost s0 = *self;
        let cap = self.settings.node_capacity;
        let id = self.next_id;
        let stateful = match self.settings.policy {
            Policy::StatefulBestFit | Policy::StatefulRandom => true,
            _ => false,
        };
        if stateful {
            if let Some(t) = first_too_large(&job, cap) {
                proof {
                    let c = job.tasks()[t as int].cpu_request;
                    assert(f0.cpu_values().contains(c));
                    let k = choose|k: int| 0 <= k < f0.cpu_values().len() && f0.cpu_values()[k] == c;
                    assert(f0.cpu_values()[k] > cap);
                    assert(f0 == old(self).factory());
                    assert(old(self).settings().policy.is_stateful());
                    assert(id == old(self).next_id());
                }
                return Err(StartError::TaskTooLarge(id, t));
            }
        }
        let entry = Active { id, job, placement: Vec::new() };
        proof {
            lemma_push_entry(self.active@, self.nodes@, cap as int, entry);
        }
        self.active.push(entry);
        let i = self.active.len() - 1;
        proof {
            if stateful {
                let a = self.active@;
                assert forall|j: int, t: int| 0 <= j < a.len()
                    && 0 <= t < a[j].job.tasks().len()
                    implies (#[trigger] a[j].job.tasks()[t]).cpu_request <= cap by {
                    if j < a.len() - 1 {
                        assert(a[j] == s0.active@[j]);
                    }
                }
            }
        }
        let trace = allocate(&mut self.active, &mut self.nodes, cap, &mut self.allocate_rng, self.settings.policy, i);
        proof {
            if stateful {
                assert forall|j: int| 0 <= j < self.active@.len()
                    implies (#[trigger] self.active@[j]).placement@.len() == self.active@[j].job.tasks().len() by {
                    if j < self.active@.len() - 1 {
                        assert(self.active@[j] == s0.active@[j]);
                    }
                }
                assert(placement_trace(self.settings.policy, cap as int, self.active@[i as int], 0, trace@));
                assert(self.active@.last() == self.active@[i as int]);
                assert(trace@[0] == old(self).nodes@ && trace@.last() == self.nodes@);
                assert(placement_trace(old(self).settings.policy, old(self).settings.node_capacity as int,
                    self.active@.last(), 0, trace@));
            } else {
                assert forall|j: int| 0 <= j < self.active@.len()
                    implies (#[trigger] self.active@[j]).placement@.len() == 0 by {
                    if j < self.active@.len() - 1 {
                        assert(self.active@[j] == s0.active@[j]);
                    }
                }
            }
        }
        self.next_id = id + 1;
        let now = self.now;
        self.events.push(Event::JobEnd(later(now, lifetime), id));
        self.events.push(Event::JobStart(later(now, interarrival)));
        proof {
            assert forall|j: int| 0 <= j < self.active@.len()
                implies (#[trigger] self.active@[j]).id < self.next_id by {
                if j < self.active@.len() - 1 {
                    assert(s0.active@[j].id < s0.next_id);
                }
            }
            assert forall|k: int| 0 <= k < self.events@.len()
                implies (#[trigger] self.events@[k]).at() >= self.now by {
                if k < s0.events@.len() {
                    assert(self.events@[k] == s0.events@[k]);
                }
            }
            let q0 = s0.events@;
            let q = self.events@;
            let a = self.active@;
            assert forall|k: int, x: u64| 0 <= k < q.len() && #[trigger] ends_job(q[k], x) implies has_id(a, x) by {
                if k < q0.len() {
                    assert(q[k] == q0[k]);
                    let i = choose|i: int| 0 <= i < s0.active@.len() && (#[trigger] s0.active@[i]).id == x;
                    assert(a[i].id == x);
                } else {
                    assert(a[a.len() - 1].id == id);
                }
            }
            assert forall|k1: int, k2: int, x: u64|
                0 <= k1 < q.len() && 0 <= k2 < q.len() && k1 != k2 && #[trigger] ends_job(q[k1], x)
                implies !#[trigger] ends_job(q[k2], x) by {
                if k1 < q0.len() && k2 < q0.len() {
                    assert(q[k1] == q0[k1] && q[k2] == q0[k2]);
                } else if k1 < q0.len() || k2 < q0.len() {
                    let ko = if k1 < q0.len() { k1 } else { k2 };
                    assert(q[ko] == q0[ko]);
                    if ends_job(q0[ko], x) {
                        let i = choose|i: int| 0 <= i < s0.active@.len() && (#[trigger] s0.active@[i]).id == x;
                        assert(s0.active@[i].id < s0.next_id);
                    }
                }
            }
        }
        proof {
            if stateful {
                assert(placement_trace(old(self).settings().policy, old(self).settings().node_capacity as int,
                    self.active().last(), 0, trace@));
                assert(trace@[0] == old(self).nodes() && trace@.last() == self.nodes());
                assert(nodes_extended(old(self).nodes(), self.nodes()));
            } else {
                assert(self.nodes() == old(self).nodes());
            }
        }
        Ok(id)
    }

    /// The current simulated time.
    pub fn time(&self) -> (r: u64)
        ensures
            r == self.now(),
    {
        self.now
    }

    /// Whether an arrival waits for `start_job`.
    pub fn awaiting_arrival(&self) -> (r: bool)
        ensures
            r == self.arrival_pending(),
    {
        self.arrival_pending
    }

    /// The ID the next admitted job gets.
    pub fn next_job_id(&self) -> (r: u64)
        ensures
            r == self.next_id(),
    {
        self.next_id
    }

    /// Number of active jobs.
    pub fn active_jobs(&self) -> (r: usize)
        ensures
            r == self.active().len(),
    {
        self.active.len()
    }

    /// Number of nodes ever created.
    pub fn node_count(&self) -> (r: usize)
        ensures
            r == self.nodes().len(),
    {
        self.nodes.len()
    }

    /// The settings.
    pub fn settings_of(&self) -> (r: Settings)
        ensures
            r == self.settings(),
    {
        self.settings
    }
}

/// No node carries more CPU than the node capacity, and each node's used
/// capacity is the sum of the CPU requests of the tasks placed on it.
pub proof fn lemma_node_capacity(sim: &Simulation, n: int)
    requires
        sim.wf(),
        0 <= n < sim.nodes().len(),
    ensures
        node_load(sim.active(), n) <= sim.settings().node_capacity,
        sim.nodes()[n].used == node_load(sim.active(), n),
{
    assert(sim.nodes@[n] == sim.nodes@[n]);
}

/// A placed task of an active job appears in the list of exactly one node:
/// the node the allocation index gives it.
pub proof fn lemma_single_host(sim: &Simulation, i: int, t: int, n: int)
    requires
        sim.wf(),
        0 <= i < sim.active().len(),
        0 <= t < sim.active()[i].placement@.len(),
        0 <= n < sim.nodes().len(),
    ensures
        sim.nodes()[n].jobs@.contains((sim.active()[i].id, t as u32)) <==> n == sim.active()[i].placement@[t],
{
    let a = sim.active@;
    let x = (a[i].id, t as u32);
    assert(a[i].job.wf());
    assert(sim.nodes@[n].jobs@.contains(x) <==> hosts(a, n, x));
    if hosts(a, n, x) {
        let q = choose|q: int|
            0 <= q < a.len() && (#[trigger] a[q]).id == x.0 && x.1 < a[q].placement@.len()
                && a[q].placement@[x.1 as int] == n;
        lemma_ids_unique(a, q, i);
    }
    if n == a[i].placement@[t] {
        assert(hosts(a, n, x));
    }
}

/// Each job ID appears at most once in the active-jobs table.
pub proof fn lemma_unique_ids(sim: &Simulation, i: int, j: int)
    requires
        sim.wf(),
        0 <= i < sim.active().len(),
        0 <= j < sim.active().len(),
        i != j,
    ensures
        sim.active()[i].id != sim.active()[j].id,
{
    if sim.active@[i].id == sim.active@[j].id {
        lemma_ids_unique(sim.active@, i, j);
    }
}

} // verus!
