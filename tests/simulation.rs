use stateful_faas_sim::factory::{FactoryError, WorkloadTables};
use stateful_faas_sim::rv_histo::{IntTable, MemTable};
use stateful_faas_sim::event::Event;
use stateful_faas_sim::placement::Node;
use stateful_faas_sim::simulation::{ConfigError, Policy, Settings, Simulation, StartError, Step, Tick};

fn table(values: &[usize]) -> IntTable {
    IntTable { weights: vec![1; values.len()], values: values.to_vec() }
}

fn tables(num: &[usize], cpu: &[usize]) -> WorkloadTables {
    WorkloadTables {
        task_num: table(num),
        cpl: (0..34).map(|_| table(&[2, 3])).collect(),
        level: (0..20).map(|_| table(&[1, 2, 3])).collect(),
        task_cpu: table(cpu),
        task_mem: MemTable { weights: vec![1], state_sizes: vec![200], arg_sizes: vec![2] },
    }
}

fn settings(policy: Policy, duration: u64) -> Settings {
    Settings {
        duration,
        node_capacity: 1000,
        defragmentation_interval: 300,
        policy,
        seed: 42,
    }
}

/// Runs to the end, every job living `lifetime` s and arriving `gap` s
/// after the previous one.
fn run(sim: &mut Simulation, lifetime: u64, gap: u64) -> Vec<Tick> {
    let mut ticks = vec![];
    loop {
        let tick = sim.step();
        ticks.push(tick);
        match tick.step {
            Step::Arrival => {
                sim.start_job(lifetime, gap).expect("job made");
            }
            Step::Finished => break,
            _ => {}
        }
    }
    ticks
}

#[test]
fn policy_names() {
    for p in Policy::all() {
        assert_eq!(p, Policy::from(p.name()).unwrap());
    }
    assert_eq!(Policy::StatefulBestFit, Policy::from("stateful-best-fit").unwrap());
    assert_eq!("stateless-max-balancing", Policy::StatelessMaxBalancing.name());
    let err = Policy::from("best").unwrap_err();
    assert_eq!("best", err.name);
    assert_eq!(4, Policy::all().len());
}

#[test]
fn event_times() {
    assert_eq!(3, Event::JobStart(3).time());
    assert_eq!(4, Event::JobEnd(4, 9).time());
    assert_eq!(5, Event::ExperimentEnd(5).time());
    assert_eq!(6, Event::Defragmentation(6).time());
}

#[test]
fn node_residual() {
    let n = Node { jobs: vec![(0, 0)], used: 300 };
    assert!(n.is_active());
    assert_eq!(300, n.capacity_used());
    assert_eq!(Some(200), n.capacity_residual(1000, 500));
    assert_eq!(Some(0), n.capacity_residual(1000, 700));
    assert_eq!(None, n.capacity_residual(1000, 701));
    assert!(!Node { jobs: vec![], used: 0 }.is_active());
}

#[test]
fn config_errors() {
    let t = || tables(&[2], &[300]);
    let mut s = settings(Policy::StatefulBestFit, 0);
    assert_eq!(Some(ConfigError::VanishingDuration), Simulation::new(s, t()).err());
    s.duration = 10;
    s.defragmentation_interval = 0;
    assert_eq!(
        Some(ConfigError::VanishingDefragmentationInterval),
        Simulation::new(s, t()).err()
    );
    s.defragmentation_interval = 5;
    s.node_capacity = 0;
    s.policy = Policy::StatelessMinNodes;
    assert!(Simulation::new(s, t()).is_ok());
    let mut bad = t();
    bad.level.pop();
    assert_eq!(
        Some(ConfigError::Tables(FactoryError::TableCount)),
        Simulation::new(s, bad).err()
    );
}

#[test]
fn first_events() {
    let mut sim = Simulation::new(settings(Policy::StatelessMinNodes, 100), tables(&[2], &[300]))
        .unwrap();
    let t = sim.step();
    assert_eq!((0, 0, 0, 0, 0), (t.time, t.interval, t.busy_nodes, t.state_traffic, t.edge_traffic));
    assert_eq!(Step::Arrival, t.step);
    assert!(sim.awaiting_arrival());
    assert_eq!(Ok(0), sim.start_job(10, 1));
    assert_eq!(1, sim.active_jobs());
    // the job: two tasks of 300 on a path, one edge
    let t = sim.step();
    assert_eq!((1, 1), (t.time, t.interval));
    assert_eq!(1, t.busy_nodes);
    assert_eq!(400, t.state_traffic);
    assert_eq!(2, t.edge_traffic);
}

#[test]
fn best_fit_follows_predecessor() {
    let mut sim = Simulation::new(settings(Policy::StatefulBestFit, 100), tables(&[2], &[300]))
        .unwrap();
    sim.step();
    sim.start_job(50, 1).unwrap();
    let t = sim.step();
    // both tasks on one node: nothing crosses
    assert_eq!((1, 0, 0), (t.busy_nodes, t.state_traffic, t.edge_traffic));
    assert_eq!(1, sim.node_count());
    sim.start_job(50, 1).unwrap();
    let t = sim.step();
    // task 0 fills node 0 to 900, task 1 needs a new node: the edge crosses
    assert_eq!((2, 0, 2), (t.busy_nodes, t.state_traffic, t.edge_traffic));
    assert_eq!(2, sim.node_count());
}

#[test]
fn departures_empty_nodes() {
    let mut sim = Simulation::new(settings(Policy::StatefulRandom, 100), tables(&[2], &[300]))
        .unwrap();
    sim.step();
    sim.start_job(3, 50).unwrap();
    let t = sim.step();
    assert_eq!(Step::Departure(0), t.step);
    assert_eq!(3, t.time);
    assert!(t.busy_nodes >= 1);
    assert_eq!(0, sim.active_jobs());
    let t = sim.step();
    assert_eq!(Step::Arrival, t.step);
    assert_eq!(0, t.busy_nodes);
}

#[test]
fn same_settings_same_run() {
    for policy in Policy::all() {
        let t = || tables(&[1, 2, 5, 9], &[50, 300, 800]);
        let mut a = Simulation::new(settings(policy, 1200), t()).unwrap();
        let mut b = Simulation::new(settings(policy, 1200), t()).unwrap();
        let ra = run(&mut a, 10, 1);
        let rb = run(&mut b, 10, 1);
        assert_eq!(ra, rb);
        assert_eq!(Step::Finished, ra.last().unwrap().step);
        assert_eq!(1200, ra.last().unwrap().time);
    }
}

#[test]
fn defragmentation_reports_moves() {
    let mut sim = Simulation::new(
        settings(Policy::StatefulBestFit, 1000),
        tables(&[1, 2, 5, 9], &[50, 300, 800]),
    )
    .unwrap();
    let ticks = run(&mut sim, 10, 1);
    let defrags: Vec<(u128, u128)> = ticks
        .iter()
        .filter_map(|t| match t.step {
            Step::Defragmented(tr, n) => Some((tr, n)),
            _ => None,
        })
        .collect();
    assert_eq!(3, defrags.len());
    for (traffic, moves) in defrags {
        assert_eq!(moves == 0, traffic == 0);
    }
}

#[test]
fn stateless_defragmentation_is_noop() {
    let mut sim = Simulation::new(settings(Policy::StatelessMaxBalancing, 700), tables(&[2], &[300]))
        .unwrap();
    let ticks = run(&mut sim, 10, 1);
    assert!(ticks.iter().any(|t| t.step == Step::Defragmented(0, 0)));
    assert_eq!(0, sim.node_count());
}

#[test]
fn duration_scaling_stateless() {
    let t = || tables(&[1, 2, 5, 9], &[50, 300, 800]);
    let mut a = Simulation::new(settings(Policy::StatelessMinNodes, 3600), t()).unwrap();
    let mut b = Simulation::new(settings(Policy::StatelessMinNodes, 7200), t()).unwrap();
    let sum = |ticks: &[Tick]| {
        let busy: u128 = ticks.iter().map(|t| t.busy_nodes * t.interval as u128).sum();
        let traffic: u128 = ticks
            .iter()
            .map(|t| (t.state_traffic + t.edge_traffic) * t.interval as u128)
            .sum();
        (busy, traffic)
    };
    let (busy_a, traffic_a) = sum(&run(&mut a, 10, 1));
    let (busy_b, traffic_b) = sum(&run(&mut b, 10, 1));
    let avg_a = busy_a as f64 / 3600.0;
    let avg_b = busy_b as f64 / 7200.0;
    assert!(avg_b * 0.5 < avg_a && avg_b * 1.5 > avg_a);
    assert!(traffic_b as f64 > 1.5 * traffic_a as f64 && (traffic_b as f64) < 2.5 * traffic_a as f64);
}

#[test]
fn defragmentation_does_not_add_busy_nodes() {
    let mut sim = Simulation::new(
        settings(Policy::StatefulBestFit, 3600),
        tables(&[1, 2, 5, 9], &[50, 300, 800]),
    )
    .unwrap();
    let ticks = run(&mut sim, 10, 1);
    let mut seen = 0;
    for w in ticks.windows(2) {
        if let Step::Defragmented(_, _) = w[0].step {
            // the next tick samples the state right after the defragmentation
            assert!(w[1].busy_nodes <= w[0].busy_nodes);
            seen += 1;
        }
    }
    // the one at 3600 s comes after the end of the experiment, queued earlier
    assert_eq!(11, seen);
}

#[test]
fn task_too_large_is_fatal_at_start() {
    let mut s = settings(Policy::StatefulBestFit, 100);
    s.node_capacity = 200;
    let mut sim = Simulation::new(s, tables(&[2], &[300])).expect("configuration accepted");
    assert_eq!(Step::Arrival, sim.step().step);
    assert_eq!(Err(StartError::TaskTooLarge(0, 0)), sim.start_job(10, 1));
    assert_eq!(0, sim.active_jobs());
}

#[test]
fn zero_capacity_stateless() {
    let mut s = settings(Policy::StatelessMinNodes, 100);
    s.node_capacity = 0;
    let mut sim = Simulation::new(s, tables(&[2], &[300])).unwrap();
    sim.step();
    sim.start_job(10, 1).unwrap();
    assert_eq!(usize::MAX as u128, sim.step().busy_nodes);
}
