use stateful_faas_sim::factory::build_job;
use stateful_faas_sim::job::Vertex;
use stateful_faas_sim::factory::{FactoryError, JobFactory, MakeError, TableKind, WorkloadTables};
use stateful_faas_sim::rv_histo::{HistoError, IntTable, MemTable};

fn table(values: &[usize]) -> IntTable {
    IntTable { weights: vec![1; values.len()], values: values.to_vec() }
}

fn tables(num: &[usize], cpl: &[usize], level: &[usize]) -> WorkloadTables {
    WorkloadTables {
        task_num: table(num),
        cpl: (0..34).map(|_| table(cpl)).collect(),
        level: (0..20).map(|_| table(level)).collect(),
        task_cpu: table(&[50, 800]),
        task_mem: MemTable {
            weights: vec![1, 1],
            state_sizes: vec![200, 30300],
            arg_sizes: vec![2, 303],
        },
    }
}

#[test]
fn factory_jobs_within_tables() {
    let mut jf = JobFactory::new(42, tables(&[1, 3, 6, 40, 199], &[1, 2, 5, 30], &[1, 2, 3, 7]))
        .expect("valid tables");
    for _ in 0..2000 {
        let job = jf.make().expect("a level is always drawn");
        let n = job.node_count();
        let e = job.edge_count();
        assert!(n >= 1 && n <= 199);
        assert!(n != 1 || e == 0);
        for t in 0..n {
            let task = job.task(t);
            assert!(task.cpu_request == 50 || task.cpu_request == 800);
            assert!(task.state_size == 200 || task.state_size == 30300);
        }
        for k in 0..e {
            let (u, v, w) = job.link(k);
            assert!((u as usize) < n && (v as usize) < n);
            assert!(w.arg_size == 2 || w.arg_size == 303);
            for j in 0..k {
                let (a, b, _) = job.link(j);
                assert!((a, b) != (u, v));
            }
        }
    }
}

#[test]
fn factory_chain_when_no_siblings() {
    // every job has 4 tasks on a critical path of 4: a chain 0-1-2-3
    let mut jf = JobFactory::new(7, tables(&[4], &[4], &[1])).expect("valid tables");
    let job = jf.make().unwrap();
    assert_eq!(4, job.node_count());
    assert_eq!(3, job.edge_count());
    for k in 0..3 {
        let (u, v, _) = job.link(k);
        assert_eq!((k as u32, k as u32 + 1), (u, v));
    }
}

#[test]
fn factory_same_seed_same_jobs() {
    let t = || tables(&[1, 3, 6, 40], &[1, 2, 5], &[1, 2, 3]);
    let mut a = JobFactory::new(42, t()).unwrap();
    let mut b = JobFactory::new(42, t()).unwrap();
    for _ in 0..200 {
        let x = a.make().unwrap();
        let y = b.make().unwrap();
        assert_eq!(x.node_count(), y.node_count());
        assert_eq!(x.edge_count(), y.edge_count());
        assert_eq!(x.total_cpu(), y.total_cpu());
        assert_eq!(x.total_arg_size(), y.total_arg_size());
    }
}

#[test]
fn factory_level_never_within_path() {
    // one critical-path task, one sibling, and levels drawn only at 2
    let mut jf = JobFactory::new(1, tables(&[2], &[1], &[2])).expect("valid tables");
    assert_eq!(Some(MakeError::LevelNotDrawn), jf.make().err());
}

#[test]
fn factory_table_errors() {
    let mut t = tables(&[2], &[1], &[1]);
    t.cpl.pop();
    assert_eq!(Some(FactoryError::TableCount), JobFactory::new(1, t).err());
    let t = tables(&[2], &[1], &[1]);
    let mut t2 = t;
    t2.task_num = IntTable { weights: vec![1], values: vec![1, 2] };
    assert_eq!(
        Some(FactoryError::Table(TableKind::TaskNum, 0, HistoError::LengthMismatch)),
        JobFactory::new(1, t2).err()
    );
    let mut t = tables(&[2], &[1], &[1]);
    t.level[3] = IntTable { weights: vec![0], values: vec![1] };
    assert_eq!(
        Some(FactoryError::Table(TableKind::Level, 3, HistoError::ZeroTotalWeight)),
        JobFactory::new(1, t).err()
    );
    let mut t = tables(&[2], &[1], &[1]);
    t.task_cpu = IntTable { weights: vec![], values: vec![] };
    assert_eq!(
        Some(FactoryError::Table(TableKind::TaskCpu, 0, HistoError::NoBins)),
        JobFactory::new(1, t).err()
    );
}

#[test]
fn factory_levels_within_path_never_fail() {
    let mut t = tables(&[1, 3, 6, 40, 199], &[1, 2, 5, 30], &[1]);
    for k in 0..20 {
        t.level[k] = table(&(1..=k + 1).collect::<Vec<usize>>());
    }
    let mut jf = JobFactory::new(5, t).expect("valid tables");
    for _ in 0..500 {
        assert!(jf.make().is_ok());
    }
}

#[test]
fn factory_make_errors() {
    let mut jf = JobFactory::new(1, tables(&[0], &[1], &[1])).expect("valid tables");
    assert_eq!(Some(MakeError::NoTasks), jf.make().err());
    let mut jf = JobFactory::new(1, tables(&[1001], &[1], &[1])).expect("valid tables");
    assert_eq!(Some(MakeError::TooManyTasks), jf.make().err());
    let mut jf = JobFactory::new(1, tables(&[2], &[0], &[1])).expect("valid tables");
    assert_eq!(Some(MakeError::ZeroPathLength), jf.make().err());
    let mut jf = JobFactory::new(1, tables(&[2], &[1], &[0])).expect("valid tables");
    assert_eq!(Some(MakeError::ZeroLevel), jf.make().err());
}

#[test]
fn build_job_chain_then_picks_by_level() {
    let job = build_job(
        vec![Vertex::new(1, 2), Vertex::new(3, 4), Vertex::new(5, 6), Vertex::new(7, 8)],
        2,
        vec![0, 1, 0, 1],
        vec![7],
        vec![None, None, Some((3, 9)), Some((0, 5))],
    );
    assert_eq!(4, job.node_count());
    assert_eq!(2, job.edge_count());
    let l: Vec<(u32, u32, usize)> = (0..2).map(|k| {
        let (u, v, e) = job.link(k);
        (u, v, e.arg_size)
    }).collect();
    // the chain, then the picks of level 0 (tasks 0 and 2); level 1 is the
    // last level of the path, so the pick of task 3 is not read
    assert_eq!(vec![(0, 1, 7), (2, 3, 9)], l);
}
