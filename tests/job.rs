use stateful_faas_sim::job::{Edge, Job, Vertex};

#[test]
fn test_job_ctor() {
    let job = Job::new(
        vec![
            Vertex::new(100, 1),
            Vertex::new(200, 2),
            Vertex::new(300, 3),
            Vertex::new(400, 4),
        ],
        vec![
            (0, 1, Edge::new(10)),
            (0, 2, Edge::new(20)),
            (1, 3, Edge::new(30)),
            (2, 3, Edge::new(40)),
        ],
    );
    println!("{:?}", petgraph::dot::Dot::new(job.graph()));

    assert_eq!(1000, job.total_cpu());
    assert_eq!(10, job.total_state_size());
    assert_eq!(100, job.total_arg_size());
}

#[test]
fn job_duplicate_edge_overwrites() {
    let job = Job::new(
        vec![Vertex::new(1, 1), Vertex::new(2, 2)],
        vec![(0, 1, Edge::new(10)), (0, 1, Edge::new(25))],
    );
    assert_eq!(2, job.node_count());
    assert_eq!(1, job.edge_count());
    let (u, v, e) = job.link(0);
    assert_eq!((0, 1, 25), (u, v, e.arg_size));
    assert_eq!(25, job.total_arg_size());
}

#[test]
fn job_predecessors_most_recent_first() {
    let job = Job::new(
        vec![Vertex::new(1, 1), Vertex::new(1, 1), Vertex::new(1, 1)],
        vec![(0, 2, Edge::new(1)), (1, 2, Edge::new(1))],
    );
    assert_eq!(vec![1, 0], job.predecessors(2));
    assert!(job.predecessors(0).is_empty());
}

#[test]
fn job_empty_totals() {
    let job = Job::new(vec![Vertex::new(7, 9)], vec![]);
    assert_eq!(1, job.node_count());
    assert_eq!(0, job.edge_count());
    assert_eq!(7, job.total_cpu());
    assert_eq!(9, job.total_state_size());
    assert_eq!(0, job.total_arg_size());
    assert_eq!(7, job.task(0).cpu_request);
}
