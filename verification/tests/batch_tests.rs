use aerospike_core::batch::apply_response;
use aerospike_core::batch::chunk_jobs;
use aerospike_core::batch::collect_worker_results;
use aerospike_core::batch::flatten_jobs;
use aerospike_core::batch::BatchExecutor;
use aerospike_core::batch::BatchOutcome;
use aerospike_core::batch::BatchRead;
use aerospike_core::batch::Bins;
use aerospike_core::batch::Concurrency;
use aerospike_core::batch::Job;
use aerospike_core::batch::NodeResponse;
use aerospike_core::batch::Record;
use aerospike_core::cluster::ClusterView;
use aerospike_core::errors::BatchError;
use aerospike_core::key::partition_of;
use aerospike_core::key::Key;
use aerospike_core::key::PARTITION_COUNT;
use aerospike_core::value::Value;

fn key(user: &[u8]) -> Key {
    Key { namespace: b"test".to_vec(), set_name: b"demo".to_vec(), user_key: user.to_vec() }
}

fn read(user: &[u8]) -> BatchRead {
    BatchRead::new(key(user), Bins::All)
}

/// A view that owns every partition touched by `keys`, assigning them round
/// robin to `nodes`.
fn view_for(keys: &[Key], nodes: &[u64]) -> ClusterView {
    let mut view = ClusterView::new();
    for (i, k) in keys.iter().enumerate() {
        let p = partition_of(k);
        view.set_owner(p, nodes[i % nodes.len()]);
    }
    view
}

/// Run the whole pipeline with a deterministic per-key mock execution step:
/// every key is found with a generation equal to its first user-key byte.
fn run_pipeline(view: ClusterView, concurrency: Concurrency, reads: Vec<BatchRead>) -> Result<Vec<BatchRead>, BatchError> {
    let executor = BatchExecutor::new(view);
    let jobs = executor.get_batch_nodes(reads)?;
    let chunks = chunk_jobs(jobs, &concurrency);
    let mut results: Vec<Result<Vec<Job>, BatchError>> = Vec::new();
    for chunk in chunks {
        let mut done: Vec<Job> = Vec::new();
        let mut failed = false;
        for job in chunk {
            let records: Vec<Option<Record>> = job
                .reads
                .iter()
                .map(|r| {
                    Some(Record { generation: r.key.user_key[0] as u32, bins: Vec::new() })
                })
                .collect();
            match apply_response(job, NodeResponse::Records(records)) {
                Ok(j) => done.push(j),
                Err(_) => {
                    failed = true;
                    break;
                },
            }
        }
        if failed {
            results.push(Err(BatchError::Execution));
        } else {
            results.push(Ok(done));
        }
    }
    let completed = collect_worker_results(results)?;
    Ok(flatten_jobs(completed))
}

fn sorted_keys(reads: &[BatchRead]) -> Vec<Vec<u8>> {
    let mut ks: Vec<Vec<u8>> = reads.iter().map(|r| r.key.user_key.clone()).collect();
    ks.sort();
    ks
}

#[test]
fn partition_is_deterministic_and_in_range() {
    let k = key(b"alpha");
    let p1 = partition_of(&k);
    let p2 = partition_of(&k);
    assert_eq!(p1, p2);
    assert!(p1 < PARTITION_COUNT);
}

#[test]
fn grouping_keeps_per_node_order_and_first_appearance() {
    let keys = [key(b"a"), key(b"b"), key(b"c")];
    let mut view = ClusterView::new();
    view.set_owner(partition_of(&keys[0]), 10);
    view.set_owner(partition_of(&keys[1]), 20);
    view.set_owner(partition_of(&keys[2]), 10);
    let executor = BatchExecutor::new(view);
    let jobs = executor
        .get_batch_nodes(vec![read(b"a"), read(b"b"), read(b"c")])
        .expect("all partitions owned");
    assert_eq!(jobs.len(), 2);
    assert_eq!(jobs[0].node, 10);
    assert_eq!(jobs[0].reads.len(), 2);
    assert_eq!(jobs[0].reads[0].key.user_key, b"a".to_vec());
    assert_eq!(jobs[0].reads[1].key.user_key, b"c".to_vec());
    assert_eq!(jobs[1].node, 20);
    assert_eq!(jobs[1].reads.len(), 1);
    assert_eq!(jobs[1].reads[0].key.user_key, b"b".to_vec());
}

#[test]
fn grouping_empty_input_yields_no_jobs() {
    let executor = BatchExecutor::new(ClusterView::new());
    let jobs = executor.get_batch_nodes(Vec::new()).expect("empty batch groups");
    assert!(jobs.is_empty());
}

#[test]
fn routing_failure_fails_whole_batch() {
    let keys = [key(b"a"), key(b"b")];
    let mut view = ClusterView::new();
    view.set_owner(partition_of(&keys[0]), 10);
    // the second key's partition has no owner
    let executor = BatchExecutor::new(view);
    let r = executor.get_batch_nodes(vec![read(b"a"), read(b"b")]);
    assert_eq!(r, Err(BatchError::Routing));
}

#[test]
fn chunking_splits_remainder_into_last_chunk() {
    let jobs: Vec<Job> = (0u64..5)
        .map(|n| Job { node: n, reads: Vec::new() })
        .collect();
    let chunks = chunk_jobs(jobs, &Concurrency::MaxThreads(2));
    assert_eq!(chunks.len(), 2);
    assert_eq!(chunks[0].len(), 2);
    assert_eq!(chunks[1].len(), 3);
}

#[test]
fn chunking_sequential_is_one_chunk() {
    let jobs: Vec<Job> = (0u64..4).map(|n| Job { node: n, reads: Vec::new() }).collect();
    let chunks = chunk_jobs(jobs, &Concurrency::Sequential);
    assert_eq!(chunks.len(), 1);
    assert_eq!(chunks[0].len(), 4);
}

#[test]
fn chunking_parallel_is_one_job_per_chunk() {
    let jobs: Vec<Job> = (0u64..4).map(|n| Job { node: n, reads: Vec::new() }).collect();
    let chunks = chunk_jobs(jobs, &Concurrency::Parallel);
    assert_eq!(chunks.len(), 4);
    for c in &chunks {
        assert_eq!(c.len(), 1);
    }
}

#[test]
fn chunking_empty_jobs_yields_no_chunks() {
    let chunks = chunk_jobs(Vec::new(), &Concurrency::Parallel);
    assert!(chunks.is_empty());
}

#[test]
fn bounded_extremes_match_parallel_and_sequential() {
    let make = || -> Vec<Job> { (0u64..3).map(|n| Job { node: n, reads: Vec::new() }).collect() };
    assert_eq!(
        chunk_jobs(make(), &Concurrency::MaxThreads(7)),
        chunk_jobs(make(), &Concurrency::Parallel)
    );
    assert_eq!(
        chunk_jobs(make(), &Concurrency::MaxThreads(1)),
        chunk_jobs(make(), &Concurrency::Sequential)
    );
}

#[test]
fn sequential_batch_is_permutation_all_resolved() {
    let keys = [key(b"a"), key(b"b"), key(b"c"), key(b"d")];
    let view = view_for(&keys, &[10, 20]);
    let input = vec![read(b"a"), read(b"b"), read(b"c"), read(b"d")];
    let expected = sorted_keys(&input);
    let out = run_pipeline(view, Concurrency::Sequential, input).expect("batch succeeds");
    assert_eq!(out.len(), 4);
    assert_eq!(sorted_keys(&out), expected);
    for r in &out {
        match &r.outcome {
            Some(BatchOutcome::Found(rec)) => {
                assert_eq!(rec.generation, r.key.user_key[0] as u32)
            },
            other => panic!("request not resolved as found: {:?}", other),
        }
    }
}

#[test]
fn result_set_is_policy_independent() {
    let keys = [key(b"a"), key(b"b"), key(b"c"), key(b"d"), key(b"e")];
    let policies = [
        Concurrency::Sequential,
        Concurrency::Parallel,
        Concurrency::MaxThreads(1),
        Concurrency::MaxThreads(2),
        Concurrency::MaxThreads(3),
    ];
    let mut outcomes: Vec<Vec<(Vec<u8>, u32)>> = Vec::new();
    for policy in policies {
        let view = view_for(&keys, &[10, 20, 30]);
        let input: Vec<BatchRead> =
            [b"a", b"b", b"c", b"d", b"e"].iter().map(|u| read(*u)).collect();
        let out = run_pipeline(view, policy, input).expect("batch succeeds");
        let mut set: Vec<(Vec<u8>, u32)> = out
            .iter()
            .map(|r| {
                let g = match &r.outcome {
                    Some(BatchOutcome::Found(rec)) => rec.generation,
                    _ => panic!("unresolved request"),
                };
                (r.key.user_key.clone(), g)
            })
            .collect();
        set.sort();
        outcomes.push(set);
    }
    for o in &outcomes[1..] {
        assert_eq!(o, &outcomes[0]);
    }
}

#[test]
fn apply_response_sets_outcomes_in_order() {
    let job = Job { node: 7, reads: vec![read(b"x"), read(b"y")] };
    let records = vec![
        Some(Record { generation: 3, bins: vec![(b"bin".to_vec(), Value::Int(5))] }),
        None,
    ];
    let done = apply_response(job, NodeResponse::Records(records)).expect("lengths match");
    assert_eq!(done.node, 7);
    assert_eq!(done.reads.len(), 2);
    match &done.reads[0].outcome {
        Some(BatchOutcome::Found(rec)) => assert_eq!(rec.generation, 3),
        other => panic!("unexpected outcome: {:?}", other),
    }
    assert_eq!(done.reads[1].outcome, Some(BatchOutcome::NotFound));
}

#[test]
fn apply_response_rejects_unreachable_node() {
    let job = Job { node: 7, reads: vec![read(b"x")] };
    let r = apply_response(job, NodeResponse::Unreachable);
    assert_eq!(r, Err(BatchError::Execution));
}

#[test]
fn apply_response_rejects_wrong_slot_count() {
    let job = Job { node: 7, reads: vec![read(b"x"), read(b"y")] };
    let r = apply_response(job, NodeResponse::Records(vec![None]));
    assert_eq!(r, Err(BatchError::Execution));
}

#[test]
fn one_failing_worker_fails_whole_batch() {
    let ok_chunk = vec![Job { node: 1, reads: vec![read(b"a")] }];
    let results: Vec<Result<Vec<Job>, BatchError>> =
        vec![Ok(ok_chunk), Err(BatchError::Execution)];
    let r = collect_worker_results(results);
    assert_eq!(r, Err(BatchError::Execution));
}

#[test]
fn collect_surfaces_first_error() {
    let results: Vec<Result<Vec<Job>, BatchError>> =
        vec![Err(BatchError::Execution), Err(BatchError::Routing)];
    let r = collect_worker_results(results);
    assert_eq!(r, Err(BatchError::Execution));
}

#[test]
fn collect_flattens_in_worker_order() {
    let results: Vec<Result<Vec<Job>, BatchError>> = vec![
        Ok(vec![Job { node: 1, reads: Vec::new() }]),
        Ok(vec![Job { node: 2, reads: Vec::new() }, Job { node: 3, reads: Vec::new() }]),
    ];
    let flat = collect_worker_results(results).expect("all workers succeeded");
    let nodes: Vec<u64> = flat.iter().map(|j| j.node).collect();
    assert_eq!(nodes, vec![1, 2, 3]);
}

#[test]
fn end_to_end_six_requests_three_nodes_bounded_two() {
    // six distinct keys, two per partition: probe user keys until three
    // partitions have collected two keys each
    let mut buckets: Vec<(u32, Vec<Vec<u8>>)> = Vec::new();
    let mut i: u32 = 0;
    loop {
        let user = format!("probe-{}", i).into_bytes();
        let p = partition_of(&key(&user));
        match buckets.iter_mut().find(|(q, _)| *q == p) {
            Some((_, ks)) => {
                if ks.len() < 2 {
                    ks.push(user);
                }
            },
            None => buckets.push((p, vec![user])),
        }
        if buckets.iter().filter(|(_, ks)| ks.len() == 2).count() >= 3 {
            break;
        }
        i += 1;
    }
    let full: Vec<(u32, Vec<Vec<u8>>)> =
        buckets.into_iter().filter(|(_, ks)| ks.len() == 2).take(3).collect();
    let nodes = [101u64, 102, 103];
    let mut view = ClusterView::new();
    let mut input: Vec<BatchRead> = Vec::new();
    for (slot, (p, ks)) in full.iter().enumerate() {
        view.set_owner(*p, nodes[slot]);
        for u in ks {
            input.push(read(u));
        }
    }
    assert_eq!(input.len(), 6);
    let expected = sorted_keys(&input);

    // the plan itself: three per-node jobs over two workers, 1 + 2
    let executor = BatchExecutor::new(view);
    let jobs = executor.get_batch_nodes(input.clone()).expect("all partitions owned");
    assert_eq!(jobs.len(), 3);
    for job in &jobs {
        assert_eq!(job.reads.len(), 2);
    }
    let chunks = chunk_jobs(jobs, &Concurrency::MaxThreads(2));
    assert_eq!(chunks.len(), 2);
    assert_eq!(chunks[0].len(), 1);
    assert_eq!(chunks[1].len(), 2);

    // and the full run: six resolved results, one per input key
    let view2 = {
        let mut v = ClusterView::new();
        for (slot, (p, _)) in full.iter().enumerate() {
            v.set_owner(*p, nodes[slot]);
        }
        v
    };
    let out = run_pipeline(view2, Concurrency::MaxThreads(2), input).expect("batch succeeds");
    assert_eq!(out.len(), 6);
    assert_eq!(sorted_keys(&out), expected);
    for r in &out {
        assert!(r.outcome.is_some());
    }
}
