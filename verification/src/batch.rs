//! Partition-aware batch execution: group keyed read requests by the node
//! that owns their partition, slice the per-node jobs into worker chunks
//! according to a concurrency policy, and reassemble the per-worker results
//! into one result list — or the first failure.
//!
//! The network round trip itself is an outside collaborator: a worker loop
//! hands each job's reply back through [`apply_response`] and the collected
//! worker outcomes through [`collect_worker_results`], so everything this
//! module decides is verified.

use vstd::prelude::*;
use vstd::multiset::Multiset;
use crate::cluster::ClusterView;
use crate::errors::BatchError;
use crate::key::Key;
use crate::key::spec_partition;
use crate::lemmas::lemma_filter_push;
use crate::lemmas::lemma_flatten_update_push;
use crate::value::Value;

verus! {

/// Which bins (record fields) a read asks for.
#[derive(Clone, Debug, PartialEq, Eq)]
pub enum Bins {
    /// Fetch every bin of the record.
    All,
    /// Fetch only the record header, no bin data.
    HeaderOnly,
    /// Fetch the named bins only.
    Chosen(Vec<Vec<u8>>),
}

/// A record as a node returns it: its generation counter and its bins.
#[derive(Clone, Debug, PartialEq, Eq)]
pub struct Record {
    pub generation: u32,
    pub bins: Vec<(Vec<u8>, Value)>,
}

/// The outcome one request ends with after its node answered.
#[derive(Clone, Debug, PartialEq, Eq)]
pub enum BatchOutcome {
    Found(Record),
    NotFound,
}

/// One keyed read request; `outcome` stays empty until its node's reply is
/// applied.
#[derive(Clone, Debug, PartialEq, Eq)]
pub struct BatchRead {
    pub key: Key,
    pub bins: Bins,
    pub outcome: Option<BatchOutcome>,
}

impl BatchRead {
    /// A fresh request for `key`, not yet executed.
    pub fn new(key: Key, bins: Bins) -> (r: BatchRead)
        ensures
            r.key == key,
            r.bins == bins,
            r.outcome is None,
    {
        BatchRead { key, bins, outcome: Option::None }
    }
}

/// One unit of scheduled work: a node and the requests routed to it, in their
/// original relative order. Consumed by exactly one worker.
#[derive(Clone, Debug, PartialEq, Eq)]
pub struct Job {
    pub node: u64,
    pub reads: Vec<BatchRead>,
}

/// Caller-tunable fan-out policy for a batch.
#[derive(Clone, Copy, Debug, PartialEq, Eq)]
pub enum Concurrency {
    /// One worker runs every job in list order.
    Sequential,
    /// One worker per job, all concurrent.
    Parallel,
    /// At most this many workers (must be positive); jobs are sliced into
    /// that many contiguous chunks.
    MaxThreads(usize),
}

/// What came back from one node's batch round trip: one optional record per
/// request in the job, or no answer at all.
#[derive(Clone, Debug, PartialEq, Eq)]
pub enum NodeResponse {
    Records(Vec<Option<Record>>),
    Unreachable,
}

/// The node a key is routed to under a topology snapshot, if its partition
/// has an owner.
pub open spec fn route(view: ClusterView, key: Key) -> Option<u64> {
    view.owner_of(spec_partition(key))
}

/// Every request's partition has an owner.
pub open spec fn routable(view: ClusterView, reads: Seq<BatchRead>) -> bool {
    forall|i: int| 0 <= i < reads.len() ==> (#[trigger] route(view, reads[i].key)) is Some
}

/// The request groups of a job list.
pub open spec fn reads_of(jobs: Seq<Job>) -> Seq<Seq<BatchRead>> {
    jobs.map_values(|j: Job| j.reads@)
}

/// The keys of a request list, in order.
pub open spec fn keys_of(reads: Seq<BatchRead>) -> Seq<Key> {
    reads.map_values(|r: BatchRead| r.key)
}

/// Selects the requests routed to `node`.
pub open spec fn routes_to(view: ClusterView, node: u64) -> spec_fn(BatchRead) -> bool {
    |r: BatchRead| route(view, r.key) == Some(node)
}

/// Some job in the list owns the node this request routes to.
pub open spec fn covered(view: ClusterView, r: BatchRead, jobs: Seq<Job>) -> bool {
    exists|j: int| 0 <= j < jobs.len() && route(view, r.key) == Some((#[trigger] jobs[j]).node)
}

/// How many workers a policy fans `n` jobs out to.
pub open spec fn spec_worker_count(c: Concurrency, n: nat) -> nat {
    if n == 0 {
        0
    } else {
        match c {
            Concurrency::Sequential => 1,
            Concurrency::Parallel => n,
            Concurrency::MaxThreads(m) => if m as nat <= n {
                m as nat
            } else {
                n
            },
        }
    }
}

/// Slice a job list into `w` contiguous chunks of `size` jobs each, the
/// remainder folded into the last chunk.
pub open spec fn chunks_rec(jobs: Seq<Job>, w: nat, size: nat) -> Seq<Seq<Job>>
    decreases w,
{
    if w == 0 {
        Seq::empty()
    } else if w == 1 {
        seq![jobs]
    } else {
        seq![jobs.take(size as int)] + chunks_rec(jobs.skip(size as int), (w - 1) as nat, size)
    }
}

/// The exact slicing a policy produces: `w` workers, chunk size `n / w`,
/// remainder appended to the last chunk.
pub open spec fn spec_chunks(jobs: Seq<Job>, c: Concurrency) -> Seq<Seq<Job>> {
    let n = jobs.len();
    let w = spec_worker_count(c, n);
    if w == 0 {
        Seq::empty()
    } else {
        chunks_rec(jobs, w, n / w)
    }
}

/// Every worker finished without failing.
pub open spec fn all_ok(results: Seq<Result<Vec<Job>, BatchError>>) -> bool {
    forall|i: int| 0 <= i < results.len() ==> (#[trigger] results[i]) is Ok
}

/// The completed jobs of all workers, in worker order.
pub open spec fn collected(results: Seq<Result<Vec<Job>, BatchError>>) -> Seq<Job>
    decreases results.len(),
{
    if results.len() == 0 {
        Seq::empty()
    } else {
        collected(results.drop_last()) + (match results.last() {
            Ok(v) => v@,
            Err(_) => Seq::empty(),
        })
    }
}

/// The failure of the earliest worker that failed.
pub open spec fn first_error(results: Seq<Result<Vec<Job>, BatchError>>) -> BatchError
    decreases results.len(),
{
    if results.len() == 0 {
        BatchError::Scheduling
    } else if results[0] is Err {
        results[0]->Err_0
    } else {
        first_error(results.drop_first())
    }
}

/// The outcome a request gets from its slot in a node's reply.
pub open spec fn outcome_of(rec: Option<Record>) -> BatchOutcome {
    match rec {
        Some(r) => BatchOutcome::Found(r),
        None => BatchOutcome::NotFound,
    }
}

/// Shape of the static slicing: `w` chunks that concatenate back to the job
/// list, the first `w - 1` of exactly `size` jobs, the remainder in the last.
pub proof fn lemma_chunks_rec(jobs: Seq<Job>, w: nat, size: nat)
    requires
        w >= 1,
        (w - 1) * size <= jobs.len(),
    ensures
        chunks_rec(jobs, w, size).len() == w,
        chunks_rec(jobs, w, size).flatten() == jobs,
        forall|i: int| 0 <= i < w - 1 ==> (#[trigger] chunks_rec(jobs, w, size)[i]).len() == size,
        chunks_rec(jobs, w, size).last().len() == jobs.len() - (w - 1) * size,
    decreases w,
{
    let cs = chunks_rec(jobs, w, size);
    if w == 1 {
        cs.lemma_flatten_one_element();
        assert(cs.flatten() == jobs);
        assert(jobs.len() - (1 - 1) * size == jobs.len()) by (nonlinear_arith);
    } else {
        assert(size <= (w - 1) * size) by (nonlinear_arith)
            requires
                w >= 2,
                size >= 0,
        ;
        let tail = jobs.skip(size as int);
        assert((w - 2) * size == (w - 1) * size - size) by (nonlinear_arith);
        lemma_chunks_rec(tail, (w - 1) as nat, size);
        let rest = chunks_rec(tail, (w - 1) as nat, size);
        assert(cs == seq![jobs.take(size as int)] + rest);
        assert(cs.first() == jobs.take(size as int));
        assert(cs.drop_first() =~= rest);
        assert(cs.flatten() == jobs.take(size as int) + rest.flatten());
        assert(jobs.take(size as int) + tail =~= jobs);
        assert forall|i: int| 0 <= i < w - 1 implies (#[trigger] cs[i]).len() == size by {
            if i == 0 {
                assert(cs[0] == jobs.take(size as int));
            } else {
                assert(cs[i] == rest[i - 1]);
            }
        }
        assert(cs.last() == rest.last());
        assert(tail.len() - ((w - 1) - 1) * size == jobs.len() - (w - 1) * size);
    }
}

/// Slice a job list into worker chunks exactly as the policy prescribes:
/// one chunk per worker, chunk size `n / w`, remainder folded into the last
/// chunk. An empty job list yields no chunks.
#[verifier::loop_isolation(false)]
pub fn chunk_jobs(jobs: Vec<Job>, concurrency: &Concurrency) -> (chunks: Vec<Vec<Job>>)
    requires
        (*concurrency) matches Concurrency::MaxThreads(m) ==> m >= 1,
    ensures
        chunks@.map_values(|c: Vec<Job>| c@) == spec_chunks(jobs@, *concurrency),
        chunks@.map_values(|c: Vec<Job>| c@).flatten() == jobs@,
        chunks@.len() == spec_worker_count(*concurrency, jobs@.len()),
        forall|i: int|
            0 <= i < chunks@.len() - 1 ==> (#[trigger] chunks@[i])@.len() == jobs@.len()
                / spec_worker_count(*concurrency, jobs@.len()),
        chunks@.len() > 0 ==> chunks@.last()@.len() == jobs@.len() / spec_worker_count(
            *concurrency,
            jobs@.len(),
        ) + jobs@.len() % spec_worker_count(*concurrency, jobs@.len()),
{
    let n = jobs.len();
    let mut chunks: Vec<Vec<Job>> = Vec::new();
    if n == 0 {
        proof {
            assert(chunks@.map_values(|c: Vec<Job>| c@) =~= Seq::<Seq<Job>>::empty());
            assert(chunks@.map_values(|c: Vec<Job>| c@).flatten() =~= jobs@);
        }
        return chunks;
    }
    let w: usize = match concurrency {
        Concurrency::Sequential => 1,
        Concurrency::Parallel => n,
        Concurrency::MaxThreads(m) => if *m < n {
            *m
        } else {
            n
        },
    };
    let size = n / w;
    proof {
        assert(w as nat == spec_worker_count(*concurrency, jobs@.len()));
        vstd::arithmetic::div_mod::lemma_fundamental_div_mod(n as int, w as int);
        assert((w - 1) * size <= n) by (nonlinear_arith)
            requires
                w >= 1,
                size >= 0,
                n == w * ((n as int) / (w as int)) + (n as int) % (w as int),
                size == (n as int) / (w as int),
                (n as int) % (w as int) >= 0,
        ;
        lemma_chunks_rec(jobs@, w as nat, size as nat);
    }
    let mut rest = jobs;
    let mut i: usize = 0;
    while i + 1 < w
        invariant
            1 <= w <= n,
            n == jobs@.len(),
            i + 1 <= w,
            size == (n as int) / (w as int),
            chunks@.len() == i,
            chunks@.map_values(|c: Vec<Job>| c@) + chunks_rec(
                rest@,
                (w - i) as nat,
                size as nat,
            ) == chunks_rec(jobs@, w as nat, size as nat),
            rest@.len() == n - i * size,
            (w - i - 1) * size <= rest@.len(),
        decreases w - i,
    {
        proof {
            assert(size <= rest@.len()) by (nonlinear_arith)
                requires
                    (w - i - 1) * size <= rest@.len(),
                    w - i - 1 >= 1,
                    size >= 0,
            ;
        }
        let ghost old_rest = rest@;
        let ghost old_chunks = chunks@;
        let tail = rest.split_off(size);
        chunks.push(rest);
        rest = tail;
        i = i + 1;
        proof {
            assert(chunks_rec(old_rest, (w - (i - 1)) as nat, size as nat) == seq![old_rest.take(
                size as int,
            )] + chunks_rec(old_rest.skip(size as int), (w - i) as nat, size as nat));
            assert(chunks@.map_values(|c: Vec<Job>| c@) =~= old_chunks.map_values(
                |c: Vec<Job>| c@,
            ).push(old_rest.take(size as int)));
            assert(chunks@.map_values(|c: Vec<Job>| c@) + chunks_rec(
                rest@,
                (w - i) as nat,
                size as nat,
            ) =~= (old_chunks.map_values(|c: Vec<Job>| c@) + chunks_rec(
                old_rest,
                (w - (i - 1)) as nat,
                size as nat,
            )));
            assert(rest@.len() == n - i * size) by (nonlinear_arith)
                requires
                    rest@.len() == old_rest.len() - size,
                    old_rest.len() == n - (i - 1) * size,
            ;
            assert((w - i - 1) * size <= rest@.len()) by (nonlinear_arith)
                requires
                    rest@.len() == n - i * size,
                    n == w * ((n as int) / (w as int)) + (n as int) % (w as int),
                    size == (n as int) / (w as int),
                    (n as int) % (w as int) >= 0,
                    i < w,
            ;
        }
    }
    let ghost old_chunks = chunks@;
    chunks.push(rest);
    proof {
        assert(i == w - 1);
        assert(chunks_rec(rest@, 1, size as nat) == seq![rest@]);
        assert(chunks@.map_values(|c: Vec<Job>| c@) =~= old_chunks.map_values(|c: Vec<Job>| c@)
            + seq![rest@]);
        assert(chunks@.map_values(|c: Vec<Job>| c@) == chunks_rec(jobs@, w as nat, size as nat));
        assert(spec_chunks(jobs@, *concurrency) == chunks_rec(jobs@, w as nat, size as nat));
        assert(jobs@.len() - (w - 1) * size == size + (n as int) % (w as int)) by (nonlinear_arith)
            requires
                n == jobs@.len(),
                n == w * ((n as int) / (w as int)) + (n as int) % (w as int),
                size == (n as int) / (w as int),
        ;
        assert forall|j: int| 0 <= j < chunks@.len() implies (#[trigger] chunks@[j])@
            == chunks_rec(jobs@, w as nat, size as nat)[j] by {
            assert(chunks@.map_values(|c: Vec<Job>| c@)[j] == chunks@[j]@);
        }
    }
    chunks
}

/// Apply one node's reply to its job: each request gets the outcome of its
/// slot, in order. Fails — and the batch with it — exactly when the node was
/// unreachable or answered with the wrong number of slots.
pub fn apply_response(job: Job, response: NodeResponse) -> (r: Result<Job, BatchError>)
    ensures
        (r is Ok) <==> (response matches NodeResponse::Records(recs) && recs@.len()
            == job.reads@.len()),
        r matches Err(e) ==> e == BatchError::Execution,
        r matches Ok(done) ==> {
            &&& done.node == job.node
            &&& done.reads@.len() == job.reads@.len()
            &&& forall|i: int|
                0 <= i < done.reads@.len() ==> {
                    &&& (#[trigger] done.reads@[i]).key == job.reads@[i].key
                    &&& done.reads@[i].bins == job.reads@[i].bins
                    &&& done.reads@[i].outcome == Some(outcome_of((response->Records_0)@[i]))
                }
        },
{
    match response {
        NodeResponse::Unreachable => Err(BatchError::Execution),
        NodeResponse::Records(recs) => {
            if recs.len() != job.reads.len() {
                return Err(BatchError::Execution);
            }
            let ghost orig_reads = job.reads@;
            let ghost orig_recs = recs@;
            let node = job.node;
            let mut reads = job.reads;
            let mut recs_rest = recs;
            let mut done: Vec<BatchRead> = Vec::new();
            while reads.len() > 0
                invariant
                    orig_recs.len() == orig_reads.len(),
                    done@.len() + reads@.len() == orig_reads.len(),
                    reads@ == orig_reads.skip(done@.len() as int),
                    recs_rest@ == orig_recs.skip(done@.len() as int),
                    forall|i: int|
                        0 <= i < done@.len() ==> {
                            &&& (#[trigger] done@[i]).key == orig_reads[i].key
                            &&& done@[i].bins == orig_reads[i].bins
                            &&& done@[i].outcome == Some(outcome_of(orig_recs[i]))
                        },
                decreases reads@.len(),
            {
                let ghost l = done@.len() as int;
                let rd = reads.remove(0);
                let rec = recs_rest.remove(0);
                proof {
                    assert(rd == orig_reads[l]);
                    assert(rec == orig_recs[l]);
                    assert(orig_reads.skip(l).drop_first() =~= orig_reads.skip(l + 1));
                    assert(orig_recs.skip(l).drop_first() =~= orig_recs.skip(l + 1));
                }
                let outcome = match rec {
                    Option::Some(found) => BatchOutcome::Found(found),
                    Option::None => BatchOutcome::NotFound,
                };
                done.push(BatchRead { key: rd.key, bins: rd.bins, outcome: Option::Some(outcome) });
            }
            Ok(Job { node, reads: done })
        },
    }
}

/// Recursing past an all-successful prefix, the first error is the one at the
/// first failed position.
proof fn lemma_first_error(results: Seq<Result<Vec<Job>, BatchError>>, idx: int)
    requires
        0 <= idx < results.len(),
        forall|j: int| 0 <= j < idx ==> (#[trigger] results[j]) is Ok,
        results[idx] is Err,
    ensures
        first_error(results) == results[idx]->Err_0,
    decreases idx,
{
    if idx == 0 {
    } else {
        assert(results[0] is Ok);
        lemma_first_error(results.drop_first(), idx - 1);
        assert(results.drop_first()[idx - 1] == results[idx]);
    }
}

/// Join every worker's outcome: the flattened completed jobs in worker order
/// if all succeeded, else the earliest worker's failure — completed work of
/// the other workers is discarded, never surfaced.
pub fn collect_worker_results(results: Vec<Result<Vec<Job>, BatchError>>) -> (r: Result<
    Vec<Job>,
    BatchError,
>)
    ensures
        (r is Ok) <==> all_ok(results@),
        r matches Ok(flat) ==> flat@ == collected(results@),
        r matches Err(e) ==> e == first_error(results@),
{
    let ghost orig = results@;
    let mut rest = results;
    let mut flat: Vec<Job> = Vec::new();
    let ghost mut idx: int = 0;
    proof {
        assert(orig.take(0) =~= Seq::<Result<Vec<Job>, BatchError>>::empty());
    }
    while rest.len() > 0
        invariant
            orig == results@,
            0 <= idx <= orig.len(),
            rest@ == orig.skip(idx),
            all_ok(orig.take(idx)),
            flat@ == collected(orig.take(idx)),
        decreases rest@.len(),
    {
        proof {
            assert(orig.skip(idx).drop_first() =~= orig.skip(idx + 1));
            assert(orig.take(idx + 1).drop_last() =~= orig.take(idx));
        }
        match rest.remove(0) {
            Ok(mut group) => {
                flat.append(&mut group);
                proof {
                    assert(orig[idx] is Ok);
                    assert(flat@ == collected(orig.take(idx + 1)));
                    assert forall|j: int|
                        0 <= j < idx + 1 implies (#[trigger] orig.take(idx + 1)[j]) is Ok by {
                        if j < idx {
                            assert(orig.take(idx)[j] is Ok);
                        }
                    }
                    idx = idx + 1;
                }
            },
            Err(e) => {
                proof {
                    assert(orig[idx] is Err);
                    assert forall|j: int| 0 <= j < idx implies (#[trigger] orig[j]) is Ok by {
                        assert(orig.take(idx)[j] is Ok);
                    }
                    lemma_first_error(orig, idx);
                    assert(!all_ok(orig)) by {
                        if all_ok(orig) {
                            assert(orig[idx] is Ok);
                            assert(false);
                        }
                    }
                }
                return Err(e);
            },
        }
    }
    proof {
        assert(orig.take(idx) =~= orig);
    }
    Ok(flat)
}

/// Flatten the completed jobs' request groups into the single result list
/// handed back to the caller.
pub fn flatten_jobs(jobs: Vec<Job>) -> (r: Vec<BatchRead>)
    ensures
        r@ == reads_of(jobs@).flatten(),
{
    let ghost orig = jobs@;
    let mut rest = jobs;
    let mut r: Vec<BatchRead> = Vec::new();
    let ghost mut idx: int = 0;
    proof {
        assert(reads_of(orig.take(0)) =~= Seq::<Seq<BatchRead>>::empty());
    }
    while rest.len() > 0
        invariant
            0 <= idx <= orig.len(),
            rest@ == orig.skip(idx),
            r@ == reads_of(orig.take(idx)).flatten(),
        decreases rest@.len(),
    {
        let mut job = rest.remove(0);
        proof {
            assert(job == orig[idx]);
            assert(orig.skip(idx).drop_first() =~= orig.skip(idx + 1));
        }
        r.append(&mut job.reads);
        proof {
            assert(reads_of(orig.take(idx + 1)) =~= reads_of(orig.take(idx)).push(
                orig[idx].reads@,
            ));
            reads_of(orig.take(idx)).lemma_flatten_push(orig[idx].reads@);
            idx = idx + 1;
        }
    }
    proof {
        assert(orig.take(idx) =~= orig);
    }
    r
}

/// The grouping loop's running picture after `k` requests were placed.
pub open spec fn grouping_ok(view: ClusterView, all: Seq<BatchRead>, k: int, jobs: Seq<Job>) -> bool {
    &&& reads_of(jobs).flatten().to_multiset() == all.take(k).to_multiset()
    &&& forall|j: int|
        0 <= j < jobs.len() ==> (#[trigger] jobs[j]).reads@ == all.take(k).filter(
            routes_to(view, jobs[j].node),
        )
    &&& forall|j: int| 0 <= j < jobs.len() ==> (#[trigger] jobs[j]).reads@.len() > 0
    &&& forall|j1: int, j2: int|
        0 <= j1 < j2 < jobs.len() ==> (#[trigger] jobs[j1]).node != (#[trigger] jobs[j2]).node
    &&& forall|i: int| 0 <= i < k ==> covered(view, all[i], jobs)
}

/// One more routable request extends the routable prefix.
proof fn lemma_routable_step(view: ClusterView, all: Seq<BatchRead>, k: int)
    requires
        0 <= k < all.len(),
        routable(view, all.take(k)),
        route(view, all[k].key) is Some,
    ensures
        routable(view, all.take(k + 1)),
{
    assert forall|i: int|
        0 <= i < k + 1 implies (#[trigger] route(view, all.take(k + 1)[i].key)) is Some by {
        if i < k {
            assert(all.take(k + 1)[i] == all.take(k)[i]);
            assert(route(view, all.take(k)[i].key) is Some);
        } else {
            assert(all.take(k + 1)[i] == all[k]);
        }
    }
}

/// No request of the prefix routes to a node that no job is bound to.
proof fn lemma_filter_empty_for_new_node(
    view: ClusterView,
    all: Seq<BatchRead>,
    k: int,
    jobs: Seq<Job>,
    node: u64,
)
    requires
        0 <= k <= all.len(),
        forall|i: int| 0 <= i < k ==> covered(view, all[i], jobs),
        forall|j: int| 0 <= j < jobs.len() ==> (#[trigger] jobs[j]).node != node,
    ensures
        all.take(k).filter(routes_to(view, node)) == Seq::<BatchRead>::empty(),
{
    broadcast use vstd::seq_lib::group_filter_ensures;

    let taken = all.take(k);
    let f = taken.filter(routes_to(view, node));
    if f.len() > 0 {
        assert(f.contains(f[0]));
        taken.lemma_filter_contains_rev(routes_to(view, node), f[0]);
        assert(taken.contains(f[0]));
        assert(routes_to(view, node)(f[0]));
        let i = choose|i: int| 0 <= i < taken.len() && taken[i] == f[0];
        assert(covered(view, all[i], jobs));
        let j = choose|j: int|
            0 <= j < jobs.len() && route(view, all[i].key) == Some((#[trigger] jobs[j]).node);
        assert(jobs[j].node == node);
        assert(false);
    }
    assert(f =~= Seq::<BatchRead>::empty());
}

/// Placing the next request into the job already bound to its node keeps the
/// grouping picture intact.
#[verifier::rlimit(80)]
proof fn lemma_group_step_existing(
    view: ClusterView,
    all: Seq<BatchRead>,
    k: int,
    old_jobs: Seq<Job>,
    new_jobs: Seq<Job>,
    jidx: int,
)
    requires
        0 <= k < all.len(),
        grouping_ok(view, all, k, old_jobs),
        0 <= jidx < old_jobs.len(),
        new_jobs.len() == old_jobs.len(),
        forall|j: int| 0 <= j < old_jobs.len() && j != jidx ==> new_jobs[j] == old_jobs[j],
        new_jobs[jidx].node == old_jobs[jidx].node,
        new_jobs[jidx].reads@ == old_jobs[jidx].reads@.push(all[k]),
        route(view, all[k].key) == Some(old_jobs[jidx].node),
    ensures
        grouping_ok(view, all, k + 1, new_jobs),
{
    let rd = all[k];
    let taken = all.take(k);
    assert(taken.push(rd) =~= all.take(k + 1));
    assert(reads_of(new_jobs) =~= reads_of(old_jobs).update(
        jidx,
        reads_of(old_jobs)[jidx].push(rd),
    ));
    lemma_flatten_update_push(reads_of(old_jobs), jidx, rd);
    vstd::seq_lib::to_multiset_build(taken, rd);
    assert forall|j: int| 0 <= j < new_jobs.len() implies (#[trigger] new_jobs[j]).reads@
        == all.take(k + 1).filter(routes_to(view, new_jobs[j].node)) by {
        lemma_filter_push(taken, routes_to(view, new_jobs[j].node), rd);
        if j != jidx {
            assert(new_jobs[j].node != old_jobs[jidx].node);
            assert(!(routes_to(view, new_jobs[j].node)(rd)));
        }
    }
    assert forall|i: int| 0 <= i < k + 1 implies covered(view, all[i], new_jobs) by {
        if i < k {
            let j = choose|j: int|
                0 <= j < old_jobs.len() && route(view, all[i].key) == Some(
                    (#[trigger] old_jobs[j]).node,
                );
            assert(new_jobs[j].node == old_jobs[j].node);
        } else {
            assert(route(view, all[i].key) == Some(new_jobs[jidx].node));
        }
    }
}

/// Opening a job for a node no request was routed to yet keeps the grouping
/// picture intact.
#[verifier::rlimit(80)]
proof fn lemma_group_step_new(
    view: ClusterView,
    all: Seq<BatchRead>,
    k: int,
    old_jobs: Seq<Job>,
    new_jobs: Seq<Job>,
    node: u64,
)
    requires
        0 <= k < all.len(),
        grouping_ok(view, all, k, old_jobs),
        new_jobs.len() == old_jobs.len() + 1,
        forall|j: int| 0 <= j < old_jobs.len() ==> new_jobs[j] == old_jobs[j],
        new_jobs.last().node == node,
        new_jobs.last().reads@ == seq![all[k]],
        route(view, all[k].key) == Some(node),
        forall|j: int| 0 <= j < old_jobs.len() ==> (#[trigger] old_jobs[j]).node != node,
    ensures
        grouping_ok(view, all, k + 1, new_jobs),
{
    let rd = all[k];
    let taken = all.take(k);
    assert(taken.push(rd) =~= all.take(k + 1));
    assert(reads_of(new_jobs) =~= reads_of(old_jobs).push(seq![rd]));
    assert(reads_of(new_jobs).flatten().to_multiset() == all.take(k + 1).to_multiset()) by {
        reads_of(old_jobs).lemma_flatten_push(seq![rd]);
        vstd::seq_lib::lemma_multiset_commutative(reads_of(old_jobs).flatten(), seq![rd]);
        vstd::seq_lib::to_multiset_build(taken, rd);
        assert(seq![rd].to_multiset() =~= Multiset::empty().insert(rd)) by {
            broadcast use vstd::seq_lib::group_to_multiset_ensures;

            assert(Seq::<BatchRead>::empty().push(rd) =~= seq![rd]);
            vstd::seq_lib::to_multiset_build(Seq::<BatchRead>::empty(), rd);
            assert(Seq::<BatchRead>::empty().to_multiset() =~= Multiset::empty());
        }
        assert(reads_of(new_jobs).flatten().to_multiset() =~= all.take(k + 1).to_multiset());
    }
    // nothing earlier was routed to this node, so its filtered group is empty
    lemma_filter_empty_for_new_node(view, all, k, old_jobs, node);
    assert forall|j: int| 0 <= j < new_jobs.len() implies (#[trigger] new_jobs[j]).reads@
        == all.take(k + 1).filter(routes_to(view, new_jobs[j].node)) by {
        lemma_filter_push(taken, routes_to(view, new_jobs[j].node), rd);
        if j < new_jobs.len() - 1 {
            assert(new_jobs[j] == old_jobs[j]);
            assert(new_jobs[j].node != node);
            assert(!(routes_to(view, new_jobs[j].node)(rd)));
        } else {
            assert(routes_to(view, node)(rd));
            assert(taken.filter(routes_to(view, node)).push(rd) =~= seq![rd]);
        }
    }
    assert forall|i: int| 0 <= i < k + 1 implies covered(view, all[i], new_jobs) by {
        if i < k {
            let j = choose|j: int|
                0 <= j < old_jobs.len() && route(view, all[i].key) == Some(
                    (#[trigger] old_jobs[j]).node,
                );
            assert(new_jobs[j] == old_jobs[j]);
        } else {
            assert(route(view, all[i].key) == Some(new_jobs[new_jobs.len() - 1].node));
        }
    }
}

/// Orchestrates one batch: routes requests through a topology snapshot and
/// plans the per-worker job slices.
pub struct BatchExecutor {
    pub cluster: ClusterView,
}

impl BatchExecutor {
    /// A batch executor over a topology snapshot.
    pub fn new(cluster: ClusterView) -> (r: Self)
        ensures
            r.cluster == cluster,
    {
        BatchExecutor { cluster }
    }

    /// The node that owns a key's partition; a routing error exactly when the
    /// topology has none.
    pub fn node_for_key(&self, key: &Key) -> (r: Result<u64, BatchError>)
        requires
            self.cluster.wf(),
        ensures
            match route(self.cluster, *key) {
                Some(n) => r == Ok::<u64, BatchError>(n),
                None => r == Err::<u64, BatchError>(BatchError::Routing),
            },
    {
        let partition = crate::key::partition_of(key);
        self.cluster.get_node(partition)
    }

    /// Group a batch by owning node: one job per distinct node, each holding
    /// exactly the requests routed to it in their original relative order.
    /// Fails with a routing error — failing the whole batch — exactly when
    /// some request's partition has no owner.
    pub fn get_batch_nodes(&self, reads: Vec<BatchRead>) -> (r: Result<Vec<Job>, BatchError>)
        requires
            self.cluster.wf(),
        ensures
            (r is Ok) <==> routable(self.cluster, reads@),
            r is Err ==> r == Err::<Vec<Job>, BatchError>(BatchError::Routing),
            r matches Ok(jobs) ==> {
                &&& reads_of(jobs@).flatten().to_multiset() == reads@.to_multiset()
                &&& forall|j: int|
                    0 <= j < jobs@.len() ==> (#[trigger] jobs@[j]).reads@ == reads@.filter(
                        routes_to(self.cluster, jobs@[j].node),
                    )
                &&& forall|j: int| 0 <= j < jobs@.len() ==> (#[trigger] jobs@[j]).reads@.len() > 0
                &&& forall|j1: int, j2: int|
                    0 <= j1 < j2 < jobs@.len() ==> (#[trigger] jobs@[j1]).node != (
                    #[trigger] jobs@[j2]).node
            },
    {
        let view = Ghost(self.cluster);
        let all = Ghost(reads@);
        let mut rest = reads;
        let mut jobs: Vec<Job> = Vec::new();
        let ghost mut k: int = 0;
        proof {
            assert(reads_of(jobs@) =~= Seq::<Seq<BatchRead>>::empty());
            assert(all@.take(0) =~= Seq::<BatchRead>::empty());
            assert(reads_of(jobs@).flatten().to_multiset() == all@.take(0).to_multiset());
        }
        while rest.len() > 0
            invariant
                self.cluster.wf(),
                view@ == self.cluster,
                all@ == reads@,
                0 <= k <= all@.len(),
                rest@ == all@.skip(k),
                routable(view@, all@.take(k)),
                grouping_ok(view@, all@, k, jobs@),
            decreases rest@.len(),
        {
            let rd = rest.remove(0);
            proof {
                assert(rd == all@[k]);
                assert(all@.skip(k).drop_first() =~= all@.skip(k + 1));
            }
            let node = match self.node_for_key(&rd.key) {
                Ok(n) => n,
                Err(_) => {
                    proof {
                        assert(0 <= k < all@.len());
                        assert(route(view@, all@[k].key) is None);
                        assert(!routable(view@, all@)) by {
                            if routable(view@, all@) {
                                assert(route(view@, all@[k].key) is Some);
                                assert(false);
                            }
                        }
                        assert(view@ == self.cluster);
                        assert(all@ == reads@);
                        assert(!routable(self.cluster, reads@));
                    }
                    return Err(BatchError::Routing);
                },
            };
            let ghost old_jobs = jobs@;
            // Find the job already bound to this node, if any.
            let mut jidx: usize = 0;
            let mut found = false;
            while jidx < jobs.len() && !found
                invariant
                    jidx <= jobs@.len(),
                    found ==> jidx < jobs@.len() && jobs@[jidx as int].node == node,
                    !found ==> forall|j: int| 0 <= j < jidx ==> (#[trigger] jobs@[j]).node != node,
                decreases jobs@.len() - jidx + (if found { 0int } else { 1int }),
            {
                if jobs[jidx].node == node {
                    found = true;
                } else {
                    jidx = jidx + 1;
                }
            }
            if found {
                let mut job = jobs.remove(jidx);
                job.reads.push(rd);
                jobs.insert(jidx, job);
                proof {
                    assert(jobs@[jidx as int].reads@ == old_jobs[jidx as int].reads@.push(all@[k]));
                    lemma_group_step_existing(view@, all@, k, old_jobs, jobs@, jidx as int);
                }
            } else {
                let mut group: Vec<BatchRead> = Vec::new();
                group.push(rd);
                jobs.push(Job { node, reads: group });
                proof {
                    assert(jobs@.last().reads@ =~= seq![all@[k]]);
                    lemma_group_step_new(view@, all@, k, old_jobs, jobs@, node);
                }
            }
            proof {
                lemma_routable_step(view@, all@, k);
                k = k + 1;
            }
        }
        proof {
            assert(all@.take(k) =~= all@);
        }
        Ok(jobs)
    }
}

} // verus!
