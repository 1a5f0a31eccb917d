//! The batch pipeline's and encoder's cross-function guarantees, stated and
//! proved over the same spec functions the executable contracts use.
use vstd::prelude::*;
use crate::errors::BatchError;
use crate::batch::BatchRead;
use crate::batch::Concurrency;
use crate::batch::Job;
use crate::batch::all_ok;
use crate::batch::keys_of;
use crate::batch::reads_of;
use crate::batch::spec_chunks;
use crate::batch::spec_worker_count;
use crate::cdt::CdtContext;
use crate::cdt::CdtOperation;
use crate::cdt::cdt_bytes;
use crate::cdt::op_bytes;
use crate::lemmas::lemma_flatten_contains;
use crate::lemmas::lemma_to_multiset_map;
verus! {
/// Every job resolved by the same per-job step, in list order.
pub open spec fn resolve_all(jobs: Seq<Job>, resolve: spec_fn(Job) -> Job) -> Seq<Job> {
    jobs.map_values(resolve)
}
/// What the fan-out returns: each worker resolves its chunk in slice order,
/// and the workers' outputs are joined in worker order.
pub open spec fn run_workers(chunks: Seq<Seq<Job>>, resolve: spec_fn(Job) -> Job) -> Seq<Job>
    decreases chunks.len(),
{
    if chunks.len() == 0 {
        Seq::empty()
    } else {
        resolve_all(chunks.first(), resolve) + run_workers(chunks.drop_first(), resolve)
    }
}
/// Running the workers over any slicing of the jobs resolves exactly the
/// flattened job list, in its order.
pub proof fn lemma_run_workers_flatten(chunks: Seq<Seq<Job>>, resolve: spec_fn(Job) -> Job)
    ensures
        run_workers(chunks, resolve) == resolve_all(chunks.flatten(), resolve),
    decreases chunks.len(),
{
    if chunks.len() == 0 {
        assert(run_workers(chunks, resolve) =~= resolve_all(chunks.flatten(), resolve));
    } else {
        lemma_run_workers_flatten(chunks.drop_first(), resolve);
        assert(chunks.flatten() == chunks.first() + chunks.drop_first().flatten());
        assert(resolve_all(chunks.first() + chunks.drop_first().flatten(), resolve)
            =~= resolve_all(chunks.first(), resolve) + resolve_all(
            chunks.drop_first().flatten(),
            resolve,
        ));
    }
}
/// Any policy's slicing concatenates back to the job list it sliced.
pub proof fn lemma_chunks_flatten(jobs: Seq<Job>, c: Concurrency)
    requires
        c matches Concurrency::MaxThreads(m) ==> m >= 1,
    ensures
        spec_chunks(jobs, c).flatten() == jobs,
{
    let n = jobs.len();
    let w = spec_worker_count(c, n);
    if w == 0 {
        assert(n == 0);
        assert(spec_chunks(jobs, c).flatten() =~= jobs);
    } else {
        let size = n / w;
        vstd::arithmetic::div_mod::lemma_fundamental_div_mod(n as int, w as int);
        assert((w - 1) * size <= n) by (nonlinear_arith)
            requires
                w >= 1,
                size >= 0,
                n == w * ((n as int) / (w as int)) + (n as int) % (w as int),
                size == (n as int) / (w as int),
                (n as int) % (w as int) >= 0,
        ;
        crate::batch::lemma_chunks_rec(jobs, w, size);
    }
}
/// For every concurrency policy, the same input jobs and the same
/// deterministic per-job execution step give the very same result list —
/// Sequential, Parallel and any positive Bounded fan-out are
/// indistinguishable to the caller.
pub proof fn lemma_policy_independent(
    jobs: Seq<Job>,
    c1: Concurrency,
    c2: Concurrency,
    resolve: spec_fn(Job) -> Job,
)
    requires
        c1 matches Concurrency::MaxThreads(m) ==> m >= 1,
        c2 matches Concurrency::MaxThreads(m) ==> m >= 1,
    ensures
        run_workers(spec_chunks(jobs, c1), resolve) == resolve_all(jobs, resolve),
        run_workers(spec_chunks(jobs, c1), resolve) == run_workers(spec_chunks(jobs, c2), resolve),
{
    lemma_chunks_flatten(jobs, c1);
    lemma_chunks_flatten(jobs, c2);
    lemma_run_workers_flatten(spec_chunks(jobs, c1), resolve);
    lemma_run_workers_flatten(spec_chunks(jobs, c2), resolve);
}
/// A bound of at least the job count slices exactly as Parallel does, and a
/// bound of one slices exactly as Sequential does.
pub proof fn lemma_bounded_extremes(jobs: Seq<Job>, m: usize)
    requires
        m >= 1,
    ensures
        m >= jobs.len() ==> spec_chunks(jobs, Concurrency::MaxThreads(m)) == spec_chunks(
            jobs,
            Concurrency::Parallel,
        ),
        spec_chunks(jobs, Concurrency::MaxThreads(1)) == spec_chunks(
            jobs,
            Concurrency::Sequential,
        ),
{
    let n = jobs.len();
    if m >= n {
        assert(spec_worker_count(Concurrency::MaxThreads(m), n) == spec_worker_count(
            Concurrency::Parallel,
            n,
        ));
    }
    assert(spec_worker_count(Concurrency::MaxThreads(1), n) == spec_worker_count(
        Concurrency::Sequential,
        n,
    ));
}
/// One failed worker fails the whole batch: any collector outcome that is a
/// success would contradict the failed slot.
pub proof fn lemma_worker_failure_fails_batch(
    results: Seq<Result<Vec<Job>, BatchError>>,
    i: int,
    r: Result<Vec<Job>, BatchError>,
)
    requires
        0 <= i < results.len(),
        results[i] is Err,
        (r is Ok) <==> all_ok(results),
    ensures
        !all_ok(results),
        r is Err,
{
    if all_ok(results) {
        assert(results[i] is Ok);
        assert(false);
    }
}
/// Concatenating request groups with pointwise-equal keys gives flattened
/// lists with equal key sequences.
proof fn lemma_flatten_keys_pointwise(rs: Seq<Seq<BatchRead>>, js: Seq<Seq<BatchRead>>)
    requires
        rs.len() == js.len(),
        forall|j: int| 0 <= j < rs.len() ==> (#[trigger] rs[j]).len() == js[j].len(),
        forall|j: int, i: int|
            0 <= j < rs.len() && 0 <= i < rs[j].len() ==> (#[trigger] rs[j][i]).key == js[j][i].key,
    ensures
        keys_of(rs.flatten()) == keys_of(js.flatten()),
    decreases rs.len(),
{
    if rs.len() == 0 {
        assert(keys_of(rs.flatten()) =~= keys_of(js.flatten()));
    } else {
        assert forall|j: int, i: int|
            0 <= j < rs.drop_first().len() && 0 <= i < rs.drop_first()[j].len() implies (
        #[trigger] rs.drop_first()[j][i]).key == js.drop_first()[j][i].key by {
            assert(rs.drop_first()[j] == rs[j + 1]);
            assert(js.drop_first()[j] == js[j + 1]);
            assert(rs[j + 1][i].key == js[j + 1][i].key);
        }
        lemma_flatten_keys_pointwise(rs.drop_first(), js.drop_first());
        assert(rs.flatten() == rs.first() + rs.drop_first().flatten());
        assert(js.flatten() == js.first() + js.drop_first().flatten());
        assert(keys_of(rs.first() + rs.drop_first().flatten()) =~= keys_of(rs.first()) + keys_of(
            rs.drop_first().flatten(),
        ));
        assert(keys_of(js.first() + js.drop_first().flatten()) =~= keys_of(js.first()) + keys_of(
            js.drop_first().flatten(),
        ));
        assert(keys_of(rs.first()) =~= keys_of(js.first()));
        assert(keys_of(rs.flatten()) =~= keys_of(js.flatten()));
    }
}
/// A grouped batch, resolved job by job, yields one result per input
/// request: the result keys are a permutation of the input keys, and every
/// result carries an outcome.
pub proof fn lemma_batch_permutation(
    input: Seq<BatchRead>,
    jobs: Seq<Job>,
    resolved: Seq<Job>,
)
    requires
        reads_of(jobs).flatten().to_multiset() == input.to_multiset(),
        resolved.len() == jobs.len(),
        forall|j: int|
            0 <= j < jobs.len() ==> (#[trigger] resolved[j]).reads@.len() == jobs[j].reads@.len(),
        forall|j: int, i: int|
            0 <= j < resolved.len() && 0 <= i < resolved[j].reads@.len() ==> ((
            #[trigger] resolved[j].reads@[i]).key == jobs[j].reads@[i].key
                && resolved[j].reads@[i].outcome is Some),
    ensures
        keys_of(reads_of(resolved).flatten()).to_multiset() == keys_of(input).to_multiset(),
        reads_of(resolved).flatten().len() == input.len(),
        forall|r: BatchRead| reads_of(resolved).flatten().contains(r) ==> r.outcome is Some,
{
    broadcast use vstd::seq_lib::group_to_multiset_ensures;
    let kf = |r: BatchRead| r.key;
    let flat_resolved = reads_of(resolved).flatten();
    let flat_jobs = reads_of(jobs).flatten();
    assert forall|j: int, i: int|
        0 <= j < reads_of(resolved).len() && 0 <= i < reads_of(resolved)[j].len() implies (
    #[trigger] reads_of(resolved)[j][i]).key == reads_of(jobs)[j][i].key by {
        assert(reads_of(resolved)[j] == resolved[j].reads@);
        assert(reads_of(jobs)[j] == jobs[j].reads@);
    }
    lemma_flatten_keys_pointwise(reads_of(resolved), reads_of(jobs));
    lemma_to_multiset_map(flat_jobs, input, kf);
    assert(keys_of(flat_jobs) =~= flat_jobs.map_values(kf));
    assert(keys_of(input) =~= input.map_values(kf));
    assert(keys_of(flat_resolved).to_multiset() == keys_of(input).to_multiset());
    assert(keys_of(flat_resolved).len() == keys_of(input).len()) by {
        assert(keys_of(flat_resolved).to_multiset().len() == keys_of(flat_resolved).len());
        assert(keys_of(input).to_multiset().len() == keys_of(input).len());
    }
    assert(flat_resolved.len() == input.len());
    assert forall|r: BatchRead| reads_of(resolved).flatten().contains(r) implies r.outcome
        is Some by {
        lemma_flatten_contains(reads_of(resolved), r);
        let j = choose|j: int|
            0 <= j < reads_of(resolved).len() && (#[trigger] reads_of(resolved)[j]).contains(r);
        assert(reads_of(resolved)[j] == resolved[j].reads@);
        let i = choose|i: int| 0 <= i < resolved[j].reads@.len() && resolved[j].reads@[i] == r;
        assert(resolved[j].reads@[i].outcome is Some);
    }
}
/// An empty context path adds no header bytes — the opcode is the first byte
/// on the wire — and a non-empty path opens with a header whose declared
/// length is exactly the number of steps.
pub proof fn lemma_context_header(op: CdtOperation, ctx: Seq<CdtContext>)
    requires
        ctx.len() <= 255,
    ensures
        ctx.len() == 0 ==> cdt_bytes(op, ctx) == op_bytes(op),
        ctx.len() == 0 ==> cdt_bytes(op, ctx)[0] == op.op,
        ctx.len() > 0 ==> cdt_bytes(op, ctx)[0] == ctx.len() as u8,
        ctx.len() > 0 ==> cdt_bytes(op, ctx).len() > op_bytes(op).len(),
{
    if ctx.len() == 0 {
        assert(cdt_bytes(op, ctx) =~= op_bytes(op));
    }
}
/// The size pass and the write pass speak of one and the same byte image:
/// what `write_to` appends is exactly what `estimate_size` counted.
pub proof fn lemma_size_write_symmetry(
    op: CdtOperation,
    ctx: Seq<CdtContext>,
    estimated: usize,
    before: Seq<u8>,
    after: Seq<u8>,
)
    requires
        estimated == cdt_bytes(op, ctx).len(),
        after == before + cdt_bytes(op, ctx),
    ensures
        after.len() - before.len() == estimated,
{
}
} // verus!
