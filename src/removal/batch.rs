use vstd::prelude::*;
use crate::removal::cpath::{encode_path, has_nul, terminated};
use crate::removal::directorywalker::{lemma_paths_push, paths};

verus! {

/// The removal that a request asks of the kernel.
#[derive(Clone, Copy, Debug, PartialEq, Eq, Structural)]
pub enum Removal {
    /// Unlink a file.
    File,
    /// Remove an empty directory.
    Directory,
}

/// What can go wrong, for the whole run or for one entry.
#[derive(Clone, Copy, Debug, PartialEq, Eq, Structural)]
pub enum RemovalError {
    /// The ring could not be created: fatal to the run.
    InitError,
    /// The path holds a zero byte and cannot be handed to the kernel.
    PathEncodingError,
    /// The kernel reported this negative status for the removal.
    OperationFailed(i32),
}

/// What the kernel reported for one request.
#[derive(Clone, Copy, Debug, PartialEq, Eq, Structural)]
pub struct Completion {
    /// The correlation id of the request: its position in the batch.
    pub id: u64,
    /// Negative on failure, minus the OS error code.
    pub status: i32,
}

/// The outcome of one entry of a batch.
pub struct Report {
    pub path: Vec<u8>,
    pub result: Result<(), RemovalError>,
}

impl View for Report {
    type V = (Seq<u8>, Result<(), RemovalError>);

    open spec fn view(&self) -> (Seq<u8>, Result<(), RemovalError>) {
        (self.path@, self.result)
    }
}

/// The views of a list of reports.
pub open spec fn reports(v: Seq<Report>) -> Seq<(Seq<u8>, Result<(), RemovalError>)> {
    v.map_values(|r: Report| r@)
}

/// The paths that can be encoded, in order.
pub open spec fn encodable(ps: Seq<Seq<u8>>) -> Seq<Seq<u8>>
    decreases ps.len(),
{
    if ps.len() == 0 {
        seq![]
    } else if has_nul(ps.last()) {
        encodable(ps.drop_last())
    } else {
        encodable(ps.drop_last()).push(ps.last())
    }
}

/// The paths that cannot be encoded, in order.
pub open spec fn unencodable(ps: Seq<Seq<u8>>) -> Seq<Seq<u8>>
    decreases ps.len(),
{
    if ps.len() == 0 {
        seq![]
    } else if has_nul(ps.last()) {
        unencodable(ps.drop_last()).push(ps.last())
    } else {
        unencodable(ps.drop_last())
    }
}

/// The result that a completion status stands for.
pub open spec fn status_result(status: i32) -> Result<(), RemovalError> {
    if status < 0 {
        Err(RemovalError::OperationFailed(status))
    } else {
        Ok(())
    }
}

/// The reports for the completions, in the order in which they came, each
/// matched by correlation id to its path; a completion whose id names no
/// request of the batch is passed over.
pub open spec fn settled(ps: Seq<Seq<u8>>, cs: Seq<Completion>) -> Seq<(Seq<u8>, Result<(), RemovalError>)>
    decreases cs.len(),
{
    if cs.len() == 0 {
        seq![]
    } else {
        let rest = settled(ps, cs.drop_last());
        let c = cs.last();
        if c.id < ps.len() {
            rest.push((ps[c.id as int], status_result(c.status)))
        } else {
            rest
        }
    }
}

/// The reports for the paths that could not be encoded.
pub open spec fn rejected_reports(ps: Seq<Seq<u8>>) -> Seq<(Seq<u8>, Result<(), RemovalError>)> {
    ps.map_values(|p: Seq<u8>| (p, Err::<(), RemovalError>(RemovalError::PathEncodingError)))
}

/// A batch as the contracts speak of it.
pub struct BatchView {
    pub kind: Removal,
    /// The path of each request, by correlation id.
    pub paths: Seq<Seq<u8>>,
    /// The buffer that each request points the kernel at, by correlation id.
    pub buffers: Seq<Seq<u8>>,
    /// The paths left out because they could not be encoded.
    pub rejected: Seq<Seq<u8>>,
}

/// One batch of removals: the arena of NUL-terminated path buffers that the
/// kernel reads while the requests are in flight, indexed by correlation id.
/// The arena lives as long as the batch, which is consumed only when its
/// completions are settled.
pub struct Batch {
    kind: Removal,
    paths: Vec<Vec<u8>>,
    arena: Vec<Vec<u8>>,
    rejected: Vec<Vec<u8>>,
}

impl View for Batch {
    type V = BatchView;

    closed spec fn view(&self) -> BatchView {
        BatchView {
            kind: self.kind,
            paths: paths(self.paths@),
            buffers: paths(self.arena@),
            rejected: paths(self.rejected@),
        }
    }
}

impl Batch {
    #[verifier::type_invariant]
    spec fn inv(&self) -> bool {
        self.wf()
    }

    /// Every request's buffer is the NUL-terminated form of its path.
    pub open spec fn wf(&self) -> bool {
        &&& self@.buffers.len() == self@.paths.len()
        &&& forall|i: int|
            0 <= i < self@.paths.len() ==> #[trigger] self@.buffers[i] == terminated(
                self@.paths[i],
            )
    }

    /// The number of requests in the batch.
    pub fn len(&self) -> (r: usize)
        ensures
            r == self@.paths.len(),
    {
        self.paths.len()
    }

    /// The removal that every request of the batch asks for.
    pub fn kind(&self) -> (r: Removal)
        ensures
            r == self@.kind,
    {
        self.kind
    }

    /// The NUL-terminated buffer of the request with correlation id `id`.
    pub fn buffer(&self, id: usize) -> (r: &Vec<u8>)
        requires
            id < self@.paths.len(),
        ensures
            r@ == terminated(self@.paths[id as int]),
    {
        proof {
            use_type_invariant(self);
        }
        assert(self@.buffers[id as int] == self.arena@[id as int]@);
        &self.arena[id]
    }
}


proof fn lemma_split_push(ps: Seq<Seq<u8>>, p: Seq<u8>)
    ensures
        encodable(ps.push(p)) == if has_nul(p) {
            encodable(ps)
        } else {
            encodable(ps).push(p)
        },
        unencodable(ps.push(p)) == if has_nul(p) {
            unencodable(ps).push(p)
        } else {
            unencodable(ps)
        },
{
    assert(ps.push(p).drop_last() =~= ps);
}

proof fn lemma_reports_push(v: Seq<Report>, r: Report)
    ensures
        reports(v.push(r)) == reports(v).push(r@),
{
    assert(reports(v.push(r)) =~= reports(v).push(r@));
}

proof fn lemma_settled_push(ps: Seq<Seq<u8>>, cs: Seq<Completion>, c: Completion)
    ensures
        settled(ps, cs.push(c)) == if c.id < ps.len() {
            settled(ps, cs).push((ps[c.id as int], status_result(c.status)))
        } else {
            settled(ps, cs)
        },
{
    assert(cs.push(c).drop_last() =~= cs);
}

/// The batch side of the removal engine: a fixed queue depth, which bounds
/// the requests of one batch.
pub struct BatchDeleter {
    queue_depth: u32,
}

impl BatchDeleter {
    /// The number of slots of the ring.
    pub closed spec fn depth(&self) -> nat {
        self.queue_depth as nat
    }

    /// An engine of `queue_depth` slots; a depth of zero cannot hold a request.
    pub fn new(queue_depth: u32) -> (r: Result<BatchDeleter, RemovalError>)
        ensures
            queue_depth == 0 <==> r is Err,
            r matches Err(e) ==> e == RemovalError::InitError,
            r matches Ok(d) ==> d.depth() == queue_depth,
    {
        if queue_depth == 0 {
            Err(RemovalError::InitError)
        } else {
            Ok(BatchDeleter { queue_depth })
        }
    }

    /// The number of slots.
    pub fn queue_depth(&self) -> (r: u32)
        ensures
            r == self.depth(),
    {
        self.queue_depth
    }

    /// Builds the batch for the paths of `chunk`: each path that can be encoded gets a
    /// NUL-terminated buffer in the arena and a request whose correlation id
    /// is its position in the batch; each other path is left out and
    /// reported as a `PathEncodingError` when the batch is settled.
    pub fn prepare(&self, chunk: Vec<Vec<u8>>, kind: Removal) -> (r: Batch)
        requires
            chunk@.len() <= self.depth(),
        ensures
            r.wf(),
            r@.kind == kind,
            r@.paths == encodable(paths(chunk@)),
            r@.rejected == unencodable(paths(chunk@)),
            r@.paths.len() <= self.depth(),
    {
        let ghost all = paths(chunk@);
        let mut accepted: Vec<Vec<u8>> = Vec::new();
        let mut arena: Vec<Vec<u8>> = Vec::new();
        let mut rejected: Vec<Vec<u8>> = Vec::new();
        let mut i: usize = 0;
        while i < chunk.len()
            invariant
                i <= chunk@.len(),
                all == paths(chunk@),
                paths(accepted@) == encodable(all.take(i as int)),
                paths(rejected@) == unencodable(all.take(i as int)),
                arena@.len() == accepted@.len(),
                accepted@.len() <= i,
                forall|j: int|
                    0 <= j < accepted@.len() ==> #[trigger] arena@[j]@ == terminated(accepted@[j]@),
            decreases chunk@.len() - i,
        {
            let p = chunk[i].clone();
            proof {
                assert(all.take(i + 1) =~= all.take(i as int).push(p@));
                lemma_split_push(all.take(i as int), p@);
            }
            match encode_path(&p) {
                Some(buf) => {
                    proof {
                        lemma_paths_push(accepted@, p);
                    }
                    accepted.push(p);
                    arena.push(buf);
                },
                None => {
                    proof {
                        lemma_paths_push(rejected@, p);
                    }
                    rejected.push(p);
                },
            }
            i = i + 1;
        }
        assert(all.take(i as int) =~= all);
        assert forall|j: int| 0 <= j < paths(accepted@).len() implies #[trigger] paths(arena@)[j]
            == terminated(paths(accepted@)[j]) by {
            assert(paths(arena@)[j] == arena@[j]@);
        }
        let r = Batch { kind, paths: accepted, arena, rejected };
        r
    }
}

impl Batch {
    /// Matches the completions of the batch to their paths, once they have
    /// all been drained: first a `PathEncodingError` for each path that was
    /// left out, then, in the order of the completions, a success or an
    /// `OperationFailed` for each completion that names a request of the
    /// batch. The arena is released here, and not before.
    pub fn settle(self, completions: &Vec<Completion>) -> (r: Vec<Report>)
        ensures
            reports(r@) == rejected_reports(self@.rejected) + settled(self@.paths, completions@),
    {
        let mut out: Vec<Report> = Vec::new();
        let mut i: usize = 0;
        while i < self.rejected.len()
            invariant
                i <= self.rejected@.len(),
                reports(out@) == rejected_reports(self@.rejected).take(i as int),
            decreases self.rejected@.len() - i,
        {
            let p = self.rejected[i].clone();
            let report = Report { path: p, result: Err(RemovalError::PathEncodingError) };
            proof {
                assert(p@ == self@.rejected[i as int]);
                lemma_reports_push(out@, report);
            }
            out.push(report);
            i = i + 1;
            assert(reports(out@) =~= rejected_reports(self@.rejected).take(i as int));
        }
        assert(rejected_reports(self@.rejected).take(i as int) =~= rejected_reports(self@.rejected));
        let ghost head = reports(out@);
        let mut k: usize = 0;
        while k < completions.len()
            invariant
                k <= completions@.len(),
                reports(out@) == head + settled(self@.paths, completions@.take(k as int)),
            decreases completions@.len() - k,
        {
            let c = completions[k];
            proof {
                assert(completions@.take(k + 1) =~= completions@.take(k as int).push(c));
                lemma_settled_push(self@.paths, completions@.take(k as int), c);
            }
            if c.id < self.paths.len() as u64 {
                let p = self.paths[c.id as usize].clone();
                let result = if c.status < 0 {
                    Err(RemovalError::OperationFailed(c.status))
                } else {
                    Ok(())
                };
                let report = Report { path: p, result };
                proof {
                    assert(p@ == self@.paths[c.id as int]);
                    lemma_reports_push(out@, report);
                }
                out.push(report);
                assert(reports(out@) =~= head + settled(self@.paths, completions@.take(k + 1)));
            }
            k = k + 1;
        }
        assert(completions@.take(k as int) =~= completions@);
        out
    }
}

/// When every completion names a request of the batch, each completion
/// yields exactly one report, in the order of the completions: the path of
/// the request it names, with success or that request's own failure. A
/// failed removal touches no other entry of the batch.
pub proof fn lemma_each_completion_reported(ps: Seq<Seq<u8>>, cs: Seq<Completion>)
    requires
        forall|k: int| 0 <= k < cs.len() ==> #[trigger] cs[k].id < ps.len(),
    ensures
        settled(ps, cs).len() == cs.len(),
        forall|k: int|
            0 <= k < cs.len() ==> #[trigger] settled(ps, cs)[k] == (
                ps[cs[k].id as int],
                status_result(cs[k].status),
            ),
    decreases cs.len(),
{
    if cs.len() > 0 {
        let front = cs.drop_last();
        assert forall|k: int| 0 <= k < front.len() implies #[trigger] front[k].id < ps.len() by {
            assert(front[k] == cs[k]);
        }
        lemma_each_completion_reported(ps, front);
        assert(cs[cs.len() - 1].id < ps.len());
        assert forall|k: int| 0 <= k < cs.len() implies #[trigger] settled(ps, cs)[k] == (
            ps[cs[k].id as int],
            status_result(cs[k].status),
        ) by {
            if k < front.len() {
                assert(front[k] == cs[k]);
                assert(settled(ps, cs)[k] == settled(ps, front)[k]);
            }
        }
    }
}

} // verus!
