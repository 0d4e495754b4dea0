use crate::registry::{
    bytes_view, respond_check, respond_spec, settle_result, store_chunk_check, store_chunk_spec,
    ContractView, FetchResultView, FetchStatus,
};
use vstd::prelude::*;

verus! {

/// Interval between polls when none is configured, in seconds.
pub const DEFAULT_POLL_INTERVAL_SECS: u64 = 5;

/// The poll interval that the worker uses for a configured value: the
/// default when none is given, and never less than one second.
pub fn poll_interval_secs(configured: Option<u64>) -> (r: u64)
    ensures
        r == match configured {
            Some(s) => if s >= 1 { s } else { 1 },
            None => DEFAULT_POLL_INTERVAL_SECS,
        },
{
    let s: u64 = match configured {
        Some(s) => s,
        None => DEFAULT_POLL_INTERVAL_SECS,
    };
    if s >= 1 {
        s
    } else {
        1
    }
}


/// The largest body piece submitted in one call, in bytes.
pub const CHUNK_SIZE: usize = 300_000;

/// `body` cut into consecutive pieces of `size` bytes; the last piece may be
/// shorter, and an empty body gives no piece.
pub open spec fn chunks_of(body: Seq<u8>, size: nat) -> Seq<Seq<u8>>
    decreases body.len(),
{
    if body.len() == 0 || size == 0 {
        Seq::empty()
    } else if body.len() <= size {
        seq![body]
    } else {
        seq![body.take(size as int)] + chunks_of(body.skip(size as int), size)
    }
}

/// The pieces put back together give the body, every piece but the last is
/// exactly `size` bytes long, and the last holds between one and `size` bytes.
pub proof fn lemma_chunks_of(body: Seq<u8>, size: nat)
    requires
        size > 0,
    ensures
        chunks_of(body, size).flatten() == body,
        forall|i: int|
            0 <= i < chunks_of(body, size).len() - 1 ==> (#[trigger] chunks_of(body, size)[i]).len()
                == size,
        body.len() > 0 ==> {
            let pieces = chunks_of(body, size);
            &&& pieces.len() > 0
            &&& 0 < pieces.last().len() <= size
        },
        body.len() == 0 ==> chunks_of(body, size).len() == 0,
    decreases body.len(),
{
    let pieces = chunks_of(body, size);
    if body.len() == 0 {
    } else if body.len() <= size {
        seq![body].lemma_flatten_one_element();
    } else {
        let rest = body.skip(size as int);
        lemma_chunks_of(rest, size);
        let tail = chunks_of(rest, size);
        assert(pieces == seq![body.take(size as int)] + tail);
        assert(pieces.first() == body.take(size as int));
        assert(pieces.drop_first() =~= tail);
        assert(pieces.flatten() == body.take(size as int) + tail.flatten());
        assert(body =~= body.take(size as int) + rest);
        assert forall|i: int| 0 <= i < pieces.len() - 1 implies (#[trigger] pieces[i]).len()
            == size by {
            if i > 0 {
                assert(pieces[i] == tail[i - 1]);
            }
        }
        assert(pieces.last() == tail.last());
    }
}

/// Cutting the piece `start..end` off the rest of the body leaves the
/// pieces of what follows `end`.
proof fn lemma_chunks_step(body: Seq<u8>, size: nat, start: int, end: int)
    requires
        size > 0,
        0 <= start < end <= body.len(),
        end == if body.len() - start <= size { body.len() as int } else { start + size },
    ensures
        chunks_of(body.skip(start), size) == seq![body.subrange(start, end)] + chunks_of(
            body.skip(end),
            size,
        ),
{
    let rest = body.skip(start);
    if rest.len() <= size {
        assert(rest =~= body.subrange(start, end));
        assert(body.skip(end).len() == 0);
        assert(chunks_of(body.skip(end), size) =~= Seq::<Seq<u8>>::empty());
        assert(seq![body.subrange(start, end)] + Seq::<Seq<u8>>::empty() =~= seq![
            body.subrange(start, end),
        ]);
    } else {
        assert(rest.take(size as int) =~= body.subrange(start, end));
        assert(rest.skip(size as int) =~= body.skip(end));
    }
}

fn copy_range(body: &Vec<u8>, start: usize, end: usize) -> (r: Vec<u8>)
    requires
        start <= end <= body@.len(),
    ensures
        r@ == body@.subrange(start as int, end as int),
{
    let mut r: Vec<u8> = Vec::with_capacity(end - start);
    let mut i: usize = start;
    while i < end
        invariant
            start <= i <= end <= body@.len(),
            r@ == body@.subrange(start as int, i as int),
        decreases end - i,
    {
        r.push(body[i]);
        assert(body@.subrange(start as int, i + 1) =~= body@.subrange(start as int, i as int).push(
            body@[i as int],
        ));
        i = i + 1;
    }
    r
}

/// Cuts `body` into pieces of `chunk_size` bytes, the last one possibly shorter.
pub fn split_chunks(body: &Vec<u8>, chunk_size: usize) -> (r: Vec<Vec<u8>>)
    requires
        chunk_size > 0,
    ensures
        r@.map_values(|p: Vec<u8>| p@) == chunks_of(body@, chunk_size as nat),
{
    let mut out: Vec<Vec<u8>> = Vec::new();
    let mut start: usize = 0;
    assert(body@.skip(0) =~= body@);
    while start < body.len()
        invariant
            chunk_size > 0,
            start <= body@.len(),
            out@.map_values(|p: Vec<u8>| p@) + chunks_of(body@.skip(start as int), chunk_size as nat)
                == chunks_of(body@, chunk_size as nat),
        decreases body@.len() - start,
    {
        let end: usize = if body.len() - start <= chunk_size {
            body.len()
        } else {
            start + chunk_size
        };
        let piece = copy_range(body, start, end);
        proof {
            lemma_chunks_step(body@, chunk_size as nat, start as int, end as int);
        }
        let ghost prev = out@;
        out.push(piece);
        assert(out@.map_values(|p: Vec<u8>| p@) =~= prev.map_values(|p: Vec<u8>| p@).push(
            body@.subrange(start as int, end as int),
        ));
        assert(prev.map_values(|p: Vec<u8>| p@) + chunks_of(body@.skip(start as int), chunk_size as nat)
            =~= out@.map_values(|p: Vec<u8>| p@) + chunks_of(body@.skip(end as int), chunk_size as nat));
        start = end;
    }
    assert(body@.skip(start as int).len() == 0);
    assert(chunks_of(body@.skip(start as int), chunk_size as nat) =~= Seq::<Seq<u8>>::empty());
    assert(out@.map_values(|p: Vec<u8>| p@) + Seq::<Seq<u8>>::empty() =~= out@.map_values(
        |p: Vec<u8>| p@,
    ));
    out
}

/// One ledger submission that the worker makes for a fetched body.
#[derive(Clone, Debug, PartialEq, Eq)]
pub enum Submission {
    /// A `respond` call on its own.
    Respond { request_id: u64, yield_id: Vec<u8>, body: Option<Vec<u8>> },
    /// A `store_response_chunk` call on its own.
    StoreChunk { request_id: u64, data: Vec<u8>, append: bool },
    /// One atomic transaction: `store_response_chunk(request_id, data, false)`,
    /// then `respond(request_id, yield_id, None)`.
    StoreAndRespond { request_id: u64, yield_id: Vec<u8>, data: Vec<u8> },
}

/// A submission as a mathematical value.
pub enum SubmissionView {
    Respond { request_id: u64, yield_id: Seq<u8>, body: Option<Seq<u8>> },
    StoreChunk { request_id: u64, data: Seq<u8>, append: bool },
    StoreAndRespond { request_id: u64, yield_id: Seq<u8>, data: Seq<u8> },
}

impl View for Submission {
    type V = SubmissionView;

    open spec fn view(&self) -> SubmissionView {
        match self {
            Submission::Respond { request_id, yield_id, body } => SubmissionView::Respond {
                request_id: *request_id,
                yield_id: yield_id@,
                body: bytes_view(*body),
            },
            Submission::StoreChunk { request_id, data, append } => SubmissionView::StoreChunk {
                request_id: *request_id,
                data: data@,
                append: *append,
            },
            Submission::StoreAndRespond { request_id, yield_id, data } =>
                SubmissionView::StoreAndRespond {
                request_id: *request_id,
                yield_id: yield_id@,
                data: data@,
            },
        }
    }
}

/// One `store_response_chunk` per piece, in order: the first replaces what is
/// staged, the others append.
pub open spec fn chunk_stores(request_id: u64, pieces: Seq<Seq<u8>>) -> Seq<SubmissionView> {
    Seq::new(
        pieces.len(),
        |i: int| SubmissionView::StoreChunk { request_id, data: pieces[i], append: i > 0 },
    )
}

/// The submissions that deliver `body` for a request, in order: an empty
/// body goes inline; one that fits in a chunk is staged and resolved in one
/// atomic transaction; a larger one is staged piece by piece and then
/// resolved from what is staged.
pub open spec fn plan_spec(request_id: u64, yield_id: Seq<u8>, body: Seq<u8>) -> Seq<
    SubmissionView,
> {
    if body.len() == 0 {
        seq![SubmissionView::Respond { request_id, yield_id, body: Some(body) }]
    } else if body.len() <= CHUNK_SIZE {
        seq![SubmissionView::StoreAndRespond { request_id, yield_id, data: body }]
    } else {
        chunk_stores(request_id, chunks_of(body, CHUNK_SIZE as nat)).push(
            SubmissionView::Respond { request_id, yield_id, body: None },
        )
    }
}

/// The submissions, in order, that deliver the fetched `body` of the request
/// `request_id`, each carrying the token `yield_id` where it resolves.
pub fn plan_response(request_id: u64, yield_id: Vec<u8>, body: Vec<u8>) -> (r: Vec<Submission>)
    ensures
        r@.map_values(|s: Submission| s@) == plan_spec(request_id, yield_id@, body@),
{
    let mut out: Vec<Submission> = Vec::new();
    if body.len() == 0 {
        out.push(Submission::Respond { request_id, yield_id, body: Some(body) });
        assert(out@.map_values(|s: Submission| s@) =~= plan_spec(request_id, yield_id@, body@));
        return out;
    }
    if body.len() <= CHUNK_SIZE {
        out.push(Submission::StoreAndRespond { request_id, yield_id, data: body });
        assert(out@.map_values(|s: Submission| s@) =~= plan_spec(request_id, yield_id@, body@));
        return out;
    }
    let mut pieces = split_chunks(&body, CHUNK_SIZE);
    let ghost views = pieces@.map_values(|p: Vec<u8>| p@);
    let count: usize = pieces.len();
    let ghost n = count as int;
    let mut i: usize = 0;
    while pieces.len() > 0
        invariant
            views.len() == n,
            n == count,
            i <= n,
            pieces@.len() == n - i,
            forall|k: int| 0 <= k < pieces@.len() ==> #[trigger] pieces@[k]@ == views[i + k],
            out@.map_values(|s: Submission| s@) =~= chunk_stores(request_id, views.take(i as int)),
        decreases pieces@.len(),
    {
        let ghost before = pieces@;
        let piece = pieces.remove(0);
        assert(piece@ == views[i as int]);
        assert forall|k: int| 0 <= k < pieces@.len() implies #[trigger] pieces@[k]@ == views[i + 1
            + k] by {
            assert(pieces@[k] == before[k + 1]);
        }
        let ghost prev = out@;
        out.push(Submission::StoreChunk { request_id, data: piece, append: i > 0 });
        assert(out@.map_values(|s: Submission| s@) =~= prev.map_values(|s: Submission| s@).push(
            SubmissionView::StoreChunk { request_id, data: views[i as int], append: i > 0 },
        ));
        assert(chunk_stores(request_id, views.take(i + 1)) =~= chunk_stores(
            request_id,
            views.take(i as int),
        ).push(SubmissionView::StoreChunk { request_id, data: views[i as int], append: i > 0 }));
        assert(out@.map_values(|s: Submission| s@) =~= chunk_stores(
            request_id,
            views.take(i + 1),
        ));
        i = i + 1;
    }
    assert(views.take(i as int) =~= views);
    out.push(Submission::Respond { request_id, yield_id, body: None });
    assert(out@.map_values(|s: Submission| s@) =~= plan_spec(request_id, yield_id@, body@));
    out
}

/// How one poll cycle ended.
#[derive(Clone, Copy, Debug, PartialEq, Eq, Structural)]
pub enum CycleOutcome {
    /// The pending list was empty.
    Idle,
    /// Every listed request was handled.
    Processed,
    /// Handling a request failed; the rest of the list was left for later.
    Failed,
}

/// What the worker does once a cycle has ended.
#[derive(Clone, Copy, Debug, PartialEq, Eq, Structural)]
pub enum LoopAction {
    /// Start the next cycle at once.
    PollNow,
    /// Sleep for the poll interval, then start the next cycle.
    SleepThenPoll,
}

/// After a cycle that handled requests the worker polls again at once;
/// after an idle or a failed cycle it sleeps first.
pub fn after_cycle(outcome: CycleOutcome) -> (r: LoopAction)
    ensures
        r == if outcome == CycleOutcome::Processed {
            LoopAction::PollNow
        } else {
            LoopAction::SleepThenPoll
        },
{
    match outcome {
        CycleOutcome::Processed => LoopAction::PollNow,
        _ => LoopAction::SleepThenPoll,
    }
}

/// The next thing a cycle does.
#[derive(Clone, Copy, Debug, PartialEq, Eq, Structural)]
pub enum CycleStep {
    /// Handle the request at this position of the listed snapshot.
    Handle(usize),
    /// The cycle is over.
    Finished(CycleOutcome),
}

/// One poll cycle over a snapshot of `pending` requests, handled one at a
/// time in list order until the first failure.
pub struct Cycle {
    /// Length of the listed snapshot.
    pub pending: usize,
    /// Requests taken up so far, the failed one included.
    pub handled: usize,
    /// Whether the last request taken up failed.
    pub failed: bool,
}

impl Cycle {
    /// No more requests taken up than were listed.
    pub open spec fn wf(&self) -> bool {
        self.handled <= self.pending
    }

    /// A cycle over a freshly listed snapshot of `pending` requests.
    pub fn start(pending: usize) -> (c: Cycle)
        ensures
            c.wf(),
            c.pending == pending,
            c.handled == 0,
            !c.failed,
    {
        Cycle { pending, handled: 0, failed: false }
    }

    /// What the cycle does next.
    pub open spec fn next_spec(&self) -> CycleStep {
        if self.pending == 0 {
            CycleStep::Finished(CycleOutcome::Idle)
        } else if self.failed {
            CycleStep::Finished(CycleOutcome::Failed)
        } else if self.handled < self.pending {
            CycleStep::Handle(self.handled)
        } else {
            CycleStep::Finished(CycleOutcome::Processed)
        }
    }

    /// The next step: the first request not yet handled, unless the list
    /// was empty, a request failed, or all are done.
    pub fn next(&self) -> (r: CycleStep)
        requires
            self.wf(),
        ensures
            r == self.next_spec(),
    {
        if self.pending == 0 {
            CycleStep::Finished(CycleOutcome::Idle)
        } else if self.failed {
            CycleStep::Finished(CycleOutcome::Failed)
        } else if self.handled < self.pending {
            CycleStep::Handle(self.handled)
        } else {
            CycleStep::Finished(CycleOutcome::Processed)
        }
    }

    /// Records how handling the request that `next` named went.
    pub fn record(&mut self, ok: bool)
        requires
            old(self).wf(),
            old(self).next_spec() is Handle,
        ensures
            final(self).wf(),
            final(self).pending == old(self).pending,
            final(self).handled == old(self).handled + 1,
            final(self).failed == !ok,
    {
        self.handled = self.handled + 1;
        self.failed = !ok;
    }
}

/// The registry state after one submission by `relayer`. The two calls of
/// `StoreAndRespond` take effect together or not at all.
pub open spec fn apply_submission(c: ContractView, relayer: Seq<char>, s: SubmissionView) -> ContractView {
    match s {
        SubmissionView::Respond { request_id, yield_id, body } => respond_spec(
            c,
            relayer,
            request_id,
            yield_id,
            body,
        ),
        SubmissionView::StoreChunk { request_id, data, append } => store_chunk_spec(
            c,
            relayer,
            request_id,
            data,
            append,
        ),
        SubmissionView::StoreAndRespond { request_id, yield_id, data } => {
            let staged = store_chunk_spec(c, relayer, request_id, data, false);
            if store_chunk_check(c, relayer) is Ok && respond_check(
                staged,
                relayer,
                request_id,
                yield_id,
                None,
            ) is Ok {
                respond_spec(staged, relayer, request_id, yield_id, None)
            } else {
                c
            }
        },
    }
}

/// The registry state after a sequence of submissions, made in order.
pub open spec fn apply_all(c: ContractView, relayer: Seq<char>, subs: Seq<SubmissionView>) -> ContractView
    decreases subs.len(),
{
    if subs.len() == 0 {
        c
    } else {
        apply_submission(apply_all(c, relayer, subs.drop_last()), relayer, subs.last())
    }
}

proof fn lemma_chunk_stores_stage(c: ContractView, request_id: u64, pieces: Seq<Seq<u8>>, k: int)
    requires
        0 <= k <= pieces.len(),
    ensures
        ({
            let c2 = apply_all(c, c.trusted_relayer, chunk_stores(request_id, pieces).take(k));
            &&& c2.requests == c.requests
            &&& c2.trusted_relayer == c.trusted_relayer
            &&& c2.next_request_id == c.next_request_id
            &&& k > 0 ==> c2.staged.contains_key(request_id) && c2.staged[request_id]
                == pieces.take(k).flatten_alt()
        }),
    decreases k,
{
    let subs = chunk_stores(request_id, pieces).take(k);
    if k > 0 {
        lemma_chunk_stores_stage(c, request_id, pieces, k - 1);
        assert(subs.drop_last() =~= chunk_stores(request_id, pieces).take(k - 1));
        assert(pieces.take(k).drop_last() =~= pieces.take(k - 1));
        if k == 1 {
            assert(pieces.take(0).flatten_alt() =~= Seq::<u8>::empty());
            assert(pieces.take(1).flatten_alt() =~= pieces[0]);
        }
    }
}

/// Whatever the size of a fetched body, the submissions planned for it,
/// made in order by the trusted relayer with the request's own token, leave
/// the request pending with exactly that body finalized, so that settling
/// it delivers the body byte for byte.
pub proof fn lemma_planned_submissions_deliver_body(
    c: ContractView,
    request_id: u64,
    body: Seq<u8>,
)
    requires
        c.wf(),
        c.has_request(request_id),
    ensures
        ({
            let r = c.request(request_id);
            let c2 = apply_all(c, c.trusted_relayer, plan_spec(request_id, r.yield_id, body));
            &&& c2.requests == c.requests
            &&& c2.staged.contains_key(request_id)
            &&& c2.staged[request_id] == body
            &&& settle_result(c2, request_id, FetchStatus::Completed) == Some(
                FetchResultView {
                    request_id,
                    url: r.url,
                    status: FetchStatus::Completed,
                    body: Some(body),
                    context: r.context,
                    caller: r.caller,
                },
            )
        }),
{
    let r = c.request(request_id);
    let plan = plan_spec(request_id, r.yield_id, body);
    let relayer = c.trusted_relayer;
    if body.len() <= CHUNK_SIZE {
        assert(plan.drop_last() =~= Seq::<SubmissionView>::empty());
        assert(apply_all(c, relayer, plan.drop_last()) == c);
        assert(plan.last() == plan[0]);
        if body.len() > 0 {
            let staged = store_chunk_spec(c, relayer, request_id, body, false);
            assert(staged.requests == c.requests);
            assert(staged.staged_or_empty(request_id) == body);
            assert(respond_check(staged, relayer, request_id, r.yield_id, None) is Ok);
        }
    } else {
        let pieces = chunks_of(body, CHUNK_SIZE as nat);
        lemma_chunks_of(body, CHUNK_SIZE as nat);
        pieces.lemma_flatten_and_flatten_alt_are_equivalent();
        let stores = chunk_stores(request_id, pieces);
        lemma_chunk_stores_stage(c, request_id, pieces, pieces.len() as int);
        assert(stores.take(pieces.len() as int) =~= stores);
        assert(pieces.take(pieces.len() as int) =~= pieces);
        assert(plan.drop_last() =~= stores);
        let cn = apply_all(c, relayer, stores);
        assert(cn.staged[request_id] == body);
        assert(cn.staged_or_empty(request_id).len() > 0);
        assert(respond_check(cn, relayer, request_id, r.yield_id, None) is Ok);
    }
}
} // verus!
