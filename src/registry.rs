use std::collections::HashMap;
use vstd::prelude::*;

verus! {

broadcast use vstd::std_specs::hash::group_hash_axioms;

/// A fetch request waiting for its response, as listed to the relayer.
#[derive(Clone, Debug, PartialEq, Eq)]
pub struct PendingRequest {
    pub request_id: u64,
    pub url: String,
    pub caller: String,
    pub context: Option<Vec<u8>>,
    /// The continuation token that resolves this request.
    pub yield_id: Vec<u8>,
}

/// A pending request as a mathematical value.
pub struct PendingView {
    pub request_id: u64,
    pub url: Seq<char>,
    pub caller: Seq<char>,
    pub context: Option<Seq<u8>>,
    pub yield_id: Seq<u8>,
}

/// Optional bytes as an optional sequence.
pub open spec fn bytes_view(o: Option<Vec<u8>>) -> Option<Seq<u8>> {
    match o {
        Some(v) => Some(v@),
        None => None,
    }
}

impl View for PendingRequest {
    type V = PendingView;

    open spec fn view(&self) -> PendingView {
        PendingView {
            request_id: self.request_id,
            url: self.url@,
            caller: self.caller@,
            context: bytes_view(self.context),
            yield_id: self.yield_id@,
        }
    }
}

/// How a suspended fetch ended.
#[derive(Clone, Copy, Debug, PartialEq, Eq, Structural)]
pub enum FetchStatus {
    Completed,
    TimedOut,
}

/// What the suspended caller of `fetch` receives, exactly once.
#[derive(Clone, Debug, PartialEq, Eq)]
pub struct FetchResult {
    pub request_id: u64,
    pub url: String,
    pub status: FetchStatus,
    pub body: Option<Vec<u8>>,
    pub context: Option<Vec<u8>>,
    pub caller: String,
}

/// A fetch result as a mathematical value.
pub struct FetchResultView {
    pub request_id: u64,
    pub url: Seq<char>,
    pub status: FetchStatus,
    pub body: Option<Seq<u8>>,
    pub context: Option<Seq<u8>>,
    pub caller: Seq<char>,
}

impl View for FetchResult {
    type V = FetchResultView;

    open spec fn view(&self) -> FetchResultView {
        FetchResultView {
            request_id: self.request_id,
            url: self.url@,
            status: self.status,
            body: bytes_view(self.body),
            context: bytes_view(self.context),
            caller: self.caller@,
        }
    }
}

/// Why a ledger call was rejected. A rejected call changes nothing.
#[derive(Clone, Copy, Debug, PartialEq, Eq, Structural)]
pub enum FetchError {
    /// The request id space is exhausted.
    Overflow,
    /// No pending request has this id.
    NotFound,
    /// The continuation token differs from the one stored for the request.
    TokenMismatch,
    /// No inline body was given and nothing non-empty is staged.
    NoBody,
    /// The caller is not the trusted relayer.
    Unauthorized,
}

/// The registry of pending requests and the staging area for their bodies.
pub struct Contract {
    trusted_relayer: String,
    next_request_id: u64,
    requests: Vec<PendingRequest>,
    response_bodies: HashMap<u64, Vec<u8>>,
}

/// The abstract state: the trusted relayer, the next id to hand out, the
/// pending requests in ascending id order, and the staged bodies by id.
pub struct ContractView {
    pub trusted_relayer: Seq<char>,
    pub next_request_id: u64,
    pub requests: Seq<PendingView>,
    pub staged: Map<u64, Seq<u8>>,
}

impl View for Contract {
    type V = ContractView;

    closed spec fn view(&self) -> ContractView {
        ContractView {
            trusted_relayer: self.trusted_relayer@,
            next_request_id: self.next_request_id,
            requests: self.requests@.map_values(|r: PendingRequest| r@),
            staged: self.response_bodies@.map_values(|b: Vec<u8>| b@),
        }
    }
}

impl ContractView {
    /// Ids ascend strictly through the list and all lie below the next id.
    pub open spec fn wf(self) -> bool {
        &&& forall|i: int, j: int|
            0 <= i < j < self.requests.len() ==> #[trigger] self.requests[i].request_id
                < #[trigger] self.requests[j].request_id
        &&& forall|i: int|
            0 <= i < self.requests.len() ==> #[trigger] self.requests[i].request_id
                < self.next_request_id
    }

    pub open spec fn has_request(self, id: u64) -> bool {
        exists|i: int| 0 <= i < self.requests.len() && #[trigger] self.requests[i].request_id == id
    }

    pub open spec fn index_of(self, id: u64) -> int {
        choose|i: int| 0 <= i < self.requests.len() && #[trigger] self.requests[i].request_id == id
    }

    /// The pending request with this id (meaningful where `has_request`).
    pub open spec fn request(self, id: u64) -> PendingView {
        self.requests[self.index_of(id)]
    }

    /// The ids of the pending requests, in list order.
    pub open spec fn ids(self) -> Seq<u64> {
        self.requests.map_values(|r: PendingView| r.request_id)
    }

    /// Bytes staged for this id, empty where none are.
    pub open spec fn staged_or_empty(self, id: u64) -> Seq<u8> {
        if self.staged.contains_key(id) {
            self.staged[id]
        } else {
            Seq::empty()
        }
    }
}

/// The state after `fetch` succeeds: the request is appended under the next id.
pub open spec fn fetch_spec(
    c: ContractView,
    url: Seq<char>,
    context: Option<Seq<u8>>,
    caller: Seq<char>,
    yield_id: Seq<u8>,
) -> ContractView {
    if c.next_request_id == u64::MAX {
        c
    } else {
        ContractView {
            next_request_id: (c.next_request_id + 1) as u64,
            requests: c.requests.push(
                PendingView { request_id: c.next_request_id, url, caller, context, yield_id },
            ),
            ..c
        }
    }
}

/// Whether `store_response_chunk` is accepted.
pub open spec fn store_chunk_check(c: ContractView, predecessor: Seq<char>) -> Result<
    (),
    FetchError,
> {
    if predecessor != c.trusted_relayer {
        Err(FetchError::Unauthorized)
    } else {
        Ok(())
    }
}

/// The state after `store_response_chunk`: replace, or append to what is staged.
pub open spec fn store_chunk_spec(
    c: ContractView,
    predecessor: Seq<char>,
    request_id: u64,
    data: Seq<u8>,
    append: bool,
) -> ContractView {
    if store_chunk_check(c, predecessor) is Err {
        c
    } else if append {
        ContractView { staged: c.staged.insert(request_id, c.staged_or_empty(request_id) + data), ..c }
    } else {
        ContractView { staged: c.staged.insert(request_id, data), ..c }
    }
}

/// Whether `respond` is accepted, and the first reason why not.
pub open spec fn respond_check(
    c: ContractView,
    predecessor: Seq<char>,
    request_id: u64,
    yield_id: Seq<u8>,
    body: Option<Seq<u8>>,
) -> Result<(), FetchError> {
    if predecessor != c.trusted_relayer {
        Err(FetchError::Unauthorized)
    } else if !c.has_request(request_id) {
        Err(FetchError::NotFound)
    } else if c.request(request_id).yield_id != yield_id {
        Err(FetchError::TokenMismatch)
    } else if body is None && c.staged_or_empty(request_id).len() == 0 {
        Err(FetchError::NoBody)
    } else {
        Ok(())
    }
}

/// The state after `respond`: an inline body becomes the staged body.
pub open spec fn respond_spec(
    c: ContractView,
    predecessor: Seq<char>,
    request_id: u64,
    yield_id: Seq<u8>,
    body: Option<Seq<u8>>,
) -> ContractView {
    if respond_check(c, predecessor, request_id, yield_id, body) is Err {
        c
    } else {
        match body {
            Some(b) => ContractView { staged: c.staged.insert(request_id, b), ..c },
            None => c,
        }
    }
}

/// The state after settling: the request and its staged body are gone.
pub open spec fn settle_spec(c: ContractView, request_id: u64) -> ContractView {
    if !c.has_request(request_id) {
        c
    } else {
        ContractView {
            requests: c.requests.remove(c.index_of(request_id)),
            staged: c.staged.remove(request_id),
            ..c
        }
    }
}

/// The result delivered on settling, if the request was pending.
pub open spec fn settle_result(c: ContractView, request_id: u64, status: FetchStatus) -> Option<
    FetchResultView,
> {
    if !c.has_request(request_id) {
        None
    } else {
        let r = c.request(request_id);
        Some(
            FetchResultView {
                request_id,
                url: r.url,
                status,
                body: match status {
                    FetchStatus::Completed => if c.staged.contains_key(request_id) {
                        Some(c.staged[request_id])
                    } else {
                        None
                    },
                    FetchStatus::TimedOut => None,
                },
                context: r.context,
                caller: r.caller,
            },
        )
    }
}


fn same_bytes(a: &Vec<u8>, b: &Vec<u8>) -> (r: bool)
    ensures
        r == (a@ == b@),
{
    if a.len() != b.len() {
        return false;
    }
    let mut i: usize = 0;
    while i < a.len()
        invariant
            a@.len() == b@.len(),
            i <= a@.len(),
            a@.subrange(0, i as int) == b@.subrange(0, i as int),
        decreases a@.len() - i,
    {
        if a[i] != b[i] {
            assert(a@[i as int] != b@[i as int]);
            return false;
        }
        assert(a@.subrange(0, i + 1) =~= a@.subrange(0, i as int).push(a@[i as int]));
        assert(b@.subrange(0, i + 1) =~= b@.subrange(0, i as int).push(b@[i as int]));
        i = i + 1;
    }
    assert(a@ =~= a@.subrange(0, i as int));
    assert(b@ =~= b@.subrange(0, i as int));
    true
}

fn copy_bytes(a: &Vec<u8>) -> (r: Vec<u8>)
    ensures
        r@ == a@,
{
    let mut r: Vec<u8> = Vec::with_capacity(a.len());
    let mut i: usize = 0;
    while i < a.len()
        invariant
            i <= a@.len(),
            r@ == a@.subrange(0, i as int),
        decreases a@.len() - i,
    {
        r.push(a[i]);
        assert(a@.subrange(0, i + 1) =~= a@.subrange(0, i as int).push(a@[i as int]));
        i = i + 1;
    }
    assert(a@ =~= a@.subrange(0, i as int));
    r
}

fn copy_opt_bytes(o: &Option<Vec<u8>>) -> (r: Option<Vec<u8>>)
    ensures
        bytes_view(r) == bytes_view(*o),
{
    match o {
        Some(v) => Some(copy_bytes(v)),
        None => None,
    }
}

impl PendingRequest {
    fn snapshot(&self) -> (r: PendingRequest)
        ensures
            r@ == self@,
    {
        PendingRequest {
            request_id: self.request_id,
            url: self.url.clone(),
            caller: self.caller.clone(),
            context: copy_opt_bytes(&self.context),
            yield_id: copy_bytes(&self.yield_id),
        }
    }
}

impl Contract {
    /// An empty registry whose relayer-only calls are open to `trusted_relayer`.
    pub fn new(trusted_relayer: String) -> (c: Contract)
        ensures
            c@.wf(),
            c@.trusted_relayer == trusted_relayer@,
            c@.next_request_id == 0,
            c@.requests.len() == 0,
            c@.staged == Map::<u64, Seq<u8>>::empty(),
    {
        let c = Contract {
            trusted_relayer,
            next_request_id: 0,
            requests: Vec::new(),
            response_bodies: HashMap::new(),
        };
        assert(c@.requests =~= Seq::<PendingView>::empty());
        assert(c@.staged =~= Map::<u64, Seq<u8>>::empty());
        c
    }

    /// The identity allowed to stage bodies and resolve requests.
    pub fn trusted_relayer(&self) -> (r: String)
        ensures
            r@ == self@.trusted_relayer,
    {
        self.trusted_relayer.clone()
    }

    /// Rebuilds a registry from persisted parts, with nothing staged. Gives
    /// `None` unless the request ids ascend strictly and all lie below
    /// `next_request_id`.
    pub fn restore(
        trusted_relayer: String,
        next_request_id: u64,
        requests: Vec<PendingRequest>,
    ) -> (r: Option<Contract>)
        ensures
            ({
                let v = ContractView {
                    trusted_relayer: trusted_relayer@,
                    next_request_id,
                    requests: requests@.map_values(|p: PendingRequest| p@),
                    staged: Map::empty(),
                };
                match r {
                    Some(c) => v.wf() && c@ == v,
                    None => !v.wf(),
                }
            }),
    {
        let ghost v = ContractView {
            trusted_relayer: trusted_relayer@,
            next_request_id,
            requests: requests@.map_values(|p: PendingRequest| p@),
            staged: Map::empty(),
        };
        let mut i: usize = 0;
        while i < requests.len()
            invariant
                i <= requests@.len(),
                v.requests == requests@.map_values(|p: PendingRequest| p@),
                v.next_request_id == next_request_id,
                forall|k: int| 0 <= k < i ==> #[trigger] v.requests[k].request_id < next_request_id,
                forall|a: int, b: int|
                    0 <= a < b < i ==> #[trigger] v.requests[a].request_id
                        < #[trigger] v.requests[b].request_id,
            decreases requests@.len() - i,
        {
            let id = requests[i].request_id;
            if id >= next_request_id {
                assert(!v.wf()) by {
                    assert(v.requests[i as int].request_id >= v.next_request_id);
                }
                return None;
            }
            if i > 0 && requests[i - 1].request_id >= id {
                assert(!v.wf()) by {
                    assert(v.requests[i - 1].request_id >= v.requests[i as int].request_id);
                }
                return None;
            }
            assert forall|a: int, b: int|
                0 <= a < b < i + 1 implies #[trigger] v.requests[a].request_id
                < #[trigger] v.requests[b].request_id by {
                if b == i && a < i - 1 {
                    assert(v.requests[a].request_id < v.requests[i - 1].request_id);
                }
            }
            i = i + 1;
        }
        let c = Contract {
            trusted_relayer,
            next_request_id,
            requests,
            response_bodies: HashMap::new(),
        };
        assert(c@.staged =~= Map::<u64, Seq<u8>>::empty());
        Some(c)
    }

    /// The id that the next `fetch` hands out.
    pub fn next_request_id(&self) -> (r: u64)
        ensures
            r == self@.next_request_id,
    {
        self.next_request_id
    }

    /// A copy of the bytes staged for a request, if any.
    pub fn staged_body(&self, request_id: u64) -> (r: Option<Vec<u8>>)
        ensures
            bytes_view(r) == if self@.staged.contains_key(request_id) {
                Some(self@.staged[request_id])
            } else {
                None
            },
    {
        match self.response_bodies.get(&request_id) {
            Some(b) => Some(copy_bytes(b)),
            None => None,
        }
    }

    /// Registers a fetch of `url` by `caller`, to be resolved with `yield_id`,
    /// under the next request id, which it returns.
    pub fn fetch(
        &mut self,
        url: String,
        context: Option<Vec<u8>>,
        caller: String,
        yield_id: Vec<u8>,
    ) -> (r: Result<u64, FetchError>)
        requires
            old(self)@.wf(),
        ensures
            final(self)@.wf(),
            final(self)@ == fetch_spec(old(self)@, url@, bytes_view(context), caller@, yield_id@),
            r == if old(self)@.next_request_id == u64::MAX {
                Err(FetchError::Overflow)
            } else {
                Ok(old(self)@.next_request_id)
            },
    {
        let request_id = self.next_request_id;
        if request_id == u64::MAX {
            return Err(FetchError::Overflow);
        }
        let ghost before = self@;
        let ghost added = PendingView {
            request_id,
            url: url@,
            caller: caller@,
            context: bytes_view(context),
            yield_id: yield_id@,
        };
        self.next_request_id = request_id + 1;
        self.requests.push(PendingRequest { request_id, url, caller, context, yield_id });
        assert(self@.requests =~= before.requests.push(added));
        Ok(request_id)
    }

    /// A snapshot of the pending requests, in ascending id order.
    pub fn list_requests(&self) -> (r: Vec<PendingRequest>)
        ensures
            r@.map_values(|p: PendingRequest| p@) == self@.requests,
    {
        let mut out: Vec<PendingRequest> = Vec::with_capacity(self.requests.len());
        let mut i: usize = 0;
        while i < self.requests.len()
            invariant
                i <= self.requests@.len(),
                out@.len() == i,
                out@.map_values(|p: PendingRequest| p@) =~= self@.requests.subrange(0, i as int),
            decreases self.requests@.len() - i,
        {
            let ghost prev = out@;
            out.push(self.requests[i].snapshot());
            assert(out@ =~= prev.push(out@[i as int]));
            assert(out@.map_values(|p: PendingRequest| p@) =~= prev.map_values(
                |p: PendingRequest| p@,
            ).push(out@[i as int]@));
            i = i + 1;
        }
        out
    }

    fn find(&self, request_id: u64) -> (r: Option<usize>)
        requires
            self@.wf(),
        ensures
            match r {
                Some(i) => {
                    &&& self@.has_request(request_id)
                    &&& i < self@.requests.len()
                    &&& i == self@.index_of(request_id)
                    &&& self@.requests[i as int].request_id == request_id
                },
                None => !self@.has_request(request_id),
            },
    {
        let mut i: usize = 0;
        while i < self.requests.len()
            invariant
                i <= self@.requests.len(),
                self@.wf(),
                forall|k: int| 0 <= k < i ==> #[trigger] self@.requests[k].request_id != request_id,
            decreases self.requests@.len() - i,
        {
            if self.requests[i].request_id == request_id {
                assert(self@.requests[i as int].request_id == request_id);
                assert(self@.has_request(request_id));
                let ghost j = self@.index_of(request_id);
                assert(self@.requests[j].request_id == request_id);
                assert(j == i) by {
                    if j < i {
                        assert(self@.requests[j].request_id < self@.requests[i as int].request_id);
                    } else if j > i {
                        assert(self@.requests[i as int].request_id < self@.requests[j].request_id);
                    }
                }
                return Some(i);
            }
            i = i + 1;
        }
        None
    }

    /// Resolves a pending request: the trusted relayer presents its token and
    /// either an inline body, which replaces anything staged, or none, in
    /// which case a non-empty staged body must already exist.
    pub fn respond(
        &mut self,
        predecessor: &String,
        request_id: u64,
        yield_id: Vec<u8>,
        body: Option<Vec<u8>>,
    ) -> (r: Result<(), FetchError>)
        requires
            old(self)@.wf(),
        ensures
            final(self)@.wf(),
            final(self)@ == respond_spec(
                old(self)@,
                predecessor@,
                request_id,
                yield_id@,
                bytes_view(body),
            ),
            r == respond_check(old(self)@, predecessor@, request_id, yield_id@, bytes_view(body)),
    {
        if !(*predecessor == self.trusted_relayer) {
            return Err(FetchError::Unauthorized);
        }
        let idx = match self.find(request_id) {
            Some(i) => i,
            None => return Err(FetchError::NotFound),
        };
        if !same_bytes(&self.requests[idx].yield_id, &yield_id) {
            return Err(FetchError::TokenMismatch);
        }
        let ghost before = self@;
        match body {
            Some(data) => {
                let ghost d = data@;
                self.response_bodies.insert(request_id, data);
                assert(self@.staged =~= before.staged.insert(request_id, d));
            },
            None => {
                let staged_nonempty = match self.response_bodies.get(&request_id) {
                    Some(b) => b.len() > 0,
                    None => false,
                };
                if !staged_nonempty {
                    return Err(FetchError::NoBody);
                }
            },
        }
        Ok(())
    }

    /// Stages `data` for a request: replaces what is staged, or with
    /// `append` adds it after what is staged. Trusted relayer only.
    pub fn store_response_chunk(
        &mut self,
        predecessor: &String,
        request_id: u64,
        data: Vec<u8>,
        append: bool,
    ) -> (r: Result<(), FetchError>)
        requires
            old(self)@.wf(),
        ensures
            final(self)@.wf(),
            final(self)@ == store_chunk_spec(old(self)@, predecessor@, request_id, data@, append),
            r == store_chunk_check(old(self)@, predecessor@),
    {
        if !(*predecessor == self.trusted_relayer) {
            return Err(FetchError::Unauthorized);
        }
        let ghost before = self@;
        let ghost d = data@;
        if append {
            let mut current = match self.response_bodies.remove(&request_id) {
                Some(b) => b,
                None => Vec::new(),
            };
            assert(current@ == before.staged_or_empty(request_id));
            let mut data = data;
            current.append(&mut data);
            self.response_bodies.insert(request_id, current);
            assert(self@.staged =~= before.staged.insert(
                request_id,
                before.staged_or_empty(request_id) + d,
            ));
        } else {
            self.response_bodies.insert(request_id, data);
            assert(self@.staged =~= before.staged.insert(request_id, d));
        }
        Ok(())
    }

    /// Settles a request, on resumption (`Completed`) or on timeout
    /// (`TimedOut`): removes it and its staged body and returns what its
    /// caller receives. Settling an id that is not pending changes nothing.
    pub fn on_fetch_complete(&mut self, request_id: u64, status: FetchStatus) -> (r: Option<
        FetchResult,
    >)
        requires
            old(self)@.wf(),
        ensures
            final(self)@.wf(),
            final(self)@ == settle_spec(old(self)@, request_id),
            match r {
                Some(x) => settle_result(old(self)@, request_id, status) == Some(x@),
                None => settle_result(old(self)@, request_id, status) is None,
            },
    {
        let idx = match self.find(request_id) {
            Some(i) => i,
            None => return None,
        };
        let ghost before = self@;
        let req = self.requests.remove(idx);
        let stored = self.response_bodies.remove(&request_id);
        assert(self@.requests =~= before.requests.remove(idx as int));
        assert(self@.staged =~= before.staged.remove(request_id));
        assert forall|i: int, j: int|
            0 <= i < j < self@.requests.len() implies #[trigger] self@.requests[i].request_id
            < #[trigger] self@.requests[j].request_id by {
            if j < idx {
            } else if i < idx {
                assert(self@.requests[j] == before.requests[j + 1]);
            } else {
                assert(self@.requests[i] == before.requests[i + 1]);
                assert(self@.requests[j] == before.requests[j + 1]);
            }
        }
        let body = match status {
            FetchStatus::Completed => stored,
            FetchStatus::TimedOut => None,
        };
        Some(
            FetchResult {
                request_id,
                url: req.url,
                status,
                body,
                context: req.context,
                caller: req.caller,
            },
        )
    }
}


/// A call on the registry, as a caller makes it.
pub enum Call {
    Fetch { url: Seq<char>, context: Option<Seq<u8>>, caller: Seq<char>, yield_id: Seq<u8> },
    StoreChunk { predecessor: Seq<char>, request_id: u64, data: Seq<u8>, append: bool },
    Respond { predecessor: Seq<char>, request_id: u64, yield_id: Seq<u8>, body: Option<Seq<u8>> },
    Settle { request_id: u64 },
}

/// The state after one call.
pub open spec fn step(c: ContractView, call: Call) -> ContractView {
    match call {
        Call::Fetch { url, context, caller, yield_id } => fetch_spec(
            c,
            url,
            context,
            caller,
            yield_id,
        ),
        Call::StoreChunk { predecessor, request_id, data, append } => store_chunk_spec(
            c,
            predecessor,
            request_id,
            data,
            append,
        ),
        Call::Respond { predecessor, request_id, yield_id, body } => respond_spec(
            c,
            predecessor,
            request_id,
            yield_id,
            body,
        ),
        Call::Settle { request_id } => settle_spec(c, request_id),
    }
}

/// The ids that a run of calls hands out, in order.
pub open spec fn issued_ids(c: ContractView, calls: Seq<Call>) -> Seq<u64>
    decreases calls.len(),
{
    if calls.len() == 0 {
        Seq::empty()
    } else {
        let rest = issued_ids(step(c, calls[0]), calls.drop_first());
        if calls[0] is Fetch && c.next_request_id != u64::MAX {
            seq![c.next_request_id] + rest
        } else {
            rest
        }
    }
}

/// Over any run of calls (fetches, staging, responses, settlements), the
/// request ids handed out strictly increase, and none of them is the id of
/// a request that was handed out before the run began.
pub proof fn lemma_ids_strictly_increase(c: ContractView, calls: Seq<Call>)
    requires
        c.wf(),
    ensures
        forall|i: int, j: int|
            0 <= i < j < issued_ids(c, calls).len() ==> #[trigger] issued_ids(c, calls)[i]
                < #[trigger] issued_ids(c, calls)[j],
        forall|i: int|
            0 <= i < issued_ids(c, calls).len() ==> #[trigger] issued_ids(c, calls)[i]
                >= c.next_request_id,
        forall|i: int, k: int|
            0 <= i < issued_ids(c, calls).len() && 0 <= k < c.requests.len() ==> #[trigger] issued_ids(
                c,
                calls,
            )[i] != #[trigger] c.requests[k].request_id,
    decreases calls.len(),
{
    if calls.len() > 0 {
        let c1 = step(c, calls[0]);
        lemma_step_wf(c, calls[0]);
        lemma_ids_strictly_increase(c1, calls.drop_first());
        let rest = issued_ids(c1, calls.drop_first());
        let ids = issued_ids(c, calls);
        assert(c1.next_request_id >= c.next_request_id);
        if calls[0] is Fetch && c.next_request_id != u64::MAX {
            assert(ids == seq![c.next_request_id] + rest);
            assert forall|i: int| 0 < i < ids.len() implies #[trigger] ids[i] > c.next_request_id by {
                assert(ids[i] == rest[i - 1]);
            }
        }
    }
}

proof fn lemma_settle_wf(c: ContractView, request_id: u64)
    requires
        c.wf(),
    ensures
        settle_spec(c, request_id).wf(),
        !settle_spec(c, request_id).has_request(request_id),
{
    if c.has_request(request_id) {
        let k = c.index_of(request_id);
        let c2 = settle_spec(c, request_id);
        assert forall|i: int, j: int|
            0 <= i < j < c2.requests.len() implies #[trigger] c2.requests[i].request_id
            < #[trigger] c2.requests[j].request_id by {
            if j < k {
            } else if i < k {
                assert(c2.requests[j] == c.requests[j + 1]);
            } else {
                assert(c2.requests[i] == c.requests[i + 1]);
                assert(c2.requests[j] == c.requests[j + 1]);
            }
        }
        assert forall|i: int| 0 <= i < c2.requests.len() implies #[trigger] c2.requests[i].request_id
            != request_id by {
            if i < k {
                assert(c.requests[i].request_id < c.requests[k].request_id);
            } else {
                assert(c2.requests[i] == c.requests[i + 1]);
                assert(c.requests[k].request_id < c.requests[i + 1].request_id);
            }
        }
    }
}

proof fn lemma_step_wf(c: ContractView, call: Call)
    requires
        c.wf(),
    ensures
        step(c, call).wf(),
        step(c, call).next_request_id >= c.next_request_id,
{
    match call {
        Call::Settle { request_id } => lemma_settle_wf(c, request_id),
        Call::Fetch { url, context, caller, yield_id } => {
            let c2 = step(c, call);
            if c.next_request_id != u64::MAX {
                assert forall|i: int| 0 <= i < c2.requests.len() implies #[trigger] c2.requests[i].request_id
                    < c2.next_request_id by {
                    if i < c.requests.len() {
                        assert(c2.requests[i] == c.requests[i]);
                    }
                }
                assert forall|i: int, j: int|
                    0 <= i < j < c2.requests.len() implies #[trigger] c2.requests[i].request_id
                    < #[trigger] c2.requests[j].request_id by {
                    assert(c2.requests[i] == c.requests[i]);
                    if j < c.requests.len() {
                        assert(c2.requests[j] == c.requests[j]);
                    }
                }
            }
        },
        _ => {},
    }
}

/// A response whose token differs from the one stored for a pending request
/// is rejected and leaves the state as it was, whoever sends it.
pub proof fn lemma_mismatched_token_rejected(
    c: ContractView,
    predecessor: Seq<char>,
    request_id: u64,
    yield_id: Seq<u8>,
    body: Option<Seq<u8>>,
)
    requires
        c.has_request(request_id),
        c.request(request_id).yield_id != yield_id,
    ensures
        respond_check(c, predecessor, request_id, yield_id, body) is Err,
        respond_spec(c, predecessor, request_id, yield_id, body) == c,
{
}

/// Staging without `append` leaves exactly `data` staged; with `append` it
/// leaves what was staged followed by `data`. Nothing else changes.
pub proof fn lemma_store_chunk_replaces_or_appends(
    c: ContractView,
    request_id: u64,
    data: Seq<u8>,
    append: bool,
)
    ensures
        ({
            let c2 = store_chunk_spec(c, c.trusted_relayer, request_id, data, append);
            &&& c2.staged.contains_key(request_id)
            &&& c2.staged[request_id] == if append {
                c.staged_or_empty(request_id) + data
            } else {
                data
            }
            &&& c2.staged.remove(request_id) == c.staged.remove(request_id)
            &&& c2.requests == c.requests
            &&& c2.next_request_id == c.next_request_id
        }),
{
    let c2 = store_chunk_spec(c, c.trusted_relayer, request_id, data, append);
    assert(c2.staged.remove(request_id) =~= c.staged.remove(request_id));
}

/// After an accepted response and the settlement that follows it, the
/// request is no longer listed, its caller receives one `Completed` result
/// with the finalized body (the inline body, else what was staged), and
/// settling the id again delivers nothing and changes nothing.
pub proof fn lemma_respond_then_settle(
    c: ContractView,
    predecessor: Seq<char>,
    request_id: u64,
    yield_id: Seq<u8>,
    body: Option<Seq<u8>>,
)
    requires
        c.wf(),
        respond_check(c, predecessor, request_id, yield_id, body) is Ok,
    ensures
        ({
            let c1 = respond_spec(c, predecessor, request_id, yield_id, body);
            let c2 = settle_spec(c1, request_id);
            let r = c.request(request_id);
            &&& settle_result(c1, request_id, FetchStatus::Completed) == Some(
                FetchResultView {
                    request_id,
                    url: r.url,
                    status: FetchStatus::Completed,
                    body: Some(
                        match body {
                            Some(b) => b,
                            None => c.staged[request_id],
                        },
                    ),
                    context: r.context,
                    caller: r.caller,
                },
            )
            &&& !c2.ids().contains(request_id)
            &&& settle_result(c2, request_id, FetchStatus::Completed) is None
            &&& settle_result(c2, request_id, FetchStatus::TimedOut) is None
            &&& settle_spec(c2, request_id) == c2
        }),
{
    let c1 = respond_spec(c, predecessor, request_id, yield_id, body);
    assert(c1.wf());
    lemma_settle_wf(c1, request_id);
    let c2 = settle_spec(c1, request_id);
    if c2.ids().contains(request_id) {
        let i = choose|i: int| 0 <= i < c2.ids().len() && c2.ids()[i] == request_id;
        assert(c2.requests[i].request_id == request_id);
    }
}

/// When the host times a pending request out, its caller receives one
/// `TimedOut` result without a body, the request is no longer listed, and
/// settling the id again delivers nothing and changes nothing.
pub proof fn lemma_timeout_settles(c: ContractView, request_id: u64)
    requires
        c.wf(),
        c.has_request(request_id),
    ensures
        ({
            let r = c.request(request_id);
            let c2 = settle_spec(c, request_id);
            &&& settle_result(c, request_id, FetchStatus::TimedOut) == Some(
                FetchResultView {
                    request_id,
                    url: r.url,
                    status: FetchStatus::TimedOut,
                    body: None,
                    context: r.context,
                    caller: r.caller,
                },
            )
            &&& !c2.ids().contains(request_id)
            &&& settle_result(c2, request_id, FetchStatus::Completed) is None
            &&& settle_result(c2, request_id, FetchStatus::TimedOut) is None
            &&& settle_spec(c2, request_id) == c2
        }),
{
    lemma_settle_wf(c, request_id);
    let c2 = settle_spec(c, request_id);
    if c2.ids().contains(request_id) {
        let i = choose|i: int| 0 <= i < c2.ids().len() && c2.ids()[i] == request_id;
        assert(c2.requests[i].request_id == request_id);
    }
}
} // verus!
