use vstd::prelude::*;
use std::collections::HashMap;

verus! {

broadcast use vstd::std_specs::hash::group_hash_axioms;

/// Readiness of one registered event source, as last reported by the
/// poller, and the waker of the task that waits on it.
pub struct EventState<W> {
    pub readiness_read: bool,
    pub readiness_write: bool,
    pub waker: Option<W>,
}

/// The state of a source just registered: not readable, not writable, no
/// waker.
pub open spec fn fresh_state<W>() -> EventState<W> {
    EventState { readiness_read: false, readiness_write: false, waker: None }
}

/// The state after the poller reports an event: a readable or writable
/// event sets the matching flag; nothing is ever cleared by an event.
pub open spec fn state_after_event<W>(s: EventState<W>, readable: bool, writable: bool) -> EventState<
    W,
> {
    EventState {
        readiness_read: s.readiness_read || readable,
        readiness_write: s.readiness_write || writable,
        waker: s.waker,
    }
}

/// The state after a task polls for read readiness with `waker`: the waker
/// is kept only if none was kept before.
pub open spec fn state_after_poll<W>(s: EventState<W>, waker: W) -> EventState<W> {
    EventState {
        readiness_read: s.readiness_read,
        readiness_write: s.readiness_write,
        waker: if s.waker is None {
            Some(waker)
        } else {
            s.waker
        },
    }
}

/// The state with read readiness consumed.
pub open spec fn state_read_cleared<W>(s: EventState<W>) -> EventState<W> {
    EventState { readiness_read: false, readiness_write: s.readiness_write, waker: s.waker }
}

/// A call on one registered source.
pub enum SourceOp<W> {
    /// `read_permit` with a waker.
    ReadRequest(W),
    /// `poll_read_ready` with a waker.
    PollReady(W),
    /// `on_event`: whether the event is readable, and whether writable.
    Event(bool, bool),
    /// `take_read_readiness` or `clear_read_readiness`.
    ClearRead,
}

/// The state of a source after the call `op` on it, as the call's contract
/// states.
pub open spec fn state_after_op<W>(s: EventState<W>, op: SourceOp<W>) -> EventState<W> {
    match op {
        SourceOp::ReadRequest(w) => if s.readiness_read {
            state_read_cleared(state_after_poll(s, w))
        } else {
            state_after_poll(s, w)
        },
        SourceOp::PollReady(w) => state_after_poll(s, w),
        SourceOp::Event(readable, writable) => state_after_event(s, readable, writable),
        SourceOp::ClearRead => state_read_cleared(s),
    }
}

/// The state of a source after the calls `ops` on it, in order.
pub open spec fn state_after_ops<W>(s: EventState<W>, ops: Seq<SourceOp<W>>) -> EventState<W>
    decreases ops.len(),
{
    if ops.len() == 0 {
        s
    } else {
        state_after_op(state_after_ops(s, ops.drop_last()), ops.last())
    }
}

/// How many of the calls `ops` on a source in state `s` are read requests
/// that are granted.
pub open spec fn granted_reads<W>(s: EventState<W>, ops: Seq<SourceOp<W>>) -> nat
    decreases ops.len(),
{
    if ops.len() == 0 {
        0
    } else {
        granted_reads(s, ops.drop_last()) + if ops.last() is ReadRequest && state_after_ops(
            s,
            ops.drop_last(),
        ).readiness_read {
            1nat
        } else {
            0nat
        }
    }
}

/// Whether the call `op` is an event that reports the source readable.
pub open spec fn is_readable_event<W>(op: SourceOp<W>) -> bool {
    match op {
        SourceOp::Event(readable, _) => readable,
        _ => false,
    }
}

/// One call on a registry that may change it.
pub enum RegistryCall<W> {
    /// `add_source`, with the token it returned.
    AddSource(usize),
    /// `poll_read_ready`: the token and the waker.
    PollReadReady(usize, W),
    /// `read_permit`: the token and the waker.
    ReadPermit(usize, W),
    /// `take_read_readiness`: the token.
    TakeReadReadiness(usize),
    /// `clear_read_readiness`: the token.
    ClearReadReadiness(usize),
    /// `on_event`: the token, whether readable, whether writable.
    OnEvent(usize, bool, bool),
}

/// The change that the call `c` makes to a registry with sources `m` and
/// next token `next`, giving sources `nm` and next token `nnext`: the one
/// its contract states.
pub open spec fn registry_step<W>(
    m: Map<usize, EventState<W>>,
    next: usize,
    nm: Map<usize, EventState<W>>,
    nnext: usize,
    c: RegistryCall<W>,
) -> bool {
    match c {
        RegistryCall::AddSource(t) => {
            &&& t == next
            &&& nnext == token_after(next)
            &&& nm == m.insert(t, fresh_state())
        },
        RegistryCall::PollReadReady(t, w) => {
            &&& m.contains_key(t)
            &&& nnext == next
            &&& nm == m.insert(t, state_after_op(m[t], SourceOp::PollReady(w)))
        },
        RegistryCall::ReadPermit(t, w) => {
            &&& m.contains_key(t)
            &&& nnext == next
            &&& nm == m.insert(t, state_after_op(m[t], SourceOp::ReadRequest(w)))
        },
        RegistryCall::TakeReadReadiness(t) => {
            &&& m.contains_key(t)
            &&& nnext == next
            &&& nm == m.insert(t, state_after_op(m[t], SourceOp::ClearRead))
        },
        RegistryCall::ClearReadReadiness(t) => {
            &&& nnext == next
            &&& nm == if m.contains_key(t) {
                m.insert(t, state_after_op(m[t], SourceOp::ClearRead))
            } else {
                m
            }
        },
        RegistryCall::OnEvent(t, readable, writable) => {
            &&& nnext == next
            &&& nm == if m.contains_key(t) {
                m.insert(t, state_after_op(m[t], SourceOp::Event(readable, writable)))
            } else {
                m
            }
        },
    }
}

/// Whether `sources`, `nexts` and `calls` record consecutive calls on a
/// registry: `calls[i]` takes sources `sources[i]` and next token
/// `nexts[i]` to `sources[i + 1]` and `nexts[i + 1]`.
pub open spec fn is_registry_trace<W>(
    sources: Seq<Map<usize, EventState<W>>>,
    nexts: Seq<usize>,
    calls: Seq<RegistryCall<W>>,
) -> bool {
    &&& sources.len() == calls.len() + 1
    &&& nexts.len() == calls.len() + 1
    &&& forall|i: int|
        0 <= i < calls.len() ==> #[trigger] registry_step(
            sources[i],
            nexts[i],
            sources[i + 1],
            nexts[i + 1],
            calls[i],
        )
}

/// The token handed out after `t`: tokens come from a counter that wraps
/// around.
pub open spec fn token_after(t: usize) -> usize {
    if t == usize::MAX {
        0
    } else {
        (t + 1) as usize
    }
}

/// The registered event sources, keyed by token, and the counter that
/// hands out tokens.
pub struct EventRegistry<W> {
    states: HashMap<usize, EventState<W>>,
    next_token: usize,
}

impl<W> EventRegistry<W> {
    /// The state of each registered source, by token.
    pub closed spec fn sources(self) -> Map<usize, EventState<W>> {
        self.states@
    }

    /// The token the next registration gets.
    pub closed spec fn next_token(self) -> usize {
        self.next_token
    }

    /// A registry with no source, whose first token is 0.
    pub fn new() -> (r: EventRegistry<W>)
        ensures
            r.sources() == Map::<usize, EventState<W>>::empty(),
            r.next_token() == 0,
    {
        EventRegistry { states: HashMap::new(), next_token: 0 }
    }

    /// Registers a new source: it gets the next token, and starts not
    /// ready and without waker. Returns the token.
    pub fn add_source(&mut self) -> (token: usize)
        ensures
            registry_step(
                old(self).sources(),
                old(self).next_token(),
                final(self).sources(),
                final(self).next_token(),
                RegistryCall::AddSource(token),
            ),
            token == old(self).next_token(),
            final(self).next_token() == token_after(token),
            final(self).sources() == old(self).sources().insert(token, fresh_state()),
    {
        let token = self.next_token;
        self.next_token = self.next_token.wrapping_add(1);
        self.states.insert(
            token,
            EventState { readiness_read: false, readiness_write: false, waker: None },
        );
        token
    }

    /// Whether `token` is registered.
    pub fn is_registered(&self, token: usize) -> (b: bool)
        ensures
            b == self.sources().contains_key(token),
    {
        self.states.contains_key(&token)
    }

    /// A task polls the source `token` for read readiness: its waker is
    /// kept if the source has none yet, and the result says whether the
    /// source is readable.
    pub fn poll_read_ready(&mut self, token: usize, waker: W) -> (ready: bool)
        requires
            old(self).sources().contains_key(token),
        ensures
            registry_step(
                old(self).sources(),
                old(self).next_token(),
                final(self).sources(),
                final(self).next_token(),
                RegistryCall::PollReadReady(token, waker),
            ),
            ready == old(self).sources()[token].readiness_read,
            final(self).next_token() == old(self).next_token(),
            final(self).sources() == old(self).sources().insert(
                token,
                state_after_poll(old(self).sources()[token], waker),
            ),
            final(self).sources().contains_key(token),
            final(self).sources()[token].waker == if old(self).sources()[token].waker is None {
                Some(waker)
            } else {
                old(self).sources()[token].waker
            },
            final(self).sources()[token].readiness_read == old(self).sources()[token].readiness_read,
            final(self).sources()[token].readiness_write == old(
                self,
            ).sources()[token].readiness_write,
    {
        let state = self.states.remove(&token).unwrap();
        let ready = state.readiness_read;
        let kept = match state.waker {
            None => Some(waker),
            Some(w) => Some(w),
        };
        self.states.insert(
            token,
            EventState {
                readiness_read: state.readiness_read,
                readiness_write: state.readiness_write,
                waker: kept,
            },
        );
        proof {
            assert(self.states@ =~= old(self).sources().insert(
                token,
                state_after_poll(old(self).sources()[token], waker),
            ));
        }
        ready
    }

    /// A task asks to read from the source `token`: it polls for read
    /// readiness (its waker is kept if the source has none yet) and, if the
    /// source is readable, consumes that readiness. Returns whether the read
    /// may go ahead.
    pub fn read_permit(&mut self, token: usize, waker: W) -> (permit: bool)
        requires
            old(self).sources().contains_key(token),
        ensures
            registry_step(
                old(self).sources(),
                old(self).next_token(),
                final(self).sources(),
                final(self).next_token(),
                RegistryCall::ReadPermit(token, waker),
            ),
            permit == old(self).sources()[token].readiness_read,
            final(self).next_token() == old(self).next_token(),
            final(self).sources() == old(self).sources().insert(
                token,
                state_after_op(old(self).sources()[token], SourceOp::ReadRequest(waker)),
            ),
            final(self).sources().contains_key(token),
            final(self).sources()[token].waker == if old(self).sources()[token].waker is None {
                Some(waker)
            } else {
                old(self).sources()[token].waker
            },
            !final(self).sources()[token].readiness_read,
            final(self).sources()[token].readiness_write == old(
                self,
            ).sources()[token].readiness_write,
    {
        if !self.poll_read_ready(token, waker) {
            return false;
        }
        let taken = self.take_read_readiness(token);
        proof {
            assert(self.sources() =~= old(self).sources().insert(
                token,
                state_read_cleared(state_after_poll(old(self).sources()[token], waker)),
            ));
        }
        taken
    }

    /// Consumes the read readiness of `token`: returns whether it was set,
    /// and leaves it cleared.
    pub fn take_read_readiness(&mut self, token: usize) -> (was_ready: bool)
        requires
            old(self).sources().contains_key(token),
        ensures
            registry_step(
                old(self).sources(),
                old(self).next_token(),
                final(self).sources(),
                final(self).next_token(),
                RegistryCall::TakeReadReadiness(token),
            ),
            was_ready == old(self).sources()[token].readiness_read,
            final(self).next_token() == old(self).next_token(),
            final(self).sources() == old(self).sources().insert(
                token,
                state_read_cleared(old(self).sources()[token]),
            ),
            final(self).sources().contains_key(token),
            final(self).sources()[token].waker == old(self).sources()[token].waker,
            !final(self).sources()[token].readiness_read,
            final(self).sources()[token].readiness_write == old(
                self,
            ).sources()[token].readiness_write,
    {
        let state = self.states.remove(&token).unwrap();
        let was_ready = state.readiness_read;
        self.states.insert(
            token,
            EventState {
                readiness_read: false,
                readiness_write: state.readiness_write,
                waker: state.waker,
            },
        );
        proof {
            assert(self.states@ =~= old(self).sources().insert(
                token,
                state_read_cleared(old(self).sources()[token]),
            ));
        }
        was_ready
    }

    /// Clears the read readiness of `token`, if it is registered.
    pub fn clear_read_readiness(&mut self, token: usize)
        ensures
            registry_step(
                old(self).sources(),
                old(self).next_token(),
                final(self).sources(),
                final(self).next_token(),
                RegistryCall::ClearReadReadiness(token),
            ),
            final(self).next_token() == old(self).next_token(),
            final(self).sources() == if old(self).sources().contains_key(token) {
                old(self).sources().insert(token, state_read_cleared(old(self).sources()[token]))
            } else {
                old(self).sources()
            },
    {
        if self.states.contains_key(&token) {
            self.take_read_readiness(token);
        }
    }

    /// The poller reports an event on `token`. If the token is registered,
    /// a readable event sets its read readiness and a writable one its
    /// write readiness, and the result says whether a waker is kept for it
    /// (to be woken). An event on an unknown token changes nothing.
    pub fn on_event(&mut self, token: usize, readable: bool, writable: bool) -> (wake: bool)
        ensures
            registry_step(
                old(self).sources(),
                old(self).next_token(),
                final(self).sources(),
                final(self).next_token(),
                RegistryCall::OnEvent(token, readable, writable),
            ),
            final(self).next_token() == old(self).next_token(),
            old(self).sources().contains_key(token) ==> {
                &&& final(self).sources() == old(self).sources().insert(
                    token,
                    state_after_event(old(self).sources()[token], readable, writable),
                )
                &&& wake == old(self).sources()[token].waker is Some
                &&& final(self).sources().contains_key(token)
                &&& final(self).sources()[token].waker == old(self).sources()[token].waker
                &&& final(self).sources()[token].readiness_read == (old(
                    self,
                ).sources()[token].readiness_read || readable)
                &&& final(self).sources()[token].readiness_write == (old(
                    self,
                ).sources()[token].readiness_write || writable)
            },
            !old(self).sources().contains_key(token) ==> {
                &&& final(self).sources() == old(self).sources()
                &&& !wake
            },
    {
        match self.states.remove(&token) {
            None => {
                proof {
                    assert(self.states@ =~= old(self).sources());
                }
                false
            },
            Some(state) => {
                let wake = state.waker.is_some();
                self.states.insert(
                    token,
                    EventState {
                        readiness_read: state.readiness_read || readable,
                        readiness_write: state.readiness_write || writable,
                        waker: state.waker,
                    },
                );
                proof {
                    assert(self.states@ =~= old(self).sources().insert(
                        token,
                        state_after_event(old(self).sources()[token], readable, writable),
                    ));
                }
                wake
            },
        }
    }

    /// The waker kept for `token`, if any.
    pub fn waker(&self, token: usize) -> (w: Option<&W>)
        ensures
            self.sources().contains_key(token) ==> w == match self.sources()[token].waker {
                Some(x) => Some(&x),
                None => None::<&W>,
            },
            !self.sources().contains_key(token) ==> w is None,
    {
        match self.states.get(&token) {
            None => None,
            Some(state) => state.waker.as_ref(),
        }
    }
}

/// An event reported readable leaves the source readable, whatever its
/// state was.
pub proof fn law_event_makes_readable<W>(s: EventState<W>, writable: bool)
    ensures
        state_after_event(s, true, writable).readiness_read,
{
}

/// Polling for readiness never changes readiness, only the kept waker.
pub proof fn law_poll_keeps_readiness<W>(s: EventState<W>, waker: W)
    ensures
        state_after_poll(s, waker).readiness_read == s.readiness_read,
        state_after_poll(s, waker).readiness_write == s.readiness_write,
{
}

/// Only the first waker that polls a source is kept: a later poll leaves
/// it in place.
pub proof fn law_first_waker_kept<W>(s: EventState<W>, first: W, second: W)
    ensures
        state_after_poll(state_after_poll(s, first), second) == state_after_poll(s, first),
        s.waker is None ==> state_after_poll(s, first).waker == Some(first),
{
}

/// A granted read consumes the readiness: the next request on the same
/// source is denied unless an event marks it readable again in between.
pub proof fn law_read_consumes_readiness<W>(s: EventState<W>, first: W, second: W)
    requires
        s.readiness_read,
    ensures
        !state_after_poll(state_read_cleared(state_after_poll(s, first)), second).readiness_read,
        state_after_poll(
            state_after_event(state_read_cleared(state_after_poll(s, first)), true, false),
            second,
        ).readiness_read,
{
}

/// A freshly registered source is not ready for reading or writing until
/// the poller reports an event for it.
pub proof fn law_fresh_source_not_ready<W>(waker: W)
    ensures
        !state_after_poll(fresh_state::<W>(), waker).readiness_read,
        !fresh_state::<W>().readiness_write,
{
}

/// While the token counter has not wrapped around, registration hands out
/// a token that no registered source holds, and all tokens stay below the
/// counter.
pub proof fn law_fresh_token<W>(sources: Map<usize, EventState<W>>, next: usize, st: EventState<W>)
    requires
        forall|t: usize| #[trigger] sources.contains_key(t) ==> t < next,
        next < usize::MAX,
    ensures
        !sources.contains_key(next),
        forall|t: usize| #[trigger] sources.insert(next, st).contains_key(t) ==> t < token_after(next),
{
}

proof fn lemma_reads_bounded<W>(s: EventState<W>, ops: Seq<SourceOp<W>>)
    requires
        forall|i: int| 0 <= i < ops.len() ==> !is_readable_event(#[trigger] ops[i]),
    ensures
        granted_reads(s, ops) + (if state_after_ops(s, ops).readiness_read {
            1int
        } else {
            0int
        }) <= if s.readiness_read {
            1int
        } else {
            0int
        },
    decreases ops.len(),
{
    if ops.len() > 0 {
        let front = ops.drop_last();
        assert forall|i: int| 0 <= i < front.len() implies !is_readable_event(#[trigger] front[i]) by {
            assert(front[i] == ops[i]);
        }
        lemma_reads_bounded(s, front);
        assert(!is_readable_event(ops[ops.len() - 1]));
    }
}

/// A read readiness grants at most one read, over any number of calls on
/// the source: along calls with no readable event among them, at most one
/// read request is granted, and none if the source was not readable at the
/// start.
pub proof fn law_readiness_grants_one_read<W>(s: EventState<W>, ops: Seq<SourceOp<W>>)
    requires
        forall|i: int| 0 <= i < ops.len() ==> !is_readable_event(#[trigger] ops[i]),
    ensures
        granted_reads(s, ops) <= 1,
        !s.readiness_read ==> granted_reads(s, ops) == 0,
{
    lemma_reads_bounded(s, ops);
}

/// Tokens are never reused while the counter does not wrap around: along
/// any run of registry calls, where each call keeps the counter
/// (`next_token`) or, registering a source, advances it by one, the counter
/// never decreases, and a token handed out at one call is below the counter
/// at every later point, so below every later token.
pub proof fn law_tokens_increase(counters: Seq<usize>, i: int, j: int)
    requires
        forall|m: int|
            0 <= m < counters.len() - 1 ==> #[trigger] counters[m + 1] == counters[m]
                || counters[m + 1] == counters[m] + 1,
        0 <= i < j < counters.len(),
    ensures
        counters[i] <= counters[j],
        counters[i + 1] == counters[i] + 1 ==> counters[i] < counters[j],
    decreases j - i,
{
    if j > i + 1 {
        law_tokens_increase(counters, i, j - 1);
        let m = j - 1;
        assert(counters[m + 1] == counters[m] || counters[m + 1] == counters[m] + 1);
    } else {
        let m = i;
        assert(counters[m + 1] == counters[m] || counters[m + 1] == counters[m] + 1);
    }
}

proof fn lemma_counter_grows<W>(
    sources: Seq<Map<usize, EventState<W>>>,
    nexts: Seq<usize>,
    calls: Seq<RegistryCall<W>>,
    i: int,
    j: int,
)
    requires
        is_registry_trace(sources, nexts, calls),
        0 <= i <= j <= calls.len(),
        forall|m: int| i <= m < j ==> #[trigger] nexts[m] < usize::MAX,
    ensures
        nexts[i] <= nexts[j],
    decreases j - i,
{
    if j > i {
        lemma_counter_grows(sources, nexts, calls, i, j - 1);
        let m = j - 1;
        assert(registry_step(sources[m], nexts[m], sources[m + 1], nexts[m + 1], calls[m]));
        assert(m + 1 == j);
        assert(nexts[m] < usize::MAX);
    }
}

/// Along any run of calls on a registry, two registrations whose counter
/// does not wrap around in between hand out increasing tokens: a token is
/// never handed out twice, so no two sources share state.
pub proof fn law_registration_tokens_increase<W>(
    sources: Seq<Map<usize, EventState<W>>>,
    nexts: Seq<usize>,
    calls: Seq<RegistryCall<W>>,
    i: int,
    j: int,
    t1: usize,
    t2: usize,
)
    requires
        is_registry_trace(sources, nexts, calls),
        0 <= i < j < calls.len(),
        calls[i] == RegistryCall::<W>::AddSource(t1),
        calls[j] == RegistryCall::<W>::AddSource(t2),
        forall|m: int| i <= m < j ==> #[trigger] nexts[m] < usize::MAX,
    ensures
        t1 < t2,
{
    assert(registry_step(sources[i], nexts[i], sources[i + 1], nexts[i + 1], calls[i]));
    assert(registry_step(sources[j], nexts[j], sources[j + 1], nexts[j + 1], calls[j]));
    assert(nexts[i] < usize::MAX);
    lemma_counter_grows(sources, nexts, calls, i + 1, j);
}

/// An event never changes the kept waker, and only ever sets readiness:
/// after an event the source is readable exactly when it was or the event
/// is readable, writable likewise, and the waker is the one kept before.
pub proof fn law_event_keeps_waker<W>(s: EventState<W>, readable: bool, writable: bool)
    ensures
        state_after_event(s, readable, writable).waker == s.waker,
        state_after_op(s, SourceOp::Event(readable, writable)).waker == s.waker,
        state_after_event(s, readable, writable).readiness_read == (s.readiness_read || readable),
        state_after_event(s, readable, writable).readiness_write == (s.readiness_write || writable),
{
}

/// A read request keeps the requester's waker whether or not it is
/// granted: afterwards the source keeps the waker it had, or the
/// requester's if it had none. It is granted exactly when the source was
/// readable, and in either case leaves the source not readable, with its
/// write readiness as it was.
pub proof fn law_read_request_keeps_waker<W>(s: EventState<W>, waker: W)
    ensures
        state_after_op(s, SourceOp::ReadRequest(waker)).waker == if s.waker is None {
            Some(waker)
        } else {
            s.waker
        },
        s.waker is None ==> state_after_op(s, SourceOp::ReadRequest(waker)).waker == Some(waker),
        !state_after_op(s, SourceOp::ReadRequest(waker)).readiness_read,
        state_after_op(s, SourceOp::ReadRequest(waker)).readiness_write == s.readiness_write,
{
}

/// Consuming or clearing read readiness keeps the waker and the write
/// readiness.
pub proof fn law_clear_keeps_waker<W>(s: EventState<W>)
    ensures
        state_read_cleared(s).waker == s.waker,
        !state_read_cleared(s).readiness_read,
        state_read_cleared(s).readiness_write == s.readiness_write,
{
}

/// Once a source keeps a waker, it keeps that same waker through any later
/// calls on it: polls, read requests, events and clearing.
pub proof fn law_waker_kept_through_calls<W>(s: EventState<W>, ops: Seq<SourceOp<W>>)
    requires
        s.waker is Some,
    ensures
        state_after_ops(s, ops).waker == s.waker,
    decreases ops.len(),
{
    if ops.len() > 0 {
        law_waker_kept_through_calls(s, ops.drop_last());
    }
}

/// A reader that is denied because the source is not readable yet is the
/// one woken when data arrives: from a source with no waker, a denied read
/// request followed by a readable event leaves the source readable with the
/// reader's waker kept, so the event reports a waker to wake, and it is the
/// reader's.
pub proof fn law_denied_reader_woken_by_event<W>(s: EventState<W>, reader: W, writable: bool)
    requires
        s.waker is None,
        !s.readiness_read,
    ensures
        state_after_op(
            state_after_op(s, SourceOp::ReadRequest(reader)),
            SourceOp::Event(true, writable),
        ).waker == Some(reader),
        state_after_op(
            state_after_op(s, SourceOp::ReadRequest(reader)),
            SourceOp::Event(true, writable),
        ).readiness_read,
{
}

} // verus!
