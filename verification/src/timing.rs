//! How long tools and language models take, request by request. Instants and
//! durations are counted in nanoseconds, instants from one fixed origin.

use std::collections::HashMap;

use vstd::prelude::*;

use crate::agent::SimpleAgent;

verus! {

broadcast use vstd::std_specs::hash::group_hash_axioms;

/// The time from `start` to `now`: none where `now` is the earlier one.
pub open spec fn elapsed(start: u64, now: u64) -> u64 {
    if start <= now {
        (now - start) as u64
    } else {
        0
    }
}

/// The time from `start` to `now`.
pub fn elapsed_since(start: u64, now: u64) -> (duration: u64)
    ensures
        duration == elapsed(start, now),
{
    if start <= now {
        now - start
    } else {
        0
    }
}

/// The durations of the tool executions so far, oldest first.
pub struct ToolTimings {
    durations: Vec<u64>,
}

impl View for ToolTimings {
    type V = Seq<u64>;

    closed spec fn view(&self) -> Seq<u64> {
        self.durations@
    }
}

/// The log of tool durations, with nothing in it yet.
pub fn tool_timings() -> (timings: ToolTimings)
    ensures
        timings@ == Seq::<u64>::empty(),
{
    ToolTimings { durations: Vec::new() }
}

/// Forgets all tool durations.
pub fn reset_tool_timings(timings: &mut ToolTimings)
    ensures
        final(timings)@ == Seq::<u64>::empty(),
{
    timings.durations.clear();
}

/// Adds a tool duration at the end.
pub fn record_tool_timing(timings: &mut ToolTimings, duration: u64)
    ensures
        final(timings)@ == old(timings)@.push(duration),
{
    timings.durations.push(duration);
}

/// The tool durations so far.
pub fn snapshot_tool_timings(timings: &ToolTimings) -> (durations: Vec<u64>)
    ensures
        durations@ == timings@,
{
    let durations = timings.durations.clone();
    assert(durations@ =~= timings.durations@);
    durations
}

/// What the end of an execution that began at `start` does to the durations.
pub open spec fn timings_after_stop(timings: Seq<u64>, start: u64, now: u64) -> Seq<u64> {
    timings.push(elapsed(start, now))
}

/// A tool execution under way.
pub struct ToolTimingGuard {
    start: u64,
}

impl ToolTimingGuard {
    /// The instant at which the execution began.
    pub closed spec fn started(self) -> u64 {
        self.start
    }

    /// Begins to time an execution.
    pub fn start(now: u64) -> (guard: ToolTimingGuard)
        ensures
            guard.started() == now,
    {
        ToolTimingGuard { start: now }
    }

    /// Ends the execution and records how long it took.
    pub fn stop(self, timings: &mut ToolTimings, now: u64)
        ensures
            final(timings)@ == timings_after_stop(old(timings)@, self.started(), now),
            final(timings)@ == old(timings)@.push(elapsed(self.started(), now)),
    {
        record_tool_timing(timings, elapsed_since(self.start, now));
    }
}

/// When the tool execution of each request began, while it is under way.
pub struct ToolStartTimes {
    starts: HashMap<usize, u64>,
}

impl View for ToolStartTimes {
    type V = Map<usize, u64>;

    closed spec fn view(&self) -> Map<usize, u64> {
        self.starts@
    }
}

/// The register of tool executions under way: none yet.
pub fn tool_start_times() -> (starts: ToolStartTimes)
    ensures
        starts@ == Map::<usize, u64>::empty(),
{
    ToolStartTimes { starts: HashMap::new() }
}

/// What the end of a tool execution does to the durations: it adds the time
/// since the start of that request's execution, if one is under way.
pub open spec fn timings_after_end(
    timings: Seq<u64>,
    starts: Map<usize, u64>,
    request_id: Option<usize>,
    now: u64,
) -> Seq<u64> {
    match request_id {
        Some(id) => if starts.contains_key(id) {
            timings.push(elapsed(starts[id], now))
        } else {
            timings
        },
        None => timings,
    }
}

/// What the end of a tool execution does to the register: that request has
/// none under way any more.
pub open spec fn starts_after_end(starts: Map<usize, u64>, request_id: Option<usize>) -> Map<
    usize,
    u64,
> {
    match request_id {
        Some(id) => starts.remove(id),
        None => starts,
    }
}

/// What the start of a tool execution does to the register: that request has
/// one under way since `now`.
pub open spec fn starts_after_start(
    starts: Map<usize, u64>,
    request_id: Option<usize>,
    now: u64,
) -> Map<usize, u64> {
    match request_id {
        Some(id) => starts.insert(id, now),
        None => starts,
    }
}

/// Ends the tool execution of a request, where one is under way.
fn end_tool(
    starts: &mut ToolStartTimes,
    timings: &mut ToolTimings,
    request_id: Option<usize>,
    now: u64,
)
    ensures
        final(starts)@ == starts_after_end(old(starts)@, request_id),
        final(timings)@ == timings_after_end(old(timings)@, old(starts)@, request_id, now),
{
    match request_id {
        Some(id) => {
            match starts.starts.remove(&id) {
                Some(start) => {
                    record_tool_timing(timings, elapsed_since(start, now));
                },
                None => {},
            }
        },
        None => {},
    }
}

impl SimpleAgent {
    /// A tool begins to run. Outside a request nothing is timed.
    pub fn on_tool_start(&self, starts: &mut ToolStartTimes, request_id: Option<usize>, now: u64)
        ensures
            final(starts)@ == starts_after_start(old(starts)@, request_id, now),
    {
        match request_id {
            Some(id) => {
                starts.starts.insert(id, now);
            },
            None => {},
        }
    }

    /// A tool has given a result.
    pub fn on_tool_result(
        &self,
        starts: &mut ToolStartTimes,
        timings: &mut ToolTimings,
        request_id: Option<usize>,
        now: u64,
    )
        ensures
            final(starts)@ == starts_after_end(old(starts)@, request_id),
            final(timings)@ == timings_after_end(old(timings)@, old(starts)@, request_id, now),
    {
        end_tool(starts, timings, request_id, now);
    }

    /// A tool has failed; its time counts all the same.
    pub fn on_tool_error(
        &self,
        starts: &mut ToolStartTimes,
        timings: &mut ToolTimings,
        request_id: Option<usize>,
        now: u64,
    )
        ensures
            final(starts)@ == starts_after_end(old(starts)@, request_id),
            final(timings)@ == timings_after_end(old(timings)@, old(starts)@, request_id, now),
    {
        end_tool(starts, timings, request_id, now);
    }
}

/// The sum of some durations.
pub open spec fn total(durations: Seq<u64>) -> nat
    decreases durations.len(),
{
    if durations.len() == 0 {
        0
    } else {
        total(durations.drop_last()) + durations.last() as nat
    }
}

/// The durations of language-model calls: all of them, and by request.
pub struct LlmTimingRecorder {
    call_durations: Vec<u64>,
    request_durations: HashMap<usize, Vec<u64>>,
}

/// What a recorder holds: the durations of all calls, and of each request's
/// calls, oldest first.
pub struct CallLog {
    pub calls: Seq<u64>,
    pub requests: Map<usize, Seq<u64>>,
}

impl CallLog {
    /// No calls.
    pub open spec fn empty() -> CallLog {
        CallLog { calls: Seq::empty(), requests: Map::empty() }
    }

    /// The log with one more call, which counts for its request where it has
    /// one.
    pub open spec fn with_call(self, duration: u64, request_id: Option<usize>) -> CallLog {
        CallLog {
            calls: self.calls.push(duration),
            requests: match request_id {
                Some(id) => if self.requests.contains_key(id) {
                    self.requests.insert(id, self.requests[id].push(duration))
                } else {
                    self.requests.insert(id, seq![duration])
                },
                None => self.requests,
            },
        }
    }
}

impl View for LlmTimingRecorder {
    type V = CallLog;

    closed spec fn view(&self) -> CallLog {
        CallLog {
            calls: self.call_durations@,
            requests: self.request_durations@.map_values(|durations: Vec<u64>| durations@),
        }
    }
}

impl LlmTimingRecorder {
    /// The calls of the requests last no longer than all calls do.
    #[verifier::type_invariant]
    spec fn is_consistent(self) -> bool {
        self@.wf()
    }
}

impl Default for LlmTimingRecorder {
    fn default() -> (recorder: Self)
        ensures
            recorder@ == CallLog::empty(),
            recorder@.wf(),
    {
        let call_durations: Vec<u64> = Vec::new();
        let request_durations: HashMap<usize, Vec<u64>> = HashMap::new();
        proof {
            lemma_empty_log_wf();
            assert(request_durations@.map_values(|durations: Vec<u64>| durations@)
                =~= CallLog::empty().requests);
            assert(call_durations@ =~= CallLog::empty().calls);
        }
        LlmTimingRecorder { call_durations, request_durations }
    }
}

/// `ids` names each request of `requests` once.
pub open spec fn lists_requests(ids: Seq<usize>, requests: Map<usize, Seq<u64>>) -> bool {
    ids.no_duplicates() && ids.to_set() == requests.dom()
}

/// The total of each request that `ids` names.
pub open spec fn totals_of(ids: Seq<usize>, requests: Map<usize, Seq<u64>>) -> Seq<nat> {
    ids.map_values(|id: usize| total(requests[id]))
}

/// The sum of some totals.
pub open spec fn grand_total(totals: Seq<nat>) -> nat
    decreases totals.len(),
{
    if totals.len() == 0 {
        0
    } else {
        grand_total(totals.drop_last()) + totals.last()
    }
}

impl CallLog {
    /// The calls of the requests, taken together, last no longer than all
    /// calls do.
    pub open spec fn wf(self) -> bool {
        forall|ids: Seq<usize>| #[trigger]
            lists_requests(ids, self.requests) ==> grand_total(totals_of(ids, self.requests))
                <= total(self.calls)
    }
}

/// One total taken out of a sum.
proof fn lemma_grand_total_remove(totals: Seq<nat>, j: int)
    requires
        0 <= j < totals.len(),
    ensures
        grand_total(totals) == grand_total(totals.remove(j)) + totals[j],
    decreases totals.len(),
{
    if j == totals.len() - 1 {
        assert(totals.remove(j) =~= totals.drop_last());
    } else {
        lemma_grand_total_remove(totals.drop_last(), j);
        assert(totals.remove(j).drop_last() =~= totals.drop_last().remove(j));
        assert(totals.remove(j).last() == totals.last());
    }
}

/// An empty log is well-formed.
pub proof fn lemma_empty_log_wf()
    ensures
        CallLog::empty().wf(),
{
    let log = CallLog::empty();
    assert forall|ids: Seq<usize>| #[trigger] lists_requests(ids, log.requests) implies grand_total(
        totals_of(ids, log.requests),
    ) <= total(log.calls) by {
        if ids.len() > 0 {
            assert(ids.to_set().contains(ids[0]));
        }
    }
}

/// With one call more, the calls of the requests still last no longer than
/// all calls do.
pub proof fn law_requests_within_calls(log: CallLog, duration: u64, request_id: Option<usize>)
    requires
        log.wf(),
    ensures
        log.with_call(duration, request_id).wf(),
{
    let after = log.with_call(duration, request_id);
    lemma_total_push(log.calls, duration);
    assert forall|ids: Seq<usize>| #[trigger]
        lists_requests(ids, after.requests) implies grand_total(totals_of(ids, after.requests))
        <= total(after.calls) by {
        match request_id {
            None => {},
            Some(id) => {
                lemma_with_call_within(log, duration, id, ids);
            },
        }
    }
}

/// The calls of the requests that `ids` names, with one call more.
proof fn lemma_with_call_within(log: CallLog, duration: u64, id: usize, ids: Seq<usize>)
    requires
        log.wf(),
        lists_requests(ids, log.with_call(duration, Some(id)).requests),
    ensures
        grand_total(totals_of(ids, log.with_call(duration, Some(id)).requests)) <= total(log.calls)
            + duration,
{
    let after = log.with_call(duration, Some(id));
    assert(after.requests.dom().contains(id));
    assert(ids.to_set().contains(id));
    let j = choose|j: int| 0 <= j < ids.len() && ids[j] == id;
    let rest = ids.remove(j);
    let now = totals_of(ids, after.requests);
    lemma_grand_total_remove(now, j);
    assert forall|k: int| 0 <= k < rest.len() implies #[trigger] rest[k] != id by {
        let l = if k < j {
            k
        } else {
            k + 1
        };
        assert(rest[k] == ids[l]);
    }
    assert(now.remove(j) =~= totals_of(rest, log.requests)) by {
        assert(now.remove(j) =~= totals_of(rest, after.requests));
    }
    if log.requests.contains_key(id) {
        assert(after.requests.dom() =~= log.requests.dom());
        assert(lists_requests(ids, log.requests));
        let before = totals_of(ids, log.requests);
        lemma_grand_total_remove(before, j);
        assert(before.remove(j) =~= totals_of(rest, log.requests));
        lemma_total_push(log.requests[id], duration);
    } else {
        assert(rest.to_set() =~= log.requests.dom()) by {
            assert forall|x: usize| rest.to_set().contains(x) == log.requests.dom().contains(x) by {
                if rest.contains(x) {
                    let k = choose|k: int| 0 <= k < rest.len() && rest[k] == x;
                    let l = if k < j {
                        k
                    } else {
                        k + 1
                    };
                    assert(ids[l] == x);
                    assert(ids.to_set().contains(x));
                }
                if log.requests.dom().contains(x) {
                    assert(ids.to_set().contains(x));
                    let l = choose|l: int| 0 <= l < ids.len() && ids[l] == x;
                    let k = if l < j {
                        l
                    } else {
                        l - 1
                    };
                    assert(rest[k] == x);
                }
            }
        }
        assert(lists_requests(rest, log.requests));
        lemma_total_push(Seq::empty(), duration);
        assert(Seq::<u64>::empty().push(duration) =~= seq![duration]);
    }
}

/// `total` of one duration more.
proof fn lemma_total_push(durations: Seq<u64>, duration: u64)
    ensures
        total(durations.push(duration)) == total(durations) + duration,
{
    assert(durations.push(duration).drop_last() =~= durations);
}

/// A total fits the count of its durations.
proof fn lemma_total_bound(durations: Seq<u64>)
    ensures
        total(durations) <= durations.len() * u64::MAX,
    decreases durations.len(),
{
    if durations.len() > 0 {
        lemma_total_bound(durations.drop_last());
        let n = durations.len() as int;
        assert(n * u64::MAX == (n - 1) * u64::MAX + u64::MAX) by (nonlinear_arith);
    }
}

/// The sum of some durations; it always fits.
pub fn sum_durations(durations: &Vec<u64>) -> (sum: u128)
    ensures
        sum == total(durations@),
{
    let mut sum: u128 = 0;
    let mut i: usize = 0;
    let count: usize = durations.len();
    while i < count
        invariant
            i <= count,
            count == durations@.len(),
            sum == total(durations@.take(i as int)),
        decreases count - i,
    {
        proof {
            let seen = durations@.take(i as int);
            lemma_total_bound(seen);
            assert(i * u64::MAX + u64::MAX <= u128::MAX) by (nonlinear_arith)
                requires
                    i < usize::MAX,
                    usize::MAX <= u64::MAX,
            ;
            lemma_total_push(seen, durations@[i as int]);
            assert(durations@.take(i + 1) =~= seen.push(durations@[i as int]));
        }
        sum = sum + durations[i] as u128;
        i = i + 1;
    }
    assert(durations@.take(i as int) =~= durations@);
    sum
}

impl LlmTimingRecorder {
    /// Records a call, for its request where it has one.
    pub fn record(&mut self, duration: u64, request_id: Option<usize>)
        ensures
            final(self)@ == old(self)@.with_call(duration, request_id),
            final(self)@.wf(),
    {
        proof {
            use_type_invariant(&*self);
            law_requests_within_calls(self@, duration, request_id);
        }
        let ghost after = self@.with_call(duration, request_id);
        let mut recorder = LlmTimingRecorder::default();
        std::mem::swap(&mut recorder, self);
        let LlmTimingRecorder { call_durations: mut calls, request_durations: mut requests } =
            recorder;
        calls.push(duration);
        match request_id {
            Some(id) => {
                let mut durations: Vec<u64> = match requests.remove(&id) {
                    Some(d) => d,
                    None => Vec::new(),
                };
                durations.push(duration);
                requests.insert(id, durations);
            },
            None => {},
        }
        assert(calls@ =~= after.calls);
        assert(requests@.map_values(|durations: Vec<u64>| durations@) =~= after.requests);
        *self = LlmTimingRecorder { call_durations: calls, request_durations: requests };
    }

    /// Forgets all calls.
    pub fn reset(&mut self)
        ensures
            final(self)@ == CallLog::empty(),
            final(self)@.wf(),
    {
        *self = LlmTimingRecorder::default();
    }

    /// The total of each request's calls, in no particular order.
    pub fn snapshot_request_totals(&self) -> (totals: Vec<u128>)
        ensures
            exists|ids: Seq<usize>|
                {
                    &&& #[trigger] lists_requests(ids, self@.requests)
                    &&& totals@.map_values(|t: u128| t as nat) == totals_of(ids, self@.requests)
                },
    {
        let mut totals: Vec<u128> = Vec::new();
        let ghost mut ids: Seq<usize> = Seq::empty();
        let entries = self.request_durations.iter();
        let ghost pairs = vstd::std_specs::iter::IteratorSpec::remaining(&entries);
        for entry in it: entries
            invariant
                it.seq() == pairs,
                ids.len() == it.index(),
                totals@.len() == ids.len(),
                forall|i: int| 0 <= i < ids.len() ==> #[trigger] ids[i] == *pairs[i].0,
                forall|i: int|
                    0 <= i < ids.len() ==> #[trigger] totals@[i] == total(pairs[i].1@),
        {
            totals.push(sum_durations(entry.1));
            proof {
                ids = ids.push(*entry.0);
            }
        }
        proof {
            let held = self.request_durations@;
            let requests = self@.requests;
            assert forall|i: int| 0 <= i < ids.len() implies held.contains_key(#[trigger] ids[i])
                && held[ids[i]] == *pairs[i].1 by {
                assert(held.contains_key(*pairs[i].0));
            }
            assert forall|i: int, j: int|
                0 <= i < ids.len() && 0 <= j < ids.len() && i != j implies ids[i] != ids[j] by {
                if ids[i] == ids[j] {
                    assert(pairs[i] == pairs[j]);
                }
            }
            assert forall|id: usize| requests.contains_key(id) implies ids.contains(id) by {
                assert(held.contains_key(id));
                assert(pairs.contains((&id, &held[id])));
                let i = choose|i: int| 0 <= i < pairs.len() && pairs[i] == (&id, &held[id]);
                assert(ids[i] == id);
            }
            assert(ids.to_set() =~= requests.dom());
            assert(lists_requests(ids, requests));
            assert(totals@.map_values(|t: u128| t as nat) =~= totals_of(ids, requests));
        }
        totals
    }
}

/// What a poll of a response stream gave.
pub enum StreamPoll {
    Pending,
    Item,
    End,
}

/// A response stream under way, timed from the request to its end.
pub struct TimedStream {
    start: u64,
    recorded: bool,
}

/// What a `TimedStream` holds: the instant of the request, and whether the
/// stream has been recorded.
pub struct StreamState {
    pub start: u64,
    pub recorded: bool,
}

impl StreamState {
    /// The stream once it is recorded.
    pub open spec fn closed(self) -> StreamState {
        StreamState { start: self.start, recorded: true }
    }

    /// The log once the stream is recorded at `now`; what has been recorded
    /// is not recorded again.
    pub open spec fn log_at(self, log: CallLog, now: u64, request_id: Option<usize>) -> CallLog {
        if self.recorded {
            log
        } else {
            log.with_call(elapsed(self.start, now), request_id)
        }
    }

    /// The stream after a poll.
    pub open spec fn after_poll(self, poll: StreamPoll) -> StreamState {
        if poll is End {
            self.closed()
        } else {
            self
        }
    }

    /// The log after a poll.
    pub open spec fn log_after_poll(
        self,
        log: CallLog,
        poll: StreamPoll,
        now: u64,
        request_id: Option<usize>,
    ) -> CallLog {
        if poll is End {
            self.log_at(log, now, request_id)
        } else {
            log
        }
    }
}

impl View for TimedStream {
    type V = StreamState;

    closed spec fn view(&self) -> StreamState {
        StreamState { start: self.start, recorded: self.recorded }
    }
}

impl TimedStream {
    /// A stream that was requested at `start`.
    pub fn new(start: u64) -> (stream: TimedStream)
        ensures
            stream@ == (StreamState { start, recorded: false }),
    {
        TimedStream { start, recorded: false }
    }

    /// Records the stream, unless that has been done.
    pub fn record_once(
        &mut self,
        timings: &mut LlmTimingRecorder,
        now: u64,
        request_id: Option<usize>,
    )
        ensures
            final(self)@ == old(self)@.closed(),
            final(timings)@ == old(self)@.log_at(old(timings)@, now, request_id),
    {
        if !self.recorded {
            self.recorded = true;
            timings.record(elapsed_since(self.start, now), request_id);
        }
    }

    /// Takes note of a poll: the end of the stream is recorded.
    pub fn poll_next(
        &mut self,
        poll: StreamPoll,
        timings: &mut LlmTimingRecorder,
        now: u64,
        request_id: Option<usize>,
    )
        ensures
            final(self)@ == old(self)@.after_poll(poll),
            final(timings)@ == old(self)@.log_after_poll(old(timings)@, poll, now, request_id),
    {
        match poll {
            StreamPoll::End => self.record_once(timings, now, request_id),
            _ => {},
        }
    }

    /// Lets go of the stream: one that has not been recorded is recorded now.
    pub fn close(self, timings: &mut LlmTimingRecorder, now: u64, request_id: Option<usize>)
        ensures
            final(timings)@ == self@.log_at(old(timings)@, now, request_id),
    {
        let mut stream = self;
        stream.record_once(timings, now, request_id);
    }
}

/// When something happens, and within which request.
pub struct Moment {
    pub now: u64,
    pub request_id: Option<usize>,
}

/// The stream after some polls.
pub open spec fn stream_after(state: StreamState, polls: Seq<(StreamPoll, Moment)>) -> StreamState
    decreases polls.len(),
{
    if polls.len() == 0 {
        state
    } else {
        stream_after(state, polls.drop_last()).after_poll(polls.last().0)
    }
}

/// The log after some polls, each with its moment.
pub open spec fn log_after(
    state: StreamState,
    log: CallLog,
    polls: Seq<(StreamPoll, Moment)>,
) -> CallLog
    decreases polls.len(),
{
    if polls.len() == 0 {
        log
    } else {
        stream_after(state, polls.drop_last()).log_after_poll(
            log_after(state, log, polls.drop_last()),
            polls.last().0,
            polls.last().1.now,
            polls.last().1.request_id,
        )
    }
}

/// When a stream ends: at the first poll that says so, else when it is let go.
pub open spec fn end_moment(polls: Seq<(StreamPoll, Moment)>, dropped: Moment) -> Moment
    decreases polls.len(),
{
    if polls.len() == 0 {
        dropped
    } else if polls[0].0 is End {
        polls[0].1
    } else {
        end_moment(polls.skip(1), dropped)
    }
}

/// Some poll says that the stream has ended.
pub open spec fn has_ended(polls: Seq<(StreamPoll, Moment)>) -> bool {
    exists|i: int| 0 <= i < polls.len() && (#[trigger] polls[i]).0 is End
}

/// However often it is polled, and whether it ends or is let go before, a
/// stream counts as one call, which lasts from the request to its end and
/// belongs to the request that is at hand then.
pub proof fn law_stream_recorded_once(
    start: u64,
    log: CallLog,
    polls: Seq<(StreamPoll, Moment)>,
    dropped: Moment,
)
    ensures
        ({
            let state = StreamState { start, recorded: false };
            stream_after(state, polls).log_at(
                log_after(state, log, polls),
                dropped.now,
                dropped.request_id,
            ) == log.with_call(
                elapsed(start, end_moment(polls, dropped).now),
                end_moment(polls, dropped).request_id,
            )
        }),
{
    lemma_stream_runs(start, log, polls, dropped);
}

/// What some polls make of a fresh stream and of the log.
proof fn lemma_stream_runs(
    start: u64,
    log: CallLog,
    polls: Seq<(StreamPoll, Moment)>,
    dropped: Moment,
)
    ensures
        ({
            let state = StreamState { start, recorded: false };
            &&& stream_after(state, polls).start == start
            &&& stream_after(state, polls).recorded == has_ended(polls)
            &&& log_after(state, log, polls) == if has_ended(polls) {
                log.with_call(
                    elapsed(start, end_moment(polls, dropped).now),
                    end_moment(polls, dropped).request_id,
                )
            } else {
                log
            }
            &&& !has_ended(polls) ==> end_moment(polls, dropped) == dropped
        }),
    decreases polls.len(),
{
    if polls.len() > 0 {
        let before = polls.drop_last();
        lemma_stream_runs(start, log, before, dropped);
        if has_ended(before) {
            let i = choose|i: int| 0 <= i < before.len() && (#[trigger] before[i]).0 is End;
            assert(polls[i].0 is End);
            lemma_end_of_prefix(before, polls.last(), dropped);
        } else if polls.last().0 is End {
            assert(polls[polls.len() - 1].0 is End);
            lemma_end_of_prefix(before, polls.last(), dropped);
        } else {
            assert(!has_ended(polls)) by {
                if has_ended(polls) {
                    let i = choose|i: int| 0 <= i < polls.len() && (#[trigger] polls[i]).0 is End;
                    assert(before[i].0 is End);
                }
            }
            lemma_end_of_prefix(before, polls.last(), dropped);
        }
        assert(polls =~= before.push(polls.last()));
    }
}

/// When a stream ends that is polled once more.
proof fn lemma_end_of_prefix(before: Seq<(StreamPoll, Moment)>, last: (StreamPoll, Moment), dropped: Moment)
    ensures
        end_moment(before.push(last), dropped) == if has_ended(before) {
            end_moment(before, dropped)
        } else if last.0 is End {
            last.1
        } else {
            dropped
        },
    decreases before.len(),
{
    let polls = before.push(last);
    if before.len() == 0 {
        assert(!has_ended(before));
        assert(polls.skip(1) =~= Seq::<(StreamPoll, Moment)>::empty());
        assert(end_moment(polls.skip(1), dropped) == dropped);
    } else {
        assert(polls[0] == before[0]);
        if before[0].0 is End {
            assert(has_ended(before));
        } else {
            assert(polls.skip(1) =~= before.skip(1).push(last));
            lemma_end_of_prefix(before.skip(1), last, dropped);
            if has_ended(before) {
                let i = choose|i: int| 0 <= i < before.len() && (#[trigger] before[i]).0 is End;
                assert(before.skip(1)[i - 1].0 is End);
            } else {
                assert(!has_ended(before.skip(1))) by {
                    if has_ended(before.skip(1)) {
                        let i = choose|i: int|
                            0 <= i < before.skip(1).len() && (#[trigger] before.skip(1)[i]).0 is End;
                        assert(before[i + 1].0 is End);
                    }
                }
            }
        }
    }
}

/// A tool that starts and then ends adds one duration, the time between, and
/// leaves no execution of its request under way.
pub proof fn law_tool_timed_from_start_to_end(
    starts: Map<usize, u64>,
    timings: Seq<u64>,
    id: usize,
    started: u64,
    ended: u64,
)
    ensures
        ({
            let under_way = starts_after_start(starts, Some(id), started);
            &&& timings_after_end(timings, under_way, Some(id), ended) == timings.push(
                elapsed(started, ended),
            )
            &&& starts_after_end(under_way, Some(id)) == starts.remove(id)
        }),
{
    assert(starts.insert(id, started).remove(id) =~= starts.remove(id));
}

/// An execution that is timed on its own adds what one of a request adds: one
/// duration at the end, the time from its start.
pub proof fn law_executions_timed_alike(
    starts: Map<usize, u64>,
    timings: Seq<u64>,
    id: usize,
    started: u64,
    ended: u64,
)
    ensures
        timings_after_stop(timings, started, ended) == timings_after_end(
            timings,
            starts_after_start(starts, Some(id), started),
            Some(id),
            ended,
        ),
        timings_after_stop(timings, started, ended).drop_last() == timings,
        started <= ended ==> started + timings_after_stop(timings, started, ended).last()
            == ended,
{
    assert(timings_after_stop(timings, started, ended).drop_last() =~= timings);
}

/// An end without a start adds nothing, and neither does a second end.
pub proof fn law_tool_end_counts_once(
    starts: Map<usize, u64>,
    timings: Seq<u64>,
    id: usize,
    now: u64,
)
    ensures
        timings_after_end(timings, starts_after_end(starts, Some(id)), Some(id), now) == timings,
{
}

/// Tool executions of different requests do not disturb each other.
pub proof fn law_tool_requests_independent(
    starts: Map<usize, u64>,
    id: usize,
    other: usize,
    now: u64,
)
    requires
        id != other,
    ensures
        starts_after_start(starts, Some(other), now).contains_key(id) == starts.contains_key(id),
        starts_after_end(starts, Some(other)).contains_key(id) == starts.contains_key(id),
        starts.contains_key(id) ==> starts_after_start(starts, Some(other), now)[id] == starts[id],
        starts.contains_key(id) ==> starts_after_end(starts, Some(other))[id] == starts[id],
{
}

/// Outside a request no tool is timed.
pub proof fn law_no_request_no_timing(starts: Map<usize, u64>, timings: Seq<u64>, now: u64)
    ensures
        starts_after_start(starts, None, now) == starts,
        starts_after_end(starts, None) == starts,
        timings_after_end(timings, starts, None, now) == timings,
{
}

/// A call adds its duration to the total of its own request, and to that of
/// no other.
pub proof fn law_call_counts_for_its_request(log: CallLog, duration: u64, id: usize, other: usize)
    requires
        other != id,
    ensures
        ({
            let after = log.with_call(duration, Some(id));
            &&& after.requests.contains_key(id)
            &&& total(after.requests[id]) == duration + if log.requests.contains_key(id) {
                total(log.requests[id])
            } else {
                0
            }
            &&& after.requests.contains_key(other) == log.requests.contains_key(other)
            &&& log.requests.contains_key(other) ==> after.requests[other] == log.requests[other]
        }),
{
    if log.requests.contains_key(id) {
        lemma_total_push(log.requests[id], duration);
    } else {
        lemma_total_push(Seq::empty(), duration);
        assert(Seq::<u64>::empty().push(duration) =~= seq![duration]);
    }
}

/// The time that has passed leads from the start to now; where now is the
/// earlier, none has.
pub proof fn law_elapsed_leads_to_now(start: u64, now: u64)
    ensures
        start <= now ==> start + elapsed(start, now) == now,
        now <= start ==> elapsed(start, now) == 0,
{
}

/// The sum of durations in a row is that of both parts, and one duration is its
/// own sum.
pub proof fn law_totals_add(a: Seq<u64>, b: Seq<u64>, duration: u64)
    ensures
        total(a + b) == total(a) + total(b),
        total(seq![duration]) == duration,
        total(Seq::empty()) == 0,
    decreases b.len(),
{
    assert(seq![duration].drop_last() =~= Seq::<u64>::empty());
    assert(total(seq![duration].drop_last()) == 0);
    if b.len() == 0 {
        assert(a + b =~= a);
    } else {
        assert((a + b).drop_last() =~= a + b.drop_last());
        law_totals_add(a, b.drop_last(), duration);
    }
}

/// Every call is logged behind those before it, and once more with its request
/// where it has one.
pub proof fn law_call_is_logged_last(log: CallLog, duration: u64, id: usize)
    ensures
        log.with_call(duration, None).calls == log.calls.push(duration),
        log.with_call(duration, None).requests == log.requests,
        log.with_call(duration, Some(id)).calls == log.calls.push(duration),
        log.with_call(duration, Some(id)).requests.dom() == log.requests.dom().insert(id),
        log.with_call(duration, Some(id)).requests[id].last() == duration,
        log.with_call(duration, Some(id)).requests[id].drop_last() == (
        if log.requests.contains_key(id) {
            log.requests[id]
        } else {
            Seq::empty()
        }),
{
    if log.requests.contains_key(id) {
        assert(log.requests[id].push(duration).drop_last() =~= log.requests[id]);
    } else {
        assert(seq![duration].drop_last() =~= Seq::<u64>::empty());
    }
    assert(log.with_call(duration, Some(id)).requests.dom() =~= log.requests.dom().insert(id));
}

/// However the requests are listed, each has its total once in the list, and
/// no other totals are there.
pub proof fn law_each_request_has_its_total(
    ids: Seq<usize>,
    requests: Map<usize, Seq<u64>>,
    id: usize,
)
    requires
        lists_requests(ids, requests),
    ensures
        totals_of(ids, requests).len() == requests.dom().len(),
        requests.contains_key(id) ==> exists|i: int|
            {
                &&& 0 <= i < ids.len()
                &&& #[trigger] ids[i] == id
                &&& totals_of(ids, requests)[i] == total(requests[id])
                &&& forall|k: int| 0 <= k < ids.len() && #[trigger] ids[k] == id ==> k == i
            },
        !requests.contains_key(id) ==> !ids.contains(id),
{
    ids.unique_seq_to_set();
    assert(requests.dom().contains(id) == ids.to_set().contains(id));
    if requests.contains_key(id) {
        assert(ids.contains(id));
        let i = choose|i: int| 0 <= i < ids.len() && ids[i] == id;
        assert(totals_of(ids, requests)[i] == total(requests[id]));
    }
}

} // verus!
