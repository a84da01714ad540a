use crate::types::{
    empty_kv_cache, EngineCommand, EngineResult, EngineTask, EngineTaskView, FinishReason,
    KVCache, Request, RequestId, SamplingParams, SequenceOutput, SequenceState, Token, TokenId,
};
use std::collections::HashMap;
use tokio::sync::mpsc::{Receiver, Sender};
use vstd::prelude::*;
use vstd::std_specs::iter::IteratorSpec;

verus! {

broadcast use vstd::std_specs::hash::group_hash_axioms;

/// `tokio::sync::mpsc::Receiver`, the receiving half of a channel; carried
/// opaquely by the scheduler for the loop that drives it.
#[verifier::external_type_specification]
#[verifier::external_body]
#[verifier::reject_recursive_types(T)]
pub struct ExReceiver<T>(Receiver<T>);

/// `tokio::sync::mpsc::Sender`, the sending half of a channel; carried
/// opaquely by the scheduler for the loop that drives it.
#[verifier::external_type_specification]
#[verifier::external_body]
#[verifier::reject_recursive_types(T)]
pub struct ExSender<T>(Sender<T>);

#[derive(Debug)]
pub struct Sequence {
    pub request_id: RequestId,
    pub prompt: String,
    pub sampling_params: SamplingParams,
    pub state: SequenceState,
    pub input_tokens: Vec<TokenId>,
    pub output_tokens: Vec<TokenId>,
    pub kv_cache: Option<KVCache>,
}

/// Mathematical form of a `Sequence`.
pub struct SequenceView {
    pub request_id: RequestId,
    pub prompt: Seq<char>,
    pub sampling_params: SamplingParams,
    pub state: SequenceState,
    pub input_tokens: Seq<TokenId>,
    pub output_tokens: Seq<TokenId>,
    pub kv_cache: Option<KVCache>,
}

impl View for Sequence {
    type V = SequenceView;

    open spec fn view(&self) -> SequenceView {
        SequenceView {
            request_id: self.request_id,
            prompt: self.prompt@,
            sampling_params: self.sampling_params,
            state: self.state,
            input_tokens: self.input_tokens@,
            output_tokens: self.output_tokens@,
            kv_cache: self.kv_cache,
        }
    }
}

/// The ids of the given tokens, in order.
pub open spec fn token_ids(tokens: Seq<Token>) -> Seq<TokenId> {
    tokens.map_values(|t: Token| t.token_id)
}

/// The sequence that a request starts as, once its prompt is tokenized.
pub open spec fn admitted(req: Request, tokens: Seq<Token>) -> SequenceView {
    SequenceView {
        request_id: req.request_id,
        prompt: req.prompt@,
        sampling_params: req.sampling_params,
        state: SequenceState::WaitingPrefill,
        input_tokens: token_ids(tokens),
        output_tokens: Seq::empty(),
        kv_cache: None,
    }
}

/// The task that puts a waiting sequence into a batch: a prefill of the whole
/// input, or a decode of the last generated token (0 if there is none) with
/// the sequence's cache (the empty cache if it has none).
pub open spec fn task_of(s: SequenceView) -> EngineTaskView {
    if s.state is WaitingPrefill {
        EngineTaskView::Prefill { request_id: s.request_id, input_tokens: s.input_tokens }
    } else {
        EngineTaskView::Decode {
            request_id: s.request_id,
            input_tokens: seq![
                if s.output_tokens.len() > 0 {
                    s.output_tokens.last()
                } else {
                    0
                },
            ],
            kv: match s.kv_cache {
                Some(kv) => kv,
                None => empty_kv_cache(),
            },
        }
    }
}

/// What one output of the engine does to its sequence: an error ends it in
/// `Error`; otherwise the token is appended, the cache kept, and the sequence
/// finishes on the end-of-sequence token or once it holds `max_tokens`
/// tokens, and waits for its next decode step otherwise.
pub open spec fn advance(s: SequenceView, o: SequenceOutput, eos_token_id: TokenId) -> SequenceView {
    if o.error is Some {
        SequenceView { state: SequenceState::Error, ..s }
    } else {
        let tokens = s.output_tokens.push(o.token);
        SequenceView {
            output_tokens: tokens,
            kv_cache: Some(o.kv),
            state: if o.token == eos_token_id || tokens.len() >= s.sampling_params.max_tokens {
                SequenceState::Finished(FinishReason::Finished)
            } else {
                SequenceState::WaitingDecode
            },
            ..s
        }
    }
}

/// One output applied to the table of sequences; an output for an unknown
/// sequence is ignored.
pub open spec fn apply_output(
    m: Map<RequestId, SequenceView>,
    o: SequenceOutput,
    eos_token_id: TokenId,
) -> Map<RequestId, SequenceView> {
    if m.contains_key(o.seq_id) {
        m.insert(o.seq_id, advance(m[o.seq_id], o, eos_token_id))
    } else {
        m
    }
}

/// The outputs applied to the table one after the other, in order.
pub open spec fn apply_outputs(
    m: Map<RequestId, SequenceView>,
    outs: Seq<SequenceOutput>,
    eos_token_id: TokenId,
) -> Map<RequestId, SequenceView>
    decreases outs.len(),
{
    if outs.len() == 0 {
        m
    } else {
        apply_output(apply_outputs(m, outs.drop_last(), eos_token_id), outs.last(), eos_token_id)
    }
}

/// What an engine result does to the table: the outputs of a step are
/// applied; an engine error changes nothing.
pub open spec fn apply_result(
    m: Map<RequestId, SequenceView>,
    r: EngineResult,
    eos_token_id: TokenId,
) -> Map<RequestId, SequenceView> {
    match r {
        EngineResult::StepOutput { outputs } => apply_outputs(m, outputs@, eos_token_id),
        EngineResult::EngineError(_) => m,
    }
}

/// Every sequence is filed under its own request id.
pub open spec fn keyed_by_id(m: Map<RequestId, SequenceView>) -> bool {
    forall|k: RequestId| #[trigger] m.contains_key(k) ==> m[k].request_id == k
}

/// A sequence once the scheduler has put it into a batch: a waiting sequence
/// moves on to running; any other is left as it is.
pub open spec fn dispatch(s: SequenceView) -> SequenceView {
    SequenceView { state: s.state.dispatched(), ..s }
}

/// The table after a scheduling pass: every waiting sequence dispatched.
pub open spec fn dispatch_all(m: Map<RequestId, SequenceView>) -> Map<RequestId, SequenceView> {
    m.map_values(|s: SequenceView| dispatch(s))
}

/// Some sequence in the table waits for a batch.
pub open spec fn has_waiting(m: Map<RequestId, SequenceView>) -> bool {
    exists|k: RequestId| #[trigger] m.contains_key(k) && m[k].state.is_waiting()
}

/// `ts` is a batch for the table `m`, in some order: one task for each
/// waiting sequence and for no other, each the task of its sequence.
pub open spec fn is_batch_for(m: Map<RequestId, SequenceView>, ts: Seq<EngineTaskView>) -> bool {
    &&& forall|j: int|
        0 <= j < ts.len() ==> {
            let id = #[trigger] ts[j].request_id();
            &&& m.contains_key(id)
            &&& m[id].state.is_waiting()
            &&& ts[j] == task_of(m[id])
        }
    &&& forall|j1: int, j2: int|
        0 <= j1 < j2 < ts.len() ==> #[trigger] ts[j1].request_id() != #[trigger] ts[j2].request_id()
    &&& forall|k: RequestId|
        #[trigger] m.contains_key(k) && m[k].state.is_waiting() ==> exists|j: int|
            0 <= j < ts.len() && #[trigger] ts[j].request_id() == k
}

impl Sequence {
    /// The sequence for a request whose prompt the tokenizer turned into `tokens`.
    pub fn from_request(req: Request, tokens: Vec<Token>) -> (s: Self)
        ensures
            s@ == admitted(req, tokens@),
    {
        let mut input_tokens: Vec<TokenId> = Vec::with_capacity(tokens.len());
        let mut i: usize = 0;
        while i < tokens.len()
            invariant
                i <= tokens@.len(),
                input_tokens@ == token_ids(tokens@.take(i as int)),
            decreases tokens@.len() - i,
        {
            input_tokens.push(tokens[i].token_id);
            i = i + 1;
            proof {
                assert(token_ids(tokens@.take(i as int)) =~= token_ids(
                    tokens@.take(i - 1),
                ).push(tokens@[i - 1].token_id));
            }
        }
        proof {
            assert(tokens@.take(tokens@.len() as int) =~= tokens@);
        }
        Sequence {
            request_id: req.request_id,
            prompt: req.prompt,
            sampling_params: req.sampling_params,
            state: SequenceState::WaitingPrefill,
            input_tokens,
            output_tokens: Vec::new(),
            kv_cache: None,
        }
    }

    /// The task for this sequence in the next batch.
    pub fn to_engine_task(&self) -> (t: EngineTask)
        requires
            self.state.is_waiting(),
        ensures
            t@ == task_of(self@),
    {
        match self.state {
            SequenceState::WaitingPrefill => {
                let input_tokens = self.input_tokens.clone();
                proof {
                    assert(input_tokens@ =~= self.input_tokens@);
                }
                EngineTask::Prefill { request_id: self.request_id, input_tokens }
            },
            _ => {
                let last: TokenId = if self.output_tokens.len() > 0 {
                    self.output_tokens[self.output_tokens.len() - 1]
                } else {
                    0
                };
                let kv = match self.kv_cache {
                    Some(kv) => kv,
                    None => KVCache::default(),
                };
                let input_tokens = vec![last];
                proof {
                    assert(input_tokens@ =~= seq![last]);
                }
                EngineTask::Decode { request_id: self.request_id, input_tokens, kv }
            },
        }
    }
}

/// The ids under which sequences are filed, each once.
fn filed_ids(m: &HashMap<RequestId, Sequence>) -> (keys: Vec<RequestId>)
    ensures
        keys@.to_set() == m@.dom(),
        keys@.no_duplicates(),
{
    let ghost all = vstd::std_specs::hash::spec_keys_iter(m).remaining();
    let mut keys: Vec<RequestId> = Vec::new();
    for k in it: m.keys()
        invariant
            it.seq() == all,
            keys@ == all.take(it.index() as int).map_values(|r: &RequestId| *r),
    {
        proof {
            assert(all.take(it.index() + 1).map_values(|r: &RequestId| *r) =~= all.take(it.index() as int).map_values(|r: &RequestId| *r).push(*k));
        }
        keys.push(*k);
    }
    proof {
        assert(all.take(all.len() as int) =~= all);
        assert(keys@ =~= all.unref());
    }
    keys
}

/// What the scheduler's loop wakes up for: a request whose prompt has been
/// tokenized, the result of an engine step, or the signal to shut down.
pub enum SchedulerEvent {
    Request(Request, Vec<Token>),
    Result(EngineResult),
    Shutdown,
}

/// What the scheduler's loop does after an event: send a batch with these
/// tasks to the engine, wait for the next event, or stop and hand the
/// scheduler back.
pub enum SchedulerAction {
    Dispatch(Vec<EngineTask>),
    Wait,
    Stop,
}

/// The table after an event, before the next scheduling pass.
pub open spec fn after_event(
    m: Map<RequestId, SequenceView>,
    event: SchedulerEvent,
    eos_token_id: TokenId,
) -> Map<RequestId, SequenceView> {
    match event {
        SchedulerEvent::Request(req, tokens) => m.insert(req.request_id, admitted(req, tokens@)),
        SchedulerEvent::Result(r) => apply_result(m, r, eos_token_id),
        SchedulerEvent::Shutdown => m,
    }
}

pub struct Scheduler {
    pub request_rx: Receiver<Request>,
    pub engine_cmd_tx: Sender<EngineCommand>,
    pub engine_result_rx: Receiver<EngineResult>,
    pub shutdown_rx: Receiver<()>,
    pub sequences: HashMap<RequestId, Sequence>,
}

impl Scheduler {
    /// The table of sequences, each by its view.
    pub open spec fn seqs(&self) -> Map<RequestId, SequenceView> {
        self.sequences@.map_values(|s: Sequence| s@)
    }

    /// The table files every sequence under its own request id.
    pub open spec fn wf(&self) -> bool {
        keyed_by_id(self.seqs())
    }

    pub fn new(
        request_rx: Receiver<Request>,
        engine_cmd_tx: Sender<EngineCommand>,
        engine_result_rx: Receiver<EngineResult>,
        shutdown_rx: Receiver<()>,
    ) -> (s: Self)
        ensures
            s.wf(),
            s.seqs() == Map::<RequestId, SequenceView>::empty(),
            s.request_rx == request_rx,
            s.engine_cmd_tx == engine_cmd_tx,
            s.engine_result_rx == engine_result_rx,
            s.shutdown_rx == shutdown_rx,
    {
        let s = Scheduler {
            request_rx,
            engine_cmd_tx,
            engine_result_rx,
            shutdown_rx,
            sequences: HashMap::new(),
        };
        proof {
            assert(s.seqs() =~= Map::<RequestId, SequenceView>::empty());
        }
        s
    }

    /// Files `seq` under its request id, replacing any sequence filed there.
    pub fn add_sequence(&mut self, seq: Sequence)
        requires
            old(self).wf(),
        ensures
            final(self).wf(),
            final(self).seqs() == old(self).seqs().insert(seq.request_id, seq@),
            final(self).request_rx == old(self).request_rx,
            final(self).engine_cmd_tx == old(self).engine_cmd_tx,
            final(self).engine_result_rx == old(self).engine_result_rx,
            final(self).shutdown_rx == old(self).shutdown_rx,
    {
        let ghost id = seq.request_id;
        let ghost v = seq@;
        self.sequences.insert(seq.request_id, seq);
        proof {
            assert(self.seqs() =~= old(self).seqs().insert(id, v));
        }
    }

    /// Admits a request whose prompt the tokenizer turned into `tokens`.
    pub fn admit_request(&mut self, req: Request, tokens: Vec<Token>)
        requires
            old(self).wf(),
        ensures
            final(self).wf(),
            final(self).seqs() == old(self).seqs().insert(
                req.request_id,
                admitted(req, tokens@),
            ),
            final(self).request_rx == old(self).request_rx,
            final(self).engine_cmd_tx == old(self).engine_cmd_tx,
            final(self).engine_result_rx == old(self).engine_result_rx,
            final(self).shutdown_rx == old(self).shutdown_rx,
    {
        let seq = Sequence::from_request(req, tokens);
        self.add_sequence(seq);
    }

    /// Puts every waiting sequence into a batch and marks it running. Gives
    /// the tasks of the batch, or `None` when no sequence waits; the order of
    /// the tasks is the order in which the table is walked.
    pub fn schedule(&mut self) -> (r: Option<Vec<EngineTask>>)
        requires
            old(self).wf(),
        ensures
            final(self).wf(),
            final(self).seqs() == dispatch_all(old(self).seqs()),
            match r {
                None => !has_waiting(old(self).seqs()),
                Some(tasks) => has_waiting(old(self).seqs()) && is_batch_for(
                    old(self).seqs(),
                    crate::engine::task_views(tasks@),
                ),
            },
            final(self).request_rx == old(self).request_rx,
            final(self).engine_cmd_tx == old(self).engine_cmd_tx,
            final(self).engine_result_rx == old(self).engine_result_rx,
            final(self).shutdown_rx == old(self).shutdown_rx,
    {
        let ids = filed_ids(&self.sequences);
        let ghost start = self.seqs();
        assert(start == old(self).seqs());
        let mut tasks: Vec<EngineTask> = Vec::new();
        let mut i: usize = 0;
        while i < ids.len()
            invariant
                i <= ids@.len(),
                ids@.to_set() == start.dom(),
                ids@.no_duplicates(),
                keyed_by_id(start),
                self.wf(),
                self.seqs().dom() == start.dom(),
                forall|x: int| 0 <= x < i ==> #[trigger] self.seqs()[ids@[x]] == dispatch(start[ids@[x]]),
                forall|x: int| i <= x < ids@.len() ==> #[trigger] self.seqs()[ids@[x]] == start[ids@[x]],
                forall|j: int|
                    0 <= j < tasks@.len() ==> {
                        let id = #[trigger] tasks@[j]@.request_id();
                        &&& ids@.take(i as int).contains(id)
                        &&& start.contains_key(id)
                        &&& start[id].state.is_waiting()
                        &&& tasks@[j]@ == task_of(start[id])
                    },
                forall|j1: int, j2: int|
                    0 <= j1 < j2 < tasks@.len() ==> #[trigger] tasks@[j1]@.request_id() != #[trigger] tasks@[j2]@.request_id(),
                forall|x: int|
                    0 <= x < i && #[trigger] start[ids@[x]].state.is_waiting() ==> exists|j: int|
                        0 <= j < tasks@.len() && #[trigger] tasks@[j]@.request_id() == ids@[x],
                self.request_rx == old(self).request_rx,
                self.engine_cmd_tx == old(self).engine_cmd_tx,
                self.engine_result_rx == old(self).engine_result_rx,
                self.shutdown_rx == old(self).shutdown_rx,
            decreases ids@.len() - i,
        {
            let id = ids[i];
            proof {
                assert(ids@.to_set().contains(id));
                assert(ids@.take(i + 1) =~= ids@.take(i as int).push(id));
                assert(!ids@.take(i as int).contains(id));
            }
            let waiting = match self.sequences.get(&id) {
                Some(seq) => seq.state.waiting(),
                None => false,
            };
            let ghost before_iter = self.seqs();
            let ghost tasks_before = tasks@;
            proof {
                assert(self.seqs()[ids@[i as int]] == start[ids@[i as int]]);
                assert(start.contains_key(id));
                assert(start[id].request_id == id);
            }
            if waiting {
                let mut seq = self.sequences.remove(&id).unwrap();
                let task = seq.to_engine_task();
                seq.state = match seq.state {
                    SequenceState::WaitingPrefill => SequenceState::RunningPrefill,
                    SequenceState::WaitingDecode => SequenceState::RunningDecode,
                    other => other,
                };
                let ghost v = seq@;
                self.sequences.insert(id, seq);
                proof {
                    assert(self.seqs() =~= before_iter.insert(id, v));
                }
                tasks.push(task);
                proof {
                    assert(tasks@ == tasks_before.push(task));
                    assert(task@ == task_of(start[id]));
                    assert(task@.request_id() == id);
                }
            } else {
                proof {
                    assert(!start[id].state.is_waiting());
                    assert(tasks@ == tasks_before);
                }
            }
            proof {
                assert forall|j: int| 0 <= j < tasks_before.len() implies ids@.take(i + 1).contains(
                    #[trigger] tasks_before[j]@.request_id(),
                ) by {
                    assert(ids@.take(i as int).contains(tasks_before[j]@.request_id()));
                }
                assert forall|j: int| 0 <= j < tasks@.len() implies {
                    let tid = #[trigger] tasks@[j]@.request_id();
                    &&& ids@.take(i + 1).contains(tid)
                    &&& start.contains_key(tid)
                    &&& start[tid].state.is_waiting()
                    &&& tasks@[j]@ == task_of(start[tid])
                } by {
                    if j < tasks_before.len() {
                        assert(tasks@[j] == tasks_before[j]);
                    } else {
                        assert(ids@.take(i + 1)[i as int] == id);
                    }
                }
                assert forall|x: int|
                    0 <= x < i + 1 && #[trigger] start[ids@[x]].state.is_waiting() implies exists|j: int|
                        0 <= j < tasks@.len() && #[trigger] tasks@[j]@.request_id() == ids@[x] by {
                    if x < i {
                        let j0 = choose|j: int|
                            0 <= j < tasks_before.len() && #[trigger] tasks_before[j]@.request_id() == ids@[x];
                        assert(tasks@[j0] == tasks_before[j0]);
                    } else {
                        assert(tasks@[tasks@.len() - 1]@.request_id() == id);
                    }
                }
            }
            i = i + 1;
        }
        proof {
            assert(self.seqs() =~= dispatch_all(start));
            assert forall|k: RequestId|
                #[trigger] start.contains_key(k) && start[k].state.is_waiting() implies exists|j: int|
                    0 <= j < tasks@.len() && #[trigger] tasks@[j]@.request_id() == k by {
                assert(ids@.to_set().contains(k));
                let x = choose|x: int| 0 <= x < ids@.len() && ids@[x] == k;
                assert(start[ids@[x]].state.is_waiting());
            }
        }
        if tasks.len() == 0 {
            proof {
                // a waiting sequence would have a task in the batch
                if has_waiting(start) {
                    let k = choose|k: RequestId| #[trigger] start.contains_key(k) && start[k].state.is_waiting();
                    assert(exists|j: int| 0 <= j < tasks@.len() && #[trigger] tasks@[j]@.request_id() == k);
                }
            }
            None
        } else {
            proof {
                let k = tasks@[0]@.request_id();
                assert(start.contains_key(k) && start[k].state.is_waiting());
                let tv = crate::engine::task_views(tasks@);
                assert forall|k: RequestId|
                    #[trigger] start.contains_key(k) && start[k].state.is_waiting() implies exists|j: int|
                        0 <= j < tv.len() && #[trigger] tv[j].request_id() == k by {
                    let j = choose|j: int| 0 <= j < tasks@.len() && #[trigger] tasks@[j]@.request_id() == k;
                    assert(tv[j] == tasks@[j]@);
                }
            }
            Some(tasks)
        }
    }

    /// One turn of the scheduler's loop: takes in the event, then schedules.
    /// On a shutdown the table is left as it is and the loop is told to stop;
    /// otherwise the loop is given the tasks of the batch to send, if any.
    pub fn handle_event(&mut self, event: SchedulerEvent, eos_token_id: TokenId) -> (r: SchedulerAction)
        requires
            old(self).wf(),
        ensures
            final(self).wf(),
            event is Shutdown ==> r is Stop && final(self).seqs() == old(self).seqs(),
            !(event is Shutdown) ==> ({
                let mid = after_event(old(self).seqs(), event, eos_token_id);
                &&& final(self).seqs() == dispatch_all(mid)
                &&& match r {
                    SchedulerAction::Wait => !has_waiting(mid),
                    SchedulerAction::Dispatch(tasks) => has_waiting(mid) && is_batch_for(
                        mid,
                        crate::engine::task_views(tasks@),
                    ),
                    SchedulerAction::Stop => false,
                }
            }),
            final(self).request_rx == old(self).request_rx,
            final(self).engine_cmd_tx == old(self).engine_cmd_tx,
            final(self).engine_result_rx == old(self).engine_result_rx,
            final(self).shutdown_rx == old(self).shutdown_rx,
    {
        match event {
            SchedulerEvent::Request(req, tokens) => self.admit_request(req, tokens),
            SchedulerEvent::Result(result) => self.handle_engine_result(result, eos_token_id),
            SchedulerEvent::Shutdown => {
                return SchedulerAction::Stop;
            },
        }
        match self.schedule() {
            Some(tasks) => SchedulerAction::Dispatch(tasks),
            None => SchedulerAction::Wait,
        }
    }

    /// Applies one output of the engine to the sequence it names.
    fn apply_output(&mut self, output: &SequenceOutput, eos_token_id: TokenId)
        requires
            old(self).wf(),
        ensures
            final(self).wf(),
            final(self).seqs() == apply_output(old(self).seqs(), *output, eos_token_id),
            final(self).request_rx == old(self).request_rx,
            final(self).engine_cmd_tx == old(self).engine_cmd_tx,
            final(self).engine_result_rx == old(self).engine_result_rx,
            final(self).shutdown_rx == old(self).shutdown_rx,
    {
        let removed = self.sequences.remove(&output.seq_id);
        match removed {
            None => {
                proof {
                    assert(self.seqs() =~= old(self).seqs());
                }
            },
            Some(mut seq) => {
                let ghost before = seq@;
                if output.error.is_some() {
                    seq.state = SequenceState::Error;
                } else {
                    seq.output_tokens.push(output.token);
                    seq.kv_cache = Some(output.kv);
                    if output.token == eos_token_id || seq.output_tokens.len()
                        >= seq.sampling_params.max_tokens {
                        seq.state = SequenceState::Finished(FinishReason::Finished);
                    } else {
                        seq.state = SequenceState::WaitingDecode;
                    }
                }
                proof {
                    assert(seq@ == advance(before, *output, eos_token_id));
                }
                let ghost v = seq@;
                self.sequences.insert(output.seq_id, seq);
                proof {
                    assert(self.seqs() =~= old(self).seqs().insert(output.seq_id, v));
                }
            },
        }
    }

    /// Applies what the engine reported for a step: each output, in order,
    /// to the sequence it names; an engine error changes nothing.
    pub fn handle_engine_result(&mut self, result: EngineResult, eos_token_id: TokenId)
        requires
            old(self).wf(),
        ensures
            final(self).wf(),
            final(self).seqs() == apply_result(old(self).seqs(), result, eos_token_id),
            final(self).request_rx == old(self).request_rx,
            final(self).engine_cmd_tx == old(self).engine_cmd_tx,
            final(self).engine_result_rx == old(self).engine_result_rx,
            final(self).shutdown_rx == old(self).shutdown_rx,
    {
        match result {
            EngineResult::StepOutput { outputs } => {
                let ghost start = self.seqs();
                let mut i: usize = 0;
                while i < outputs.len()
                    invariant
                        i <= outputs@.len(),
                        self.wf(),
                        self.seqs() == apply_outputs(start, outputs@.take(i as int), eos_token_id),
                        self.request_rx == old(self).request_rx,
                        self.engine_cmd_tx == old(self).engine_cmd_tx,
                        self.engine_result_rx == old(self).engine_result_rx,
                        self.shutdown_rx == old(self).shutdown_rx,
                    decreases outputs@.len() - i,
                {
                    proof {
                        assert(outputs@.take(i + 1).drop_last() =~= outputs@.take(i as int));
                    }
                    self.apply_output(&outputs[i], eos_token_id);
                    i = i + 1;
                }
                proof {
                    assert(outputs@.take(outputs@.len() as int) =~= outputs@);
                }
            },
            EngineResult::EngineError(_) => {},
        }
    }
}

} // verus!
