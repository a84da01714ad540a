//! Properties of the request lifecycle that span the scheduler's operations.

use crate::engine::{
    decode_output, decode_outputs, distinct_ids, output_of, prefill_output, prefill_outputs,
    step_outputs,
};
use crate::scheduler::{
    admitted, advance, apply_output, apply_outputs, apply_result, dispatch, dispatch_all,
    after_event, has_waiting, is_batch_for, keyed_by_id, task_of, SchedulerEvent, SequenceView,
};
use crate::model::MOCK_TOKEN_ID;
use crate::types::EngineTaskView;
use crate::types::{EngineResult, FinishReason, Request, RequestId, SequenceOutput, SequenceState, Token, TokenId};
use vstd::prelude::*;

verus! {

/// The table after the scheduler's loop has run once per output: each round
/// dispatches the waiting sequences, then applies the engine's output.
pub open spec fn serve(
    m: Map<RequestId, SequenceView>,
    outs: Seq<SequenceOutput>,
    eos_token_id: TokenId,
) -> Map<RequestId, SequenceView>
    decreases outs.len(),
{
    if outs.len() == 0 {
        m
    } else {
        apply_output(dispatch_all(serve(m, outs.drop_last(), eos_token_id)), outs.last(), eos_token_id)
    }
}

/// The tokens carried by the outputs, in order.
pub open spec fn tokens_of(outs: Seq<SequenceOutput>) -> Seq<TokenId> {
    outs.map_values(|o: SequenceOutput| o.token)
}

/// An admitted request whose steps all succeed without the end-of-sequence
/// token stays active until it holds exactly `max_tokens` tokens (at least
/// one), and is finished then: it waits for its prefill before the first
/// output, for a decode step after each output before the last, and its
/// tokens are the outputs' tokens in order.
pub proof fn lemma_generates_exactly_max_tokens(
    m: Map<RequestId, SequenceView>,
    req: Request,
    tokens: Seq<Token>,
    outs: Seq<SequenceOutput>,
    eos_token_id: TokenId,
)
    requires
        m.contains_key(req.request_id),
        m[req.request_id] == admitted(req, tokens),
        outs.len() <= req.sampling_params.max_tokens,
        forall|i: int|
            0 <= i < outs.len() ==> {
                &&& (#[trigger] outs[i]).seq_id == req.request_id
                &&& outs[i].error is None
                &&& outs[i].token != eos_token_id
            },
    ensures
        ({
            let s = serve(m, outs, eos_token_id);
            let max = req.sampling_params.max_tokens;
            &&& s.contains_key(req.request_id)
            &&& s[req.request_id].output_tokens == tokens_of(outs)
            &&& s[req.request_id].state == if outs.len() == 0 {
                SequenceState::WaitingPrefill
            } else if outs.len() < max {
                SequenceState::WaitingDecode
            } else {
                SequenceState::Finished(FinishReason::Finished)
            }
            &&& s[req.request_id].request_id == req.request_id
            &&& s[req.request_id].prompt == req.prompt@
            &&& s[req.request_id].sampling_params == req.sampling_params
        }),
    decreases outs.len(),
{
    let id = req.request_id;
    if outs.len() == 0 {
        assert(tokens_of(outs) =~= Seq::<TokenId>::empty());
    } else {
        let rest = outs.drop_last();
        assert forall|i: int| 0 <= i < rest.len() implies {
            &&& (#[trigger] rest[i]).seq_id == req.request_id
            &&& rest[i].error is None
            &&& rest[i].token != eos_token_id
        } by {
            assert(rest[i] == outs[i]);
        }
        lemma_generates_exactly_max_tokens(m, req, tokens, rest, eos_token_id);
        let prev = serve(m, rest, eos_token_id);
        let o = outs.last();
        assert(o == outs[outs.len() - 1]);
        assert(dispatch_all(prev).contains_key(id));
        assert(tokens_of(outs) =~= tokens_of(rest).push(o.token));
    }
}

/// An output that carries the end-of-sequence token finishes its sequence,
/// however few tokens it holds.
pub proof fn lemma_eos_finishes(
    m: Map<RequestId, SequenceView>,
    o: SequenceOutput,
    eos_token_id: TokenId,
)
    requires
        m.contains_key(o.seq_id),
        o.error is None,
        o.token == eos_token_id,
    ensures
        apply_output(m, o, eos_token_id)[o.seq_id].state == SequenceState::Finished(
            FinishReason::Finished,
        ),
        apply_output(m, o, eos_token_id)[o.seq_id].output_tokens == m[o.seq_id].output_tokens.push(
            o.token,
        ),
{
}

/// An output that reports an error ends its sequence in `Error` and keeps
/// its tokens and cache as they were.
pub proof fn lemma_error_fails_sequence(
    m: Map<RequestId, SequenceView>,
    o: SequenceOutput,
    eos_token_id: TokenId,
)
    requires
        m.contains_key(o.seq_id),
        o.error is Some,
    ensures
        apply_output(m, o, eos_token_id)[o.seq_id].state == SequenceState::Error,
        apply_output(m, o, eos_token_id)[o.seq_id].output_tokens == m[o.seq_id].output_tokens,
        apply_output(m, o, eos_token_id)[o.seq_id].kv_cache == m[o.seq_id].kv_cache,
{
}

/// Sequence `b` is `a` after some engine outputs: same request, prompt,
/// sampling parameters and input, and `a`'s tokens are a prefix of `b`'s.
pub open spec fn same_request_grown(a: SequenceView, b: SequenceView) -> bool {
    &&& b.request_id == a.request_id
    &&& b.prompt == a.prompt
    &&& b.sampling_params == a.sampling_params
    &&& b.input_tokens == a.input_tokens
    &&& a.output_tokens.len() <= b.output_tokens.len()
    &&& b.output_tokens.subrange(0, a.output_tokens.len() as int) == a.output_tokens
}

/// Handling an engine result admits and drops no sequence, and changes no
/// sequence's request, prompt, parameters or input; generated tokens are
/// only ever appended.
pub proof fn lemma_result_keeps_requests(
    m: Map<RequestId, SequenceView>,
    r: EngineResult,
    eos_token_id: TokenId,
)
    ensures
        apply_result(m, r, eos_token_id).dom() == m.dom(),
        forall|k: RequestId| #[trigger] m.contains_key(k) ==> same_request_grown(
            m[k],
            apply_result(m, r, eos_token_id)[k],
        ),
{
    match r {
        EngineResult::StepOutput { outputs } => lemma_outputs_keep_requests(m, outputs@, eos_token_id),
        EngineResult::EngineError(_) => {
            assert forall|k: RequestId| #[trigger] m.contains_key(k) implies same_request_grown(
                m[k],
                m[k],
            ) by {
                assert(m[k].output_tokens.subrange(0, m[k].output_tokens.len() as int)
                    =~= m[k].output_tokens);
            }
        },
    }
}

proof fn lemma_outputs_keep_requests(
    m: Map<RequestId, SequenceView>,
    outs: Seq<SequenceOutput>,
    eos_token_id: TokenId,
)
    ensures
        apply_outputs(m, outs, eos_token_id).dom() == m.dom(),
        forall|k: RequestId| #[trigger] m.contains_key(k) ==> same_request_grown(
            m[k],
            apply_outputs(m, outs, eos_token_id)[k],
        ),
    decreases outs.len(),
{
    if outs.len() == 0 {
        assert forall|k: RequestId| #[trigger] m.contains_key(k) implies same_request_grown(
            m[k],
            m[k],
        ) by {
            assert(m[k].output_tokens.subrange(0, m[k].output_tokens.len() as int)
                =~= m[k].output_tokens);
        }
    } else {
        lemma_outputs_keep_requests(m, outs.drop_last(), eos_token_id);
        let prev = apply_outputs(m, outs.drop_last(), eos_token_id);
        let o = outs.last();
        let next = apply_output(prev, o, eos_token_id);
        assert(next.dom() =~= m.dom());
        assert forall|k: RequestId| #[trigger] m.contains_key(k) implies same_request_grown(
            m[k],
            next[k],
        ) by {
            let a = m[k];
            let b = prev[k];
            if k == o.seq_id && o.error is None {
                let c = next[k];
                assert(c.output_tokens == b.output_tokens.push(o.token));
                assert(c.output_tokens.subrange(0, a.output_tokens.len() as int)
                    =~= b.output_tokens.subrange(0, a.output_tokens.len() as int));
            }
        }
    }
}

/// After a scheduling pass no sequence waits, so a second pass right after
/// it schedules nothing and changes nothing; sequences that were not waiting
/// (running, finished or failed) are left exactly as they were.
pub proof fn lemma_dispatch_settles(m: Map<RequestId, SequenceView>)
    ensures
        !has_waiting(dispatch_all(m)),
        dispatch_all(dispatch_all(m)) == dispatch_all(m),
        dispatch_all(m).dom() == m.dom(),
        forall|k: RequestId|
            #[trigger] m.contains_key(k) && !m[k].state.is_waiting() ==> dispatch_all(m)[k] == m[k],
        forall|k: RequestId|
            #[trigger] m.contains_key(k) && m[k].state.is_waiting() ==> dispatch_all(m)[k] == dispatch(
                m[k],
            ),
{
    let d = dispatch_all(m);
    assert(d.dom() =~= m.dom());
    assert(dispatch_all(d) =~= d);
}

/// A sequence after one round of the loop driving the mock engine: a waiting
/// sequence is dispatched and then advanced by the output of its task; any
/// other sequence is left as it is.
pub open spec fn stepped(s: SequenceView, eos_token_id: TokenId) -> SequenceView {
    if s.state.is_waiting() {
        advance(dispatch(s), output_of(task_of(s)), eos_token_id)
    } else {
        s
    }
}

/// One round of continuous batching: the scheduler dispatches a batch, the
/// mock engine executes it, and the scheduler applies the result. Whatever
/// order the batch came in, each waiting sequence is advanced exactly once,
/// by the output of its own task, and no other sequence changes.
pub proof fn lemma_batch_round_advances_each_waiting(
    m: Map<RequestId, SequenceView>,
    ts: Seq<EngineTaskView>,
    eos_token_id: TokenId,
)
    requires
        keyed_by_id(m),
        is_batch_for(m, ts),
    ensures
        apply_outputs(dispatch_all(m), step_outputs(ts), eos_token_id) == m.map_values(
            |s: SequenceView| stepped(s, eos_token_id),
        ),
{
    let d = dispatch_all(m);
    let pf = |t: EngineTaskView| prefill_output(t);
    let df = |t: EngineTaskView| decode_output(t);
    assert(distinct_ids(ts));
    assert(prefill_outputs(ts) == ts.filter_map(pf));
    assert(decode_outputs(ts) == ts.filter_map(df));
    lemma_apply_outputs_concat(d, prefill_outputs(ts), decode_outputs(ts), eos_token_id);
    lemma_apply_picked_outputs(d, ts, pf, eos_token_id);
    let r1 = apply_outputs(d, prefill_outputs(ts), eos_token_id);
    lemma_apply_picked_outputs(r1, ts, df, eos_token_id);
    let r2 = apply_outputs(r1, decode_outputs(ts), eos_token_id);
    let target = m.map_values(|s: SequenceView| stepped(s, eos_token_id));
    assert(d.dom() == m.dom());
    assert forall|k: RequestId| #[trigger] m.contains_key(k) implies r2[k] == target[k] by {
        assert(m[k].request_id == k);
        if m[k].state.is_waiting() {
            let j = choose|j: int| 0 <= j < ts.len() && #[trigger] ts[j].request_id() == k;
            assert(ts[j] == task_of(m[k]));
            if m[k].state is WaitingPrefill {
                assert(pf(ts[j]) is Some);
                assert(r1[k] == advance(d[k], output_of(ts[j]), eos_token_id));
                assert forall|j2: int| 0 <= j2 < ts.len() && df(ts[j2]) is Some implies #[trigger] ts[j2].request_id() != k by {
                    if j2 < j {
                        assert(ts[j2].request_id() != ts[j].request_id());
                    } else if j < j2 {
                        assert(ts[j].request_id() != ts[j2].request_id());
                    }
                }
            } else {
                assert(df(ts[j]) is Some);
                assert forall|j2: int| 0 <= j2 < ts.len() && pf(ts[j2]) is Some implies #[trigger] ts[j2].request_id() != k by {
                    if j2 < j {
                        assert(ts[j2].request_id() != ts[j].request_id());
                    } else if j < j2 {
                        assert(ts[j].request_id() != ts[j2].request_id());
                    }
                }
                assert(r1[k] == d[k]);
            }
        } else {
            assert forall|j2: int| 0 <= j2 < ts.len() && pf(ts[j2]) is Some implies #[trigger] ts[j2].request_id() != k by {
                let id = ts[j2].request_id();
                assert(m[id].state.is_waiting());
            }
            assert forall|j2: int| 0 <= j2 < ts.len() && df(ts[j2]) is Some implies #[trigger] ts[j2].request_id() != k by {
                let id = ts[j2].request_id();
                assert(m[id].state.is_waiting());
            }
        }
    }
    assert(r2 =~= target);
    assert(apply_outputs(d, step_outputs(ts), eos_token_id) == r2);
}

proof fn lemma_apply_outputs_concat(
    m: Map<RequestId, SequenceView>,
    a: Seq<SequenceOutput>,
    b: Seq<SequenceOutput>,
    eos_token_id: TokenId,
)
    ensures
        apply_outputs(m, a + b, eos_token_id) == apply_outputs(
            apply_outputs(m, a, eos_token_id),
            b,
            eos_token_id,
        ),
    decreases b.len(),
{
    if b.len() == 0 {
        assert(a + b =~= a);
    } else {
        lemma_apply_outputs_concat(m, a, b.drop_last(), eos_token_id);
        assert((a + b).drop_last() =~= a + b.drop_last());
        assert((a + b).last() == b.last());
    }
}

/// Applying the outputs that `f` picks from tasks for distinct sequences
/// advances each picked sequence by its own output and leaves the rest.
proof fn lemma_apply_picked_outputs(
    m: Map<RequestId, SequenceView>,
    ts: Seq<EngineTaskView>,
    f: spec_fn(EngineTaskView) -> Option<SequenceOutput>,
    eos_token_id: TokenId,
)
    requires
        distinct_ids(ts),
        forall|t: EngineTaskView| #[trigger] f(t) is Some ==> f(t) == Some(output_of(t)),
    ensures
        apply_outputs(m, ts.filter_map(f), eos_token_id).dom() == m.dom(),
        forall|j: int|
            0 <= j < ts.len() && f(ts[j]) is Some && m.contains_key(ts[j].request_id())
                ==> #[trigger] apply_outputs(m, ts.filter_map(f), eos_token_id)[ts[j].request_id()]
                == advance(m[ts[j].request_id()], output_of(ts[j]), eos_token_id),
        forall|k: RequestId|
            #[trigger] m.contains_key(k) && (forall|j: int|
                0 <= j < ts.len() && f(ts[j]) is Some ==> #[trigger] ts[j].request_id() != k)
                ==> apply_outputs(m, ts.filter_map(f), eos_token_id)[k] == m[k],
    decreases ts.len(),
{
    if ts.len() > 0 {
        let rest = ts.drop_last();
        let t = ts.last();
        assert(distinct_ids(rest)) by {
            assert forall|a: int, b: int| 0 <= a < b < rest.len() implies #[trigger] rest[a].request_id()
                != #[trigger] rest[b].request_id() by {
                assert(rest[a] == ts[a] && rest[b] == ts[b]);
            }
        }
        lemma_apply_picked_outputs(m, rest, f, eos_token_id);
        let prev = apply_outputs(m, rest.filter_map(f), eos_token_id);
        let r = apply_outputs(m, ts.filter_map(f), eos_token_id);
        let last = ts.len() - 1;
        assert(t == ts[last]);
        assert forall|j: int| 0 <= j < rest.len() implies #[trigger] rest[j].request_id() != t.request_id() by {
            assert(rest[j] == ts[j]);
        }
        if f(t) is Some {
            let o = output_of(t);
            assert(ts.filter_map(f) == rest.filter_map(f) + seq![o]);
            lemma_apply_outputs_concat(m, rest.filter_map(f), seq![o], eos_token_id);
            assert(seq![o].drop_last() =~= Seq::<SequenceOutput>::empty());
            assert(seq![o].last() == o);
            assert(apply_outputs(prev, Seq::<SequenceOutput>::empty(), eos_token_id) == prev);
            assert(apply_outputs(prev, seq![o], eos_token_id) == apply_output(
                apply_outputs(prev, seq![o].drop_last(), eos_token_id),
                o,
                eos_token_id,
            ));
            assert(r == apply_output(prev, o, eos_token_id));
            if m.contains_key(t.request_id()) {
                assert(prev[t.request_id()] == m[t.request_id()]);
            }
            assert forall|j: int|
                0 <= j < ts.len() && f(ts[j]) is Some && m.contains_key(ts[j].request_id())
                    implies #[trigger] r[ts[j].request_id()] == advance(m[ts[j].request_id()], output_of(ts[j]), eos_token_id) by {
                if j < rest.len() {
                    assert(rest[j] == ts[j]);
                }
            }
            assert forall|k: RequestId|
                #[trigger] m.contains_key(k) && (forall|j: int|
                    0 <= j < ts.len() && f(ts[j]) is Some ==> #[trigger] ts[j].request_id() != k)
                    implies r[k] == m[k] by {
                assert forall|j: int| 0 <= j < rest.len() && f(rest[j]) is Some implies #[trigger] rest[j].request_id() != k by {
                    assert(rest[j] == ts[j]);
                }
                assert(ts[last].request_id() != k);
            }
        } else {
            assert(ts.filter_map(f) == rest.filter_map(f));
            assert forall|j: int|
                0 <= j < ts.len() && f(ts[j]) is Some && m.contains_key(ts[j].request_id())
                    implies #[trigger] r[ts[j].request_id()] == advance(m[ts[j].request_id()], output_of(ts[j]), eos_token_id) by {
                assert(rest[j] == ts[j]);
            }
            assert forall|k: RequestId|
                #[trigger] m.contains_key(k) && (forall|j: int|
                    0 <= j < ts.len() && f(ts[j]) is Some ==> #[trigger] ts[j].request_id() != k)
                    implies r[k] == m[k] by {
                assert forall|j: int| 0 <= j < rest.len() && f(rest[j]) is Some implies #[trigger] rest[j].request_id() != k by {
                    assert(rest[j] == ts[j]);
                }
            }
        }
    }
}

/// The sequence has a task at the engine that has not been answered yet.
pub open spec fn is_running(s: SequenceView) -> bool {
    s.state is RunningPrefill || s.state is RunningDecode
}

/// The sequence has reached the end of its lifecycle.
pub open spec fn is_terminal(s: SequenceView) -> bool {
    s.state is Finished || s.state is Error
}

/// The sequences with an unanswered task at the engine are exactly the
/// running ones.
pub open spec fn outstanding_is_running(
    m: Map<RequestId, SequenceView>,
    outstanding: Set<RequestId>,
) -> bool {
    forall|k: RequestId| #[trigger] outstanding.contains(k) <==> (m.contains_key(k) && is_running(m[k]))
}

/// The sequences that a batch has a task for.
pub open spec fn batch_ids(ts: Seq<EngineTaskView>) -> Set<RequestId> {
    Set::new(|k: RequestId| exists|j: int| 0 <= j < ts.len() && #[trigger] ts[j].request_id() == k)
}

/// The outputs answer each sequence of `ids` exactly once, and no other.
pub open spec fn answers_once(outs: Seq<SequenceOutput>, ids: Set<RequestId>) -> bool {
    &&& forall|a: int, b: int| 0 <= a < b < outs.len() ==> #[trigger] outs[a].seq_id != #[trigger] outs[b].seq_id
    &&& forall|i: int| 0 <= i < outs.len() ==> ids.contains(#[trigger] outs[i].seq_id)
    &&& forall|k: RequestId| #[trigger] ids.contains(k) ==> exists|i: int| 0 <= i < outs.len() && #[trigger] outs[i].seq_id == k
}

/// Applying outputs for distinct sequences advances each named sequence by
/// its own output and leaves the others as they were.
pub proof fn lemma_apply_distinct_outputs(
    m: Map<RequestId, SequenceView>,
    outs: Seq<SequenceOutput>,
    eos_token_id: TokenId,
)
    requires
        forall|a: int, b: int| 0 <= a < b < outs.len() ==> #[trigger] outs[a].seq_id != #[trigger] outs[b].seq_id,
    ensures
        apply_outputs(m, outs, eos_token_id).dom() == m.dom(),
        forall|i: int| 0 <= i < outs.len() && m.contains_key(outs[i].seq_id)
            ==> #[trigger] apply_outputs(m, outs, eos_token_id)[outs[i].seq_id]
            == advance(m[outs[i].seq_id], outs[i], eos_token_id),
        forall|k: RequestId| #[trigger] m.contains_key(k) && (forall|i: int| 0 <= i < outs.len() ==> #[trigger] outs[i].seq_id != k)
            ==> apply_outputs(m, outs, eos_token_id)[k] == m[k],
    decreases outs.len(),
{
    if outs.len() > 0 {
        let rest = outs.drop_last();
        let last = outs.len() - 1;
        let o = outs[last];
        assert forall|a: int, b: int| 0 <= a < b < rest.len() implies #[trigger] rest[a].seq_id != #[trigger] rest[b].seq_id by {
            assert(rest[a] == outs[a] && rest[b] == outs[b]);
        }
        lemma_apply_distinct_outputs(m, rest, eos_token_id);
        let prev = apply_outputs(m, rest, eos_token_id);
        let r = apply_outputs(m, outs, eos_token_id);
        assert(r == apply_output(prev, o, eos_token_id));
        assert forall|i: int| 0 <= i < rest.len() implies #[trigger] rest[i].seq_id != o.seq_id by {
            assert(rest[i] == outs[i]);
        }
        if m.contains_key(o.seq_id) {
            assert(prev[o.seq_id] == m[o.seq_id]);
        }
        assert(r.dom() =~= m.dom());
        assert forall|i: int| 0 <= i < outs.len() && m.contains_key(outs[i].seq_id)
            implies #[trigger] r[outs[i].seq_id] == advance(m[outs[i].seq_id], outs[i], eos_token_id) by {
            if i < rest.len() {
                assert(rest[i] == outs[i]);
            }
        }
        assert forall|k: RequestId| #[trigger] m.contains_key(k) && (forall|i: int| 0 <= i < outs.len() ==> #[trigger] outs[i].seq_id != k)
            implies r[k] == m[k] by {
            assert forall|i: int| 0 <= i < rest.len() implies #[trigger] rest[i].seq_id != k by {
                assert(rest[i] == outs[i]);
            }
            assert(outs[last].seq_id != k);
        }
    }
}

/// Whether the pair of an event and the set of sequences whose tasks it
/// answers can occur, with `outstanding` the unanswered tasks: a request
/// brings a new id; a step result answers, once each, some outstanding tasks;
/// an engine error answers none.
pub open spec fn admissible(
    m: Map<RequestId, SequenceView>,
    outstanding: Set<RequestId>,
    event: SchedulerEvent,
    answered: Set<RequestId>,
) -> bool {
    match event {
        SchedulerEvent::Request(req, _) => !m.contains_key(req.request_id) && answered == Set::<RequestId>::empty(),
        SchedulerEvent::Result(EngineResult::StepOutput { outputs }) => answered.subset_of(outstanding)
            && answers_once(outputs@, answered),
        SchedulerEvent::Result(EngineResult::EngineError(_)) => answered == Set::<RequestId>::empty(),
        SchedulerEvent::Shutdown => false,
    }
}

/// One turn of the scheduler's loop keeps the engine protocol, however
/// requests, results and engine errors interleave: if the unanswered tasks
/// were exactly those of the running sequences before the turn, then the
/// batch it sends holds no sequence that still has an unanswered task (at
/// most one outstanding task per sequence), the unanswered tasks are again
/// exactly those of the running sequences, and a finished or failed sequence
/// is left unchanged and is in no batch. By induction on the turns, these hold
/// for every run of the loop.
pub proof fn lemma_turn_keeps_protocol(
    m: Map<RequestId, SequenceView>,
    outstanding: Set<RequestId>,
    event: SchedulerEvent,
    answered: Set<RequestId>,
    batch: Seq<EngineTaskView>,
    eos_token_id: TokenId,
)
    requires
        keyed_by_id(m),
        outstanding_is_running(m, outstanding),
        admissible(m, outstanding, event, answered),
        has_waiting(after_event(m, event, eos_token_id)) ==> is_batch_for(
            after_event(m, event, eos_token_id),
            batch,
        ),
        !has_waiting(after_event(m, event, eos_token_id)) ==> batch.len() == 0,
    ensures
        ({
            let next = dispatch_all(after_event(m, event, eos_token_id));
            let left = outstanding.difference(answered);
            &&& keyed_by_id(next)
            &&& forall|j: int| 0 <= j < batch.len() ==> !left.contains(#[trigger] batch[j].request_id())
            &&& outstanding_is_running(next, left.union(batch_ids(batch)))
            &&& forall|k: RequestId| #[trigger] m.contains_key(k) && is_terminal(m[k]) ==> {
                &&& next.contains_key(k)
                &&& next[k] == m[k]
                &&& !batch_ids(batch).contains(k)
            }
        }),
{
    let mid = after_event(m, event, eos_token_id);
    let left = outstanding.difference(answered);
    // the event
    match event {
        SchedulerEvent::Request(req, tokens) => {
            assert(mid == m.insert(req.request_id, admitted(req, tokens@)));
            assert(answered =~= Set::<RequestId>::empty());
        },
        SchedulerEvent::Result(EngineResult::StepOutput { outputs }) => {
            lemma_apply_distinct_outputs(m, outputs@, eos_token_id);
            let outs = outputs@;
            assert forall|k: RequestId| #[trigger] m.contains_key(k) && answered.contains(k) implies !is_running(mid[k]) by {
                let i = choose|i: int| 0 <= i < outs.len() && #[trigger] outs[i].seq_id == k;
                assert(mid[outs[i].seq_id] == advance(m[k], outs[i], eos_token_id));
            }
            assert forall|k: RequestId| #[trigger] m.contains_key(k) && !answered.contains(k) implies mid[k] == m[k] by {
                assert forall|i: int| 0 <= i < outs.len() implies #[trigger] outs[i].seq_id != k by {
                    assert(answered.contains(outs[i].seq_id));
                }
            }
        },
        SchedulerEvent::Result(EngineResult::EngineError(_)) => {
            assert(answered =~= Set::<RequestId>::empty());
        },
        SchedulerEvent::Shutdown => {},
    }
    assert(keyed_by_id(mid)) by {
        match event {
            SchedulerEvent::Result(EngineResult::StepOutput { outputs }) => {
                lemma_result_keeps_requests(m, EngineResult::StepOutput { outputs }, eos_token_id);
            },
            _ => {},
        }
    }
    assert(outstanding_is_running(mid, left)) by {
        assert forall|k: RequestId| #[trigger] left.contains(k) <==> (mid.contains_key(k) && is_running(mid[k])) by {
            match event {
                SchedulerEvent::Result(EngineResult::StepOutput { outputs }) => {
                    if m.contains_key(k) && !answered.contains(k) {
                        assert(mid[k] == m[k]);
                    }
                },
                _ => {},
            }
        }
    }
    assert forall|k: RequestId| #[trigger] m.contains_key(k) && is_terminal(m[k]) implies mid.contains_key(k) && mid[k] == m[k] by {
        match event {
            SchedulerEvent::Result(EngineResult::StepOutput { outputs }) => {
                assert(!outstanding.contains(k));
                assert(!answered.contains(k));
            },
            _ => {},
        }
    }
    // the scheduling pass
    let next = dispatch_all(mid);
    assert(keyed_by_id(next));
    assert forall|j: int| 0 <= j < batch.len() implies !left.contains(#[trigger] batch[j].request_id()) by {
        assert(mid[batch[j].request_id()].state.is_waiting());
    }
    assert forall|k: RequestId| #[trigger] batch_ids(batch).contains(k) <==> (mid.contains_key(k) && mid[k].state.is_waiting()) by {
        if batch_ids(batch).contains(k) {
            let j = choose|j: int| 0 <= j < batch.len() && #[trigger] batch[j].request_id() == k;
        }
        if mid.contains_key(k) && mid[k].state.is_waiting() {
            let j = choose|j: int| 0 <= j < batch.len() && #[trigger] batch[j].request_id() == k;
            assert(batch_ids(batch).contains(k));
        }
    }
    assert forall|k: RequestId| #[trigger] left.union(batch_ids(batch)).contains(k) <==> (next.contains_key(k) && is_running(next[k])) by {
        if mid.contains_key(k) {
            assert(next[k] == dispatch(mid[k]));
        }
    }
}

/// One turn of the loop as the engine protocol sees it: the event, the
/// sequences whose tasks it answers, and the batch sent after it.
pub struct Turn {
    pub event: SchedulerEvent,
    pub answered: Set<RequestId>,
    pub batch: Seq<EngineTaskView>,
}

/// The turn can occur in a table `m` with unanswered tasks `outstanding`:
/// its event is admissible and its batch is what the scheduling pass after
/// the event sends.
pub open spec fn turn_ok(
    m: Map<RequestId, SequenceView>,
    outstanding: Set<RequestId>,
    t: Turn,
    eos_token_id: TokenId,
) -> bool {
    let mid = after_event(m, t.event, eos_token_id);
    &&& admissible(m, outstanding, t.event, t.answered)
    &&& has_waiting(mid) ==> is_batch_for(mid, t.batch)
    &&& !has_waiting(mid) ==> t.batch.len() == 0
}

/// The table after the turns.
pub open spec fn run_table(
    m: Map<RequestId, SequenceView>,
    turns: Seq<Turn>,
    eos_token_id: TokenId,
) -> Map<RequestId, SequenceView>
    decreases turns.len(),
{
    if turns.len() == 0 {
        m
    } else {
        dispatch_all(after_event(run_table(m, turns.drop_last(), eos_token_id), turns.last().event, eos_token_id))
    }
}

/// The unanswered tasks after the turns.
pub open spec fn run_outstanding(outstanding: Set<RequestId>, turns: Seq<Turn>) -> Set<RequestId>
    decreases turns.len(),
{
    if turns.len() == 0 {
        outstanding
    } else {
        run_outstanding(outstanding, turns.drop_last()).difference(turns.last().answered).union(
            batch_ids(turns.last().batch),
        )
    }
}

/// Each turn can occur in the state that the turns before it leave.
pub open spec fn valid_run(
    m: Map<RequestId, SequenceView>,
    outstanding: Set<RequestId>,
    turns: Seq<Turn>,
    eos_token_id: TokenId,
) -> bool
    decreases turns.len(),
{
    turns.len() == 0 || (valid_run(m, outstanding, turns.drop_last(), eos_token_id) && turn_ok(
        run_table(m, turns.drop_last(), eos_token_id),
        run_outstanding(outstanding, turns.drop_last()),
        turns.last(),
        eos_token_id,
    ))
}

/// Over any run of the loop that starts with the unanswered tasks exactly
/// those of the running sequences (as it does from an empty table): no batch
/// holds a sequence whose earlier task has not been answered in between; the
/// unanswered tasks stay exactly those of the running sequences; and a
/// sequence that was finished or failed is never changed and never in a batch.
pub proof fn lemma_run_keeps_protocol(
    m: Map<RequestId, SequenceView>,
    outstanding: Set<RequestId>,
    turns: Seq<Turn>,
    eos_token_id: TokenId,
)
    requires
        keyed_by_id(m),
        outstanding_is_running(m, outstanding),
        valid_run(m, outstanding, turns, eos_token_id),
    ensures
        keyed_by_id(run_table(m, turns, eos_token_id)),
        outstanding_is_running(run_table(m, turns, eos_token_id), run_outstanding(outstanding, turns)),
        forall|t: int, j: int|
            0 <= t < turns.len() && 0 <= j < turns[t].batch.len() ==> !run_outstanding(
                outstanding,
                turns.take(t),
            ).difference(turns[t].answered).contains(#[trigger] turns[t].batch[j].request_id()),
        forall|k: RequestId| #[trigger] m.contains_key(k) && is_terminal(m[k]) ==> {
            &&& run_table(m, turns, eos_token_id).contains_key(k)
            &&& run_table(m, turns, eos_token_id)[k] == m[k]
            &&& forall|t: int| 0 <= t < turns.len() ==> !#[trigger] batch_ids(turns[t].batch).contains(k)
        },
    decreases turns.len(),
{
    if turns.len() > 0 {
        let rest = turns.drop_last();
        let last = turns.len() - 1;
        let t = turns[last];
        lemma_run_keeps_protocol(m, outstanding, rest, eos_token_id);
        let m1 = run_table(m, rest, eos_token_id);
        let o1 = run_outstanding(outstanding, rest);
        lemma_turn_keeps_protocol(m1, o1, t.event, t.answered, t.batch, eos_token_id);
        assert(turns.take(last) =~= rest);
        assert forall|i: int, j: int|
            0 <= i < turns.len() && 0 <= j < turns[i].batch.len() implies !run_outstanding(
                outstanding,
                turns.take(i),
            ).difference(turns[i].answered).contains(#[trigger] turns[i].batch[j].request_id()) by {
            if i < last {
                assert(turns.take(i) =~= rest.take(i));
                assert(turns[i] == rest[i]);
                assert(0 <= j < rest[i].batch.len());
                assert(!run_outstanding(outstanding, rest.take(i)).difference(rest[i].answered).contains(
                    rest[i].batch[j].request_id(),
                ));
            }
        }
        assert forall|k: RequestId| #[trigger] m.contains_key(k) && is_terminal(m[k]) implies {
            &&& run_table(m, turns, eos_token_id).contains_key(k)
            &&& run_table(m, turns, eos_token_id)[k] == m[k]
            &&& forall|i: int| 0 <= i < turns.len() ==> !#[trigger] batch_ids(turns[i].batch).contains(k)
        } by {
            assert(m1.contains_key(k) && m1[k] == m[k]);
            assert forall|i: int| 0 <= i < turns.len() implies !#[trigger] batch_ids(turns[i].batch).contains(k) by {
                if i < last {
                    assert(turns[i] == rest[i]);
                    assert(!batch_ids(rest[i].batch).contains(k));
                }
            }
        }
    }
}

/// The table after `n` rounds of the loop driving the mock engine, each
/// round as `lemma_batch_round_advances_each_waiting` states it.
pub open spec fn rounds(
    m: Map<RequestId, SequenceView>,
    n: nat,
    eos_token_id: TokenId,
) -> Map<RequestId, SequenceView>
    decreases n,
{
    if n == 0 {
        m
    } else {
        rounds(m, (n - 1) as nat, eos_token_id).map_values(|s: SequenceView| stepped(s, eos_token_id))
    }
}

/// A sequence after `n` rounds.
pub open spec fn stepped_n(s: SequenceView, n: nat, eos_token_id: TokenId) -> SequenceView
    decreases n,
{
    if n == 0 {
        s
    } else {
        stepped(stepped_n(s, (n - 1) as nat, eos_token_id), eos_token_id)
    }
}

proof fn lemma_rounds_pointwise(m: Map<RequestId, SequenceView>, n: nat, eos_token_id: TokenId)
    ensures
        rounds(m, n, eos_token_id).dom() == m.dom(),
        forall|k: RequestId| #[trigger] m.contains_key(k) ==> rounds(m, n, eos_token_id)[k] == stepped_n(
            m[k],
            n,
            eos_token_id,
        ),
        keyed_by_id(m) ==> keyed_by_id(rounds(m, n, eos_token_id)),
    decreases n,
{
    if n > 0 {
        lemma_rounds_pointwise(m, (n - 1) as nat, eos_token_id);
        let prev = rounds(m, (n - 1) as nat, eos_token_id);
        assert(rounds(m, n, eos_token_id).dom() =~= prev.dom());
    }
}

/// In the loop driving the mock engine, with every task answered before the
/// next scheduling pass, every admitted request with `max_tokens` at least 1
/// whose end-of-sequence token is not the mock token is finished after exactly
/// `max_tokens` rounds, holding `max_tokens` tokens, and stays so; before that
/// it holds one token per round and waits for its next step. The other
/// sequences in the table do not change this.
pub proof fn lemma_request_finishes_after_max_tokens_rounds(
    m: Map<RequestId, SequenceView>,
    req: Request,
    tokens: Seq<Token>,
    n: nat,
    eos_token_id: TokenId,
)
    requires
        m.contains_key(req.request_id),
        m[req.request_id] == admitted(req, tokens),
        req.sampling_params.max_tokens >= 1,
        eos_token_id != MOCK_TOKEN_ID,
    ensures
        ({
            let s = rounds(m, n, eos_token_id)[req.request_id];
            let max = req.sampling_params.max_tokens;
            &&& rounds(m, n, eos_token_id).contains_key(req.request_id)
            &&& s.output_tokens.len() == if n < max { n as int } else { max as int }
            &&& forall|i: int| 0 <= i < s.output_tokens.len() ==> #[trigger] s.output_tokens[i] == MOCK_TOKEN_ID
            &&& s.state == if n == 0 {
                SequenceState::WaitingPrefill
            } else if n < max {
                SequenceState::WaitingDecode
            } else {
                SequenceState::Finished(FinishReason::Finished)
            }
            &&& s.request_id == req.request_id
            &&& s.sampling_params == req.sampling_params
        }),
{
    lemma_rounds_pointwise(m, n, eos_token_id);
    lemma_stepped_n_admitted(req, tokens, n, eos_token_id);
}

proof fn lemma_stepped_n_admitted(req: Request, tokens: Seq<Token>, n: nat, eos_token_id: TokenId)
    requires
        req.sampling_params.max_tokens >= 1,
        eos_token_id != MOCK_TOKEN_ID,
    ensures
        ({
            let s = stepped_n(admitted(req, tokens), n, eos_token_id);
            let max = req.sampling_params.max_tokens;
            &&& s.output_tokens.len() == if n < max { n as int } else { max as int }
            &&& forall|i: int| 0 <= i < s.output_tokens.len() ==> #[trigger] s.output_tokens[i] == MOCK_TOKEN_ID
            &&& s.state == if n == 0 {
                SequenceState::WaitingPrefill
            } else if n < max {
                SequenceState::WaitingDecode
            } else {
                SequenceState::Finished(FinishReason::Finished)
            }
            &&& s.request_id == req.request_id
            &&& s.sampling_params == req.sampling_params
        }),
    decreases n,
{
    if n > 0 {
        lemma_stepped_n_admitted(req, tokens, (n - 1) as nat, eos_token_id);
        let p = stepped_n(admitted(req, tokens), (n - 1) as nat, eos_token_id);
        let s = stepped_n(admitted(req, tokens), n, eos_token_id);
        if p.state.is_waiting() {
            let o = output_of(task_of(p));
            assert(o.token == MOCK_TOKEN_ID && o.error is None);
            assert(s.output_tokens == p.output_tokens.push(MOCK_TOKEN_ID));
        }
    }
}

} // verus!
