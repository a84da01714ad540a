//! What each operation of the scheduler does to one sequence, stated over all
//! inputs in terms of the fields of its inputs and results.

use crate::lifecycle::lemma_apply_distinct_outputs;
use crate::scheduler::{
    admitted, after_event, apply_output, apply_outputs, dispatch, is_batch_for, task_of,
    SchedulerEvent, SequenceView,
};
use crate::types::{
    EngineResult, EngineTaskView, FinishReason, KVCache, Request, RequestId, SequenceOutput, SequenceState, Token,
    TokenId,
};
use vstd::prelude::*;

verus! {

/// `s` is the sequence a request starts as: its id, prompt and parameters,
/// waiting for its prefill, its input the ids of the prompt's tokens in order,
/// nothing generated and no cache.
pub open spec fn starts_request(s: SequenceView, req: Request, tokens: Seq<Token>) -> bool {
    &&& s.request_id == req.request_id
    &&& s.prompt == req.prompt@
    &&& s.sampling_params == req.sampling_params
    &&& s.state == SequenceState::WaitingPrefill
    &&& s.input_tokens.len() == tokens.len()
    &&& forall|i: int| 0 <= i < tokens.len() ==> #[trigger] s.input_tokens[i] == tokens[i].token_id
    &&& s.output_tokens.len() == 0
    &&& s.kv_cache is None
}

/// A request becomes the sequence that holds its prompt's tokens.
pub proof fn lemma_admitted_holds_prompt(req: Request, tokens: Seq<Token>)
    ensures
        starts_request(admitted(req, tokens), req, tokens),
{
}

/// A request event files the request's new sequence, holding its prompt's
/// tokens, under its id, and leaves every other sequence as it was.
pub proof fn lemma_request_event_files_prompt(
    m: Map<RequestId, SequenceView>,
    req: Request,
    tokens: Vec<Token>,
    eos_token_id: TokenId,
)
    ensures
        ({
            let r = after_event(m, SchedulerEvent::Request(req, tokens), eos_token_id);
            &&& r.dom() == m.dom().insert(req.request_id)
            &&& starts_request(r[req.request_id], req, tokens@)
            &&& forall|k: RequestId| #[trigger] m.contains_key(k) && k != req.request_id ==> r[k] == m[k]
        }),
{
    let r = after_event(m, SchedulerEvent::Request(req, tokens), eos_token_id);
    assert(r.dom() =~= m.dom().insert(req.request_id));
}

/// The batch scheduled right after a request event holds a prefill of that
/// request with exactly the ids of its prompt's tokens, in order.
pub proof fn lemma_request_event_batches_prompt(
    m: Map<RequestId, SequenceView>,
    req: Request,
    tokens: Vec<Token>,
    eos_token_id: TokenId,
    batch: Seq<EngineTaskView>,
)
    requires
        is_batch_for(after_event(m, SchedulerEvent::Request(req, tokens), eos_token_id), batch),
    ensures
        exists|j: int|
            0 <= j < batch.len() && #[trigger] batch[j].request_id() == req.request_id && prefills(
                batch[j],
                req.request_id,
                after_event(m, SchedulerEvent::Request(req, tokens), eos_token_id)[req.request_id].input_tokens,
            ),
        starts_request(
            after_event(m, SchedulerEvent::Request(req, tokens), eos_token_id)[req.request_id],
            req,
            tokens@,
        ),
{
    let r = after_event(m, SchedulerEvent::Request(req, tokens), eos_token_id);
    lemma_request_event_files_prompt(m, req, tokens, eos_token_id);
    let id = req.request_id;
    assert(r.contains_key(id) && r[id].state.is_waiting());
    let j = choose|j: int| 0 <= j < batch.len() && #[trigger] batch[j].request_id() == id;
    lemma_task_of_waiting(r[id]);
    assert(batch[j] == task_of(r[id]));
}

/// The last generated token of `s`, or 0 if it has generated none.
pub open spec fn last_token_or_zero(s: SequenceView) -> TokenId {
    if s.output_tokens.len() == 0 {
        0
    } else {
        s.output_tokens[s.output_tokens.len() - 1]
    }
}

/// The cache of `s`, or the empty cache if it has none.
pub open spec fn cache_or_empty(s: SequenceView) -> KVCache {
    match s.kv_cache {
        Some(c) => c,
        None => KVCache { addr: 0 },
    }
}

/// `t` prefills the sequence `id` with exactly the input `input`.
pub open spec fn prefills(t: EngineTaskView, id: RequestId, input: Seq<TokenId>) -> bool {
    t matches EngineTaskView::Prefill { request_id, input_tokens } && request_id == id
        && input_tokens == input
}

/// `t` decodes the sequence `id` from the one token `token` with cache `cache`.
pub open spec fn decodes(t: EngineTaskView, id: RequestId, token: TokenId, cache: KVCache) -> bool {
    t matches EngineTaskView::Decode { request_id, input_tokens, kv } && request_id == id
        && input_tokens.len() == 1 && input_tokens[0] == token && kv == cache
}

/// The task of a waiting sequence: a sequence waiting for its prefill is
/// prefilled with its whole input; a sequence waiting for a decode step is
/// decoded from its last generated token (0 if it has none) with its cache
/// (the empty cache if it has none).
pub proof fn lemma_task_of_waiting(s: SequenceView)
    requires
        s.state.is_waiting(),
    ensures
        s.state is WaitingPrefill ==> prefills(task_of(s), s.request_id, s.input_tokens),
        s.state is WaitingDecode ==> decodes(
            task_of(s),
            s.request_id,
            last_token_or_zero(s),
            cache_or_empty(s),
        ),
{
}

/// `b` is `a` after the engine's output `o`: same request, prompt, parameters
/// and input; on an error, failed with its tokens and cache kept; on success,
/// the token appended, the engine's cache kept, and finished exactly when the
/// token is the end-of-sequence token or it now holds at least `max_tokens`
/// tokens, waiting for a decode step otherwise.
pub open spec fn updated_by_output(
    a: SequenceView,
    b: SequenceView,
    o: SequenceOutput,
    eos_token_id: TokenId,
) -> bool {
    &&& b.request_id == a.request_id
    &&& b.prompt == a.prompt
    &&& b.sampling_params == a.sampling_params
    &&& b.input_tokens == a.input_tokens
    &&& o.error is Some ==> {
        &&& b.state == SequenceState::Error
        &&& b.output_tokens == a.output_tokens
        &&& b.kv_cache == a.kv_cache
    }
    &&& o.error is None ==> {
        &&& b.output_tokens.len() == a.output_tokens.len() + 1
        &&& b.output_tokens.subrange(0, a.output_tokens.len() as int) == a.output_tokens
        &&& b.output_tokens[a.output_tokens.len() as int] == o.token
        &&& b.kv_cache == Some(o.kv)
        &&& (b.state == SequenceState::Finished(FinishReason::Finished) <==> (o.token == eos_token_id
            || a.output_tokens.len() + 1 >= a.sampling_params.max_tokens))
        &&& (b.state != SequenceState::Finished(FinishReason::Finished) ==> b.state
            == SequenceState::WaitingDecode)
    }
}

/// What one output of the engine does to the table: the sequence it names is
/// updated by it, and every other sequence is left as it was.
pub proof fn lemma_output_updates_its_sequence(
    m: Map<RequestId, SequenceView>,
    o: SequenceOutput,
    eos_token_id: TokenId,
)
    ensures
        apply_output(m, o, eos_token_id).dom() == m.dom(),
        forall|k: RequestId| #[trigger] m.contains_key(k) && k != o.seq_id
            ==> apply_output(m, o, eos_token_id)[k] == m[k],
        m.contains_key(o.seq_id) ==> updated_by_output(
            m[o.seq_id],
            apply_output(m, o, eos_token_id)[o.seq_id],
            o,
            eos_token_id,
        ),
{
    let r = apply_output(m, o, eos_token_id);
    assert(r.dom() =~= m.dom());
    if m.contains_key(o.seq_id) && o.error is None {
        let a = m[o.seq_id];
        let b = r[o.seq_id];
        assert(b.output_tokens.subrange(0, a.output_tokens.len() as int) =~= a.output_tokens);
    }
}

/// What an engine result does to the table: an engine error changes
/// nothing; a step's outputs, when they name distinct sequences, update each
/// sequence they name by its own output and leave every other sequence as it
/// was.
pub proof fn lemma_result_event_updates_named(
    m: Map<RequestId, SequenceView>,
    r: EngineResult,
    eos_token_id: TokenId,
)
    ensures
        r is EngineError ==> after_event(m, SchedulerEvent::Result(r), eos_token_id) == m,
        after_event(m, SchedulerEvent::Shutdown, eos_token_id) == m,
        (r matches EngineResult::StepOutput { outputs } ==> {
            let outs = outputs@;
            let t = after_event(m, SchedulerEvent::Result(r), eos_token_id);
            (forall|a: int, b: int|
                0 <= a < b < outs.len() ==> #[trigger] outs[a].seq_id != #[trigger] outs[b].seq_id) ==> {
                &&& t.dom() == m.dom()
                &&& forall|i: int|
                    0 <= i < outs.len() && m.contains_key(outs[i].seq_id) ==> updated_by_output(
                        m[outs[i].seq_id],
                        #[trigger] t[outs[i].seq_id],
                        outs[i],
                        eos_token_id,
                    )
                &&& forall|k: RequestId|
                    #[trigger] m.contains_key(k) && (forall|i: int|
                        0 <= i < outs.len() ==> #[trigger] outs[i].seq_id != k) ==> t[k] == m[k]
            }
        }),
{
    match r {
        EngineResult::StepOutput { outputs } => {
            let outs = outputs@;
            if forall|a: int, b: int|
                0 <= a < b < outs.len() ==> #[trigger] outs[a].seq_id != #[trigger] outs[b].seq_id {
                lemma_apply_distinct_outputs(m, outs, eos_token_id);
                let t = apply_outputs(m, outs, eos_token_id);
                assert forall|i: int|
                    0 <= i < outs.len() && m.contains_key(outs[i].seq_id) implies updated_by_output(
                        m[outs[i].seq_id],
                        #[trigger] t[outs[i].seq_id],
                        outs[i],
                        eos_token_id,
                    ) by {
                    let single = Map::<RequestId, SequenceView>::empty().insert(
                        outs[i].seq_id,
                        m[outs[i].seq_id],
                    );
                    lemma_output_updates_its_sequence(single, outs[i], eos_token_id);
                    assert(apply_output(single, outs[i], eos_token_id)[outs[i].seq_id] == t[outs[i].seq_id]);
                }
            }
        },
        EngineResult::EngineError(_) => {},
    }
}

/// A step's outputs are applied one after the other, in order: none leaves
/// the table as it is, one is applied on its own, and a sequence of outputs
/// split in two is the first part applied, then the second.
pub proof fn lemma_outputs_apply_in_order(
    m: Map<RequestId, SequenceView>,
    a: Seq<SequenceOutput>,
    b: Seq<SequenceOutput>,
    o: SequenceOutput,
    eos_token_id: TokenId,
)
    ensures
        apply_outputs(m, Seq::empty(), eos_token_id) == m,
        apply_outputs(m, seq![o], eos_token_id) == apply_output(m, o, eos_token_id),
        apply_outputs(m, a + b, eos_token_id) == apply_outputs(
            apply_outputs(m, a, eos_token_id),
            b,
            eos_token_id,
        ),
{
    assert(seq![o].drop_last() =~= Seq::<SequenceOutput>::empty());
    assert(apply_outputs(m, seq![o].drop_last(), eos_token_id) == m);
    lemma_concat(m, a, b, eos_token_id);
}

proof fn lemma_concat(
    m: Map<RequestId, SequenceView>,
    a: Seq<SequenceOutput>,
    b: Seq<SequenceOutput>,
    eos_token_id: TokenId,
)
    ensures
        apply_outputs(m, a + b, eos_token_id) == apply_outputs(
            apply_outputs(m, a, eos_token_id),
            b,
            eos_token_id,
        ),
    decreases b.len(),
{
    if b.len() == 0 {
        assert(a + b =~= a);
    } else {
        lemma_concat(m, a, b.drop_last(), eos_token_id);
        assert((a + b).drop_last() =~= a + b.drop_last());
        assert((a + b).last() == b.last());
    }
}

/// Putting a sequence into a batch moves it from waiting for a prefill to
/// running one, and from waiting for a decode step to running one; it changes
/// nothing else, and a sequence that was not waiting is left as it was.
pub proof fn lemma_dispatch_moves_waiting_to_running(s: SequenceView)
    ensures
        s.state.is_waiting() <==> (s.state is WaitingPrefill || s.state is WaitingDecode),
        s.state is WaitingPrefill ==> dispatch(s).state is RunningPrefill,
        s.state is WaitingDecode ==> dispatch(s).state is RunningDecode,
        !s.state.is_waiting() ==> dispatch(s) == s,
        dispatch(s).request_id == s.request_id,
        dispatch(s).prompt == s.prompt,
        dispatch(s).sampling_params == s.sampling_params,
        dispatch(s).input_tokens == s.input_tokens,
        dispatch(s).output_tokens == s.output_tokens,
        dispatch(s).kv_cache == s.kv_cache,
{
}

} // verus!
