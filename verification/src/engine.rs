use crate::model::{mock_forward, DecodeResult, MockModel, Model, ModelOutput, PrefillResult, MOCK_TOKEN_ID};
use crate::types::{
    empty_kv_cache, EngineResult, EngineTask, EngineTaskView, KVCache, RequestBatch,
    SequenceOutput, Token, TokenId, Tokenizer, Vocab,
};
use vstd::prelude::*;

verus! {

/// An engine executes one batch of tasks and reports a raw token, the cache
/// and an error for each sequence; it takes no decision on sequence state.
pub trait Engine {
    fn execute_step(&self, batch: &RequestBatch) -> EngineResult;
}

#[derive(Clone)]
pub struct MockTokenizer {
    pub vocab: Vocab,
}

/// Reads the vocabulary found at `vocab_path`; the mock reads nothing and
/// gives the empty vocabulary.
pub fn parse_vocab(vocab_path: &str) -> (v: Vocab)
    ensures
        v.is_empty_vocab(),
{
    Vocab::default()
}

impl MockTokenizer {
    pub fn new(vocab_path: &str) -> (t: Self)
        ensures
            t.vocab.is_empty_vocab(),
    {
        MockTokenizer { vocab: parse_vocab(vocab_path) }
    }
}

impl Tokenizer for MockTokenizer {
    fn eos_token_id(&self) -> (id: TokenId)
        ensures
            id == self.vocab.eos_token_id,
    {
        self.vocab.eos_token_id
    }
}

pub struct MockEngine {
    pub id: String,
    pub model: MockModel,
}

/// The views of a sequence of borrowed tasks.
pub open spec fn ref_task_views(tasks: Seq<&EngineTask>) -> Seq<EngineTaskView> {
    tasks.map_values(|t: &EngineTask| t@)
}

/// The views of a sequence of tasks.
pub open spec fn task_views(tasks: Seq<EngineTask>) -> Seq<EngineTaskView> {
    tasks.map_values(|t: EngineTask| t@)
}

/// The successful output for a sequence whose step produced `token` and `kv`.
pub open spec fn ok_output(seq_id: u64, token: TokenId, kv: KVCache) -> SequenceOutput {
    SequenceOutput { seq_id, token, kv, error: None }
}

/// What the mock engine reports for a prefill task (nothing for a decode task).
pub open spec fn prefill_output(t: EngineTaskView) -> Option<SequenceOutput> {
    match t {
        EngineTaskView::Prefill { request_id, .. } => Some(
            ok_output(request_id, MOCK_TOKEN_ID, empty_kv_cache()),
        ),
        EngineTaskView::Decode { .. } => None,
    }
}

/// What the mock engine reports for a decode task (nothing for a prefill task):
/// the decode step hands the task's cache back.
pub open spec fn decode_output(t: EngineTaskView) -> Option<SequenceOutput> {
    match t {
        EngineTaskView::Decode { request_id, kv, .. } => Some(
            ok_output(request_id, MOCK_TOKEN_ID, kv),
        ),
        EngineTaskView::Prefill { .. } => None,
    }
}

/// What the mock engine reports for one task: for a prefill task and only
/// for one, a prefill output; for a decode task and only for one, a decode
/// output. Each is a success for the task's sequence with the mock token; a
/// prefill output carries the empty cache, a decode output the task's cache.
pub proof fn lemma_task_output(t: EngineTaskView)
    ensures
        (prefill_output(t) is Some) <==> (t is Prefill),
        (decode_output(t) is Some) <==> (t is Decode),
        (prefill_output(t) matches Some(o) ==> o.seq_id == t.request_id() && o.token == MOCK_TOKEN_ID
            && o.kv == KVCache { addr: 0 } && o.error is None && output_of(t) == o),
        (decode_output(t) matches Some(o) ==> o.seq_id == t.request_id() && o.token == MOCK_TOKEN_ID
            && (t matches EngineTaskView::Decode { kv, .. } && o.kv == kv) && o.error is None
            && output_of(t) == o),
{
}

/// The outputs of the prefill tasks, in the order of the tasks.
pub open spec fn prefill_outputs(ts: Seq<EngineTaskView>) -> Seq<SequenceOutput> {
    ts.filter_map(|t: EngineTaskView| prefill_output(t))
}

/// The outputs of the decode tasks, in the order of the tasks.
pub open spec fn decode_outputs(ts: Seq<EngineTaskView>) -> Seq<SequenceOutput> {
    ts.filter_map(|t: EngineTaskView| decode_output(t))
}

/// The outputs of one step of the mock engine: all prefill outputs, then all
/// decode outputs.
pub open spec fn step_outputs(ts: Seq<EngineTaskView>) -> Seq<SequenceOutput> {
    prefill_outputs(ts) + decode_outputs(ts)
}

proof fn lemma_outputs_take_step(ts: Seq<EngineTaskView>, i: int)
    requires
        0 <= i < ts.len(),
    ensures
        prefill_outputs(ts.take(i + 1)) == prefill_outputs(ts.take(i)) + (match prefill_output(ts[i]) {
            Some(o) => seq![o],
            None => Seq::<SequenceOutput>::empty(),
        }),
        decode_outputs(ts.take(i + 1)) == decode_outputs(ts.take(i)) + (match decode_output(ts[i]) {
            Some(o) => seq![o],
            None => Seq::<SequenceOutput>::empty(),
        }),
{
    assert(ts.take(i + 1).drop_last() =~= ts.take(i));
    assert(ts.take(i + 1).last() == ts[i]);
}

proof fn lemma_outputs_push(ts: Seq<EngineTaskView>, t: EngineTaskView)
    ensures
        prefill_outputs(ts.push(t)) == prefill_outputs(ts) + (match prefill_output(t) {
            Some(o) => seq![o],
            None => Seq::<SequenceOutput>::empty(),
        }),
        decode_outputs(ts.push(t)) == decode_outputs(ts) + (match decode_output(t) {
            Some(o) => seq![o],
            None => Seq::<SequenceOutput>::empty(),
        }),
{
    assert(ts.push(t).drop_last() =~= ts);
    assert(ts.push(t).last() == t);
}

/// What the mock engine reports for any one task: the mock token for the
/// task's sequence, with an empty cache after a prefill and the task's cache
/// after a decode.
pub open spec fn output_of(t: EngineTaskView) -> SequenceOutput {
    match t {
        EngineTaskView::Prefill { request_id, .. } => ok_output(request_id, MOCK_TOKEN_ID, empty_kv_cache()),
        EngineTaskView::Decode { request_id, kv, .. } => ok_output(request_id, MOCK_TOKEN_ID, kv),
    }
}

/// No two tasks are for the same sequence.
pub open spec fn distinct_ids(ts: Seq<EngineTaskView>) -> bool {
    forall|a: int, b: int| 0 <= a < b < ts.len() ==> #[trigger] ts[a].request_id() != #[trigger] ts[b].request_id()
}

/// One step of the mock engine reports exactly one output per task, and every
/// output is a success carrying the mock token.
pub proof fn lemma_one_output_per_task(ts: Seq<EngineTaskView>)
    ensures
        step_outputs(ts).len() == ts.len(),
        forall|i: int|
            0 <= i < step_outputs(ts).len() ==> {
                &&& (#[trigger] step_outputs(ts)[i]).error is None
                &&& step_outputs(ts)[i].token == MOCK_TOKEN_ID
            },
{
    lemma_phase_counts(ts);
    let p = prefill_outputs(ts);
    let d = decode_outputs(ts);
    assert forall|i: int| 0 <= i < step_outputs(ts).len() implies {
        &&& (#[trigger] step_outputs(ts)[i]).error is None
        &&& step_outputs(ts)[i].token == MOCK_TOKEN_ID
    } by {
        if i < p.len() {
            assert(step_outputs(ts)[i] == p[i]);
        } else {
            assert(step_outputs(ts)[i] == d[i - p.len()]);
        }
    }
}

/// `ts` holds a prefill task for the sequence `id`.
pub open spec fn has_prefill_for(ts: Seq<EngineTaskView>, id: u64) -> bool {
    exists|j: int| 0 <= j < ts.len() && ts[j] is Prefill && #[trigger] ts[j].request_id() == id
}

/// `ts` holds a decode task for the sequence `id` with cache `kv`.
pub open spec fn has_decode_for(ts: Seq<EngineTaskView>, id: u64, kv: KVCache) -> bool {
    exists|j: int| 0 <= j < ts.len() && #[trigger] is_decode_with(ts[j], id, kv)
}

/// `t` is a decode task for the sequence `id` with cache `kv`.
pub open spec fn is_decode_with(t: EngineTaskView, id: u64, kv: KVCache) -> bool {
    t matches EngineTaskView::Decode { request_id, kv: c, .. } && request_id == id && c == kv
}

/// Some output of `os` answers the sequence `id` with cache `kv`.
pub open spec fn answers_with(os: Seq<SequenceOutput>, id: u64, kv: KVCache) -> bool {
    exists|i: int| 0 <= i < os.len() && #[trigger] os[i].seq_id == id && os[i].kv == kv
}

/// The cache a task hands to the engine (the empty cache for a prefill).
pub open spec fn task_cache(t: EngineTaskView) -> KVCache {
    match t {
        EngineTaskView::Prefill { .. } => KVCache { addr: 0 },
        EngineTaskView::Decode { kv, .. } => kv,
    }
}

proof fn lemma_prefill_origins(ts: Seq<EngineTaskView>)
    ensures
        forall|i: int|
            0 <= i < prefill_outputs(ts).len() ==> has_prefill_for(ts, #[trigger] prefill_outputs(ts)[i].seq_id)
                && prefill_outputs(ts)[i].kv == (KVCache { addr: 0 }),
        forall|j: int|
            0 <= j < ts.len() && ts[j] is Prefill ==> answers_with(
                prefill_outputs(ts),
                #[trigger] ts[j].request_id(),
                KVCache { addr: 0 },
            ),
    decreases ts.len(),
{
    if ts.len() > 0 {
        let rest = ts.drop_last();
        let last = ts.len() - 1;
        let t = ts[last];
        lemma_prefill_origins(rest);
        lemma_outputs_push(rest, t);
        assert(rest.push(t) =~= ts);
        let p0 = prefill_outputs(rest);
        let p = prefill_outputs(ts);
        assert forall|i: int| 0 <= i < p.len() implies has_prefill_for(ts, #[trigger] p[i].seq_id)
            && p[i].kv == (KVCache { addr: 0 }) by {
            if i < p0.len() {
                assert(p[i] == p0[i]);
                let j = choose|j: int| 0 <= j < rest.len() && rest[j] is Prefill && #[trigger] rest[j].request_id() == p0[i].seq_id;
                assert(ts[j] == rest[j]);
                assert(ts[j].request_id() == p[i].seq_id);
            } else {
                assert(ts[last].request_id() == p[i].seq_id);
            }
        }
        assert forall|j: int| 0 <= j < ts.len() && ts[j] is Prefill implies answers_with(
            p,
            #[trigger] ts[j].request_id(),
            KVCache { addr: 0 },
        ) by {
            if j < rest.len() {
                assert(ts[j] == rest[j]);
                assert(answers_with(p0, rest[j].request_id(), KVCache { addr: 0 }));
                let i = choose|i: int| 0 <= i < p0.len() && #[trigger] p0[i].seq_id == rest[j].request_id() && p0[i].kv == (KVCache { addr: 0 });
                assert(p[i] == p0[i]);
            } else {
                let i = p0.len() as int;
                assert(p[i].seq_id == t.request_id());
            }
        }
    }
}

proof fn lemma_decode_origins(ts: Seq<EngineTaskView>)
    ensures
        forall|i: int|
            0 <= i < decode_outputs(ts).len() ==> has_decode_for(
                ts,
                #[trigger] decode_outputs(ts)[i].seq_id,
                decode_outputs(ts)[i].kv,
            ),
        forall|j: int|
            0 <= j < ts.len() && ts[j] is Decode ==> answers_with(
                decode_outputs(ts),
                #[trigger] ts[j].request_id(),
                task_cache(ts[j]),
            ),
    decreases ts.len(),
{
    if ts.len() > 0 {
        let rest = ts.drop_last();
        let last = ts.len() - 1;
        let t = ts[last];
        lemma_decode_origins(rest);
        lemma_outputs_push(rest, t);
        assert(rest.push(t) =~= ts);
        let d0 = decode_outputs(rest);
        let d = decode_outputs(ts);
        assert forall|i: int| 0 <= i < d.len() implies has_decode_for(ts, #[trigger] d[i].seq_id, d[i].kv) by {
            if i < d0.len() {
                assert(d[i] == d0[i]);
                let j = choose|j: int| 0 <= j < rest.len() && #[trigger] is_decode_with(rest[j], d0[i].seq_id, d0[i].kv);
                assert(ts[j] == rest[j]);
                assert(is_decode_with(ts[j], d[i].seq_id, d[i].kv));
            } else {
                assert(is_decode_with(ts[last], d[i].seq_id, d[i].kv));
            }
        }
        assert forall|j: int| 0 <= j < ts.len() && ts[j] is Decode implies answers_with(
            d,
            #[trigger] ts[j].request_id(),
            task_cache(ts[j]),
        ) by {
            if j < rest.len() {
                assert(ts[j] == rest[j]);
                assert(answers_with(d0, rest[j].request_id(), task_cache(rest[j])));
                let i = choose|i: int| 0 <= i < d0.len() && #[trigger] d0[i].seq_id == rest[j].request_id() && d0[i].kv == task_cache(rest[j]);
                assert(d[i] == d0[i]);
            } else {
                let i = d0.len() as int;
                assert(d[i].seq_id == t.request_id());
            }
        }
    }
}

/// In one step of the mock engine over tasks for distinct sequences, every
/// task's sequence gets an output carrying the cache the task handed over
/// (the empty cache for a prefill), every output answers a task of the
/// batch, and all outputs of prefill tasks come before those of decode tasks.
pub proof fn lemma_step_answers_every_task(ts: Seq<EngineTaskView>)
    requires
        distinct_ids(ts),
    ensures
        forall|j: int|
            0 <= j < ts.len() ==> answers_with(step_outputs(ts), #[trigger] ts[j].request_id(), task_cache(ts[j])),
        forall|i: int|
            0 <= i < step_outputs(ts).len() ==> has_prefill_for(ts, #[trigger] step_outputs(ts)[i].seq_id)
                || has_decode_for(ts, step_outputs(ts)[i].seq_id, step_outputs(ts)[i].kv),
        forall|a: int, b: int|
            0 <= a < b < step_outputs(ts).len() && has_prefill_for(ts, #[trigger] step_outputs(ts)[b].seq_id)
                ==> has_prefill_for(ts, #[trigger] step_outputs(ts)[a].seq_id),
{
    lemma_prefill_origins(ts);
    lemma_decode_origins(ts);
    let p = prefill_outputs(ts);
    let d = decode_outputs(ts);
    let os = step_outputs(ts);
    assert forall|j: int| 0 <= j < ts.len() implies answers_with(os, #[trigger] ts[j].request_id(), task_cache(ts[j])) by {
        if ts[j] is Prefill {
            assert(answers_with(p, ts[j].request_id(), KVCache { addr: 0 }));
            let i = choose|i: int| 0 <= i < p.len() && #[trigger] p[i].seq_id == ts[j].request_id() && p[i].kv == (KVCache { addr: 0 });
            assert(os[i] == p[i]);
        } else {
            assert(answers_with(d, ts[j].request_id(), task_cache(ts[j])));
            let i = choose|i: int| 0 <= i < d.len() && #[trigger] d[i].seq_id == ts[j].request_id() && d[i].kv == task_cache(ts[j]);
            assert(os[p.len() + i] == d[i]);
        }
    }
    assert forall|i: int| 0 <= i < os.len() implies has_prefill_for(ts, #[trigger] os[i].seq_id)
        || has_decode_for(ts, os[i].seq_id, os[i].kv) by {
        if i < p.len() {
            assert(os[i] == p[i]);
        } else {
            assert(os[i] == d[i - p.len()]);
        }
    }
    assert forall|a: int, b: int|
        0 <= a < b < os.len() && has_prefill_for(ts, #[trigger] os[b].seq_id) implies has_prefill_for(
            ts,
            #[trigger] os[a].seq_id,
        ) by {
        if b < p.len() {
            assert(os[a] == p[a]);
        } else {
            let e = d[b - p.len()];
            assert(os[b] == e);
            assert(has_decode_for(ts, e.seq_id, e.kv));
            let j1 = choose|j: int| 0 <= j < ts.len() && ts[j] is Prefill && #[trigger] ts[j].request_id() == e.seq_id;
            let j2 = choose|j: int| 0 <= j < ts.len() && #[trigger] is_decode_with(ts[j], e.seq_id, e.kv);
            assert(ts[j2].request_id() == e.seq_id);
            if j1 < j2 {
                assert(ts[j1].request_id() != ts[j2].request_id());
            } else if j2 < j1 {
                assert(ts[j2].request_id() != ts[j1].request_id());
            }
        }
    }
}

proof fn lemma_phase_counts(ts: Seq<EngineTaskView>)
    ensures
        prefill_outputs(ts).len() + decode_outputs(ts).len() == ts.len(),
        forall|i: int|
            0 <= i < prefill_outputs(ts).len() ==> {
                &&& (#[trigger] prefill_outputs(ts)[i]).error is None
                &&& prefill_outputs(ts)[i].token == MOCK_TOKEN_ID
            },
        forall|i: int|
            0 <= i < decode_outputs(ts).len() ==> {
                &&& (#[trigger] decode_outputs(ts)[i]).error is None
                &&& decode_outputs(ts)[i].token == MOCK_TOKEN_ID
            },
    decreases ts.len(),
{
    if ts.len() > 0 {
        lemma_phase_counts(ts.drop_last());
        lemma_outputs_push(ts.drop_last(), ts.last());
        assert(ts.drop_last().push(ts.last()) =~= ts);
    }
}

/// The tokens for the given ids, in order.
fn to_tokens(ids: &Vec<TokenId>) -> (tokens: Vec<Token>)
    ensures
        tokens@.len() == ids@.len(),
        forall|i: int| 0 <= i < ids@.len() ==> #[trigger] tokens@[i].token_id == ids@[i],
{
    let mut tokens: Vec<Token> = Vec::new();
    let mut i: usize = 0;
    while i < ids.len()
        invariant
            i <= ids@.len(),
            tokens@.len() == i,
            forall|j: int| 0 <= j < i ==> #[trigger] tokens@[j].token_id == ids@[j],
        decreases ids@.len() - i,
    {
        tokens.push(Token { token_id: ids[i] });
        i = i + 1;
    }
    tokens
}

impl MockEngine {
    pub fn new(id: &str, model: &MockModel) -> (e: Self)
        ensures
            e.id@ == id@,
            e.model.model@ == model.model@,
    {
        MockEngine { id: id.to_owned(), model: MockModel { model: model.model.clone() } }
    }

    /// Runs the prefill tasks among `tasks`, one model call each, and skips
    /// the others.
    pub fn prefill(&self, tasks: &[&EngineTask]) -> (r: EngineResult)
        ensures
            r matches EngineResult::StepOutput { outputs } && outputs@ == prefill_outputs(
                ref_task_views(tasks@),
            ),
    {
        let mut outputs: Vec<SequenceOutput> = Vec::with_capacity(tasks.len());
        let ghost views = ref_task_views(tasks@);
        let mut i: usize = 0;
        while i < tasks.len()
            invariant
                i <= tasks@.len(),
                views == ref_task_views(tasks@),
                outputs@ == prefill_outputs(views.take(i as int)),
            decreases tasks@.len() - i,
        {
            proof {
                lemma_outputs_take_step(views, i as int);
            }
            let task: &EngineTask = tasks[i];
            match task {
                EngineTask::Prefill { request_id, input_tokens } => {
                    let model_output = self.model.forward(to_tokens(input_tokens), None);
                    match model_output {
                        ModelOutput::PrefillResult(PrefillResult { first_token, kv }) => {
                            outputs.push(
                                SequenceOutput {
                                    seq_id: *request_id,
                                    token: first_token.token_id,
                                    kv,
                                    error: None,
                                },
                            );
                        },
                        _ => {
                            outputs.push(
                                SequenceOutput {
                                    seq_id: *request_id,
                                    token: Token::default().token_id,
                                    kv: KVCache::default(),
                                    error: Some("prefill failed".to_owned()),
                                },
                            );
                        },
                    }
                },
                _ => {},
            }
            i = i + 1;
        }
        proof {
            assert(views.take(tasks@.len() as int) =~= views);
        }
        EngineResult::StepOutput { outputs }
    }

    /// Runs the decode tasks among `tasks`, one model call each on the last
    /// input token and the task's cache, and skips the others.
    pub fn decode(&self, tasks: &[&EngineTask]) -> (r: EngineResult)
        ensures
            r matches EngineResult::StepOutput { outputs } && outputs@ == decode_outputs(
                ref_task_views(tasks@),
            ),
    {
        let mut outputs: Vec<SequenceOutput> = Vec::with_capacity(tasks.len());
        let ghost views = ref_task_views(tasks@);
        let mut i: usize = 0;
        while i < tasks.len()
            invariant
                i <= tasks@.len(),
                views == ref_task_views(tasks@),
                outputs@ == decode_outputs(views.take(i as int)),
            decreases tasks@.len() - i,
        {
            proof {
                lemma_outputs_take_step(views, i as int);
            }
            let task: &EngineTask = tasks[i];
            match task {
                EngineTask::Decode { request_id, input_tokens, kv } => {
                    let tokens = to_tokens(input_tokens);
                    let last = if tokens.len() > 0 {
                        tokens[tokens.len() - 1]
                    } else {
                        Token::default()
                    };
                    let last_token = vec![last];
                    let model_output = self.model.forward(last_token, Some(*kv));
                    match model_output {
                        ModelOutput::DecodeResult(DecodeResult { new_token, kv }) => {
                            outputs.push(
                                SequenceOutput {
                                    seq_id: *request_id,
                                    token: new_token.token_id,
                                    kv,
                                    error: None,
                                },
                            );
                        },
                        _ => {
                            outputs.push(
                                SequenceOutput {
                                    seq_id: *request_id,
                                    token: Token::default().token_id,
                                    kv: KVCache::default(),
                                    error: Some("decode failed".to_owned()),
                                },
                            );
                        },
                    }
                },
                _ => {},
            }
            i = i + 1;
        }
        proof {
            assert(views.take(tasks@.len() as int) =~= views);
        }
        EngineResult::StepOutput { outputs }
    }
}

impl Engine for MockEngine {
    /// Splits the batch into its prefill and its decode tasks, keeping their
    /// order, runs the prefills and then the decodes, and reports all outputs.
    fn execute_step(&self, batch: &RequestBatch) -> (r: EngineResult)
        ensures
            r matches EngineResult::StepOutput { outputs } && outputs@ == step_outputs(
                task_views(batch.tasks@),
            ),
    {
        let ghost views = task_views(batch.tasks@);
        let mut prefill_tasks: Vec<&EngineTask> = Vec::new();
        let mut decode_tasks: Vec<&EngineTask> = Vec::new();
        let mut i: usize = 0;
        while i < batch.tasks.len()
            invariant
                i <= batch.tasks@.len(),
                views == task_views(batch.tasks@),
                prefill_outputs(ref_task_views(prefill_tasks@)) == prefill_outputs(
                    views.take(i as int),
                ),
                decode_outputs(ref_task_views(decode_tasks@)) == decode_outputs(
                    views.take(i as int),
                ),
            decreases batch.tasks@.len() - i,
        {
            let task: &EngineTask = &batch.tasks[i];
            proof {
                lemma_outputs_take_step(views, i as int);
            }
            let ghost old_p = prefill_tasks@;
            let ghost old_d = decode_tasks@;
            match task {
                EngineTask::Prefill { .. } => {
                    prefill_tasks.push(task);
                    proof {
                        assert(ref_task_views(prefill_tasks@) =~= ref_task_views(old_p).push(
                            task@,
                        ));
                        lemma_outputs_push(ref_task_views(old_p), task@);
                    }
                },
                EngineTask::Decode { .. } => {
                    decode_tasks.push(task);
                    proof {
                        assert(ref_task_views(decode_tasks@) =~= ref_task_views(old_d).push(
                            task@,
                        ));
                        lemma_outputs_push(ref_task_views(old_d), task@);
                    }
                },
            }
            i = i + 1;
        }
        proof {
            assert(views.take(batch.tasks@.len() as int) =~= views);
        }
        let mut outputs: Vec<SequenceOutput> = Vec::with_capacity(batch.tasks.len());
        match self.prefill(prefill_tasks.as_slice()) {
            EngineResult::StepOutput { outputs: mut o } => outputs.append(&mut o),
            EngineResult::EngineError(e) => return EngineResult::EngineError(e),
        }
        match self.decode(decode_tasks.as_slice()) {
            EngineResult::StepOutput { outputs: mut o } => outputs.append(&mut o),
            EngineResult::EngineError(e) => return EngineResult::EngineError(e),
        }
        EngineResult::StepOutput { outputs }
    }
}

} // verus!
