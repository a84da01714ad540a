use std::collections::HashMap;
use std::time::Instant;
use vstd::prelude::*;

verus! {

/// Identifier of a request, and of the sequence the scheduler keeps for it.
pub type RequestId = u64;

/// Identifier of a token in the vocabulary.
pub type TokenId = u32;

/// `std::time::Instant`, carried opaquely as the creation time of a batch.
#[verifier::external_type_specification]
#[verifier::external_body]
pub struct ExInstant(Instant);

#[derive(Debug, Clone, Copy)]
pub struct Token {
    pub token_id: TokenId,
}

impl Default for Token {
    fn default() -> (t: Self)
        ensures
            t.token_id == 0,
    {
        Token { token_id: 0 }
    }
}

#[derive(Debug, Clone, Copy, PartialEq, Eq, Structural)]
pub enum RequestState {
    Queued,
    Active,
    Finished,
    Aborted,
    Failed,
}

#[derive(Clone)]
pub struct Vocab {
    pub vocab_size: Option<u32>,
    pub vocab: HashMap<u32, String>,
    pub eos_token_id: TokenId,
}

impl Vocab {
    /// The empty vocabulary: no size, no entries, end-of-sequence token 0.
    pub open spec fn is_empty_vocab(&self) -> bool {
        &&& self.vocab_size is None
        &&& self.vocab@ == Map::<u32, String>::empty()
        &&& self.eos_token_id == 0
    }
}

impl Default for Vocab {
    fn default() -> (v: Self)
        ensures
            v.is_empty_vocab(),
    {
        Vocab { vocab_size: None, vocab: HashMap::new(), eos_token_id: 0 }
    }
}

#[derive(Debug, Clone)]
pub struct Request {
    pub request_id: RequestId,
    pub prompt: String,
    pub state: RequestState,
    pub sampling_params: SamplingParams,
}

#[derive(Debug)]
pub struct RequestBatch {
    pub batch_id: String,
    pub created_at: Instant,
    pub tasks: Vec<EngineTask>,
}

#[derive(Debug, Clone, Copy)]
pub struct SamplingParams {
    pub max_tokens: usize,
}

impl Default for SamplingParams {
    fn default() -> (p: Self)
        ensures
            p.max_tokens == 0,
    {
        SamplingParams { max_tokens: 0 }
    }
}

#[derive(Debug, Clone, Copy, PartialEq, Eq, Structural)]
pub struct KVCache {
    pub addr: usize,
}

impl Default for KVCache {
    fn default() -> (kv: Self)
        ensures
            kv == empty_kv_cache(),
    {
        KVCache { addr: 0 }
    }
}

/// The cache handle that `KVCache::default` gives.
pub open spec fn empty_kv_cache() -> KVCache {
    KVCache { addr: 0 }
}

#[derive(Debug, Clone, Copy, PartialEq, Eq, Structural)]
pub enum FinishReason {
    Finished,
    Error,
}

/// What the scheduler needs of a tokenizer beyond turning text into tokens.
pub trait Tokenizer {
    fn eos_token_id(&self) -> TokenId;
}

#[derive(Debug, Clone, Copy, PartialEq, Eq, Structural)]
pub enum SequenceState {
    // Scheduler
    WaitingPrefill,
    WaitingDecode,
    // Engine
    RunningPrefill,
    RunningDecode,
    // Lifecycle end
    Finished(FinishReason),
    Error,
}

impl SequenceState {
    /// Waiting for the scheduler to put the sequence into a batch.
    pub open spec fn is_waiting(self) -> bool {
        self is WaitingPrefill || self is WaitingDecode
    }

    /// The state a waiting sequence moves to once it is put into a batch.
    pub open spec fn dispatched(self) -> SequenceState {
        match self {
            SequenceState::WaitingPrefill => SequenceState::RunningPrefill,
            SequenceState::WaitingDecode => SequenceState::RunningDecode,
            other => other,
        }
    }

    /// Exec form of `is_waiting`.
    pub fn waiting(&self) -> (b: bool)
        ensures
            b == self.is_waiting(),
    {
        match self {
            SequenceState::WaitingPrefill => true,
            SequenceState::WaitingDecode => true,
            _ => false,
        }
    }
}

impl Default for SequenceState {
    fn default() -> (s: Self)
        ensures
            s == SequenceState::WaitingPrefill,
    {
        SequenceState::WaitingPrefill
    }
}

#[derive(Debug)]
pub enum EngineTask {
    Prefill { request_id: RequestId, input_tokens: Vec<TokenId> },
    Decode { request_id: RequestId, input_tokens: Vec<TokenId>, kv: KVCache },
}

/// Mathematical form of an `EngineTask`.
pub enum EngineTaskView {
    Prefill { request_id: RequestId, input_tokens: Seq<TokenId> },
    Decode { request_id: RequestId, input_tokens: Seq<TokenId>, kv: KVCache },
}

impl EngineTaskView {
    pub open spec fn request_id(self) -> RequestId {
        match self {
            EngineTaskView::Prefill { request_id, .. } => request_id,
            EngineTaskView::Decode { request_id, .. } => request_id,
        }
    }
}

impl View for EngineTask {
    type V = EngineTaskView;

    open spec fn view(&self) -> EngineTaskView {
        match self {
            EngineTask::Prefill { request_id, input_tokens } => EngineTaskView::Prefill {
                request_id: *request_id,
                input_tokens: input_tokens@,
            },
            EngineTask::Decode { request_id, input_tokens, kv } => EngineTaskView::Decode {
                request_id: *request_id,
                input_tokens: input_tokens@,
                kv: *kv,
            },
        }
    }
}

#[derive(Debug)]
pub struct SequenceOutput {
    pub seq_id: RequestId,
    pub token: TokenId,
    pub kv: KVCache,
    pub error: Option<String>,
}

#[derive(Debug)]
pub enum EngineCommand {
    ExecuteStep(RequestBatch),
    Shutdown,
}

#[derive(Debug)]
pub enum EngineResult {
    StepOutput { outputs: Vec<SequenceOutput> },
    EngineError(String),
}

} // verus!
