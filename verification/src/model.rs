use crate::types::{KVCache, Token, TokenId};
use vstd::prelude::*;

verus! {

#[derive(Debug, Clone, Copy)]
pub struct PrefillResult {
    pub first_token: Token,
    pub kv: KVCache,
}

#[derive(Debug, Clone, Copy)]
pub struct DecodeResult {
    pub new_token: Token,
    pub kv: KVCache,
}

#[derive(Debug, Clone, Copy)]
pub enum ModelOutput {
    PrefillResult(PrefillResult),
    DecodeResult(DecodeResult),
}

/// A language model run one step at a time: without a cache the call is a
/// prefill of the prompt, with a cache it decodes the next token.
pub trait Model {
    fn forward(&self, input_ids: Vec<Token>, kv: Option<KVCache>) -> ModelOutput;
}

/// The token that the mock model produces at every step.
pub const MOCK_TOKEN_ID: TokenId = 33;

#[derive(Clone)]
pub struct MockModel {
    pub model: String,
}

/// What `MockModel::forward` returns: whatever the input, the mock token;
/// a prefill starts from an empty cache, a decode hands the cache back.
pub open spec fn mock_forward(kv: Option<KVCache>) -> ModelOutput {
    match kv {
        Some(cache) => ModelOutput::DecodeResult(
            DecodeResult { new_token: Token { token_id: MOCK_TOKEN_ID }, kv: cache },
        ),
        None => ModelOutput::PrefillResult(
            PrefillResult {
                first_token: Token { token_id: MOCK_TOKEN_ID },
                kv: crate::types::empty_kv_cache(),
            },
        ),
    }
}

/// The mock model decodes exactly when it is given a cache: it then hands
/// that same cache back; without one it prefills and starts the empty cache.
/// Either way its token is the mock token.
pub proof fn lemma_forward_decodes_exactly_with_cache(kv: Option<KVCache>)
    ensures
        (kv is Some) <==> (mock_forward(kv) is DecodeResult),
        (mock_forward(kv) matches ModelOutput::DecodeResult(d) ==> kv == Some(d.kv)
            && d.new_token.token_id == MOCK_TOKEN_ID),
        (mock_forward(kv) matches ModelOutput::PrefillResult(p) ==> p.kv == KVCache { addr: 0 }
            && p.first_token.token_id == MOCK_TOKEN_ID),
{
}

impl Model for MockModel {
    fn forward(&self, input_ids: Vec<Token>, kv: Option<KVCache>) -> (out: ModelOutput)
        ensures
            out == mock_forward(kv),
    {
        let token = Token { token_id: MOCK_TOKEN_ID };
        if let Some(kv_cache) = kv {
            return ModelOutput::DecodeResult(DecodeResult { new_token: token, kv: kv_cache });
        }
        ModelOutput::PrefillResult(PrefillResult { first_token: token, kv: KVCache::default() })
    }
}

} // verus!
