use rustedvllm::engine::{parse_vocab, Engine, MockEngine, MockTokenizer};
use rustedvllm::model::{MockModel, Model, ModelOutput, MOCK_TOKEN_ID};
use rustedvllm::types::{
    EngineResult, EngineTask, KVCache, RequestBatch, SamplingParams, SequenceState, Token,
    Tokenizer,
};

fn batch_of(tasks: Vec<EngineTask>) -> RequestBatch {
    RequestBatch {
        batch_id: "test-1".to_string(),
        created_at: std::time::Instant::now(),
        tasks,
    }
}

#[test]
fn test_prefill_batch() {
    let model = "MockModel".to_string();
    let mock_model = MockModel {
        model: model.clone(),
    };

    let mock_engine = MockEngine {
        id: model.clone(),
        model: mock_model.clone(),
    };

    let batch = batch_of(vec![
        EngineTask::Prefill {
            request_id: 1,
            input_tokens: vec![1, 2, 3],
        },
        EngineTask::Prefill {
            request_id: 2,
            input_tokens: vec![3, 2, 4],
        },
        EngineTask::Prefill {
            request_id: 3,
            input_tokens: vec![2, 2, 5],
        },
    ]);

    let result = mock_engine.execute_step(&batch);

    assert!(matches!(result, EngineResult::StepOutput { .. }));
    let EngineResult::StepOutput { outputs } = result else {
        panic!("Expected StepOutput, got {:?}", result);
    };

    assert_eq!(outputs.len(), 3);
    assert!(outputs.iter().all(|o| o.error.is_none()));
    assert!(outputs.iter().all(|o| o.token == 33));
}

#[test]
fn mixed_batch_reports_prefills_first_then_decodes() {
    let engine = MockEngine::new("engine", &MockModel { model: "m".to_string() });
    let batch = batch_of(vec![
        EngineTask::Decode { request_id: 10, input_tokens: vec![5], kv: KVCache { addr: 77 } },
        EngineTask::Prefill { request_id: 11, input_tokens: vec![1, 2] },
        EngineTask::Decode { request_id: 12, input_tokens: vec![], kv: KVCache { addr: 5 } },
        EngineTask::Prefill { request_id: 13, input_tokens: vec![] },
    ]);
    let EngineResult::StepOutput { outputs } = engine.execute_step(&batch) else {
        panic!("the mock engine never fails");
    };
    let ids: Vec<u64> = outputs.iter().map(|o| o.seq_id).collect();
    assert_eq!(ids, vec![11, 13, 10, 12]);
    // a prefill starts an empty cache; a decode hands its cache back
    let kvs: Vec<usize> = outputs.iter().map(|o| o.kv.addr).collect();
    assert_eq!(kvs, vec![0, 0, 77, 5]);
    assert!(outputs.iter().all(|o| o.token == MOCK_TOKEN_ID && o.error.is_none()));
}

#[test]
fn empty_batch_gives_no_outputs() {
    let engine = MockEngine::new("engine", &MockModel { model: "m".to_string() });
    let EngineResult::StepOutput { outputs } = engine.execute_step(&batch_of(vec![])) else {
        panic!("the mock engine never fails");
    };
    assert!(outputs.is_empty());
}

#[test]
fn prefill_and_decode_skip_the_other_phase() {
    let engine = MockEngine::new("engine", &MockModel { model: "m".to_string() });
    let p = EngineTask::Prefill { request_id: 1, input_tokens: vec![4] };
    let d = EngineTask::Decode { request_id: 2, input_tokens: vec![4], kv: KVCache { addr: 9 } };
    let EngineResult::StepOutput { outputs } = engine.prefill(&[&p, &d]) else {
        panic!("prefill never fails");
    };
    assert_eq!(outputs.len(), 1);
    assert_eq!(outputs[0].seq_id, 1);
    let EngineResult::StepOutput { outputs } = engine.decode(&[&p, &d]) else {
        panic!("decode never fails");
    };
    assert_eq!(outputs.len(), 1);
    assert_eq!(outputs[0].seq_id, 2);
    assert_eq!(outputs[0].kv.addr, 9);
}

#[test]
fn mock_model_forward_prefills_and_decodes() {
    let model = MockModel { model: "m".to_string() };
    match model.forward(vec![Token { token_id: 1 }], None) {
        ModelOutput::PrefillResult(r) => {
            assert_eq!(r.first_token.token_id, 33);
            assert_eq!(r.kv.addr, 0);
        }
        ModelOutput::DecodeResult(_) => panic!("no cache means a prefill"),
    }
    match model.forward(vec![], Some(KVCache { addr: 42 })) {
        ModelOutput::DecodeResult(r) => {
            assert_eq!(r.new_token.token_id, 33);
            assert_eq!(r.kv.addr, 42);
        }
        ModelOutput::PrefillResult(_) => panic!("a cache means a decode"),
    }
}

#[test]
fn mock_engine_new_copies_id_and_model() {
    let model = MockModel { model: "mock_model".to_string() };
    let engine = MockEngine::new("mock_engine", &model);
    assert_eq!(engine.id, "mock_engine");
    assert_eq!(engine.model.model, "mock_model");
}

#[test]
fn mock_tokenizer_has_the_empty_vocabulary() {
    let t = MockTokenizer::new("mock_vocab");
    assert!(t.vocab.vocab_size.is_none());
    assert!(t.vocab.vocab.is_empty());
    assert_eq!(t.eos_token_id(), 0);
    let v = parse_vocab("anything");
    assert!(v.vocab.is_empty() && v.vocab_size.is_none() && v.eos_token_id == 0);
}

#[test]
fn defaults() {
    assert_eq!(Token::default().token_id, 0);
    assert_eq!(KVCache::default().addr, 0);
    assert_eq!(SamplingParams::default().max_tokens, 0);
    assert_eq!(SequenceState::default(), SequenceState::WaitingPrefill);
}
