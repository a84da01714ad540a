use rustedvllm::engine::{Engine, MockEngine, MockTokenizer};
use rustedvllm::model::MockModel;
use rustedvllm::scheduler::{Scheduler, SchedulerAction, SchedulerEvent, Sequence};
use rustedvllm::types::{
    EngineCommand, EngineResult, EngineTask, FinishReason, KVCache, Request, RequestBatch,
    RequestState, SamplingParams, SequenceOutput, SequenceState, Token, Tokenizer,
};
use tokio::sync::mpsc;

fn new_scheduler() -> Scheduler {
    let (_request_tx, request_rx) = mpsc::channel::<Request>(16);
    let (engine_cmd_tx, _engine_cmd_rx) = mpsc::channel::<EngineCommand>(16);
    let (_engine_result_tx, engine_result_rx) = mpsc::channel::<EngineResult>(16);
    let (_shutdown_tx, shutdown_rx) = mpsc::channel::<()>(1);
    Scheduler::new(request_rx, engine_cmd_tx, engine_result_rx, shutdown_rx)
}

fn request(id: u64, max_tokens: usize) -> Request {
    Request {
        request_id: id,
        prompt: "Hi".to_string(),
        state: RequestState::Queued,
        sampling_params: SamplingParams { max_tokens },
    }
}

fn prompt_tokens() -> Vec<Token> {
    vec![Token { token_id: 7 }, Token { token_id: 8 }]
}

/// Runs the scheduler against the engine until nothing waits; gives the
/// number of rounds and the sizes of the batches.
fn drive(scheduler: &mut Scheduler, engine: &MockEngine, eos: u32, max_rounds: usize) -> Vec<usize> {
    let mut sizes = Vec::new();
    for _ in 0..max_rounds {
        let Some(tasks) = scheduler.schedule() else {
            break;
        };
        sizes.push(tasks.len());
        let batch = RequestBatch {
            batch_id: "batch".to_string(),
            created_at: std::time::Instant::now(),
            tasks,
        };
        let result = engine.execute_step(&batch);
        scheduler.handle_engine_result(result, eos);
    }
    sizes
}

fn ok(seq_id: u64, token: u32, addr: usize) -> SequenceOutput {
    SequenceOutput { seq_id, token, kv: KVCache { addr }, error: None }
}

#[test]
fn test_single_request() {
    let mock_tokenizer = MockTokenizer::new("mock_vocab");
    let model = MockModel {
        model: "mock_model".to_string(),
    };
    let engine = MockEngine::new("mock_engine", &model);
    let mut scheduler = new_scheduler();
    let eos = mock_tokenizer.eos_token_id();

    // 1. The request arrives (its prompt tokenized) and the loop reacts to it
    let req = Request {
        request_id: 0,
        prompt: "Hi".to_string(),
        state: RequestState::Queued,
        sampling_params: SamplingParams { max_tokens: 3 },
    };
    let mut action = scheduler.handle_event(SchedulerEvent::Request(req, prompt_tokens()), eos);

    // 2. The engine answers every batch until nothing is left to send
    for _ in 0..50 {
        let SchedulerAction::Dispatch(tasks) = action else {
            break;
        };
        let batch = RequestBatch {
            batch_id: "batch".to_string(),
            created_at: std::time::Instant::now(),
            tasks,
        };
        let result = engine.execute_step(&batch);
        action = scheduler.handle_event(SchedulerEvent::Result(result), eos);
    }

    // 3. Shutdown: the loop stops and hands the scheduler back
    assert!(matches!(scheduler.handle_event(SchedulerEvent::Shutdown, eos), SchedulerAction::Stop));

    // 4. Assert results
    let seq = scheduler.sequences.get(&0).expect("sequence should exist");
    assert_eq!(
        seq.output_tokens.len(),
        3,
        "should generate exactly max_tokens tokens"
    );
    assert!(
        matches!(seq.state, SequenceState::Finished(_)),
        "sequence should reach Finished state"
    );
}

#[test]
fn test_batch_request() {
    let engine = MockEngine::new("mock_engine", &MockModel { model: "mock_model".to_string() });
    let mut scheduler = new_scheduler();
    scheduler.admit_request(request(1, 2), prompt_tokens());
    scheduler.admit_request(request(2, 4), prompt_tokens());
    scheduler.admit_request(request(3, 1), prompt_tokens());
    let sizes = drive(&mut scheduler, &engine, 0, 50);
    // all three requests share the batches while they are active
    assert_eq!(sizes, vec![3, 2, 1, 1]);
    for (id, n) in [(1u64, 2usize), (2, 4), (3, 1)] {
        let seq = scheduler.sequences.get(&id).unwrap();
        assert_eq!(seq.output_tokens.len(), n);
        assert_eq!(seq.state, SequenceState::Finished(FinishReason::Finished));
    }
}

#[test]
fn from_request_starts_waiting_for_prefill() {
    let seq = Sequence::from_request(request(5, 9), prompt_tokens());
    assert_eq!(seq.request_id, 5);
    assert_eq!(seq.prompt, "Hi");
    assert_eq!(seq.sampling_params.max_tokens, 9);
    assert_eq!(seq.state, SequenceState::WaitingPrefill);
    assert_eq!(seq.input_tokens, vec![7, 8]);
    assert!(seq.output_tokens.is_empty());
    assert!(seq.kv_cache.is_none());
}

#[test]
fn to_engine_task_by_state() {
    let mut seq = Sequence::from_request(request(5, 9), prompt_tokens());
    match seq.to_engine_task() {
        EngineTask::Prefill { request_id, input_tokens } => {
            assert_eq!(request_id, 5);
            assert_eq!(input_tokens, vec![7, 8]);
        }
        EngineTask::Decode { .. } => panic!("a new sequence is prefilled"),
    }
    seq.state = SequenceState::WaitingDecode;
    match seq.to_engine_task() {
        EngineTask::Decode { request_id, input_tokens, kv } => {
            assert_eq!(request_id, 5);
            assert_eq!(input_tokens, vec![0]);
            assert_eq!(kv.addr, 0);
        }
        EngineTask::Prefill { .. } => panic!("a waiting decode is decoded"),
    }
    seq.output_tokens = vec![4, 6];
    seq.kv_cache = Some(KVCache { addr: 12 });
    match seq.to_engine_task() {
        EngineTask::Decode { input_tokens, kv, .. } => {
            assert_eq!(input_tokens, vec![6]);
            assert_eq!(kv.addr, 12);
        }
        EngineTask::Prefill { .. } => panic!("a waiting decode is decoded"),
    }
}

#[test]
fn schedule_with_nothing_waiting_gives_none() {
    let mut scheduler = new_scheduler();
    assert!(scheduler.schedule().is_none());
    scheduler.admit_request(request(1, 3), prompt_tokens());
    let tasks = scheduler.schedule().expect("one sequence waits");
    assert_eq!(tasks.len(), 1);
    assert_eq!(scheduler.sequences.get(&1).unwrap().state, SequenceState::RunningPrefill);
    // a second pass right after the first finds nothing to do
    assert!(scheduler.schedule().is_none());
    assert_eq!(scheduler.sequences.get(&1).unwrap().state, SequenceState::RunningPrefill);
}

#[test]
fn engine_error_changes_nothing() {
    let mut scheduler = new_scheduler();
    scheduler.admit_request(request(1, 3), prompt_tokens());
    scheduler.handle_engine_result(EngineResult::EngineError("boom".to_string()), 0);
    let seq = scheduler.sequences.get(&1).unwrap();
    assert_eq!(seq.state, SequenceState::WaitingPrefill);
    assert!(seq.output_tokens.is_empty());
}

#[test]
fn output_error_fails_the_sequence() {
    let mut scheduler = new_scheduler();
    scheduler.admit_request(request(1, 3), prompt_tokens());
    let out = SequenceOutput { seq_id: 1, token: 5, kv: KVCache { addr: 3 }, error: Some("prefill failed".to_string()) };
    scheduler.handle_engine_result(EngineResult::StepOutput { outputs: vec![out] }, 0);
    let seq = scheduler.sequences.get(&1).unwrap();
    assert_eq!(seq.state, SequenceState::Error);
    assert!(seq.output_tokens.is_empty());
    assert!(seq.kv_cache.is_none());
}

#[test]
fn eos_token_finishes_early() {
    let mut scheduler = new_scheduler();
    scheduler.admit_request(request(1, 10), prompt_tokens());
    scheduler.handle_engine_result(EngineResult::StepOutput { outputs: vec![ok(1, 5, 1)] }, 2);
    assert_eq!(scheduler.sequences.get(&1).unwrap().state, SequenceState::WaitingDecode);
    scheduler.handle_engine_result(EngineResult::StepOutput { outputs: vec![ok(1, 2, 1)] }, 2);
    let seq = scheduler.sequences.get(&1).unwrap();
    assert_eq!(seq.state, SequenceState::Finished(FinishReason::Finished));
    assert_eq!(seq.output_tokens, vec![5, 2]);
    assert_eq!(seq.kv_cache.unwrap().addr, 1);
}

#[test]
fn unknown_sequence_output_is_ignored() {
    let mut scheduler = new_scheduler();
    scheduler.admit_request(request(1, 3), prompt_tokens());
    scheduler.handle_engine_result(EngineResult::StepOutput { outputs: vec![ok(99, 5, 1)] }, 0);
    assert_eq!(scheduler.sequences.len(), 1);
    let seq = scheduler.sequences.get(&1).unwrap();
    assert_eq!(seq.state, SequenceState::WaitingPrefill);
    assert!(seq.output_tokens.is_empty());
}

#[test]
fn outputs_apply_in_order() {
    let mut scheduler = new_scheduler();
    scheduler.admit_request(request(1, 3), prompt_tokens());
    let outputs = vec![ok(1, 4, 10), ok(1, 5, 11), ok(1, 6, 12)];
    scheduler.handle_engine_result(EngineResult::StepOutput { outputs }, 0);
    let seq = scheduler.sequences.get(&1).unwrap();
    assert_eq!(seq.output_tokens, vec![4, 5, 6]);
    assert_eq!(seq.kv_cache.unwrap().addr, 12);
    assert_eq!(seq.state, SequenceState::Finished(FinishReason::Finished));
}

#[test]
fn max_tokens_zero_finishes_after_first_token() {
    let mut scheduler = new_scheduler();
    scheduler.admit_request(request(1, 0), prompt_tokens());
    scheduler.handle_engine_result(EngineResult::StepOutput { outputs: vec![ok(1, 4, 1)] }, 0);
    let seq = scheduler.sequences.get(&1).unwrap();
    assert_eq!(seq.output_tokens.len(), 1);
    assert_eq!(seq.state, SequenceState::Finished(FinishReason::Finished));
}

#[test]
fn readmitting_replaces_the_sequence() {
    let mut scheduler = new_scheduler();
    scheduler.admit_request(request(1, 3), prompt_tokens());
    scheduler.handle_engine_result(EngineResult::StepOutput { outputs: vec![ok(1, 4, 1)] }, 0);
    scheduler.admit_request(request(1, 5), vec![]);
    assert_eq!(scheduler.sequences.len(), 1);
    let seq = scheduler.sequences.get(&1).unwrap();
    assert_eq!(seq.state, SequenceState::WaitingPrefill);
    assert!(seq.output_tokens.is_empty());
    assert_eq!(seq.sampling_params.max_tokens, 5);
}

#[test]
fn finished_and_failed_sequences_are_not_scheduled() {
    let engine = MockEngine::new("e", &MockModel { model: "m".to_string() });
    let mut scheduler = new_scheduler();
    scheduler.admit_request(request(1, 1), prompt_tokens());
    drive(&mut scheduler, &engine, 0, 10);
    assert_eq!(scheduler.sequences.get(&1).unwrap().state, SequenceState::Finished(FinishReason::Finished));
    assert!(scheduler.schedule().is_none());
}

#[test]
fn handle_event_admits_then_schedules() {
    let engine = MockEngine::new("e", &MockModel { model: "m".to_string() });
    let mut scheduler = new_scheduler();
    let SchedulerAction::Dispatch(tasks) =
        scheduler.handle_event(SchedulerEvent::Request(request(4, 2), prompt_tokens()), 0)
    else {
        panic!("the new request is scheduled at once");
    };
    assert_eq!(tasks.len(), 1);
    assert_eq!(scheduler.sequences.get(&4).unwrap().state, SequenceState::RunningPrefill);
    let batch = RequestBatch { batch_id: "b".to_string(), created_at: std::time::Instant::now(), tasks };
    let result = engine.execute_step(&batch);
    let SchedulerAction::Dispatch(tasks) = scheduler.handle_event(SchedulerEvent::Result(result), 0)
    else {
        panic!("the sequence decodes next");
    };
    assert!(matches!(tasks[0], EngineTask::Decode { request_id: 4, .. }));
    assert_eq!(scheduler.sequences.get(&4).unwrap().state, SequenceState::RunningDecode);
    assert_eq!(scheduler.sequences.get(&4).unwrap().output_tokens, vec![33]);
}

#[test]
fn shutdown_stops_and_keeps_the_table() {
    let engine = MockEngine::new("e", &MockModel { model: "m".to_string() });
    let mut scheduler = new_scheduler();
    scheduler.admit_request(request(0, 3), prompt_tokens());
    drive(&mut scheduler, &engine, 0, 50);
    assert!(matches!(scheduler.handle_event(SchedulerEvent::Shutdown, 0), SchedulerAction::Stop));
    let seq = scheduler.sequences.get(&0).expect("sequence should exist");
    assert_eq!(seq.output_tokens.len(), 3);
    assert!(matches!(seq.state, SequenceState::Finished(_)));
}

#[test]
fn shutdown_with_work_waiting_sends_nothing() {
    let mut scheduler = new_scheduler();
    scheduler.admit_request(request(0, 3), prompt_tokens());
    assert!(matches!(scheduler.handle_event(SchedulerEvent::Shutdown, 0), SchedulerAction::Stop));
    assert_eq!(scheduler.sequences.get(&0).unwrap().state, SequenceState::WaitingPrefill);
}

#[test]
fn outstanding_task_is_not_sent_twice() {
    let engine = MockEngine::new("e", &MockModel { model: "m".to_string() });
    let mut scheduler = new_scheduler();
    let SchedulerAction::Dispatch(first) =
        scheduler.handle_event(SchedulerEvent::Request(request(1, 2), prompt_tokens()), 0)
    else {
        panic!("request 1 is scheduled");
    };
    // a second request arrives while the first batch is still at the engine
    let SchedulerAction::Dispatch(second) =
        scheduler.handle_event(SchedulerEvent::Request(request(2, 2), prompt_tokens()), 0)
    else {
        panic!("request 2 is scheduled");
    };
    assert_eq!(second.len(), 1);
    assert!(matches!(second[0], EngineTask::Prefill { request_id: 2, .. }));
    // answering the first batch makes request 1 eligible again, and only it
    let result = engine.execute_step(&RequestBatch {
        batch_id: "b".to_string(),
        created_at: std::time::Instant::now(),
        tasks: first,
    });
    let SchedulerAction::Dispatch(third) = scheduler.handle_event(SchedulerEvent::Result(result), 0)
    else {
        panic!("request 1 decodes next");
    };
    assert_eq!(third.len(), 1);
    assert!(matches!(third[0], EngineTask::Decode { request_id: 1, .. }));
}
