use http_fetch::registry::{Contract, FetchStatus};
use http_fetch::relay::{
    after_cycle, plan_response, poll_interval_secs, split_chunks, Cycle, CycleOutcome, CycleStep,
    LoopAction, Submission, CHUNK_SIZE,
};

fn relayer() -> String {
    "trusted_relayer".to_string()
}

fn submit(c: &mut Contract, s: Submission) {
    match s {
        Submission::Respond { request_id, yield_id, body } => {
            c.respond(&relayer(), request_id, yield_id, body).unwrap()
        }
        Submission::StoreChunk { request_id, data, append } => {
            c.store_response_chunk(&relayer(), request_id, data, append).unwrap()
        }
        Submission::StoreAndRespond { request_id, yield_id, data } => {
            c.store_response_chunk(&relayer(), request_id, data, false).unwrap();
            c.respond(&relayer(), request_id, yield_id, None).unwrap()
        }
    }
}

fn body_of(len: usize) -> Vec<u8> {
    (0..len).map(|i| (i % 251) as u8).collect()
}

#[test]
fn large_body_splits_and_reassembles() {
    assert_eq!(CHUNK_SIZE, 300_000);
    let body = body_of(700_000);
    let mut c = Contract::new(relayer());
    let id = c.fetch("https://x/big".to_string(), None, "a".to_string(), vec![4; 32]).unwrap();
    let plan = plan_response(id, vec![4; 32], body.clone());
    assert_eq!(plan.len(), 4);
    let sizes: Vec<(usize, bool)> = plan
        .iter()
        .filter_map(|s| match s {
            Submission::StoreChunk { data, append, .. } => Some((data.len(), *append)),
            _ => None,
        })
        .collect();
    assert_eq!(sizes, vec![(300_000, false), (300_000, true), (100_000, true)]);
    assert_eq!(
        plan[3],
        Submission::Respond { request_id: id, yield_id: vec![4; 32], body: None }
    );
    for s in plan {
        submit(&mut c, s);
    }
    let r = c.on_fetch_complete(id, FetchStatus::Completed).unwrap();
    assert_eq!(r.body, Some(body));
    assert!(c.list_requests().is_empty());
}

#[test]
fn small_body_is_one_atomic_store_and_respond() {
    let body = b"hello".to_vec();
    let plan = plan_response(3, vec![1; 32], body.clone());
    assert_eq!(
        plan,
        vec![Submission::StoreAndRespond { request_id: 3, yield_id: vec![1; 32], data: body }]
    );
    let full = body_of(CHUNK_SIZE);
    let plan = plan_response(3, vec![1; 32], full.clone());
    assert_eq!(
        plan,
        vec![Submission::StoreAndRespond { request_id: 3, yield_id: vec![1; 32], data: full }]
    );
}

#[test]
fn empty_body_goes_inline() {
    let plan = plan_response(5, vec![2; 32], Vec::new());
    assert_eq!(
        plan,
        vec![Submission::Respond { request_id: 5, yield_id: vec![2; 32], body: Some(Vec::new()) }]
    );
}

#[test]
fn one_byte_over_the_chunk_size() {
    let body = body_of(CHUNK_SIZE + 1);
    let plan = plan_response(0, vec![0; 32], body.clone());
    assert_eq!(plan.len(), 3);
    match &plan[1] {
        Submission::StoreChunk { data, append, .. } => {
            assert_eq!(data, &vec![body[CHUNK_SIZE]]);
            assert!(*append);
        }
        _ => panic!("second submission should store a chunk"),
    }
}

#[test]
fn split_chunks_exact_pieces() {
    let body: Vec<u8> = (1..=7).collect();
    assert_eq!(
        split_chunks(&body, 3),
        vec![vec![1, 2, 3], vec![4, 5, 6], vec![7]]
    );
    assert_eq!(split_chunks(&body, 7), vec![body.clone()]);
    assert_eq!(split_chunks(&body, 100), vec![body.clone()]);
    assert_eq!(split_chunks(&Vec::new(), 3), Vec::<Vec<u8>>::new());
    assert_eq!(split_chunks(&body[..6].to_vec(), 2), vec![vec![1, 2], vec![3, 4], vec![5, 6]]);
}

#[test]
fn poll_interval_default_and_minimum() {
    assert_eq!(poll_interval_secs(None), 5);
    assert_eq!(poll_interval_secs(Some(0)), 1);
    assert_eq!(poll_interval_secs(Some(1)), 1);
    assert_eq!(poll_interval_secs(Some(30)), 30);
}

#[test]
fn loop_sleeps_unless_work_was_done() {
    assert_eq!(after_cycle(CycleOutcome::Processed), LoopAction::PollNow);
    assert_eq!(after_cycle(CycleOutcome::Idle), LoopAction::SleepThenPoll);
    assert_eq!(after_cycle(CycleOutcome::Failed), LoopAction::SleepThenPoll);
}

#[test]
fn cycle_handles_in_order() {
    let mut cy = Cycle::start(3);
    assert_eq!(cy.next(), CycleStep::Handle(0));
    cy.record(true);
    assert_eq!(cy.next(), CycleStep::Handle(1));
    cy.record(true);
    assert_eq!(cy.next(), CycleStep::Handle(2));
    cy.record(true);
    assert_eq!(cy.next(), CycleStep::Finished(CycleOutcome::Processed));
}

#[test]
fn cycle_aborts_on_first_failure() {
    let mut cy = Cycle::start(3);
    assert_eq!(cy.next(), CycleStep::Handle(0));
    cy.record(false);
    assert_eq!(cy.next(), CycleStep::Finished(CycleOutcome::Failed));
}

#[test]
fn empty_cycle_is_idle() {
    let cy = Cycle::start(0);
    assert_eq!(cy.next(), CycleStep::Finished(CycleOutcome::Idle));
}
