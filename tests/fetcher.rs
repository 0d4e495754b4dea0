use http_fetch::registry::{Contract, FetchError, FetchStatus, PendingRequest};

fn relayer() -> String {
    "trusted_relayer".to_string()
}

fn token(n: u8) -> Vec<u8> {
    vec![n; 32]
}

#[test]
fn fetcher_yield_resume_flow() {
    let mut fetcher = Contract::new(relayer());
    let caller = "fetcher_account".to_string();
    let id = fetcher
        .fetch("https://example.com/data".to_string(), None, caller.clone(), token(7))
        .unwrap();

    let pending = fetcher.list_requests()[0].clone();
    assert_eq!(pending.request_id, id);

    let response_payload = br#"{"status":"ok"}"#.to_vec();
    fetcher
        .store_response_chunk(&relayer(), pending.request_id, response_payload.clone(), false)
        .unwrap();
    fetcher
        .respond(&relayer(), pending.request_id, pending.yield_id.clone(), None)
        .unwrap();

    let fetch_result = fetcher
        .on_fetch_complete(pending.request_id, FetchStatus::Completed)
        .unwrap();
    match fetch_result.status {
        FetchStatus::Completed => (),
        FetchStatus::TimedOut => panic!("fetch unexpectedly timed out"),
    }
    let body_bytes = fetch_result
        .body
        .as_ref()
        .expect("body should be present in completed result");
    assert_eq!(body_bytes, &response_payload);
    assert_eq!(fetch_result.request_id, pending.request_id);
    assert_eq!(fetch_result.url, pending.url);
    assert_eq!(fetch_result.caller, caller);

    let remaining = fetcher.list_requests();
    assert!(remaining.is_empty(), "requests should be cleared after resume");
}

#[test]
fn scenario_stage_two_chunks_then_respond() {
    let mut c = Contract::new(relayer());
    let a = "alice".to_string();
    let id = c.fetch("https://x/y".to_string(), None, a.clone(), token(0)).unwrap();
    assert_eq!(id, 0);
    assert_eq!(
        c.list_requests(),
        vec![PendingRequest {
            request_id: 0,
            url: "https://x/y".to_string(),
            caller: a.clone(),
            context: None,
            yield_id: token(0),
        }]
    );
    c.store_response_chunk(&relayer(), 0, b"ab".to_vec(), false).unwrap();
    c.store_response_chunk(&relayer(), 0, b"cd".to_vec(), true).unwrap();
    assert_eq!(c.respond(&relayer(), 0, token(0), None), Ok(()));
    let r = c.on_fetch_complete(0, FetchStatus::Completed).unwrap();
    assert_eq!(r.status, FetchStatus::Completed);
    assert_eq!(r.body, Some(b"abcd".to_vec()));
    assert!(c.list_requests().is_empty());
}

#[test]
fn scenario_respond_without_staged_body() {
    let mut c = Contract::new(relayer());
    let id = c.fetch("https://x/y".to_string(), Some(vec![1, 2]), "bob".to_string(), token(3)).unwrap();
    let before = c.list_requests();
    assert_eq!(c.respond(&relayer(), id, token(3), None), Err(FetchError::NoBody));
    assert_eq!(c.list_requests(), before);
}

#[test]
fn empty_staged_body_is_no_body() {
    let mut c = Contract::new(relayer());
    let id = c.fetch("u".to_string(), None, "bob".to_string(), token(3)).unwrap();
    c.store_response_chunk(&relayer(), id, Vec::new(), false).unwrap();
    assert_eq!(c.respond(&relayer(), id, token(3), None), Err(FetchError::NoBody));
    assert_eq!(c.list_requests().len(), 1);
}

#[test]
fn ids_increase_across_cycles() {
    let mut c = Contract::new(relayer());
    let mut last: Option<u64> = None;
    for round in 0..20u8 {
        let id = c.fetch(format!("https://x/{}", round), None, "a".to_string(), token(round)).unwrap();
        if let Some(prev) = last {
            assert!(id > prev);
        }
        assert_eq!(id, round as u64);
        last = Some(id);
        if round % 2 == 0 {
            c.respond(&relayer(), id, token(round), Some(vec![round])).unwrap();
            c.on_fetch_complete(id, FetchStatus::Completed).unwrap();
        } else {
            c.on_fetch_complete(id, FetchStatus::TimedOut).unwrap();
        }
    }
    assert!(c.list_requests().is_empty());
    assert_eq!(c.fetch("z".to_string(), None, "a".to_string(), token(0)), Ok(20));
}

#[test]
fn list_is_in_id_order() {
    let mut c = Contract::new(relayer());
    for i in 0..4u8 {
        c.fetch(format!("u{}", i), None, "a".to_string(), token(i)).unwrap();
    }
    c.on_fetch_complete(1, FetchStatus::TimedOut).unwrap();
    let ids: Vec<u64> = c.list_requests().iter().map(|r| r.request_id).collect();
    assert_eq!(ids, vec![0, 2, 3]);
}

#[test]
fn mismatched_token_changes_nothing() {
    let mut c = Contract::new(relayer());
    let id = c.fetch("u".to_string(), None, "a".to_string(), token(1)).unwrap();
    c.store_response_chunk(&relayer(), id, b"xy".to_vec(), false).unwrap();
    let before = c.list_requests();
    assert_eq!(
        c.respond(&relayer(), id, token(2), Some(b"zz".to_vec())),
        Err(FetchError::TokenMismatch)
    );
    assert_eq!(c.respond(&relayer(), id, vec![1; 5], None), Err(FetchError::TokenMismatch));
    assert_eq!(c.list_requests(), before);
    c.respond(&relayer(), id, token(1), None).unwrap();
    let r = c.on_fetch_complete(id, FetchStatus::Completed).unwrap();
    assert_eq!(r.body, Some(b"xy".to_vec()));
}

#[test]
fn unknown_id_is_not_found() {
    let mut c = Contract::new(relayer());
    assert_eq!(c.respond(&relayer(), 9, token(1), Some(vec![1])), Err(FetchError::NotFound));
}

#[test]
fn only_trusted_relayer_may_stage_or_respond() {
    let mut c = Contract::new(relayer());
    let id = c.fetch("u".to_string(), None, "a".to_string(), token(1)).unwrap();
    let other = "mallory".to_string();
    assert_eq!(c.store_response_chunk(&other, id, vec![1], false), Err(FetchError::Unauthorized));
    assert_eq!(c.respond(&other, id, token(1), Some(vec![1])), Err(FetchError::Unauthorized));
    assert_eq!(c.respond(&relayer(), id, token(1), None), Err(FetchError::NoBody));
    assert_eq!(c.trusted_relayer(), relayer());
}

#[test]
fn replace_and_append_staging() {
    let mut c = Contract::new(relayer());
    let id = c.fetch("u".to_string(), None, "a".to_string(), token(1)).unwrap();
    c.store_response_chunk(&relayer(), id, b"old".to_vec(), false).unwrap();
    c.store_response_chunk(&relayer(), id, b"new".to_vec(), false).unwrap();
    c.store_response_chunk(&relayer(), id, b"!".to_vec(), true).unwrap();
    c.respond(&relayer(), id, token(1), None).unwrap();
    let r = c.on_fetch_complete(id, FetchStatus::Completed).unwrap();
    assert_eq!(r.body, Some(b"new!".to_vec()));
}

#[test]
fn append_without_staged_bytes_starts_empty() {
    let mut c = Contract::new(relayer());
    let id = c.fetch("u".to_string(), None, "a".to_string(), token(1)).unwrap();
    c.store_response_chunk(&relayer(), id, b"cd".to_vec(), true).unwrap();
    c.respond(&relayer(), id, token(1), None).unwrap();
    let r = c.on_fetch_complete(id, FetchStatus::Completed).unwrap();
    assert_eq!(r.body, Some(b"cd".to_vec()));
}

#[test]
fn inline_body_overrides_staged_bytes() {
    let mut c = Contract::new(relayer());
    let id = c.fetch("u".to_string(), Some(vec![9]), "a".to_string(), token(1)).unwrap();
    c.store_response_chunk(&relayer(), id, b"staged".to_vec(), false).unwrap();
    c.respond(&relayer(), id, token(1), Some(b"inline".to_vec())).unwrap();
    let r = c.on_fetch_complete(id, FetchStatus::Completed).unwrap();
    assert_eq!(r.body, Some(b"inline".to_vec()));
    assert_eq!(r.context, Some(vec![9]));
    assert_eq!(r.caller, "a".to_string());
}

#[test]
fn timeout_delivers_once_without_body() {
    let mut c = Contract::new(relayer());
    let id = c.fetch("u".to_string(), None, "a".to_string(), token(1)).unwrap();
    c.store_response_chunk(&relayer(), id, b"partial".to_vec(), false).unwrap();
    let r = c.on_fetch_complete(id, FetchStatus::TimedOut).unwrap();
    assert_eq!(r.status, FetchStatus::TimedOut);
    assert_eq!(r.body, None);
    assert_eq!(r.url, "u".to_string());
    assert!(c.list_requests().is_empty());
    assert_eq!(c.on_fetch_complete(id, FetchStatus::TimedOut), None);
    assert_eq!(c.on_fetch_complete(id, FetchStatus::Completed), None);
    assert_eq!(c.respond(&relayer(), id, token(1), Some(vec![1])), Err(FetchError::NotFound));
}

#[test]
fn completed_settles_once() {
    let mut c = Contract::new(relayer());
    let id = c.fetch("u".to_string(), None, "a".to_string(), token(1)).unwrap();
    c.respond(&relayer(), id, token(1), Some(Vec::new())).unwrap();
    let r = c.on_fetch_complete(id, FetchStatus::Completed).unwrap();
    assert_eq!(r.body, Some(Vec::new()));
    assert!(c.list_requests().is_empty());
    assert_eq!(c.on_fetch_complete(id, FetchStatus::Completed), None);
}

#[test]
fn restore_checks_id_order() {
    let req = |id: u64| PendingRequest {
        request_id: id,
        url: "u".to_string(),
        caller: "a".to_string(),
        context: None,
        yield_id: token(id as u8),
    };
    let c = Contract::restore(relayer(), 5, vec![req(1), req(3)]).unwrap();
    assert_eq!(c.next_request_id(), 5);
    assert_eq!(c.list_requests(), vec![req(1), req(3)]);
    assert_eq!(c.staged_body(1), None);
    assert!(Contract::restore(relayer(), 5, vec![req(3), req(1)]).is_none());
    assert!(Contract::restore(relayer(), 5, vec![req(3), req(3)]).is_none());
    assert!(Contract::restore(relayer(), 3, vec![req(1), req(3)]).is_none());
    assert!(Contract::restore(relayer(), 0, Vec::new()).is_some());
}

#[test]
fn staged_body_reads_back() {
    let mut c = Contract::new(relayer());
    let id = c.fetch("u".to_string(), None, "a".to_string(), token(1)).unwrap();
    assert_eq!(c.next_request_id(), 1);
    c.store_response_chunk(&relayer(), id, b"ab".to_vec(), false).unwrap();
    assert_eq!(c.staged_body(id), Some(b"ab".to_vec()));
    assert_eq!(c.staged_body(id + 1), None);
}

#[test]
fn exhausted_id_space_is_overflow() {
    let mut c = Contract::restore(relayer(), u64::MAX, Vec::new()).unwrap();
    assert_eq!(
        c.fetch("u".to_string(), None, "a".to_string(), token(1)),
        Err(FetchError::Overflow)
    );
    assert!(c.list_requests().is_empty());
    assert_eq!(c.next_request_id(), u64::MAX);

    let mut c = Contract::restore(relayer(), u64::MAX - 1, Vec::new()).unwrap();
    assert_eq!(c.fetch("u".to_string(), None, "a".to_string(), token(1)), Ok(u64::MAX - 1));
    assert_eq!(
        c.fetch("v".to_string(), None, "a".to_string(), token(2)),
        Err(FetchError::Overflow)
    );
    assert_eq!(c.list_requests().len(), 1);
}
