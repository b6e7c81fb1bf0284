use multipart_upload::session::{
    object_tag_from_reply, part_outcome_from_reply, worker_units, CompletionToken,
    FinalizeDecision, PartOutcome, UploadSession,
};
use multipart_upload::UploadError;

fn success(etag: &str) -> PartOutcome {
    PartOutcome::Success { etag: String::from(etag) }
}

fn begin_session(part_count: usize) -> UploadSession {
    UploadSession::begin(
        String::from("bucket"),
        String::from("key"),
        Some(String::from("upload-1")),
        part_count,
    )
    .unwrap()
}

#[test]
fn initiate_without_upload_id_is_fatal() {
    let r = UploadSession::begin(String::from("b"), String::from("k"), None, 3);
    assert_eq!(r.unwrap_err(), UploadError::NoUploadId);
}

#[test]
fn initiate_with_upload_id_opens_empty_session() {
    let session = begin_session(4);
    assert_eq!(session.upload_id, "upload-1");
    assert!(!session.all_reported());
}

#[test]
fn part_reply_without_tag_is_missing_tag() {
    let outcome = part_outcome_from_reply(Ok(None));
    assert_eq!(outcome, PartOutcome::Failure { error: UploadError::MissingTag });
}

#[test]
fn part_reply_with_tag_is_success() {
    let outcome = part_outcome_from_reply(Ok(Some(String::from("\"e1\""))));
    assert_eq!(outcome, success("\"e1\""));
}

#[test]
fn part_reply_with_transport_error_fails_part() {
    let outcome = part_outcome_from_reply(Err(UploadError::TransportError));
    assert_eq!(outcome, PartOutcome::Failure { error: UploadError::TransportError });
}

#[test]
fn all_parts_succeed_completes_in_part_number_order() {
    let mut session = begin_session(3);
    // arrival order differs from part-number order
    session.record(2, success("e2"));
    session.record(3, success("e3"));
    session.record(1, success("e1"));
    assert!(session.all_reported());
    match session.finalize_decision() {
        FinalizeDecision::Complete(tokens) => {
            let expected: Vec<CompletionToken> = vec![
                CompletionToken { part_number: 1, etag: String::from("e1") },
                CompletionToken { part_number: 2, etag: String::from("e2") },
                CompletionToken { part_number: 3, etag: String::from("e3") },
            ];
            assert_eq!(tokens, expected);
        }
        FinalizeDecision::Abort { .. } => panic!("no part failed, so the session must complete"),
    }
}

#[test]
fn serialized_and_parallel_arrival_orders_finalize_identically() {
    // The same per-part outcomes, gathered in part-number order (as a
    // serialized dispatch reports them) and in a scrambled order (as a
    // bounded-parallel dispatch may report them), finalize to the same
    // completed part list.
    let outcomes = ["a", "b", "c", "d", "e"];

    let mut serialized = begin_session(5);
    for (i, tag) in outcomes.iter().enumerate() {
        serialized.record(i as u64 + 1, success(tag));
    }

    let mut scrambled = begin_session(5);
    for &i in &[3usize, 0, 4, 1, 2] {
        scrambled.record(i as u64 + 1, success(outcomes[i]));
    }

    assert!(serialized.all_reported());
    assert!(scrambled.all_reported());
    let left = serialized.finalize_decision();
    let right = scrambled.finalize_decision();
    assert_eq!(left, right);
    match left {
        FinalizeDecision::Complete(tokens) => {
            assert_eq!(tokens.len(), 5);
            for (i, token) in tokens.iter().enumerate() {
                assert_eq!(token.part_number, i as u64 + 1);
            }
        }
        FinalizeDecision::Abort { .. } => panic!("all parts succeeded"),
    }
}

#[test]
fn failed_part_aborts_and_names_the_part() {
    // Five parts; part 3 fails deterministically.  The orchestrator must
    // not complete, and the single abort decision names part 3.
    let mut session = begin_session(5);
    session.record(1, success("e1"));
    session.record(2, success("e2"));
    session.record(3, PartOutcome::Failure { error: UploadError::TransportError });
    session.record(4, success("e4"));
    session.record(5, success("e5"));
    assert!(session.all_reported());
    let decision = session.finalize_decision();
    assert_eq!(
        decision,
        FinalizeDecision::Abort { part_number: 3, error: UploadError::TransportError }
    );
}

#[test]
fn first_failure_in_arrival_order_is_surfaced() {
    let mut session = begin_session(3);
    session.record(3, PartOutcome::Failure { error: UploadError::MissingTag });
    session.record(1, success("e1"));
    session.record(2, PartOutcome::Failure { error: UploadError::TransportError });
    let decision = session.finalize_decision();
    assert_eq!(
        decision,
        FinalizeDecision::Abort { part_number: 3, error: UploadError::MissingTag }
    );
}

#[test]
fn finalize_waits_for_every_part() {
    let mut session = begin_session(2);
    session.record(1, success("e1"));
    assert!(!session.all_reported());
    session.record(2, success("e2"));
    assert!(session.all_reported());
}

#[test]
fn object_tag_is_owed_on_success() {
    assert_eq!(object_tag_from_reply(Ok(Some(String::from("\"tag\"")))), Ok(String::from("\"tag\"")));
    assert_eq!(object_tag_from_reply(Ok(None)), Err(UploadError::MissingTag));
    assert_eq!(
        object_tag_from_reply(Err(UploadError::IncompleteUpload)),
        Err(UploadError::IncompleteUpload)
    );
}

#[test]
fn bounded_parallel_upload_occupies_width_plus_one_units() {
    assert_eq!(worker_units(1), 2);
    assert_eq!(worker_units(8), 9);
}
