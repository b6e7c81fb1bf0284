//! End-to-end flow against a simulated in-memory store: plan the parts,
//! open the session, upload every range, complete, and compare the stored
//! object with a single-shot upload of the same source.

use multipart_upload::plan::plan;
use multipart_upload::session::{
    part_outcome_from_reply, FinalizeDecision, PartOutcome, UploadSession,
};

/// A stand-in for the store's per-part tag: derived from the part's bytes,
/// so equal content gives equal tags.
fn fake_etag(bytes: &[u8]) -> String {
    let sum: u64 = bytes.iter().map(|b| *b as u64).sum();
    format!("\"{}-{}\"", bytes.len(), sum)
}

fn multipart_store_content(source: &[u8], part_count: u64) -> Vec<u8> {
    let ranges = plan(source.len() as u64, part_count).unwrap();
    let mut session = UploadSession::begin(
        String::from("bucket"),
        String::from("key"),
        Some(String::from("upload-7")),
        ranges.len(),
    )
    .unwrap();

    // each worker uploads its own range; the store keeps the bytes per part
    let mut stored: Vec<(u64, Vec<u8>)> = Vec::new();
    for r in &ranges {
        let slice = &source[r.offset as usize..(r.offset + r.length) as usize];
        stored.push((r.part_number, slice.to_vec()));
        let outcome = part_outcome_from_reply(Ok(Some(fake_etag(slice))));
        assert!(matches!(outcome, PartOutcome::Success { .. }));
        session.record(r.part_number, outcome);
    }

    assert!(session.all_reported());
    match session.finalize_decision() {
        FinalizeDecision::Complete(tokens) => {
            // the store commits the parts in the order of the submitted list
            let mut object: Vec<u8> = Vec::new();
            for t in &tokens {
                let (_, bytes) = stored.iter().find(|(pn, _)| *pn == t.part_number).unwrap();
                assert_eq!(t.etag, fake_etag(bytes));
                object.extend_from_slice(bytes);
            }
            object
        }
        FinalizeDecision::Abort { .. } => panic!("every part succeeded"),
    }
}

#[test]
fn multipart_and_single_shot_store_identical_objects() {
    let source: Vec<u8> = (0..10_000u32).map(|i| (i * 31 % 253) as u8).collect();
    for part_count in [1, 3, 7, 64] {
        let object = multipart_store_content(&source, part_count);
        // the single-shot path stores the source in one put
        assert_eq!(object, source);
    }
}
