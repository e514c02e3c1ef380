use rinha_2026::builder::build_index;
use rinha_2026::distance::{Vec14I, DIM, DIM_PAD};
use rinha_2026::index::IndexView;
use rinha_2026::quality::Tally;
use rinha_2026::service::{
    error_response, fill_json_buffer, is_approved, reply_to, route, score, verdict_json, Action,
    Scoring, Verb, NPROBE, SIMD_JSON_PADDING,
};

#[test]
fn readiness_is_answered_at_once() {
    match route(Verb::Get, "/ready") {
        Action::Answer(reply) => {
            assert_eq!(reply.status, 200);
            assert_eq!(reply.body, "ok");
            assert!(!reply.json);
        }
        Action::ReadBody => panic!("no body is needed"),
    }
}

#[test]
fn scores_need_the_body() {
    assert!(matches!(route(Verb::Post, "/fraud-score"), Action::ReadBody));
}

#[test]
fn everything_else_is_not_found() {
    let others = [
        (Verb::Post, "/ready"),
        (Verb::Other, "/ready"),
        (Verb::Get, "/fraud-score"),
        (Verb::Other, "/fraud-score"),
        (Verb::Get, "/"),
        (Verb::Get, "/ready/"),
        (Verb::Post, ""),
    ];
    for (verb, path) in others {
        match route(verb, path) {
            Action::Answer(reply) => {
                assert_eq!(reply.status, 404);
                assert_eq!(reply.body, "");
                assert!(!reply.json);
            }
            Action::ReadBody => panic!("{} should not be read", path),
        }
    }
}

#[test]
fn bodies_that_cannot_be_scored_are_bad_requests() {
    for scoring in [Scoring::Unreadable, Scoring::Malformed] {
        let reply = reply_to(scoring);
        assert_eq!(reply.status, 400);
        assert_eq!(reply.body, "");
        assert!(!reply.json);
    }
    assert_eq!(error_response(503).status, 503);
    assert_eq!(error_response(503).body, "");
}

#[test]
fn verdicts_have_fixed_texts() {
    let texts = [
        r#"{"approved":true,"fraud_score":0.0}"#,
        r#"{"approved":true,"fraud_score":0.2}"#,
        r#"{"approved":true,"fraud_score":0.4}"#,
        r#"{"approved":false,"fraud_score":0.6}"#,
        r#"{"approved":false,"fraud_score":0.8}"#,
        r#"{"approved":false,"fraud_score":1.0}"#,
    ];
    for frauds in 0..6u8 {
        assert_eq!(verdict_json(frauds), texts[frauds as usize]);
        let reply = reply_to(Scoring::Frauds(frauds));
        assert_eq!(reply.status, 200);
        assert_eq!(reply.body, texts[frauds as usize]);
        assert!(reply.json);
        assert_eq!(is_approved(frauds), frauds < 3);
    }
}

#[test]
fn queries_are_scored_by_their_neighbours() {
    let k = 40u32;
    let assignments: Vec<u32> = (0..k).collect();
    let vectors: Vec<Vec14I> = (0..k).map(|i| [i as i16; DIM_PAD]).collect();
    let labels: Vec<bool> = (0..k).map(|i| i == 1 || i == 3 || i == 4).collect();
    let centroids = vec![[0u32; DIM]; k as usize];
    let image = build_index(k, &centroids, &assignments, &vectors, &labels);
    let idx = IndexView::from_bytes(&image).unwrap();
    let keys: Vec<u32> = (0..k).collect();
    let scoring = score(&idx, &[0; DIM_PAD], &keys).unwrap();
    assert_eq!(scoring, Scoring::Frauds(3));
    assert_eq!(reply_to(scoring).body, r#"{"approved":false,"fraud_score":0.6}"#);
    assert_eq!(score(&idx, &[0; DIM_PAD], &keys[..39]), None);
}

#[test]
fn the_parse_buffer_is_padded() {
    assert_eq!(SIMD_JSON_PADDING, 32);
    assert_eq!(NPROBE, 32);
    let mut buf = vec![7u8; 100];
    fill_json_buffer(&mut buf, b"{}");
    assert_eq!(buf.len(), 34);
    assert_eq!(&buf[..2], b"{}");
    assert!(buf[2..].iter().all(|&b| b == 0));
    fill_json_buffer(&mut buf, b"");
    assert_eq!(buf, [0u8; 32]);
}

#[test]
fn verdicts_are_tallied() {
    let mut tally = Tally::new();
    let verdicts = [
        (true, true),
        (true, true),
        (false, false),
        (true, false),
        (false, true),
        (false, true),
        (false, true),
    ];
    for (expected, approved) in verdicts {
        tally.record(expected, approved);
    }
    assert_eq!(tally.tn, 2);
    assert_eq!(tally.tp, 1);
    assert_eq!(tally.fp, 1);
    assert_eq!(tally.fn_, 3);
    assert_eq!(tally.tp + tally.tn + tally.fp + tally.fn_, 7);
    assert_eq!(tally.failures(0), 4);
    assert_eq!(tally.weighted_errors(0), 10);
    assert_eq!(tally.failures(2), 6);
    assert_eq!(tally.weighted_errors(2), 20);
}
