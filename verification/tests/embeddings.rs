use lemonade_context_engine::lemonade::{
    embeddings_failure, embeddings_outcome, is_too_large, order_embeddings, send_retry_delay_ms,
    EMBED_TOO_LARGE_PREFIX,
};

type Items = Vec<(Option<usize>, Vec<f32>)>;

/// Reads a body the way the client does: as an embeddings list, and, failing that, as
/// an error envelope.
fn parse_body(body: &str) -> (Result<Items, String>, Option<String>) {
    let value: Result<serde_json::Value, serde_json::Error> = serde_json::from_str(body);
    let parsed = match &value {
        Ok(v) => match v.get("data").and_then(|d| d.as_array()) {
            Some(data) => {
                let mut items = Vec::new();
                for item in data {
                    let embedding: Vec<f32> = item["embedding"]
                        .as_array()
                        .unwrap()
                        .iter()
                        .map(|x| x.as_f64().unwrap() as f32)
                        .collect();
                    let index = item.get("index").and_then(|i| i.as_u64()).map(|i| i as usize);
                    items.push((index, embedding));
                }
                Ok(items)
            }
            None => Err("missing field `data`".to_string()),
        },
        Err(e) => Err(e.to_string()),
    };
    let envelope = value
        .ok()
        .and_then(|v| v.get("error").and_then(|e| e.get("message")).and_then(|m| m.as_str().map(|s| s.to_string())));
    (parsed, envelope)
}

fn outcome(body: &str, status: u16, expected_len: usize) -> Result<Vec<Vec<f32>>, String> {
    let (parsed, envelope) = parse_body(body);
    embeddings_outcome(parsed, envelope, status, body, expected_len)
}

#[test]
fn parses_a_normal_successful_response() {
    let body = r#"{"data":[{"embedding":[0.1,0.2],"index":0,"object":"embedding"}],"model":"m","object":"list","usage":{}}"#;
    let result = outcome(body, 200, 1).unwrap();
    assert_eq!(result, vec![vec![0.1, 0.2]]);
}

#[test]
fn error_wrapped_in_http_200_is_detected_and_labelled_too_large() {
    let body = r#"{"error":{"code":500,"details":{"backend":"llama-server","response":{"error":{"code":500,"message":"input (888 tokens) is too large to process. increase the physical batch size (current batch size: 512)","type":"server_error"}}},"message":"input (888 tokens) is too large to process. increase the physical batch size (current batch size: 512)","status_code":500,"type":"server_error"}}"#;
    let err = outcome(body, 200, 1).unwrap_err();
    assert!(
        err.starts_with(EMBED_TOO_LARGE_PREFIX),
        "expected the too-large marker, got: {err}"
    );
    assert!(err.contains("888 tokens"), "expected the real message preserved, got: {err}");
}

#[test]
fn error_in_200_that_is_not_a_size_problem_is_not_mislabelled() {
    let body = r#"{"error":{"message":"model not found","code":404}}"#;
    let err = outcome(body, 200, 1).unwrap_err();
    assert!(!err.starts_with(EMBED_TOO_LARGE_PREFIX));
    assert!(err.contains("model not found"));
}

#[test]
fn genuine_non_2xx_without_json_body_still_reports_the_raw_body() {
    let err = outcome("internal server error", 500, 1).unwrap_err();
    assert!(err.contains("internal server error"));
    assert!(!err.starts_with(EMBED_TOO_LARGE_PREFIX));
}

#[test]
fn failure_messages_name_the_status() {
    assert_eq!(
        embeddings_failure(Some("model not found"), 200, "", ""),
        "embeddings request failed (200 OK): model not found"
    );
    assert_eq!(
        embeddings_failure(None, 500, "", "internal server error"),
        "embeddings request returned 500 Internal Server Error: internal server error"
    );
    assert_eq!(
        embeddings_failure(None, 200, "expected value at line 1 column 1", "oops"),
        "failed to parse embeddings response (200 OK): expected value at line 1 column 1"
    );
    assert_eq!(
        embeddings_failure(Some("Input Is TOO LARGE"), 500, "", ""),
        "EMBED_TOO_LARGE:Input Is TOO LARGE"
    );
}

#[test]
fn too_large_marker_is_recognised_only_at_the_start() {
    assert!(is_too_large("EMBED_TOO_LARGE:input is too large"));
    assert!(!is_too_large("embeddings request failed (200 OK): EMBED_TOO_LARGE:"));
    assert!(!is_too_large(""));
}

#[test]
fn embeddings_land_in_the_slot_their_index_names() {
    let items: Vec<(Option<usize>, Vec<u32>)> = vec![
        (Some(2), vec![2]),
        (None, vec![1]),
        (Some(0), vec![0]),
        (Some(7), vec![7]),
        (Some(2), vec![22]),
    ];
    // slot 1 is filled by position; the later index 2 wins; index 7 is out of range
    assert_eq!(order_embeddings(items, 4), vec![vec![0], vec![1], vec![22], vec![]]);
}

#[test]
fn missing_embeddings_leave_empty_slots() {
    let items: Vec<(Option<usize>, Vec<u32>)> = vec![];
    assert_eq!(order_embeddings(items, 2), vec![Vec::<u32>::new(), Vec::new()]);
}

#[test]
fn sends_are_retried_twice_with_growing_pauses() {
    assert_eq!(send_retry_delay_ms(1), Some(300));
    assert_eq!(send_retry_delay_ms(2), Some(600));
    assert_eq!(send_retry_delay_ms(3), None);
}
