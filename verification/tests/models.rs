use lemonade_context_engine::lemonade::{
    check_models_status, cheapest_first, is_chat_candidate, non_chat_label, RankedModel,
};

/// (id, labels, size in GB, downloaded) trimmed from a real `GET /v1/models`.
fn real_payload() -> Vec<(&'static str, Vec<&'static str>, Option<f64>, Option<bool>)> {
    vec![
        ("Bonsai-8B-gguf", vec!["llamacpp", "tool-calling"], Some(1.08), Some(true)),
        ("Gemma-4-E2B-it-GGUF", vec!["tool-calling", "vision", "llamacpp"], Some(3.81), Some(true)),
        (
            "Moonshine-Medium-Streaming",
            vec!["transcription", "realtime-transcription", "hot"],
            Some(1.08),
            Some(true),
        ),
        ("Qwen3-0.6B-GGUF", vec!["reasoning", "tool-calling"], Some(0.356), Some(true)),
        ("Qwen3-1.7B-GGUF", vec!["reasoning", "tool-calling"], Some(0.984), Some(true)),
        ("nomic-embed-text-v1-GGUF", vec!["embeddings"], Some(0.073), Some(true)),
    ]
}

fn labels(ls: &[&str]) -> Vec<String> {
    ls.iter().map(|s| s.to_string()).collect()
}

/// The offered ids: candidates by label and download state, then cheapest first by the
/// estimated runtime size (checkpoint plus 0.6 GB).
fn offered(models: Vec<(&'static str, Vec<&'static str>, Option<f64>, Option<bool>)>) -> Vec<String> {
    let mut ranked = Vec::new();
    for (id, ls, size, downloaded) in models {
        if !is_chat_candidate(&labels(&ls), downloaded) {
            continue;
        }
        let Some(size) = size else { continue };
        let estimate = size + 0.6;
        if estimate > 6.0 {
            continue;
        }
        ranked.push(RankedModel { cost_key: estimate.to_bits(), id: id.to_string() });
    }
    let order = cheapest_first(&ranked);
    order.into_iter().map(|i| ranked[i].id.clone()).collect()
}

#[test]
fn embedding_and_transcription_models_are_not_offered_as_chat_models() {
    let ids = offered(real_payload());
    assert!(
        !ids.iter().any(|id| id.contains("nomic-embed")),
        "the embedding model must not be selectable for chat: {ids:?}"
    );
    assert!(
        !ids.iter().any(|id| id.contains("Moonshine")),
        "the transcription model must not be selectable for chat: {ids:?}"
    );
    assert_eq!(
        ids,
        vec![
            "Qwen3-0.6B-GGUF",
            "Qwen3-1.7B-GGUF",
            "Bonsai-8B-gguf",
            "Gemma-4-E2B-it-GGUF",
        ],
        "expected only generation models, cheapest first"
    );
}

#[test]
fn a_model_that_is_not_downloaded_is_not_offered() {
    assert!(!is_chat_candidate(&labels(&["llamacpp"]), Some(false)));
    assert!(is_chat_candidate(&labels(&["llamacpp"]), None));
    assert!(is_chat_candidate(&labels(&["llamacpp"]), Some(true)));
}

#[test]
fn label_matching_is_case_insensitive() {
    assert!(!is_chat_candidate(&labels(&["Embeddings"]), Some(true)));
    assert!(!is_chat_candidate(&labels(&["llamacpp", "TTS"]), Some(true)));
}

#[test]
fn every_non_chat_label_is_recognised() {
    for l in [
        "embeddings",
        "embedding",
        "reranking",
        "transcription",
        "realtime-transcription",
        "tts",
        "classification",
        "image-generation",
        "audio-generation",
    ] {
        assert!(non_chat_label(l), "{l}");
    }
    assert!(!non_chat_label("vision"));
    assert!(!non_chat_label("Embeddings"));
}

#[test]
fn equal_costs_are_ordered_by_id_then_by_position() {
    let ranked = vec![
        RankedModel { cost_key: 5, id: "b".to_string() },
        RankedModel { cost_key: 5, id: "a".to_string() },
        RankedModel { cost_key: 1, id: "z".to_string() },
        RankedModel { cost_key: 5, id: "a".to_string() },
        RankedModel { cost_key: 5, id: "ab".to_string() },
    ];
    assert_eq!(cheapest_first(&ranked), vec![2, 1, 3, 4, 0]);
    assert_eq!(cheapest_first(&Vec::new()), Vec::<usize>::new());
}

#[test]
fn a_failed_model_list_reports_its_status_and_body() {
    assert_eq!(check_models_status(200, "ignored"), Ok(()));
    assert_eq!(
        check_models_status(404, "no such route"),
        Err("listing models returned 404 Not Found: no such route".to_string())
    );
}
