use lemonade_context_engine::lemonade::EMBED_TOO_LARGE_PREFIX;
use lemonade_context_engine::rag::{
    ask_plan, batch_outcome, collect_chunks, pair_batch, query_vector, question_text, split_span,
    AskPlan, BatchOutcome, ChunkSpan, FileEvent, FilePhase, FileStep, IndexProgress, IndexRun,
    IndexStats, ResilientEmbed, RetrievedChunk, FLUSH_EVERY_N_FILES, GROUNDING_INSTRUCTION,
    NOTHING_INDEXED,
};

fn span(text: &str) -> ChunkSpan {
    ChunkSpan { text: text.to_string(), start_line: 3, end_line: 9 }
}

#[test]
fn split_span_cuts_at_the_midpoint_and_keeps_the_lines() {
    let (l, r) = split_span(&span("abcdef"));
    assert_eq!((l.text.as_str(), r.text.as_str()), ("abc", "def"));
    assert_eq!((l.start_line, l.end_line, r.start_line, r.end_line), (3, 9, 3, 9));
}

#[test]
fn split_span_moves_forward_to_a_character_boundary() {
    // "aéb" is 4 bytes and byte 2 falls inside "é": the cut moves to byte 3
    let (l, r) = split_span(&span("aéb"));
    assert_eq!((l.text.as_str(), r.text.as_str()), ("aé", "b"));
    let (l, r) = split_span(&span("€x"));
    // 4 bytes, midpoint 2 is inside the euro sign: the cut moves to byte 3
    assert_eq!((l.text.as_str(), r.text.as_str()), ("€", "x"));
    let (l, r) = split_span(&span(""));
    assert_eq!((l.text.as_str(), r.text.as_str()), ("", ""));
}

fn too_large() -> Result<Vec<Vec<u8>>, String> {
    Err(format!("{EMBED_TOO_LARGE_PREFIX}input is too large"))
}

#[test]
fn a_too_large_chunk_is_halved_until_it_fits() {
    let text = "x".repeat(500);
    let mut run: ResilientEmbed<u8> = ResilientEmbed::new(span(&text));
    // whole (500) too large -> halves of 250; first half too large -> 125 + 125 (not split again)
    assert_eq!(run.next_text().unwrap().len(), 500);
    run = run.on_reply(too_large()).unwrap();
    assert_eq!(run.next_text().unwrap().len(), 250);
    run = run.on_reply(too_large()).unwrap();
    assert_eq!(run.next_text().unwrap().len(), 125);
    run = run.on_reply(Ok(vec![vec![1]])).unwrap();
    assert_eq!(run.next_text().unwrap().len(), 125);
    run = run.on_reply(too_large()).unwrap(); // 125 bytes is at the floor: given up on
    assert_eq!(run.next_text().unwrap().len(), 250);
    run = run.on_reply(Ok(vec![vec![0], vec![2]])).unwrap();
    assert!(run.is_finished());
    assert_eq!(run.next_text(), None);
    let pieces = run.into_pieces();
    let texts: String = pieces.iter().map(|(s, _)| s.text.clone()).collect();
    assert_eq!(texts, text);
    let vectors: Vec<Vec<u8>> = pieces.into_iter().map(|(_, v)| v).collect();
    assert_eq!(vectors, vec![vec![1], vec![], vec![2]]);
}

#[test]
fn a_chunk_that_never_fits_ends_in_at_most_sixty_four_pieces() {
    let text = "y".repeat(100_000);
    let mut run: ResilientEmbed<u8> = ResilientEmbed::new(span(&text));
    while run.next_text().is_some() {
        run = run.on_reply(too_large()).unwrap();
    }
    let pieces = run.into_pieces();
    assert_eq!(pieces.len(), 64);
    assert!(pieces.iter().all(|(_, v)| v.is_empty()));
    let texts: String = pieces.iter().map(|(s, _)| s.text.clone()).collect();
    assert_eq!(texts, text);
}

#[test]
fn other_embedding_errors_are_returned() {
    let run: ResilientEmbed<u8> = ResilientEmbed::new(span("hello"));
    assert!(matches!(run.on_reply(Err("server down".to_string())), Err(e) if e == "server down"));
}

#[test]
fn an_empty_reply_leaves_the_piece_without_a_vector() {
    let run: ResilientEmbed<u8> = ResilientEmbed::new(span("hello"));
    let run = run.on_reply(Ok(vec![])).unwrap();
    let pieces = run.into_pieces();
    assert_eq!(pieces.len(), 1);
    assert!(pieces[0].1.is_empty());
}

#[test]
fn index_run_counts_each_outcome() {
    let mut run = IndexRun::new(6, 2);
    assert_eq!(run.step(FileEvent::Vanished), FileStep::Next);
    assert_eq!(run.step(FileEvent::Unreadable), FileStep::ClearAndNext);
    assert_eq!(run.step(FileEvent::Read { stored_hash: Some(7), hash: 7 }), FileStep::Next);
    assert_eq!(run.step(FileEvent::Read { stored_hash: Some(7), hash: 8 }), FileStep::Chunk);
    assert_eq!(run.step(FileEvent::Chunked { spans: 0 }), FileStep::ClearAndNext);
    assert_eq!(run.step(FileEvent::Read { stored_hash: None, hash: 8 }), FileStep::Chunk);
    assert_eq!(run.step(FileEvent::Chunked { spans: 3 }), FileStep::Embed);
    assert_eq!(run.step(FileEvent::Embedded { dropped: 1 }), FileStep::Next);
    assert_eq!(run.step(FileEvent::Read { stored_hash: None, hash: 9 }), FileStep::Chunk);
    assert_eq!(run.step(FileEvent::Chunked { spans: 4 }), FileStep::Embed);
    assert_eq!(run.step(FileEvent::Embedded { dropped: 0 }), FileStep::Store);
    assert_eq!(run.step(FileEvent::Stored { written: true, chunks: 4 }), FileStep::Next);
    assert_eq!(run.counts().phase, FilePhase::Between);
    assert_eq!(run.progress(), IndexProgress { files_done: 6, files_total: 6 });
    assert!(run.is_complete());
    assert_eq!(
        run.stats(),
        IndexStats {
            files_indexed: 1,
            chunks_indexed: 4,
            files_skipped_unchanged: 1,
            files_purged: 2,
            files_failed: 2,
            cancelled: false,
        }
    );
    assert!(!run.stats().cancelled);
}

#[test]
fn progress_counts_finished_files_and_cancellation_stops_the_pass() {
    let mut run = IndexRun::new(3, 0);
    let mut reports = vec![run.progress()];
    run.step(FileEvent::Read { stored_hash: None, hash: 1 });
    reports.push(run.progress()); // under way: not yet done
    run.step(FileEvent::Chunked { spans: 2 });
    run.step(FileEvent::Embedded { dropped: 0 });
    run.step(FileEvent::Stored { written: true, chunks: 2 });
    reports.push(run.progress());
    run.step(FileEvent::Vanished);
    reports.push(run.progress());
    let done: Vec<usize> = reports.iter().map(|p| p.files_done).collect();
    assert_eq!(done, vec![0, 0, 1, 2]);
    assert!(reports.iter().all(|p| p.files_total == 3));
    assert!(!run.is_complete());
    assert_eq!(run.step(FileEvent::Cancelled), FileStep::Stop);
    let stats = run.stats();
    assert!(stats.cancelled);
    assert_eq!((stats.files_indexed, stats.chunks_indexed), (1, 2));
}

#[test]
fn the_index_is_persisted_every_fifty_stored_files() {
    let mut run = IndexRun::new(FLUSH_EVERY_N_FILES + 1, 0);
    for i in 0..FLUSH_EVERY_N_FILES {
        run.step(FileEvent::Read { stored_hash: None, hash: i as u64 });
        run.step(FileEvent::Chunked { spans: 1 });
        run.step(FileEvent::Embedded { dropped: 0 });
        let step = run.step(FileEvent::Stored { written: true, chunks: 1 });
        if i + 1 == FLUSH_EVERY_N_FILES {
            assert_eq!(step, FileStep::FlushAndNext);
        } else {
            assert_eq!(step, FileStep::Next);
        }
    }
    assert_eq!(run.counts().since_flush, 0);
    assert_eq!(run.counts().files_indexed, FLUSH_EVERY_N_FILES);
}

#[test]
fn a_file_cancelled_while_storing_is_not_counted() {
    let mut run = IndexRun::new(1, 0);
    run.step(FileEvent::Read { stored_hash: None, hash: 1 });
    run.step(FileEvent::Chunked { spans: 1 });
    run.step(FileEvent::Embedded { dropped: 0 });
    assert_eq!(run.step(FileEvent::Stored { written: false, chunks: 1 }), FileStep::Next);
    assert_eq!(run.counts().files_indexed, 0);
    assert_eq!(run.counts().chunks_indexed, 0);
}

#[test]
fn batches_pair_chunks_with_vectors_and_count_the_empty_ones() {
    let batch = vec![span("a"), span("b"), span("c")];
    let paired = pair_batch(&batch, vec![vec![1u8], vec![]]);
    assert_eq!(paired.len(), 2);
    assert_eq!(paired[1].0.text, "b");
    let (chunks, dropped) = collect_chunks(paired);
    assert_eq!(dropped, 1);
    assert_eq!(chunks.len(), 1);
    assert_eq!(chunks[0].text, "a");
    assert_eq!(chunks[0].embedding, vec![1u8]);
    assert_eq!((chunks[0].start_line, chunks[0].end_line), (3, 9));
}

#[test]
fn a_batch_result_decides_between_pairing_splitting_and_aborting() {
    let batch = vec![span("a"), span("b")];
    match batch_outcome(&batch, Ok(vec![vec![1u8], vec![2u8]])) {
        BatchOutcome::Embedded(paired) => {
            assert_eq!(paired.len(), 2);
            assert_eq!(paired[1].1, vec![2u8]);
        }
        _ => panic!("expected the vectors"),
    }
    assert!(matches!(batch_outcome::<u8>(&batch, too_large()), BatchOutcome::OneByOne));
    assert!(matches!(
        batch_outcome::<u8>(&batch, Err("chat request failed".to_string())),
        BatchOutcome::Abort(e) if e == "chat request failed"
    ));
}

#[test]
fn an_empty_question_is_refused() {
    assert_eq!(question_text("  \n "), Err("Question cannot be empty".to_string()));
    assert_eq!(question_text("  Who? "), Ok("Who?".to_string()));
}

#[test]
fn the_question_vector_must_exist_and_not_be_empty() {
    assert_eq!(query_vector::<u8>(vec![]), Err("empty embedding response".to_string()));
    assert_eq!(
        query_vector::<u8>(vec![vec![]]),
        Err("Lemonade returned an empty embedding for the question".to_string())
    );
    assert_eq!(query_vector(vec![vec![1u8, 2], vec![3]]), Ok(vec![1, 2]));
}

#[test]
fn nothing_indexed_is_answered_without_the_model() {
    match ask_plan(&Vec::new(), "Who?") {
        AskPlan::NothingIndexed(resp) => {
            assert_eq!(resp.answer, NOTHING_INDEXED);
            assert_eq!(resp.answer, "No indexed files yet \u{2014} add a folder first.");
            assert!(resp.sources.is_empty());
        }
        AskPlan::Chat { .. } => panic!("expected the nothing-indexed answer"),
    }
}

#[test]
fn retrieved_chunks_are_numbered_and_cited_in_order() {
    let chunks = vec![
        RetrievedChunk {
            file_path: "sample/faq.md".to_string(),
            start_line: 1,
            end_line: 21,
            text: "The gateway listens on 7913.".to_string(),
        },
        RetrievedChunk {
            file_path: "sample/README.md".to_string(),
            start_line: 10,
            end_line: 117,
            text: "Nightingale".to_string(),
        },
    ];
    match ask_plan(&chunks, "What port?") {
        AskPlan::Chat { system, user, sources } => {
            assert_eq!(system, GROUNDING_INSTRUCTION);
            assert_eq!(
                user,
                "Context:\n[Source 1: sample/faq.md lines 1-21]\nThe gateway listens on 7913.\n\n\
                 [Source 2: sample/README.md lines 10-117]\nNightingale\n\n\nQuestion: What port?"
            );
            assert_eq!(sources.len(), 2);
            assert_eq!(sources[0].file, "sample/faq.md");
            assert_eq!((sources[0].start_line, sources[0].end_line), (1, 21));
            assert_eq!(sources[1].file, "sample/README.md");
            assert_eq!((sources[1].start_line, sources[1].end_line), (10, 117));
        }
        AskPlan::NothingIndexed(_) => panic!("expected a chat plan"),
    }
}
