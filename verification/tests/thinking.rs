use lemonade_context_engine::lemonade::{
    chat_answer, chat_user_content, split_thinking, strip_thinking, understands_no_think,
};

#[test]
fn strips_a_normal_thinking_block() {
    assert_eq!(
        strip_thinking("<think>weighing options</think>\n\nPort 7913."),
        "Port 7913."
    );
}

#[test]
fn empty_think_block_from_no_think_leaves_the_answer() {
    assert_eq!(strip_thinking("<think>\n\n</think>\n\nPort 7913."), "Port 7913.");
}

#[test]
fn plain_content_is_untouched() {
    assert_eq!(strip_thinking("Port 7913."), "Port 7913.");
}

#[test]
fn answer_left_entirely_inside_the_block_is_not_lost() {
    assert_eq!(
        strip_thinking("<think>The context does not mention a budget.</think>"),
        "The context does not mention a budget."
    );
}

#[test]
fn unclosed_block_falls_back_to_the_reasoning() {
    assert_eq!(
        strip_thinking("<think>The context does not mention it"),
        "The context does not mention it"
    );
}

#[test]
fn text_around_multiple_blocks_is_preserved_in_order() {
    assert_eq!(strip_thinking("A<think>x</think>B<think>y</think>C"), "ABC");
}

#[test]
fn genuinely_empty_content_stays_empty_so_the_caller_can_error() {
    assert_eq!(strip_thinking(""), "");
    assert_eq!(strip_thinking("<think></think>"), "");
}

#[test]
fn no_think_is_sent_only_to_the_family_that_implements_it() {
    assert!(understands_no_think("Qwen3-0.6B-GGUF"));
    assert!(understands_no_think("qwen3-1.7b-gguf"));
    assert!(!understands_no_think("Bonsai-8B-gguf"));
    assert!(!understands_no_think("Gemma-4-E2B-it-GGUF"));
}

#[test]
fn split_thinking_returns_answer_and_reasoning_trimmed() {
    let (visible, thought) = split_thinking("  A <think> x </think> B<think>y");
    assert_eq!(visible, "A  B");
    assert_eq!(thought, "x y");
}

#[test]
fn plain_reply_is_only_trimmed() {
    assert_eq!(strip_thinking("\u{3000}\t Port 7913.\n\u{85}"), "Port 7913.");
    assert_eq!(strip_thinking("<thin>k</think>"), "<thin>k</think>");
}

#[test]
fn text_before_an_unclosed_block_is_the_answer() {
    assert_eq!(strip_thinking("Port 7913. <think>more"), "Port 7913.");
}

#[test]
fn qwen_user_message_gets_the_no_think_line() {
    assert_eq!(chat_user_content("QWEN3-4B", "hi"), "hi\n/no_think");
    assert_eq!(chat_user_content("Bonsai-8B-gguf", "hi"), "hi");
}

#[test]
fn empty_reply_is_an_error_and_reasoning_only_reply_is_kept() {
    assert_eq!(
        chat_answer(Some("<think>  </think>".to_string())),
        Err("the model returned an empty response".to_string())
    );
    assert_eq!(
        chat_answer(None),
        Err("the model returned an empty response".to_string())
    );
    assert_eq!(
        chat_answer(Some("<think>only this</think>".to_string())),
        Ok("only this".to_string())
    );
}
