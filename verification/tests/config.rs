use lemonade_context_engine::config::{
    config_dir_under, config_path, default_chat_model, default_lemonade_url, index_path, Config,
};
use lemonade_context_engine::rag::DEFAULT_CHAT_MODEL;
use lemonade_context_engine::text::{decimal_string, lex_less, trim};

#[test]
fn a_default_config_has_no_folders_and_both_defaults() {
    let config = Config::default();
    assert!(config.folders.is_empty());
    assert_eq!(config.chat_model, DEFAULT_CHAT_MODEL);
    assert_eq!(config.lemonade_url, default_lemonade_url());
    assert_eq!(config.lemonade_url, "http://localhost:13305/v1");
    assert_eq!(default_chat_model(), "Bonsai-8B-gguf");
}

#[test]
fn settings_and_index_live_in_the_app_directory() {
    let dir = config_dir_under("/home/u/.config");
    assert_eq!(dir, "/home/u/.config/lemonade-context-engine");
    assert_eq!(index_path(&dir), "/home/u/.config/lemonade-context-engine/index.bin");
    assert_eq!(config_path(&dir), "/home/u/.config/lemonade-context-engine/config.json");
}

#[test]
fn numbers_render_in_decimal() {
    assert_eq!(decimal_string(0), "0");
    assert_eq!(decimal_string(7913), "7913");
    assert_eq!(decimal_string(usize::MAX), usize::MAX.to_string());
}

#[test]
fn ordering_is_by_code_point() {
    assert!(lex_less("Bonsai", "Gemma"));
    assert!(lex_less("Z", "a"));
    assert!(lex_less("a", "ab"));
    assert!(!lex_less("ab", "ab"));
    assert!(!lex_less("b", "ab"));
}

#[test]
fn trimming_removes_unicode_white_space_at_both_ends_only() {
    assert_eq!(trim("\u{2003} a b \u{200b}\n"), "a b \u{200b}");
    assert_eq!(trim(" \t\r\n"), "");
}

