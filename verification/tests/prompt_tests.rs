use mcp_server_conceal_core::prompt::{PromptLoader, PromptSource};
use std::path::PathBuf;

#[test]
fn test_prompt_formatting() {
    let loader = PromptLoader::with_prompts_dir(PathBuf::from("prompts"));
    let template = "TEXT: \"{text}\" - END";
    let formatted = loader.format_prompt(template, "test@example.com");

    assert_eq!(formatted, "TEXT: \"test@example.com\" - END");
}

#[test]
fn quotes_in_text_are_escaped() {
    let loader = PromptLoader::with_prompts_dir(PathBuf::from("prompts"));
    let formatted = loader.format_prompt("[{text}] [{text}]", "say \"hi\"");
    assert_eq!(formatted, "[say \\\"hi\\\"] [say \\\"hi\\\"]");
}

#[test]
fn template_names_choose_sources() {
    let loader = PromptLoader::with_prompts_dir(PathBuf::from("prompts"));
    assert!(matches!(loader.prompt_source(None), PromptSource::BuiltinSimple));
    assert!(matches!(loader.prompt_source(Some(&"simple".to_string())), PromptSource::BuiltinSimple));
    assert!(matches!(loader.prompt_source(Some(&"detailed".to_string())), PromptSource::BuiltinDetailed));
    match loader.prompt_source(Some(&"nonexistent123".to_string())) {
        PromptSource::UserFile(f) => assert_eq!(f, "nonexistent123.md"),
        other => panic!("unexpected source {:?}", other),
    }
}
