use tinyvector::llm_args::{LLMModelArgs, TokenizerSource};

fn args(
    arch: Option<&str>,
    model: Option<&str>,
    tok_path: Option<&str>,
    tok_repo: Option<&str>,
) -> LLMModelArgs {
    LLMModelArgs {
        model_architecture: arch.map(String::from),
        model_path: model.map(String::from),
        tokenizer_path: tok_path.map(String::from),
        tokenizer_repository: tok_repo.map(String::from),
    }
}

#[test]
fn available_needs_architecture_and_path() {
    assert!(args(Some("llama"), Some("model.bin"), None, None).available());
    assert!(!args(Some("llama"), None, None, None).available());
    assert!(!args(None, Some("model.bin"), None, None).available());
    assert!(!args(None, None, None, None).available());
}

#[test]
fn tokenizer_source_selection() {
    let a = args(None, None, Some("tok.json"), None);
    assert_eq!(
        a.to_tokenizer_source(),
        TokenizerSource::HuggingFaceTokenizerFile(String::from("tok.json"))
    );
    let b = args(None, None, None, Some("org/repo"));
    assert_eq!(
        b.to_tokenizer_source(),
        TokenizerSource::HuggingFaceRemote(String::from("org/repo"))
    );
    let c = args(None, None, None, None);
    assert_eq!(c.to_tokenizer_source(), TokenizerSource::Embedded);
}
