use multi_buffer::{CompletionProvider, OpenAiCompletionProvider, ZedDotDevCompletionProvider};

#[test]
fn fake_provider_is_authenticated() {
    let provider = CompletionProvider::fake();
    assert!(provider.is_authenticated());
    let _fake = provider.as_fake();
}

#[test]
fn open_ai_provider_needs_a_key() {
    let without = CompletionProvider::OpenAi(OpenAiCompletionProvider::new(None));
    assert!(!without.is_authenticated());
    let with = CompletionProvider::OpenAi(OpenAiCompletionProvider::new(Some("key".to_string())));
    assert!(with.is_authenticated());
}

#[test]
fn server_provider_needs_a_connection() {
    assert!(!CompletionProvider::ZedDotDev(ZedDotDevCompletionProvider::new(false)).is_authenticated());
    assert!(CompletionProvider::ZedDotDev(ZedDotDevCompletionProvider::new(true)).is_authenticated());
}
