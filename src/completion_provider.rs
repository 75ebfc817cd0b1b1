use vstd::prelude::*;

verus! {

/// Completions from the OpenAI service; signed in once it holds an API key.
#[derive(Clone, Debug)]
pub struct OpenAiCompletionProvider {
    api_key: Option<String>,
}

/// Completions through the collaboration server; signed in while connected.
#[derive(Clone, Debug)]
pub struct ZedDotDevCompletionProvider {
    connected: bool,
}

/// A stand-in provider for tests; always signed in.
#[derive(Clone, Debug, Default)]
pub struct FakeCompletionProvider {}

impl OpenAiCompletionProvider {
    pub closed spec fn has_key(&self) -> bool {
        self.api_key is Some
    }

    pub fn new(api_key: Option<String>) -> (r: Self)
        ensures
            r.has_key() == (api_key is Some),
    {
        OpenAiCompletionProvider { api_key }
    }

    pub fn is_authenticated(&self) -> (r: bool)
        ensures
            r == self.has_key(),
    {
        self.api_key.is_some()
    }
}

impl ZedDotDevCompletionProvider {
    pub closed spec fn is_connected(&self) -> bool {
        self.connected
    }

    pub fn new(connected: bool) -> (r: Self)
        ensures
            r.is_connected() == connected,
    {
        ZedDotDevCompletionProvider { connected }
    }

    pub fn is_authenticated(&self) -> (r: bool)
        ensures
            r == self.is_connected(),
    {
        self.connected
    }
}

/// The source of language-model completions.
#[derive(Clone, Debug)]
pub enum CompletionProvider {
    OpenAi(OpenAiCompletionProvider),
    ZedDotDev(ZedDotDevCompletionProvider),
    Fake(FakeCompletionProvider),
}

impl CompletionProvider {
    /// A provider that needs no sign-in.
    pub fn fake() -> (r: Self)
        ensures
            r is Fake,
    {
        CompletionProvider::Fake(FakeCompletionProvider {})
    }

    /// Whether the provider is signed in.
    pub fn is_authenticated(&self) -> (r: bool)
        ensures
            r == match self {
                CompletionProvider::OpenAi(p) => p.has_key(),
                CompletionProvider::ZedDotDev(p) => p.is_connected(),
                CompletionProvider::Fake(_) => true,
            },
    {
        match self {
            CompletionProvider::OpenAi(provider) => provider.is_authenticated(),
            CompletionProvider::ZedDotDev(provider) => provider.is_authenticated(),
            CompletionProvider::Fake(_) => true,
        }
    }

    /// The stand-in provider inside; only for the `Fake` variant.
    pub fn as_fake(&self) -> (r: &FakeCompletionProvider)
        requires
            self is Fake,
        ensures
            self == CompletionProvider::Fake(*r),
    {
        match self {
            CompletionProvider::Fake(provider) => provider,
            _ => {
                assert(false);
                unreached()
            },
        }
    }
}

} // verus!
