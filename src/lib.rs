//! An index of excerpts: a single ordered text view assembled from ranges of
//! many source buffers, kept sorted, disjoint per buffer and coalesced.

pub mod buffer;
pub mod completion_provider;
pub mod excerpts;
pub mod key;
pub mod laws;
pub mod multi_buffer;

pub use buffer::Buffer;
pub use completion_provider::{
    CompletionProvider, FakeCompletionProvider, OpenAiCompletionProvider,
    ZedDotDevCompletionProvider,
};
pub use key::{BufferId, ExcerptKey, ExcerptOffset};
pub use multi_buffer::{MultiBuffer, MultiBufferSnapshot, ToOffset};
