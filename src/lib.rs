//! Retrieval over the text of long documents: chunking, an embedding store,
//! a vectorization state machine and ranked search.

mod chunker;
mod coordinator;
mod epub;
mod error;
mod model;
mod reading;
mod retrieval;
mod status;
mod store;
mod text;

pub use chunker::{chunk, chunk_chapter, ChunkConfig, DEFAULT_MAX_CHUNK_TOKENS, DEFAULT_OVERLAP_TOKENS};
pub use coordinator::{retry_delay, Coordinator, Job, Run, RunState};
pub use epub::{extract_chapters, parse_metadata, EpubChapter, EpubMetadata};
pub use error::RagError;
pub use model::{key_less, Chunk, ChunkKey, EMBED_UNIT, MAX_DIMENSION};
pub use reading::{ReadingSessionInfo, ReadingStatsInfo};
pub use retrieval::{
    dot_product, keyword_score_of, parse_mode, rank, score_chunk, search, SearchMode, SearchResult, KEYWORD_WEIGHT,
    SCORE_UNIT, SEMANTIC_WEIGHT,
};
pub use status::{state_name, VectorizeStatus};
pub use store::{DocumentChunks, VectorStore};
pub use text::{chars_of, fold_letter, folded_words, is_space, same_chars};
