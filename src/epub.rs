use vstd::prelude::*;

use crate::error::RagError;

verus! {

/// A chapter of a document, as the document reader hands it out: its place,
/// its title and its text.
#[derive(Debug)]
pub struct EpubChapter {
    pub index: usize,
    pub title: String,
    pub content: String,
}

/// What a document says of itself.
#[derive(Debug)]
pub struct EpubMetadata {
    pub title: String,
    pub author: String,
    pub publisher: Option<String>,
    pub language: Option<String>,
    pub description: Option<String>,
    pub subjects: Vec<String>,
}

/// The metadata of the book at `file_path`. No reader of the format is
/// attached yet, so every book reads as one without metadata.
pub fn parse_metadata(file_path: &str) -> (r: Result<EpubMetadata, RagError>)
    ensures
        r matches Ok(m) && m.title@.len() == 0 && m.author@.len() == 0 && m.publisher is None && m.language is None
            && m.description is None && m.subjects@.len() == 0,
{
    Ok(
        EpubMetadata {
            title: String::new(),
            author: String::new(),
            publisher: None,
            language: None,
            description: None,
            subjects: Vec::new(),
        },
    )
}

/// The chapters of the book at `file_path`, in reading order. No reader of
/// the format is attached yet, so every book reads as one without chapters.
pub fn extract_chapters(file_path: &str) -> (r: Result<Vec<EpubChapter>, RagError>)
    ensures
        r matches Ok(v) && v@.len() == 0,
{
    Ok(Vec::new())
}

} // verus!
