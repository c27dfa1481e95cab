use vstd::prelude::*;

verus! {

/// The largest magnitude of an embedding value: embeddings are unit vectors
/// written in fixed point, `EMBED_UNIT` standing for 1.
pub const EMBED_UNIT: i32 = 32768;

/// The largest embedding dimension the engine scores without overflow.
pub const MAX_DIMENSION: usize = 65536;

/// Whether `e` is an embedding of `dim` values, each within `EMBED_UNIT`.
pub open spec fn valid_embedding(e: Seq<i32>, dim: nat) -> bool {
    e.len() == dim && forall|i: int| 0 <= i < e.len() ==> -EMBED_UNIT <= #[trigger] e[i] <= EMBED_UNIT
}


/// Where a chunk stands in its document: the chapter and its place in it.
#[derive(Clone, Copy, Debug, PartialEq, Eq, Structural)]
pub struct ChunkKey {
    pub chapter_index: usize,
    pub sequence_index: usize,
}

/// Document order of chunk positions: by chapter, then by place in the chapter.
pub open spec fn key_lt(a: ChunkKey, b: ChunkKey) -> bool {
    a.chapter_index < b.chapter_index || (a.chapter_index == b.chapter_index
        && a.sequence_index < b.sequence_index)
}

/// Whether `a` comes before `b` in document order.
pub fn key_less(a: ChunkKey, b: ChunkKey) -> (r: bool)
    ensures
        r == key_lt(a, b),
{
    a.chapter_index < b.chapter_index || (a.chapter_index == b.chapter_index
        && a.sequence_index < b.sequence_index)
}

/// A span of document text, the unit that is embedded and retrieved.
#[derive(Debug)]
pub struct Chunk {
    pub document_id: String,
    pub key: ChunkKey,
    pub chapter_title: String,
    pub content: String,
    pub token_count: usize,
    pub start_anchor: Option<String>,
    pub end_anchor: Option<String>,
    pub embedding: Option<Vec<i32>>,
}

/// The mathematical value of a chunk.
pub struct ChunkView {
    pub document_id: Seq<char>,
    pub key: ChunkKey,
    pub chapter_title: Seq<char>,
    pub content: Seq<char>,
    pub token_count: nat,
    pub start_anchor: Option<Seq<char>>,
    pub end_anchor: Option<Seq<char>>,
    pub embedding: Option<Seq<i32>>,
}

/// The value of an optional string.
pub open spec fn opt_str_view(o: Option<String>) -> Option<Seq<char>> {
    match o {
        Some(s) => Some(s@),
        None => None,
    }
}

/// The value of an optional vector.
pub open spec fn opt_vec_view(o: Option<Vec<i32>>) -> Option<Seq<i32>> {
    match o {
        Some(v) => Some(v@),
        None => None,
    }
}

impl View for Chunk {
    type V = ChunkView;

    open spec fn view(&self) -> ChunkView {
        ChunkView {
            document_id: self.document_id@,
            key: self.key,
            chapter_title: self.chapter_title@,
            content: self.content@,
            token_count: self.token_count as nat,
            start_anchor: opt_str_view(self.start_anchor),
            end_anchor: opt_str_view(self.end_anchor),
            embedding: opt_vec_view(self.embedding),
        }
    }
}

/// The values of a sequence of chunks.
pub open spec fn views(s: Seq<Chunk>) -> Seq<ChunkView> {
    s.map_values(|c: Chunk| c@)
}

/// A copy of an optional string.
pub fn copy_opt_string(o: &Option<String>) -> (r: Option<String>)
    ensures
        opt_str_view(r) == opt_str_view(*o),
{
    match o {
        Some(s) => Some(s.clone()),
        None => None,
    }
}

/// A copy of a vector of integers.
pub fn copy_vec(v: &Vec<i32>) -> (r: Vec<i32>)
    ensures
        r@ == v@,
{
    let mut r: Vec<i32> = Vec::new();
    let mut i: usize = 0;
    while i < v.len()
        invariant
            i <= v@.len(),
            r@ == v@.subrange(0, i as int),
        decreases v@.len() - i,
    {
        r.push(v[i]);
        i = i + 1;
        assert(r@ =~= v@.subrange(0, i as int));
    }
    assert(r@ =~= v@);
    r
}

/// A copy of an optional vector of integers.
pub fn copy_opt_vec(o: &Option<Vec<i32>>) -> (r: Option<Vec<i32>>)
    ensures
        opt_vec_view(r) == opt_vec_view(*o),
{
    match o {
        Some(v) => Some(copy_vec(v)),
        None => None,
    }
}

impl Chunk {
    /// A copy of this chunk.
    pub fn duplicate(&self) -> (r: Chunk)
        ensures
            r@ == self@,
    {
        Chunk {
            document_id: self.document_id.clone(),
            key: self.key,
            chapter_title: self.chapter_title.clone(),
            content: self.content.clone(),
            token_count: self.token_count,
            start_anchor: copy_opt_string(&self.start_anchor),
            end_anchor: copy_opt_string(&self.end_anchor),
            embedding: copy_opt_vec(&self.embedding),
        }
    }
}

} // verus!
