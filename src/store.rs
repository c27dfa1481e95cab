use vstd::prelude::*;

use crate::model::{copy_opt_vec, key_less, key_lt, valid_embedding, views, Chunk, ChunkKey, ChunkView, MAX_DIMENSION};

verus! {

/// A chunk sequence in strictly increasing document order: sorted, and no
/// position twice.
pub open spec fn strictly_ordered(s: Seq<ChunkView>) -> bool {
    forall|i: int, j: int| 0 <= i < j < s.len() ==> key_lt(#[trigger] s[i].key, #[trigger] s[j].key)
}

/// What a stored chunk becomes when `new` is written over it: `new`, keeping
/// the stored embedding where `new` brings none.
pub open spec fn merged(stored: ChunkView, new: ChunkView) -> ChunkView {
    ChunkView {
        embedding: if new.embedding is Some {
            new.embedding
        } else {
            stored.embedding
        },
        ..new
    }
}

/// Writes `c` into the ordered sequence `s`: over the chunk at the same
/// position, or in its place in document order.
pub open spec fn upsert(s: Seq<ChunkView>, c: ChunkView) -> Seq<ChunkView>
    decreases s.len(),
{
    if s.len() == 0 {
        seq![c]
    } else if key_lt(c.key, s[0].key) {
        seq![c] + s
    } else if c.key == s[0].key {
        seq![merged(s[0], c)] + s.drop_first()
    } else {
        seq![s[0]] + upsert(s.drop_first(), c)
    }
}

/// Writes the chunks `cs` into `s`, first to last.
pub open spec fn upsert_all(s: Seq<ChunkView>, cs: Seq<ChunkView>) -> Seq<ChunkView>
    decreases cs.len(),
{
    if cs.len() == 0 {
        s
    } else {
        upsert(upsert_all(s, cs.drop_last()), cs.last())
    }
}

proof fn lemma_upsert_at(s: Seq<ChunkView>, c: ChunkView, p: int)
    requires
        0 <= p <= s.len(),
        forall|i: int| 0 <= i < p ==> key_lt(#[trigger] s[i].key, c.key),
        p < s.len() ==> !key_lt(s[p].key, c.key),
    ensures
        p < s.len() && s[p].key == c.key ==> upsert(s, c) == s.subrange(0, p) + seq![merged(s[p], c)]
            + s.subrange(p + 1, s.len() as int),
        !(p < s.len() && s[p].key == c.key) ==> upsert(s, c) == s.subrange(0, p) + seq![c] + s.subrange(
            p,
            s.len() as int,
        ),
    decreases p,
{
    if p == 0 {
        assert(s.subrange(0, 0) + seq![c] + s.subrange(0, s.len() as int) =~= seq![c] + s);
        if s.len() > 0 {
            assert(s.subrange(0, 0) + seq![merged(s[0], c)] + s.subrange(1, s.len() as int) =~= seq![merged(s[0], c)] + s.drop_first());
        }
    } else {
        let t = s.drop_first();
        assert forall|i: int| 0 <= i < p - 1 implies key_lt(#[trigger] t[i].key, c.key) by {
            assert(t[i] == s[i + 1]);
        }
        lemma_upsert_at(t, c, p - 1);
        assert(key_lt(s[0].key, c.key));
        if p < s.len() && s[p].key == c.key {
            assert(seq![s[0]] + (t.subrange(0, p - 1) + seq![merged(t[p - 1], c)] + t.subrange(p, t.len() as int))
                =~= s.subrange(0, p) + seq![merged(s[p], c)] + s.subrange(p + 1, s.len() as int));
        } else {
            assert(seq![s[0]] + (t.subrange(0, p - 1) + seq![c] + t.subrange(p - 1, t.len() as int))
                =~= s.subrange(0, p) + seq![c] + s.subrange(p, s.len() as int));
        }
    }
}

/// Writes `c` into the ordered chunks `v`.
fn upsert_into(v: &mut Vec<Chunk>, c: Chunk)
    requires
        strictly_ordered(views(old(v)@)),
    ensures
        views(final(v)@) == upsert(views(old(v)@), c@),
        strictly_ordered(views(final(v)@)),
{
    let ghost s = views(v@);
    let mut p: usize = 0;
    while p < v.len() && key_less(v[p].key, c.key)
        invariant
            p <= v@.len(),
            s == views(v@),
            forall|i: int| 0 <= i < p ==> key_lt(#[trigger] s[i].key, c.key),
        decreases v@.len() - p,
    {
        p = p + 1;
    }
    proof {
        lemma_upsert_at(s, c@, p as int);
    }
    if p < v.len() && v[p].key.chapter_index == c.key.chapter_index && v[p].key.sequence_index == c.key.sequence_index {
        let mut c = c;
        if c.embedding.is_none() {
            c.embedding = copy_opt_vec(&v[p].embedding);
        }
        let ghost m = c@;
        v.remove(p);
        v.insert(p, c);
        proof {
            assert(m == merged(s[p as int], m));
            assert(views(v@) =~= s.subrange(0, p as int) + seq![m] + s.subrange(p + 1, s.len() as int));
        }
    } else {
        let ghost m = c@;
        v.insert(p, c);
        proof {
            assert(views(v@) =~= s.subrange(0, p as int) + seq![m] + s.subrange(p as int, s.len() as int));
        }
    }
    proof {
        let r = views(v@);
        assert forall|i: int, j: int| 0 <= i < j < r.len() implies key_lt(#[trigger] r[i].key, #[trigger] r[j].key) by {
            if i < p && j > p {
                assert(key_lt(s[i].key, c@.key));
            }
        }
    }
}

/// Every chunk that `upsert` leaves is one of `s` or merged from `c`.
proof fn lemma_upsert_members(s: Seq<ChunkView>, c: ChunkView)
    ensures
        forall|j: int| 0 <= j < upsert(s, c).len() ==> {
            let u = #[trigger] upsert(s, c)[j];
            u == c || (exists|i: int| 0 <= i < s.len() && (u == s[i] || u == merged(s[i], c)))
        },
    decreases s.len(),
{
    if s.len() > 0 && !key_lt(c.key, s[0].key) && c.key != s[0].key {
        lemma_upsert_members(s.drop_first(), c);
        let u = upsert(s, c);
        let t = s.drop_first();
        assert forall|j: int| 0 <= j < u.len() implies {
            let x = #[trigger] u[j];
            x == c || (exists|i: int| 0 <= i < s.len() && (x == s[i] || x == merged(s[i], c)))
        } by {
            if j == 0 {
                assert(u[0] == s[0]);
            } else {
                assert(u[j] == upsert(t, c)[j - 1]);
                let x = u[j];
                if x != c {
                    let i = choose|i: int| 0 <= i < t.len() && (x == t[i] || x == merged(t[i], c));
                    assert(t[i] == s[i + 1]);
                }
            }
        }
    } else if s.len() > 0 && c.key == s[0].key {
        let u = upsert(s, c);
        assert forall|j: int| 0 <= j < u.len() implies {
            let x = #[trigger] u[j];
            x == c || (exists|i: int| 0 <= i < s.len() && (x == s[i] || x == merged(s[i], c)))
        } by {
            if j == 0 {
                assert(u[0] == merged(s[0], c));
            } else {
                assert(u[j] == s[j]);
            }
        }
    } else if s.len() > 0 {
        let u = upsert(s, c);
        assert forall|j: int| 0 <= j < u.len() implies {
            let x = #[trigger] u[j];
            x == c || (exists|i: int| 0 <= i < s.len() && (x == s[i] || x == merged(s[i], c)))
        } by {
            if j > 0 {
                assert(u[j] == s[j - 1]);
            }
        }
    }
}

/// How many chunks of `s` carry an embedding.
pub open spec fn embedded_count(s: Seq<ChunkView>) -> nat
    decreases s.len(),
{
    if s.len() == 0 {
        0
    } else {
        embedded_count(s.drop_last()) + if s.last().embedding is Some {
            1nat
        } else {
            0nat
        }
    }
}

/// The chunks of one document, in document order.
pub struct DocumentChunks {
    pub document_id: String,
    pub chunks: Vec<Chunk>,
}

/// Chunks and their embeddings, kept per document in document order.
pub struct VectorStore {
    pub dimension: usize,
    pub documents: Vec<DocumentChunks>,
}

/// Whether the embedding of `c`, if it has one, is valid for dimension `dim`.
pub open spec fn embedding_fits(c: ChunkView, dim: nat) -> bool {
    c.embedding matches Some(e) ==> valid_embedding(e, dim)
}

impl VectorStore {
    /// Each document appears once; its chunks belong to it, stand in strict
    /// document order, and carry embeddings of the store's dimension.
    pub open spec fn wf(&self) -> bool {
        &&& self.dimension <= MAX_DIMENSION
        &&& forall|i: int, j: int|
            0 <= i < j < self.documents@.len() ==> #[trigger] self.documents@[i].document_id@
                != #[trigger] self.documents@[j].document_id@
        &&& forall|i: int|
            0 <= i < self.documents@.len() ==> strictly_ordered(
                views(#[trigger] self.documents@[i].chunks@),
            )
        &&& forall|i: int, k: int|
            0 <= i < self.documents@.len() && 0 <= k < self.documents@[i].chunks@.len()
                ==> #[trigger] self.documents@[i].chunks@[k]@.document_id
                == self.documents@[i].document_id@
                && embedding_fits(self.documents@[i].chunks@[k]@, self.dimension as nat)
    }

    /// The stored chunks of document `doc`, in document order.
    pub open spec fn chunks_of(&self, doc: Seq<char>) -> Seq<ChunkView> {
        if exists|i: int| 0 <= i < self.documents@.len() && #[trigger] self.documents@[i].document_id@ == doc {
            let i = choose|i: int| 0 <= i < self.documents@.len() && #[trigger] self.documents@[i].document_id@ == doc;
            views(self.documents@[i].chunks@)
        } else {
            seq![]
        }
    }

    /// An empty store for embeddings of `dimension` values.
    pub fn new(dimension: usize) -> (r: VectorStore)
        requires
            dimension <= MAX_DIMENSION,
        ensures
            r.wf(),
            r.dimension == dimension,
            forall|d: Seq<char>| #[trigger] r.chunks_of(d) == Seq::<ChunkView>::empty(),
    {
        VectorStore { dimension, documents: Vec::new() }
    }

    proof fn lemma_chunks_at(&self, i: int)
        requires
            self.wf(),
            0 <= i < self.documents@.len(),
        ensures
            self.chunks_of(self.documents@[i].document_id@) == views(self.documents@[i].chunks@),
    {
        let doc = self.documents@[i].document_id@;
        let j = choose|j: int| 0 <= j < self.documents@.len() && #[trigger] self.documents@[j].document_id@ == doc;
        if j != i {
            if j < i {
                assert(self.documents@[j].document_id@ != self.documents@[i].document_id@);
            } else {
                assert(self.documents@[i].document_id@ != self.documents@[j].document_id@);
            }
        }
    }

    /// Every stored chunk of `doc` has an embedding of the store's dimension, if any.
    pub proof fn lemma_chunks_of_fit(&self, doc: Seq<char>)
        requires
            self.wf(),
        ensures
            forall|k: int| 0 <= k < self.chunks_of(doc).len() ==> embedding_fits(#[trigger] self.chunks_of(doc)[k], self.dimension as nat),
            strictly_ordered(self.chunks_of(doc)),
            forall|k: int| 0 <= k < self.chunks_of(doc).len() ==> (#[trigger] self.chunks_of(doc)[k]).document_id == doc,
    {
        if exists|i: int| 0 <= i < self.documents@.len() && #[trigger] self.documents@[i].document_id@ == doc {
            let i = choose|i: int| 0 <= i < self.documents@.len() && #[trigger] self.documents@[i].document_id@ == doc;
            let cs = self.chunks_of(doc);
            assert forall|k: int| 0 <= k < cs.len() implies embedding_fits(#[trigger] cs[k], self.dimension as nat) && cs[k].document_id == doc by {
                assert(cs[k] == self.documents@[i].chunks@[k]@);
                assert(self.documents@[i].chunks@[k]@.document_id == self.documents@[i].document_id@);
            }
        }
    }

    /// The place of document `doc` in the store, if it has one.
    fn find(&self, doc: &String) -> (r: Option<usize>)
        requires
            self.wf(),
        ensures
            r matches Some(i) ==> i < self.documents@.len() && self.documents@[i as int].document_id@ == doc@
                && self.chunks_of(doc@) == views(self.documents@[i as int].chunks@),
            r is None ==> forall|i: int| 0 <= i < self.documents@.len() ==> #[trigger] self.documents@[i].document_id@ != doc@,
            r is None ==> self.chunks_of(doc@) == Seq::<ChunkView>::empty(),
    {
        let mut i: usize = 0;
        while i < self.documents.len()
            invariant
                self.wf(),
                i <= self.documents@.len(),
                forall|j: int| 0 <= j < i ==> #[trigger] self.documents@[j].document_id@ != doc@,
            decreases self.documents@.len() - i,
        {
            if self.documents[i].document_id == *doc {
                proof {
                    self.lemma_chunks_at(i as int);
                }
                return Some(i);
            }
            i = i + 1;
        }
        None
    }

    /// The chunks of `document_id`, in document order; empty for a document
    /// that has none.
    pub fn scan(&self, document_id: &String) -> (r: Vec<Chunk>)
        requires
            self.wf(),
        ensures
            views(r@) == self.chunks_of(document_id@),
    {
        let mut out: Vec<Chunk> = Vec::new();
        match self.find(document_id) {
            None => out,
            Some(i) => {
                let src = &self.documents[i].chunks;
                let mut k: usize = 0;
                while k < src.len()
                    invariant
                        k <= src@.len(),
                        out@.len() == k,
                        views(out@) == views(src@).subrange(0, k as int),
                    decreases src@.len() - k,
                {
                    let c = src[k].duplicate();
                    let ghost before = out@;
                    out.push(c);
                    proof {
                        assert forall|j: int| 0 <= j <= k implies #[trigger] views(out@)[j] == views(src@).subrange(0, k + 1)[j] by {
                            if j < k {
                                assert(out@[j] == before[j]);
                                assert(views(before)[j] == views(src@).subrange(0, k as int)[j]);
                            }
                        }
                    }
                    k = k + 1;
                    assert(views(out@) =~= views(src@).subrange(0, k as int));
                }
                assert(views(src@).subrange(0, k as int) =~= views(src@));
                out
            },
        }
    }

    /// How many chunks `document_id` has, and how many of them carry an embedding.
    pub fn count(&self, document_id: &String) -> (r: (usize, usize))
        requires
            self.wf(),
        ensures
            r.0 == self.chunks_of(document_id@).len(),
            r.1 == embedded_count(self.chunks_of(document_id@)),
    {
        match self.find(document_id) {
            None => (0, 0),
            Some(i) => {
                let src = &self.documents[i].chunks;
                let mut k: usize = 0;
                let mut n: usize = 0;
                while k < src.len()
                    invariant
                        k <= src@.len(),
                        n == embedded_count(views(src@).subrange(0, k as int)),
                        n <= k,
                    decreases src@.len() - k,
                {
                    proof {
                        assert(views(src@).subrange(0, k + 1).drop_last() =~= views(src@).subrange(0, k as int));
                    }
                    if src[k].embedding.is_some() {
                        n = n + 1;
                    }
                    k = k + 1;
                }
                assert(views(src@).subrange(0, k as int) =~= views(src@));
                (k, n)
            },
        }
    }

    proof fn lemma_replace_entry(old_store: &VectorStore, new_store: &VectorStore, i: int, d: Seq<char>)
        requires
            old_store.wf(),
            0 <= i <= old_store.documents@.len(),
            new_store.dimension == old_store.dimension,
            i < old_store.documents@.len() ==> new_store.documents@ == old_store.documents@.update(
                i,
                new_store.documents@[i],
            ) && old_store.documents@[i].document_id@ == d,
            i == old_store.documents@.len() ==> new_store.documents@ == old_store.documents@.push(
                new_store.documents@[i],
            ) && forall|j: int| 0 <= j < old_store.documents@.len() ==> #[trigger] old_store.documents@[j].document_id@ != d,
            new_store.documents@[i].document_id@ == d,
            strictly_ordered(views(new_store.documents@[i].chunks@)),
            forall|k: int|
                0 <= k < new_store.documents@[i].chunks@.len() ==> #[trigger] new_store.documents@[i].chunks@[k]@.document_id == d
                    && embedding_fits(new_store.documents@[i].chunks@[k]@, new_store.dimension as nat),
        ensures
            new_store.wf(),
            new_store.chunks_of(d) == views(new_store.documents@[i].chunks@),
            forall|e: Seq<char>| e != d ==> #[trigger] new_store.chunks_of(e) == old_store.chunks_of(e),
    {
        let before = old_store.documents@;
        let after = new_store.documents@;
        assert forall|j: int| 0 <= j < after.len() && j != i implies #[trigger] after[j] == before[j] by {}
        assert forall|j: int, l: int| 0 <= j < l < after.len() implies #[trigger] after[j].document_id@ != #[trigger] after[l].document_id@ by {
            if j != i && l != i {
                assert(before[j].document_id@ != before[l].document_id@);
            } else if j == i {
                if i < before.len() {
                    assert(before[i].document_id@ != before[l].document_id@);
                }
            } else {
                if i < before.len() {
                    assert(before[j].document_id@ != before[i].document_id@);
                }
            }
        }
        assert forall|j: int| 0 <= j < after.len() implies strictly_ordered(views(#[trigger] after[j].chunks@)) by {
            if j != i {
                assert(after[j] == before[j]);
            }
        }
        assert forall|j: int, k: int| 0 <= j < after.len() && 0 <= k < after[j].chunks@.len() implies #[trigger] after[j].chunks@[k]@.document_id == after[j].document_id@
            && embedding_fits(after[j].chunks@[k]@, new_store.dimension as nat) by {
            if j != i {
                assert(after[j] == before[j]);
                assert(before[j].chunks@[k]@.document_id == before[j].document_id@);
            }
        }
        assert(new_store.dimension <= MAX_DIMENSION);
        assert(new_store.wf());
        new_store.lemma_chunks_at(i);
        assert forall|e: Seq<char>| e != d implies #[trigger] new_store.chunks_of(e) == old_store.chunks_of(e) by {
            if exists|j: int| 0 <= j < before.len() && #[trigger] before[j].document_id@ == e {
                let j = choose|j: int| 0 <= j < before.len() && #[trigger] before[j].document_id@ == e;
                old_store.lemma_chunks_at(j);
                assert(j != i);
                assert(after[j] == before[j]);
                new_store.lemma_chunks_at(j);
            } else {
                assert forall|j: int| 0 <= j < after.len() implies #[trigger] after[j].document_id@ != e by {
                    if j != i {
                        assert(after[j] == before[j]);
                    }
                }
            }
        }
    }

    /// Writes `chunks` into the store as chunks of `document_id`, first to
    /// last: each one over the stored chunk at its position (keeping the
    /// stored embedding where it brings none), or in its place in document
    /// order. Other documents are untouched.
    pub fn put_chunks(&mut self, document_id: &String, chunks: &Vec<Chunk>)
        requires
            old(self).wf(),
            forall|k: int| 0 <= k < chunks@.len() ==> (#[trigger] chunks@[k])@.document_id == document_id@
                && embedding_fits(chunks@[k]@, old(self).dimension as nat),
        ensures
            final(self).wf(),
            final(self).dimension == old(self).dimension,
            final(self).chunks_of(document_id@) == upsert_all(old(self).chunks_of(document_id@), views(chunks@)),
            forall|d: Seq<char>| d != document_id@ ==> #[trigger] final(self).chunks_of(d) == old(self).chunks_of(d),
    {
        let ghost start = self.chunks_of(document_id@);
        let (i, mut entry) = match self.find(document_id) {
            Some(i) => (i, self.documents.remove(i)),
            None => (self.documents.len(), DocumentChunks { document_id: document_id.clone(), chunks: Vec::new() }),
        };
        proof {
            if i < old(self).documents@.len() {
                assert(entry == old(self).documents@[i as int]);
                assert forall|k: int| 0 <= k < entry.chunks@.len() implies #[trigger] entry.chunks@[k]@.document_id == document_id@
                    && embedding_fits(entry.chunks@[k]@, self.dimension as nat) by {
                    assert(old(self).documents@[i as int].chunks@[k]@.document_id == old(self).documents@[i as int].document_id@);
                }
            } else {
                assert(views(entry.chunks@) =~= Seq::<ChunkView>::empty());
            }
        }
        let mut k: usize = 0;
        while k < chunks.len()
            invariant
                k <= chunks@.len(),
                entry.document_id@ == document_id@,
                strictly_ordered(views(entry.chunks@)),
                views(entry.chunks@) == upsert_all(start, views(chunks@).subrange(0, k as int)),
                forall|k: int| 0 <= k < chunks@.len() ==> (#[trigger] chunks@[k])@.document_id == document_id@
                    && embedding_fits(chunks@[k]@, self.dimension as nat),
                forall|j: int| 0 <= j < entry.chunks@.len() ==> #[trigger] entry.chunks@[j]@.document_id == document_id@
                    && embedding_fits(entry.chunks@[j]@, self.dimension as nat),
            decreases chunks@.len() - k,
        {
            let c = chunks[k].duplicate();
            let ghost before = views(entry.chunks@);
            proof {
                assert(c@ == chunks@[k as int]@);
                assert forall|i: int| 0 <= i < before.len() implies (#[trigger] before[i]).document_id == document_id@
                    && embedding_fits(before[i], self.dimension as nat) by {
                    assert(before[i] == entry.chunks@[i]@);
                }
            }
            upsert_into(&mut entry.chunks, c);
            proof {
                assert(views(chunks@).subrange(0, k + 1).drop_last() =~= views(chunks@).subrange(0, k as int));
                lemma_upsert_members(before, c@);
                assert forall|j: int| 0 <= j < entry.chunks@.len() implies #[trigger] entry.chunks@[j]@.document_id == document_id@
                    && embedding_fits(entry.chunks@[j]@, self.dimension as nat) by {
                    let x = views(entry.chunks@)[j];
                    assert(x == entry.chunks@[j]@);
                    assert(x == upsert(before, c@)[j]);
                    if x != c@ {
                        let i = choose|i: int| 0 <= i < before.len() && (x == before[i] || x == merged(before[i], c@));
                        assert(before[i].document_id == document_id@);
                    }
                }
            }
            k = k + 1;
        }
        proof {
            assert(views(chunks@).subrange(0, k as int) =~= views(chunks@));
        }
        let ghost mid = *self;
        self.documents.insert(i, entry);
        proof {
            if i < old(self).documents@.len() {
                assert(self.documents@ =~= old(self).documents@.update(i as int, self.documents@[i as int]));
            } else {
                assert(self.documents@ =~= old(self).documents@.push(self.documents@[i as int]));
            }
            VectorStore::lemma_replace_entry(old(self), self, i as int, document_id@);
        }
    }

    /// Removes every chunk of `document_id`; the other documents keep theirs.
    pub fn delete_document(&mut self, document_id: &String)
        requires
            old(self).wf(),
        ensures
            final(self).wf(),
            final(self).dimension == old(self).dimension,
            final(self).chunks_of(document_id@) == Seq::<ChunkView>::empty(),
            forall|d: Seq<char>| d != document_id@ ==> #[trigger] final(self).chunks_of(d) == old(self).chunks_of(d),
    {
        match self.find(document_id) {
            None => {},
            Some(i) => {
                let ghost before = self.documents@;
                self.documents.remove(i);
                proof {
                    let after = self.documents@;
                    assert forall|j: int| 0 <= j < after.len() implies #[trigger] after[j] == before[if j < i { j } else { j + 1 }] by {}
                    assert forall|j: int, l: int| 0 <= j < l < after.len() implies #[trigger] after[j].document_id@ != #[trigger] after[l].document_id@ by {
                        let bj = if j < i { j } else { j + 1 };
                        let bl = if l < i { l } else { l + 1 };
                        assert(after[j] == before[bj]);
                        assert(after[l] == before[bl]);
                        assert(before[bj].document_id@ != before[bl].document_id@);
                    }
                    assert forall|j: int| 0 <= j < after.len() implies strictly_ordered(views(#[trigger] after[j].chunks@)) by {
                        let bj = if j < i { j } else { j + 1 };
                        assert(after[j] == before[bj]);
                    }
                    assert forall|j: int, k: int| 0 <= j < after.len() && 0 <= k < after[j].chunks@.len() implies #[trigger] after[j].chunks@[k]@.document_id == after[j].document_id@
                        && embedding_fits(after[j].chunks@[k]@, self.dimension as nat) by {
                        let bj = if j < i { j } else { j + 1 };
                        assert(after[j] == before[bj]);
                        assert(before[bj].chunks@[k] == after[j].chunks@[k]);
                        assert(before[bj].chunks@[k]@.document_id == before[bj].document_id@);
                    }
                    assert(self.wf());
                    assert forall|d: Seq<char>| d != document_id@ implies #[trigger] self.chunks_of(d) == old(self).chunks_of(d) by {
                        if exists|j: int| 0 <= j < before.len() && #[trigger] before[j].document_id@ == d {
                            let j = choose|j: int| 0 <= j < before.len() && #[trigger] before[j].document_id@ == d;
                            old(self).lemma_chunks_at(j);
                            let j2 = if j < i { j } else { j - 1 };
                            assert(self.documents@[j2] == before[j]);
                            self.lemma_chunks_at(j2);
                        } else {
                            assert forall|j: int| 0 <= j < self.documents@.len() implies #[trigger] self.documents@[j].document_id@ != d by {
                                if j < i {
                                    assert(self.documents@[j] == before[j]);
                                } else {
                                    assert(self.documents@[j] == before[j + 1]);
                                }
                            }
                        }
                    }
                    assert forall|j: int| 0 <= j < self.documents@.len() implies #[trigger] self.documents@[j].document_id@ != document_id@ by {
                        if j < i {
                            assert(self.documents@[j] == before[j]);
                        } else {
                            assert(self.documents@[j] == before[j + 1]);
                        }
                    }
                }
            },
        }
    }
}

} // verus!

verus! {

/// Whether some chunk of `s` stands at position `k`.
pub open spec fn has_key(s: Seq<ChunkView>, k: ChunkKey) -> bool {
    exists|j: int| 0 <= j < s.len() && (#[trigger] s[j]).key == k
}

proof fn lemma_upsert_keys(s: Seq<ChunkView>, c: ChunkView)
    requires
        strictly_ordered(s),
    ensures
        strictly_ordered(upsert(s, c)),
        has_key(upsert(s, c), c.key),
        forall|i: int| 0 <= i < s.len() ==> has_key(upsert(s, c), (#[trigger] s[i]).key),
    decreases s.len(),
{
    let u = upsert(s, c);
    if s.len() == 0 {
        assert(u[0] == c);
    } else if key_lt(c.key, s[0].key) {
        assert(u[0] == c);
        assert forall|i: int| 0 <= i < s.len() implies has_key(u, (#[trigger] s[i]).key) by {
            assert(u[i + 1] == s[i]);
        }
        assert forall|i: int, j: int| 0 <= i < j < u.len() implies key_lt(#[trigger] u[i].key, #[trigger] u[j].key) by {
            if i == 0 && j > 1 {
                assert(key_lt(s[0].key, s[j - 1].key));
            }
        }
    } else if c.key == s[0].key {
        assert(u[0] == merged(s[0], c));
        assert forall|i: int| 0 <= i < s.len() implies has_key(u, (#[trigger] s[i]).key) by {
            assert(u[i].key == s[i].key);
        }
        assert forall|i: int, j: int| 0 <= i < j < u.len() implies key_lt(#[trigger] u[i].key, #[trigger] u[j].key) by {
            assert(u[i].key == s[i].key);
            assert(u[j].key == s[j].key);
        }
    } else {
        let t = s.drop_first();
        let r = upsert(t, c);
        assert forall|i: int, j: int| 0 <= i < j < t.len() implies key_lt(#[trigger] t[i].key, #[trigger] t[j].key) by {
            assert(t[i] == s[i + 1]);
            assert(t[j] == s[j + 1]);
        }
        lemma_upsert_keys(t, c);
        lemma_upsert_members(t, c);
        assert(u[0] == s[0]);
        let jc = choose|j: int| 0 <= j < r.len() && (#[trigger] r[j]).key == c.key;
        assert(u[jc + 1] == r[jc]);
        assert forall|i: int| 0 <= i < s.len() implies has_key(u, (#[trigger] s[i]).key) by {
            if i > 0 {
                assert(t[i - 1] == s[i]);
                assert(has_key(r, t[i - 1].key));
                let j = choose|j: int| 0 <= j < r.len() && (#[trigger] r[j]).key == t[i - 1].key;
                assert(u[j + 1] == r[j]);
            }
        }
        assert forall|i: int, j: int| 0 <= i < j < u.len() implies key_lt(#[trigger] u[i].key, #[trigger] u[j].key) by {
            assert(u[j] == r[j - 1]);
            if i == 0 {
                let x = r[j - 1];
                if x != c {
                    let l = choose|l: int| 0 <= l < t.len() && (x == t[l] || x == merged(t[l], c));
                    assert(t[l] == s[l + 1]);
                }
            } else {
                assert(u[i] == r[i - 1]);
            }
        }
    }
}

/// Writing chunks and reading them back: after `put_chunks`, the document's
/// chunks stand in strict document order, so none twice, and every chunk
/// that was stored before or written now has its position among them.
pub proof fn lemma_put_then_scan(s: Seq<ChunkView>, cs: Seq<ChunkView>)
    requires
        strictly_ordered(s),
    ensures
        strictly_ordered(upsert_all(s, cs)),
        forall|k: int| 0 <= k < cs.len() ==> has_key(upsert_all(s, cs), (#[trigger] cs[k]).key),
        forall|i: int| 0 <= i < s.len() ==> has_key(upsert_all(s, cs), (#[trigger] s[i]).key),
    decreases cs.len(),
{
    if cs.len() > 0 {
        let p = cs.drop_last();
        lemma_put_then_scan(s, p);
        let prev = upsert_all(s, p);
        lemma_upsert_keys(prev, cs.last());
        let u = upsert_all(s, cs);
        assert forall|k: int| 0 <= k < cs.len() implies has_key(u, (#[trigger] cs[k]).key) by {
            if k < cs.len() - 1 {
                assert(p[k] == cs[k]);
                let j = choose|j: int| 0 <= j < prev.len() && (#[trigger] prev[j]).key == p[k].key;
                assert(has_key(u, prev[j].key));
            }
        }
        assert forall|i: int| 0 <= i < s.len() implies has_key(u, (#[trigger] s[i]).key) by {
            let j = choose|j: int| 0 <= j < prev.len() && (#[trigger] prev[j]).key == s[i].key;
            assert(has_key(u, prev[j].key));
        }
    }
}

} // verus!

verus! {

/// A run is complete when every chunk carries an embedding: then each of
/// them has one, of the store's dimension.
pub proof fn lemma_all_embedded(store: &VectorStore, doc: Seq<char>)
    requires
        store.wf(),
        embedded_count(store.chunks_of(doc)) == store.chunks_of(doc).len(),
    ensures
        forall|k: int|
            0 <= k < store.chunks_of(doc).len() ==> ((#[trigger] store.chunks_of(doc)[k]).embedding matches Some(e)
                && e.len() == store.dimension),
{
    store.lemma_chunks_of_fit(doc);
    lemma_count_full(store.chunks_of(doc));
}

/// No more chunks carry an embedding than there are chunks.
pub proof fn lemma_embedded_le(s: Seq<ChunkView>)
    ensures
        embedded_count(s) <= s.len(),
{
    lemma_count_full(s);
}

proof fn lemma_count_full(s: Seq<ChunkView>)
    ensures
        embedded_count(s) <= s.len(),
        embedded_count(s) == s.len() ==> forall|k: int| 0 <= k < s.len() ==> (#[trigger] s[k]).embedding is Some,
    decreases s.len(),
{
    if s.len() > 0 {
        lemma_count_full(s.drop_last());
        if embedded_count(s) == s.len() {
            assert forall|k: int| 0 <= k < s.len() implies (#[trigger] s[k]).embedding is Some by {
                if k < s.len() - 1 {
                    assert(s[k] == s.drop_last()[k]);
                }
            }
        }
    }
}

} // verus!
