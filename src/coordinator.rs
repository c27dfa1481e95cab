use vstd::prelude::*;

use crate::chunker::{chunk, document_chunks, lemma_document_chunks_fresh, ChunkConfig};
use crate::epub::EpubChapter;
use crate::error::RagError;
use crate::model::{valid_embedding, views, Chunk, ChunkView};
use crate::store::{embedded_count, upsert_all, VectorStore};

verus! {

/// Where a vectorization run stands.
#[derive(Clone, Copy, Debug, PartialEq, Eq, Structural)]
pub enum RunState {
    Idle,
    Chunking,
    Embedding,
    Complete,
    Failed,
    Cancelled,
}

/// Whether a run in `s` still has work to do.
pub open spec fn active(s: RunState) -> bool {
    s == RunState::Chunking || s == RunState::Embedding
}

/// The record of one vectorization run.
#[derive(Clone, Copy, Debug, PartialEq, Eq, Structural)]
pub struct Run {
    pub state: RunState,
    pub total_chunks: usize,
    pub processed_chunks: usize,
    pub error: Option<RagError>,
    pub cancel_requested: bool,
}

/// The run of one document.
pub struct Job {
    pub document_id: String,
    pub run: Run,
}

/// The first job of `doc` at or after place `i`.
pub open spec fn find_from(jobs: Seq<Job>, doc: Seq<char>, i: int) -> Option<int>
    decreases jobs.len() - i,
{
    if i < 0 || i >= jobs.len() {
        None
    } else if jobs[i].document_id@ == doc {
        Some(i)
    } else {
        find_from(jobs, doc, i + 1)
    }
}

proof fn lemma_find_from_bounds(jobs: Seq<Job>, doc: Seq<char>, i: int)
    requires
        0 <= i,
    ensures
        find_from(jobs, doc, i) matches Some(j) ==> i <= j < jobs.len() && jobs[j].document_id@ == doc,
        find_from(jobs, doc, i) is None ==> forall|j: int| i <= j < jobs.len() ==> #[trigger] jobs[j].document_id@ != doc,
    decreases jobs.len() - i,
{
    if i < jobs.len() && jobs[i].document_id@ != doc {
        lemma_find_from_bounds(jobs, doc, i + 1);
    }
}

proof fn lemma_find_from_update(jobs: Seq<Job>, p: int, job: Job, doc: Seq<char>, i: int)
    requires
        0 <= i,
        0 <= p < jobs.len(),
        job.document_id@ == jobs[p].document_id@,
    ensures
        find_from(jobs.update(p, job), doc, i) == find_from(jobs, doc, i),
    decreases jobs.len() - i,
{
    if i < jobs.len() {
        lemma_find_from_update(jobs, p, job, doc, i + 1);
    }
}

proof fn lemma_find_from_push(jobs: Seq<Job>, job: Job, doc: Seq<char>, i: int)
    requires
        0 <= i <= jobs.len(),
    ensures
        find_from(jobs.push(job), doc, i) == match find_from(jobs, doc, i) {
            Some(j) => Some(j),
            None => if job.document_id@ == doc {
                Some(jobs.len() as int)
            } else {
                None
            },
        },
    decreases jobs.len() - i,
{
    if i < jobs.len() {
        lemma_find_from_push(jobs, job, doc, i + 1);
        assert(jobs.push(job)[i] == jobs[i]);
    } else {
        assert(jobs.push(job)[i] == job);
        assert(find_from(jobs.push(job), doc, i + 1) is None);
    }
}

/// Decides the course of vectorization runs, one run per document at a time.
/// The caller reads chapters, calls the embedding service and waits; this
/// type takes what came back and says what holds next.
pub struct Coordinator {
    pub config: ChunkConfig,
    pub batch_size: usize,
    pub jobs: Vec<Job>,
}

/// A run that has just started.
pub open spec fn fresh_run() -> Run {
    Run { state: RunState::Chunking, total_chunks: 0, processed_chunks: 0, error: None, cancel_requested: false }
}

impl Coordinator {
    /// Chunk sizes are usable and batches hold at least one chunk.
    pub open spec fn wf(&self) -> bool {
        self.config.wf() && self.batch_size > 0
    }

    /// The run of document `doc`, if one was started.
    pub open spec fn run_of(&self, doc: Seq<char>) -> Option<Run> {
        match find_from(self.jobs@, doc, 0) {
            Some(i) => Some(self.jobs@[i].run),
            None => None,
        }
    }

    /// A coordinator with no run, cutting chunks by `config` and embedding
    /// them `batch_size` at a time.
    pub fn new(config: ChunkConfig, batch_size: usize) -> (r: Coordinator)
        requires
            config.wf(),
            batch_size > 0,
        ensures
            r.wf(),
            r.config == config,
            r.batch_size == batch_size,
            forall|d: Seq<char>| #[trigger] r.run_of(d) is None,
    {
        Coordinator { config, batch_size, jobs: Vec::new() }
    }

    /// The place of the job of `doc`, if it has one.
    fn find(&self, doc: &String) -> (r: Option<usize>)
        ensures
            r matches Some(i) ==> find_from(self.jobs@, doc@, 0) == Some(i as int) && i < self.jobs@.len(),
            r is None ==> find_from(self.jobs@, doc@, 0) is None,
    {
        let mut i: usize = 0;
        while i < self.jobs.len()
            invariant
                i <= self.jobs@.len(),
                find_from(self.jobs@, doc@, 0) == find_from(self.jobs@, doc@, i as int),
            decreases self.jobs@.len() - i,
        {
            if self.jobs[i].document_id == *doc {
                return Some(i);
            }
            i = i + 1;
        }
        None
    }

    /// Replaces the run of the job at place `i`.
    fn set_run(&mut self, i: usize, run: Run)
        requires
            i < old(self).jobs@.len(),
        ensures
            final(self).config == old(self).config,
            final(self).batch_size == old(self).batch_size,
            final(self).jobs@ == old(self).jobs@.update(
                i as int,
                Job { document_id: old(self).jobs@[i as int].document_id, run },
            ),
    {
        let doc = self.jobs[i].document_id.clone();
        self.jobs.remove(i);
        self.jobs.insert(i, Job { document_id: doc, run });
        proof {
            assert(self.jobs@ =~= old(self).jobs@.update(
                i as int,
                Job { document_id: old(self).jobs@[i as int].document_id, run },
            ));
        }
    }

    /// Records `run` as the run of `doc`, leaving the other documents' runs.
    fn record(&mut self, doc: &String, run: Run)
        requires
            old(self).wf(),
        ensures
            final(self).wf(),
            final(self).config == old(self).config,
            final(self).batch_size == old(self).batch_size,
            final(self).run_of(doc@) == Some(run),
            forall|d: Seq<char>| d != doc@ ==> #[trigger] final(self).run_of(d) == old(self).run_of(d),
    {
        match self.find(doc) {
            Some(i) => {
                let ghost before = self.jobs@;
                self.set_run(i, run);
                proof {
                    lemma_find_from_bounds(before, doc@, 0);
                    let job = Job { document_id: before[i as int].document_id, run };
                    assert forall|d: Seq<char>| true implies find_from(self.jobs@, d, 0) == find_from(before, d, 0) by {
                        lemma_find_from_update(before, i as int, job, d, 0);
                    }
                    assert forall|d: Seq<char>| d != doc@ implies #[trigger] self.run_of(d) == old(self).run_of(d) by {
                        lemma_find_from_bounds(before, d, 0);
                        match find_from(before, d, 0) {
                            Some(x) => {
                                assert(x != i);
                                assert(self.jobs@[x] == before[x]);
                            },
                            None => {},
                        }
                    }
                }
            },
            None => {
                let ghost before = self.jobs@;
                let job = Job { document_id: doc.clone(), run };
                let ghost j = job;
                self.jobs.push(job);
                proof {
                    assert forall|d: Seq<char>| true implies find_from(self.jobs@, d, 0) == match find_from(before, d, 0) {
                        Some(x) => Some(x),
                        None => if doc@ == d {
                            Some(before.len() as int)
                        } else {
                            None
                        },
                    } by {
                        lemma_find_from_push(before, j, d, 0);
                    }
                    assert(self.jobs@[before.len() as int] == j);
                    assert forall|d: Seq<char>| d != doc@ implies #[trigger] self.run_of(d) == old(self).run_of(d) by {
                        match find_from(before, d, 0) {
                            Some(x) => {
                                lemma_find_from_bounds(before, d, 0);
                                assert(self.jobs@[x] == before[x]);
                            },
                            None => {},
                        }
                    }
                }
            },
        }
    }

    /// The run of `document_id`, if one was started.
    pub fn run(&self, document_id: &String) -> (r: Option<Run>)
        ensures
            r == self.run_of(document_id@),
    {
        match self.find(document_id) {
            Some(i) => Some(self.jobs[i].run),
            None => None,
        }
    }

    /// Starts a run for `document_id` in `Chunking`. A document whose run is
    /// still chunking or embedding is refused with `AlreadyRunning`, and
    /// nothing changes.
    pub fn start_vectorization(&mut self, document_id: &String) -> (r: Result<(), RagError>)
        requires
            old(self).wf(),
        ensures
            final(self).wf(),
            final(self).config == old(self).config,
            final(self).batch_size == old(self).batch_size,
            (old(self).run_of(document_id@) matches Some(run) && active(run.state)) ==> r == Err::<(), RagError>(
                RagError::AlreadyRunning,
            ) && final(self).jobs@ == old(self).jobs@,
            !(old(self).run_of(document_id@) matches Some(run) && active(run.state)) ==> r == Ok::<(), RagError>(())
                && final(self).run_of(document_id@) == Some(fresh_run()),
            forall|d: Seq<char>| d != document_id@ ==> #[trigger] final(self).run_of(d) == old(self).run_of(d),
    {
        match self.run(document_id) {
            Some(run) => {
                if run.state == RunState::Chunking || run.state == RunState::Embedding {
                    return Err(RagError::AlreadyRunning);
                }
            },
            None => {},
        }
        self.record(
            document_id,
            Run { state: RunState::Chunking, total_chunks: 0, processed_chunks: 0, error: None, cancel_requested: false },
        );
        Ok(())
    }

    /// Asks the run of `document_id` to stop at its next step; a document
    /// without an active run is left as it is.
    pub fn cancel_vectorization(&mut self, document_id: &String)
        requires
            old(self).wf(),
        ensures
            final(self).wf(),
            final(self).config == old(self).config,
            final(self).batch_size == old(self).batch_size,
            (old(self).run_of(document_id@) matches Some(run) && active(run.state)) ==> final(self).run_of(document_id@)
                == Some(Run { cancel_requested: true, ..old(self).run_of(document_id@).unwrap() }),
            !(old(self).run_of(document_id@) matches Some(run) && active(run.state)) ==> final(self).run_of(document_id@)
                == old(self).run_of(document_id@),
            forall|d: Seq<char>| d != document_id@ ==> #[trigger] final(self).run_of(d) == old(self).run_of(d),
    {
        match self.run(document_id) {
            Some(run) => {
                if run.state == RunState::Chunking || run.state == RunState::Embedding {
                    self.record(document_id, Run { cancel_requested: true, ..run });
                }
            },
            None => {},
        }
    }
}

} // verus!

verus! {

/// `c` without its embedding.
pub open spec fn stripped(c: ChunkView) -> ChunkView {
    ChunkView { embedding: None, ..c }
}

/// The chunks `s` without their embeddings.
pub open spec fn stripped_all(s: Seq<ChunkView>) -> Seq<ChunkView> {
    s.map_values(|c: ChunkView| stripped(c))
}

/// The run that follows a chunking step, given the chunks now stored.
pub open spec fn after_chunking(run: Run, s: Seq<ChunkView>) -> Run {
    Run {
        state: if run.cancel_requested {
            RunState::Cancelled
        } else if embedded_count(s) == s.len() {
            RunState::Complete
        } else {
            RunState::Embedding
        },
        total_chunks: s.len() as usize,
        processed_chunks: embedded_count(s) as usize,
        error: None,
        cancel_requested: run.cancel_requested,
    }
}

/// The run that follows an embedded batch, given the chunks now stored.
pub open spec fn after_batch(run: Run, s: Seq<ChunkView>) -> Run {
    Run {
        state: if embedded_count(s) == s.len() {
            RunState::Complete
        } else if run.cancel_requested {
            RunState::Cancelled
        } else {
            RunState::Embedding
        },
        total_chunks: s.len() as usize,
        processed_chunks: embedded_count(s) as usize,
        ..run
    }
}

/// The chunks of `s` that still wait for an embedding, in order.
pub open spec fn pending(s: Seq<ChunkView>) -> Seq<ChunkView>
    decreases s.len(),
{
    if s.len() == 0 {
        seq![]
    } else if s.last().embedding is None {
        pending(s.drop_last()).push(s.last())
    } else {
        pending(s.drop_last())
    }
}

/// The chunks of `batch`, each given the embedding at its place in `vectors`.
pub open spec fn with_embeddings(batch: Seq<ChunkView>, vectors: Seq<Seq<i32>>) -> Seq<ChunkView> {
    Seq::new(batch.len(), |i: int| ChunkView { embedding: Some(vectors[i]), ..batch[i] })
}

fn same_opt_string(a: &Option<String>, b: &Option<String>) -> (r: bool)
    ensures
        r == (crate::model::opt_str_view(*a) == crate::model::opt_str_view(*b)),
{
    match (a, b) {
        (Some(x), Some(y)) => *x == *y,
        (None, None) => true,
        _ => false,
    }
}

/// Whether the stored chunks, without their embeddings, are exactly `fresh`.
fn same_text(stored: &Vec<Chunk>, fresh: &Vec<Chunk>) -> (r: bool)
    requires
        forall|k: int| 0 <= k < fresh@.len() ==> (#[trigger] fresh@[k])@.embedding is None,
    ensures
        r == (stripped_all(views(stored@)) == views(fresh@)),
{
    if stored.len() != fresh.len() {
        proof {
            assert(stripped_all(views(stored@)).len() != views(fresh@).len());
        }
        return false;
    }
    let mut i: usize = 0;
    while i < stored.len()
        invariant
            stored@.len() == fresh@.len(),
            i <= stored@.len(),
            forall|k: int| 0 <= k < fresh@.len() ==> (#[trigger] fresh@[k])@.embedding is None,
            forall|k: int| 0 <= k < i ==> stripped((#[trigger] stored@[k])@) == fresh@[k]@,
        decreases stored@.len() - i,
    {
        let a = &stored[i];
        let b = &fresh[i];
        let same = a.document_id == b.document_id && a.key == b.key && a.chapter_title == b.chapter_title
            && a.content == b.content && a.token_count == b.token_count && same_opt_string(&a.start_anchor, &b.start_anchor)
            && same_opt_string(&a.end_anchor, &b.end_anchor);
        if !same {
            proof {
                assert(stripped_all(views(stored@))[i as int] != views(fresh@)[i as int]);
            }
            return false;
        }
        i = i + 1;
    }
    proof {
        assert(stripped_all(views(stored@)) =~= views(fresh@));
    }
    true
}

impl Coordinator {
    /// Takes the chapters that the document reader returned for `document_id`
    /// (or its failure) while the run is chunking. A failure ends the run as
    /// `Failed` with `DocumentUnreadable`. Otherwise the chapters are cut into
    /// chunks; where the store already holds exactly these chunks, with or
    /// without embeddings, they are kept and the run resumes, else the
    /// document's chunks are replaced by the fresh ones. The run then counts
    /// the stored chunks and moves on to `Embedding`, or `Complete` where
    /// nothing is left to embed, or `Cancelled` where that was asked. A
    /// document whose run is not chunking is left as it is.
    pub fn chapters_read(
        &mut self,
        store: &mut VectorStore,
        document_id: &String,
        chapters: Result<Vec<EpubChapter>, RagError>,
    )
        requires
            old(self).wf(),
            old(store).wf(),
        ensures
            final(self).wf(),
            final(store).wf(),
            final(store).dimension == old(store).dimension,
            final(self).config == old(self).config,
            final(self).batch_size == old(self).batch_size,
            forall|d: Seq<char>| d != document_id@ ==> #[trigger] final(self).run_of(d) == old(self).run_of(d),
            forall|d: Seq<char>| d != document_id@ ==> #[trigger] final(store).chunks_of(d) == old(store).chunks_of(d),
            !(old(self).run_of(document_id@) matches Some(run) && run.state == RunState::Chunking) ==> final(self).run_of(
                document_id@,
            ) == old(self).run_of(document_id@) && final(store).chunks_of(document_id@) == old(store).chunks_of(document_id@),
            (old(self).run_of(document_id@) matches Some(run) && run.state == RunState::Chunking) ==> match chapters {
                Err(_) => final(self).run_of(document_id@) == Some(
                    Run {
                        state: RunState::Failed,
                        error: Some(RagError::DocumentUnreadable),
                        ..old(self).run_of(document_id@).unwrap()
                    },
                ) && final(store).chunks_of(document_id@) == old(store).chunks_of(document_id@),
                Ok(chs) => {
                    let fresh = document_chunks(document_id@, chs@, chs@.len(), old(self).config);
                    let before = old(store).chunks_of(document_id@);
                    let s = final(store).chunks_of(document_id@);
                    &&& s == if stripped_all(before) == fresh {
                        before
                    } else {
                        upsert_all(Seq::<ChunkView>::empty(), fresh)
                    }
                    &&& final(self).run_of(document_id@) == Some(after_chunking(old(self).run_of(document_id@).unwrap(), s))
                },
            },
    {
        let run = match self.run(document_id) {
            Some(run) => run,
            None => {
                return;
            },
        };
        if run.state != RunState::Chunking {
            return;
        }
        let chs = match chapters {
            Ok(chs) => chs,
            Err(_) => {
                self.record(document_id, Run { state: RunState::Failed, error: Some(RagError::DocumentUnreadable), ..run });
                return;
            },
        };
        let fresh = chunk(document_id, &chs, self.config);
        proof {
            lemma_document_chunks_fresh(document_id@, chs@, chs@.len(), self.config);
            assert forall|k: int| 0 <= k < fresh@.len() implies (#[trigger] fresh@[k])@.embedding is None
                && fresh@[k]@.document_id == document_id@ by {
                assert(views(fresh@)[k] == fresh@[k]@);
            }
        }
        let stored = store.scan(document_id);
        if !same_text(&stored, &fresh) {
            store.delete_document(document_id);
            proof {
                assert forall|k: int| 0 <= k < fresh@.len() implies (#[trigger] fresh@[k])@.document_id == document_id@
                    && crate::store::embedding_fits(fresh@[k]@, store.dimension as nat) by {}
            }
            store.put_chunks(document_id, &fresh);
        }
        let (total, done) = store.count(document_id);
        proof {
            crate::store::lemma_embedded_le(store.chunks_of(document_id@));
        }
        let state = if run.cancel_requested {
            RunState::Cancelled
        } else if done == total {
            RunState::Complete
        } else {
            RunState::Embedding
        };
        self.record(
            document_id,
            Run { state, total_chunks: total, processed_chunks: done, error: None, cancel_requested: run.cancel_requested },
        );
    }
}

} // verus!

verus! {

/// The first `n` chunks of `p`, or all of them where `p` is shorter.
pub open spec fn first_n(p: Seq<ChunkView>, n: nat) -> Seq<ChunkView> {
    if p.len() <= n {
        p
    } else {
        p.subrange(0, n as int)
    }
}

/// The shortest of the wait between tries `base` doubled `n` times and the
/// largest `u64`.
pub open spec fn backoff(base: nat, n: nat) -> nat
    decreases n,
{
    if n == 0 {
        base
    } else {
        2 * backoff(base, (n - 1) as nat)
    }
}

/// `x`, or the largest `u64` where `x` is larger.
pub open spec fn capped(x: nat) -> nat {
    if x > u64::MAX {
        u64::MAX as nat
    } else {
        x
    }
}

/// Whether a failed embedding call is tried again, and after how long: a
/// rate limit is tried again while tries remain, after `base_delay_ms`
/// doubled once for each try made before; every other failure is final.
pub fn retry_delay(error: RagError, attempt: u32, max_attempts: u32, base_delay_ms: u64) -> (r: Option<u64>)
    ensures
        (error == RagError::EmbeddingRateLimited && attempt + 1 < max_attempts) ==> r == Some(
            capped(backoff(base_delay_ms as nat, attempt as nat)) as u64,
        ),
        !(error == RagError::EmbeddingRateLimited && attempt + 1 < max_attempts) ==> r is None,
{
    if error != RagError::EmbeddingRateLimited || attempt >= max_attempts || max_attempts - attempt < 2 {
        return None;
    }
    let mut d: u64 = base_delay_ms;
    let mut k: u32 = 0;
    while k < attempt
        invariant
            k <= attempt,
            d as nat == capped(backoff(base_delay_ms as nat, k as nat)),
        decreases attempt - k,
    {
        if d > u64::MAX / 2 {
            d = u64::MAX;
        } else {
            d = d * 2;
        }
        k = k + 1;
    }
    Some(d)
}

impl Coordinator {
    /// The next chunks of `document_id` to embed: the first `batch_size` of
    /// the stored chunks that lack an embedding, in document order.
    pub fn next_batch(&self, store: &VectorStore, document_id: &String) -> (r: Vec<Chunk>)
        requires
            store.wf(),
        ensures
            views(r@) == first_n(pending(store.chunks_of(document_id@)), self.batch_size as nat),
    {
        let chunks = store.scan(document_id);
        let ghost cs = views(chunks@);
        let mut out: Vec<Chunk> = Vec::new();
        let mut i: usize = 0;
        while i < chunks.len()
            invariant
                i <= chunks@.len(),
                cs == views(chunks@),
                views(out@) == first_n(pending(cs.subrange(0, i as int)), self.batch_size as nat),
            decreases chunks@.len() - i,
        {
            let ghost p0 = pending(cs.subrange(0, i as int));
            proof {
                assert(cs.subrange(0, i + 1).drop_last() =~= cs.subrange(0, i as int));
                assert(cs.subrange(0, i + 1).last() == chunks@[i as int]@);
            }
            if chunks[i].embedding.is_none() && out.len() < self.batch_size {
                let ghost before = out@;
                out.push(chunks[i].duplicate());
                proof {
                    let p1 = pending(cs.subrange(0, i + 1));
                    assert(p1 == p0.push(chunks@[i as int]@));
                    assert(views(out@) =~= views(before).push(chunks@[i as int]@));
                    assert(views(out@) =~= first_n(p1, self.batch_size as nat));
                }
            } else {
                proof {
                    let p1 = pending(cs.subrange(0, i + 1));
                    if chunks@[i as int]@.embedding is None {
                        assert(p1 == p0.push(chunks@[i as int]@));
                        assert(first_n(p1, self.batch_size as nat) =~= first_n(p0, self.batch_size as nat));
                    } else {
                        assert(p1 == p0);
                    }
                }
            }
            i = i + 1;
        }
        proof {
            assert(cs.subrange(0, i as int) =~= cs);
        }
        out
    }

    /// Takes the embeddings that came back for `batch` while the run of
    /// `document_id` is embedding. Embeddings that do not match the batch
    /// (another count, another dimension, a value out of range) end the run
    /// as `Failed` with `EmbeddingInvalidInput`. Otherwise they are stored
    /// with their chunks, and the run counts the stored chunks again: it is
    /// `Complete` when all carry an embedding, else `Cancelled` where that
    /// was asked, else still embedding. A document whose run is not
    /// embedding is left as it is.
    pub fn batch_embedded(
        &mut self,
        store: &mut VectorStore,
        document_id: &String,
        batch: &Vec<Chunk>,
        vectors: &Vec<Vec<i32>>,
    )
        requires
            old(self).wf(),
            old(store).wf(),
            forall|k: int| 0 <= k < batch@.len() ==> (#[trigger] batch@[k])@.document_id == document_id@,
        ensures
            final(self).wf(),
            final(store).wf(),
            final(store).dimension == old(store).dimension,
            final(self).config == old(self).config,
            final(self).batch_size == old(self).batch_size,
            forall|d: Seq<char>| d != document_id@ ==> #[trigger] final(self).run_of(d) == old(self).run_of(d),
            forall|d: Seq<char>| d != document_id@ ==> #[trigger] final(store).chunks_of(d) == old(store).chunks_of(d),
            !(old(self).run_of(document_id@) matches Some(run) && run.state == RunState::Embedding) ==> final(self).run_of(
                document_id@,
            ) == old(self).run_of(document_id@) && final(store).chunks_of(document_id@) == old(store).chunks_of(document_id@),
            (old(self).run_of(document_id@) matches Some(run) && run.state == RunState::Embedding) ==> {
                let run = old(self).run_of(document_id@).unwrap();
                let vs = vec_views(vectors@);
                let fits = vectors@.len() == batch@.len() && forall|k: int|
                    0 <= k < vs.len() ==> valid_embedding(#[trigger] vs[k], old(store).dimension as nat);
                if fits {
                    let s = final(store).chunks_of(document_id@);
                    &&& s == upsert_all(old(store).chunks_of(document_id@), with_embeddings(views(batch@), vs))
                    &&& final(self).run_of(document_id@) == Some(after_batch(run, s))
                } else {
                    &&& final(self).run_of(document_id@) == Some(
                        Run { state: RunState::Failed, error: Some(RagError::EmbeddingInvalidInput), ..run },
                    )
                    &&& final(store).chunks_of(document_id@) == old(store).chunks_of(document_id@)
                }
            },
    {
        let run = match self.run(document_id) {
            Some(run) => run,
            None => {
                return;
            },
        };
        if run.state != RunState::Embedding {
            return;
        }
        let ghost vs = vec_views(vectors@);
        let fits = vectors.len() == batch.len() && all_valid(vectors, store.dimension);
        if !fits {
            self.record(document_id, Run { state: RunState::Failed, error: Some(RagError::EmbeddingInvalidInput), ..run });
            return;
        }
        let mut embedded: Vec<Chunk> = Vec::new();
        let mut i: usize = 0;
        while i < batch.len()
            invariant
                i <= batch@.len(),
                batch@.len() == vectors@.len(),
                vs == vec_views(vectors@),
                forall|k: int| 0 <= k < vs.len() ==> valid_embedding(#[trigger] vs[k], store.dimension as nat),
                forall|k: int| 0 <= k < batch@.len() ==> (#[trigger] batch@[k])@.document_id == document_id@,
                embedded@.len() == i,
                views(embedded@) == with_embeddings(views(batch@), vs).subrange(0, i as int),
            decreases batch@.len() - i,
        {
            let mut c = batch[i].duplicate();
            c.embedding = Some(crate::model::copy_vec(&vectors[i]));
            let ghost before = embedded@;
            let ghost cv = c@;
            embedded.push(c);
            proof {
                assert(vs[i as int] == vectors@[i as int]@);
                let w = with_embeddings(views(batch@), vs);
                assert(cv == w[i as int]);
                assert forall|j: int| 0 <= j <= i implies #[trigger] views(embedded@)[j] == w.subrange(0, i + 1)[j] by {
                    if j < i {
                        assert(embedded@[j] == before[j]);
                        assert(views(before)[j] == w.subrange(0, i as int)[j]);
                    }
                }
                assert(views(embedded@) =~= with_embeddings(views(batch@), vs).subrange(0, i + 1));
            }
            i = i + 1;
        }
        proof {
            assert(views(embedded@) =~= with_embeddings(views(batch@), vs));
            assert forall|k: int| 0 <= k < embedded@.len() implies (#[trigger] embedded@[k])@.document_id == document_id@
                && crate::store::embedding_fits(embedded@[k]@, store.dimension as nat) by {
                assert(views(embedded@)[k] == embedded@[k]@);
                assert(batch@[k]@ == views(batch@)[k]);
            }
        }
        store.put_chunks(document_id, &embedded);
        let (total, done) = store.count(document_id);
        proof {
            crate::store::lemma_embedded_le(store.chunks_of(document_id@));
        }
        let state = if done == total {
            RunState::Complete
        } else if run.cancel_requested {
            RunState::Cancelled
        } else {
            RunState::Embedding
        };
        self.record(document_id, Run { state, total_chunks: total, processed_chunks: done, ..run });
    }

    /// Ends the run of `document_id` as `Failed` with `error` when an
    /// embedding call failed for good while it was embedding.
    pub fn batch_failed(&mut self, document_id: &String, error: RagError)
        requires
            old(self).wf(),
        ensures
            final(self).wf(),
            final(self).config == old(self).config,
            final(self).batch_size == old(self).batch_size,
            forall|d: Seq<char>| d != document_id@ ==> #[trigger] final(self).run_of(d) == old(self).run_of(d),
            (old(self).run_of(document_id@) matches Some(run) && run.state == RunState::Embedding) ==> final(self).run_of(
                document_id@,
            ) == Some(Run { state: RunState::Failed, error: Some(error), ..old(self).run_of(document_id@).unwrap() }),
            !(old(self).run_of(document_id@) matches Some(run) && run.state == RunState::Embedding) ==> final(self).run_of(
                document_id@,
            ) == old(self).run_of(document_id@),
    {
        match self.run(document_id) {
            Some(run) => {
                if run.state == RunState::Embedding {
                    self.record(document_id, Run { state: RunState::Failed, error: Some(error), ..run });
                }
            },
            None => {},
        }
    }
}

/// The values of a sequence of vectors.
pub open spec fn vec_views(v: Seq<Vec<i32>>) -> Seq<Seq<i32>> {
    v.map_values(|x: Vec<i32>| x@)
}

/// Whether every vector is a valid embedding of dimension `dim`.
fn all_valid(vectors: &Vec<Vec<i32>>, dim: usize) -> (r: bool)
    ensures
        r == forall|k: int| 0 <= k < vectors@.len() ==> valid_embedding(#[trigger] vec_views(vectors@)[k], dim as nat),
{
    let ghost vs = vec_views(vectors@);
    let mut i: usize = 0;
    while i < vectors.len()
        invariant
            i <= vectors@.len(),
            vs == vec_views(vectors@),
            forall|k: int| 0 <= k < i ==> valid_embedding(#[trigger] vs[k], dim as nat),
        decreases vectors@.len() - i,
    {
        let v = &vectors[i];
        if v.len() != dim {
            proof {
                assert(!valid_embedding(vs[i as int], dim as nat));
            }
            return false;
        }
        let mut j: usize = 0;
        while j < v.len()
            invariant
                i < vectors@.len(),
                *v == vectors@[i as int],
                vs == vec_views(vectors@),
                v@.len() == dim,
                forall|k: int| 0 <= k < i ==> valid_embedding(#[trigger] vs[k], dim as nat),
                j <= v@.len(),
                forall|l: int| 0 <= l < j ==> -crate::model::EMBED_UNIT <= #[trigger] v@[l] <= crate::model::EMBED_UNIT,
            decreases v@.len() - j,
        {
            if v[j] < -crate::model::EMBED_UNIT || v[j] > crate::model::EMBED_UNIT {
                proof {
                    assert(vs[i as int] == v@);
                    assert(!valid_embedding(vs[i as int], dim as nat));
                }
                return false;
            }
            j = j + 1;
        }
        proof {
            assert(vs[i as int] == v@);
        }
        i = i + 1;
    }
    true
}

} // verus!

verus! {

/// A run that reaches `Complete`, after chunking or after a batch, has
/// processed every chunk: its counts agree, and every stored chunk of the
/// document carries an embedding of the store's dimension.
pub proof fn lemma_complete_run(store: &VectorStore, doc: Seq<char>, before: Run, after_chunks: bool)
    requires
        store.wf(),
        ({
            let s = store.chunks_of(doc);
            let run = if after_chunks {
                after_chunking(before, s)
            } else {
                after_batch(before, s)
            };
            run.state == RunState::Complete
        }),
    ensures
        ({
            let s = store.chunks_of(doc);
            let run = if after_chunks {
                after_chunking(before, s)
            } else {
                after_batch(before, s)
            };
            run.processed_chunks == run.total_chunks
        }),
        forall|k: int|
            0 <= k < store.chunks_of(doc).len() ==> ((#[trigger] store.chunks_of(doc)[k]).embedding matches Some(e)
                && e.len() == store.dimension),
{
    crate::store::lemma_all_embedded(store, doc);
}

/// Cancelling in the middle of embedding: once the batch under way has come
/// back, the run stops as `Cancelled` (or `Complete`, if that batch was the
/// last), and no chunk is lost: the document keeps every chunk it had, now
/// including the batch's embeddings, in document order.
pub proof fn lemma_cancel_keeps_chunks(run: Run, stored: Seq<ChunkView>, embedded: Seq<ChunkView>)
    requires
        run.state == RunState::Embedding,
        run.cancel_requested,
        crate::store::strictly_ordered(stored),
    ensures
        ({
            let s = upsert_all(stored, embedded);
            &&& after_batch(run, s).state == RunState::Cancelled || after_batch(run, s).state == RunState::Complete
            &&& after_batch(run, s).state == RunState::Cancelled <==> embedded_count(s) < s.len()
            &&& crate::store::strictly_ordered(s)
            &&& forall|i: int| 0 <= i < stored.len() ==> crate::store::has_key(s, (#[trigger] stored[i]).key)
            &&& forall|k: int| 0 <= k < embedded.len() ==> crate::store::has_key(s, (#[trigger] embedded[k]).key)
        }),
{
    crate::store::lemma_put_then_scan(stored, embedded);
    crate::store::lemma_embedded_le(upsert_all(stored, embedded));
}

} // verus!
