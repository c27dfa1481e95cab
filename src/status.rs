use vstd::prelude::*;

use crate::coordinator::{Coordinator, Run, RunState};
use crate::model::ChunkView;
use crate::store::{embedded_count, VectorStore};

verus! {

/// What the status of a document reports: the state of its run and the
/// run's counts, or, without a run, the chunks in the store (complete when
/// there are some and all carry an embedding, else idle).
pub open spec fn reported(run: Option<Run>, s: Seq<ChunkView>) -> (RunState, nat, nat) {
    match run {
        Some(r) => (r.state, r.total_chunks as nat, r.processed_chunks as nat),
        None => (
            if s.len() > 0 && embedded_count(s) == s.len() {
                RunState::Complete
            } else {
                RunState::Idle
            },
            s.len(),
            embedded_count(s),
        ),
    }
}

/// The lower-case name of a run state.
pub open spec fn state_label(s: RunState) -> Seq<char> {
    match s {
        RunState::Idle => "idle"@,
        RunState::Chunking => "chunking"@,
        RunState::Embedding => "embedding"@,
        RunState::Complete => "complete"@,
        RunState::Failed => "failed"@,
        RunState::Cancelled => "cancelled"@,
    }
}

/// `n`, or the largest `u32` where `n` is larger.
pub open spec fn clamp32(n: nat) -> u32 {
    if n > u32::MAX {
        u32::MAX
    } else {
        n as u32
    }
}

/// The vectorization status of a book, as the interface shows it.
#[derive(Debug)]
pub struct VectorizeStatus {
    pub book_id: String,
    pub total_chunks: u32,
    pub processed_chunks: u32,
    pub status: String,
}

/// The lower-case name of a run state.
pub fn state_name(s: RunState) -> (r: String)
    ensures
        r@ == state_label(s),
{
    match s {
        RunState::Idle => "idle".to_owned(),
        RunState::Chunking => "chunking".to_owned(),
        RunState::Embedding => "embedding".to_owned(),
        RunState::Complete => "complete".to_owned(),
        RunState::Failed => "failed".to_owned(),
        RunState::Cancelled => "cancelled".to_owned(),
    }
}

fn to_u32(n: usize) -> (r: u32)
    ensures
        r == clamp32(n as nat),
{
    if n > 4294967295 {
        4294967295
    } else {
        n as u32
    }
}

impl Coordinator {
    /// The state and counts of the vectorization of `book_id`.
    pub fn status(&self, store: &VectorStore, book_id: &String) -> (r: (RunState, usize, usize))
        requires
            store.wf(),
        ensures
            (r.0, r.1 as nat, r.2 as nat) == reported(self.run_of(book_id@), store.chunks_of(book_id@)),
    {
        match self.run(book_id) {
            Some(run) => (run.state, run.total_chunks, run.processed_chunks),
            None => {
                let (total, done) = store.count(book_id);
                let state = if total > 0 && done == total {
                    RunState::Complete
                } else {
                    RunState::Idle
                };
                (state, total, done)
            },
        }
    }

    /// The vectorization status of `book_id` as the interface shows it: the
    /// state by name, and the counts, held at the largest `u32`.
    pub fn get_vectorize_status(&self, store: &VectorStore, book_id: &String) -> (r: VectorizeStatus)
        requires
            store.wf(),
        ensures
            r.book_id@ == book_id@,
            ({
                let (s, t, p) = reported(self.run_of(book_id@), store.chunks_of(book_id@));
                &&& r.status@ == state_label(s)
                &&& r.total_chunks == clamp32(t)
                &&& r.processed_chunks == clamp32(p)
            }),
    {
        let (state, total, done) = self.status(store, book_id);
        VectorizeStatus {
            book_id: book_id.clone(),
            total_chunks: to_u32(total),
            processed_chunks: to_u32(done),
            status: state_name(state),
        }
    }
}

} // verus!
