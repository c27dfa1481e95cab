use vstd::prelude::*;

verus! {

/// One reading session of a book; times are in seconds since the epoch.
#[derive(Debug)]
pub struct ReadingSessionInfo {
    pub id: String,
    pub book_id: String,
    pub total_active_time: i64,
    pub pages_read: i32,
    pub started_at: i64,
    pub ended_at: Option<i64>,
}

/// Reading totals of a book.
#[derive(Debug)]
pub struct ReadingStatsInfo {
    pub book_id: String,
    pub total_reading_time: i64,
    pub total_sessions: i32,
    pub total_pages_read: i32,
}

impl ReadingSessionInfo {
    /// A session of `book_id` named `id` that started at `now` and has no
    /// reading in it yet.
    pub fn started(id: String, book_id: String, now: i64) -> (r: ReadingSessionInfo)
        ensures
            r.id == id,
            r.book_id == book_id,
            r.total_active_time == 0,
            r.pages_read == 0,
            r.started_at == now,
            r.ended_at is None,
    {
        ReadingSessionInfo { id, book_id, total_active_time: 0, pages_read: 0, started_at: now, ended_at: None }
    }
}

impl ReadingStatsInfo {
    /// The totals of a book with no recorded session.
    pub fn unread(book_id: String) -> (r: ReadingStatsInfo)
        ensures
            r.book_id == book_id,
            r.total_reading_time == 0,
            r.total_sessions == 0,
            r.total_pages_read == 0,
    {
        ReadingStatsInfo { book_id, total_reading_time: 0, total_sessions: 0, total_pages_read: 0 }
    }
}

} // verus!
