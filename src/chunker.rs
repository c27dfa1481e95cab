use vstd::prelude::*;

use crate::epub::EpubChapter;
use crate::model::{views, Chunk, ChunkKey, ChunkView};
use crate::text::{chars_of, is_space, space_char};
use vstd::string::StrSliceExecFns;

verus! {

/// Sizes that govern how a chapter is cut into chunks.
#[derive(Clone, Copy, Debug, PartialEq, Eq, Structural)]
pub struct ChunkConfig {
    pub max_chunk_tokens: usize,
    pub overlap_tokens: usize,
}

pub const DEFAULT_MAX_CHUNK_TOKENS: usize = 512;

pub const DEFAULT_OVERLAP_TOKENS: usize = 64;

impl ChunkConfig {
    /// A chunk holds at least one token, and the overlap leaves each chunk a new token.
    pub open spec fn wf(self) -> bool {
        0 < self.max_chunk_tokens && self.overlap_tokens < self.max_chunk_tokens
    }

    /// How far each chunk starts after the previous one, in tokens.
    pub open spec fn step(self) -> nat {
        (self.max_chunk_tokens - self.overlap_tokens) as nat
    }

    /// The usual sizes: chunks of at most 512 tokens overlapping by 64.
    pub fn standard() -> (r: ChunkConfig)
        ensures
            r.max_chunk_tokens == DEFAULT_MAX_CHUNK_TOKENS,
            r.overlap_tokens == DEFAULT_OVERLAP_TOKENS,
            r.wf(),
    {
        ChunkConfig { max_chunk_tokens: DEFAULT_MAX_CHUNK_TOKENS, overlap_tokens: DEFAULT_OVERLAP_TOKENS }
    }
}

/// Whether some character of `t` before `k` belongs to a word.
pub open spec fn word_before(t: Seq<char>, k: int) -> bool {
    exists|j: int| 0 <= j < k && !space_char(#[trigger] t[j])
}

/// A token starts at `i` when a word follows a separator there, and a word
/// came before: separators at the start of the text open no token.
pub open spec fn starts_token(t: Seq<char>, i: int) -> bool {
    0 < i < t.len() && space_char(t[i - 1]) && !space_char(t[i]) && word_before(t, i - 1)
}

/// The positions in `1..i` at which a token starts, in increasing order.
pub open spec fn starts_before(t: Seq<char>, i: nat) -> Seq<nat>
    decreases i,
{
    if i <= 1 {
        seq![]
    } else if starts_token(t, i - 1) {
        starts_before(t, (i - 1) as nat).push((i - 1) as nat)
    } else {
        starts_before(t, (i - 1) as nat)
    }
}

/// The token boundaries of `t`: token `j` spans `b[j]..b[j + 1]`. A token is
/// a word with the separators after it; separators before the first word
/// belong to the first token.
#[verifier::opaque]
pub open spec fn token_bounds(t: Seq<char>) -> Seq<nat> {
    if t.len() == 0 {
        seq![]
    } else {
        seq![0nat] + starts_before(t, t.len()) + seq![t.len()]
    }
}

/// The number of tokens of `t`.
pub open spec fn token_total(t: Seq<char>) -> nat {
    if t.len() == 0 {
        0
    } else {
        (token_bounds(t).len() - 1) as nat
    }
}

/// Greedy windows over `m` tokens from token `start`: each holds up to
/// `max` tokens, and the next starts `step` tokens later, until one reaches the end.
#[verifier::opaque]
pub open spec fn windows_from(m: nat, max: nat, step: nat, start: nat) -> Seq<(nat, nat)>
    decreases m - start,
{
    if start + max >= m || step == 0 || step > max {
        seq![(start, m)]
    } else {
        seq![(start, start + max)] + windows_from(m, max, step, start + step)
    }
}

/// The token windows of a chapter of `m` tokens.
pub open spec fn token_windows(m: nat, cfg: ChunkConfig) -> Seq<(nat, nat)> {
    if m == 0 {
        seq![]
    } else {
        windows_from(m, cfg.max_chunk_tokens as nat, cfg.step(), 0)
    }
}

/// The chunk cut from the token window `w` of chapter text `t`.
#[verifier::opaque]
pub open spec fn window_chunk(
    doc: Seq<char>,
    chapter_index: nat,
    title: Seq<char>,
    t: Seq<char>,
    w: (nat, nat),
    k: nat,
) -> ChunkView {
    let b = token_bounds(t);
    ChunkView {
        document_id: doc,
        key: ChunkKey { chapter_index: chapter_index as usize, sequence_index: k as usize },
        chapter_title: title,
        content: t.subrange(b[w.0 as int] as int, b[w.1 as int] as int),
        token_count: (w.1 - w.0) as nat,
        start_anchor: None,
        end_anchor: None,
        embedding: None,
    }
}

/// The chunks of one chapter, in order.
pub open spec fn chapter_chunks(
    doc: Seq<char>,
    chapter_index: nat,
    title: Seq<char>,
    t: Seq<char>,
    cfg: ChunkConfig,
) -> Seq<ChunkView> {
    let w = token_windows(token_total(t), cfg);
    Seq::new(w.len(), |k: int| window_chunk(doc, chapter_index, title, t, w[k], k as nat))
}

/// The chunks of the first `n` chapters, in document order.
pub open spec fn document_chunks(
    doc: Seq<char>,
    chapters: Seq<EpubChapter>,
    n: nat,
    cfg: ChunkConfig,
) -> Seq<ChunkView>
    decreases n,
{
    if n == 0 || n > chapters.len() {
        seq![]
    } else {
        let i = (n - 1) as nat;
        document_chunks(doc, chapters, i, cfg) + chapter_chunks(
            doc,
            i,
            chapters[i as int].title@,
            chapters[i as int].content@,
            cfg,
        )
    }
}

proof fn lemma_starts_before(t: Seq<char>, i: nat)
    ensures
        forall|j: int| 0 <= j < starts_before(t, i).len() ==> 1 <= #[trigger] starts_before(t, i)[j] < i,
        forall|j: int, l: int|
            0 <= j < l < starts_before(t, i).len() ==> #[trigger] starts_before(t, i)[j] < #[trigger] starts_before(t, i)[l],
    decreases i,
{
    if i > 1 {
        let p = (i - 1) as nat;
        lemma_starts_before(t, p);
        let prev = starts_before(t, p);
        let cur = starts_before(t, i);
        if starts_token(t, p as int) {
            assert forall|j: int| 0 <= j < prev.len() implies #[trigger] cur[j] == prev[j] by {}
            assert(cur[prev.len() as int] == p);
        } else {
            assert(cur == prev);
        }
    }
}

/// Token boundaries rise strictly from the start of the text to its end.
pub proof fn lemma_token_bounds(t: Seq<char>)
    requires
        t.len() > 0,
    ensures
        token_bounds(t).len() >= 2,
        token_bounds(t)[0] == 0,
        token_bounds(t)[token_bounds(t).len() - 1] == t.len(),
        forall|j: int, l: int|
            0 <= j < l < token_bounds(t).len() ==> #[trigger] token_bounds(t)[j] < #[trigger] token_bounds(t)[l],
        forall|j: int| 0 <= j < token_bounds(t).len() ==> #[trigger] token_bounds(t)[j] <= t.len(),
{
    reveal(token_bounds);
    lemma_starts_before(t, t.len());
    let s = starts_before(t, t.len());
    let b = token_bounds(t);
    assert forall|j: int, l: int| 0 <= j < l < b.len() implies #[trigger] b[j] < #[trigger] b[l] by {
        if j > 0 {
            assert(b[j] == s[j - 1]);
        }
        if l < b.len() - 1 {
            assert(b[l] == s[l - 1]);
        }
    }
    assert forall|j: int| 0 <= j < b.len() implies #[trigger] b[j] <= t.len() by {
        if 0 < j < b.len() - 1 {
            assert(b[j] == s[j - 1]);
        }
    }
}

/// Text without characters has no token boundary; any other has at least two.
pub proof fn lemma_token_bounds_len(t: Seq<char>)
    ensures
        t.len() == 0 <==> token_bounds(t).len() == 0,
        t.len() > 0 ==> token_bounds(t).len() >= 2,
        t.len() > 0 ==> token_bounds(t)[0] == 0,
        t.len() > 0 ==> token_bounds(t)[token_bounds(t).len() - 1] == t.len(),
{
    reveal(token_bounds);
}

proof fn lemma_bounds_pair(t: Seq<char>, j: int, l: int)
    requires
        t.len() > 0,
        0 <= j < l < token_bounds(t).len(),
    ensures
        token_bounds(t)[j] < token_bounds(t)[l] <= t.len(),
{
    lemma_token_bounds(t);
}

/// Each window starts before the next ends, holds between one and `max`
/// tokens, and the windows end in increasing order at `m`.
pub proof fn lemma_windows_from(m: nat, max: nat, step: nat, start: nat)
    requires
        0 < step <= max,
        start < m,
    ensures
        windows_from(m, max, step, start).len() >= 1,
        windows_from(m, max, step, start)[0].0 == start,
        windows_from(m, max, step, start).last().1 == m,
        forall|k: int|
            0 <= k < windows_from(m, max, step, start).len() ==> {
                let w = #[trigger] windows_from(m, max, step, start)[k];
                start <= w.0 < w.1 <= m && w.1 - w.0 <= max
            },
        forall|k: int|
            0 < k < windows_from(m, max, step, start).len() ==> windows_from(m, max, step, start)[k].0
                <= windows_from(m, max, step, start)[k - 1].1 < #[trigger] windows_from(m, max, step, start)[k].1,
    decreases m - start,
{
    lemma_windows_step(m, max, step, start);
    if start + max < m {
        lemma_windows_from(m, max, step, start + step);
        lemma_windows_step(m, max, step, start + step);
        let rest = windows_from(m, max, step, start + step);
        let all = windows_from(m, max, step, start);
        assert forall|k: int| 0 < k < all.len() implies all[k].0 <= all[k - 1].1 < #[trigger] all[k].1 by {
            assert(all[k] == rest[k - 1]);
            assert(all[0] == (start, start + max));
            if k > 1 {
                assert(all[k - 1] == rest[k - 2]);
            }
        }
        assert forall|k: int| 0 <= k < all.len() implies {
            let w = #[trigger] all[k];
            start <= w.0 < w.1 <= m && w.1 - w.0 <= max
        } by {
            if k > 0 {
                assert(all[k] == rest[k - 1]);
            }
        }
    }
}

proof fn lemma_windows_step(m: nat, max: nat, step: nat, start: nat)
    requires
        0 < step <= max,
    ensures
        start + max >= m ==> windows_from(m, max, step, start) == seq![(start, m)],
        start + max < m ==> windows_from(m, max, step, start) == seq![(start, start + max)]
            + windows_from(m, max, step, start + step),
{
    reveal(windows_from);
}

/// The token boundaries of `t`, computed in one pass.
fn bounds_of(t: &Vec<char>) -> (r: Vec<usize>)
    ensures
        r@.len() == token_bounds(t@).len(),
        forall|j: int| 0 <= j < r@.len() ==> r@[j] as nat == #[trigger] token_bounds(t@)[j],
{
    let mut r: Vec<usize> = Vec::new();
    let n = t.len();
    if n == 0 {
        proof {
            reveal(token_bounds);
        }
        return r;
    }
    r.push(0);
    let mut i: usize = 1;
    let mut seen = false;
    while i < n
        invariant
            1 <= i <= n,
            n == t@.len(),
            seen == word_before(t@, i - 1),
            r@.len() == starts_before(t@, i as nat).len() + 1,
            r@[0] == 0,
            forall|j: int| 1 <= j < r@.len() ==> r@[j] as nat == #[trigger] starts_before(t@, i as nat)[j - 1],
        decreases n - i,
    {
        let before_space = is_space(t[i - 1]);
        if before_space && !is_space(t[i]) && seen {
            r.push(i);
        }
        proof {
            if !before_space {
                assert(!space_char(t@[i - 1]));
            }
            if word_before(t@, i - 1) {
                let j = choose|j: int| 0 <= j < i - 1 && !space_char(#[trigger] t@[j]);
                assert(0 <= j < i && !space_char(t@[j]));
            }
        }
        seen = seen || !before_space;
        i = i + 1;
    }
    r.push(n);
    proof {
        reveal(token_bounds);
        let b = token_bounds(t@);
        let s = starts_before(t@, n as nat);
        assert forall|j: int| 0 <= j < r@.len() implies r@[j] as nat == #[trigger] b[j] by {
            if 0 < j < r@.len() - 1 {
                assert(b[j] == s[j - 1]);
            }
        }
    }
    r
}

/// The chunk of tokens `start..end` of a chapter, whose boundaries are `b`.
fn window_piece(
    document_id: &String,
    chapter_index: usize,
    title: &String,
    text: &String,
    b: &Vec<usize>,
    start: usize,
    end: usize,
    k: usize,
) -> (r: Chunk)
    requires
        start < end < b@.len(),
        b@.len() == token_bounds(text@).len(),
        forall|j: int| 0 <= j < b@.len() ==> b@[j] as nat == #[trigger] token_bounds(text@)[j],
        b@[start as int] <= b@[end as int] <= text@.len(),
    ensures
        r@ == window_chunk(document_id@, chapter_index as nat, title@, text@, (start as nat, end as nat), k as nat),
{
    let piece = text.as_str().substring_char(b[start], b[end]);
    proof {
        assert(b@[start as int] as nat == token_bounds(text@)[start as int]);
        assert(b@[end as int] as nat == token_bounds(text@)[end as int]);
        reveal(window_chunk);
    }
    Chunk {
        document_id: document_id.clone(),
        key: ChunkKey { chapter_index, sequence_index: k },
        chapter_title: title.clone(),
        content: piece.to_owned(),
        token_count: end - start,
        start_anchor: None,
        end_anchor: None,
        embedding: None,
    }
}

/// The greedy windows over `m` tokens.
fn windows_of(m: usize, max: usize, step: usize) -> (r: Vec<(usize, usize)>)
    requires
        m >= 1,
        0 < step <= max,
    ensures
        r@.len() == windows_from(m as nat, max as nat, step as nat, 0).len(),
        forall|j: int| 0 <= j < r@.len() ==> (r@[j].0 as nat, r@[j].1 as nat) == #[trigger] windows_from(
            m as nat,
            max as nat,
            step as nat,
            0,
        )[j],
        forall|j: int| 0 <= j < r@.len() ==> (#[trigger] r@[j]).0 < r@[j].1 && r@[j].1 <= m,
{
    let ghost w = windows_from(m as nat, max as nat, step as nat, 0);
    proof {
        lemma_windows_from(m as nat, max as nat, step as nat, 0);
    }
    let mut r: Vec<(usize, usize)> = Vec::new();
    let mut start: usize = 0;
    loop
        invariant_except_break
            r@.len() < w.len(),
            start < m,
            w.subrange(r@.len() as int, w.len() as int) == windows_from(m as nat, max as nat, step as nat, start as nat),
        invariant
            m >= 1,
            0 < step <= max,
            w == windows_from(m as nat, max as nat, step as nat, 0),
            forall|j: int| 0 <= j < r@.len() ==> (r@[j].0 as nat, r@[j].1 as nat) == #[trigger] w[j],
            forall|j: int| 0 <= j < r@.len() ==> (#[trigger] r@[j]).0 < r@[j].1 && r@[j].1 <= m,
        ensures
            r@.len() == w.len(),
            forall|j: int| 0 <= j < r@.len() ==> (r@[j].0 as nat, r@[j].1 as nat) == #[trigger] w[j],
            forall|j: int| 0 <= j < r@.len() ==> (#[trigger] r@[j]).0 < r@[j].1 && r@[j].1 <= m,
        decreases m - start,
    {
        let ghost rest = windows_from(m as nat, max as nat, step as nat, start as nat);
        let ghost k = r@.len() as int;
        proof {
            lemma_windows_step(m as nat, max as nat, step as nat, start as nat);
            assert(w[k] == rest[0]);
        }
        if max >= m - start {
            r.push((start, m));
            proof {
                assert(rest.len() == 1);
                assert(w.subrange(k, w.len() as int).len() == w.len() - k);
            }
            break;
        }
        r.push((start, start + max));
        proof {
            let next = windows_from(m as nat, max as nat, step as nat, (start + step) as nat);
            assert(rest == seq![(start as nat, (start + max) as nat)] + next);
            assert(w.subrange(k, w.len() as int).len() == w.len() - k);
            assert(rest.len() == next.len() + 1);
            assert(w.len() - (k + 1) == next.len());
            lemma_windows_from(m as nat, max as nat, step as nat, (start + step) as nat);
            assert forall|i: int| 0 <= i < next.len() implies #[trigger] w.subrange(k + 1, w.len() as int)[i] == next[i] by {
                assert(w.subrange(k, w.len() as int)[i + 1] == rest[i + 1]);
            }
            assert(w.subrange(k + 1, w.len() as int) =~= next);
        }
        start = start + step;
    }
    r
}

/// Cuts one chapter into chunks: the chapter's tokens are gathered greedily
/// into windows of at most `max_chunk_tokens`, each after the first opening
/// with the last `overlap_tokens` tokens of the one before. A chapter without
/// text gives no chunk; one shorter than a window gives exactly one.
#[verifier::rlimit(50)]
pub fn chunk_chapter(
    document_id: &String,
    chapter_index: usize,
    title: &String,
    text: &String,
    cfg: ChunkConfig,
) -> (r: Vec<Chunk>)
    requires
        cfg.wf(),
    ensures
        r@.len() == chapter_chunks(document_id@, chapter_index as nat, title@, text@, cfg).len(),
        forall|k: int|
            0 <= k < r@.len() ==> #[trigger] r@[k]@ == chapter_chunks(
                document_id@,
                chapter_index as nat,
                title@,
                text@,
                cfg,
            )[k],
{
    let ghost spec_r = chapter_chunks(document_id@, chapter_index as nat, title@, text@, cfg);
    let mut out: Vec<Chunk> = Vec::new();
    let chars = chars_of(text.as_str());
    let b = bounds_of(&chars);
    proof {
        lemma_token_bounds_len(text@);
    }
    if b.len() == 0 {
        return out;
    }
    let m: usize = b.len() - 1;
    let ws = windows_of(m, cfg.max_chunk_tokens, cfg.max_chunk_tokens - cfg.overlap_tokens);
    let ghost w = token_windows(m as nat, cfg);
    let mut k: usize = 0;
    while k < ws.len()
        invariant
            b@.len() == token_bounds(text@).len(),
            forall|j: int| 0 <= j < b@.len() ==> b@[j] as nat == #[trigger] token_bounds(text@)[j],
            text@.len() > 0,
            b@.len() == m + 1,
            w == token_windows(m as nat, cfg),
            ws@.len() == w.len(),
            forall|j: int| 0 <= j < ws@.len() ==> (ws@[j].0 as nat, ws@[j].1 as nat) == #[trigger] w[j],
            forall|j: int| 0 <= j < ws@.len() ==> (#[trigger] ws@[j]).0 < ws@[j].1 && ws@[j].1 <= m,
            k <= ws@.len(),
            out@.len() == k,
            forall|j: int| 0 <= j < k ==> #[trigger] out@[j]@ == window_chunk(document_id@, chapter_index as nat, title@, text@, w[j], j as nat),
        decreases ws@.len() - k,
    {
        let (start, end) = ws[k];
        proof {
            assert(ws@[k as int].0 < ws@[k as int].1 <= m);
            assert(b@[start as int] as nat == token_bounds(text@)[start as int]);
            assert(b@[end as int] as nat == token_bounds(text@)[end as int]);
            lemma_bounds_pair(text@, start as int, end as int);
            assert(w[k as int] == (start as nat, end as nat));
        }
        let c = window_piece(document_id, chapter_index, title, text, &b, start, end, k);
        let ghost before = out@;
        out.push(c);
        proof {
            assert forall|j: int| 0 <= j < k + 1 implies #[trigger] out@[j]@ == window_chunk(
                document_id@,
                chapter_index as nat,
                title@,
                text@,
                w[j],
                j as nat,
            ) by {
                if j < k {
                    assert(out@[j] == before[j]);
                }
            }
        }
        k = k + 1;
    }
    proof {
        assert forall|j: int| 0 <= j < out@.len() implies #[trigger] out@[j]@ == spec_r[j] by {}
    }
    out
}

} // verus!

verus! {

/// The part of chunk `k` of a chapter that the chunk before it does not
/// already hold: the whole first chunk, and of each later one what follows
/// its overlap.
pub open spec fn fresh_part(
    doc: Seq<char>,
    chapter_index: nat,
    title: Seq<char>,
    t: Seq<char>,
    cfg: ChunkConfig,
    k: int,
) -> Seq<char> {
    let cs = chapter_chunks(doc, chapter_index, title, t, cfg);
    let w = token_windows(token_total(t), cfg);
    let b = token_bounds(t);
    if k == 0 {
        cs[0].content
    } else {
        let overlap = b[w[k - 1].1 as int] - b[w[k].0 as int];
        cs[k].content.subrange(overlap, cs[k].content.len() as int)
    }
}

/// The fresh parts of the first `n` chunks of a chapter, one after another.
pub open spec fn stitched(
    doc: Seq<char>,
    chapter_index: nat,
    title: Seq<char>,
    t: Seq<char>,
    cfg: ChunkConfig,
    n: nat,
) -> Seq<char>
    decreases n,
{
    if n == 0 {
        seq![]
    } else {
        stitched(doc, chapter_index, title, t, cfg, (n - 1) as nat) + fresh_part(
            doc,
            chapter_index,
            title,
            t,
            cfg,
            n - 1,
        )
    }
}

proof fn lemma_chunk_at(
    doc: Seq<char>,
    chapter_index: nat,
    title: Seq<char>,
    t: Seq<char>,
    cfg: ChunkConfig,
    k: int,
)
    requires
        0 <= k < chapter_chunks(doc, chapter_index, title, t, cfg).len(),
    ensures
        ({
            let cs = chapter_chunks(doc, chapter_index, title, t, cfg);
            let w = token_windows(token_total(t), cfg);
            let b = token_bounds(t);
            &&& cs[k].content == t.subrange(b[w[k].0 as int] as int, b[w[k].1 as int] as int)
            &&& cs[k].token_count == (w[k].1 - w[k].0) as nat
        }),
{
    let cs = chapter_chunks(doc, chapter_index, title, t, cfg);
    let w = token_windows(token_total(t), cfg);
    assert(cs[k] == window_chunk(doc, chapter_index, title, t, w[k], k as nat));
    reveal(window_chunk);
}

#[verifier::rlimit(40)]
proof fn lemma_stitched_prefix(
    doc: Seq<char>,
    chapter_index: nat,
    title: Seq<char>,
    t: Seq<char>,
    cfg: ChunkConfig,
    n: nat,
)
    requires
        cfg.wf(),
        t.len() > 0,
        1 <= n <= chapter_chunks(doc, chapter_index, title, t, cfg).len(),
    ensures
        stitched(doc, chapter_index, title, t, cfg, n) == t.subrange(
            0,
            token_bounds(t)[token_windows(token_total(t), cfg)[n - 1].1 as int] as int,
        ),
    decreases n,
{
    let m = token_total(t);
    let w = token_windows(m, cfg);
    let b = token_bounds(t);
    lemma_token_bounds_len(t);
    lemma_windows_from(m, cfg.max_chunk_tokens as nat, cfg.step(), 0);
    if n == 1 {
        lemma_bounds_pair(t, w[0].0 as int, w[0].1 as int);
        lemma_chunk_at(doc, chapter_index, title, t, cfg, 0);
        assert(stitched(doc, chapter_index, title, t, cfg, 0) =~= seq![]);
        assert(stitched(doc, chapter_index, title, t, cfg, 1) =~= t.subrange(0, b[w[0].1 as int] as int));
    } else {
        lemma_stitched_prefix(doc, chapter_index, title, t, cfg, (n - 1) as nat);
        let k = n - 1;
        let s = b[w[k].0 as int] as int;
        let p = b[w[k - 1].1 as int] as int;
        let e = b[w[k].1 as int] as int;
        assert(w[k].0 <= w[k - 1].1 < w[k].1);
        if w[k].0 < w[k - 1].1 {
            lemma_bounds_pair(t, w[k].0 as int, w[k - 1].1 as int);
        }
        lemma_bounds_pair(t, w[k - 1].1 as int, w[k].1 as int);
        lemma_chunk_at(doc, chapter_index, title, t, cfg, k);
        assert(s <= p < e <= t.len());
        assert(fresh_part(doc, chapter_index, title, t, cfg, k) =~= t.subrange(p, e));
        assert(stitched(doc, chapter_index, title, t, cfg, n) =~= t.subrange(0, e));
    }
}

/// Chunking loses no text and respects the size bound: the chunks of a
/// chapter, each with its overlap with the previous chunk cut off, join up to
/// the chapter's text, and every chunk holds between one and
/// `max_chunk_tokens` tokens and some text.
pub proof fn lemma_chunks_rebuild_text(
    doc: Seq<char>,
    chapter_index: nat,
    title: Seq<char>,
    t: Seq<char>,
    cfg: ChunkConfig,
)
    requires
        cfg.wf(),
    ensures
        stitched(
            doc,
            chapter_index,
            title,
            t,
            cfg,
            chapter_chunks(doc, chapter_index, title, t, cfg).len(),
        ) == t,
        forall|k: int|
            0 <= k < chapter_chunks(doc, chapter_index, title, t, cfg).len() ==> {
                let c = #[trigger] chapter_chunks(doc, chapter_index, title, t, cfg)[k];
                1 <= c.token_count <= cfg.max_chunk_tokens && c.content.len() > 0
            },
{
    let cs = chapter_chunks(doc, chapter_index, title, t, cfg);
    lemma_token_bounds_len(t);
    if t.len() == 0 {
        assert(cs.len() == 0);
        return;
    }
    let m = token_total(t);
    let w = token_windows(m, cfg);
    let b = token_bounds(t);
    let max = cfg.max_chunk_tokens as nat;
    lemma_windows_from(m, max, cfg.step(), 0);
    assert forall|k: int| 0 <= k < cs.len() implies {
        let c = #[trigger] cs[k];
        1 <= c.token_count <= cfg.max_chunk_tokens && c.content.len() > 0
    } by {
        lemma_bounds_pair(t, w[k].0 as int, w[k].1 as int);
        lemma_chunk_at(doc, chapter_index, title, t, cfg, k);
    }
    lemma_stitched_prefix(doc, chapter_index, title, t, cfg, cs.len());
    assert(w[cs.len() - 1] == w.last());
    assert(t.subrange(0, t.len() as int) =~= t);
}

} // verus!

verus! {

/// Cuts every chapter of a document into chunks, chapter by chapter, with
/// each chapter's place in the sequence as its chapter index.
pub fn chunk(document_id: &String, chapters: &Vec<EpubChapter>, cfg: ChunkConfig) -> (r: Vec<Chunk>)
    requires
        cfg.wf(),
    ensures
        views(r@) == document_chunks(document_id@, chapters@, chapters@.len(), cfg),
{
    let mut out: Vec<Chunk> = Vec::new();
    let mut i: usize = 0;
    while i < chapters.len()
        invariant
            cfg.wf(),
            i <= chapters@.len(),
            views(out@) == document_chunks(document_id@, chapters@, i as nat, cfg),
        decreases chapters@.len() - i,
    {
        let ch = &chapters[i];
        let mut piece = chunk_chapter(document_id, i, &ch.title, &ch.content, cfg);
        let ghost before = out@;
        let ghost added = piece@;
        assert(views(added) =~= chapter_chunks(document_id@, i as nat, ch.title@, ch.content@, cfg));
        out.append(&mut piece);
        assert(views(out@) =~= views(before) + views(added));
        i = i + 1;
    }
    out
}

/// Chunking depends on its input alone: two runs on the same document id,
/// chapters and sizes give the same chunk sequence.
pub proof fn lemma_chunking_deterministic(
    doc: Seq<char>,
    chapters: Seq<EpubChapter>,
    cfg: ChunkConfig,
    first: Seq<ChunkView>,
    second: Seq<ChunkView>,
)
    requires
        first == document_chunks(doc, chapters, chapters.len(), cfg),
        second == document_chunks(doc, chapters, chapters.len(), cfg),
    ensures
        first == second,
{
}

} // verus!

verus! {

/// Fresh chunks belong to their document and carry no embedding yet.
pub proof fn lemma_document_chunks_fresh(doc: Seq<char>, chapters: Seq<EpubChapter>, n: nat, cfg: ChunkConfig)
    ensures
        forall|k: int|
            0 <= k < document_chunks(doc, chapters, n, cfg).len() ==> (#[trigger] document_chunks(doc, chapters, n, cfg)[k]).document_id == doc
                && document_chunks(doc, chapters, n, cfg)[k].embedding is None,
    decreases n,
{
    if n > 0 && n <= chapters.len() {
        let i = (n - 1) as nat;
        lemma_document_chunks_fresh(doc, chapters, i, cfg);
        let prev = document_chunks(doc, chapters, i, cfg);
        let cc = chapter_chunks(doc, i, chapters[i as int].title@, chapters[i as int].content@, cfg);
        let all = document_chunks(doc, chapters, n, cfg);
        assert(all == prev + cc);
        reveal(window_chunk);
        assert forall|k: int| 0 <= k < all.len() implies (#[trigger] all[k]).document_id == doc && all[k].embedding is None by {
            if k < prev.len() {
                assert(all[k] == prev[k]);
            } else {
                assert(all[k] == cc[k - prev.len()]);
            }
        }
    }
}

} // verus!
