use vstd::prelude::*;

use crate::error::RagError;
use crate::model::{valid_embedding, views, Chunk, ChunkKey, ChunkView, EMBED_UNIT, MAX_DIMENSION};
use crate::store::VectorStore;
use crate::text::{chars_of, fold, folded_words, same_chars, words};

verus! {

/// The score that stands for 1: the product of two `EMBED_UNIT`s.
pub const SCORE_UNIT: i64 = 1073741824;

/// Weights of the semantic and the keyword score in hybrid search.
pub const SEMANTIC_WEIGHT: i64 = 7;

pub const KEYWORD_WEIGHT: i64 = 3;

/// How chunks are scored against a query.
#[derive(Clone, Copy, Debug, PartialEq, Eq, Structural)]
pub enum SearchMode {
    Semantic,
    Keyword,
    Hybrid,
}

/// One ranked chunk.
#[derive(Debug)]
pub struct SearchResult {
    pub chunk_id: ChunkKey,
    pub content: String,
    pub score: i64,
    pub chapter_title: String,
}

/// The mode that the name `s` stands for.
pub open spec fn mode_named(s: Seq<char>) -> Option<SearchMode> {
    if s == "semantic"@ {
        Some(SearchMode::Semantic)
    } else if s == "keyword"@ {
        Some(SearchMode::Keyword)
    } else if s == "hybrid"@ {
        Some(SearchMode::Hybrid)
    } else {
        None
    }
}

/// Reads a search mode by its name; any other name is `InvalidSearchMode`.
pub fn parse_mode(mode: &str) -> (r: Result<SearchMode, RagError>)
    ensures
        mode_named(mode@) matches Some(m) ==> r == Ok::<SearchMode, RagError>(m),
        mode_named(mode@) is None ==> r == Err::<SearchMode, RagError>(RagError::InvalidSearchMode),
{
    let m = chars_of(mode);
    let semantic = chars_of("semantic");
    let keyword = chars_of("keyword");
    let hybrid = chars_of("hybrid");
    if same_chars(&m, &semantic) {
        Ok(SearchMode::Semantic)
    } else if same_chars(&m, &keyword) {
        Ok(SearchMode::Keyword)
    } else if same_chars(&m, &hybrid) {
        Ok(SearchMode::Hybrid)
    } else {
        Err(RagError::InvalidSearchMode)
    }
}

/// The dot product of `a` and `b` over their common length.
pub open spec fn dot(a: Seq<i32>, b: Seq<i32>) -> int
    decreases a.len(),
{
    if a.len() == 0 || b.len() == 0 {
        0
    } else {
        dot(a.drop_last(), b.drop_last()) + a.last() * b.last()
    }
}

/// How many of the words `q` occur among the words `ws`, counting repeats in `q`.
pub open spec fn hits(q: Seq<Seq<char>>, ws: Seq<Seq<char>>) -> nat
    decreases q.len(),
{
    if q.len() == 0 {
        0
    } else {
        hits(q.drop_last(), ws) + if ws.contains(q.last()) {
            1nat
        } else {
            0nat
        }
    }
}

/// The keyword score of `content` for the folded query words `q`: the share
/// of query words that occur in the content, ignoring ASCII case, with
/// `SCORE_UNIT` for all of them.
pub open spec fn keyword_score(q: Seq<Seq<char>>, content: Seq<char>) -> int {
    if q.len() == 0 {
        0
    } else {
        (hits(q, words(fold(content))) * SCORE_UNIT) / (q.len() as int)
    }
}

/// The score of chunk `c` in `mode`, or `None` where the mode leaves it out.
pub open spec fn chunk_score(mode: SearchMode, c: ChunkView, q: Seq<Seq<char>>, qe: Seq<i32>) -> Option<int> {
    match mode {
        SearchMode::Semantic => match c.embedding {
            Some(e) => Some(dot(qe, e)),
            None => None,
        },
        SearchMode::Keyword => Some(keyword_score(q, c.content)),
        SearchMode::Hybrid => match c.embedding {
            Some(e) => Some(SEMANTIC_WEIGHT * dot(qe, e) + KEYWORD_WEIGHT * keyword_score(q, c.content)),
            None => Some((SEMANTIC_WEIGHT + KEYWORD_WEIGHT) * keyword_score(q, c.content)),
        },
    }
}

/// The scored chunks of `cs`, as (score, place in `cs`), in document order.
pub open spec fn candidates(cs: Seq<ChunkView>, mode: SearchMode, q: Seq<Seq<char>>, qe: Seq<i32>) -> Seq<(int, int)>
    decreases cs.len(),
{
    if cs.len() == 0 {
        seq![]
    } else {
        let prev = candidates(cs.drop_last(), mode, q, qe);
        match chunk_score(mode, cs.last(), q, qe) {
            Some(s) => prev.push((s, cs.len() - 1)),
            None => prev,
        }
    }
}

/// Ranking order: higher score first; on equal scores, earlier in the document first.
pub open spec fn ranks_before(a: (int, int), b: (int, int)) -> bool {
    a.0 > b.0 || (a.0 == b.0 && a.1 < b.1)
}

/// `r` is the best `k` of `cands` in ranking order.
pub open spec fn is_top(r: Seq<(int, int)>, cands: Seq<(int, int)>, k: nat) -> bool {
    &&& r.len() == if k < cands.len() {
        k
    } else {
        cands.len()
    }
    &&& forall|i: int, j: int| 0 <= i < j < r.len() ==> ranks_before(#[trigger] r[i], #[trigger] r[j])
    &&& forall|i: int| 0 <= i < r.len() ==> cands.contains(#[trigger] r[i])
    &&& forall|c: (int, int)|
        #[trigger] cands.contains(c) && !r.contains(c) ==> forall|i: int| 0 <= i < r.len() ==> ranks_before(#[trigger] r[i], c)
}

/// Scored places as pairs of integers.
pub open spec fn pairs(v: Seq<(i64, usize)>) -> Seq<(int, int)> {
    v.map_values(|p: (i64, usize)| (p.0 as int, p.1 as int))
}

/// The word sequences of `q`.
pub open spec fn word_seqs(q: Seq<Vec<char>>) -> Seq<Seq<char>> {
    q.map_values(|w: Vec<char>| w@)
}

} // verus!

verus! {

proof fn lemma_product_bound(x: i32, y: i32)
    requires
        -EMBED_UNIT <= x <= EMBED_UNIT,
        -EMBED_UNIT <= y <= EMBED_UNIT,
    ensures
        -SCORE_UNIT <= x * y <= SCORE_UNIT,
{
    assert(-1073741824 <= x * y <= 1073741824) by (nonlinear_arith)
        requires
            -32768 <= x <= 32768,
            -32768 <= y <= 32768,
    ;
}

/// The dot product of two valid embeddings of one dimension.
pub fn dot_product(a: &Vec<i32>, b: &Vec<i32>) -> (r: i64)
    requires
        a@.len() <= MAX_DIMENSION,
        valid_embedding(a@, a@.len() as nat),
        valid_embedding(b@, a@.len() as nat),
    ensures
        r == dot(a@, b@),
        -MAX_DIMENSION * SCORE_UNIT <= r <= MAX_DIMENSION * SCORE_UNIT,
{
    let mut acc: i64 = 0;
    let mut i: usize = 0;
    while i < a.len()
        invariant
            i <= a@.len() <= MAX_DIMENSION,
            a@.len() == b@.len(),
            valid_embedding(a@, a@.len() as nat),
            valid_embedding(b@, a@.len() as nat),
            acc == dot(a@.subrange(0, i as int), b@.subrange(0, i as int)),
            -(i as int) * SCORE_UNIT <= acc <= (i as int) * SCORE_UNIT,
        decreases a@.len() - i,
    {
        proof {
            lemma_product_bound(a@[i as int], b@[i as int]);
            let sa = a@.subrange(0, i + 1);
            let sb = b@.subrange(0, i + 1);
            assert(sa.drop_last() =~= a@.subrange(0, i as int));
            assert(sb.drop_last() =~= b@.subrange(0, i as int));
        }
        acc = acc + (a[i] as i64) * (b[i] as i64);
        i = i + 1;
    }
    proof {
        assert(a@.subrange(0, i as int) =~= a@);
        assert(b@.subrange(0, i as int) =~= b@);
    }
    acc
}

/// Whether the word `w` is among `ws`.
fn contains_word(ws: &Vec<Vec<char>>, w: &Vec<char>) -> (r: bool)
    ensures
        r == word_seqs(ws@).contains(w@),
{
    let mut i: usize = 0;
    while i < ws.len()
        invariant
            i <= ws@.len(),
            forall|j: int| 0 <= j < i ==> ws@[j]@ != w@,
        decreases ws@.len() - i,
    {
        if same_chars(&ws[i], w) {
            proof {
                assert(word_seqs(ws@)[i as int] == w@);
            }
            return true;
        }
        i = i + 1;
    }
    proof {
        if word_seqs(ws@).contains(w@) {
            let j = choose|j: int| 0 <= j < word_seqs(ws@).len() && word_seqs(ws@)[j] == w@;
            assert(ws@[j]@ == w@);
        }
    }
    false
}

proof fn lemma_keyword_bound(h: nat, n: nat)
    requires
        h <= n,
        n > 0,
    ensures
        0 <= (h * SCORE_UNIT) / (n as int) <= SCORE_UNIT,
{
    vstd::arithmetic::mul::lemma_mul_inequality(h as int, n as int, SCORE_UNIT as int);
    vstd::arithmetic::div_mod::lemma_div_is_ordered(h * SCORE_UNIT, n * SCORE_UNIT, n as int);
    vstd::arithmetic::div_mod::lemma_div_by_multiple(SCORE_UNIT as int, n as int);
    vstd::arithmetic::mul::lemma_mul_is_commutative(n as int, SCORE_UNIT as int);
    vstd::arithmetic::div_mod::lemma_div_pos_is_pos(h * SCORE_UNIT, n as int);
}

/// The keyword score of `content` for the folded query words `query`.
pub fn keyword_score_of(query: &Vec<Vec<char>>, content: &String) -> (r: i64)
    ensures
        r == keyword_score(word_seqs(query@), content@),
        0 <= r <= SCORE_UNIT,
{
    let n = query.len();
    if n == 0 {
        return 0;
    }
    let ws = folded_words(content.as_str());
    let ghost cw = words(fold(content@));
    proof {
        assert(word_seqs(ws@) =~= cw);
    }
    let mut h: u64 = 0;
    let mut i: usize = 0;
    while i < n
        invariant
            n == query@.len(),
            i <= n,
            word_seqs(ws@) == cw,
            h == hits(word_seqs(query@).subrange(0, i as int), cw),
            h <= i,
        decreases n - i,
    {
        proof {
            assert(word_seqs(query@).subrange(0, i + 1).drop_last() =~= word_seqs(query@).subrange(0, i as int));
            assert(word_seqs(query@).subrange(0, i + 1).last() == query@[i as int]@);
        }
        if contains_word(&ws, &query[i]) {
            h = h + 1;
        }
        i = i + 1;
    }
    proof {
        assert(word_seqs(query@).subrange(0, n as int) =~= word_seqs(query@));
        lemma_keyword_bound(h as nat, n as nat);
    }
    let wide: u128 = (h as u128) * (SCORE_UNIT as u128);
    let q: u128 = wide / (n as u128);
    q as i64
}

/// The score of chunk `c` in `mode` against the folded query words and the
/// query embedding, or `None` where the mode leaves the chunk out.
pub fn score_chunk(mode: SearchMode, c: &Chunk, query: &Vec<Vec<char>>, query_embedding: &Vec<i32>) -> (r: Option<i64>)
    requires
        mode != SearchMode::Keyword ==> query_embedding@.len() <= MAX_DIMENSION && valid_embedding(
            query_embedding@,
            query_embedding@.len() as nat,
        ) && (c@.embedding matches Some(e) ==> valid_embedding(e, query_embedding@.len() as nat)),
    ensures
        match chunk_score(mode, c@, word_seqs(query@), query_embedding@) {
            Some(s) => r == Some(s as i64) && s == r.unwrap() as int,
            None => r is None,
        },
{
    match mode {
        SearchMode::Semantic => match &c.embedding {
            Some(e) => Some(dot_product(query_embedding, e)),
            None => None,
        },
        SearchMode::Keyword => Some(keyword_score_of(query, &c.content)),
        SearchMode::Hybrid => {
            let k = keyword_score_of(query, &c.content);
            match &c.embedding {
                Some(e) => {
                    let d = dot_product(query_embedding, e);
                    Some(SEMANTIC_WEIGHT * d + KEYWORD_WEIGHT * k)
                },
                None => Some((SEMANTIC_WEIGHT + KEYWORD_WEIGHT) * k),
            }
        },
    }
}

} // verus!

verus! {

/// The best `top_k` of the scored places `cands`, in ranking order: higher
/// score first, and on equal scores the earlier place first. The places of
/// `cands` are distinct.
pub fn rank(cands: Vec<(i64, usize)>, top_k: usize) -> (r: Vec<(i64, usize)>)
    requires
        forall|i: int, j: int| 0 <= i < j < cands@.len() ==> (#[trigger] cands@[i]).1 != (#[trigger] cands@[j]).1,
    ensures
        is_top(pairs(r@), pairs(cands@), top_k as nat),
{
    let ghost all = pairs(cands@);
    let mut rem = cands;
    let mut out: Vec<(i64, usize)> = Vec::new();
    while out.len() < top_k && rem.len() > 0
        invariant
            all.len() == out@.len() + rem@.len(),
            out@.len() <= top_k,
            forall|i: int, j: int| 0 <= i < j < rem@.len() ==> (#[trigger] rem@[i]).1 != (#[trigger] rem@[j]).1,
            forall|i: int, j: int| 0 <= i < j < out@.len() ==> ranks_before(#[trigger] pairs(out@)[i], #[trigger] pairs(out@)[j]),
            forall|i: int, j: int| 0 <= i < out@.len() && 0 <= j < rem@.len() ==> ranks_before(#[trigger] pairs(out@)[i], #[trigger] pairs(rem@)[j]),
            forall|c: (int, int)| #[trigger] all.contains(c) <==> (pairs(out@).contains(c) || pairs(rem@).contains(c)),
        decreases rem@.len(),
    {
        let mut b: usize = 0;
        let mut i: usize = 1;
        while i < rem.len()
            invariant
                1 <= i <= rem@.len(),
                b < i,
                forall|j: int| 0 <= j < i && j != b ==> ranks_before(pairs(rem@)[b as int], #[trigger] pairs(rem@)[j]),
                forall|x: int, y: int| 0 <= x < y < rem@.len() ==> (#[trigger] rem@[x]).1 != (#[trigger] rem@[y]).1,
            decreases rem@.len() - i,
        {
            let (s, p) = rem[i];
            let (bs, bp) = rem[b];
            if s > bs || (s == bs && p < bp) {
                b = i;
            }
            i = i + 1;
        }
        let ghost old_rem = pairs(rem@);
        let ghost old_out = pairs(out@);
        let x = rem.remove(b);
        out.push(x);
        proof {
            let xr = (x.0 as int, x.1 as int);
            assert(old_rem[b as int] == xr);
            let nr = pairs(rem@);
            let no = pairs(out@);
            assert forall|j: int| 0 <= j < nr.len() implies #[trigger] nr[j] == old_rem[if j < b { j } else { j + 1 }] by {}
            assert forall|j: int| 0 <= j < no.len() implies #[trigger] no[j] == if j < old_out.len() { old_out[j] } else { xr } by {}
            assert forall|j: int, l: int| 0 <= j < l < no.len() implies ranks_before(#[trigger] no[j], #[trigger] no[l]) by {
                if l == old_out.len() {
                    assert(ranks_before(old_out[j], old_rem[b as int]));
                }
            }
            assert forall|j: int, l: int| 0 <= j < no.len() && 0 <= l < nr.len() implies ranks_before(#[trigger] no[j], #[trigger] nr[l]) by {
                let ol = if l < b { l } else { l + 1 };
                if j < old_out.len() {
                    assert(ranks_before(old_out[j], old_rem[ol]));
                } else {
                    assert(ranks_before(old_rem[b as int], old_rem[ol]));
                }
            }
            assert forall|j: int, l: int| 0 <= j < l < rem@.len() implies (#[trigger] rem@[j]).1 != (#[trigger] rem@[l]).1 by {
                let oj = if j < b { j } else { j + 1 };
                let ol = if l < b { l } else { l + 1 };
                assert(nr[j] == old_rem[oj]);
                assert(nr[l] == old_rem[ol]);
            }
            assert forall|c: (int, int)| #[trigger] all.contains(c) <==> (no.contains(c) || nr.contains(c)) by {
                if old_out.contains(c) {
                    let j = choose|j: int| 0 <= j < old_out.len() && old_out[j] == c;
                    assert(no[j] == c);
                }
                if old_rem.contains(c) {
                    let j = choose|j: int| 0 <= j < old_rem.len() && old_rem[j] == c;
                    if j == b {
                        assert(no[old_out.len() as int] == c);
                    } else if j < b {
                        assert(nr[j] == c);
                    } else {
                        assert(nr[j - 1] == c);
                    }
                }
                if no.contains(c) {
                    let j = choose|j: int| 0 <= j < no.len() && no[j] == c;
                    if j < old_out.len() {
                        assert(old_out[j] == c);
                    }
                }
                if nr.contains(c) {
                    let j = choose|j: int| 0 <= j < nr.len() && nr[j] == c;
                    let oj = if j < b { j } else { j + 1 };
                    assert(old_rem[oj] == c);
                }
            }
        }
    }
    proof {
        let ro = pairs(out@);
        let rr = pairs(rem@);
        assert(ro.len() == out@.len());
        assert(all == pairs(cands@));
        assert forall|i: int| 0 <= i < ro.len() implies all.contains(#[trigger] ro[i]) by {
            assert(ro.contains(ro[i]));
        }
        assert forall|c: (int, int)| #[trigger] all.contains(c) && !ro.contains(c) implies forall|i: int| 0 <= i < ro.len() ==> ranks_before(#[trigger] ro[i], c) by {
            let j = choose|j: int| 0 <= j < rr.len() && rr[j] == c;
            assert forall|i: int| 0 <= i < ro.len() implies ranks_before(#[trigger] ro[i], c) by {
                assert(ranks_before(ro[i], rr[j]));
            }
        }
    }
    out
}

} // verus!

verus! {

/// Whether `res` reports chunk `c` with score `score`.
pub open spec fn reports(res: SearchResult, score: int, c: ChunkView) -> bool {
    &&& res.chunk_id == c.key
    &&& res.content@ == c.content
    &&& res.score == score
    &&& res.chapter_title@ == c.chapter_title
}

/// `v` reports the ranking `top` of the scored places `cands` of the chunks
/// `cs`: `top` is the best `k` of them, and `v` gives each one's chunk and score.
pub open spec fn answers(
    v: Seq<SearchResult>,
    top: Seq<(int, int)>,
    cs: Seq<ChunkView>,
    cands: Seq<(int, int)>,
    k: nat,
) -> bool {
    &&& is_top(top, cands, k)
    &&& v.len() == top.len()
    &&& forall|i: int| 0 <= i < top.len() ==> reports(#[trigger] v[i], top[i].0, cs[top[i].1])
}

/// Ranks the chunks of `document_id` against `query` in the named `mode`
/// and returns the best `top_k`, best first; equal scores go in document
/// order. `query_embedding` is the query's embedding, read in the semantic
/// and hybrid modes only. An unknown mode is `InvalidSearchMode`; a document
/// without chunks gives no result.
pub fn search(
    store: &VectorStore,
    document_id: &String,
    query: &str,
    mode: &str,
    top_k: usize,
    query_embedding: &Vec<i32>,
) -> (r: Result<Vec<SearchResult>, RagError>)
    requires
        store.wf(),
        top_k >= 1,
        (mode_named(mode@) == Some(SearchMode::Semantic) || mode_named(mode@) == Some(SearchMode::Hybrid))
            ==> valid_embedding(query_embedding@, store.dimension as nat),
    ensures
        mode_named(mode@) is None <==> r == Err::<Vec<SearchResult>, RagError>(RagError::InvalidSearchMode),
        mode_named(mode@) is Some ==> r is Ok,
        r matches Ok(v) ==> exists|top: Seq<(int, int)>|
            #[trigger] answers(
                v@,
                top,
                store.chunks_of(document_id@),
                candidates(
                    store.chunks_of(document_id@),
                    mode_named(mode@).unwrap(),
                    words(fold(query@)),
                    query_embedding@,
                ),
                top_k as nat,
            ),
{
    let m = match parse_mode(mode) {
        Ok(m) => m,
        Err(e) => {
            return Err(e);
        },
    };
    let qw = folded_words(query);
    proof {
        assert(mode_named(mode@) == Some(m));
        assert(word_seqs(qw@) =~= words(fold(query@)));
    }
    let chunks = store.scan(document_id);
    let ghost cs = store.chunks_of(document_id@);
    proof {
        store.lemma_chunks_of_fit(document_id@);
    }
    let mut cands: Vec<(i64, usize)> = Vec::new();
    let mut i: usize = 0;
    while i < chunks.len()
        invariant
            i <= chunks@.len(),
            views(chunks@) == cs,
            cs == store.chunks_of(document_id@),
            mode_named(mode@) == Some(m),
            store.dimension <= MAX_DIMENSION,
            forall|k: int| 0 <= k < cs.len() ==> crate::store::embedding_fits(#[trigger] cs[k], store.dimension as nat),
            m != SearchMode::Keyword ==> valid_embedding(query_embedding@, store.dimension as nat),
            word_seqs(qw@) == words(fold(query@)),
            pairs(cands@) == candidates(cs.subrange(0, i as int), m, words(fold(query@)), query_embedding@),
            forall|j: int| 0 <= j < cands@.len() ==> (#[trigger] cands@[j]).1 < i,
            forall|j: int, l: int| 0 <= j < l < cands@.len() ==> (#[trigger] cands@[j]).1 < (#[trigger] cands@[l]).1,
        decreases chunks@.len() - i,
    {
        proof {
            assert(cs.subrange(0, i + 1).drop_last() =~= cs.subrange(0, i as int));
            assert(cs.subrange(0, i + 1).last() == chunks@[i as int]@);
            assert(crate::store::embedding_fits(cs[i as int], store.dimension as nat));
        }
        let ghost before = cands@;
        match score_chunk(m, &chunks[i], &qw, query_embedding) {
            Some(sc) => {
                cands.push((sc, i));
                proof {
                    assert(pairs(cands@) =~= pairs(before).push((sc as int, i as int)));
                }
            },
            None => {},
        }
        i = i + 1;
    }
    proof {
        assert(cs.subrange(0, i as int) =~= cs);
    }
    let top = rank(cands, top_k);
    let ghost tp = pairs(top@);
    let mut out: Vec<SearchResult> = Vec::new();
    let mut k: usize = 0;
    while k < top.len()
        invariant
            k <= top@.len(),
            tp == pairs(top@),
            views(chunks@) == cs,
            cs == store.chunks_of(document_id@),
            mode_named(mode@) == Some(m),
            is_top(tp, candidates(cs, m, words(fold(query@)), query_embedding@), top_k as nat),
            forall|c: (int, int)| #[trigger] candidates(cs, m, words(fold(query@)), query_embedding@).contains(c) ==> 0 <= c.1 < cs.len(),
            out@.len() == k,
            forall|j: int| 0 <= j < k ==> reports(#[trigger] out@[j], tp[j].0, cs[tp[j].1]),
        decreases top@.len() - k,
    {
        let (sc, idx) = top[k];
        proof {
            assert(tp[k as int] == (sc as int, idx as int));
            assert(candidates(cs, m, words(fold(query@)), query_embedding@).contains(tp[k as int]));
        }
        let c = &chunks[idx];
        proof {
            assert(c@ == cs[idx as int]);
        }
        out.push(SearchResult { chunk_id: c.key, content: c.content.clone(), score: sc, chapter_title: c.chapter_title.clone() });
        k = k + 1;
    }
    proof {
        assert(answers(out@, tp, cs, candidates(cs, m, words(fold(query@)), query_embedding@), top_k as nat));
        assert(mode_named(mode@).unwrap() == m);
        assert(answers(
            out@,
            tp,
            store.chunks_of(document_id@),
            candidates(store.chunks_of(document_id@), mode_named(mode@).unwrap(), words(fold(query@)), query_embedding@),
            top_k as nat,
        ));
    }
    let r: Result<Vec<SearchResult>, RagError> = Ok(out);
    proof {
        let v = r->Ok_0;
        assert(v@ == out@);
    }
    r
}

} // verus!

verus! {

proof fn lemma_hits_all(q: Seq<Seq<char>>, ws: Seq<Seq<char>>)
    requires
        forall|i: int| 0 <= i < q.len() ==> ws.contains(#[trigger] q[i]),
    ensures
        hits(q, ws) == q.len(),
    decreases q.len(),
{
    if q.len() > 0 {
        let p = q.drop_last();
        assert forall|i: int| 0 <= i < p.len() implies ws.contains(#[trigger] p[i]) by {
            assert(p[i] == q[i]);
        }
        lemma_hits_all(p, ws);
        assert(ws.contains(q[q.len() - 1]));
    }
}

proof fn lemma_hits_miss(q: Seq<Seq<char>>, ws: Seq<Seq<char>>, j: int)
    requires
        0 <= j < q.len(),
        !ws.contains(q[j]),
    ensures
        hits(q, ws) < q.len(),
    decreases q.len(),
{
    let p = q.drop_last();
    lemma_hits_le(p, ws);
    if j < q.len() - 1 {
        assert(p[j] == q[j]);
        lemma_hits_miss(p, ws, j);
    }
}

proof fn lemma_hits_le(q: Seq<Seq<char>>, ws: Seq<Seq<char>>)
    ensures
        hits(q, ws) <= q.len(),
    decreases q.len(),
{
    if q.len() > 0 {
        lemma_hits_le(q.drop_last(), ws);
    }
}

/// In keyword search, a chunk whose content holds every query word scores
/// above any chunk whose content misses one of them; so a chunk that alone
/// holds the one word of a query comes first.
pub proof fn lemma_keyword_full_match_wins(q: Seq<Seq<char>>, full: Seq<char>, other: Seq<char>, j: int)
    requires
        0 <= j < q.len(),
        forall|i: int| 0 <= i < q.len() ==> words(fold(full)).contains(#[trigger] q[i]),
        !words(fold(other)).contains(q[j]),
    ensures
        keyword_score(q, full) == SCORE_UNIT,
        keyword_score(q, other) < keyword_score(q, full),
{
    let n = q.len() as int;
    lemma_hits_all(q, words(fold(full)));
    lemma_hits_miss(q, words(fold(other)), j);
    let h = hits(q, words(fold(other))) as int;
    vstd::arithmetic::div_mod::lemma_div_by_multiple(SCORE_UNIT as int, n);
    vstd::arithmetic::mul::lemma_mul_is_commutative(n, SCORE_UNIT as int);
    assert(h * SCORE_UNIT <= (n - 1) * SCORE_UNIT) by (nonlinear_arith)
        requires
            h <= n - 1,
    ;
    assert((n - 1) * SCORE_UNIT < n * SCORE_UNIT) by (nonlinear_arith)
        requires
            n >= 1,
    ;
    vstd::arithmetic::div_mod::lemma_div_is_ordered(h * SCORE_UNIT, (n - 1) * SCORE_UNIT, n);
    assert(((n - 1) * SCORE_UNIT) / n < SCORE_UNIT) by {
        vstd::arithmetic::div_mod::lemma_div_by_multiple_is_strongly_ordered(
            (n - 1) * SCORE_UNIT,
            n * SCORE_UNIT,
            SCORE_UNIT as int,
            n,
        );
    }
}

} // verus!
