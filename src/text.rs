use vstd::prelude::*;
use vstd::std_specs::iter::IteratorSpec;

verus! {

/// The characters that separate words.
pub open spec fn space_char(c: char) -> bool {
    c == ' ' || c == '\t' || c == '\n' || c == '\r' || c == '\x0C'
}

/// Whether `c` separates words.
pub fn is_space(c: char) -> (r: bool)
    ensures
        r == space_char(c),
{
    c == ' ' || c == '\t' || c == '\n' || c == '\r' || c == '\x0C'
}

/// The characters of `s`, in order.
pub fn chars_of(s: &str) -> (r: Vec<char>)
    ensures
        r@ == s@,
{
    broadcast use vstd::string::axiom_spec_iter;
    let mut out: Vec<char> = Vec::new();
    let mut it = s.chars();
    loop
        invariant
            out@ + it.remaining() == s@,
            it.decrease() is Some,
        ensures
            out@ == s@,
        decreases it.decrease()->0,
    {
        match it.next() {
            Some(c) => {
                out.push(c);
            },
            None => {
                break;
            },
        }
    }
    out
}

} // verus!

verus! {

/// `c` with ASCII capitals made small; other characters stay.
pub open spec fn fold_char(c: char) -> char {
    if 'A' <= c && c <= 'Z' {
        ((c as u8) + 32) as u8 as char
    } else {
        c
    }
}

/// `s` with ASCII capitals made small.
pub open spec fn fold(s: Seq<char>) -> Seq<char> {
    s.map_values(|c: char| fold_char(c))
}

/// How many characters at the start of `s` belong to a word.
pub open spec fn word_len(s: Seq<char>) -> nat
    decreases s.len(),
{
    if s.len() == 0 || space_char(s[0]) {
        0
    } else {
        1 + word_len(s.drop_first())
    }
}

/// The words of `s`: its maximal runs of characters that are not spaces.
pub open spec fn words(s: Seq<char>) -> Seq<Seq<char>>
    decreases s.len(),
{
    if s.len() == 0 {
        seq![]
    } else if space_char(s[0]) {
        words(s.drop_first())
    } else {
        let n = word_len(s);
        if n == 0 || n > s.len() {
            seq![]
        } else {
            seq![s.subrange(0, n as int)] + words(s.subrange(n as int, s.len() as int))
        }
    }
}

/// `c` with an ASCII capital made small.
pub fn fold_letter(c: char) -> (r: char)
    ensures
        r == fold_char(c),
{
    if 'A' <= c && c <= 'Z' {
        let v: u8 = (c as u8) + 32;
        v as char
    } else {
        c
    }
}

proof fn lemma_word_len(s: Seq<char>, i: int)
    requires
        0 <= i <= s.len(),
        forall|j: int| 0 <= j < i ==> !space_char(#[trigger] s[j]),
        i == s.len() || space_char(s[i]),
    ensures
        word_len(s) == i,
    decreases i,
{
    if i > 0 {
        let t = s.drop_first();
        assert forall|j: int| 0 <= j < i - 1 implies !space_char(#[trigger] t[j]) by {
            assert(t[j] == s[j + 1]);
        }
        if i - 1 < t.len() {
            assert(t[i - 1] == s[i]);
        }
        lemma_word_len(t, i - 1);
    }
}

/// The words of `s` with ASCII capitals made small, each as its characters.
pub fn folded_words(s: &str) -> (r: Vec<Vec<char>>)
    ensures
        r@.len() == words(fold(s@)).len(),
        forall|k: int| 0 <= k < r@.len() ==> (#[trigger] r@[k])@ == words(fold(s@))[k],
{
    let raw = chars_of(s);
    let mut t: Vec<char> = Vec::new();
    let mut k: usize = 0;
    while k < raw.len()
        invariant
            k <= raw@.len(),
            raw@ == s@,
            t@ == fold(s@).subrange(0, k as int),
        decreases raw@.len() - k,
    {
        t.push(fold_letter(raw[k]));
        k = k + 1;
        assert(t@ =~= fold(s@).subrange(0, k as int));
    }
    assert(t@ =~= fold(s@));
    let ghost all = words(t@);
    let n = t.len();
    let mut out: Vec<Vec<char>> = Vec::new();
    let mut i: usize = 0;
    while i < n
        invariant
            n == t@.len(),
            i <= n,
            all == words(t@),
            out@.len() + words(t@.subrange(i as int, n as int)).len() == all.len(),
            forall|j: int| 0 <= j < out@.len() ==> (#[trigger] out@[j])@ == all[j],
            forall|j: int|
                0 <= j < words(t@.subrange(i as int, n as int)).len() ==> #[trigger] words(
                    t@.subrange(i as int, n as int),
                )[j] == all[out@.len() + j],
        decreases n - i,
    {
        let ghost rest = t@.subrange(i as int, n as int);
        if is_space(t[i]) {
            proof {
                assert(rest.drop_first() =~= t@.subrange(i + 1, n as int));
            }
            i = i + 1;
        } else {
            let mut j: usize = i;
            let mut w: Vec<char> = Vec::new();
            while j < n && !is_space(t[j])
                invariant
                    i <= j <= n,
                    n == t@.len(),
                    w@ == t@.subrange(i as int, j as int),
                    forall|l: int| i <= l < j ==> !space_char(#[trigger] t@[l]),
                decreases n - j,
            {
                w.push(t[j]);
                j = j + 1;
                assert(w@ =~= t@.subrange(i as int, j as int));
            }
            proof {
                assert forall|l: int| 0 <= l < j - i implies !space_char(#[trigger] rest[l]) by {
                    assert(rest[l] == t@[i + l]);
                }
                if j < n {
                    assert(rest[j - i] == t@[j as int]);
                }
                lemma_word_len(rest, j - i);
                assert(rest.subrange(0, j - i) =~= w@);
                assert(rest.subrange(j - i, rest.len() as int) =~= t@.subrange(j as int, n as int));
                let tail = words(t@.subrange(j as int, n as int));
                assert(words(rest) == seq![w@] + tail);
                assert forall|l: int| 0 <= l < tail.len() implies #[trigger] tail[l] == all[out@.len() + 1 + l] by {
                    assert(words(rest)[l + 1] == tail[l]);
                }
            }
            let ghost before = out@;
            out.push(w);
            proof {
                assert forall|l: int| 0 <= l < out@.len() implies (#[trigger] out@[l])@ == all[l] by {
                    if l < before.len() {
                        assert(out@[l] == before[l]);
                    } else {
                        assert(words(rest)[0] == all[before.len() as int]);
                    }
                }
            }
            i = j;
        }
    }
    proof {
        assert(t@.subrange(n as int, n as int).len() == 0);
    }
    out
}

/// Whether the character sequences `a` and `b` are equal.
pub fn same_chars(a: &Vec<char>, b: &Vec<char>) -> (r: bool)
    ensures
        r == (a@ == b@),
{
    if a.len() != b.len() {
        return false;
    }
    let mut i: usize = 0;
    while i < a.len()
        invariant
            a@.len() == b@.len(),
            i <= a@.len(),
            forall|j: int| 0 <= j < i ==> a@[j] == b@[j],
        decreases a@.len() - i,
    {
        if a[i] != b[i] {
            return false;
        }
        i = i + 1;
    }
    assert(a@ =~= b@);
    true
}

} // verus!
