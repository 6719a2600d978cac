//! Splitting a text buffer into words.
//!
//! A word is a maximal run of non-separator bytes; the separator set is
//! fixed: space, comma, semicolon, period. Offsets are zero-based byte
//! positions within the buffer the word was read from. The separators are
//! single ASCII bytes, disjoint from the continuation bytes of any multi-byte
//! encoding, so multi-byte characters pass through unsplit and whole.

use vstd::prelude::*;
use vstd::slice::slice_subrange;
use vstd::slice::slice_to_vec;

verus! {

/// The recognized separator bytes: space, comma, semicolon, period.
pub open spec fn is_sep(b: u8) -> bool {
    b == 32 || b == 44 || b == 59 || b == 46
}

/// Whether byte `b` is one of the separator bytes that end a word.
pub fn byte_is_sep(b: u8) -> (r: bool)
    ensures
        r == is_sep(b),
{
    b == 32 || b == 44 || b == 59 || b == 46
}

/// The word `w` occurs in buffer `s` starting at byte offset `off`: the
/// literal bytes of `w` stand there, contain no separator, and are bounded on
/// both sides by a separator or an edge of the buffer.
pub open spec fn token_at(s: Seq<u8>, off: int, w: Seq<u8>) -> bool {
    &&& 0 <= off
    &&& off + w.len() <= s.len()
    &&& w.len() > 0
    &&& (forall|j: int| 0 <= j < w.len() ==> !is_sep(#[trigger] w[j]))
    &&& w == s.subrange(off, off + w.len())
    &&& (off == 0 || is_sep(s[off - 1]))
    &&& (off + w.len() == s.len() || is_sep(s[off + w.len()]))
}

/// Position `i` is the first byte of some word of `s`.
pub open spec fn is_word_start(s: Seq<u8>, i: int) -> bool {
    &&& 0 <= i < s.len()
    &&& !is_sep(s[i])
    &&& (i == 0 || is_sep(s[i - 1]))
}

/// The position of the first separator byte at or after `i`, or the end of
/// the buffer if there is none.
pub open spec fn word_end(s: Seq<u8>, i: int) -> int
    decreases s.len() - i,
    when 0 <= i <= s.len()
{
    if i >= s.len() || is_sep(s[i]) {
        i
    } else {
        word_end(s, i + 1)
    }
}

/// `word_end` lands on a separator or the buffer end, and skips only
/// non-separator bytes.
pub proof fn lemma_word_end_props(s: Seq<u8>, i: int)
    requires
        0 <= i <= s.len(),
    ensures
        i <= word_end(s, i) <= s.len(),
        forall|j: int| i <= j < word_end(s, i) ==> !is_sep(#[trigger] s[j]),
        word_end(s, i) == s.len() || is_sep(s[word_end(s, i)]),
    decreases s.len() - i,
{
    if i < s.len() && !is_sep(s[i]) {
        lemma_word_end_props(s, i + 1);
    }
}

/// A run of non-separator bytes from `i` that is terminated at `e` pins
/// `word_end(s, i)` to `e`.
pub proof fn lemma_word_end_pinned(s: Seq<u8>, i: int, e: int)
    requires
        0 <= i <= e <= s.len(),
        forall|j: int| i <= j < e ==> !is_sep(#[trigger] s[j]),
        e == s.len() || is_sep(s[e]),
    ensures
        word_end(s, i) == e,
    decreases e - i,
{
    if i < e {
        lemma_word_end_pinned(s, i + 1, e);
    }
}

/// Every word start carries a word: the run up to `word_end` is a token.
pub proof fn lemma_word_start_token(s: Seq<u8>, off: int)
    requires
        is_word_start(s, off),
    ensures
        word_end(s, off) > off,
        token_at(s, off, s.subrange(off, word_end(s, off))),
{
    lemma_word_end_props(s, off);
    let e = word_end(s, off);
    assert(e > off);
    let w = s.subrange(off, e);
    assert(forall|j: int| 0 <= j < w.len() ==> w[j] == #[trigger] s[off + j]);
    assert(w =~= s.subrange(off, off + w.len()));
}

/// Conversely, every token begins at a word start and runs exactly to
/// `word_end`: a token is determined by its offset.
pub proof fn lemma_token_at_form(s: Seq<u8>, off: int, w: Seq<u8>)
    requires
        token_at(s, off, w),
    ensures
        is_word_start(s, off),
        w == s.subrange(off, word_end(s, off)),
{
    assert(forall|j: int| 0 <= j < w.len() ==> w[j] == #[trigger] s[off + j]);
    assert(!is_sep(s[off])) by {
        assert(w[0] == s[off + 0]);
        assert(!is_sep(w[0]));
    }
    assert forall|j: int| off <= j < off + w.len() implies !is_sep(#[trigger] s[j]) by {
        assert(s[j] == w[j - off]);
        assert(!is_sep(w[j - off]));
    }
    lemma_word_end_pinned(s, off, off + w.len());
}

/// Two tokens at the same offset are the same word.
pub proof fn lemma_token_at_unique(s: Seq<u8>, off: int, w1: Seq<u8>, w2: Seq<u8>)
    requires
        token_at(s, off, w1),
        token_at(s, off, w2),
    ensures
        w1 == w2,
{
    lemma_token_at_form(s, off, w1);
    lemma_token_at_form(s, off, w2);
}

/// One word occurrence: the word's bytes and the byte offset of its first
/// byte within the buffer it was found in.
pub struct Token {
    pub word: Vec<u8>,
    pub offset: usize,
}

/// Splits `data` into its words, left to right.
///
/// The returned tokens are exactly the words of `data`: each returned pair
/// is a genuine occurrence (`token_at`), their offsets strictly increase,
/// and every word start of `data` is returned.
pub fn tokenize(data: &[u8]) -> (tokens: Vec<Token>)
    ensures
        forall|k: int|
            #![trigger tokens@[k]]
            0 <= k < tokens@.len() ==> token_at(data@, tokens@[k].offset as int, tokens@[k].word@),
        forall|k1: int, k2: int|
            0 <= k1 < k2 < tokens@.len() ==> tokens@[k1].offset < tokens@[k2].offset,
        forall|p: int|
            #[trigger] is_word_start(data@, p) ==> exists|k: int|
                0 <= k < tokens@.len() && #[trigger] tokens@[k].offset == p,
{
    let n = data.len();
    let mut tokens: Vec<Token> = Vec::new();
    let mut i: usize = 0;
    while i < n
        invariant
            n == data@.len(),
            0 <= i <= n,
            i == 0 || i >= n || is_sep(data@[i - 1]) || is_sep(data@[i as int]),
            forall|k: int|
                #![trigger tokens@[k]]
                0 <= k < tokens@.len() ==> token_at(
                    data@,
                    tokens@[k].offset as int,
                    tokens@[k].word@,
                ),
            forall|k: int|
                #![trigger tokens@[k]]
                0 <= k < tokens@.len() ==> tokens@[k].offset + tokens@[k].word@.len() <= i,
            forall|k1: int, k2: int|
                0 <= k1 < k2 < tokens@.len() ==> tokens@[k1].offset < tokens@[k2].offset,
            forall|p: int|
                0 <= p < i && #[trigger] is_word_start(data@, p) ==> exists|k: int|
                    0 <= k < tokens@.len() && #[trigger] tokens@[k].offset == p,
        decreases n - i,
    {
        if byte_is_sep(data[i]) {
            i = i + 1;
        } else {
            let start = i;
            let mut j = i + 1;
            while j < n && !byte_is_sep(data[j])
                invariant
                    n == data@.len(),
                    start < j <= n,
                    forall|t: int| start <= t < j ==> !is_sep(#[trigger] data@[t]),
                decreases n - j,
            {
                j = j + 1;
            }
            let word_slice = slice_subrange(data, start, j);
            let word = slice_to_vec(word_slice);
            let ghost old_tokens = tokens@;
            tokens.push(Token { word, offset: start });
            proof {
                let w = data@.subrange(start as int, j as int);
                assert(forall|t: int| 0 <= t < w.len() ==> w[t] == #[trigger] data@[start + t]);
                assert(token_at(data@, start as int, w)) by {
                    assert(w =~= data@.subrange(start as int, start + w.len()));
                }
                assert(tokens@ == old_tokens.push(Token { word: tokens@[old_tokens.len() as int].word, offset: start }));
                assert forall|p: int|
                    0 <= p < j && #[trigger] is_word_start(data@, p) implies exists|k: int|
                    0 <= k < tokens@.len() && #[trigger] tokens@[k].offset == p by {
                    if p < start {
                        let k = choose|k: int|
                            0 <= k < old_tokens.len() && #[trigger] old_tokens[k].offset == p;
                        assert(tokens@[k].offset == p);
                    } else if p == start {
                        assert(tokens@[tokens@.len() - 1].offset == p);
                    } else {
                        assert(!is_sep(data@[p - 1]));
                        assert(false);
                    }
                }
            }
            i = j;
        }
    }
    tokens
}

} // verus!
