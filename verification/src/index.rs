//! The per-file index: a mapping from each distinct word of one buffer to
//! the ordered list of byte offsets at which it occurs.
//!
//! The index is held as an association list sorted strictly by word in
//! lexicographic byte order, so the representation is canonical and lookups
//! and the snapshot output are deterministic.

use vstd::prelude::*;
use vstd::string::StringSliceAdditionalSpecFns;

use crate::lex::bytes_eq;
use crate::lex::lemma_lex_lt_irrefl;
use crate::lex::lemma_lex_lt_trans;
use crate::lex::lemma_lex_lt_trichotomy;
use crate::lex::lex_less;
use crate::lex::lex_lt;
use crate::tokenizer::is_word_start;
use crate::tokenizer::lemma_token_at_form;
use crate::tokenizer::lemma_token_at_unique;
use crate::tokenizer::token_at;
use crate::tokenizer::tokenize;

verus! {

/// The elements of `s` grow strictly from left to right.
pub open spec fn strictly_increasing(s: Seq<usize>) -> bool {
    forall|i: int, j: int| 0 <= i < j < s.len() ==> s[i] < s[j]
}

/// A strictly increasing sequence is determined by the set of its elements.
pub proof fn lemma_strictly_increasing_unique(s1: Seq<usize>, s2: Seq<usize>)
    requires
        strictly_increasing(s1),
        strictly_increasing(s2),
        forall|x: usize| s1.contains(x) <==> s2.contains(x),
    ensures
        s1 == s2,
    decreases s1.len(),
{
    if s1.len() == 0 {
        if s2.len() > 0 {
            assert(s2.contains(s2[0]));
            assert(s1.contains(s2[0]));
        }
        assert(s1 =~= s2);
    } else {
        assert(s1.contains(s1[0]));
        assert(s2.contains(s2[0]));
        let i2 = choose|i: int| 0 <= i < s2.len() && s2[i] == s1[0];
        let i1 = choose|i: int| 0 <= i < s1.len() && s1[i] == s2[0];
        assert(s2[0] <= s2[i2]);
        assert(s1[0] <= s1[i1]);
        assert(s1[0] == s2[0]);
        let t1 = s1.drop_first();
        let t2 = s2.drop_first();
        assert(forall|j: int| 0 <= j < t1.len() ==> t1[j] == #[trigger] s1[j + 1]);
        assert(forall|j: int| 0 <= j < t2.len() ==> t2[j] == #[trigger] s2[j + 1]);
        assert forall|x: usize| t1.contains(x) <==> t2.contains(x) by {
            if t1.contains(x) {
                let j = choose|j: int| 0 <= j < t1.len() && t1[j] == x;
                assert(s1[j + 1] == x);
                assert(s1.contains(x));
                assert(x > s1[0]);
                let k = choose|k: int| 0 <= k < s2.len() && s2[k] == x;
                assert(k > 0);
                assert(t2[k - 1] == x);
                assert(t2.contains(x));
            }
            if t2.contains(x) {
                let j = choose|j: int| 0 <= j < t2.len() && t2[j] == x;
                assert(s2[j + 1] == x);
                assert(s2.contains(x));
                assert(x > s2[0]);
                let k = choose|k: int| 0 <= k < s1.len() && s1[k] == x;
                assert(k > 0);
                assert(t1[k - 1] == x);
                assert(t1.contains(x));
            }
        }
        lemma_strictly_increasing_unique(t1, t2);
        assert(s1.len() == s2.len());
        assert forall|i: int| 0 <= i < s1.len() implies s1[i] == s2[i] by {
            if i >= 1 {
                assert(s1[i] == t1[i - 1]);
                assert(s2[i] == t2[i - 1]);
            }
        }
        assert(s1 =~= s2);
    }
}

/// One word of a buffer together with all offsets at which it occurs there.
pub struct WordOffsets {
    pub word: Vec<u8>,
    pub offsets: Vec<usize>,
}

/// The words of the entry sequence are strictly sorted, so each word occurs
/// at most once.
pub open spec fn words_sorted(entries: Seq<WordOffsets>) -> bool {
    forall|k1: int, k2: int|
        0 <= k1 < k2 < entries.len() ==> lex_lt(
            #[trigger] entries[k1].word@,
            #[trigger] entries[k2].word@,
        )
}

/// Strictly sorted words are pairwise distinct.
pub proof fn lemma_words_sorted_distinct(entries: Seq<WordOffsets>)
    requires
        words_sorted(entries),
    ensures
        forall|k1: int, k2: int|
            0 <= k1 < k2 < entries.len() ==> (#[trigger] entries[k1].word@) != (
            #[trigger] entries[k2].word@),
{
    assert forall|k1: int, k2: int|
        0 <= k1 < k2 < entries.len() implies (#[trigger] entries[k1].word@) != (
    #[trigger] entries[k2].word@) by {
        if entries[k1].word@ == entries[k2].word@ {
            lemma_lex_lt_irrefl(entries[k1].word@);
        }
    }
}

/// The finite map held by an entry sequence: each word maps to its offsets.
pub open spec fn offsets_map(entries: Seq<WordOffsets>) -> Map<Seq<u8>, Seq<usize>>
    decreases entries.len(),
{
    if entries.len() == 0 {
        Map::empty()
    } else {
        offsets_map(entries.drop_last()).insert(entries.last().word@, entries.last().offsets@)
    }
}

/// With distinct words, the map of an entry sequence is exactly the
/// association list read entry by entry.
pub proof fn lemma_offsets_map_characterize(entries: Seq<WordOffsets>)
    requires
        forall|k1: int, k2: int|
            0 <= k1 < k2 < entries.len() ==> (#[trigger] entries[k1].word@) != (
            #[trigger] entries[k2].word@),
    ensures
        forall|w: Seq<u8>|
            #[trigger] offsets_map(entries).contains_key(w) <==> exists|k: int|
                0 <= k < entries.len() && (#[trigger] entries[k].word@) == w,
        forall|k: int|
            0 <= k < entries.len() ==> offsets_map(entries)[(#[trigger] entries[k].word@)]
                == entries[k].offsets@,
    decreases entries.len(),
{
    if entries.len() > 0 {
        let pre = entries.drop_last();
        let last = entries.last();
        assert(forall|k: int| 0 <= k < pre.len() ==> pre[k] == #[trigger] entries[k]);
        lemma_offsets_map_characterize(pre);
        assert forall|w: Seq<u8>|
            #[trigger] offsets_map(entries).contains_key(w) implies exists|k: int|
            0 <= k < entries.len() && (#[trigger] entries[k].word@) == w by {
            if w == last.word@ {
                assert(entries[entries.len() - 1].word@ == w);
            } else {
                assert(offsets_map(pre).contains_key(w));
                let k = choose|k: int| 0 <= k < pre.len() && (#[trigger] pre[k].word@) == w;
                assert(entries[k].word@ == w);
            }
        }
        assert forall|k: int|
            0 <= k < entries.len() implies offsets_map(entries)[(#[trigger] entries[k].word@)]
            == entries[k].offsets@ by {
            if k == entries.len() - 1 {
            } else {
                assert(entries[k].word@ != last.word@);
                assert(pre[k].word@ == entries[k].word@);
            }
        }
    }
}

/// The per-file index: word -> ordered offsets, for exactly one buffer.
pub struct FileIndex {
    pub entries: Vec<WordOffsets>,
}

impl View for FileIndex {
    type V = Map<Seq<u8>, Seq<usize>>;

    open spec fn view(&self) -> Map<Seq<u8>, Seq<usize>> {
        offsets_map(self.entries@)
    }
}

impl FileIndex {
    /// Well-formedness: words strictly sorted and non-empty; each offset list
    /// non-empty and strictly increasing (discovery order is left to right).
    pub open spec fn wf(&self) -> bool {
        &&& words_sorted(self.entries@)
        &&& forall|k: int|
            0 <= k < self.entries@.len() ==> (#[trigger] self.entries@[k]).word@.len() > 0
        &&& forall|k: int|
            0 <= k < self.entries@.len() ==> (#[trigger] self.entries@[k]).offsets@.len() > 0
        &&& forall|k: int|
            0 <= k < self.entries@.len() ==> strictly_increasing(
                (#[trigger] self.entries@[k]).offsets@,
            )
    }

    /// An empty index, for a buffer that could not be read.
    pub fn new() -> (index: FileIndex)
        ensures
            index.wf(),
            index@ == Map::<Seq<u8>, Seq<usize>>::empty(),
            index.entries@.len() == 0,
    {
        FileIndex { entries: Vec::new() }
    }

    /// The offsets recorded for `word`, or `None` when `word` is not in the
    /// index.
    pub fn offsets_for(&self, word: &[u8]) -> (r: Option<&Vec<usize>>)
        requires
            self.wf(),
        ensures
            match r {
                Some(v) => self@.contains_key(word@) && v@ == self@[word@],
                None => !self@.contains_key(word@),
            },
    {
        proof {
            lemma_words_sorted_distinct(self.entries@);
            lemma_offsets_map_characterize(self.entries@);
        }
        let n = self.entries.len();
        let mut k: usize = 0;
        while k < n
            invariant
                self.wf(),
                n == self.entries@.len(),
                0 <= k <= n,
                forall|t: int| 0 <= t < k ==> (#[trigger] self.entries@[t].word@) != word@,
            decreases n - k,
        {
            if bytes_eq(self.entries[k].word.as_slice(), word) {
                proof {
                    lemma_words_sorted_distinct(self.entries@);
                    lemma_offsets_map_characterize(self.entries@);
                }
                return Some(&self.entries[k].offsets);
            }
            k = k + 1;
        }
        None
    }

    /// The number of distinct words in the index.
    pub fn word_count(&self) -> (n: usize)
        ensures
            n == self.entries@.len(),
    {
        self.entries.len()
    }
}

/// Every offset recorded anywhere in the entries lies below `bound`.
pub open spec fn all_offsets_below(entries: Seq<WordOffsets>, bound: usize) -> bool {
    forall|k: int, j: int|
        0 <= k < entries.len() && 0 <= j < entries[k].offsets@.len() ==> (
        #[trigger] entries[k].offsets@[j]) < bound
}

/// `m` is the word index of buffer `s`: a word is present exactly when it
/// occurs in `s`, and its offsets are exactly the positions of its
/// occurrences.
pub open spec fn file_index_matches(s: Seq<u8>, m: Map<Seq<u8>, Seq<usize>>) -> bool {
    &&& forall|w: Seq<u8>, off: int|
        #[trigger] token_at(s, off, w) ==> m.contains_key(w) && m[w].contains(off as usize)
    &&& forall|w: Seq<u8>, off: usize|
        m.contains_key(w) && (#[trigger] m[w].contains(off)) ==> token_at(s, off as int, w)
    &&& forall|w: Seq<u8>| #[trigger] m.contains_key(w) ==> m[w].len() > 0
}

/// Records one further occurrence `(word, offset)` in the index. The new
/// offset lies beyond everything recorded so far, so offset lists stay
/// strictly increasing.
fn insert_token(index: &mut FileIndex, word: Vec<u8>, offset: usize)
    requires
        old(index).wf(),
        word@.len() > 0,
        all_offsets_below(old(index).entries@, offset),
    ensures
        final(index).wf(),
        final(index)@ == if old(index)@.contains_key(word@) {
            old(index)@.insert(word@, old(index)@[word@].push(offset))
        } else {
            old(index)@.insert(word@, seq![offset])
        },
{
    proof {
        lemma_words_sorted_distinct(old(index).entries@);
        lemma_offsets_map_characterize(old(index).entries@);
    }
    let n = index.entries.len();
    let mut pos: usize = 0;
    while pos < n && lex_less(index.entries[pos].word.as_slice(), word.as_slice())
        invariant
            *index == *old(index),
            n == index.entries@.len(),
            0 <= pos <= n,
            forall|t: int| 0 <= t < pos ==> lex_lt((#[trigger] index.entries@[t].word@), word@),
        decreases n - pos,
    {
        pos = pos + 1;
    }
    let ghost old_entries = index.entries@;
    let ghost old_map = offsets_map(old_entries);
    if pos < n && bytes_eq(index.entries[pos].word.as_slice(), word.as_slice()) {
        let mut e = index.entries.remove(pos);
        e.offsets.push(offset);
        index.entries.insert(pos, e);
        proof {
            assert(index.entries@ =~= old_entries.update(
                pos as int,
                WordOffsets { word: index.entries@[pos as int].word, offsets: index.entries@[pos as int].offsets },
            ));
            let new_entries = index.entries@;
            assert(forall|k: int|
                0 <= k < new_entries.len() && k != pos ==> new_entries[k] == #[trigger] old_entries[k]);
            assert(new_entries[pos as int].word@ == word@);
            assert(new_entries[pos as int].offsets@ == old_entries[pos as int].offsets@.push(offset));
            assert(words_sorted(new_entries));
            assert(strictly_increasing(new_entries[pos as int].offsets@)) by {
                let so = old_entries[pos as int].offsets@;
                assert(forall|j: int| 0 <= j < so.len() ==> (#[trigger] so[j]) < offset);
            }
            assert(index.wf());
            lemma_words_sorted_distinct(new_entries);
            lemma_offsets_map_characterize(new_entries);
            assert(old_map.contains_key(word@)) by {
                assert(old_entries[pos as int].word@ == word@);
            }
            assert(old_map[word@] == old_entries[pos as int].offsets@);
            assert forall|w: Seq<u8>|
                #[trigger] offsets_map(new_entries).contains_key(w)
                    == old_map.insert(word@, old_map[word@].push(offset)).contains_key(w) by {
                if offsets_map(new_entries).contains_key(w) {
                    let k = choose|k: int|
                        0 <= k < new_entries.len() && (#[trigger] new_entries[k].word@) == w;
                    if k == pos {
                        assert(w == word@);
                    } else {
                        assert(old_entries[k].word@ == w);
                        assert(old_map.contains_key(w));
                    }
                }
                if old_map.insert(word@, old_map[word@].push(offset)).contains_key(w) {
                    if w == word@ {
                        assert(new_entries[pos as int].word@ == w);
                    } else {
                        assert(old_map.contains_key(w));
                        let k = choose|k: int|
                            0 <= k < old_entries.len() && (#[trigger] old_entries[k].word@) == w;
                        assert(k != pos);
                        assert(new_entries[k].word@ == w);
                    }
                }
            }
            assert forall|w: Seq<u8>| offsets_map(new_entries).contains_key(w) implies
                offsets_map(new_entries)[w] == old_map.insert(
                word@,
                old_map[word@].push(offset),
            )[w] by {
                let k = choose|k: int|
                    0 <= k < new_entries.len() && (#[trigger] new_entries[k].word@) == w;
                if k == pos {
                    assert(w == word@);
                    assert(offsets_map(new_entries)[w] == new_entries[pos as int].offsets@);
                } else {
                    assert(old_entries[k].word@ == w);
                    assert(w != word@);
                    assert(offsets_map(new_entries)[w] == new_entries[k].offsets@);
                    assert(old_map[w] == old_entries[k].offsets@);
                }
            }
            assert(index@ =~= old_map.insert(word@, old_map[word@].push(offset)));
        }
    } else {
        proof {
            if pos < n {
                lemma_lex_lt_trichotomy(index.entries@[pos as int].word@, word@);
            }
            assert forall|t: int| pos <= t < n implies lex_lt(
                word@,
                (#[trigger] index.entries@[t].word@),
            ) by {
                if t > pos {
                    lemma_lex_lt_trans(
                        word@,
                        index.entries@[pos as int].word@,
                        index.entries@[t].word@,
                    );
                }
            }
            assert(!old_map.contains_key(word@)) by {
                if old_map.contains_key(word@) {
                    let k = choose|k: int|
                        0 <= k < old_entries.len() && (#[trigger] old_entries[k].word@) == word@;
                    if k < pos {
                        lemma_lex_lt_irrefl(word@);
                    } else {
                        lemma_lex_lt_irrefl(word@);
                    }
                }
            }
        }
        let mut offsets: Vec<usize> = Vec::new();
        offsets.push(offset);
        index.entries.insert(pos, WordOffsets { word, offsets });
        proof {
            let new_entries = index.entries@;
            assert(new_entries == old_entries.insert(pos as int, new_entries[pos as int]));
            assert(new_entries[pos as int].word@ == word@);
            assert(new_entries[pos as int].offsets@ =~= seq![offset]);
            assert(forall|k: int| 0 <= k < pos ==> new_entries[k] == #[trigger] old_entries[k]);
            assert(forall|k: int|
                pos < k < new_entries.len() ==> (#[trigger] new_entries[k]) == old_entries[k - 1]);
            assert forall|k1: int, k2: int| 0 <= k1 < k2 < new_entries.len() implies lex_lt(
                (#[trigger] new_entries[k1].word@),
                (#[trigger] new_entries[k2].word@),
            ) by {
                if k1 == pos {
                    assert(lex_lt(word@, old_entries[k2 - 1].word@));
                } else if k2 == pos {
                    assert(lex_lt(old_entries[k1].word@, word@));
                } else if k1 < pos && k2 > pos {
                    assert(lex_lt(old_entries[k1].word@, word@));
                    assert(lex_lt(word@, old_entries[k2 - 1].word@));
                    lemma_lex_lt_trans(old_entries[k1].word@, word@, old_entries[k2 - 1].word@);
                }
            }
            assert(index.wf());
            lemma_words_sorted_distinct(new_entries);
            lemma_offsets_map_characterize(new_entries);
            assert forall|w: Seq<u8>|
                #[trigger] offsets_map(new_entries).contains_key(w) == old_map.insert(
                word@,
                seq![offset],
            ).contains_key(w) by {
                if offsets_map(new_entries).contains_key(w) {
                    let k = choose|k: int|
                        0 <= k < new_entries.len() && (#[trigger] new_entries[k].word@) == w;
                    if k != pos {
                        let ko: int = if k < pos { k } else { k - 1 };
                        assert(old_entries[ko].word@ == w);
                        assert(old_map.contains_key(w));
                    }
                }
                if old_map.insert(word@, seq![offset]).contains_key(w) && w != word@ {
                    let k = choose|k: int|
                        0 <= k < old_entries.len() && (#[trigger] old_entries[k].word@) == w;
                    let kn: int = if k < pos { k } else { k + 1 };
                    assert(new_entries[kn].word@ == w);
                }
            }
            assert forall|w: Seq<u8>| offsets_map(new_entries).contains_key(w) implies
                offsets_map(new_entries)[w] == old_map.insert(word@, seq![offset])[w] by {
                let k = choose|k: int|
                    0 <= k < new_entries.len() && (#[trigger] new_entries[k].word@) == w;
                if k == pos {
                    assert(w == word@);
                    assert(offsets_map(new_entries)[w] == new_entries[pos as int].offsets@);
                } else {
                    let ko: int = if k < pos { k } else { k - 1 };
                    assert(old_entries[ko].word@ == w);
                    assert(w != word@);
                    assert(offsets_map(new_entries)[w] == new_entries[k].offsets@);
                    assert(old_map[w] == old_entries[ko].offsets@);
                }
            }
            assert(index@ =~= old_map.insert(word@, seq![offset]));
        }
    }
}

/// Builds the word index of a byte buffer.
///
/// The returned index lists, for each distinct word of `data`, the byte
/// offsets of all its occurrences in strictly increasing order; a word is
/// present exactly when it occurs.
pub fn index_bytes(data: &[u8]) -> (index: FileIndex)
    ensures
        index.wf(),
        file_index_matches(data@, index@),
{
    let tokens = tokenize(data);
    let ghost toks = tokens@;
    let mut rest = tokens;
    let ghost t: int = 0;
    let mut index = FileIndex { entries: Vec::new() };
    while rest.len() > 0
        invariant
            index.wf(),
            0 <= t <= toks.len(),
            rest@ == toks.skip(t),
            forall|k: int|
                #![trigger toks[k]]
                0 <= k < toks.len() ==> token_at(data@, toks[k].offset as int, toks[k].word@),
            forall|k1: int, k2: int|
                0 <= k1 < k2 < toks.len() ==> toks[k1].offset < toks[k2].offset,
            forall|w: Seq<u8>|
                #[trigger] index@.contains_key(w) <==> exists|k: int|
                    0 <= k < t && (#[trigger] toks[k].word@) == w,
            forall|w: Seq<u8>, off: usize|
                index@.contains_key(w) ==> ((#[trigger] index@[w].contains(off)) <==> exists|k: int|
                    0 <= k < t && (#[trigger] toks[k].word@) == w && toks[k].offset == off),
        decreases rest@.len(),
    {
        let tok = rest.remove(0);
        proof {
            assert(toks.skip(t)[0] == toks[t]);
            assert(rest@ =~= toks.skip(t + 1));
        }
        let ghost old_map = index@;
        proof {
            lemma_words_sorted_distinct(index.entries@);
            lemma_offsets_map_characterize(index.entries@);
            assert forall|k: int, j: int|
                0 <= k < index.entries@.len() && 0 <= j < index.entries@[k].offsets@.len() implies (
            #[trigger] index.entries@[k].offsets@[j]) < tok.offset by {
                let w = index.entries@[k].word@;
                let x = index.entries@[k].offsets@[j];
                assert(index@.contains_key(w));
                assert(index@[w] == index.entries@[k].offsets@);
                assert(index@[w].contains(x));
                let ki = choose|ki: int|
                    0 <= ki < t && (#[trigger] toks[ki].word@) == w && toks[ki].offset == x;
                assert(toks[ki].offset < toks[t].offset);
            }
        }
        insert_token(&mut index, tok.word, tok.offset);
        proof {
            let w0 = toks[t].word@;
            let off0 = toks[t].offset;
            assert forall|w: Seq<u8>|
                #[trigger] index@.contains_key(w) <==> exists|k: int|
                    0 <= k < t + 1 && (#[trigger] toks[k].word@) == w by {
                if index@.contains_key(w) {
                    if w == w0 {
                        assert(toks[t].word@ == w);
                    } else {
                        assert(old_map.contains_key(w));
                        let k = choose|k: int| 0 <= k < t && (#[trigger] toks[k].word@) == w;
                        assert(0 <= k < t + 1 && toks[k].word@ == w);
                    }
                }
                if exists|k: int| 0 <= k < t + 1 && (#[trigger] toks[k].word@) == w {
                    let k = choose|k: int| 0 <= k < t + 1 && (#[trigger] toks[k].word@) == w;
                    if w != w0 {
                        assert(k < t);
                        assert(old_map.contains_key(w));
                    }
                }
            }
            assert forall|w: Seq<u8>, off: usize|
                index@.contains_key(w) implies ((#[trigger] index@[w].contains(off)) <==> exists|
                k: int,
            |
                0 <= k < t + 1 && (#[trigger] toks[k].word@) == w && toks[k].offset == off) by {
                if w == w0 {
                    let newseq = index@[w];
                    if old_map.contains_key(w0) {
                        assert(newseq == old_map[w0].push(off0));
                        if newseq.contains(off) {
                            let j = choose|j: int| 0 <= j < newseq.len() && newseq[j] == off;
                            if j < old_map[w0].len() {
                                assert(old_map[w0][j] == off);
                                assert(old_map[w0].contains(off));
                                let k = choose|k: int|
                                    0 <= k < t && (#[trigger] toks[k].word@) == w
                                        && toks[k].offset == off;
                                assert(0 <= k < t + 1 && toks[k].word@ == w && toks[k].offset
                                    == off);
                            } else {
                                assert(off == off0);
                                assert(toks[t].word@ == w && toks[t].offset == off);
                            }
                        }
                        if exists|k: int|
                            0 <= k < t + 1 && (#[trigger] toks[k].word@) == w && toks[k].offset
                                == off {
                            let k = choose|k: int|
                                0 <= k < t + 1 && (#[trigger] toks[k].word@) == w && toks[k].offset
                                    == off;
                            if k < t {
                                assert(old_map[w0].contains(off));
                                let j = choose|j: int|
                                    0 <= j < old_map[w0].len() && old_map[w0][j] == off;
                                assert(newseq[j] == off);
                                assert(newseq.contains(off));
                            } else {
                                assert(newseq[newseq.len() - 1] == off0);
                                assert(newseq.contains(off));
                            }
                        }
                    } else {
                        assert(newseq =~= seq![off0]);
                        if newseq.contains(off) {
                            assert(off == off0);
                            assert(toks[t].word@ == w && toks[t].offset == off);
                        }
                        if exists|k: int|
                            0 <= k < t + 1 && (#[trigger] toks[k].word@) == w && toks[k].offset
                                == off {
                            let k = choose|k: int|
                                0 <= k < t + 1 && (#[trigger] toks[k].word@) == w && toks[k].offset
                                    == off;
                            if k < t {
                                assert(old_map.contains_key(w));
                                assert(false);
                            }
                            assert(newseq[0] == off0);
                            assert(newseq.contains(off));
                        }
                    }
                } else {
                    assert(index@[w] == old_map[w]);
                    assert(old_map.contains_key(w));
                    if index@[w].contains(off) {
                        let k = choose|k: int|
                            0 <= k < t && (#[trigger] toks[k].word@) == w && toks[k].offset == off;
                        assert(0 <= k < t + 1 && toks[k].word@ == w && toks[k].offset == off);
                    }
                    if exists|k: int|
                        0 <= k < t + 1 && (#[trigger] toks[k].word@) == w && toks[k].offset
                            == off {
                        let k = choose|k: int|
                            0 <= k < t + 1 && (#[trigger] toks[k].word@) == w && toks[k].offset
                                == off;
                        assert(k < t);
                        assert(old_map[w].contains(off));
                    }
                }
            }
            t = t + 1;
        }
    }
    proof {
        assert(t == toks.len());
        assert forall|w: Seq<u8>, off: int| #[trigger] token_at(data@, off, w) implies
            index@.contains_key(w) && index@[w].contains(off as usize) by {
            lemma_token_at_form(data@, off, w);
            assert(is_word_start(data@, off));
            let k = choose|k: int| 0 <= k < toks.len() && (#[trigger] toks[k].offset) == off;
            assert(token_at(data@, toks[k].offset as int, toks[k].word@));
            lemma_token_at_unique(data@, off, w, toks[k].word@);
            assert(toks[k].word@ == w);
            assert(index@.contains_key(w));
            assert(toks[k].offset == off as usize);
            assert(index@[w].contains(off as usize));
        }
        assert forall|w: Seq<u8>, off: usize|
            index@.contains_key(w) && (#[trigger] index@[w].contains(off)) implies token_at(
            data@,
            off as int,
            w,
        ) by {
            let k = choose|k: int|
                0 <= k < t && (#[trigger] toks[k].word@) == w && toks[k].offset == off;
            assert(token_at(data@, toks[k].offset as int, toks[k].word@));
        }
        assert forall|w: Seq<u8>| #[trigger] index@.contains_key(w) implies index@[w].len() > 0 by {
            let k = choose|k: int| 0 <= k < t && (#[trigger] toks[k].word@) == w;
            assert(index@[w].contains(toks[k].offset));
        }
    }
    index
}

/// Builds the word index of a text buffer. Offsets are byte offsets into the
/// encoded form of `data`.
pub fn index_string(data: &str) -> (index: FileIndex)
    ensures
        index.wf(),
        file_index_matches(data.spec_bytes(), index@),
{
    index_bytes(data.as_bytes())
}

/// Two entry lists agree in everything their views show: same length, and
/// entry by entry the same word and the same offsets.
pub open spec fn word_entries_equiv(a: Seq<WordOffsets>, b: Seq<WordOffsets>) -> bool {
    &&& a.len() == b.len()
    &&& forall|k: int|
        0 <= k < a.len() ==> (#[trigger] a[k]).word@ == b[k].word@ && a[k].offsets@
            == b[k].offsets@
}

/// Some entry of the list carries word `w`.
pub open spec fn has_word(entries: Seq<WordOffsets>, w: Seq<u8>) -> bool {
    exists|k: int| 0 <= k < entries.len() && (#[trigger] entries[k].word@) == w
}

/// A strictly sorted entry list is determined by which words it holds and
/// what offsets each word carries.
proof fn lemma_sorted_word_offsets_unique(a: Seq<WordOffsets>, b: Seq<WordOffsets>)
    requires
        words_sorted(a),
        words_sorted(b),
        forall|w: Seq<u8>| #[trigger] has_word(a, w) <==> #[trigger] has_word(b, w),
        forall|k1: int, k2: int|
            0 <= k1 < a.len() && 0 <= k2 < b.len() && (#[trigger] a[k1].word@) == (
            #[trigger] b[k2].word@) ==> a[k1].offsets@ == b[k2].offsets@,
    ensures
        word_entries_equiv(a, b),
    decreases a.len(),
{
    if a.len() == 0 {
        if b.len() > 0 {
            assert(has_word(b, b[0].word@)) by {
                assert(b[0].word@ == b[0].word@);
            }
            assert(has_word(a, b[0].word@));
            let k = choose|k: int| 0 <= k < a.len() && a[k].word@ == b[0].word@;
            assert(false);
        }
    } else {
        let w1 = a[0].word@;
        assert(has_word(a, w1)) by {
            assert(a[0].word@ == w1);
        }
        assert(has_word(b, w1));
        let k2 = choose|k: int| 0 <= k < b.len() && (#[trigger] b[k].word@) == w1;
        assert(b.len() > 0);
        let w2 = b[0].word@;
        assert(has_word(b, w2)) by {
            assert(b[0].word@ == w2);
        }
        assert(has_word(a, w2));
        let k1 = choose|k: int| 0 <= k < a.len() && (#[trigger] a[k].word@) == w2;
        if w1 != w2 {
            assert(k2 > 0);
            assert(lex_lt(w2, b[k2].word@));
            assert(k1 > 0);
            assert(lex_lt(w1, a[k1].word@));
            crate::lex::lemma_lex_lt_asymm(w1, w2);
        }
        assert(a[0].offsets@ == b[0].offsets@);
        let ta = a.drop_first();
        let tb = b.drop_first();
        assert(forall|k: int| 0 <= k < ta.len() ==> (#[trigger] ta[k]) == a[k + 1]);
        assert(forall|k: int| 0 <= k < tb.len() ==> (#[trigger] tb[k]) == b[k + 1]);
        lemma_words_sorted_distinct(a);
        lemma_words_sorted_distinct(b);
        assert(words_sorted(ta));
        assert(words_sorted(tb));
        assert forall|w: Seq<u8>| #[trigger] has_word(ta, w) <==> #[trigger] has_word(tb, w) by {
            if has_word(ta, w) {
                let k = choose|k: int| 0 <= k < ta.len() && (#[trigger] ta[k].word@) == w;
                assert(a[k + 1].word@ == w);
                assert(w != w1);
                assert(has_word(a, w)) by {
                    assert(a[k + 1].word@ == w);
                }
                assert(has_word(b, w));
                let j = choose|j: int| 0 <= j < b.len() && (#[trigger] b[j].word@) == w;
                assert(j > 0);
                assert(tb[j - 1].word@ == w);
                assert(has_word(tb, w));
            }
            if has_word(tb, w) {
                let k = choose|k: int| 0 <= k < tb.len() && (#[trigger] tb[k].word@) == w;
                assert(b[k + 1].word@ == w);
                assert(w != w2);
                assert(has_word(b, w)) by {
                    assert(b[k + 1].word@ == w);
                }
                assert(has_word(a, w));
                let j = choose|j: int| 0 <= j < a.len() && (#[trigger] a[j].word@) == w;
                assert(j > 0);
                assert(ta[j - 1].word@ == w);
                assert(has_word(ta, w));
            }
        }
        assert forall|j1: int, j2: int|
            0 <= j1 < ta.len() && 0 <= j2 < tb.len() && (#[trigger] ta[j1].word@) == (
        #[trigger] tb[j2].word@) implies ta[j1].offsets@ == tb[j2].offsets@ by {
            assert(a[j1 + 1].word@ == b[j2 + 1].word@);
        }
        lemma_sorted_word_offsets_unique(ta, tb);
        assert forall|k: int|
            0 <= k < a.len() implies (#[trigger] a[k]).word@ == b[k].word@ && a[k].offsets@
            == b[k].offsets@ by {
            if k >= 1 {
                assert(ta[k - 1].word@ == tb[k - 1].word@);
                assert(ta[k - 1].offsets@ == tb[k - 1].offsets@);
            }
        }
    }
}

/// The representation is canonical: two well-formed per-file indexes that
/// hold the same map agree entry by entry in everything their views show.
pub proof fn lemma_file_index_canonical(a: FileIndex, b: FileIndex)
    requires
        a.wf(),
        b.wf(),
        a@ == b@,
    ensures
        word_entries_equiv(a.entries@, b.entries@),
{
    let ea = a.entries@;
    let eb = b.entries@;
    lemma_words_sorted_distinct(ea);
    lemma_words_sorted_distinct(eb);
    lemma_offsets_map_characterize(ea);
    lemma_offsets_map_characterize(eb);
    assert forall|w: Seq<u8>| #[trigger] has_word(ea, w) <==> #[trigger] has_word(eb, w) by {
        if has_word(ea, w) {
            let k = choose|k: int| 0 <= k < ea.len() && (#[trigger] ea[k].word@) == w;
            assert(a@.contains_key(w));
            assert(b@.contains_key(w));
            let j = choose|j: int| 0 <= j < eb.len() && (#[trigger] eb[j].word@) == w;
            assert(has_word(eb, w));
        }
        if has_word(eb, w) {
            let k = choose|k: int| 0 <= k < eb.len() && (#[trigger] eb[k].word@) == w;
            assert(b@.contains_key(w));
            assert(a@.contains_key(w));
            let j = choose|j: int| 0 <= j < ea.len() && (#[trigger] ea[j].word@) == w;
            assert(has_word(ea, w));
        }
    }
    assert forall|k1: int, k2: int|
        0 <= k1 < ea.len() && 0 <= k2 < eb.len() && (#[trigger] ea[k1].word@) == (
    #[trigger] eb[k2].word@) implies ea[k1].offsets@ == eb[k2].offsets@ by {
        let w = ea[k1].word@;
        assert(a@.contains_key(w)) by {
            assert(ea[k1].word@ == w);
        }
        assert(offsets_map(ea)[w] == ea[k1].offsets@);
        assert(offsets_map(eb)[w] == eb[k2].offsets@);
    }
    lemma_sorted_word_offsets_unique(ea, eb);
}

/// Indexing is deterministic: any two well-formed indexes of the same buffer
/// are the same map, so indexing a file twice in isolation yields identical
/// content.
pub proof fn lemma_index_deterministic(s: Seq<u8>, a: FileIndex, b: FileIndex)
    requires
        a.wf(),
        b.wf(),
        file_index_matches(s, a@),
        file_index_matches(s, b@),
    ensures
        a@ == b@,
{
    lemma_words_sorted_distinct(a.entries@);
    lemma_offsets_map_characterize(a.entries@);
    lemma_words_sorted_distinct(b.entries@);
    lemma_offsets_map_characterize(b.entries@);
    assert forall|w: Seq<u8>| #[trigger] a@.contains_key(w) implies b@.contains_key(w) by {
        assert(a@[w].len() > 0);
        assert(a@[w].contains(a@[w][0]));
        assert(token_at(s, a@[w][0] as int, w));
    }
    assert forall|w: Seq<u8>| #[trigger] b@.contains_key(w) implies a@.contains_key(w) by {
        assert(b@[w].len() > 0);
        assert(b@[w].contains(b@[w][0]));
        assert(token_at(s, b@[w][0] as int, w));
    }
    assert forall|w: Seq<u8>| #[trigger] a@.contains_key(w) implies a@[w] == b@[w] by {
        let ka = choose|k: int| 0 <= k < a.entries@.len() && (#[trigger] a.entries@[k].word@) == w;
        let kb = choose|k: int| 0 <= k < b.entries@.len() && (#[trigger] b.entries@[k].word@) == w;
        assert(a@[w] == a.entries@[ka].offsets@);
        assert(b@[w] == b.entries@[kb].offsets@);
        assert forall|x: usize| a@[w].contains(x) <==> b@[w].contains(x) by {
            if a@[w].contains(x) {
                assert(token_at(s, x as int, w));
            }
            if b@[w].contains(x) {
                assert(token_at(s, x as int, w));
            }
        }
        lemma_strictly_increasing_unique(a@[w], b@[w]);
    }
    assert(a@ =~= b@);
}

} // verus!
