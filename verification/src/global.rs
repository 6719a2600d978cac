//! The global index: word -> file path -> ordered offsets, aggregated over
//! an entire indexing run.
//!
//! Per-file indexes arrive in whatever order the workers finish; the merge
//! folds each one into the global index. Words and, under each word, file
//! paths are kept strictly sorted by byte value, so the aggregate is
//! canonical whatever the arrival order. Offset lists are appended, never
//! overwritten: should the same (word, path) pair ever arrive twice, no
//! occurrence is lost.

use vstd::prelude::*;

use crate::lex::lemma_lex_lt_irrefl;
use crate::lex::lemma_lex_lt_trans;
use crate::lex::lemma_lex_lt_trichotomy;
use crate::lex::lex_less;
use crate::lex::lex_lt;
use crate::lex::bytes_eq;
use crate::index::index_bytes;
use crate::index::lemma_offsets_map_characterize;
use crate::index::lemma_words_sorted_distinct;
use crate::index::strictly_increasing;
use crate::tokenizer::token_at;

verus! {

/// The occurrences of one word within one file.
pub struct FileOffsets {
    pub path: Vec<u8>,
    pub offsets: Vec<usize>,
}

/// One word of the global index with its per-file occurrence lists.
pub struct WordFiles {
    pub word: Vec<u8>,
    pub files: Vec<FileOffsets>,
}

/// The paths of the file list are strictly sorted, so each path occurs at
/// most once.
pub open spec fn paths_sorted(files: Seq<FileOffsets>) -> bool {
    forall|k1: int, k2: int|
        0 <= k1 < k2 < files.len() ==> lex_lt(
            #[trigger] files[k1].path@,
            #[trigger] files[k2].path@,
        )
}

/// Strictly sorted paths are pairwise distinct.
pub proof fn lemma_paths_sorted_distinct(files: Seq<FileOffsets>)
    requires
        paths_sorted(files),
    ensures
        forall|k1: int, k2: int|
            0 <= k1 < k2 < files.len() ==> (#[trigger] files[k1].path@) != (
            #[trigger] files[k2].path@),
{
    assert forall|k1: int, k2: int|
        0 <= k1 < k2 < files.len() implies (#[trigger] files[k1].path@) != (
    #[trigger] files[k2].path@) by {
        if files[k1].path@ == files[k2].path@ {
            lemma_lex_lt_irrefl(files[k1].path@);
        }
    }
}

/// The finite map held by a file list: each path maps to its offsets.
pub open spec fn files_map(files: Seq<FileOffsets>) -> Map<Seq<u8>, Seq<usize>>
    decreases files.len(),
{
    if files.len() == 0 {
        Map::empty()
    } else {
        files_map(files.drop_last()).insert(files.last().path@, files.last().offsets@)
    }
}

/// With distinct paths, the map of a file list is exactly the association
/// list read entry by entry.
pub proof fn lemma_files_map_characterize(files: Seq<FileOffsets>)
    requires
        forall|k1: int, k2: int|
            0 <= k1 < k2 < files.len() ==> (#[trigger] files[k1].path@) != (
            #[trigger] files[k2].path@),
    ensures
        forall|p: Seq<u8>|
            #[trigger] files_map(files).contains_key(p) <==> exists|k: int|
                0 <= k < files.len() && (#[trigger] files[k].path@) == p,
        forall|k: int|
            0 <= k < files.len() ==> files_map(files)[(#[trigger] files[k].path@)]
                == files[k].offsets@,
    decreases files.len(),
{
    if files.len() > 0 {
        let pre = files.drop_last();
        let last = files.last();
        assert(forall|k: int| 0 <= k < pre.len() ==> pre[k] == #[trigger] files[k]);
        lemma_files_map_characterize(pre);
        assert forall|p: Seq<u8>|
            #[trigger] files_map(files).contains_key(p) implies exists|k: int|
            0 <= k < files.len() && (#[trigger] files[k].path@) == p by {
            if p == last.path@ {
                assert(files[files.len() - 1].path@ == p);
            } else {
                assert(files_map(pre).contains_key(p));
                let k = choose|k: int| 0 <= k < pre.len() && (#[trigger] pre[k].path@) == p;
                assert(files[k].path@ == p);
            }
        }
        assert forall|k: int|
            0 <= k < files.len() implies files_map(files)[(#[trigger] files[k].path@)]
            == files[k].offsets@ by {
            if k < files.len() - 1 {
                assert(files[k].path@ != last.path@);
                assert(pre[k].path@ == files[k].path@);
            }
        }
    }
}

/// The words of the entry list are strictly sorted, so each word occurs at
/// most once.
pub open spec fn entry_words_sorted(entries: Seq<WordFiles>) -> bool {
    forall|k1: int, k2: int|
        0 <= k1 < k2 < entries.len() ==> lex_lt(
            #[trigger] entries[k1].word@,
            #[trigger] entries[k2].word@,
        )
}

/// Strictly sorted words are pairwise distinct.
pub proof fn lemma_entry_words_distinct(entries: Seq<WordFiles>)
    requires
        entry_words_sorted(entries),
    ensures
        forall|k1: int, k2: int|
            0 <= k1 < k2 < entries.len() ==> (#[trigger] entries[k1].word@) != (
            #[trigger] entries[k2].word@),
{
    assert forall|k1: int, k2: int|
        0 <= k1 < k2 < entries.len() implies (#[trigger] entries[k1].word@) != (
    #[trigger] entries[k2].word@) by {
        if entries[k1].word@ == entries[k2].word@ {
            lemma_lex_lt_irrefl(entries[k1].word@);
        }
    }
}

/// The nested finite map held by an entry list: each word maps to its
/// per-file map.
pub open spec fn word_files_map(entries: Seq<WordFiles>) -> Map<Seq<u8>, Map<Seq<u8>, Seq<usize>>>
    decreases entries.len(),
{
    if entries.len() == 0 {
        Map::empty()
    } else {
        word_files_map(entries.drop_last()).insert(
            entries.last().word@,
            files_map(entries.last().files@),
        )
    }
}

/// With distinct words, the nested map of an entry list is exactly the
/// association list read entry by entry.
pub proof fn lemma_word_files_map_characterize(entries: Seq<WordFiles>)
    requires
        forall|k1: int, k2: int|
            0 <= k1 < k2 < entries.len() ==> (#[trigger] entries[k1].word@) != (
            #[trigger] entries[k2].word@),
    ensures
        forall|w: Seq<u8>|
            #[trigger] word_files_map(entries).contains_key(w) <==> exists|k: int|
                0 <= k < entries.len() && (#[trigger] entries[k].word@) == w,
        forall|k: int|
            0 <= k < entries.len() ==> word_files_map(entries)[(#[trigger] entries[k].word@)]
                == files_map(entries[k].files@),
    decreases entries.len(),
{
    if entries.len() > 0 {
        let pre = entries.drop_last();
        let last = entries.last();
        assert(forall|k: int| 0 <= k < pre.len() ==> pre[k] == #[trigger] entries[k]);
        lemma_word_files_map_characterize(pre);
        assert forall|w: Seq<u8>|
            #[trigger] word_files_map(entries).contains_key(w) implies exists|k: int|
            0 <= k < entries.len() && (#[trigger] entries[k].word@) == w by {
            if w == last.word@ {
                assert(entries[entries.len() - 1].word@ == w);
            } else {
                assert(word_files_map(pre).contains_key(w));
                let k = choose|k: int| 0 <= k < pre.len() && (#[trigger] pre[k].word@) == w;
                assert(entries[k].word@ == w);
            }
        }
        assert forall|k: int|
            0 <= k < entries.len() implies word_files_map(entries)[(#[trigger] entries[k].word@)]
            == files_map(entries[k].files@) by {
            if k < entries.len() - 1 {
                assert(entries[k].word@ != last.word@);
                assert(pre[k].word@ == entries[k].word@);
            }
        }
    }
}

/// The global index. Owned by the coordinating side of a run; merging is the
/// only mutation.
pub struct GlobalIndex {
    pub entries: Vec<WordFiles>,
}

impl View for GlobalIndex {
    type V = Map<Seq<u8>, Map<Seq<u8>, Seq<usize>>>;

    open spec fn view(&self) -> Map<Seq<u8>, Map<Seq<u8>, Seq<usize>>> {
        word_files_map(self.entries@)
    }
}

/// Well-formedness of one word entry: at least one file, paths strictly
/// sorted, and no empty offset list.
pub open spec fn word_entry_wf(e: WordFiles) -> bool {
    &&& e.word@.len() > 0
    &&& e.files@.len() > 0
    &&& paths_sorted(e.files@)
    &&& forall|f: int| 0 <= f < e.files@.len() ==> (#[trigger] e.files@[f]).offsets@.len() > 0
}

impl GlobalIndex {
    /// Well-formedness: words strictly sorted, each with a well-formed file
    /// list.
    pub open spec fn wf(&self) -> bool {
        &&& entry_words_sorted(self.entries@)
        &&& forall|k: int| 0 <= k < self.entries@.len() ==> word_entry_wf(#[trigger] self.entries@[k])
    }

    /// An empty global index: the starting point of every indexing run, and
    /// its result when the root path yields no files.
    pub fn new() -> (g: GlobalIndex)
        ensures
            g.wf(),
            g@ == Map::<Seq<u8>, Map<Seq<u8>, Seq<usize>>>::empty(),
            g.entries@.len() == 0,
    {
        GlobalIndex { entries: Vec::new() }
    }

    /// The number of distinct words in the index.
    pub fn word_count(&self) -> (n: usize)
        ensures
            n == self.entries@.len(),
    {
        self.entries.len()
    }

    /// The per-file occurrence lists recorded for `word`, or `None` when
    /// `word` is not in the index.
    pub fn files_for(&self, word: &[u8]) -> (r: Option<&Vec<FileOffsets>>)
        requires
            self.wf(),
        ensures
            match r {
                Some(v) => self@.contains_key(word@) && files_map(v@) == self@[word@]
                    && paths_sorted(v@),
                None => !self@.contains_key(word@),
            },
    {
        proof {
            lemma_entry_words_distinct(self.entries@);
            lemma_word_files_map_characterize(self.entries@);
        }
        let n = self.entries.len();
        let mut k: usize = 0;
        while k < n
            invariant
                self.wf(),
                n == self.entries@.len(),
                0 <= k <= n,
                forall|t: int| 0 <= t < k ==> (#[trigger] self.entries@[t].word@) != word@,
            decreases n - k,
        {
            if bytes_eq(self.entries[k].word.as_slice(), word) {
                proof {
                    lemma_entry_words_distinct(self.entries@);
                    lemma_word_files_map_characterize(self.entries@);
                }
                return Some(&self.entries[k].files);
            }
            k = k + 1;
        }
        None
    }
}

/// The merge of two per-file maps of one word: paths from either side; where
/// a path stands on both sides, the right side's offsets are appended to the
/// left side's, so nothing is overwritten.
pub open spec fn merged_offsets(
    a: Map<Seq<u8>, Seq<usize>>,
    b: Map<Seq<u8>, Seq<usize>>,
) -> Map<Seq<u8>, Seq<usize>> {
    Map::new(
        |p: Seq<u8>| a.contains_key(p) || b.contains_key(p),
        |p: Seq<u8>|
            if a.contains_key(p) && b.contains_key(p) {
                a[p] + b[p]
            } else if a.contains_key(p) {
                a[p]
            } else {
                b[p]
            },
    )
}

/// The merge of two global maps: words from either side; where a word stands
/// on both sides, its per-file maps are merged.
pub open spec fn merged(
    a: Map<Seq<u8>, Map<Seq<u8>, Seq<usize>>>,
    b: Map<Seq<u8>, Map<Seq<u8>, Seq<usize>>>,
) -> Map<Seq<u8>, Map<Seq<u8>, Seq<usize>>> {
    Map::new(
        |w: Seq<u8>| a.contains_key(w) || b.contains_key(w),
        |w: Seq<u8>|
            if a.contains_key(w) && b.contains_key(w) {
                merged_offsets(a[w], b[w])
            } else if a.contains_key(w) {
                a[w]
            } else {
                b[w]
            },
    )
}

/// Merging an empty right side changes nothing.
pub proof fn lemma_merged_empty(a: Map<Seq<u8>, Map<Seq<u8>, Seq<usize>>>)
    ensures
        merged(a, Map::empty()) == a,
{
    assert(merged(a, Map::empty()) =~= a);
}

/// Folding one more path into a per-word merge: merging `fm` extended by a
/// fresh path equals merging `fm` and then folding that path in.
proof fn lemma_merged_offsets_step(
    m: Map<Seq<u8>, Seq<usize>>,
    fm: Map<Seq<u8>, Seq<usize>>,
    p: Seq<u8>,
    v: Seq<usize>,
)
    requires
        !fm.contains_key(p),
    ensures
        merged_offsets(m, fm.insert(p, v)) == merged_offsets(m, fm).insert(
            p,
            if m.contains_key(p) {
                m[p] + v
            } else {
                v
            },
        ),
{
    assert(merged_offsets(m, fm.insert(p, v)) =~= merged_offsets(m, fm).insert(
        p,
        if m.contains_key(p) {
            m[p] + v
        } else {
            v
        },
    ));
}

/// Folding one more word into a merge: merging `wm` extended by a fresh word
/// equals merging `wm` and then folding that word in.
proof fn lemma_merged_step(
    m: Map<Seq<u8>, Map<Seq<u8>, Seq<usize>>>,
    wm: Map<Seq<u8>, Map<Seq<u8>, Seq<usize>>>,
    w: Seq<u8>,
    v: Map<Seq<u8>, Seq<usize>>,
)
    requires
        !wm.contains_key(w),
    ensures
        merged(m, wm.insert(w, v)) == merged(m, wm).insert(
            w,
            if m.contains_key(w) {
                merged_offsets(m[w], v)
            } else {
                v
            },
        ),
{
    assert(merged(m, wm.insert(w, v)) =~= merged(m, wm).insert(
        w,
        if m.contains_key(w) {
            merged_offsets(m[w], v)
        } else {
            v
        },
    ));
}

/// Folds the occurrences of one word in one file into a per-word file list:
/// a fresh path is inserted in sorted position, a present one has the new
/// offsets appended to its list.
fn merge_file_entry(files: &mut Vec<FileOffsets>, path: Vec<u8>, offsets: Vec<usize>)
    requires
        paths_sorted(old(files)@),
        forall|f: int|
            0 <= f < old(files)@.len() ==> (#[trigger] old(files)@[f]).offsets@.len() > 0,
        offsets@.len() > 0,
    ensures
        paths_sorted(final(files)@),
        forall|f: int|
            0 <= f < final(files)@.len() ==> (#[trigger] final(files)@[f]).offsets@.len() > 0,
        final(files)@.len() >= old(files)@.len(),
        files_map(final(files)@) == files_map(old(files)@).insert(
            path@,
            if files_map(old(files)@).contains_key(path@) {
                files_map(old(files)@)[path@] + offsets@
            } else {
                offsets@
            },
        ),
{
    proof {
        lemma_paths_sorted_distinct(old(files)@);
        lemma_files_map_characterize(old(files)@);
    }
    let n = files.len();
    let mut pos: usize = 0;
    while pos < n && lex_less(files[pos].path.as_slice(), path.as_slice())
        invariant
            *files == *old(files),
            n == files@.len(),
            0 <= pos <= n,
            forall|t: int| 0 <= t < pos ==> lex_lt((#[trigger] files@[t].path@), path@),
        decreases n - pos,
    {
        pos = pos + 1;
    }
    let ghost old_files = files@;
    let ghost old_map = files_map(old_files);
    if pos < n && bytes_eq(files[pos].path.as_slice(), path.as_slice()) {
        let mut offs = offsets;
        let mut e = files.remove(pos);
        e.offsets.append(&mut offs);
        files.insert(pos, e);
        proof {
            assert(files@ =~= old_files.update(
                pos as int,
                FileOffsets {
                    path: files@[pos as int].path,
                    offsets: files@[pos as int].offsets,
                },
            ));
            let new_files = files@;
            assert(forall|k: int|
                0 <= k < new_files.len() && k != pos ==> new_files[k] == #[trigger] old_files[k]);
            assert(new_files[pos as int].path@ == path@);
            assert(new_files[pos as int].offsets@ == old_files[pos as int].offsets@ + offsets@);
            assert(paths_sorted(new_files));
            lemma_paths_sorted_distinct(new_files);
            lemma_files_map_characterize(new_files);
            assert(old_map.contains_key(path@)) by {
                assert(old_files[pos as int].path@ == path@);
            }
            assert(old_map[path@] == old_files[pos as int].offsets@);
            let target = old_map.insert(path@, old_map[path@] + offsets@);
            assert forall|p: Seq<u8>|
                #[trigger] files_map(new_files).contains_key(p) == target.contains_key(p) by {
                if files_map(new_files).contains_key(p) {
                    let k = choose|k: int|
                        0 <= k < new_files.len() && (#[trigger] new_files[k].path@) == p;
                    if k != pos {
                        assert(old_files[k].path@ == p);
                        assert(old_map.contains_key(p));
                    }
                }
                if target.contains_key(p) && p != path@ {
                    assert(old_map.contains_key(p));
                    let k = choose|k: int|
                        0 <= k < old_files.len() && (#[trigger] old_files[k].path@) == p;
                    assert(k != pos);
                    assert(new_files[k].path@ == p);
                }
            }
            assert forall|p: Seq<u8>| files_map(new_files).contains_key(p) implies files_map(
                new_files,
            )[p] == target[p] by {
                let k = choose|k: int|
                    0 <= k < new_files.len() && (#[trigger] new_files[k].path@) == p;
                if k == pos {
                    assert(p == path@);
                    assert(files_map(new_files)[p] == new_files[pos as int].offsets@);
                } else {
                    assert(old_files[k].path@ == p);
                    assert(p != path@);
                    assert(files_map(new_files)[p] == new_files[k].offsets@);
                    assert(old_map[p] == old_files[k].offsets@);
                }
            }
            assert(files_map(new_files) =~= target);
        }
    } else {
        proof {
            if pos < n {
                lemma_lex_lt_trichotomy(files@[pos as int].path@, path@);
            }
            assert forall|t: int| pos <= t < n implies lex_lt(
                path@,
                (#[trigger] files@[t].path@),
            ) by {
                if t > pos {
                    lemma_lex_lt_trans(path@, files@[pos as int].path@, files@[t].path@);
                }
            }
            assert(!old_map.contains_key(path@)) by {
                if old_map.contains_key(path@) {
                    let k = choose|k: int|
                        0 <= k < old_files.len() && (#[trigger] old_files[k].path@) == path@;
                    lemma_lex_lt_irrefl(path@);
                }
            }
        }
        files.insert(pos, FileOffsets { path, offsets });
        proof {
            let new_files = files@;
            assert(new_files == old_files.insert(pos as int, new_files[pos as int]));
            assert(new_files[pos as int].path@ == path@);
            assert(new_files[pos as int].offsets@ == offsets@);
            assert(forall|k: int| 0 <= k < pos ==> new_files[k] == #[trigger] old_files[k]);
            assert(forall|k: int|
                pos < k < new_files.len() ==> (#[trigger] new_files[k]) == old_files[k - 1]);
            assert forall|k1: int, k2: int| 0 <= k1 < k2 < new_files.len() implies lex_lt(
                (#[trigger] new_files[k1].path@),
                (#[trigger] new_files[k2].path@),
            ) by {
                if k1 == pos {
                    assert(lex_lt(path@, old_files[k2 - 1].path@));
                } else if k2 == pos {
                    assert(lex_lt(old_files[k1].path@, path@));
                } else if k1 < pos && k2 > pos {
                    lemma_lex_lt_trans(old_files[k1].path@, path@, old_files[k2 - 1].path@);
                }
            }
            lemma_paths_sorted_distinct(new_files);
            lemma_files_map_characterize(new_files);
            let target = old_map.insert(path@, offsets@);
            assert forall|p: Seq<u8>|
                #[trigger] files_map(new_files).contains_key(p) == target.contains_key(p) by {
                if files_map(new_files).contains_key(p) {
                    let k = choose|k: int|
                        0 <= k < new_files.len() && (#[trigger] new_files[k].path@) == p;
                    if k != pos {
                        let ko: int = if k < pos {
                            k
                        } else {
                            k - 1
                        };
                        assert(old_files[ko].path@ == p);
                        assert(old_map.contains_key(p));
                    }
                }
                if target.contains_key(p) && p != path@ {
                    assert(old_map.contains_key(p));
                    let k = choose|k: int|
                        0 <= k < old_files.len() && (#[trigger] old_files[k].path@) == p;
                    let kn: int = if k < pos {
                        k
                    } else {
                        k + 1
                    };
                    assert(new_files[kn].path@ == p);
                }
            }
            assert forall|p: Seq<u8>| files_map(new_files).contains_key(p) implies files_map(
                new_files,
            )[p] == target[p] by {
                let k = choose|k: int|
                    0 <= k < new_files.len() && (#[trigger] new_files[k].path@) == p;
                if k == pos {
                    assert(p == path@);
                    assert(files_map(new_files)[p] == new_files[pos as int].offsets@);
                } else {
                    let ko: int = if k < pos {
                        k
                    } else {
                        k - 1
                    };
                    assert(old_files[ko].path@ == p);
                    assert(p != path@);
                    assert(files_map(new_files)[p] == new_files[k].offsets@);
                    assert(old_map[p] == old_files[ko].offsets@);
                }
            }
            assert(files_map(new_files) =~= target);
        }
    }
}

/// Folds one whole per-file index (all occurrences of all words of one file)
/// into the file list of the matching words.
fn merge_files(dst: &mut Vec<FileOffsets>, src: Vec<FileOffsets>)
    requires
        paths_sorted(old(dst)@),
        forall|f: int| 0 <= f < old(dst)@.len() ==> (#[trigger] old(dst)@[f]).offsets@.len() > 0,
        paths_sorted(src@),
        forall|f: int| 0 <= f < src@.len() ==> (#[trigger] src@[f]).offsets@.len() > 0,
    ensures
        paths_sorted(final(dst)@),
        forall|f: int|
            0 <= f < final(dst)@.len() ==> (#[trigger] final(dst)@[f]).offsets@.len() > 0,
        final(dst)@.len() >= old(dst)@.len(),
        files_map(final(dst)@) == merged_offsets(files_map(old(dst)@), files_map(src@)),
{
    let ghost dorig = old(dst)@;
    let ghost sorig = src@;
    proof {
        lemma_paths_sorted_distinct(sorig);
        assert(sorig.take(0) =~= Seq::<FileOffsets>::empty());
        assert(merged_offsets(files_map(dorig), Map::empty()) =~= files_map(dorig));
    }
    let mut rest = src;
    let ghost t: int = 0;
    while rest.len() > 0
        invariant
            0 <= t <= sorig.len(),
            rest@ == sorig.skip(t),
            paths_sorted(dst@),
            forall|f: int| 0 <= f < dst@.len() ==> (#[trigger] dst@[f]).offsets@.len() > 0,
            dst@.len() >= dorig.len(),
            forall|k1: int, k2: int|
                0 <= k1 < k2 < sorig.len() ==> (#[trigger] sorig[k1].path@) != (
                #[trigger] sorig[k2].path@),
            forall|f: int| 0 <= f < sorig.len() ==> (#[trigger] sorig[f]).offsets@.len() > 0,
            files_map(dst@) == merged_offsets(files_map(dorig), files_map(sorig.take(t))),
        decreases rest@.len(),
    {
        let e = rest.remove(0);
        proof {
            assert(sorig.skip(t)[0] == sorig[t]);
            assert(rest@ =~= sorig.skip(t + 1));
        }
        let ghost fmt = files_map(sorig.take(t));
        proof {
            assert(forall|k: int| 0 <= k < t ==> sorig.take(t)[k] == #[trigger] sorig[k]);
            lemma_files_map_characterize(sorig.take(t));
            assert(!fmt.contains_key(sorig[t].path@)) by {
                if fmt.contains_key(sorig[t].path@) {
                    let k = choose|k: int|
                        0 <= k < t && (#[trigger] sorig.take(t)[k].path@) == sorig[t].path@;
                    assert(sorig[k].path@ == sorig[t].path@);
                }
            }
        }
        let ghost dcur = files_map(dst@);
        merge_file_entry(dst, e.path, e.offsets);
        proof {
            let p = sorig[t].path@;
            let v = sorig[t].offsets@;
            let m = files_map(dorig);
            lemma_merged_offsets_step(m, fmt, p, v);
            assert(dcur.contains_key(p) == m.contains_key(p));
            if m.contains_key(p) {
                assert(dcur[p] == m[p]);
            }
            assert(sorig.take(t + 1).drop_last() =~= sorig.take(t));
            assert(sorig.take(t + 1).last() == sorig[t]);
            assert(files_map(sorig.take(t + 1)) == fmt.insert(p, v));
            t = t + 1;
        }
    }
    proof {
        assert(t == sorig.len());
        assert(sorig.take(t) =~= sorig);
    }
}

/// Folds all occurrences of one word (its whole per-file map, coming from
/// one per-file index) into the global index.
fn merge_word(g: &mut GlobalIndex, word: Vec<u8>, files: Vec<FileOffsets>)
    requires
        old(g).wf(),
        word@.len() > 0,
        files@.len() > 0,
        paths_sorted(files@),
        forall|f: int| 0 <= f < files@.len() ==> (#[trigger] files@[f]).offsets@.len() > 0,
    ensures
        final(g).wf(),
        final(g)@ == old(g)@.insert(
            word@,
            if old(g)@.contains_key(word@) {
                merged_offsets(old(g)@[word@], files_map(files@))
            } else {
                files_map(files@)
            },
        ),
{
    proof {
        lemma_entry_words_distinct(old(g).entries@);
        lemma_word_files_map_characterize(old(g).entries@);
    }
    let n = g.entries.len();
    let mut pos: usize = 0;
    while pos < n && lex_less(g.entries[pos].word.as_slice(), word.as_slice())
        invariant
            *g == *old(g),
            n == g.entries@.len(),
            0 <= pos <= n,
            forall|t: int| 0 <= t < pos ==> lex_lt((#[trigger] g.entries@[t].word@), word@),
        decreases n - pos,
    {
        pos = pos + 1;
    }
    let ghost old_entries = g.entries@;
    let ghost old_map = word_files_map(old_entries);
    if pos < n && bytes_eq(g.entries[pos].word.as_slice(), word.as_slice()) {
        let mut e = g.entries.remove(pos);
        merge_files(&mut e.files, files);
        g.entries.insert(pos, e);
        proof {
            assert(g.entries@ =~= old_entries.update(
                pos as int,
                WordFiles {
                    word: g.entries@[pos as int].word,
                    files: g.entries@[pos as int].files,
                },
            ));
            let new_entries = g.entries@;
            assert(forall|k: int|
                0 <= k < new_entries.len() && k != pos ==> new_entries[k] == #[trigger] old_entries[k]);
            assert(new_entries[pos as int].word@ == word@);
            assert(files_map(new_entries[pos as int].files@) == merged_offsets(
                files_map(old_entries[pos as int].files@),
                files_map(files@),
            ));
            assert(entry_words_sorted(new_entries));
            assert(word_entry_wf(new_entries[pos as int]));
            assert(g.wf());
            lemma_entry_words_distinct(new_entries);
            lemma_word_files_map_characterize(new_entries);
            assert(old_map.contains_key(word@)) by {
                assert(old_entries[pos as int].word@ == word@);
            }
            assert(old_map[word@] == files_map(old_entries[pos as int].files@));
            let target = old_map.insert(
                word@,
                merged_offsets(old_map[word@], files_map(files@)),
            );
            assert forall|w: Seq<u8>|
                #[trigger] word_files_map(new_entries).contains_key(w) == target.contains_key(
                w,
            ) by {
                if word_files_map(new_entries).contains_key(w) {
                    let k = choose|k: int|
                        0 <= k < new_entries.len() && (#[trigger] new_entries[k].word@) == w;
                    if k != pos {
                        assert(old_entries[k].word@ == w);
                        assert(old_map.contains_key(w));
                    }
                }
                if target.contains_key(w) && w != word@ {
                    assert(old_map.contains_key(w));
                    let k = choose|k: int|
                        0 <= k < old_entries.len() && (#[trigger] old_entries[k].word@) == w;
                    assert(k != pos);
                    assert(new_entries[k].word@ == w);
                }
            }
            assert forall|w: Seq<u8>| word_files_map(new_entries).contains_key(w) implies
                word_files_map(new_entries)[w] == target[w] by {
                let k = choose|k: int|
                    0 <= k < new_entries.len() && (#[trigger] new_entries[k].word@) == w;
                if k == pos {
                    assert(w == word@);
                    assert(word_files_map(new_entries)[w] == files_map(
                        new_entries[pos as int].files@,
                    ));
                } else {
                    assert(old_entries[k].word@ == w);
                    assert(w != word@);
                    assert(word_files_map(new_entries)[w] == files_map(new_entries[k].files@));
                    assert(old_map[w] == files_map(old_entries[k].files@));
                }
            }
            assert(word_files_map(new_entries) =~= target);
        }
    } else {
        proof {
            if pos < n {
                lemma_lex_lt_trichotomy(g.entries@[pos as int].word@, word@);
            }
            assert forall|t: int| pos <= t < n implies lex_lt(
                word@,
                (#[trigger] g.entries@[t].word@),
            ) by {
                if t > pos {
                    lemma_lex_lt_trans(word@, g.entries@[pos as int].word@, g.entries@[t].word@);
                }
            }
            assert(!old_map.contains_key(word@)) by {
                if old_map.contains_key(word@) {
                    let k = choose|k: int|
                        0 <= k < old_entries.len() && (#[trigger] old_entries[k].word@) == word@;
                    lemma_lex_lt_irrefl(word@);
                }
            }
        }
        g.entries.insert(pos, WordFiles { word, files });
        proof {
            let new_entries = g.entries@;
            assert(new_entries == old_entries.insert(pos as int, new_entries[pos as int]));
            assert(new_entries[pos as int].word@ == word@);
            assert(new_entries[pos as int].files@ == files@);
            assert(forall|k: int| 0 <= k < pos ==> new_entries[k] == #[trigger] old_entries[k]);
            assert(forall|k: int|
                pos < k < new_entries.len() ==> (#[trigger] new_entries[k]) == old_entries[k - 1]);
            assert forall|k1: int, k2: int| 0 <= k1 < k2 < new_entries.len() implies lex_lt(
                (#[trigger] new_entries[k1].word@),
                (#[trigger] new_entries[k2].word@),
            ) by {
                if k1 == pos {
                    assert(lex_lt(word@, old_entries[k2 - 1].word@));
                } else if k2 == pos {
                    assert(lex_lt(old_entries[k1].word@, word@));
                } else if k1 < pos && k2 > pos {
                    lemma_lex_lt_trans(old_entries[k1].word@, word@, old_entries[k2 - 1].word@);
                }
            }
            assert(g.wf());
            lemma_entry_words_distinct(new_entries);
            lemma_word_files_map_characterize(new_entries);
            let target = old_map.insert(word@, files_map(files@));
            assert forall|w: Seq<u8>|
                #[trigger] word_files_map(new_entries).contains_key(w) == target.contains_key(
                w,
            ) by {
                if word_files_map(new_entries).contains_key(w) {
                    let k = choose|k: int|
                        0 <= k < new_entries.len() && (#[trigger] new_entries[k].word@) == w;
                    if k != pos {
                        let ko: int = if k < pos {
                            k
                        } else {
                            k - 1
                        };
                        assert(old_entries[ko].word@ == w);
                        assert(old_map.contains_key(w));
                    }
                }
                if target.contains_key(w) && w != word@ {
                    assert(old_map.contains_key(w));
                    let k = choose|k: int|
                        0 <= k < old_entries.len() && (#[trigger] old_entries[k].word@) == w;
                    let kn: int = if k < pos {
                        k
                    } else {
                        k + 1
                    };
                    assert(new_entries[kn].word@ == w);
                }
            }
            assert forall|w: Seq<u8>| word_files_map(new_entries).contains_key(w) implies
                word_files_map(new_entries)[w] == target[w] by {
                let k = choose|k: int|
                    0 <= k < new_entries.len() && (#[trigger] new_entries[k].word@) == w;
                if k == pos {
                    assert(w == word@);
                    assert(word_files_map(new_entries)[w] == files_map(
                        new_entries[pos as int].files@,
                    ));
                } else {
                    let ko: int = if k < pos {
                        k
                    } else {
                        k - 1
                    };
                    assert(old_entries[ko].word@ == w);
                    assert(w != word@);
                    assert(word_files_map(new_entries)[w] == files_map(new_entries[k].files@));
                    assert(old_map[w] == files_map(old_entries[ko].files@));
                }
            }
            assert(word_files_map(new_entries) =~= target);
        }
    }
}

/// Folds one per-file index into the global index: new words are inserted,
/// new files are inserted under their word, and offsets of a (word, file)
/// pair already present are appended, never overwritten.
pub fn merge_maps(bigmap: &mut GlobalIndex, fmap: GlobalIndex)
    requires
        old(bigmap).wf(),
        fmap.wf(),
    ensures
        final(bigmap).wf(),
        final(bigmap)@ == merged(old(bigmap)@, fmap@),
{
    let ghost gorig = old(bigmap)@;
    let ghost forig = fmap.entries@;
    proof {
        lemma_entry_words_distinct(forig);
        assert(forig.take(0) =~= Seq::<WordFiles>::empty());
        lemma_merged_empty(gorig);
    }
    let mut rest = fmap.entries;
    let ghost t: int = 0;
    while rest.len() > 0
        invariant
            bigmap.wf(),
            0 <= t <= forig.len(),
            rest@ == forig.skip(t),
            forall|k1: int, k2: int|
                0 <= k1 < k2 < forig.len() ==> (#[trigger] forig[k1].word@) != (
                #[trigger] forig[k2].word@),
            forall|k: int| 0 <= k < forig.len() ==> word_entry_wf(#[trigger] forig[k]),
            bigmap@ == merged(gorig, word_files_map(forig.take(t))),
        decreases rest@.len(),
    {
        let e = rest.remove(0);
        proof {
            assert(forig.skip(t)[0] == forig[t]);
            assert(rest@ =~= forig.skip(t + 1));
            assert(word_entry_wf(forig[t]));
        }
        let ghost wmt = word_files_map(forig.take(t));
        proof {
            assert(forall|k: int| 0 <= k < t ==> forig.take(t)[k] == #[trigger] forig[k]);
            lemma_word_files_map_characterize(forig.take(t));
            assert(!wmt.contains_key(forig[t].word@)) by {
                if wmt.contains_key(forig[t].word@) {
                    let k = choose|k: int|
                        0 <= k < t && (#[trigger] forig.take(t)[k].word@) == forig[t].word@;
                    assert(forig[k].word@ == forig[t].word@);
                }
            }
        }
        let ghost gcur = bigmap@;
        merge_word(bigmap, e.word, e.files);
        proof {
            let w = forig[t].word@;
            let v = files_map(forig[t].files@);
            lemma_merged_step(gorig, wmt, w, v);
            assert(gcur.contains_key(w) == gorig.contains_key(w));
            if gorig.contains_key(w) {
                assert(gcur[w] == gorig[w]);
            }
            assert(forig.take(t + 1).drop_last() =~= forig.take(t));
            assert(forig.take(t + 1).last() == forig[t]);
            assert(word_files_map(forig.take(t + 1)) == wmt.insert(w, v));
            t = t + 1;
        }
    }
    proof {
        assert(t == forig.len());
        assert(forig.take(t) =~= forig);
    }
}

/// `g` is the single-file global index of one buffer: its words are the
/// words of `s`, each recorded under file `p` alone, with exactly the
/// offsets of its occurrences in increasing order.
pub open spec fn content_index_matches(
    p: Seq<u8>,
    s: Seq<u8>,
    g: Map<Seq<u8>, Map<Seq<u8>, Seq<usize>>>,
) -> bool {
    &&& forall|w: Seq<u8>| #[trigger] g.contains_key(w) ==> g[w].dom() == Set::empty().insert(p)
    &&& forall|w: Seq<u8>, off: int|
        #[trigger] token_at(s, off, w) ==> g.contains_key(w) && g[w][p].contains(off as usize)
    &&& forall|w: Seq<u8>, off: usize|
        g.contains_key(w) && (#[trigger] g[w][p].contains(off)) ==> token_at(s, off as int, w)
    &&& forall|w: Seq<u8>|
        #[trigger] g.contains_key(w) ==> g[w][p].len() > 0 && strictly_increasing(g[w][p])
}

/// Indexes the content of one file: tokenizes the buffer and records every
/// occurrence under the given file path. A file that could not be read is
/// indexed as the empty buffer, yielding an empty index.
pub fn index_content(path: &[u8], content: &[u8]) -> (g: GlobalIndex)
    ensures
        g.wf(),
        content_index_matches(path@, content@, g@),
{
    let fi = index_bytes(content);
    let ghost fentries = fi.entries@;
    let ghost fi_map = fi@;
    proof {
        lemma_words_sorted_distinct(fentries);
        lemma_offsets_map_characterize(fentries);
    }
    let mut entries: Vec<WordFiles> = Vec::new();
    let mut rest = fi.entries;
    let ghost t: int = 0;
    while rest.len() > 0
        invariant
            0 <= t <= fentries.len(),
            rest@ == fentries.skip(t),
            entries@.len() == t,
            forall|k: int| 0 <= k < t ==> (#[trigger] entries@[k]).word@ == fentries[k].word@,
            forall|k: int| 0 <= k < t ==> (#[trigger] entries@[k]).files@.len() == 1,
            forall|k: int| 0 <= k < t ==> (#[trigger] entries@[k]).files@[0].path@ == path@,
            forall|k: int|
                0 <= k < t ==> (#[trigger] entries@[k]).files@[0].offsets@ == fentries[k].offsets@,
        decreases rest@.len(),
    {
        let e = rest.remove(0);
        proof {
            assert(fentries.skip(t)[0] == fentries[t]);
            assert(rest@ =~= fentries.skip(t + 1));
        }
        let p = vstd::slice::slice_to_vec(path);
        let mut files: Vec<FileOffsets> = Vec::new();
        files.push(FileOffsets { path: p, offsets: e.offsets });
        entries.push(WordFiles { word: e.word, files });
        proof {
            t = t + 1;
        }
    }
    let g = GlobalIndex { entries };
    proof {
        let ge = g.entries@;
        assert(t == fentries.len());
        assert(ge.len() == fentries.len());
        assert forall|k1: int, k2: int| 0 <= k1 < k2 < ge.len() implies lex_lt(
            (#[trigger] ge[k1].word@),
            (#[trigger] ge[k2].word@),
        ) by {
            assert(lex_lt(fentries[k1].word@, fentries[k2].word@));
        }
        assert forall|k: int| 0 <= k < ge.len() implies word_entry_wf(#[trigger] ge[k]) by {
            assert(fentries[k].word@.len() > 0);
            assert(fentries[k].offsets@.len() > 0);
        }
        assert(g.wf());
        lemma_entry_words_distinct(ge);
        lemma_word_files_map_characterize(ge);
        assert(files_map(Seq::<FileOffsets>::empty()) == Map::<Seq<u8>, Seq<usize>>::empty());
        assert forall|k: int| 0 <= k < ge.len() implies files_map(#[trigger] ge[k].files@)
            == Map::<Seq<u8>, Seq<usize>>::empty().insert(path@, fentries[k].offsets@) by {
            assert(ge[k].files@.len() == 1);
            assert(ge[k].files@.drop_last() =~= Seq::<FileOffsets>::empty());
            assert(files_map(ge[k].files@.drop_last()) == Map::<Seq<u8>, Seq<usize>>::empty());
            assert(ge[k].files@.last() == ge[k].files@[0]);
            assert(files_map(ge[k].files@) == files_map(ge[k].files@.drop_last()).insert(
                ge[k].files@.last().path@,
                ge[k].files@.last().offsets@,
            ));
        }
        assert forall|w: Seq<u8>| #[trigger] g@.contains_key(w) == fi_map.contains_key(w) by {
            if g@.contains_key(w) {
                let k = choose|k: int| 0 <= k < ge.len() && (#[trigger] ge[k].word@) == w;
                assert(fentries[k].word@ == w);
            }
            if fi_map.contains_key(w) {
                let k = choose|k: int|
                    0 <= k < fentries.len() && (#[trigger] fentries[k].word@) == w;
                assert(ge[k].word@ == w);
            }
        }
        assert forall|w: Seq<u8>| #[trigger] g@.contains_key(w) implies g@[w]
            == Map::<Seq<u8>, Seq<usize>>::empty().insert(path@, fi_map[w]) by {
            let k = choose|k: int| 0 <= k < ge.len() && (#[trigger] ge[k].word@) == w;
            assert(g@[w] == files_map(ge[k].files@));
            assert(fentries[k].word@ == w);
            assert(fi_map[w] == fentries[k].offsets@);
        }
        assert forall|w: Seq<u8>| #[trigger] g@.contains_key(w) implies g@[w].dom()
            == Set::empty().insert(path@) by {
            assert(g@[w].dom() =~= Set::empty().insert(path@));
        }
        assert forall|w: Seq<u8>, off: int| #[trigger] token_at(content@, off, w) implies g@
            .contains_key(w) && g@[w][path@].contains(off as usize) by {
            assert(fi_map.contains_key(w) && fi_map[w].contains(off as usize));
            assert(g@.contains_key(w));
            assert(g@[w] == Map::<Seq<u8>, Seq<usize>>::empty().insert(path@, fi_map[w]));
            assert(g@[w][path@] == fi_map[w]);
        }
        assert forall|w: Seq<u8>, off: usize|
            g@.contains_key(w) && (#[trigger] g@[w][path@].contains(off)) implies token_at(
            content@,
            off as int,
            w,
        ) by {
            assert(g@[w] == Map::<Seq<u8>, Seq<usize>>::empty().insert(path@, fi_map[w]));
            assert(g@[w][path@] == fi_map[w]);
            assert(fi_map[w].contains(off));
        }
        assert forall|w: Seq<u8>| #[trigger] g@.contains_key(w) implies g@[w][path@].len() > 0
            && strictly_increasing(g@[w][path@]) by {
            let k = choose|k: int| 0 <= k < ge.len() && (#[trigger] ge[k].word@) == w;
            assert(g@[w] == Map::<Seq<u8>, Seq<usize>>::empty().insert(path@, fi_map[w]));
            assert(g@[w][path@] == fi_map[w]);
            assert(fentries[k].word@ == w);
            assert(fi_map[w] == fentries[k].offsets@);
        }
    }
    g
}

/// No (word, path) pair stands in both maps. Any two per-file indexes of
/// different files are disjoint in this sense, whatever words they share.
pub open spec fn pair_disjoint(
    f1: Map<Seq<u8>, Map<Seq<u8>, Seq<usize>>>,
    f2: Map<Seq<u8>, Map<Seq<u8>, Seq<usize>>>,
) -> bool {
    forall|w: Seq<u8>, p: Seq<u8>|
        !(f1.contains_key(w) && f2.contains_key(w) && (#[trigger] f1[w].contains_key(p)) && (
        #[trigger] f2[w].contains_key(p)))
}

/// Merging per-file indexes commutes: as long as no (word, path) pair stands
/// in two of them — and each file's index arrives exactly once, under its own
/// path — folding them into a global index in either order yields the same
/// index, so the arrival order of worker results is immaterial.
pub proof fn lemma_merge_commutes(
    g: Map<Seq<u8>, Map<Seq<u8>, Seq<usize>>>,
    f1: Map<Seq<u8>, Map<Seq<u8>, Seq<usize>>>,
    f2: Map<Seq<u8>, Map<Seq<u8>, Seq<usize>>>,
)
    requires
        pair_disjoint(f1, f2),
    ensures
        merged(merged(g, f1), f2) == merged(merged(g, f2), f1),
{
    let l = merged(merged(g, f1), f2);
    let r = merged(merged(g, f2), f1);
    assert forall|w: Seq<u8>| #[trigger] l.contains_key(w) implies l[w] == r[w] by {
        if f1.contains_key(w) && f2.contains_key(w) {
            assert forall|p: Seq<u8>| #[trigger] l[w].contains_key(p) implies l[w][p]
                == r[w][p] by {
                assert(!(f1[w].contains_key(p) && f2[w].contains_key(p)));
            }
            assert(l[w] =~= r[w]);
        } else {
            assert(l[w] =~= r[w]);
        }
    }
    assert(l =~= r);
}

/// Folds a sequence of per-file indexes into `acc`, in sequence order: the
/// arrival order of one indexing run.
pub open spec fn fold_merge(
    acc: Map<Seq<u8>, Map<Seq<u8>, Seq<usize>>>,
    fs: Seq<Map<Seq<u8>, Map<Seq<u8>, Seq<usize>>>>,
) -> Map<Seq<u8>, Map<Seq<u8>, Seq<usize>>>
    decreases fs.len(),
{
    if fs.len() == 0 {
        acc
    } else {
        fold_merge(merged(acc, fs[0]), fs.drop_first())
    }
}

/// Every two distinct members of the sequence are disjoint: the shape of a
/// run in which every file is indexed exactly once.
pub open spec fn all_pairs_disjoint(fs: Seq<Map<Seq<u8>, Map<Seq<u8>, Seq<usize>>>>) -> bool {
    forall|i: int, j: int|
        0 <= i < fs.len() && 0 <= j < fs.len() && i != j ==> pair_disjoint(
            #[trigger] fs[i],
            #[trigger] fs[j],
        )
}

/// Some member of the sequence holds word `w`.
pub open spec fn some_word(fs: Seq<Map<Seq<u8>, Map<Seq<u8>, Seq<usize>>>>, w: Seq<u8>) -> bool {
    exists|i: int| 0 <= i < fs.len() && (#[trigger] fs[i]).contains_key(w)
}

/// Some member of the sequence holds the pair (`w`, `p`).
pub open spec fn some_entry(
    fs: Seq<Map<Seq<u8>, Map<Seq<u8>, Seq<usize>>>>,
    w: Seq<u8>,
    p: Seq<u8>,
) -> bool {
    exists|i: int|
        0 <= i < fs.len() && (#[trigger] fs[i]).contains_key(w) && fs[i][w].contains_key(p)
}

/// The map holds the pair (`w`, `p`).
pub open spec fn has_entry(m: Map<Seq<u8>, Map<Seq<u8>, Seq<usize>>>, w: Seq<u8>, p: Seq<u8>) -> bool {
    m.contains_key(w) && m[w].contains_key(p)
}

/// What a whole run computes, characterized without reference to order:
/// the words are those of the accumulator and of any member; under a word,
/// the paths likewise; and the offsets of a pair are the accumulator's, the
/// one contributing member's, or the first appended to the second.
pub proof fn lemma_fold_merge_characterize(
    g: Map<Seq<u8>, Map<Seq<u8>, Seq<usize>>>,
    fs: Seq<Map<Seq<u8>, Map<Seq<u8>, Seq<usize>>>>,
)
    requires
        all_pairs_disjoint(fs),
    ensures
        forall|w: Seq<u8>|
            #[trigger] fold_merge(g, fs).contains_key(w) <==> g.contains_key(w) || some_word(
                fs,
                w,
            ),
        forall|w: Seq<u8>, p: Seq<u8>|
            fold_merge(g, fs).contains_key(w) ==> ((#[trigger] fold_merge(g, fs)[w].contains_key(
                p,
            )) <==> has_entry(g, w, p) || some_entry(fs, w, p)),
        forall|w: Seq<u8>, p: Seq<u8>|
            #[trigger] has_entry(g, w, p) && !some_entry(fs, w, p) ==> fold_merge(g, fs)[w][p]
                == g[w][p],
        forall|w: Seq<u8>, p: Seq<u8>, i: int|
            #![trigger fs[i].contains_key(w), fs[i][w].contains_key(p)]
            0 <= i < fs.len() && fs[i].contains_key(w) && fs[i][w].contains_key(p)
                ==> fold_merge(g, fs)[w][p] == if has_entry(g, w, p) {
                g[w][p] + fs[i][w][p]
            } else {
                fs[i][w][p]
            },
    decreases fs.len(),
{
    if fs.len() > 0 {
        let f0 = fs[0];
        let g2 = merged(g, f0);
        let tail = fs.drop_first();
        assert(forall|k: int| 0 <= k < tail.len() ==> (#[trigger] tail[k]) == fs[k + 1]);
        assert(all_pairs_disjoint(tail)) by {
            assert forall|i: int, j: int|
                0 <= i < tail.len() && 0 <= j < tail.len() && i != j implies pair_disjoint(
                #[trigger] tail[i],
                #[trigger] tail[j],
            ) by {
                assert(pair_disjoint(fs[i + 1], fs[j + 1]));
            }
        }
        lemma_fold_merge_characterize(g2, tail);
        assert(fold_merge(g, fs) == fold_merge(g2, tail));
        let fm = fold_merge(g, fs);
        assert forall|w: Seq<u8>|
            #[trigger] fm.contains_key(w) <==> g.contains_key(w) || some_word(fs, w) by {
            if fm.contains_key(w) {
                if !g2.contains_key(w) {
                    let i = choose|i: int|
                        0 <= i < tail.len() && (#[trigger] tail[i]).contains_key(w);
                    assert(fs[i + 1].contains_key(w));
                    assert(some_word(fs, w));
                } else {
                    if !g.contains_key(w) {
                        assert(f0.contains_key(w));
                        assert(some_word(fs, w));
                    }
                }
            }
            if g.contains_key(w) {
                assert(g2.contains_key(w));
                assert(fm.contains_key(w));
            }
            if some_word(fs, w) {
                let i = choose|i: int| 0 <= i < fs.len() && (#[trigger] fs[i]).contains_key(w);
                if i == 0 {
                    assert(g2.contains_key(w));
                } else {
                    assert(tail[i - 1].contains_key(w));
                    assert(some_word(tail, w));
                }
                assert(fm.contains_key(w));
            }
        }
        assert forall|w: Seq<u8>, p: Seq<u8>|
            fm.contains_key(w) implies ((#[trigger] fm[w].contains_key(p)) <==> has_entry(g, w, p)
            || some_entry(fs, w, p)) by {
            if fm[w].contains_key(p) {
                if has_entry(g2, w, p) {
                    if !has_entry(g, w, p) {
                        assert(f0.contains_key(w) && f0[w].contains_key(p));
                        assert(some_entry(fs, w, p));
                    }
                } else {
                    assert(some_entry(tail, w, p));
                    let i = choose|i: int|
                        0 <= i < tail.len() && (#[trigger] tail[i]).contains_key(w)
                            && tail[i][w].contains_key(p);
                    assert(fs[i + 1].contains_key(w) && fs[i + 1][w].contains_key(p));
                    assert(some_entry(fs, w, p));
                }
            }
            if has_entry(g, w, p) {
                assert(has_entry(g2, w, p));
                assert(fm.contains_key(w));
                assert(fm[w].contains_key(p));
            }
            if some_entry(fs, w, p) {
                let i = choose|i: int|
                    0 <= i < fs.len() && (#[trigger] fs[i]).contains_key(w)
                        && fs[i][w].contains_key(p);
                if i == 0 {
                    assert(has_entry(g2, w, p));
                } else {
                    assert(tail[i - 1].contains_key(w) && tail[i - 1][w].contains_key(p));
                    assert(some_entry(tail, w, p));
                }
                assert(fm[w].contains_key(p));
            }
        }
        assert forall|w: Seq<u8>, p: Seq<u8>|
            #[trigger] has_entry(g, w, p) && !some_entry(fs, w, p) implies fm[w][p]
            == g[w][p] by {
            assert(!(f0.contains_key(w) && f0[w].contains_key(p))) by {
                if f0.contains_key(w) && f0[w].contains_key(p) {
                    assert(some_entry(fs, w, p)) by {
                        assert(fs[0].contains_key(w) && fs[0][w].contains_key(p));
                    }
                }
            }
            assert(has_entry(g2, w, p));
            assert(g2[w][p] == g[w][p]);
            assert(!some_entry(tail, w, p)) by {
                if some_entry(tail, w, p) {
                    let i = choose|i: int|
                        0 <= i < tail.len() && (#[trigger] tail[i]).contains_key(w)
                            && tail[i][w].contains_key(p);
                    assert(fs[i + 1].contains_key(w) && fs[i + 1][w].contains_key(p));
                    assert(some_entry(fs, w, p));
                }
            }
        }
        assert forall|w: Seq<u8>, p: Seq<u8>, i: int|
            0 <= i < fs.len() && (#[trigger] fs[i].contains_key(w)) && (
        #[trigger] fs[i][w].contains_key(p)) implies fm[w][p] == (if has_entry(g, w, p) {
            g[w][p] + fs[i][w][p]
        } else {
            fs[i][w][p]
        }) by {
            if i == 0 {
                assert(has_entry(g2, w, p));
                if has_entry(g, w, p) {
                    assert(g2[w][p] == g[w][p] + f0[w][p]);
                } else {
                    assert(g2[w][p] == f0[w][p]);
                }
                assert(!some_entry(tail, w, p)) by {
                    if some_entry(tail, w, p) {
                        let j = choose|j: int|
                            0 <= j < tail.len() && (#[trigger] tail[j]).contains_key(w)
                                && tail[j][w].contains_key(p);
                        assert(pair_disjoint(fs[0], fs[j + 1]));
                    }
                }
                assert(fm[w][p] == g2[w][p]);
            } else {
                assert(tail[i - 1].contains_key(w) && tail[i - 1][w].contains_key(p));
                assert(!(f0.contains_key(w) && f0[w].contains_key(p))) by {
                    if f0.contains_key(w) && f0[w].contains_key(p) {
                        assert(pair_disjoint(fs[0], fs[i]));
                    }
                }
                if has_entry(g, w, p) {
                    assert(has_entry(g2, w, p));
                    assert(g2[w][p] == g[w][p]);
                    assert(fm[w][p] == g2[w][p] + tail[i - 1][w][p]);
                } else {
                    assert(!has_entry(g2, w, p));
                    assert(fm[w][p] == tail[i - 1][w][p]);
                }
            }
        }
    }
}

/// The result of a run does not depend on arrival order: folding the same
/// per-file indexes — in whatever order, over whatever worker count — onto
/// the same starting index yields the same global index.
pub proof fn lemma_fold_merge_order_independent(
    g: Map<Seq<u8>, Map<Seq<u8>, Seq<usize>>>,
    fs1: Seq<Map<Seq<u8>, Map<Seq<u8>, Seq<usize>>>>,
    fs2: Seq<Map<Seq<u8>, Map<Seq<u8>, Seq<usize>>>>,
)
    requires
        all_pairs_disjoint(fs1),
        all_pairs_disjoint(fs2),
        forall|f: Map<Seq<u8>, Map<Seq<u8>, Seq<usize>>>|
            fs1.contains(f) <==> #[trigger] fs2.contains(f),
    ensures
        fold_merge(g, fs1) == fold_merge(g, fs2),
{
    lemma_fold_merge_characterize(g, fs1);
    lemma_fold_merge_characterize(g, fs2);
    let l = fold_merge(g, fs1);
    let r = fold_merge(g, fs2);
    assert forall|w: Seq<u8>| some_word(fs1, w) <==> some_word(fs2, w) by {
        if some_word(fs1, w) {
            let i = choose|i: int| 0 <= i < fs1.len() && (#[trigger] fs1[i]).contains_key(w);
            assert(fs1.contains(fs1[i]));
            assert(fs2.contains(fs1[i]));
            let j = choose|j: int| 0 <= j < fs2.len() && fs2[j] == fs1[i];
            assert(fs2[j].contains_key(w));
            assert(some_word(fs2, w));
        }
        if some_word(fs2, w) {
            let i = choose|i: int| 0 <= i < fs2.len() && (#[trigger] fs2[i]).contains_key(w);
            assert(fs2.contains(fs2[i]));
            assert(fs1.contains(fs2[i]));
            let j = choose|j: int| 0 <= j < fs1.len() && fs1[j] == fs2[i];
            assert(fs1[j].contains_key(w));
            assert(some_word(fs1, w));
        }
    }
    assert forall|w: Seq<u8>, p: Seq<u8>|
        #[trigger] some_entry(fs1, w, p) <==> #[trigger] some_entry(fs2, w, p) by {
        if some_entry(fs1, w, p) {
            let i = choose|i: int|
                0 <= i < fs1.len() && (#[trigger] fs1[i]).contains_key(w)
                    && fs1[i][w].contains_key(p);
            assert(fs1.contains(fs1[i]));
            assert(fs2.contains(fs1[i]));
            let j = choose|j: int| 0 <= j < fs2.len() && fs2[j] == fs1[i];
            assert(fs2[j].contains_key(w) && fs2[j][w].contains_key(p));
            assert(some_entry(fs2, w, p));
        }
        if some_entry(fs2, w, p) {
            let i = choose|i: int|
                0 <= i < fs2.len() && (#[trigger] fs2[i]).contains_key(w)
                    && fs2[i][w].contains_key(p);
            assert(fs2.contains(fs2[i]));
            assert(fs1.contains(fs2[i]));
            let j = choose|j: int| 0 <= j < fs1.len() && fs1[j] == fs2[i];
            assert(fs1[j].contains_key(w) && fs1[j][w].contains_key(p));
            assert(some_entry(fs1, w, p));
        }
    }
    assert forall|w: Seq<u8>| #[trigger] l.contains_key(w) implies l[w] == r[w] by {
        assert(r.contains_key(w));
        assert forall|p: Seq<u8>| #[trigger] l[w].contains_key(p) implies l[w][p] == r[w][p] by {
            if some_entry(fs1, w, p) {
                let i = choose|i: int|
                    0 <= i < fs1.len() && (#[trigger] fs1[i]).contains_key(w)
                        && fs1[i][w].contains_key(p);
                assert(fs1.contains(fs1[i]));
                assert(fs2.contains(fs1[i]));
                let j = choose|j: int| 0 <= j < fs2.len() && fs2[j] == fs1[i];
                assert(fs2[j].contains_key(w) && fs2[j][w].contains_key(p));
                assert(l[w][p] == (if has_entry(g, w, p) {
                    g[w][p] + fs1[i][w][p]
                } else {
                    fs1[i][w][p]
                }));
                assert(r[w][p] == (if has_entry(g, w, p) {
                    g[w][p] + fs2[j][w][p]
                } else {
                    fs2[j][w][p]
                }));
            } else {
                assert(has_entry(g, w, p));
                assert(l[w][p] == g[w][p]);
                assert(r[w][p] == g[w][p]);
            }
        }
        assert(l[w] =~= r[w]);
    }
    assert(l =~= r);
}

/// Two file lists agree in everything their views show: same length, and
/// entry by entry the same path and the same offsets.
pub open spec fn files_equiv(a: Seq<FileOffsets>, b: Seq<FileOffsets>) -> bool {
    &&& a.len() == b.len()
    &&& forall|k: int|
        0 <= k < a.len() ==> (#[trigger] a[k]).path@ == b[k].path@ && a[k].offsets@
            == b[k].offsets@
}

/// Two entry lists agree in everything their views show.
pub open spec fn entries_equiv(a: Seq<WordFiles>, b: Seq<WordFiles>) -> bool {
    &&& a.len() == b.len()
    &&& forall|k: int|
        0 <= k < a.len() ==> (#[trigger] a[k]).word@ == b[k].word@ && files_equiv(
            a[k].files@,
            b[k].files@,
        )
}

/// Some entry of the file list carries path `p`.
pub open spec fn holds_path(files: Seq<FileOffsets>, p: Seq<u8>) -> bool {
    exists|k: int| 0 <= k < files.len() && (#[trigger] files[k].path@) == p
}

/// Some entry of the entry list carries word `w`.
pub open spec fn holds_word(entries: Seq<WordFiles>, w: Seq<u8>) -> bool {
    exists|k: int| 0 <= k < entries.len() && (#[trigger] entries[k].word@) == w
}

/// A strictly sorted file list is determined by which paths it holds and
/// what offsets each path carries.
proof fn lemma_sorted_files_unique(a: Seq<FileOffsets>, b: Seq<FileOffsets>)
    requires
        paths_sorted(a),
        paths_sorted(b),
        forall|p: Seq<u8>| #[trigger] holds_path(a, p) <==> #[trigger] holds_path(b, p),
        forall|k1: int, k2: int|
            0 <= k1 < a.len() && 0 <= k2 < b.len() && (#[trigger] a[k1].path@) == (
            #[trigger] b[k2].path@) ==> a[k1].offsets@ == b[k2].offsets@,
    ensures
        files_equiv(a, b),
    decreases a.len(),
{
    if a.len() == 0 {
        if b.len() > 0 {
            assert(holds_path(b, b[0].path@)) by {
                assert(b[0].path@ == b[0].path@);
            }
            assert(holds_path(a, b[0].path@));
            let k = choose|k: int| 0 <= k < a.len() && a[k].path@ == b[0].path@;
            assert(false);
        }
    } else {
        let p1 = a[0].path@;
        assert(holds_path(a, p1)) by {
            assert(a[0].path@ == p1);
        }
        assert(holds_path(b, p1));
        let k2 = choose|k: int| 0 <= k < b.len() && (#[trigger] b[k].path@) == p1;
        assert(b.len() > 0);
        let p2 = b[0].path@;
        assert(holds_path(b, p2)) by {
            assert(b[0].path@ == p2);
        }
        assert(holds_path(a, p2));
        let k1 = choose|k: int| 0 <= k < a.len() && (#[trigger] a[k].path@) == p2;
        if p1 != p2 {
            assert(k2 > 0);
            assert(lex_lt(p2, b[k2].path@));
            assert(k1 > 0);
            assert(lex_lt(p1, a[k1].path@));
            crate::lex::lemma_lex_lt_asymm(p1, p2);
        }
        assert(a[0].offsets@ == b[0].offsets@);
        let ta = a.drop_first();
        let tb = b.drop_first();
        assert(forall|k: int| 0 <= k < ta.len() ==> (#[trigger] ta[k]) == a[k + 1]);
        assert(forall|k: int| 0 <= k < tb.len() ==> (#[trigger] tb[k]) == b[k + 1]);
        lemma_paths_sorted_distinct(a);
        lemma_paths_sorted_distinct(b);
        assert(paths_sorted(ta));
        assert(paths_sorted(tb));
        assert forall|p: Seq<u8>| #[trigger] holds_path(ta, p) <==> #[trigger] holds_path(
            tb,
            p,
        ) by {
            if holds_path(ta, p) {
                let k = choose|k: int| 0 <= k < ta.len() && (#[trigger] ta[k].path@) == p;
                assert(a[k + 1].path@ == p);
                assert(p != p1);
                assert(holds_path(a, p)) by {
                    assert(a[k + 1].path@ == p);
                }
                assert(holds_path(b, p));
                let j = choose|j: int| 0 <= j < b.len() && (#[trigger] b[j].path@) == p;
                assert(j > 0);
                assert(tb[j - 1].path@ == p);
                assert(holds_path(tb, p));
            }
            if holds_path(tb, p) {
                let k = choose|k: int| 0 <= k < tb.len() && (#[trigger] tb[k].path@) == p;
                assert(b[k + 1].path@ == p);
                assert(p != p2);
                assert(holds_path(b, p)) by {
                    assert(b[k + 1].path@ == p);
                }
                assert(holds_path(a, p));
                let j = choose|j: int| 0 <= j < a.len() && (#[trigger] a[j].path@) == p;
                assert(j > 0);
                assert(ta[j - 1].path@ == p);
                assert(holds_path(ta, p));
            }
        }
        assert forall|j1: int, j2: int|
            0 <= j1 < ta.len() && 0 <= j2 < tb.len() && (#[trigger] ta[j1].path@) == (
        #[trigger] tb[j2].path@) implies ta[j1].offsets@ == tb[j2].offsets@ by {
            assert(a[j1 + 1].path@ == b[j2 + 1].path@);
        }
        lemma_sorted_files_unique(ta, tb);
        assert forall|k: int|
            0 <= k < a.len() implies (#[trigger] a[k]).path@ == b[k].path@ && a[k].offsets@
            == b[k].offsets@ by {
            if k >= 1 {
                assert(ta[k - 1].path@ == tb[k - 1].path@);
                assert(ta[k - 1].offsets@ == tb[k - 1].offsets@);
            }
        }
    }
}

/// A strictly sorted entry list is determined by which words it holds and
/// what file list each word carries.
proof fn lemma_sorted_entries_unique(a: Seq<WordFiles>, b: Seq<WordFiles>)
    requires
        entry_words_sorted(a),
        entry_words_sorted(b),
        forall|w: Seq<u8>| #[trigger] holds_word(a, w) <==> #[trigger] holds_word(b, w),
        forall|k1: int, k2: int|
            0 <= k1 < a.len() && 0 <= k2 < b.len() && (#[trigger] a[k1].word@) == (
            #[trigger] b[k2].word@) ==> files_equiv(a[k1].files@, b[k2].files@),
    ensures
        entries_equiv(a, b),
    decreases a.len(),
{
    if a.len() == 0 {
        if b.len() > 0 {
            assert(holds_word(b, b[0].word@)) by {
                assert(b[0].word@ == b[0].word@);
            }
            assert(holds_word(a, b[0].word@));
            let k = choose|k: int| 0 <= k < a.len() && a[k].word@ == b[0].word@;
            assert(false);
        }
    } else {
        let w1 = a[0].word@;
        assert(holds_word(a, w1)) by {
            assert(a[0].word@ == w1);
        }
        assert(holds_word(b, w1));
        let k2 = choose|k: int| 0 <= k < b.len() && (#[trigger] b[k].word@) == w1;
        assert(b.len() > 0);
        let w2 = b[0].word@;
        assert(holds_word(b, w2)) by {
            assert(b[0].word@ == w2);
        }
        assert(holds_word(a, w2));
        let k1 = choose|k: int| 0 <= k < a.len() && (#[trigger] a[k].word@) == w2;
        if w1 != w2 {
            assert(k2 > 0);
            assert(lex_lt(w2, b[k2].word@));
            assert(k1 > 0);
            assert(lex_lt(w1, a[k1].word@));
            crate::lex::lemma_lex_lt_asymm(w1, w2);
        }
        assert(files_equiv(a[0].files@, b[0].files@));
        let ta = a.drop_first();
        let tb = b.drop_first();
        assert(forall|k: int| 0 <= k < ta.len() ==> (#[trigger] ta[k]) == a[k + 1]);
        assert(forall|k: int| 0 <= k < tb.len() ==> (#[trigger] tb[k]) == b[k + 1]);
        lemma_entry_words_distinct(a);
        lemma_entry_words_distinct(b);
        assert(entry_words_sorted(ta));
        assert(entry_words_sorted(tb));
        assert forall|w: Seq<u8>| #[trigger] holds_word(ta, w) <==> #[trigger] holds_word(
            tb,
            w,
        ) by {
            if holds_word(ta, w) {
                let k = choose|k: int| 0 <= k < ta.len() && (#[trigger] ta[k].word@) == w;
                assert(a[k + 1].word@ == w);
                assert(w != w1);
                assert(holds_word(a, w)) by {
                    assert(a[k + 1].word@ == w);
                }
                assert(holds_word(b, w));
                let j = choose|j: int| 0 <= j < b.len() && (#[trigger] b[j].word@) == w;
                assert(j > 0);
                assert(tb[j - 1].word@ == w);
                assert(holds_word(tb, w));
            }
            if holds_word(tb, w) {
                let k = choose|k: int| 0 <= k < tb.len() && (#[trigger] tb[k].word@) == w;
                assert(b[k + 1].word@ == w);
                assert(w != w2);
                assert(holds_word(b, w)) by {
                    assert(b[k + 1].word@ == w);
                }
                assert(holds_word(a, w));
                let j = choose|j: int| 0 <= j < a.len() && (#[trigger] a[j].word@) == w;
                assert(j > 0);
                assert(ta[j - 1].word@ == w);
                assert(holds_word(ta, w));
            }
        }
        assert forall|j1: int, j2: int|
            0 <= j1 < ta.len() && 0 <= j2 < tb.len() && (#[trigger] ta[j1].word@) == (
        #[trigger] tb[j2].word@) implies files_equiv(ta[j1].files@, tb[j2].files@) by {
            assert(a[j1 + 1].word@ == b[j2 + 1].word@);
        }
        lemma_sorted_entries_unique(ta, tb);
        assert forall|k: int|
            0 <= k < a.len() implies (#[trigger] a[k]).word@ == b[k].word@ && files_equiv(
            a[k].files@,
            b[k].files@,
        ) by {
            if k >= 1 {
                assert(ta[k - 1].word@ == tb[k - 1].word@);
                assert(files_equiv(ta[k - 1].files@, tb[k - 1].files@));
            }
        }
    }
}

/// The representation is canonical: two well-formed global indexes that hold
/// the same nested map agree entry by entry in everything their views show.
/// A run's result is thus determined by the map it denotes, whatever order
/// built it.
pub proof fn lemma_global_index_canonical(g1: GlobalIndex, g2: GlobalIndex)
    requires
        g1.wf(),
        g2.wf(),
        g1@ == g2@,
    ensures
        entries_equiv(g1.entries@, g2.entries@),
{
    let a = g1.entries@;
    let b = g2.entries@;
    lemma_entry_words_distinct(a);
    lemma_entry_words_distinct(b);
    lemma_word_files_map_characterize(a);
    lemma_word_files_map_characterize(b);
    assert forall|w: Seq<u8>| #[trigger] holds_word(a, w) <==> #[trigger] holds_word(b, w) by {
        if holds_word(a, w) {
            let k = choose|k: int| 0 <= k < a.len() && (#[trigger] a[k].word@) == w;
            assert(g1@.contains_key(w));
            assert(g2@.contains_key(w));
            let j = choose|j: int| 0 <= j < b.len() && (#[trigger] b[j].word@) == w;
            assert(holds_word(b, w));
        }
        if holds_word(b, w) {
            let k = choose|k: int| 0 <= k < b.len() && (#[trigger] b[k].word@) == w;
            assert(g2@.contains_key(w));
            assert(g1@.contains_key(w));
            let j = choose|j: int| 0 <= j < a.len() && (#[trigger] a[j].word@) == w;
            assert(holds_word(a, w));
        }
    }
    assert forall|k1: int, k2: int|
        0 <= k1 < a.len() && 0 <= k2 < b.len() && (#[trigger] a[k1].word@) == (
    #[trigger] b[k2].word@) implies files_equiv(a[k1].files@, b[k2].files@) by {
        let w = a[k1].word@;
        assert(g1@.contains_key(w)) by {
            assert(a[k1].word@ == w);
        }
        assert(word_files_map(a)[w] == files_map(a[k1].files@));
        assert(word_files_map(b)[w] == files_map(b[k2].files@));
        let fa = a[k1].files@;
        let fb = b[k2].files@;
        lemma_paths_sorted_distinct(fa);
        lemma_paths_sorted_distinct(fb);
        lemma_files_map_characterize(fa);
        lemma_files_map_characterize(fb);
        assert(files_map(fa) == files_map(fb));
        assert forall|p: Seq<u8>| #[trigger] holds_path(fa, p) <==> #[trigger] holds_path(
            fb,
            p,
        ) by {
            if holds_path(fa, p) {
                let k = choose|k: int| 0 <= k < fa.len() && (#[trigger] fa[k].path@) == p;
                assert(files_map(fa).contains_key(p));
                assert(files_map(fb).contains_key(p));
                let j = choose|j: int| 0 <= j < fb.len() && (#[trigger] fb[j].path@) == p;
                assert(holds_path(fb, p));
            }
            if holds_path(fb, p) {
                let k = choose|k: int| 0 <= k < fb.len() && (#[trigger] fb[k].path@) == p;
                assert(files_map(fb).contains_key(p));
                assert(files_map(fa).contains_key(p));
                let j = choose|j: int| 0 <= j < fa.len() && (#[trigger] fa[j].path@) == p;
                assert(holds_path(fa, p));
            }
        }
        assert forall|j1: int, j2: int|
            0 <= j1 < fa.len() && 0 <= j2 < fb.len() && (#[trigger] fa[j1].path@) == (
        #[trigger] fb[j2].path@) implies fa[j1].offsets@ == fb[j2].offsets@ by {
            let p = fa[j1].path@;
            assert(files_map(fa)[p] == fa[j1].offsets@);
            assert(files_map(fb)[p] == fb[j2].offsets@);
        }
        lemma_sorted_files_unique(fa, fb);
    }
    lemma_sorted_entries_unique(a, b);
}

} // verus!
