//! The snapshot writer: renders a global index as a deterministic,
//! human-readable nested document (word -> file path -> offset array).
//!
//! The output is JSON: two-space indentation, one key or array element per
//! line, keys in the index's sorted order, strings escaped in the usual way
//! (quote, backslash, and control bytes). Because the index representation
//! is canonical, equal indexes render to byte-identical snapshots.

use vstd::prelude::*;

use crate::global::entries_equiv;
use crate::global::files_equiv;
use crate::global::lemma_global_index_canonical;
use crate::global::FileOffsets;
use crate::global::GlobalIndex;
use crate::global::WordFiles;

verus! {

/// The decimal digits of `n`, most significant first.
pub open spec fn dec_digits(n: nat) -> Seq<u8>
    decreases n,
{
    if n < 10 {
        seq![(48 + n) as u8]
    } else {
        dec_digits(n / 10).push((48 + n % 10) as u8)
    }
}

/// The lower-case hexadecimal digit for `n` (0 to 15).
pub open spec fn hex_digit(n: u8) -> u8 {
    if n < 10 {
        (48 + n) as u8
    } else {
        (87 + n) as u8
    }
}

/// The escaped form of one string byte: quote and backslash get a backslash,
/// the common control bytes get their short escape, other control bytes a
/// six-byte `\u00..` escape, and every other byte stands as itself.
pub open spec fn escaped_byte(b: u8) -> Seq<u8> {
    if b == 34 {
        seq![92u8, 34u8]
    } else if b == 92 {
        seq![92u8, 92u8]
    } else if b == 10 {
        seq![92u8, 110u8]
    } else if b == 13 {
        seq![92u8, 114u8]
    } else if b == 9 {
        seq![92u8, 116u8]
    } else if b < 32 {
        seq![92u8, 117u8, 48u8, 48u8, hex_digit(b / 16), hex_digit(b % 16)]
    } else {
        seq![b]
    }
}

/// The escaped form of a whole string body.
pub open spec fn escaped_bytes(s: Seq<u8>) -> Seq<u8>
    decreases s.len(),
{
    if s.len() == 0 {
        Seq::empty()
    } else {
        escaped_bytes(s.drop_last()) + escaped_byte(s.last())
    }
}

/// A quoted, escaped string.
pub open spec fn quoted(s: Seq<u8>) -> Seq<u8> {
    seq![34u8] + escaped_bytes(s) + seq![34u8]
}

/// An offset array's elements: one per line, six spaces of indentation,
/// comma-separated.
pub open spec fn offsets_body(offs: Seq<usize>) -> Seq<u8>
    decreases offs.len(),
{
    if offs.len() == 0 {
        Seq::empty()
    } else if offs.len() == 1 {
        seq![32u8, 32u8, 32u8, 32u8, 32u8, 32u8] + dec_digits(offs[0] as nat)
    } else {
        offsets_body(offs.drop_last()) + seq![44u8, 10u8] + seq![
            32u8,
            32u8,
            32u8,
            32u8,
            32u8,
            32u8,
        ] + dec_digits(offs.last() as nat)
    }
}

/// A whole offset array, bracketed and closed at four spaces.
pub open spec fn offsets_block(offs: Seq<usize>) -> Seq<u8> {
    if offs.len() == 0 {
        seq![91u8, 93u8]
    } else {
        seq![91u8, 10u8] + offsets_body(offs) + seq![10u8, 32u8, 32u8, 32u8, 32u8, 93u8]
    }
}

/// One file entry: the quoted path at four spaces, then its offset array.
pub open spec fn file_line(f: FileOffsets) -> Seq<u8> {
    seq![32u8, 32u8, 32u8, 32u8] + quoted(f.path@) + seq![58u8, 32u8] + offsets_block(f.offsets@)
}

/// A word's file entries, comma-separated, one per line.
pub open spec fn files_body(files: Seq<FileOffsets>) -> Seq<u8>
    decreases files.len(),
{
    if files.len() == 0 {
        Seq::empty()
    } else if files.len() == 1 {
        file_line(files[0])
    } else {
        files_body(files.drop_last()) + seq![44u8, 10u8] + file_line(files.last())
    }
}

/// A word's whole per-file object, braced and closed at two spaces.
pub open spec fn files_block(files: Seq<FileOffsets>) -> Seq<u8> {
    if files.len() == 0 {
        seq![123u8, 125u8]
    } else {
        seq![123u8, 10u8] + files_body(files) + seq![10u8, 32u8, 32u8, 125u8]
    }
}

/// One word entry: the quoted word at two spaces, then its per-file object.
pub open spec fn word_line(e: WordFiles) -> Seq<u8> {
    seq![32u8, 32u8] + quoted(e.word@) + seq![58u8, 32u8] + files_block(e.files@)
}

/// The word entries, comma-separated, one per line.
pub open spec fn words_body(entries: Seq<WordFiles>) -> Seq<u8>
    decreases entries.len(),
{
    if entries.len() == 0 {
        Seq::empty()
    } else if entries.len() == 1 {
        word_line(entries[0])
    } else {
        words_body(entries.drop_last()) + seq![44u8, 10u8] + word_line(entries.last())
    }
}

/// The whole snapshot document.
pub open spec fn snapshot_bytes(entries: Seq<WordFiles>) -> Seq<u8> {
    if entries.len() == 0 {
        seq![123u8, 125u8]
    } else {
        seq![123u8, 10u8] + words_body(entries) + seq![10u8, 125u8]
    }
}

/// File lists that agree in their views render identically.
proof fn lemma_files_body_equiv(a: Seq<FileOffsets>, b: Seq<FileOffsets>)
    requires
        files_equiv(a, b),
    ensures
        files_body(a) == files_body(b),
        files_block(a) == files_block(b),
    decreases a.len(),
{
    if a.len() > 0 {
        let pa = a.drop_last();
        let pb = b.drop_last();
        assert(forall|k: int| 0 <= k < pa.len() ==> (#[trigger] pa[k]) == a[k]);
        assert(forall|k: int| 0 <= k < pb.len() ==> (#[trigger] pb[k]) == b[k]);
        assert(files_equiv(pa, pb));
        lemma_files_body_equiv(pa, pb);
        assert(a[a.len() - 1].path@ == b[b.len() - 1].path@);
        assert(a[a.len() - 1].offsets@ == b[b.len() - 1].offsets@);
        assert(file_line(a.last()) == file_line(b.last()));
        if a.len() == 1 {
            assert(file_line(a[0]) == file_line(b[0]));
        }
    }
}

/// Entry lists that agree in their views render identically.
proof fn lemma_words_body_equiv(a: Seq<WordFiles>, b: Seq<WordFiles>)
    requires
        entries_equiv(a, b),
    ensures
        words_body(a) == words_body(b),
        snapshot_bytes(a) == snapshot_bytes(b),
    decreases a.len(),
{
    if a.len() > 0 {
        let pa = a.drop_last();
        let pb = b.drop_last();
        assert(forall|k: int| 0 <= k < pa.len() ==> (#[trigger] pa[k]) == a[k]);
        assert(forall|k: int| 0 <= k < pb.len() ==> (#[trigger] pb[k]) == b[k]);
        assert(entries_equiv(pa, pb));
        lemma_words_body_equiv(pa, pb);
        assert(a[a.len() - 1].word@ == b[b.len() - 1].word@);
        assert(files_equiv(a[a.len() - 1].files@, b[b.len() - 1].files@));
        lemma_files_body_equiv(a.last().files@, b.last().files@);
        assert(word_line(a.last()) == word_line(b.last()));
        if a.len() == 1 {
            assert(word_line(a[0]) == word_line(b[0]));
        }
    }
}

/// Snapshots are a function of the index content alone: two well-formed
/// global indexes holding the same nested map render to byte-identical
/// snapshot documents — in particular, runs that merge the same per-file
/// results in different orders, or spread them over different worker counts,
/// write the same bytes.
pub proof fn lemma_snapshot_deterministic(g1: GlobalIndex, g2: GlobalIndex)
    requires
        g1.wf(),
        g2.wf(),
        g1@ == g2@,
    ensures
        snapshot_bytes(g1.entries@) == snapshot_bytes(g2.entries@),
{
    lemma_global_index_canonical(g1, g2);
    lemma_words_body_equiv(g1.entries@, g2.entries@);
}

/// Appends the decimal digits of `n`.
fn push_decimal(out: &mut Vec<u8>, n: usize)
    ensures
        final(out)@ == old(out)@ + dec_digits(n as nat),
    decreases n,
{
    if n < 10 {
        out.push(48 + (n as u8));
        proof {
            assert(out@ =~= old(out)@ + dec_digits(n as nat));
        }
    } else {
        push_decimal(out, n / 10);
        out.push(48 + ((n % 10) as u8));
        proof {
            assert(out@ =~= old(out)@ + dec_digits(n as nat));
        }
    }
}

/// Appends the escaped form of one string byte.
fn push_escaped_byte(out: &mut Vec<u8>, b: u8)
    ensures
        final(out)@ == old(out)@ + escaped_byte(b),
{
    if b == 34 {
        out.push(92);
        out.push(34);
    } else if b == 92 {
        out.push(92);
        out.push(92);
    } else if b == 10 {
        out.push(92);
        out.push(110);
    } else if b == 13 {
        out.push(92);
        out.push(114);
    } else if b == 9 {
        out.push(92);
        out.push(116);
    } else if b < 32 {
        out.push(92);
        out.push(117);
        out.push(48);
        out.push(48);
        let hi = b / 16;
        let lo = b % 16;
        out.push(if hi < 10 { 48 + hi } else { 87 + hi });
        out.push(if lo < 10 { 48 + lo } else { 87 + lo });
    } else {
        out.push(b);
    }
    proof {
        assert(out@ =~= old(out)@ + escaped_byte(b));
    }
}

/// Appends a quoted, escaped string.
fn push_quoted(out: &mut Vec<u8>, s: &[u8])
    ensures
        final(out)@ == old(out)@ + quoted(s@),
{
    out.push(34);
    let n = s.len();
    let mut i: usize = 0;
    proof {
        assert(s@.take(0) =~= Seq::<u8>::empty());
        assert(out@ =~= old(out)@ + seq![34u8] + escaped_bytes(s@.take(0)));
    }
    while i < n
        invariant
            n == s@.len(),
            0 <= i <= n,
            out@ == old(out)@ + seq![34u8] + escaped_bytes(s@.take(i as int)),
        decreases n - i,
    {
        let ghost prefix = s@.take(i as int);
        push_escaped_byte(out, s[i]);
        proof {
            assert(s@.take(i + 1).drop_last() =~= prefix);
            assert(s@.take(i + 1).last() == s@[i as int]);
            assert(out@ =~= old(out)@ + seq![34u8] + escaped_bytes(s@.take(i + 1)));
        }
        i = i + 1;
    }
    out.push(34);
    proof {
        assert(s@.take(n as int) =~= s@);
        assert(out@ =~= old(out)@ + quoted(s@));
    }
}

/// Appends a whole offset array.
fn push_offsets_block(out: &mut Vec<u8>, offs: &Vec<usize>)
    ensures
        final(out)@ == old(out)@ + offsets_block(offs@),
{
    let n = offs.len();
    if n == 0 {
        out.push(91);
        out.push(93);
        proof {
            assert(out@ =~= old(out)@ + offsets_block(offs@));
        }
        return ;
    }
    out.push(91);
    out.push(10);
    let mut i: usize = 0;
    while i < n
        invariant
            n == offs@.len(),
            0 < n,
            0 <= i <= n,
            i == 0 ==> out@ == old(out)@ + seq![91u8, 10u8],
            i > 0 ==> out@ == old(out)@ + seq![91u8, 10u8] + offsets_body(offs@.take(i as int)),
        decreases n - i,
    {
        let ghost prefix = offs@.take(i as int);
        if i > 0 {
            out.push(44);
            out.push(10);
        }
        out.push(32);
        out.push(32);
        out.push(32);
        out.push(32);
        out.push(32);
        out.push(32);
        push_decimal(out, offs[i]);
        proof {
            assert(offs@.take(i + 1).drop_last() =~= prefix);
            assert(offs@.take(i + 1).last() == offs@[i as int]);
            if i == 0 {
                assert(offs@.take(1).len() == 1);
                assert(offs@.take(1)[0] == offs@[0]);
                assert(out@ =~= old(out)@ + seq![91u8, 10u8] + offsets_body(offs@.take(i + 1)));
            } else {
                assert(offs@.take(i + 1).len() > 1);
                assert(out@ =~= old(out)@ + seq![91u8, 10u8] + offsets_body(offs@.take(i + 1)));
            }
        }
        i = i + 1;
    }
    out.push(10);
    out.push(32);
    out.push(32);
    out.push(32);
    out.push(32);
    out.push(93);
    proof {
        assert(offs@.take(n as int) =~= offs@);
        assert(out@ =~= old(out)@ + offsets_block(offs@));
    }
}

/// Appends a word's whole per-file object.
fn push_files_block(out: &mut Vec<u8>, files: &Vec<FileOffsets>)
    ensures
        final(out)@ == old(out)@ + files_block(files@),
{
    let n = files.len();
    if n == 0 {
        out.push(123);
        out.push(125);
        proof {
            assert(out@ =~= old(out)@ + files_block(files@));
        }
        return ;
    }
    out.push(123);
    out.push(10);
    let mut i: usize = 0;
    while i < n
        invariant
            n == files@.len(),
            0 < n,
            0 <= i <= n,
            i == 0 ==> out@ == old(out)@ + seq![123u8, 10u8],
            i > 0 ==> out@ == old(out)@ + seq![123u8, 10u8] + files_body(files@.take(i as int)),
        decreases n - i,
    {
        let ghost prefix = files@.take(i as int);
        if i > 0 {
            out.push(44);
            out.push(10);
        }
        out.push(32);
        out.push(32);
        out.push(32);
        out.push(32);
        push_quoted(out, files[i].path.as_slice());
        out.push(58);
        out.push(32);
        push_offsets_block(out, &files[i].offsets);
        proof {
            assert(files@.take(i + 1).drop_last() =~= prefix);
            assert(files@.take(i + 1).last() == files@[i as int]);
            if i == 0 {
                assert(files@.take(1).len() == 1);
                assert(files@.take(1)[0] == files@[0]);
                assert(out@ =~= old(out)@ + seq![123u8, 10u8] + files_body(files@.take(i + 1)));
            } else {
                assert(files@.take(i + 1).len() > 1);
                assert(out@ =~= old(out)@ + seq![123u8, 10u8] + files_body(files@.take(i + 1)));
            }
        }
        i = i + 1;
    }
    out.push(10);
    out.push(32);
    out.push(32);
    out.push(125);
    proof {
        assert(files@.take(n as int) =~= files@);
        assert(out@ =~= old(out)@ + files_block(files@));
    }
}

/// Renders the whole snapshot document of a global index.
///
/// Words and paths appear in the index's strictly sorted order, so the
/// output is byte-for-byte determined by the index content.
pub fn render_snapshot(g: &GlobalIndex) -> (out: Vec<u8>)
    ensures
        out@ == snapshot_bytes(g.entries@),
{
    let n = g.entries.len();
    let mut out: Vec<u8> = Vec::new();
    if n == 0 {
        out.push(123);
        out.push(125);
        proof {
            assert(out@ =~= snapshot_bytes(g.entries@));
        }
        return out;
    }
    out.push(123);
    out.push(10);
    let mut i: usize = 0;
    while i < n
        invariant
            n == g.entries@.len(),
            0 < n,
            0 <= i <= n,
            i == 0 ==> out@ == seq![123u8, 10u8],
            i > 0 ==> out@ == seq![123u8, 10u8] + words_body(g.entries@.take(i as int)),
        decreases n - i,
    {
        let ghost prefix = g.entries@.take(i as int);
        if i > 0 {
            out.push(44);
            out.push(10);
        }
        out.push(32);
        out.push(32);
        push_quoted(&mut out, g.entries[i].word.as_slice());
        out.push(58);
        out.push(32);
        push_files_block(&mut out, &g.entries[i].files);
        proof {
            assert(g.entries@.take(i + 1).drop_last() =~= prefix);
            assert(g.entries@.take(i + 1).last() == g.entries@[i as int]);
            if i == 0 {
                assert(g.entries@.take(1).len() == 1);
                assert(g.entries@.take(1)[0] == g.entries@[0]);
                assert(out@ =~= seq![123u8, 10u8] + words_body(g.entries@.take(i + 1)));
            } else {
                assert(g.entries@.take(i + 1).len() > 1);
                assert(out@ =~= seq![123u8, 10u8] + words_body(g.entries@.take(i + 1)));
            }
        }
        i = i + 1;
    }
    out.push(10);
    out.push(125);
    proof {
        assert(g.entries@.take(n as int) =~= g.entries@);
        assert(out@ =~= snapshot_bytes(g.entries@));
    }
    out
}

} // verus!
