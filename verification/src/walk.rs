//! The pure part of directory walking: which discovered entries are indexed.
//!
//! Enumerating the filesystem is I/O and stays outside the library; it hands
//! in the entries it saw, each with its path, its depth below the root, and
//! whether it is a regular file. This module decides, by depth bound, which
//! of them are to be indexed, and resolves the configuration sentinels.

use vstd::prelude::*;

verus! {

/// The sentinel depth meaning "no limit": deeper than any real tree.
pub const UNBOUNDED_DEPTH: usize = usize::MAX;

/// One filesystem entry as discovered by a walk: its path, its depth in
/// directory levels below the root (the root itself has depth 0), and
/// whether it is a regular file.
pub struct WalkEntry {
    pub path: Vec<u8>,
    pub depth: usize,
    pub is_file: bool,
}

/// An entry is indexed when it is a regular file within the depth bound.
/// Directories and special files are skipped.
pub open spec fn entry_selected(e: WalkEntry, max_depth: usize) -> bool {
    e.is_file && e.depth <= max_depth
}

/// The paths of the selected entries, in discovery order.
pub open spec fn selected_paths(entries: Seq<WalkEntry>, max_depth: usize) -> Seq<Seq<u8>>
    decreases entries.len(),
{
    if entries.len() == 0 {
        Seq::empty()
    } else {
        let pre = selected_paths(entries.drop_last(), max_depth);
        if entry_selected(entries.last(), max_depth) {
            pre.push(entries.last().path@)
        } else {
            pre
        }
    }
}

/// Exactly the file entries within the depth bound are selected: a path is
/// selected precisely when some file entry within the bound carries it.
pub proof fn lemma_selected_paths_membership(entries: Seq<WalkEntry>, max_depth: usize)
    ensures
        forall|p: Seq<u8>|
            #[trigger] selected_paths(entries, max_depth).contains(p) <==> exists|k: int|
                0 <= k < entries.len() && entry_selected(#[trigger] entries[k], max_depth)
                    && entries[k].path@ == p,
    decreases entries.len(),
{
    if entries.len() > 0 {
        let pre = entries.drop_last();
        let last = entries.last();
        assert(forall|k: int| 0 <= k < pre.len() ==> pre[k] == #[trigger] entries[k]);
        lemma_selected_paths_membership(pre, max_depth);
        let sel = selected_paths(entries, max_depth);
        let spre = selected_paths(pre, max_depth);
        assert forall|p: Seq<u8>| #[trigger] sel.contains(p) implies exists|k: int|
            0 <= k < entries.len() && entry_selected(#[trigger] entries[k], max_depth)
                && entries[k].path@ == p by {
            if entry_selected(last, max_depth) && p == last.path@ {
                assert(entry_selected(entries[entries.len() - 1], max_depth));
            } else {
                assert(spre.contains(p)) by {
                    let j = choose|j: int| 0 <= j < sel.len() && sel[j] == p;
                    if entry_selected(last, max_depth) {
                        assert(j < sel.len() - 1 || sel[j] == last.path@);
                        assert(spre[j] == p);
                    }
                }
                let k = choose|k: int|
                    0 <= k < pre.len() && entry_selected(#[trigger] pre[k], max_depth)
                        && pre[k].path@ == p;
                assert(entry_selected(entries[k], max_depth));
            }
        }
        assert forall|p: Seq<u8>|
            exists|k: int|
                0 <= k < entries.len() && entry_selected(#[trigger] entries[k], max_depth)
                    && entries[k].path@ == p implies #[trigger] sel.contains(p) by {
            let k = choose|k: int|
                0 <= k < entries.len() && entry_selected(#[trigger] entries[k], max_depth)
                    && entries[k].path@ == p;
            if k == entries.len() - 1 {
                assert(sel[sel.len() - 1] == p);
            } else {
                assert(pre[k].path@ == p && entry_selected(pre[k], max_depth));
                assert(spre.contains(p));
                let j = choose|j: int| 0 <= j < spre.len() && spre[j] == p;
                assert(sel[j] == p);
            }
        }
    }
}

/// Selects, in discovery order, the paths of the regular files lying within
/// the depth bound. Everything deeper, and every non-file entry, is left out.
pub fn select_files(entries: &Vec<WalkEntry>, max_depth: usize) -> (r: Vec<Vec<u8>>)
    ensures
        r@.map_values(|p: Vec<u8>| p@) == selected_paths(entries@, max_depth),
{
    let n = entries.len();
    let mut r: Vec<Vec<u8>> = Vec::new();
    proof {
        assert(entries@.take(0) =~= Seq::<WalkEntry>::empty());
        assert(r@.map_values(|p: Vec<u8>| p@) =~= selected_paths(entries@.take(0), max_depth));
    }
    let mut k: usize = 0;
    while k < n
        invariant
            n == entries@.len(),
            0 <= k <= n,
            r@.map_values(|p: Vec<u8>| p@) == selected_paths(entries@.take(k as int), max_depth),
        decreases n - k,
    {
        let ghost prefix = entries@.take(k as int);
        if entries[k].is_file && entries[k].depth <= max_depth {
            let path = vstd::slice::slice_to_vec(entries[k].path.as_slice());
            r.push(path);
        }
        proof {
            assert(entries@.take(k + 1).drop_last() =~= prefix);
            assert(entries@.take(k + 1).last() == entries@[k as int]);
            assert(r@.map_values(|p: Vec<u8>| p@) =~= selected_paths(
                entries@.take(k + 1),
                max_depth,
            ));
        }
        k = k + 1;
    }
    proof {
        assert(entries@.take(n as int) =~= entries@);
    }
    r
}

/// Resolves the configured maximum depth: 0 (or unspecified) means no limit,
/// any other value is the bound itself, counted in directory levels below
/// the root.
pub fn resolve_max_depth(raw: usize) -> (d: usize)
    ensures
        raw == 0 ==> d == UNBOUNDED_DEPTH,
        raw != 0 ==> d == raw,
{
    if raw == 0 {
        UNBOUNDED_DEPTH
    } else {
        raw
    }
}

/// Resolves the configured worker count: 0 (or unspecified) means "use the
/// host's available parallelism", any other value is taken as given. At
/// least one worker always results.
pub fn resolve_workers(requested: usize, available: usize) -> (w: usize)
    requires
        available >= 1,
    ensures
        requested == 0 ==> w == available,
        requested != 0 ==> w == requested,
        w >= 1,
{
    if requested == 0 {
        available
    } else {
        requested
    }
}

} // verus!
