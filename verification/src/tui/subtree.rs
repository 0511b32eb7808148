//! What lies below a node of the tree.

use super::tree::{is_tree, lemma_parent_above, Node};
use vstd::prelude::*;

verus! {

/// Whether every node's children come after it, so that the way down ends.
pub open spec fn links_down(nodes: Seq<Node>) -> bool {
    forall|p: int, i: int|
        0 <= p < nodes.len() && 0 <= i < nodes[p].children@.len() ==> p
            < #[trigger] nodes[p].children@[i] < nodes.len()
}

/// The children of a tree's nodes come after them.
pub proof fn lemma_tree_links_down(nodes: Seq<Node>)
    requires
        is_tree(nodes),
    ensures
        links_down(nodes),
{
    assert forall|p: int, i: int|
        0 <= p < nodes.len() && 0 <= i < nodes[p].children@.len() implies p
        < #[trigger] nodes[p].children@[i] < nodes.len() by {
        let c = nodes[p].children@[i];
        assert(nodes[p].children@.contains(c));
        lemma_parent_above(nodes, c as int);
    }
}

/// Numbers of files and directories, and the size of the files.
pub struct Stats {
    pub files: nat,
    pub dirs: nat,
    pub total: nat,
}

/// What lies below the first `k` children of node `idx`, these counted too.
pub open spec fn stats_upto(nodes: Seq<Node>, idx: int, k: int) -> Stats
    decreases nodes.len() - idx, k,
{
    if k <= 0 {
        Stats { files: 0, dirs: 0, total: 0 }
    } else {
        let before = stats_upto(nodes, idx, k - 1);
        let c = nodes[idx].children@[k - 1] as int;
        if !(idx < c < nodes.len()) {
            before
        } else if nodes[c].is_dir {
            let inside = stats_upto(nodes, c, nodes[c].children@.len() as int);
            Stats {
                files: before.files + inside.files,
                dirs: before.dirs + 1 + inside.dirs,
                total: before.total + inside.total,
            }
        } else {
            Stats {
                files: before.files + 1,
                dirs: before.dirs,
                total: before.total + nodes[c].size as nat,
            }
        }
    }
}

/// What lies below node `idx`.
pub open spec fn stats_below(nodes: Seq<Node>, idx: int) -> Stats {
    stats_upto(nodes, idx, nodes[idx].children@.len() as int)
}

/// Whether the numbers can be held.
pub open spec fn stats_fit(s: Stats) -> bool {
    s.files <= usize::MAX && s.dirs <= usize::MAX && s.total <= u64::MAX
}

/// The files below the first `k` children of node `idx`, these taken too, from the
/// top down.
pub open spec fn files_upto(nodes: Seq<Node>, idx: int, k: int) -> Seq<int>
    decreases nodes.len() - idx, k,
{
    if k <= 0 {
        Seq::empty()
    } else {
        let before = files_upto(nodes, idx, k - 1);
        let c = nodes[idx].children@[k - 1] as int;
        if !(idx < c < nodes.len()) {
            before
        } else if nodes[c].is_dir {
            before + files_upto(nodes, c, nodes[c].children@.len() as int)
        } else {
            before.push(c)
        }
    }
}

/// The files below node `idx`.
pub open spec fn files_below(nodes: Seq<Node>, idx: int) -> Seq<int> {
    files_upto(nodes, idx, nodes[idx].children@.len() as int)
}

/// The size of some files together.
pub open spec fn size_of_files(nodes: Seq<Node>, files: Seq<int>) -> nat
    decreases files.len(),
{
    if files.len() == 0 {
        0
    } else {
        size_of_files(nodes, files.drop_last()) + nodes[files.last()].size as nat
    }
}

proof fn lemma_size_of_concat(nodes: Seq<Node>, a: Seq<int>, b: Seq<int>)
    ensures
        size_of_files(nodes, a + b) == size_of_files(nodes, a) + size_of_files(nodes, b),
    decreases b.len(),
{
    if b.len() == 0 {
        assert(a + b =~= a);
    } else {
        lemma_size_of_concat(nodes, a, b.drop_last());
        assert((a + b).drop_last() =~= a + b.drop_last());
    }
}

/// The files below a node are as many, and as large together, as its counts say.
pub proof fn law_files_match_stats(nodes: Seq<Node>, idx: int, k: int)
    ensures
        files_upto(nodes, idx, k).len() == stats_upto(nodes, idx, k).files,
        size_of_files(nodes, files_upto(nodes, idx, k)) == stats_upto(nodes, idx, k).total,
    decreases nodes.len() - idx, k,
{
    if k > 0 {
        law_files_match_stats(nodes, idx, k - 1);
        let before = files_upto(nodes, idx, k - 1);
        let c = nodes[idx].children@[k - 1] as int;
        if idx < c < nodes.len() {
            if nodes[c].is_dir {
                let n = nodes[c].children@.len() as int;
                law_files_match_stats(nodes, c, n);
                lemma_size_of_concat(nodes, before, files_upto(nodes, c, n));
            } else {
                assert(before.push(c).drop_last() =~= before);
            }
        }
    }
}

/// More children, more of everything.
proof fn lemma_stats_grow(nodes: Seq<Node>, idx: int, k: int, l: int)
    requires
        k <= l,
    ensures
        stats_upto(nodes, idx, k).files <= stats_upto(nodes, idx, l).files,
        stats_upto(nodes, idx, k).dirs <= stats_upto(nodes, idx, l).dirs,
        stats_upto(nodes, idx, k).total <= stats_upto(nodes, idx, l).total,
    decreases l,
{
    if k < l && l > 0 {
        lemma_stats_grow(nodes, idx, k, l - 1);
    }
}

/// Count what lies below node `idx`, or find that the numbers are too large.
pub fn checked_stats(nodes: &Vec<Node>, idx: usize) -> (stats: Option<(usize, usize, u64)>)
    requires
        links_down(nodes@),
        idx < nodes@.len(),
    ensures
        stats is Some <==> stats_fit(stats_below(nodes@, idx as int)),
        stats matches Some(s) ==> s.0 == stats_below(nodes@, idx as int).files && s.1
            == stats_below(nodes@, idx as int).dirs && s.2 == stats_below(
            nodes@,
            idx as int,
        ).total,
    decreases nodes@.len() - idx,
{
    let mut files: usize = 0;
    let mut dirs: usize = 0;
    let mut total: u64 = 0;
    let len: usize = nodes[idx].children.len();
    let mut k: usize = 0;
    while k < len
        invariant
            k <= len,
            idx < nodes@.len(),
            len == nodes@[idx as int].children@.len(),
            links_down(nodes@),
            files == stats_upto(nodes@, idx as int, k as int).files,
            dirs == stats_upto(nodes@, idx as int, k as int).dirs,
            total == stats_upto(nodes@, idx as int, k as int).total,
        decreases len - k,
    {
        let child: usize = nodes[idx].children[k];
        proof {
            lemma_stats_grow(nodes@, idx as int, k + 1, len as int);
        }
        let (f, d, t): (usize, usize, u64) = if nodes[child].is_dir {
            match checked_stats(nodes, child) {
                Some((f, d, t)) => {
                    match d.checked_add(1) {
                        Some(e) => (f, e, t),
                        None => {
                            return None;
                        },
                    }
                },
                None => {
                    return None;
                },
            }
        } else {
            (1, 0, nodes[child].size)
        };
        match (files.checked_add(f), dirs.checked_add(d), total.checked_add(t)) {
            (Some(f2), Some(d2), Some(t2)) => {
                files = f2;
                dirs = d2;
                total = t2;
            },
            _ => {
                return None;
            },
        }
        k = k + 1;
    }
    Some((files, dirs, total))
}

/// Count the files and subdirectories below node `idx`, and the size of the files.
pub fn subtree_stats(nodes: &Vec<Node>, idx: usize) -> (stats: (usize, usize, u64))
    requires
        links_down(nodes@),
        idx < nodes@.len(),
        stats_fit(stats_below(nodes@, idx as int)),
    ensures
        stats.0 == stats_below(nodes@, idx as int).files,
        stats.1 == stats_below(nodes@, idx as int).dirs,
        stats.2 == stats_below(nodes@, idx as int).total,
{
    match checked_stats(nodes, idx) {
        Some(stats) => stats,
        None => (0, 0, 0),
    }
}

/// The nodes that a list of indices names.
pub open spec fn as_nodes(list: Seq<usize>) -> Seq<int> {
    Seq::new(list.len(), |i: int| list[i] as int)
}

/// Append the files below node `idx`.
pub fn list_files(nodes: &Vec<Node>, idx: usize, out: &mut Vec<usize>)
    requires
        links_down(nodes@),
        idx < nodes@.len(),
        forall|i: int| 0 <= i < old(out)@.len() ==> #[trigger] old(out)@[i] < nodes@.len(),
    ensures
        as_nodes(final(out)@) == as_nodes(old(out)@) + files_below(nodes@, idx as int),
        forall|i: int| 0 <= i < final(out)@.len() ==> #[trigger] final(out)@[i] < nodes@.len(),
    decreases nodes@.len() - idx,
{
    let len: usize = nodes[idx].children.len();
    let mut k: usize = 0;
    assert(as_nodes(out@) =~= as_nodes(old(out)@) + files_upto(nodes@, idx as int, 0));
    while k < len
        invariant
            k <= len,
            idx < nodes@.len(),
            len == nodes@[idx as int].children@.len(),
            links_down(nodes@),
            as_nodes(out@) == as_nodes(old(out)@) + files_upto(nodes@, idx as int, k as int),
            forall|i: int| 0 <= i < out@.len() ==> #[trigger] out@[i] < nodes@.len(),
        decreases len - k,
    {
        let child: usize = nodes[idx].children[k];
        let ghost before = as_nodes(out@);
        if nodes[child].is_dir {
            list_files(nodes, child, out);
        } else {
            out.push(child);
            assert(as_nodes(out@) =~= before.push(child as int));
        }
        k = k + 1;
        assert(as_nodes(out@) =~= as_nodes(old(out)@) + files_upto(nodes@, idx as int, k as int));
    }
}

} // verus!
