//! What holds of every tree.

use super::order::{lemma_text_asymmetric, lemma_text_prefix, text_before};
use super::subtree::{files_upto, lemma_tree_links_down, stats_below, stats_upto, Stats};
use super::tree::{
    child_before, children_in_order, is_tree, keys_of, last_with, lemma_last_with,
    lemma_parent_above, parent_of, path_order, paths_of, shows_entries, shows_entry, Node,
};
use crate::fs::Entry;
use crate::path::{
    base_name, law_path_parts, lemma_slash_before, parent_path, slash_before, starts_below,
};
use crate::text::lowercase;
use vstd::prelude::*;
use vstd::set_lib::{lemma_int_range, lemma_len_subset, lemma_set_disjoint_lens, set_int_range};

verus! {

/// Every node but the root is listed by a node before it.
pub proof fn law_node_is_listed(nodes: Seq<Node>, c: usize)
    requires
        is_tree(nodes),
        1 <= c < nodes.len(),
    ensures
        0 <= parent_of(paths_of(nodes), c as int) < c,
        nodes[parent_of(paths_of(nodes), c as int)].children@.contains(c),
{
    lemma_parent_above(nodes, c as int);
}

/// No node is listed twice, neither by two nodes nor by one.
pub proof fn law_node_is_listed_once(nodes: Seq<Node>, p: int, i: int, q: int, j: int)
    requires
        is_tree(nodes),
        0 <= p < nodes.len(),
        0 <= q < nodes.len(),
        0 <= i < nodes[p].children@.len(),
        0 <= j < nodes[q].children@.len(),
        nodes[p].children@[i] == nodes[q].children@[j],
    ensures
        p == q,
        i == j,
{
    let c = nodes[p].children@[i];
    assert(nodes[p].children@.contains(c));
    assert(nodes[q].children@.contains(c));
    let list = nodes[p].children@;
    assert(children_in_order(keys_of(nodes), list));
    if i != j {
        let (a, b) = if i < j {
            (i, j)
        } else {
            (j, i)
        };
        assert(child_before(keys_of(nodes), list[a] as int, list[b] as int) || list[a] < list[b]);
        lemma_text_asymmetric(
            lowercase(nodes[c as int].name@),
            lowercase(nodes[c as int].name@),
        );
    }
}

/// Among siblings no file comes before a directory.
pub proof fn law_directories_first(nodes: Seq<Node>, p: int, i: int, j: int)
    requires
        is_tree(nodes),
        0 <= p < nodes.len(),
        0 <= i < j < nodes[p].children@.len(),
        nodes[nodes[p].children@[j] as int].is_dir,
    ensures
        nodes[nodes[p].children@[i] as int].is_dir,
{
    let list = nodes[p].children@;
    assert(children_in_order(keys_of(nodes), list));
    assert(list.contains(list[i]) && list.contains(list[j]));
}

/// A node hangs under the entry that its path names as its parent, wherever there is one.
pub proof fn law_parent_is_found(
    entries: Seq<Entry>,
    order: Seq<usize>,
    nodes: Seq<Node>,
    c: int,
    q: int,
)
    requires
        is_tree(nodes),
        path_order(entries, order),
        shows_entries(entries, order, nodes),
        1 <= c < nodes.len(),
        1 <= q < nodes.len(),
        slash_before(nodes[c].path@, nodes[c].path@.len() as int) >= 0,
        nodes[q].path@ == parent_path(nodes[c].path@),
    ensures
        nodes[parent_of(paths_of(nodes), c)].path@ == parent_path(nodes[c].path@),
{
    let s = nodes[c].path@;
    let parent = parent_path(s);
    let rest = seq!['/'] + base_name(s);
    law_path_parts(s);
    assert(s =~= parent + rest);
    lemma_text_prefix(parent, rest);
    assert(shows_entry(entries[order[c - 1] as int], nodes[c]));
    assert(shows_entry(entries[order[q - 1] as int], nodes[q]));
    lemma_text_asymmetric(parent, s);
    if q > c {
        assert(text_before(s, parent) || s == parent);
    }
    assert(q != c);
    let paths = paths_of(nodes);
    lemma_last_with(paths, c, parent);
    assert(paths[q] == parent);
}

/// A node that hangs under a node other than the root has a path that continues the
/// path of that node with a slash, unless that path is empty.
pub proof fn law_path_continues(nodes: Seq<Node>, c: int)
    requires
        is_tree(nodes),
        1 <= c < nodes.len(),
        parent_of(paths_of(nodes), c) >= 1,
        nodes[parent_of(paths_of(nodes), c)].path@.len() > 0,
    ensures
        nodes[c].path@ == nodes[parent_of(paths_of(nodes), c)].path@ + seq!['/'] + base_name(
            nodes[c].path@,
        ),
{
    let paths = paths_of(nodes);
    let p = parent_of(paths, c);
    lemma_parent_above(nodes, c);
    lemma_found_above_root(paths, c, parent_path(paths[c]));
    assert(paths[p] == nodes[p].path@);
    law_path_parts(nodes[c].path@);
    lemma_slash_before(nodes[c].path@, nodes[c].path@.len() as int);
}

/// What [`last_with`] finds, unless it is the root.
proof fn lemma_found_above_root(paths: Seq<Seq<char>>, to: int, path: Seq<char>)
    requires
        0 <= to <= paths.len(),
        last_with(paths, to, path) >= 1,
    ensures
        paths[last_with(paths, to, path)] == path,
    decreases to,
{
    if to > 0 && paths[to - 1] != path {
        lemma_found_above_root(paths, to - 1, path);
    }
}

/// The path of every file below a directory continues the path of the directory.
pub proof fn law_files_start_below(nodes: Seq<Node>, idx: int, k: int, top: int)
    requires
        is_tree(nodes),
        1 <= top <= idx < nodes.len(),
        nodes[top].path@.len() > 0,
        idx == top || starts_below(nodes[idx].path@, nodes[top].path@),
        0 <= k <= nodes[idx].children@.len(),
    ensures
        forall|i: int|
            #![trigger files_upto(nodes, idx, k)[i]]
            0 <= i < files_upto(nodes, idx, k).len() ==> idx < files_upto(nodes, idx, k)[i]
                < nodes.len() && starts_below(
                nodes[files_upto(nodes, idx, k)[i]].path@,
                nodes[top].path@,
            ),
    decreases nodes.len() - idx, k,
{
    lemma_tree_links_down(nodes);
    if k > 0 {
        law_files_start_below(nodes, idx, k - 1, top);
        let c = nodes[idx].children@[k - 1];
        assert(nodes[idx].children@.contains(c));
        law_path_continues(nodes, c as int);
        let dir = nodes[top].path@;
        let path = nodes[c as int].path@;
        assert(path.take(dir.len() as int) =~= nodes[idx].path@.take(dir.len() as int));
        assert(nodes[idx].path@.take(dir.len() as int) =~= dir);
        assert(starts_below(path, dir));
        if nodes[c as int].is_dir {
            let n = nodes[c as int].children@.len() as int;
            law_files_start_below(nodes, c as int, n, top);
            let a = files_upto(nodes, idx, k - 1);
            let b = files_upto(nodes, c as int, n);
            assert forall|i: int|
                #![trigger files_upto(nodes, idx, k)[i]]
                0 <= i < files_upto(nodes, idx, k).len() implies idx < files_upto(nodes, idx, k)[i]
                < nodes.len() && starts_below(
                nodes[files_upto(nodes, idx, k)[i]].path@,
                nodes[top].path@,
            ) by {
                if i < a.len() {
                    assert(files_upto(nodes, idx, k)[i] == a[i]);
                } else {
                    assert(files_upto(nodes, idx, k)[i] == b[i - a.len()]);
                }
            }
        } else {
            let a = files_upto(nodes, idx, k - 1);
            assert forall|i: int|
                #![trigger files_upto(nodes, idx, k)[i]]
                0 <= i < files_upto(nodes, idx, k).len() implies idx < files_upto(nodes, idx, k)[i]
                < nodes.len() && starts_below(
                nodes[files_upto(nodes, idx, k)[i]].path@,
                nodes[top].path@,
            ) by {
                if i < a.len() {
                    assert(files_upto(nodes, idx, k)[i] == a[i]);
                }
            }
        }
    }
}

/// Whether the way up from `x` comes to `a`.
spec fn hangs_under(nodes: Seq<Node>, x: int, a: int) -> bool
    decreases x,
{
    x == a || (a < x < nodes.len() && 0 <= parent_of(paths_of(nodes), x) < x && hangs_under(
        nodes,
        parent_of(paths_of(nodes), x),
        a,
    ))
}

/// The way up from a node passes the higher of two nodes after the lower.
proof fn lemma_one_way_up(nodes: Seq<Node>, x: int, a: int, b: int)
    requires
        hangs_under(nodes, x, a),
        hangs_under(nodes, x, b),
        a <= b,
    ensures
        hangs_under(nodes, b, a),
    decreases x,
{
    if x != b && x != a {
        lemma_one_way_up(nodes, parent_of(paths_of(nodes), x), a, b);
    }
}

/// The nodes that [`stats_upto`] counts.
spec fn counted(nodes: Seq<Node>, idx: int, k: int) -> Set<int>
    decreases nodes.len() - idx, k,
{
    if k <= 0 {
        Set::empty()
    } else {
        let c = nodes[idx].children@[k - 1] as int;
        if !(idx < c < nodes.len()) {
            counted(nodes, idx, k - 1)
        } else if nodes[c].is_dir {
            counted(nodes, idx, k - 1) + counted(nodes, c, nodes[c].children@.len() as int).insert(
                c,
            )
        } else {
            counted(nodes, idx, k - 1).insert(c)
        }
    }
}

/// What is counted lies below the children, and as much as [`stats_upto`] says.
proof fn lemma_counted(nodes: Seq<Node>, idx: int, k: int)
    requires
        is_tree(nodes),
        0 <= idx < nodes.len(),
        0 <= k <= nodes[idx].children@.len(),
    ensures
        counted(nodes, idx, k).finite(),
        counted(nodes, idx, k).len() == stats_upto(nodes, idx, k).files + stats_upto(
            nodes,
            idx,
            k,
        ).dirs,
        forall|x: int| #[trigger]
            counted(nodes, idx, k).contains(x) ==> idx < x < nodes.len() && exists|i: int|
                0 <= i < k && hangs_under(nodes, x, #[trigger] nodes[idx].children@[i] as int),
    decreases nodes.len() - idx, k, 1int,
{
    if k > 0 {
        lemma_tree_links_down(nodes);
        lemma_counted(nodes, idx, k - 1);
        lemma_counted_apart(nodes, idx, k);
        let before = counted(nodes, idx, k - 1);
        let list = nodes[idx].children@;
        let c = list[k - 1] as int;
        let inside = if nodes[c].is_dir {
            counted(nodes, c, nodes[c].children@.len() as int)
        } else {
            Set::empty()
        };
        let added = inside.insert(c);
        if nodes[c].is_dir {
            lemma_counted(nodes, c, nodes[c].children@.len() as int);
        }
        assert forall|x: int| #[trigger] added.contains(x) implies c <= x < nodes.len()
            && hangs_under(nodes, x, c) by {
            lemma_added_hangs(nodes, c, x);
        }
        assert(before.disjoint(added));
        lemma_set_disjoint_lens(before, added);
        assert(before.insert(c) =~= before + Set::empty().insert(c));
        assert(counted(nodes, idx, k) =~= before + added);
        assert forall|x: int| #[trigger] counted(nodes, idx, k).contains(x) implies idx < x
            < nodes.len() && exists|i: int|
            0 <= i < k && hangs_under(nodes, x, #[trigger] nodes[idx].children@[i] as int) by {
            if added.contains(x) {
                assert(hangs_under(nodes, x, list[k - 1] as int));
            } else {
                let i = choose|i: int|
                    0 <= i < k - 1 && hangs_under(nodes, x, #[trigger] list[i] as int);
                assert(hangs_under(nodes, x, list[i] as int));
            }
        }
    }
}

/// What hangs under a node hangs under its parent.
proof fn lemma_hangs_through(nodes: Seq<Node>, x: int, d: int, c: int)
    requires
        hangs_under(nodes, x, d),
        0 <= c < d < nodes.len(),
        parent_of(paths_of(nodes), d) == c,
    ensures
        hangs_under(nodes, x, c),
    decreases x,
{
    if x == d {
        reveal_with_fuel(hangs_under, 2);
    } else {
        lemma_hangs_through(nodes, parent_of(paths_of(nodes), x), d, c);
    }
}

/// What is counted with a child hangs under it.
proof fn lemma_added_hangs(nodes: Seq<Node>, c: int, x: int)
    requires
        is_tree(nodes),
        0 <= c < nodes.len(),
        x == c || (nodes[c].is_dir && counted(
            nodes,
            c,
            nodes[c].children@.len() as int,
        ).contains(x)),
    ensures
        c <= x < nodes.len(),
        hangs_under(nodes, x, c),
    decreases nodes.len() - c, nodes[c].children@.len() as int, 2int,
{
    if x != c {
        let n = nodes[c].children@.len() as int;
        lemma_tree_links_down(nodes);
        lemma_counted(nodes, c, n);
        let i = choose|i: int|
            0 <= i < n && hangs_under(nodes, x, #[trigger] nodes[c].children@[i] as int);
        let d = nodes[c].children@[i];
        assert(nodes[c].children@.contains(d));
        lemma_hangs_through(nodes, x, d as int, c);
    }
}

/// What lies below a child is not counted with the children before it.
proof fn lemma_counted_apart(nodes: Seq<Node>, idx: int, k: int)
    requires
        is_tree(nodes),
        0 <= idx < nodes.len(),
        0 < k <= nodes[idx].children@.len(),
    ensures
        ({
            let c = nodes[idx].children@[k - 1] as int;
            let inside = if nodes[c].is_dir {
                counted(nodes, c, nodes[c].children@.len() as int)
            } else {
                Set::empty()
            };
            counted(nodes, idx, k - 1).disjoint(inside.insert(c))
        }),
    decreases nodes.len() - idx, k, 0int,
{
    lemma_tree_links_down(nodes);
    lemma_counted(nodes, idx, k - 1);
    let before = counted(nodes, idx, k - 1);
    let list = nodes[idx].children@;
    let c = list[k - 1] as int;
    let inside = if nodes[c].is_dir {
        counted(nodes, c, nodes[c].children@.len() as int)
    } else {
        Set::empty()
    };
    let added = inside.insert(c);
    assert forall|x: int| #[trigger] added.contains(x) implies hangs_under(nodes, x, c) by {
        lemma_added_hangs(nodes, c, x);
    }
    assert forall|x: int| #[trigger] before.contains(x) implies !added.contains(x) by {
        if added.contains(x) {
            let i = choose|i: int|
                0 <= i < k - 1 && hangs_under(nodes, x, #[trigger] list[i] as int);
            let d = list[i] as int;
            assert(list.contains(list[i]));
            assert(list.contains(list[k - 1]));
            if d <= c {
                lemma_one_way_up(nodes, x, d, c);
            } else {
                lemma_one_way_up(nodes, x, c, d);
            }
            if d == c {
                law_node_is_listed_once(nodes, idx, i, idx, k - 1);
            }
            reveal_with_fuel(hangs_under, 3);
        }
    }
}

/// Nothing is counted twice: below a node there are fewer files and directories than
/// nodes after it.
pub proof fn law_counts_are_bounded(nodes: Seq<Node>, idx: int, k: int)
    requires
        is_tree(nodes),
        0 <= idx < nodes.len(),
        0 <= k <= nodes[idx].children@.len(),
    ensures
        stats_upto(nodes, idx, k).files + stats_upto(nodes, idx, k).dirs <= nodes.len() - 1 - idx,
{
    lemma_counted(nodes, idx, k);
    lemma_int_range(idx + 1, nodes.len() as int);
    assert(counted(nodes, idx, k).subset_of(set_int_range(idx + 1, nodes.len() as int)));
    lemma_len_subset(counted(nodes, idx, k), set_int_range(idx + 1, nodes.len() as int));
}

/// Two lists of the same things in the same strict order are the same list.
proof fn lemma_order_is_unique(
    s: Seq<usize>,
    t: Seq<usize>,
    before: spec_fn(usize, usize) -> bool,
    k: int,
)
    requires
        forall|x: usize| #[trigger] s.contains(x) <==> t.contains(x),
        forall|x: usize, y: usize| #[trigger] before(x, y) ==> !before(y, x),
        forall|i: int, j: int|
            #![trigger s[i], s[j]]
            0 <= i < j < s.len() ==> before(s[i], s[j]),
        forall|i: int, j: int|
            #![trigger t[i], t[j]]
            0 <= i < j < t.len() ==> before(t[i], t[j]),
        0 <= k <= s.len(),
    ensures
        k <= t.len(),
        s.take(k) == t.take(k),
    decreases k,
{
    if k > 0 {
        lemma_order_is_unique(s, t, before, k - 1);
        let x = s[k - 1];
        assert(s.contains(x));
        let m = choose|m: int| 0 <= m < t.len() && t[m] == x;
        assert forall|i: int| 0 <= i < k - 1 implies #[trigger] s[i] == t[i] by {
            assert(s.take(k - 1)[i] == t.take(k - 1)[i]);
        }
        if m < k - 1 {
            assert(before(s[m], s[k - 1]));
            assert(s[m] == t[m]);
        }
        let y = t[k - 1];
        assert(t.contains(y));
        assert(s.contains(y));
        if x != y {
            let n = choose|n: int| 0 <= n < s.len() && s[n] == y;
            if n < k - 1 {
                assert(s[n] == t[n]);
                assert(before(t[n], t[k - 1]));
            }
            assert(before(s[k - 1], s[n]));
            assert(before(t[k - 1], t[m]));
        }
        assert(s.take(k) =~= t.take(k));
    }
}

/// Two lists of the same things in the same strict order are the same list.
proof fn lemma_lists_are_equal(
    s: Seq<usize>,
    t: Seq<usize>,
    before: spec_fn(usize, usize) -> bool,
)
    requires
        forall|x: usize| #[trigger] s.contains(x) <==> t.contains(x),
        forall|x: usize, y: usize| #[trigger] before(x, y) ==> !before(y, x),
        forall|i: int, j: int|
            #![trigger s[i], s[j]]
            0 <= i < j < s.len() ==> before(s[i], s[j]),
        forall|i: int, j: int|
            #![trigger t[i], t[j]]
            0 <= i < j < t.len() ==> before(t[i], t[j]),
    ensures
        s == t,
{
    lemma_order_is_unique(s, t, before, s.len() as int);
    lemma_order_is_unique(t, s, before, t.len() as int);
    assert(s =~= s.take(s.len() as int));
    assert(t =~= t.take(t.len() as int));
}

/// Whether two nodes show the same and hold the same children.
pub open spec fn same_node(a: Node, b: Node) -> bool {
    &&& a.name@ == b.name@
    &&& a.path@ == b.path@
    &&& a.is_dir == b.is_dir
    &&& a.size == b.size
    &&& a.children@ == b.children@
}

/// A list of entries has one tree.
pub proof fn law_tree_is_determined(
    entries: Seq<Entry>,
    order: Seq<usize>,
    a: Seq<Node>,
    other: Seq<usize>,
    b: Seq<Node>,
)
    requires
        is_tree(a),
        path_order(entries, order),
        shows_entries(entries, order, a),
        is_tree(b),
        path_order(entries, other),
        shows_entries(entries, other, b),
    ensures
        a.len() == b.len(),
        forall|i: int| 0 <= i < a.len() ==> same_node(#[trigger] a[i], b[i]),
{
    let by_path = |x: usize, y: usize|
        text_before(entries[x as int].path@, entries[y as int].path@) || (entries[x as int].path@
            == entries[y as int].path@ && x < y);
    assert forall|x: usize, y: usize| #[trigger] by_path(x, y) implies !by_path(y, x) by {
        lemma_text_asymmetric(entries[x as int].path@, entries[y as int].path@);
        lemma_text_asymmetric(entries[x as int].path@, entries[x as int].path@);
    }
    lemma_lists_are_equal(order, other, by_path);
    assert forall|i: int| 0 <= i < a.len() implies (#[trigger] a[i]).name@ == b[i].name@
        && a[i].path@ == b[i].path@ && a[i].is_dir == b[i].is_dir && a[i].size == b[i].size by {
        if i > 0 {
            assert(shows_entry(entries[order[i - 1] as int], a[i]));
            assert(shows_entry(entries[other[i - 1] as int], b[i]));
        } else {
            assert(a[0].path@ =~= b[0].path@);
        }
    }
    assert(paths_of(a) =~= paths_of(b));
    assert forall|i: int| 0 <= i < a.len() implies same_node(#[trigger] a[i], b[i]) by {
        lemma_children_are_equal(a, b, i);
    }
}

/// Nodes that show the same in trees of the same paths hold the same children.
proof fn lemma_children_are_equal(a: Seq<Node>, b: Seq<Node>, p: int)
    requires
        is_tree(a),
        is_tree(b),
        a.len() == b.len(),
        paths_of(a) == paths_of(b),
        forall|i: int|
            0 <= i < a.len() ==> (#[trigger] a[i]).name@ == b[i].name@ && a[i].is_dir
                == b[i].is_dir,
        0 <= p < a.len(),
    ensures
        a[p].children@ == b[p].children@,
{
    let s = a[p].children@;
    let t = b[p].children@;
    let keys = keys_of(a);
    assert(keys =~= keys_of(b));
    let shown = |x: usize, y: usize|
        child_before(keys, x as int, y as int) || (!child_before(keys, y as int, x as int) && x
            < y);
    assert forall|x: usize, y: usize| #[trigger] shown(x, y) implies !shown(y, x) by {
        lemma_text_asymmetric(keys[x as int].1, keys[y as int].1);
    }
    assert(children_in_order(keys, s));
    assert(children_in_order(keys, t));
    assert forall|x: usize| #[trigger] s.contains(x) <==> t.contains(x) by {
        assert(a[p].children@.contains(x) <==> b[p].children@.contains(x));
    }
    lemma_lists_are_equal(s, t, shown);
}

/// What one file or directory adds to the counts.
pub open spec fn one_more(is_dir: bool, size: u64) -> Stats {
    if is_dir {
        Stats { files: 0, dirs: 1, total: 0 }
    } else {
        Stats { files: 1, dirs: 0, total: size as nat }
    }
}

/// Two counts together.
pub open spec fn stats_sum(a: Stats, b: Stats) -> Stats {
    Stats { files: a.files + b.files, dirs: a.dirs + b.dirs, total: a.total + b.total }
}

/// The counts of a list of entries: its files, its directories, and the size of the
/// files.
pub open spec fn entry_stats(entries: Seq<Entry>) -> Stats
    decreases entries.len(),
{
    if entries.len() == 0 {
        Stats { files: 0, dirs: 0, total: 0 }
    } else {
        stats_sum(
            entry_stats(entries.drop_last()),
            one_more(entries.last().is_dir, entries.last().size),
        )
    }
}

/// The sum of what those in `chosen` below `to` add.
spec fn tally(each: spec_fn(int) -> Stats, chosen: Set<int>, to: int) -> Stats
    decreases to,
{
    if to <= 0 {
        Stats { files: 0, dirs: 0, total: 0 }
    } else if chosen.contains(to - 1) {
        stats_sum(tally(each, chosen, to - 1), each(to - 1))
    } else {
        tally(each, chosen, to - 1)
    }
}

/// Those in one of two sets, which have nothing in common, add what both add.
proof fn lemma_tally_union(each: spec_fn(int) -> Stats, a: Set<int>, b: Set<int>, to: int)
    requires
        a.disjoint(b),
    ensures
        tally(each, a + b, to) == stats_sum(tally(each, a, to), tally(each, b, to)),
    decreases to,
{
    if to > 0 {
        lemma_tally_union(each, a, b, to - 1);
    }
}

/// None in the set, nothing to add.
proof fn lemma_tally_none(each: spec_fn(int) -> Stats, chosen: Set<int>, to: int)
    requires
        forall|x: int| 0 <= x < to ==> !#[trigger] chosen.contains(x),
    ensures
        tally(each, chosen, to) == (Stats { files: 0, dirs: 0, total: 0 }),
    decreases to,
{
    if to > 0 {
        assert(!chosen.contains(to - 1));
        lemma_tally_none(each, chosen, to - 1);
    }
}

/// One more in the set adds what it adds.
proof fn lemma_tally_insert(each: spec_fn(int) -> Stats, chosen: Set<int>, x: int, to: int)
    requires
        !chosen.contains(x),
        0 <= x < to,
    ensures
        tally(each, chosen.insert(x), to) == stats_sum(tally(each, chosen, to), each(x)),
    decreases to,
{
    if x == to - 1 {
        lemma_tally_same(each, chosen, chosen.insert(x), to - 1);
    } else {
        lemma_tally_insert(each, chosen, x, to - 1);
    }
}

/// Only those below `to` matter.
proof fn lemma_tally_same(each: spec_fn(int) -> Stats, a: Set<int>, b: Set<int>, to: int)
    requires
        forall|x: int| 0 <= x < to ==> (#[trigger] a.contains(x) <==> b.contains(x)),
    ensures
        tally(each, a, to) == tally(each, b, to),
    decreases to,
{
    if to > 0 {
        assert(a.contains(to - 1) <==> b.contains(to - 1));
        lemma_tally_same(each, a, b, to - 1);
    }
}

/// What each node adds.
spec fn of_nodes(nodes: Seq<Node>) -> spec_fn(int) -> Stats {
    |x: int| one_more(nodes[x].is_dir, nodes[x].size)
}

/// The counts of [`stats_upto`] are those of the nodes that it counts.
proof fn lemma_counted_tally(nodes: Seq<Node>, idx: int, k: int)
    requires
        is_tree(nodes),
        0 <= idx < nodes.len(),
        0 <= k <= nodes[idx].children@.len(),
    ensures
        tally(of_nodes(nodes), counted(nodes, idx, k), nodes.len() as int) == stats_upto(
            nodes,
            idx,
            k,
        ),
    decreases nodes.len() - idx, k,
{
    let each = of_nodes(nodes);
    let to = nodes.len() as int;
    if k <= 0 {
        lemma_tally_none(each, Set::empty(), to);
    } else {
        lemma_tree_links_down(nodes);
        lemma_counted_tally(nodes, idx, k - 1);
        let before = counted(nodes, idx, k - 1);
        let c = nodes[idx].children@[k - 1] as int;
        lemma_counted_apart(nodes, idx, k);
        if nodes[c].is_dir {
            let n = nodes[c].children@.len() as int;
            let inside = counted(nodes, c, n);
            lemma_counted(nodes, c, n);
            lemma_counted_tally(nodes, c, n);
            lemma_tally_insert(each, inside, c, to);
            lemma_tally_union(each, before, inside.insert(c), to);
        } else {
            lemma_tally_insert(each, before, c, to);
        }
    }
}

/// The first `k` children are counted.
proof fn lemma_child_is_counted(nodes: Seq<Node>, idx: int, k: int, i: int)
    requires
        is_tree(nodes),
        0 <= idx < nodes.len(),
        0 <= i < k <= nodes[idx].children@.len(),
    ensures
        counted(nodes, idx, k).contains(nodes[idx].children@[i] as int),
    decreases k,
{
    lemma_tree_links_down(nodes);
    if i < k - 1 {
        lemma_child_is_counted(nodes, idx, k - 1, i);
    }
}

/// What hangs under a directory that is counted is counted with it.
proof fn lemma_counted_goes_on(nodes: Seq<Node>, idx: int, k: int, p: int, x: usize)
    requires
        is_tree(nodes),
        0 <= idx < nodes.len(),
        0 <= k <= nodes[idx].children@.len(),
        counted(nodes, idx, k).contains(p),
        0 <= p < nodes.len(),
        nodes[p].is_dir,
        nodes[p].children@.contains(x),
    ensures
        counted(nodes, idx, k).contains(x as int),
    decreases nodes.len() - idx, k,
{
    lemma_tree_links_down(nodes);
    let c = nodes[idx].children@[k - 1] as int;
    if counted(nodes, idx, k - 1).contains(p) {
        lemma_counted_goes_on(nodes, idx, k - 1, p, x);
    } else if p == c {
        let i = choose|i: int| 0 <= i < nodes[c].children@.len() && nodes[c].children@[i] == x;
        lemma_child_is_counted(nodes, c, nodes[c].children@.len() as int, i);
    } else {
        lemma_counted_goes_on(nodes, c, nodes[c].children@.len() as int, p, x);
    }
}

/// Where only directories hold anything, every node is counted below the root.
proof fn lemma_all_are_counted(nodes: Seq<Node>, x: int)
    requires
        is_tree(nodes),
        1 <= x < nodes.len() <= usize::MAX,
        forall|c: int|
            1 <= c < nodes.len() ==> nodes[#[trigger] parent_of(paths_of(nodes), c)].is_dir,
    ensures
        counted(nodes, 0, nodes[0].children@.len() as int).contains(x),
    decreases x,
{
    let p = parent_of(paths_of(nodes), x);
    let n = nodes[0].children@.len() as int;
    lemma_parent_above(nodes, x);
    assert(nodes[p].children@.contains(x as usize));
    if p == 0 {
        let i = choose|i: int| 0 <= i < n && nodes[0].children@[i] == x as usize;
        lemma_child_is_counted(nodes, 0, n, i);
    } else {
        lemma_all_are_counted(nodes, p);
        lemma_counted_goes_on(nodes, 0, n, p, x as usize);
    }
}

/// What each entry adds.
spec fn of_entries(entries: Seq<Entry>) -> spec_fn(int) -> Stats {
    |x: int| one_more(entries[x].is_dir, entries[x].size)
}

/// The indices that come first in an order.
spec fn first_in(order: Seq<usize>, k: int) -> Set<int> {
    Set::new(|x: int| exists|i: int| 0 <= i < k && #[trigger] order[i] == x)
}

/// All nodes but the root, up to the `k`-th, add what their entries add.
proof fn lemma_nodes_add_entries(
    entries: Seq<Entry>,
    order: Seq<usize>,
    nodes: Seq<Node>,
    k: int,
)
    requires
        path_order(entries, order),
        shows_entries(entries, order, nodes),
        0 <= k <= entries.len(),
    ensures
        tally(of_nodes(nodes), Set::new(|x: int| x >= 1), k + 1) == tally(
            of_entries(entries),
            first_in(order, k),
            entries.len() as int,
        ),
    decreases k,
{
    let each = of_entries(entries);
    let n = entries.len() as int;
    reveal_with_fuel(tally, 2);
    if k == 0 {
        lemma_tally_none(each, first_in(order, 0), n);
    } else {
        lemma_nodes_add_entries(entries, order, nodes, k - 1);
        let x = order[k - 1] as int;
        let before = first_in(order, k - 1);
        assert(order.contains(order[k - 1]));
        assert(shows_entry(entries[x], nodes[k]));
        assert(!before.contains(x)) by {
            if before.contains(x) {
                let i = choose|i: int| 0 <= i < k - 1 && #[trigger] order[i] == x;
                lemma_text_asymmetric(entries[x].path@, entries[x].path@);
                assert(order[i] == order[k - 1]);
            }
        }
        assert(first_in(order, k) =~= before.insert(x)) by {
            assert forall|y: int| first_in(order, k).contains(y) <==> before.insert(x).contains(
                y,
            ) by {
                if first_in(order, k).contains(y) {
                    let i = choose|i: int| 0 <= i < k && #[trigger] order[i] == y;
                    if i < k - 1 {
                        assert(order[i] == y);
                    }
                }
                if before.contains(y) {
                    let i = choose|i: int| 0 <= i < k - 1 && #[trigger] order[i] == y;
                    assert(order[i] == y);
                }
                assert(order[k - 1] == x);
            }
        }
        lemma_tally_insert(each, before, x, n);
        assert(of_nodes(nodes)(k) == each(x));
    }
}

/// All entries add up to the counts of the list.
proof fn lemma_entries_add_up(entries: Seq<Entry>, k: int)
    requires
        0 <= k <= entries.len(),
    ensures
        tally(of_entries(entries), Set::full(), k) == entry_stats(entries.take(k)),
    decreases k,
{
    if k > 0 {
        lemma_entries_add_up(entries, k - 1);
        assert(entries.take(k).drop_last() =~= entries.take(k - 1));
    }
}

/// The counts of the root are those of the entries, wherever no entry names a file as
/// the directory that it lies in: each entry is counted once, as what it is.
pub proof fn law_root_counts_entries(entries: Seq<Entry>, order: Seq<usize>, nodes: Seq<Node>)
    requires
        is_tree(nodes),
        path_order(entries, order),
        shows_entries(entries, order, nodes),
        nodes.len() <= usize::MAX,
        forall|i: int, j: int|
            #![trigger entries[i], entries[j]]
            0 <= i < entries.len() && 0 <= j < entries.len() && parent_path(entries[i].path@)
                == entries[j].path@ ==> entries[j].is_dir,
    ensures
        stats_below(nodes, 0) == entry_stats(entries),
{
    let n = nodes[0].children@.len() as int;
    let all = counted(nodes, 0, n);
    let rest = Set::new(|x: int| x >= 1);
    let to = nodes.len() as int;
    let size = entries.len() as int;
    let paths = paths_of(nodes);
    assert forall|c: int| 1 <= c < nodes.len() implies nodes[#[trigger] parent_of(
        paths,
        c,
    )].is_dir by {
        let p = parent_of(paths, c);
        lemma_parent_above(nodes, c);
        if p > 0 {
            lemma_found_above_root(paths, c, parent_path(paths[c]));
            assert(shows_entry(entries[order[c - 1] as int], nodes[c]));
            assert(shows_entry(entries[order[p - 1] as int], nodes[p]));
            assert(order.contains(order[c - 1]) && order.contains(order[p - 1]));
            let (e, d) = (entries[order[c - 1] as int], entries[order[p - 1] as int]);
            assert(parent_path(e.path@) == d.path@);
        }
    }
    lemma_counted(nodes, 0, n);
    assert forall|x: int| 0 <= x < to implies (#[trigger] all.contains(x) <==> rest.contains(
        x,
    )) by {
        if x >= 1 {
            lemma_all_are_counted(nodes, x);
        }
    }
    lemma_counted_tally(nodes, 0, n);
    lemma_tally_same(of_nodes(nodes), all, rest, to);
    lemma_nodes_add_entries(entries, order, nodes, size);
    assert forall|x: int| 0 <= x < size implies (#[trigger] first_in(order, size).contains(x)
        <==> Set::<int>::full().contains(x)) by {
        assert(order.contains(x as usize));
        let i = choose|i: int| 0 <= i < order.len() && order[i] == x as usize;
        assert(order[i] == x);
    }
    lemma_tally_same(of_entries(entries), first_in(order, size), Set::full(), size);
    lemma_entries_add_up(entries, size);
    assert(entries.take(size) =~= entries);
}

} // verus!
