//! The tree that the browser shows, built from the flat list of a volume's entries.

use super::order::{
    lemma_text_asymmetric, lemma_text_not_before, lemma_text_total, text_before, text_less,
};
use super::sort::{comes_before, sort_indices, Ranked};
use crate::fs::Entry;
use crate::path::{base_name, parent_path, split_last};
use crate::text::lowercase;
use vstd::prelude::*;

verus! {

broadcast use vstd::string::group_string_axioms;

/// One node of the tree. Children are indices into the list of all nodes, so the
/// tree needs no lifetimes and no reference counts.
#[derive(Debug)]
pub struct Node {
    pub name: String,
    pub path: String,
    pub is_dir: bool,
    pub size: u64,
    pub children: Vec<usize>,
}

/// The paths of the nodes.
pub open spec fn paths_of(nodes: Seq<Node>) -> Seq<Seq<char>> {
    Seq::new(nodes.len(), |i: int| nodes[i].path@)
}

/// The last node before `to` whose path is `path`, or the root.
pub open spec fn last_with(paths: Seq<Seq<char>>, to: int, path: Seq<char>) -> int
    decreases to,
{
    if to <= 0 {
        0
    } else if paths[to - 1] == path {
        to - 1
    } else {
        last_with(paths, to - 1, path)
    }
}

/// The node that node `c` hangs under: the one that its path names as its parent, or
/// the root where no node before `c` has that path.
pub open spec fn parent_of(paths: Seq<Seq<char>>, c: int) -> int {
    last_with(paths, c, parent_path(paths[c]))
}

/// What decides where a node is shown among its siblings: whether it is a directory,
/// and the name that it is ordered by.
#[derive(Debug)]
pub struct SiblingKey {
    pub is_dir: bool,
    pub name: String,
}

impl View for SiblingKey {
    type V = (bool, Seq<char>);

    open spec fn view(&self) -> (bool, Seq<char>) {
        (self.is_dir, self.name@)
    }
}

/// What a list of keys holds.
pub open spec fn key_views(keys: Seq<SiblingKey>) -> Seq<(bool, Seq<char>)> {
    Seq::new(keys.len(), |i: int| keys[i]@)
}

/// The keys that nodes are shown by: upper and lower case are alike.
pub open spec fn keys_of(nodes: Seq<Node>) -> Seq<(bool, Seq<char>)> {
    Seq::new(nodes.len(), |i: int| (nodes[i].is_dir, lowercase(nodes[i].name@)))
}

/// Whether `a` is shown before `b` among siblings with these keys: directories first,
/// then by name.
pub open spec fn child_before(keys: Seq<(bool, Seq<char>)>, a: int, b: int) -> bool {
    if keys[a].0 == keys[b].0 {
        text_before(keys[a].1, keys[b].1)
    } else {
        keys[a].0
    }
}

/// Whether `children` are shown in the order of their keys; siblings that are level
/// keep the order of their indices.
pub open spec fn children_in_order(keys: Seq<(bool, Seq<char>)>, children: Seq<usize>) -> bool {
    forall|i: int, j: int|
        #![trigger children[i], children[j]]
        0 <= i < j < children.len() ==> child_before(keys, children[i] as int, children[j] as int)
            || (!child_before(keys, children[j] as int, children[i] as int) && children[i]
            < children[j])
}

/// Whether `nodes` are a tree: node 0 is the root, and every other node is listed,
/// once and in order, by the node that [`parent_of`] says it hangs under.
pub open spec fn is_tree(nodes: Seq<Node>) -> bool {
    &&& nodes.len() > 0
    &&& nodes[0].is_dir
    &&& nodes[0].path@.len() == 0
    &&& nodes[0].name@ == "/"@
    &&& forall|p: int, c: usize|
        0 <= p < nodes.len() ==> (#[trigger] nodes[p].children@.contains(c) <==> 1 <= c
            < nodes.len() && parent_of(paths_of(nodes), c as int) == p)
    &&& forall|p: int|
        0 <= p < nodes.len() ==> children_in_order(keys_of(nodes), #[trigger] nodes[p].children@)
}

/// Whether `order` lists all entries once, by path, and entries of the same path in
/// the order in which they were given.
pub open spec fn path_order(entries: Seq<Entry>, order: Seq<usize>) -> bool {
    &&& order.len() == entries.len()
    &&& forall|x: usize| #[trigger] order.contains(x) <==> x < entries.len()
    &&& forall|i: int, j: int|
        #![trigger order[i], order[j]]
        0 <= i < j < order.len() ==> {
            let a = entries[order[i] as int].path@;
            let b = entries[order[j] as int].path@;
            text_before(a, b) || (a == b && order[i] < order[j])
        }
}

/// Whether node `i + 1` shows the entry that comes `i`-th in `order`.
pub open spec fn shows_entries(entries: Seq<Entry>, order: Seq<usize>, nodes: Seq<Node>) -> bool {
    &&& nodes.len() == entries.len() + 1
    &&& nodes[0].size == 0
    &&& forall|i: int|
        0 <= i < entries.len() ==> shows_entry(entries[#[trigger] order[i] as int], nodes[i + 1])
}

/// Whether `node` shows `entry`.
pub open spec fn shows_entry(entry: Entry, node: Node) -> bool {
    &&& node.path@ == entry.path@
    &&& node.name@ == base_name(entry.path@)
    &&& node.is_dir == entry.is_dir
    &&& node.size == entry.size
}

/// Entries in the order of their paths.
struct ByPath<'a> {
    entries: &'a Vec<Entry>,
}

impl<'a> Ranked for ByPath<'a> {
    closed spec fn count(&self) -> nat {
        self.entries@.len()
    }

    closed spec fn ranks_before(&self, a: int, b: int) -> bool {
        text_before(self.entries@[a].path@, self.entries@[b].path@)
    }

    proof fn lemma_asymmetric(&self, a: int, b: int) {
        lemma_text_asymmetric(self.entries@[a].path@, self.entries@[b].path@);
    }

    proof fn lemma_not_before(&self, a: int, b: int, c: int) {
        lemma_text_not_before(
            self.entries@[a].path@,
            self.entries@[b].path@,
            self.entries@[c].path@,
        );
    }

    fn is_before(&self, a: usize, b: usize) -> (before: bool) {
        text_less(self.entries[a].path.as_str(), self.entries[b].path.as_str())
    }
}

/// Siblings in the order in which they are shown.
struct ByKey<'a> {
    keys: &'a Vec<SiblingKey>,
}

impl<'a> Ranked for ByKey<'a> {
    closed spec fn count(&self) -> nat {
        self.keys@.len()
    }

    closed spec fn ranks_before(&self, a: int, b: int) -> bool {
        child_before(key_views(self.keys@), a, b)
    }

    proof fn lemma_asymmetric(&self, a: int, b: int) {
        let keys = key_views(self.keys@);
        lemma_text_asymmetric(keys[a].1, keys[b].1);
    }

    proof fn lemma_not_before(&self, a: int, b: int, c: int) {
        let keys = key_views(self.keys@);
        if keys[a].0 == keys[b].0 && keys[b].0 == keys[c].0 {
            lemma_text_not_before(keys[a].1, keys[b].1, keys[c].1);
        }
    }

    fn is_before(&self, a: usize, b: usize) -> (before: bool) {
        if self.keys[a].is_dir == self.keys[b].is_dir {
            text_less(self.keys[a].name.as_str(), self.keys[b].name.as_str())
        } else {
            self.keys[a].is_dir
        }
    }
}

/// Sort the children of a node, whose indices are rising, by the keys of the nodes.
pub fn sort_children(keys: &Vec<SiblingKey>, children: &Vec<usize>) -> (sorted: Vec<usize>)
    requires
        forall|i: int| 0 <= i < children@.len() ==> #[trigger] children@[i] < keys@.len(),
        forall|i: int, j: int|
            0 <= i < j < children@.len() ==> #[trigger] children@[i] < #[trigger] children@[j],
    ensures
        children_in_order(key_views(keys@), sorted@),
        sorted@.len() == children@.len(),
        forall|x: usize| #[trigger] sorted@.contains(x) <==> children@.contains(x),
{
    let by_key: ByKey = ByKey { keys };
    let sorted: Vec<usize> = sort_indices(&by_key, children);
    proof {
        let list = sorted@;
        let views = key_views(keys@);
        assert forall|i: int, j: int|
            #![trigger list[i], list[j]]
            0 <= i < j < list.len() implies child_before(views, list[i] as int, list[j] as int)
            || (!child_before(views, list[j] as int, list[i] as int) && list[i] < list[j]) by {
            assert(comes_before(&by_key, list[i] as int, list[j] as int));
        }
    }
    sorted
}

/// [`last_with`] looks at the paths before `to` only.
proof fn lemma_last_with_prefix(p: Seq<Seq<char>>, q: Seq<Seq<char>>, to: int, path: Seq<char>)
    requires
        to <= p.len(),
        to <= q.len(),
        forall|k: int| 0 <= k < to ==> #[trigger] p[k] == q[k],
    ensures
        last_with(p, to, path) == last_with(q, to, path),
    decreases to,
{
    if to > 0 {
        lemma_last_with_prefix(p, q, to - 1, path);
    }
}

/// [`last_with`] finds a node with the path, or the root.
pub proof fn lemma_last_with(paths: Seq<Seq<char>>, to: int, path: Seq<char>)
    requires
        0 <= to <= paths.len(),
    ensures
        0 <= last_with(paths, to, path) < to || last_with(paths, to, path) == 0,
        forall|k: int|
            last_with(paths, to, path) < k < to ==> #[trigger] paths[k] != path,
        forall|k: int|
            0 <= k < to && #[trigger] paths[k] == path ==> paths[last_with(paths, to, path)]
                == path,
    decreases to,
{
    if to > 0 && paths[to - 1] != path {
        lemma_last_with(paths, to - 1, path);
    }
}

/// If nothing from `from` to `to` has the path, the search may start at `from`.
proof fn lemma_last_with_skip(paths: Seq<Seq<char>>, from: int, to: int, path: Seq<char>)
    requires
        0 <= from <= to <= paths.len(),
        forall|k: int| from <= k < to ==> #[trigger] paths[k] != path,
    ensures
        last_with(paths, to, path) == last_with(paths, from, path),
    decreases to,
{
    if to > from {
        lemma_last_with_skip(paths, from, to - 1, path);
    }
}

/// A node hangs under a node before it.
pub proof fn lemma_parent_above(nodes: Seq<Node>, c: int)
    requires
        1 <= c < nodes.len(),
    ensures
        0 <= parent_of(paths_of(nodes), c) < c,
{
    lemma_last_with(paths_of(nodes), c, parent_path(paths_of(nodes)[c]));
}

/// Whether the paths from node 1 on are in order.
spec fn rising(paths: Seq<Seq<char>>) -> bool {
    forall|i: int, j: int|
        1 <= i < j < paths.len() ==> !text_before(#[trigger] paths[j], #[trigger] paths[i])
}

/// Find the node that an entry whose parent is `path` hangs under.
fn find_parent(nodes: &Vec<Node>, path: &String) -> (parent: usize)
    requires
        nodes@.len() > 0,
        rising(paths_of(nodes@)),
    ensures
        parent == last_with(paths_of(nodes@), nodes@.len() as int, path@),
        parent < nodes@.len(),
{
    let ghost paths = paths_of(nodes@);
    // the nodes from 1 to low do not come after the path, those from high on do
    let mut low: usize = 1;
    let mut high: usize = nodes.len();
    while low < high
        invariant
            1 <= low <= high <= nodes@.len(),
            paths == paths_of(nodes@),
            rising(paths),
            forall|k: int| 1 <= k < low ==> !text_before(path@, #[trigger] paths[k]),
            forall|k: int| high <= k < paths.len() ==> text_before(path@, #[trigger] paths[k]),
        decreases high - low,
    {
        let mid: usize = low + (high - low) / 2;
        if text_less(path.as_str(), nodes[mid].path.as_str()) {
            proof {
                assert forall|k: int| mid <= k < paths.len() implies text_before(
                    path@,
                    #[trigger] paths[k],
                ) by {
                    if k > mid {
                        assert(!text_before(paths[k], paths[mid as int]));
                        if !text_before(path@, paths[k]) {
                            lemma_text_not_before(path@, paths[k], paths[mid as int]);
                        }
                    }
                }
            }
            high = mid;
        } else {
            proof {
                assert forall|k: int| 1 <= k < mid + 1 implies !text_before(
                    path@,
                    #[trigger] paths[k],
                ) by {
                    if k < mid {
                        assert(!text_before(paths[mid as int], paths[k]));
                        lemma_text_not_before(path@, paths[mid as int], paths[k]);
                    }
                }
            }
            low = mid + 1;
        }
    }
    proof {
        lemma_text_asymmetric(path@, path@);
        lemma_last_with_skip(paths, low as int, paths.len() as int, path@);
    }
    if low > 1 && nodes[low - 1].path == *path {
        low - 1
    } else {
        proof {
            assert forall|k: int| 1 <= k < low implies #[trigger] paths[k] != path@ by {
                if paths[k] == path@ {
                    lemma_text_total(path@, paths[low - 1]);
                    if k < low - 1 {
                        assert(!text_before(paths[low - 1], paths[k]));
                    }
                }
            }
            lemma_last_with_skip(paths, 1, low as int, path@);
            reveal_with_fuel(last_with, 2);
        }
        0
    }
}

/// Build the tree from a flat list of entries. Node 0 is the root, which no entry
/// stands for.
pub fn build_tree(entries: Vec<Entry>) -> (nodes: Vec<Node>)
    ensures
        is_tree(nodes@),
        exists|order: Seq<usize>| #[trigger]
            path_order(entries@, order) && shows_entries(entries@, order, nodes@),
{
    let by_path: ByPath = ByPath { entries: &entries };
    let total: usize = entries.len();
    let mut all: Vec<usize> = Vec::new();
    let mut k: usize = 0;
    while k < total
        invariant
            k <= total,
            all@.len() == k,
            forall|i: int| 0 <= i < k ==> #[trigger] all@[i] == i,
        decreases total - k,
    {
        all.push(k);
        k = k + 1;
    }
    let order: Vec<usize> = sort_indices(&by_path, &all);
    proof {
        assert forall|x: usize| #[trigger] order@.contains(x) <==> x < entries@.len() by {
            if x < entries@.len() {
                assert(all@[x as int] == x);
            }
        }
        assert forall|i: int, j: int|
            #![trigger order@[i], order@[j]]
            0 <= i < j < order@.len() implies ({
            let a = entries@[order@[i] as int].path@;
            let b = entries@[order@[j] as int].path@;
            text_before(a, b) || (a == b && order@[i] < order@[j])
        }) by {
            assert(comes_before(&by_path, order@[i] as int, order@[j] as int));
            lemma_text_total(
                entries@[order@[i] as int].path@,
                entries@[order@[j] as int].path@,
            );
        }
        assert(path_order(entries@, order@));
    }
    let mut nodes: Vec<Node> = Vec::new();
    nodes.push(
        Node {
            name: "/".to_owned(),
            path: String::new(),
            is_dir: true,
            size: 0,
            children: Vec::new(),
        },
    );
    let mut k: usize = 0;
    while k < total
        invariant
            k <= total,
            total == entries@.len(),
            path_order(entries@, order@),
            nodes@.len() == k + 1,
            nodes@[0].is_dir,
            nodes@[0].path@.len() == 0,
            nodes@[0].name@ == "/"@,
            nodes@[0].size == 0,
            rising(paths_of(nodes@)),
            forall|i: int|
                0 <= i < k ==> shows_entry(
                    entries@[#[trigger] order@[i] as int],
                    nodes@[i + 1],
                ),
            forall|p: int, c: usize|
                0 <= p < nodes@.len() ==> (#[trigger] nodes@[p].children@.contains(c) <==> 1 <= c
                    < nodes@.len() && parent_of(paths_of(nodes@), c as int) == p),
            forall|p: int, i: int, j: int|
                0 <= p < nodes@.len() && 0 <= i < j < nodes@[p].children@.len()
                    ==> #[trigger] nodes@[p].children@[i] < #[trigger] nodes@[p].children@[j],
        decreases total - k,
    {
        let ghost before = nodes@;
        assert(order@.contains(order@[k as int]));
        let entry: &Entry = &entries[order[k]];
        let (parent_name, name): (String, String) = split_last(entry.path.as_str());
        let parent: usize = find_parent(&nodes, &parent_name);
        let index: usize = nodes.len();
        nodes.push(
            Node {
                name,
                path: entry.path.clone(),
                is_dir: entry.is_dir,
                size: entry.size,
                children: Vec::new(),
            },
        );
        nodes[parent].children.push(index);
        proof {
            let p0 = paths_of(before);
            let p1 = paths_of(nodes@);
            assert(p1 =~= p0.push(entry.path@));
            lemma_last_with_prefix(p0, p1, index as int, parent_name@);
            assert(parent_of(p1, index as int) == parent);
            assert forall|c: usize| 1 <= c < index implies #[trigger] parent_of(p1, c as int)
                == parent_of(p0, c as int) by {
                lemma_last_with_prefix(p0, p1, c as int, parent_path(p0[c as int]));
            }
            assert forall|p: int, c: usize|
                0 <= p < nodes@.len() implies (#[trigger] nodes@[p].children@.contains(c) <==> 1
                <= c < nodes@.len() && parent_of(p1, c as int) == p) by {
                if c <= index {
                    lemma_last_with(p1, c as int, parent_path(p1[c as int]));
                }
                if p == index {
                    assert(nodes@[p].children@.len() == 0);
                    if c < index {
                        assert(parent_of(p1, c as int) == parent_of(p0, c as int));
                        lemma_last_with(p0, c as int, parent_path(p0[c as int]));
                    }
                } else {
                    let old_list = before[p].children@;
                    let new_list = nodes@[p].children@;
                    if p == parent {
                        assert(new_list == old_list.push(index));
                        if new_list.contains(c) {
                            let w = choose|w: int| 0 <= w < new_list.len() && new_list[w] == c;
                            if w < old_list.len() {
                                assert(old_list[w] == c);
                                assert(old_list.contains(c));
                            }
                        }
                        if old_list.contains(c) {
                            let w = choose|w: int| 0 <= w < old_list.len() && old_list[w] == c;
                            assert(new_list[w] == c);
                        }
                        assert(new_list[old_list.len() as int] == index);
                        assert(new_list.contains(index));
                    } else {
                        assert(new_list == old_list);
                    }
                    assert(old_list.contains(c) <==> 1 <= c < index && parent_of(p0, c as int)
                        == p);
                }
            }
            assert forall|p: int, i: int, j: int|
                0 <= p < nodes@.len() && 0 <= i < j < nodes@[p].children@.len() implies (
            #[trigger] nodes@[p].children@[i]) < (#[trigger] nodes@[p].children@[j]) by {
                if p < index {
                    let old_list = before[p].children@;
                    if p == parent {
                        assert(nodes@[p].children@ == old_list.push(index));
                        assert(old_list.contains(old_list[i]));
                    }
                }
            }
            assert forall|i: int, j: int| 1 <= i < j < p1.len() implies !text_before(
                #[trigger] p1[j],
                #[trigger] p1[i],
            ) by {
                if j == index {
                    let a = entries@[order@[i - 1] as int].path@;
                    let b = entries@[order@[k as int] as int].path@;
                    assert(shows_entry(entries@[order@[i - 1] as int], before[i]));
                    lemma_text_asymmetric(a, b);
                    lemma_text_asymmetric(a, a);
                } else {
                    assert(p1[i] == p0[i] && p1[j] == p0[j]);
                }
            }
            assert forall|i: int| 0 <= i < k + 1 implies shows_entry(
                entries@[#[trigger] order@[i] as int],
                nodes@[i + 1],
            ) by {
                if i < k {
                    assert(shows_entry(entries@[order@[i] as int], before[i + 1]));
                }
            }
        }
        k = k + 1;
    }
    let mut keys: Vec<SiblingKey> = Vec::new();
    let mut k: usize = 0;
    while k < nodes.len()
        invariant
            k <= nodes@.len(),
            keys@.len() == k,
            forall|i: int|
                0 <= i < k ==> (#[trigger] keys@[i])@ == (
                    nodes@[i].is_dir,
                    lowercase(nodes@[i].name@),
                ),
        decreases nodes@.len() - k,
    {
        let key: SiblingKey = SiblingKey {
            is_dir: nodes[k].is_dir,
            name: nodes[k].name.as_str().to_lowercase(),
        };
        keys.push(key);
        k = k + 1;
    }
    let ghost flat = nodes@;
    assert(key_views(keys@) =~= keys_of(flat));
    let mut k: usize = 0;
    while k < nodes.len()
        invariant
            k <= nodes@.len(),
            nodes@.len() == flat.len(),
            keys@.len() == nodes@.len(),
            key_views(keys@) == keys_of(flat),
            forall|i: int|
                0 <= i < flat.len() ==> (#[trigger] nodes@[i]).name == flat[i].name
                    && nodes@[i].path == flat[i].path && nodes@[i].is_dir == flat[i].is_dir
                    && nodes@[i].size == flat[i].size,
            forall|p: int, c: usize|
                0 <= p < nodes@.len() ==> (#[trigger] nodes@[p].children@.contains(c) <==> 1 <= c
                    < nodes@.len() && parent_of(paths_of(flat), c as int) == p),
            forall|p: int, i: int, j: int|
                k <= p < nodes@.len() && 0 <= i < j < nodes@[p].children@.len()
                    ==> #[trigger] nodes@[p].children@[i] < #[trigger] nodes@[p].children@[j],
            forall|p: int|
                0 <= p < k ==> children_in_order(keys_of(flat), #[trigger] nodes@[p].children@),
        decreases nodes@.len() - k,
    {
        let ghost before = nodes@;
        assert forall|i: int| 0 <= i < nodes@[k as int].children@.len() implies (
        #[trigger] nodes@[k as int].children@[i]) < keys@.len() by {
            assert(nodes@[k as int].children@.contains(nodes@[k as int].children@[i]));
        }
        let sorted: Vec<usize> = sort_children(&keys, &nodes[k].children);
        nodes[k].children = sorted;
        proof {
            assert forall|p: int, c: usize|
                0 <= p < nodes@.len() implies (#[trigger] nodes@[p].children@.contains(c) <==> 1
                <= c < nodes@.len() && parent_of(paths_of(flat), c as int) == p) by {
                assert(before[p].children@.contains(c) <==> 1 <= c < nodes@.len() && parent_of(
                    paths_of(flat),
                    c as int,
                ) == p);
            }
            assert forall|p: int| 0 <= p < k + 1 implies children_in_order(
                keys_of(flat),
                #[trigger] nodes@[p].children@,
            ) by {
                if p < k {
                    assert(nodes@[p] == before[p]);
                }
            }
        }
        k = k + 1;
    }
    proof {
        assert(paths_of(nodes@) =~= paths_of(flat));
        assert(keys_of(nodes@) =~= keys_of(flat));
        assert forall|i: int| 0 <= i < entries@.len() implies shows_entry(
            entries@[#[trigger] order@[i] as int],
            nodes@[i + 1],
        ) by {
            assert(shows_entry(entries@[order@[i] as int], flat[i + 1]));
        }
        assert(shows_entries(entries@, order@, nodes@));
    }
    nodes
}

} // verus!
