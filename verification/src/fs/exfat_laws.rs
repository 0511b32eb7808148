//! What walks and searches find in a volume whose directories are known.

use super::exfat::{
    is_on_the_way, is_target, search_start, walk_start, Action, EventView, Opening, SearchView,
    WalkView,
};
use super::EntryView;
use crate::path::{
    head_of, is_plain, law_below_has_head, law_below_prefix, law_name_is_head, lemma_slash_before,
    lemma_slash_from, parent_path, slash_before, starts_below, tail_of,
};
use vstd::prelude::*;

verus! {

/// An item of a directory, with all that lies below it.
pub enum Item {
    File { name: Seq<char>, length: u64 },
    /// A directory, and what lies in it.
    Directory { name: Seq<char>, items: Seq<Item> },
    /// A directory without clusters: nothing lies in it.
    Vacant { name: Seq<char> },
    /// A directory that cannot be opened.
    Barred { name: Seq<char> },
}

impl Item {
    /// The item's name.
    pub open spec fn name(self) -> Seq<char> {
        match self {
            Item::File { name, .. } => name,
            Item::Directory { name, .. } => name,
            Item::Vacant { name } => name,
            Item::Barred { name } => name,
        }
    }

    /// What can be found in the directory.
    pub open spec fn items(self) -> Seq<Item> {
        match self {
            Item::Directory { items, .. } => items,
            _ => Seq::empty(),
        }
    }

    /// What becomes of the attempt to open the directory.
    pub open spec fn opening(self) -> Opening {
        match self {
            Item::Directory { .. } => Opening::Opened,
            Item::Vacant { .. } => Opening::NoClusters,
            _ => Opening::Failed,
        }
    }

    /// What the backend finds on arrival at the item.
    pub open spec fn event(self) -> EventView {
        match self {
            Item::File { name, length } => EventView::File(name, length),
            _ => EventView::Directory(self.name()),
        }
    }

    /// The item as a listing shows it.
    pub open spec fn shown(self, prefix: Seq<char>) -> EntryView {
        match self {
            Item::File { name, length } => EntryView {
                path: prefix + name,
                size: length,
                is_dir: false,
            },
            _ => EntryView { path: prefix + self.name(), size: 0, is_dir: true },
        }
    }
}

/// What is listed of one item: itself, and what lies below it.
pub open spec fn listing_of(item: Item, prefix: Seq<char>) -> Seq<EntryView>
    decreases item, 0int,
{
    match item {
        Item::Directory { items, .. } => seq![item.shown(prefix)] + listing_from(
            items,
            0,
            prefix + item.name() + seq!['/'],
        ),
        _ => seq![item.shown(prefix)],
    }
}

/// What is listed of a directory from its item `at` on.
pub open spec fn listing_from(items: Seq<Item>, at: int, prefix: Seq<char>) -> Seq<EntryView>
    decreases items, items.len() - at,
{
    if 0 <= at < items.len() {
        listing_of(items[at], prefix) + listing_from(items, at + 1, prefix)
    } else {
        Seq::empty()
    }
}

/// The depth-first listing of a volume with this root directory.
pub open spec fn listing(root: Seq<Item>) -> Seq<EntryView> {
    listing_from(root, 0, Seq::empty())
}

/// Whether no directory below an item, nor the item itself, is barred.
pub open spec fn can_open(item: Item) -> bool
    decreases item, 0int,
{
    match item {
        Item::File { .. } => true,
        Item::Directory { items, .. } => can_open_from(items, 0),
        Item::Vacant { .. } => true,
        Item::Barred { .. } => false,
    }
}

/// Whether no directory below a directory, from its item `at` on, is barred.
pub open spec fn can_open_from(items: Seq<Item>, at: int) -> bool
    decreases items, items.len() - at,
{
    0 <= at < items.len() ==> can_open(items[at]) && can_open_from(items, at + 1)
}

/// What a search comes to.
pub enum Outcome {
    /// This file.
    File(Item),
    /// There is no such file.
    Missing,
    /// A directory on the way is not open.
    Barred,
}

/// Where `target` leads from a directory, from its item `at` on.
pub open spec fn resolve_from(items: Seq<Item>, at: int, target: Seq<char>) -> Outcome
    decreases target.len(), items.len() - at,
{
    proof {
        lemma_slash_from(target, 0);
    }
    if at < 0 || at >= items.len() {
        Outcome::Missing
    } else {
        match items[at] {
            Item::File { name, .. } => if is_target(target, name) {
                Outcome::File(items[at])
            } else {
                resolve_from(items, at + 1, target)
            },
            _ => if !is_on_the_way(target, items[at].name()) {
                resolve_from(items, at + 1, target)
            } else if items[at] is Directory {
                resolve_from(items[at].items(), 0, tail_of(target))
            } else {
                Outcome::Barred
            },
        }
    }
}

/// Where a path leads in a volume with this root directory.
pub open spec fn resolve(root: Seq<Item>, path: Seq<char>) -> Outcome {
    resolve_from(root, 0, path)
}

/// A backend's place in the volume: the directories that it has open, from the root
/// on, and its item in each.
#[verifier::ext_equal]
pub struct Cursor {
    pub levels: Seq<(Seq<Item>, int)>,
}

impl Cursor {
    /// At the first item of the root directory.
    pub open spec fn at_root(root: Seq<Item>) -> Cursor {
        Cursor { levels: seq![(root, 0int)] }
    }

    /// The current item.
    pub open spec fn item(self) -> Item {
        self.levels.last().0[self.levels.last().1]
    }

    /// What is found on arrival.
    pub open spec fn arrival(self) -> EventView {
        if self.levels.len() > 0 && 0 <= self.levels.last().1 < self.levels.last().0.len() {
            self.item().event()
        } else {
            EventView::End
        }
    }

    /// One item on.
    pub open spec fn onward(self) -> Cursor {
        if self.levels.len() == 0 {
            self
        } else {
            Cursor {
                levels: self.levels.drop_last().push(
                    (self.levels.last().0, self.levels.last().1 + 1),
                ),
            }
        }
    }

    /// Where the backend is once it has done as it was told.
    pub open spec fn after(self, action: Action) -> Cursor {
        match action {
            Action::NextItem => self.onward(),
            Action::EnterDirectory => Cursor {
                levels: self.levels.push((self.item().items(), 0int)),
            },
            Action::LeaveDirectory => Cursor { levels: self.levels.drop_last() }.onward(),
            _ => self,
        }
    }

    /// What the backend finds there.
    pub open spec fn found(self, action: Action) -> EventView {
        match action {
            Action::OpenDirectory => EventView::Opened(self.item().opening()),
            _ => self.arrival(),
        }
    }
}

/// A walk, and a backend that does as the walk tells it.
#[verifier::ext_equal]
pub struct Walking {
    pub walk: WalkView,
    pub cursor: Cursor,
    /// What the backend has found and not yet told.
    pub event: EventView,
}

impl Walking {
    /// A walk that has just begun.
    pub open spec fn start(root: Seq<Item>) -> Walking {
        let cursor = Cursor::at_root(root);
        Walking { walk: walk_start(), cursor, event: cursor.arrival() }
    }

    /// The walk hears of the event and the backend does what it answers.
    pub open spec fn turn(self) -> Walking {
        let action = self.walk.answer(self.event);
        let cursor = self.cursor.after(action);
        Walking { walk: self.walk.next(self.event), cursor, event: cursor.found(action) }
    }

    /// Whether `n` turns lead to `end`, each with an event that the walk expects.
    pub open spec fn leads(self, n: nat, end: Walking) -> bool
        decreases n,
    {
        if n == 0 {
            self == end
        } else {
            self.walk.expects(self.event) && self.turn().leads((n - 1) as nat, end)
        }
    }
}

/// Turns add up.
proof fn lemma_walk_goes_on(a: Walking, n: nat, b: Walking, m: nat, c: Walking)
    requires
        a.leads(n, b),
        b.leads(m, c),
    ensures
        a.leads(n + m, c),
    decreases n,
{
    if n > 0 {
        lemma_walk_goes_on(a.turn(), (n - 1) as nat, b, m, c);
        assert((n + m - 1) as nat == (n - 1) as nat + m);
    }
}

/// A walk that has `items` open at item `at` lists the rest of that directory and comes
/// to its end.
proof fn lemma_walk_directory(a: Walking, items: Seq<Item>, at: int) -> (n: nat)
    requires
        a.walk.phase is Scanning,
        a.walk.prefixes.len() > 0,
        a.cursor.levels.len() > 0,
        a.cursor.levels.last() == (items, at),
        0 <= at <= items.len(),
        can_open_from(items, at),
        a.event == a.cursor.arrival(),
    ensures
        a.leads(
            n,
            (Walking {
                walk: WalkView {
                    entries: a.walk.entries + listing_from(items, at, a.walk.prefixes.last()),
                    ..a.walk
                },
                cursor: Cursor {
                    levels: a.cursor.levels.drop_last().push((items, items.len() as int)),
                },
                event: EventView::End,
            }),
        ),
    decreases items, items.len() - at,
{
    let prefix = a.walk.prefixes.last();
    let end = Walking {
        walk: WalkView { entries: a.walk.entries + listing_from(items, at, prefix), ..a.walk },
        cursor: Cursor { levels: a.cursor.levels.drop_last().push((items, items.len() as int)) },
        event: EventView::End,
    };
    if at == items.len() {
        assert(a =~= end);
        assert(a.leads(0, end));
        0
    } else {
        let (k, b) = lemma_walk_item(a, items, at);
        let m = lemma_walk_directory(b, items, at + 1);
        let here = listing_of(items[at], prefix);
        let rest = listing_from(items, at + 1, prefix);
        assert(a.walk.entries + here + rest =~= a.walk.entries + (here + rest));
        assert(b.cursor.levels.drop_last() =~= a.cursor.levels.drop_last());
        lemma_walk_goes_on(a, k, b, m, end);
        k + m
    }
}

/// A walk at an item lists it and what lies below it, and goes on to the next one.
proof fn lemma_walk_item(a: Walking, items: Seq<Item>, at: int) -> (r: (nat, Walking))
    requires
        a.walk.phase is Scanning,
        a.walk.prefixes.len() > 0,
        a.cursor.levels.len() > 0,
        a.cursor.levels.last() == (items, at),
        0 <= at < items.len(),
        can_open(items[at]),
        a.event == a.cursor.arrival(),
    ensures
        a.leads(r.0, r.1),
        r.1.walk == (WalkView {
            entries: a.walk.entries + listing_of(items[at], a.walk.prefixes.last()),
            ..a.walk
        }),
        r.1.cursor == a.cursor.onward(),
        r.1.event == r.1.cursor.arrival(),
    decreases items[at], 0int,
{
    let prefix = a.walk.prefixes.last();
    let item = items[at];
    let b = a.turn();
    match item {
        Item::File { .. } => {
            assert(b.leads(0, b));
            assert(a.leads(1, b));
            assert(b.walk.entries =~= a.walk.entries + listing_of(item, prefix));
            (1, b)
        },
        Item::Barred { .. } => {
            assert(false);
            (0, a)
        },
        Item::Vacant { .. } => {
            let c = b.turn();
            assert(c.leads(0, c));
            assert(b.leads(1, c));
            assert(a.leads(2, c));
            assert(c.walk.entries =~= a.walk.entries + listing_of(item, prefix));
            (2, c)
        },
        Item::Directory { items: below, .. } => {
            let c = b.turn();
            let n = lemma_walk_directory(c, below, 0);
            let d = Walking {
                walk: WalkView {
                    entries: c.walk.entries + listing_from(below, 0, c.walk.prefixes.last()),
                    ..c.walk
                },
                cursor: Cursor {
                    levels: c.cursor.levels.drop_last().push((below, below.len() as int)),
                },
                event: EventView::End,
            };
            let e = d.turn();
            assert(e.leads(0, e));
            assert(d.leads(1, e));
            lemma_walk_goes_on(c, n, d, 1, e);
            assert(b.leads(n + 2, e));
            assert(a.leads(n + 3, e));
            assert(d.cursor.levels.drop_last() =~= a.cursor.levels);
            assert(e.walk.prefixes =~= a.walk.prefixes);
            assert(e.walk.entries =~= a.walk.entries + listing_of(item, prefix));
            (n + 3, e)
        },
    }
}

/// A walk that has `items` open at item `at` fails where a directory from there on is
/// barred.
proof fn lemma_walk_fails(a: Walking, items: Seq<Item>, at: int) -> (r: (nat, Walking))
    requires
        a.walk.phase is Scanning,
        a.walk.prefixes.len() > 0,
        a.cursor.levels.len() > 0,
        a.cursor.levels.last() == (items, at),
        0 <= at <= items.len(),
        !can_open_from(items, at),
        a.event == a.cursor.arrival(),
    ensures
        a.leads(r.0, r.1),
        r.1.walk.phase is Failed,
    decreases items, items.len() - at,
{
    let item = items[at];
    if can_open(item) {
        let (k, b) = lemma_walk_item(a, items, at);
        let (m, end) = lemma_walk_fails(b, items, at + 1);
        lemma_walk_goes_on(a, k, b, m, end);
        (k + m, end)
    } else {
        let b = a.turn();
        let c = b.turn();
        if item is Directory {
            let (n, end) = lemma_walk_fails(c, item.items(), 0);
            assert(b.leads(n + 1, end));
            assert(a.leads(n + 2, end));
            (n + 2, end)
        } else {
            assert(c.leads(0, c));
            assert(b.leads(1, c));
            assert(a.leads(2, c));
            (2, c)
        }
    }
}

/// On every volume, a backend that does as the walk tells it brings the walk only what
/// it expects. In the end, where no directory is barred, the walk has left the root
/// directory and holds the depth-first listing; where one is, it has failed.
pub proof fn law_walk_lists_volume(root: Seq<Item>)
    ensures
        exists|n: nat, end: Walking| #[trigger]
            Walking::start(root).leads(n, end) && if can_open_from(root, 0) {
                end.walk.prefixes.len() == 0 && end.walk.entries == listing(root)
            } else {
                end.walk.phase is Failed
            },
{
    let a = Walking::start(root);
    if can_open_from(root, 0) {
        let n = lemma_walk_directory(a, root, 0);
        let e = Walking {
            walk: WalkView { entries: a.walk.entries + listing(root), ..a.walk },
            cursor: Cursor { levels: a.cursor.levels.drop_last().push((root, root.len() as int)) },
            event: EventView::End,
        };
        assert(a.walk.prefixes.last() =~= Seq::<char>::empty());
        let f = e.turn();
        assert(f.leads(0, f));
        assert(e.leads(1, f));
        lemma_walk_goes_on(a, n, e, 1, f);
        assert(f.walk.entries =~= listing(root));
        assert(f.walk.prefixes.len() == 0);
    } else {
        let (n, end) = lemma_walk_fails(a, root, 0);
    }
}

/// A search, and a backend that does as the search tells it.
#[verifier::ext_equal]
pub struct Searching {
    pub search: SearchView,
    pub cursor: Cursor,
    /// What the backend has found and not yet told.
    pub event: EventView,
}

impl Searching {
    /// A search that has just begun.
    pub open spec fn start(root: Seq<Item>, path: Seq<char>) -> Searching {
        let cursor = Cursor::at_root(root);
        Searching { search: search_start(path), cursor, event: cursor.arrival() }
    }

    /// The search hears of the event and the backend does what it answers.
    pub open spec fn turn(self) -> Searching {
        let action = self.search.answer(self.event);
        let cursor = self.cursor.after(action);
        Searching { search: self.search.next(self.event), cursor, event: cursor.found(action) }
    }

    /// Whether `n` turns lead to `end`, each with an event that the search expects.
    pub open spec fn leads(self, n: nat, end: Searching) -> bool
        decreases n,
    {
        if n == 0 {
            self == end
        } else {
            self.search.expects(self.event) && self.turn().leads((n - 1) as nat, end)
        }
    }

    /// Whether the search is over and has come to this outcome: it found the file that
    /// the backend is at, it failed, or a directory on the way is not open.
    pub open spec fn came_to(self, outcome: Outcome) -> bool {
        match outcome {
            Outcome::File(item) => self.search.phase is Found && self.cursor.item() == item,
            Outcome::Missing => self.search.phase is Failed,
            Outcome::Barred => self.search.phase is Barred,
        }
    }
}

/// A search that has `items` open at item `at` comes to where its target leads from there.
proof fn lemma_search_directory(a: Searching, items: Seq<Item>, at: int) -> (r: (nat, Searching))
    requires
        a.search.phase is Scanning,
        a.cursor.levels.len() > 0,
        a.cursor.levels.last() == (items, at),
        0 <= at <= items.len(),
        a.event == a.cursor.arrival(),
    ensures
        a.leads(r.0, r.1),
        r.1.came_to(resolve_from(items, at, a.search.target)),
    decreases a.search.target.len(), items.len() - at,
{
    let target = a.search.target;
    let b = a.turn();
    lemma_slash_from(target, 0);
    if at == items.len() {
        assert(b.leads(0, b));
        assert(a.leads(1, b));
        (1, b)
    } else {
        match items[at] {
            Item::File { name, .. } => if is_target(target, name) {
                assert(b.leads(0, b));
                assert(a.leads(1, b));
                (1, b)
            } else {
                let (n, end) = lemma_search_directory(b, items, at + 1);
                assert(a.leads(n + 1, end));
                (n + 1, end)
            },
            _ => if !is_on_the_way(target, items[at].name()) {
                let (n, end) = lemma_search_directory(b, items, at + 1);
                assert(a.leads(n + 1, end));
                (n + 1, end)
            } else {
                let c = b.turn();
                if items[at] is Directory {
                    let (n, end) = lemma_search_directory(c, items[at].items(), 0);
                    assert(b.leads(n + 1, end));
                    assert(a.leads(n + 2, end));
                    (n + 2, end)
                } else {
                    assert(c.leads(0, c));
                    assert(b.leads(1, c));
                    assert(a.leads(2, c));
                    (2, c)
                }
            },
        }
    }
}

/// On every volume, a backend that does as the search tells it brings the search only
/// what it expects, and in the end the search has found the file that the path leads
/// to, has failed where the path leads to none, or is barred where a directory on the
/// way is not open.
pub proof fn law_search_resolves_path(root: Seq<Item>, path: Seq<char>)
    ensures
        exists|n: nat, end: Searching| #[trigger]
            Searching::start(root, path).leads(n, end) && end.came_to(resolve(root, path)),
{
    let (n, end) = lemma_search_directory(Searching::start(root, path), root, 0);
}

/// Whether the names in a directory tell its items apart, here and below: names are
/// plain and not empty, and no two items share one.
pub open spec fn is_tidy(items: Seq<Item>) -> bool
    decreases items,
{
    &&& forall|i: int|
        0 <= i < items.len() ==> is_plain((#[trigger] items[i]).name()) && items[i].name().len()
            > 0 && is_tidy_below(items[i])
    &&& forall|i: int, j: int|
        #![trigger items[i], items[j]]
        0 <= i < j < items.len() ==> items[i].name() != items[j].name()
}

/// Whether what lies below an item is tidy.
pub open spec fn is_tidy_below(item: Item) -> bool
    decreases item,
{
    match item {
        Item::Directory { items, .. } => is_tidy(items),
        _ => true,
    }
}

/// The search of a tidy directory for the name of its item `at` passes the items before it.
proof fn lemma_stops_at(items: Seq<Item>, from: int, at: int, target: Seq<char>)
    requires
        is_tidy(items),
        0 <= from <= at < items.len(),
        items[at].name() == head_of(target),
    ensures
        resolve_from(items, from, target) == resolve_from(items, at, target),
    decreases at - from,
{
    if from < at {
        assert(items[from].name() != head_of(target));
        lemma_stops_at(items, from + 1, at, target);
    }
}

/// In a tidy directory, a file that the listing shows is found below the prefix of the
/// listing.
proof fn lemma_listed_is_found(items: Seq<Item>, at: int, prefix: Seq<char>, i: int)
    requires
        is_tidy(items),
        0 <= at <= items.len(),
        0 <= i < listing_from(items, at, prefix).len(),
    ensures
        ({
            let entry = listing_from(items, at, prefix)[i];
            let path = entry.path.skip(prefix.len() as int);
            &&& prefix.len() < entry.path.len()
            &&& entry.path == prefix + path
            &&& !entry.is_dir ==> (resolve_from(items, 0, path) matches Outcome::File(file)
                && file matches Item::File { length, .. } && length == entry.size)
        }),
    decreases items, items.len() - at,
{
    let entry = listing_from(items, at, prefix)[i];
    let item = items[at];
    let here = listing_of(item, prefix);
    let name = item.name();
    if i >= here.len() {
        lemma_listed_is_found(items, at + 1, prefix, i - here.len());
    } else if i == 0 {
        assert(entry.path.skip(prefix.len() as int) =~= name);
        law_name_is_head(name, Seq::empty());
        lemma_stops_at(items, 0, at, name);
    } else {
        let below = item.items();
        let inner = prefix + name + seq!['/'];
        assert(entry == listing_from(below, 0, inner)[i - 1]);
        assert(is_tidy_below(item));
        lemma_listed_is_found(below, 0, inner, i - 1);
        let rest = entry.path.skip(inner.len() as int);
        let path = entry.path.skip(prefix.len() as int);
        assert(path =~= name + seq!['/'] + rest);
        assert(entry.path =~= prefix + path);
        law_name_is_head(name, rest);
        lemma_stops_at(items, 0, at, path);
    }
}

/// In a tidy volume the path of each listed file leads to a file of the listed size.
pub proof fn law_listed_path_resolves(root: Seq<Item>, i: int)
    requires
        is_tidy(root),
        0 <= i < listing(root).len(),
        !listing(root)[i].is_dir,
    ensures
        resolve(root, listing(root)[i].path) matches Outcome::File(file) && file matches Item::File {
            length,
            ..
        } && length == listing(root)[i].size,
{
    let entry = listing(root)[i];
    lemma_listed_is_found(root, 0, Seq::empty(), i);
    assert(entry.path.skip(0) =~= entry.path);
}

/// Directories are listed with no size.
pub proof fn law_directories_have_no_size(items: Seq<Item>, at: int, prefix: Seq<char>, i: int)
    requires
        0 <= at <= items.len(),
        0 <= i < listing_from(items, at, prefix).len(),
    ensures
        listing_from(items, at, prefix)[i].is_dir ==> listing_from(items, at, prefix)[i].size == 0,
    decreases items, items.len() - at,
{
    let item = items[at];
    let here = listing_of(item, prefix);
    if i >= here.len() {
        law_directories_have_no_size(items, at + 1, prefix, i - here.len());
    } else if i > 0 {
        law_directories_have_no_size(
            item.items(),
            0,
            prefix + item.name() + seq!['/'],
            i - 1,
        );
    }
}

/// Listed paths do not start with a slash, unless the prefix of the listing does.
pub proof fn law_no_leading_slash(items: Seq<Item>, at: int, prefix: Seq<char>, i: int)
    requires
        is_tidy(items),
        prefix.len() > 0 ==> prefix[0] != '/',
        0 <= at <= items.len(),
        0 <= i < listing_from(items, at, prefix).len(),
    ensures
        listing_from(items, at, prefix)[i].path.len() > 0,
        listing_from(items, at, prefix)[i].path[0] != '/',
    decreases items, items.len() - at,
{
    let item = items[at];
    let here = listing_of(item, prefix);
    if i >= here.len() {
        law_no_leading_slash(items, at + 1, prefix, i - here.len());
    } else {
        let path = prefix + item.name();
        assert(path[0] == if prefix.len() > 0 {
            prefix[0]
        } else {
            item.name()[0]
        });
        if i > 0 {
            let inner = path + seq!['/'];
            assert(inner[0] == path[0]);
            assert(is_tidy_below(item));
            law_no_leading_slash(item.items(), 0, inner, i - 1);
        }
    }
}

/// Whoever searches for the path of a listed file finds a file of the listed size.
pub proof fn law_listed_file_is_found(root: Seq<Item>, i: int)
    requires
        is_tidy(root),
        0 <= i < listing(root).len(),
        !listing(root)[i].is_dir,
    ensures
        exists|n: nat, end: Searching| #[trigger]
            Searching::start(root, listing(root)[i].path).leads(n, end) && end.search.phase is Found
                && (end.cursor.item() matches Item::File { length, .. } && length
                == listing(root)[i].size),
{
    law_listed_path_resolves(root, i);
    law_search_resolves_path(root, listing(root)[i].path);
}

/// What is listed of a tidy directory starts with the name of one of its items.
proof fn lemma_owner(items: Seq<Item>, at: int, prefix: Seq<char>, i: int) -> (owner: int)
    requires
        is_tidy(items),
        0 <= at <= items.len(),
        0 <= i < listing_from(items, at, prefix).len(),
    ensures
        at <= owner < items.len(),
        i < listing_of(items[at], prefix).len() ==> owner == at,
        i >= listing_of(items[at], prefix).len() ==> owner > at,
        ({
            let path = listing_from(items, at, prefix)[i].path;
            &&& prefix.len() <= path.len()
            &&& path == prefix + path.skip(prefix.len() as int)
            &&& head_of(path.skip(prefix.len() as int)) == items[owner].name()
        }),
    decreases items.len() - at,
{
    let path = listing_from(items, at, prefix)[i].path;
    let item = items[at];
    let here = listing_of(item, prefix);
    let name = item.name();
    lemma_listed_is_found(items, at, prefix, i);
    if i >= here.len() {
        lemma_owner(items, at + 1, prefix, i - here.len())
    } else {
        if i == 0 {
            assert(path.skip(prefix.len() as int) =~= name);
            law_name_is_head(name, Seq::empty());
        } else {
            let inner = prefix + name + seq!['/'];
            assert(is_tidy_below(item));
            lemma_listed_is_found(item.items(), 0, inner, i - 1);
            let rest = path.skip(inner.len() as int);
            assert(path.skip(prefix.len() as int) =~= name + seq!['/'] + rest);
            law_name_is_head(name, rest);
        }
        at
    }
}

/// A tidy directory lists no path twice.
pub proof fn law_paths_are_listed_once(
    items: Seq<Item>,
    at: int,
    prefix: Seq<char>,
    i: int,
    j: int,
)
    requires
        is_tidy(items),
        0 <= at <= items.len(),
        0 <= i < j < listing_from(items, at, prefix).len(),
    ensures
        listing_from(items, at, prefix)[i].path != listing_from(items, at, prefix)[j].path,
    decreases items, items.len() - at,
{
    let item = items[at];
    let here = listing_of(item, prefix);
    let inner = prefix + item.name() + seq!['/'];
    if i >= here.len() {
        law_paths_are_listed_once(items, at + 1, prefix, i - here.len(), j - here.len());
    } else if j >= here.len() {
        let one = lemma_owner(items, at, prefix, i);
        let other = lemma_owner(items, at, prefix, j);
        assert(items[one].name() != items[other].name());
    } else {
        assert(is_tidy_below(item));
        lemma_listed_is_found(item.items(), 0, inner, j - 1);
        if i > 0 {
            law_paths_are_listed_once(item.items(), 0, inner, i - 1, j - 1);
        }
    }
}

/// What lies below a directory is one run in the listing, right behind the directory:
/// where the path of an entry continues that of another, it comes later, and so does
/// the path of each entry between them.
pub proof fn law_below_is_one_run(
    items: Seq<Item>,
    at: int,
    prefix: Seq<char>,
    i: int,
    j: int,
    k: int,
)
    requires
        is_tidy(items),
        0 <= at <= items.len(),
        0 <= i < listing_from(items, at, prefix).len(),
        0 <= j < listing_from(items, at, prefix).len(),
        starts_below(
            listing_from(items, at, prefix)[j].path,
            listing_from(items, at, prefix)[i].path,
        ),
    ensures
        i < j,
        i < k <= j ==> starts_below(
            listing_from(items, at, prefix)[k].path,
            listing_from(items, at, prefix)[i].path,
        ),
    decreases items, items.len() - at,
{
    let list = listing_from(items, at, prefix);
    let item = items[at];
    let n = listing_of(item, prefix).len() as int;
    let inner = prefix + item.name() + seq!['/'];
    if i >= n && j >= n {
        law_below_is_one_run(items, at + 1, prefix, i - n, j - n, k - n);
    } else if i >= n || j >= n {
        let one = lemma_owner(items, at, prefix, i);
        let other = lemma_owner(items, at, prefix, j);
        let a = list[i].path.skip(prefix.len() as int);
        let b = list[j].path.skip(prefix.len() as int);
        law_below_prefix(prefix, b, a);
        law_below_has_head(b, a);
        assert(items[one].name() == items[other].name());
        assert(false);
    } else {
        assert(is_tidy_below(item));
        if i > 0 {
            lemma_listed_is_found(item.items(), 0, inner, i - 1);
            law_below_is_one_run(item.items(), 0, inner, i - 1, j - 1, k - 1);
        } else if i < k <= j {
            lemma_listed_is_found(item.items(), 0, inner, k - 1);
            assert(list[k].path.take(list[0].path.len() as int) =~= list[0].path);
        }
    }
}

/// The directory that a listed path lies in is listed before it.
pub proof fn law_parent_comes_earlier(
    items: Seq<Item>,
    at: int,
    prefix: Seq<char>,
    j: int,
) -> (i: int)
    requires
        is_tidy(items),
        prefix.len() == 0 || prefix.last() == '/',
        0 <= at <= items.len(),
        0 <= j < listing_from(items, at, prefix).len(),
        ({
            let path = listing_from(items, at, prefix)[j].path;
            slash_before(path, path.len() as int) >= prefix.len()
        }),
    ensures
        0 <= i < j,
        listing_from(items, at, prefix)[i].is_dir,
        listing_from(items, at, prefix)[i].path == parent_path(
            listing_from(items, at, prefix)[j].path,
        ),
    decreases items, items.len() - at,
{
    let list = listing_from(items, at, prefix);
    let path = list[j].path;
    let slash = slash_before(path, path.len() as int);
    let item = items[at];
    let n = listing_of(item, prefix).len() as int;
    let inner = prefix + item.name() + seq!['/'];
    lemma_slash_before(path, path.len() as int);
    if j >= n {
        let i = law_parent_comes_earlier(items, at + 1, prefix, j - n);
        n + i
    } else if j == 0 {
        assert(path[slash] == item.name()[slash - prefix.len()]);
        assert(false);
        0
    } else {
        assert(is_tidy_below(item));
        lemma_listed_is_found(item.items(), 0, inner, j - 1);
        assert(path[inner.len() - 1] == '/');
        if slash >= inner.len() {
            let i = law_parent_comes_earlier(item.items(), 0, inner, j - 1);
            i + 1
        } else {
            assert(parent_path(path) =~= list[0].path);
            0
        }
    }
}

} // verus!
