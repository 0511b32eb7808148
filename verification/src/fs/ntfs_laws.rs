//! What walks and searches find in a volume whose directories are known.

use super::ntfs::{
    is_hidden, key_is_skipped, length_or_zero, search_start, walk_start, Action, EventView,
    Namespace, SearchView, WalkView,
};
use super::EntryView;
use crate::path::{
    components, head_of, is_plain, law_below_has_head, law_below_prefix, law_components_split,
    law_name_is_component, law_name_is_head, law_name_leads_path, lemma_components_from,
    lemma_slash_before, lemma_slash_from, parent_path, slash_before, slash_from, starts_below,
    tail_of,
};
use vstd::prelude::*;

verus! {

/// An entry of a directory's index, with all that lies below it.
pub enum IndexItem {
    /// An entry without a name.
    Unnamed,
    File { namespace: Namespace, name: Seq<char>, record: u64, length: Option<u64> },
    Directory { namespace: Namespace, name: Seq<char>, record: u64, items: Seq<IndexItem> },
}

impl IndexItem {
    /// The namespace of the entry's name.
    pub open spec fn key(self) -> Option<Namespace> {
        match self {
            IndexItem::Unnamed => None,
            IndexItem::File { namespace, .. } => Some(namespace),
            IndexItem::Directory { namespace, .. } => Some(namespace),
        }
    }

    /// The entry's name.
    pub open spec fn name(self) -> Seq<char> {
        match self {
            IndexItem::Unnamed => Seq::empty(),
            IndexItem::File { name, .. } => name,
            IndexItem::Directory { name, .. } => name,
        }
    }

    /// The number of the file record that the entry leads to.
    pub open spec fn record(self) -> u64 {
        match self {
            IndexItem::Unnamed => 0,
            IndexItem::File { record, .. } => record,
            IndexItem::Directory { record, .. } => record,
        }
    }

    /// The length of the unnamed data stream.
    pub open spec fn length(self) -> Option<u64> {
        match self {
            IndexItem::File { length, .. } => length,
            _ => None,
        }
    }

    /// What lies in the directory.
    pub open spec fn items(self) -> Seq<IndexItem> {
        match self {
            IndexItem::Directory { items, .. } => items,
            _ => Seq::empty(),
        }
    }

    /// Whether the entry is listed.
    pub open spec fn is_listed(self) -> bool {
        !key_is_skipped(self.key()) && !is_hidden(self.name(), self.record())
    }

    /// Whether the entry is the one that a search for `name` stops at.
    pub open spec fn is_named(self, name: Seq<char>) -> bool {
        !key_is_skipped(self.key()) && self.name() == name
    }

    /// The entry as a listing shows it.
    pub open spec fn shown(self, prefix: Seq<char>) -> EntryView {
        EntryView {
            path: prefix + self.name(),
            size: length_or_zero(self.length()),
            is_dir: self is Directory,
        }
    }
}

/// What is listed of one entry: itself, and what lies below it.
pub open spec fn listing_of(item: IndexItem, prefix: Seq<char>) -> Seq<EntryView>
    decreases item, 0int,
{
    if !item.is_listed() {
        Seq::empty()
    } else {
        match item {
            IndexItem::Directory { items, .. } => seq![item.shown(prefix)] + listing_from(
                items,
                0,
                prefix + item.name() + seq!['/'],
            ),
            _ => seq![item.shown(prefix)],
        }
    }
}

/// What is listed of a directory from its entry `at` on.
pub open spec fn listing_from(items: Seq<IndexItem>, at: int, prefix: Seq<char>) -> Seq<EntryView>
    decreases items, items.len() - at,
{
    if 0 <= at < items.len() {
        listing_of(items[at], prefix) + listing_from(items, at + 1, prefix)
    } else {
        Seq::empty()
    }
}

/// The depth-first listing of a volume with this root directory.
pub open spec fn listing(root: Seq<IndexItem>) -> Seq<EntryView> {
    listing_from(root, 0, Seq::empty())
}

/// Where a path leads that starts in a directory, from its entry `at` on.
pub open spec fn resolve_from(items: Seq<IndexItem>, at: int, parts: Seq<Seq<char>>) -> Option<
    IndexItem,
>
    decreases parts.len(), items.len() - at,
{
    if parts.len() == 0 || at < 0 || at >= items.len() {
        None
    } else if !items[at].is_named(parts[0]) {
        resolve_from(items, at + 1, parts)
    } else if parts.len() == 1 {
        Some(items[at])
    } else if items[at] is Directory {
        resolve_from(items[at].items(), 0, parts.skip(1))
    } else {
        None
    }
}

/// Where a path leads in a volume with this root directory.
pub open spec fn resolve(root: Seq<IndexItem>, path: Seq<char>) -> Option<IndexItem> {
    resolve_from(root, 0, components(path))
}

/// A backend's place in the volume: the directories that it has open, from the root
/// on, and its entry in each.
#[verifier::ext_equal]
pub struct Cursor {
    pub levels: Seq<(Seq<IndexItem>, int)>,
}

impl Cursor {
    /// At the first entry of the root directory.
    pub open spec fn at_root(root: Seq<IndexItem>) -> Cursor {
        Cursor { levels: seq![(root, 0int)] }
    }

    /// The current entry.
    pub open spec fn item(self) -> IndexItem {
        self.levels.last().0[self.levels.last().1]
    }

    /// What is found on arrival.
    pub open spec fn arrival(self) -> EventView {
        if self.levels.len() > 0 && 0 <= self.levels.last().1 < self.levels.last().0.len() {
            EventView::Key(self.item().key())
        } else {
            EventView::End
        }
    }

    /// One entry on.
    pub open spec fn onward(self) -> Cursor {
        if self.levels.len() == 0 {
            self
        } else {
            Cursor {
                levels: self.levels.drop_last().push(
                    (self.levels.last().0, self.levels.last().1 + 1),
                ),
            }
        }
    }

    /// Where the backend is once it has done as it was told.
    pub open spec fn after(self, action: Action) -> Cursor {
        match action {
            Action::NextEntry => self.onward(),
            Action::EnterDirectory => Cursor {
                levels: self.levels.push((self.item().items(), 0int)),
            },
            Action::LeaveDirectory => Cursor { levels: self.levels.drop_last() }.onward(),
            _ => self,
        }
    }

    /// What the backend finds there.
    pub open spec fn found(self, action: Action) -> EventView {
        match action {
            Action::ReadName => EventView::Name(self.item().name(), self.item().record()),
            Action::OpenFile => EventView::Opened(self.item() is Directory),
            Action::MeasureData => EventView::Length(self.item().length()),
            _ => self.arrival(),
        }
    }
}

/// A walk, and a backend that does as the walk tells it.
#[verifier::ext_equal]
pub struct Walking {
    pub walk: WalkView,
    pub cursor: Cursor,
    /// What the backend has found and not yet told.
    pub event: EventView,
}

impl Walking {
    /// A walk that has just begun.
    pub open spec fn start(root: Seq<IndexItem>) -> Walking {
        let cursor = Cursor::at_root(root);
        Walking { walk: walk_start(), cursor, event: cursor.arrival() }
    }

    /// The walk hears of the event and the backend does what it answers.
    pub open spec fn turn(self) -> Walking {
        let action = self.walk.answer(self.event);
        let cursor = self.cursor.after(action);
        Walking { walk: self.walk.next(self.event), cursor, event: cursor.found(action) }
    }

    /// Whether `n` turns lead to `end`, each with an event that the walk expects.
    pub open spec fn leads(self, n: nat, end: Walking) -> bool
        decreases n,
    {
        if n == 0 {
            self == end
        } else {
            self.walk.expects(self.event) && self.turn().leads((n - 1) as nat, end)
        }
    }
}

/// Turns add up.
proof fn lemma_walk_goes_on(a: Walking, n: nat, b: Walking, m: nat, c: Walking)
    requires
        a.leads(n, b),
        b.leads(m, c),
    ensures
        a.leads(n + m, c),
    decreases n,
{
    if n > 0 {
        lemma_walk_goes_on(a.turn(), (n - 1) as nat, b, m, c);
        assert((n + m - 1) as nat == (n - 1) as nat + m);
    }
}

/// A walk that has `items` open at entry `at` lists the rest of that directory and
/// comes to its end.
proof fn lemma_walk_directory(a: Walking, items: Seq<IndexItem>, at: int) -> (n: nat)
    requires
        a.walk.phase is Scanning,
        a.walk.prefixes.len() > 0,
        a.cursor.levels.len() > 0,
        a.cursor.levels.last() == (items, at),
        0 <= at <= items.len(),
        a.event == a.cursor.arrival(),
    ensures
        a.leads(
            n,
            (Walking {
                walk: WalkView {
                    entries: a.walk.entries + listing_from(items, at, a.walk.prefixes.last()),
                    ..a.walk
                },
                cursor: Cursor {
                    levels: a.cursor.levels.drop_last().push((items, items.len() as int)),
                },
                event: EventView::End,
            }),
        ),
    decreases items, items.len() - at,
{
    let prefix = a.walk.prefixes.last();
    let end = Walking {
        walk: WalkView { entries: a.walk.entries + listing_from(items, at, prefix), ..a.walk },
        cursor: Cursor { levels: a.cursor.levels.drop_last().push((items, items.len() as int)) },
        event: EventView::End,
    };
    if at == items.len() {
        assert(a =~= end);
        assert(a.leads(0, end));
        0
    } else {
        let item = items[at];
        let (k, b) = lemma_walk_item(a, items, at);
        let m = lemma_walk_directory(b, items, at + 1);
        let rest = listing_from(items, at + 1, prefix);
        assert(a.walk.entries + listing_of(item, prefix) + rest =~= a.walk.entries + (listing_of(
            item,
            prefix,
        ) + rest));
        assert(b.cursor.levels.drop_last() =~= a.cursor.levels.drop_last());
        lemma_walk_goes_on(a, k, b, m, end);
        k + m
    }
}

/// A walk at an entry lists it and what lies below it, and goes on to the next one.
proof fn lemma_walk_item(a: Walking, items: Seq<IndexItem>, at: int) -> (r: (nat, Walking))
    requires
        a.walk.phase is Scanning,
        a.walk.prefixes.len() > 0,
        a.cursor.levels.len() > 0,
        a.cursor.levels.last() == (items, at),
        0 <= at < items.len(),
        a.event == a.cursor.arrival(),
    ensures
        a.leads(r.0, r.1),
        r.1.walk == (WalkView {
            entries: a.walk.entries + listing_of(items[at], a.walk.prefixes.last()),
            ..a.walk
        }),
        r.1.cursor == a.cursor.onward(),
        r.1.event == r.1.cursor.arrival(),
    decreases items[at], 0int,
{
    let prefix = a.walk.prefixes.last();
    let item = items[at];
    let b = a.turn();
    if key_is_skipped(item.key()) {
        assert(b.leads(0, b));
        assert(a.leads(1, b));
        assert(b.walk =~= WalkView {
            entries: a.walk.entries + listing_of(item, prefix),
            ..a.walk
        });
        (1, b)
    } else {
        let c = b.turn();
        if is_hidden(item.name(), item.record()) {
            assert(c.leads(0, c));
            assert(b.leads(1, c));
            assert(a.leads(2, c));
            assert(c.walk =~= WalkView {
                entries: a.walk.entries + listing_of(item, prefix),
                ..a.walk
            });
            (2, c)
        } else {
            let d = c.turn();
            match item {
                IndexItem::Directory { items: below, .. } => {
                    let n = lemma_walk_directory(d, below, 0);
                    let e = Walking {
                        walk: WalkView {
                            entries: d.walk.entries + listing_from(
                                below,
                                0,
                                d.walk.prefixes.last(),
                            ),
                            ..d.walk
                        },
                        cursor: Cursor {
                            levels: d.cursor.levels.drop_last().push((below, below.len() as int)),
                        },
                        event: EventView::End,
                    };
                    let f = e.turn();
                    assert(f.leads(0, f));
                    assert(e.leads(1, f));
                    lemma_walk_goes_on(d, n, e, 1, f);
                    assert(c.leads(n + 2, f));
                    assert(b.leads(n + 3, f));
                    assert(a.leads(n + 4, f));
                    assert(e.cursor.levels.drop_last() =~= a.cursor.levels);
                    assert(f.walk.prefixes =~= a.walk.prefixes);
                    assert(f.walk.entries =~= a.walk.entries + listing_of(item, prefix));
                    (n + 4, f)
                },
                _ => {
                    let e = d.turn();
                    assert(e.leads(0, e));
                    assert(d.leads(1, e));
                    assert(c.leads(2, e));
                    assert(b.leads(3, e));
                    assert(a.leads(4, e));
                    assert(e.walk.entries =~= a.walk.entries + listing_of(item, prefix));
                    (4, e)
                },
            }
        }
    }
}

/// On every volume, a backend that does as the walk tells it brings the walk only what
/// it expects, and in the end the walk has left the root directory and holds the
/// depth-first listing.
pub proof fn law_walk_lists_volume(root: Seq<IndexItem>)
    ensures
        exists|n: nat, end: Walking| #[trigger]
            Walking::start(root).leads(n, end) && end.walk.prefixes.len() == 0
                && end.walk.entries == listing(root),
{
    let a = Walking::start(root);
    let n = lemma_walk_directory(a, root, 0);
    let e = Walking {
        walk: WalkView { entries: a.walk.entries + listing(root), ..a.walk },
        cursor: Cursor { levels: a.cursor.levels.drop_last().push((root, root.len() as int)) },
        event: EventView::End,
    };
    assert(a.walk.prefixes.last() =~= Seq::<char>::empty());
    let f = e.turn();
    assert(f.leads(0, f));
    assert(e.leads(1, f));
    lemma_walk_goes_on(a, n, e, 1, f);
    assert(f.walk.entries =~= listing(root));
    assert(f.walk.prefixes.len() == 0);
}

/// A search, and a backend that does as the search tells it.
#[verifier::ext_equal]
pub struct Searching {
    pub search: SearchView,
    pub cursor: Cursor,
    /// What the backend has found and not yet told.
    pub event: EventView,
}

impl Searching {
    /// A search that has just begun.
    pub open spec fn start(root: Seq<IndexItem>, path: Seq<char>) -> Searching {
        let cursor = Cursor::at_root(root);
        Searching { search: search_start(path), cursor, event: cursor.arrival() }
    }

    /// The search hears of the event and the backend does what it answers.
    pub open spec fn turn(self) -> Searching {
        let action = self.search.answer(self.event);
        let cursor = self.cursor.after(action);
        Searching { search: self.search.next(self.event), cursor, event: cursor.found(action) }
    }

    /// Whether `n` turns lead to `end`, each with an event that the search expects.
    pub open spec fn leads(self, n: nat, end: Searching) -> bool
        decreases n,
    {
        if n == 0 {
            self == end
        } else {
            self.search.expects(self.event) && self.turn().leads((n - 1) as nat, end)
        }
    }

    /// Whether the search is over and has come to this outcome: it found the entry
    /// that the backend is at, or there is none.
    pub open spec fn came_to(self, outcome: Option<IndexItem>) -> bool {
        match outcome {
            Some(item) => self.search.phase is Found && self.cursor.item() == item,
            None => self.search.phase is Failed,
        }
    }
}

/// A search that has `items` open at entry `at` comes to where the rest of the path
/// leads from there.
proof fn lemma_search_directory(a: Searching, items: Seq<IndexItem>, at: int) -> (r: (
    nat,
    Searching,
))
    requires
        a.search.phase is Scanning,
        0 <= a.search.at < a.search.parts.len(),
        a.cursor.levels.len() > 0,
        a.cursor.levels.last() == (items, at),
        0 <= at <= items.len(),
        a.event == a.cursor.arrival(),
    ensures
        a.leads(r.0, r.1),
        r.1.came_to(resolve_from(items, at, a.search.parts.skip(a.search.at))),
    decreases a.search.parts.len() - a.search.at, items.len() - at,
{
    let rest = a.search.parts.skip(a.search.at);
    let b = a.turn();
    assert(rest[0] == a.search.parts[a.search.at]);
    if at == items.len() {
        assert(b.leads(0, b));
        assert(a.leads(1, b));
        (1, b)
    } else if key_is_skipped(items[at].key()) {
        let (n, end) = lemma_search_directory(b, items, at + 1);
        assert(a.leads(n + 1, end));
        (n + 1, end)
    } else {
        let item = items[at];
        let c = b.turn();
        if item.name() != rest[0] {
            let (n, end) = lemma_search_directory(c, items, at + 1);
            assert(b.leads(n + 1, end));
            assert(a.leads(n + 2, end));
            (n + 2, end)
        } else {
            let d = c.turn();
            if rest.len() > 1 && item is Directory {
                assert(rest.skip(1) =~= a.search.parts.skip(a.search.at + 1));
                let (n, end) = lemma_search_directory(d, item.items(), 0);
                assert(c.leads(n + 1, end));
                assert(b.leads(n + 2, end));
                assert(a.leads(n + 3, end));
                (n + 3, end)
            } else {
                assert(d.leads(0, d));
                assert(c.leads(1, d));
                assert(b.leads(2, d));
                assert(a.leads(3, d));
                (3, d)
            }
        }
    }
}

/// On every volume, a backend that does as the search tells it brings the search only
/// what it expects, and in the end the search has found the entry that the path leads
/// to, or has failed where the path leads nowhere.
pub proof fn law_search_resolves_path(root: Seq<IndexItem>, path: Seq<char>)
    ensures
        exists|n: nat, end: Searching| #[trigger]
            Searching::start(root, path).leads(n, end) && end.came_to(resolve(root, path)),
{
    let a = Searching::start(root, path);
    lemma_components_from(path, 0);
    let (n, end) = lemma_search_directory(a, root, 0);
    assert(components(path).skip(0) =~= components(path));
}

/// Whether the names in a directory tell its entries apart, here and below: names are
/// plain, and no two entries share one, aliases aside.
pub open spec fn is_tidy(items: Seq<IndexItem>) -> bool
    decreases items,
{
    &&& forall|i: int|
        0 <= i < items.len() ==> is_plain((#[trigger] items[i]).name()) && is_tidy_below(items[i])
    &&& forall|i: int, j: int|
        #![trigger items[i], items[j]]
        0 <= i < j < items.len() && !key_is_skipped(items[i].key()) && !key_is_skipped(
            items[j].key(),
        ) ==> items[i].name() != items[j].name()
}

/// Whether what lies below an entry is tidy.
pub open spec fn is_tidy_below(item: IndexItem) -> bool
    decreases item,
{
    match item {
        IndexItem::Directory { items, .. } => is_tidy(items),
        _ => true,
    }
}

/// Whether a path leads to what an entry of a listing shows.
pub open spec fn leads_to(items: Seq<IndexItem>, path: Seq<char>, entry: EntryView) -> bool {
    match resolve_from(items, 0, components(path)) {
        Some(item) => entry.is_dir == (item is Directory) && entry.size == length_or_zero(
            item.length(),
        ),
        None => false,
    }
}

/// Whether a path leads from a directory, from its entry `at` on, through listed entries
/// only.
pub open spec fn is_visible_from(items: Seq<IndexItem>, at: int, parts: Seq<Seq<char>>) -> bool
    decreases parts.len(), items.len() - at,
{
    if parts.len() == 0 || at < 0 || at >= items.len() {
        false
    } else if !items[at].is_named(parts[0]) {
        is_visible_from(items, at + 1, parts)
    } else if !items[at].is_listed() {
        false
    } else if parts.len() == 1 {
        true
    } else {
        items[at] is Directory && is_visible_from(items[at].items(), 0, parts.skip(1))
    }
}

/// Whether a path leads to an entry of the volume, and neither the entry nor one on the
/// way to it is the directory itself or a metafile.
pub open spec fn is_visible(root: Seq<IndexItem>, path: Seq<char>) -> bool {
    is_visible_from(root, 0, components(path))
}

/// The search of a tidy directory for the name of its entry `at` stops there.
proof fn lemma_stops_at(items: Seq<IndexItem>, from: int, at: int, parts: Seq<Seq<char>>)
    requires
        is_tidy(items),
        0 <= from <= at < items.len(),
        parts.len() > 0,
        items[at].is_named(parts[0]),
    ensures
        resolve_from(items, from, parts) == resolve_from(items, at, parts),
        is_visible_from(items, from, parts) == is_visible_from(items, at, parts),
    decreases at - from,
{
    if from < at {
        assert(!items[from].is_named(parts[0]));
        lemma_stops_at(items, from + 1, at, parts);
    }
}

/// In a tidy directory, what the listing shows is found below the prefix of the listing.
proof fn lemma_listed_is_found(items: Seq<IndexItem>, at: int, prefix: Seq<char>, i: int)
    requires
        is_tidy(items),
        0 <= at <= items.len(),
        0 <= i < listing_from(items, at, prefix).len(),
    ensures
        ({
            let entry = listing_from(items, at, prefix)[i];
            &&& prefix.len() <= entry.path.len()
            &&& entry.path == prefix + entry.path.skip(prefix.len() as int)
            &&& leads_to(items, entry.path.skip(prefix.len() as int), entry)
            &&& is_visible_from(items, 0, components(entry.path.skip(prefix.len() as int)))
        }),
    decreases items, items.len() - at,
{
    let entry = listing_from(items, at, prefix)[i];
    let item = items[at];
    let here = listing_of(item, prefix);
    let name = item.name();
    if i >= here.len() {
        lemma_listed_is_found(items, at + 1, prefix, i - here.len());
    } else if i == 0 {
        assert(entry.path.skip(prefix.len() as int) =~= name);
        law_name_is_component(name);
        lemma_stops_at(items, 0, at, seq![name]);
    } else {
        let below = item.items();
        let inner = prefix + name + seq!['/'];
        assert(entry == listing_from(below, 0, inner)[i - 1]);
        assert(is_tidy_below(item));
        lemma_listed_is_found(below, 0, inner, i - 1);
        let rest = entry.path.skip(inner.len() as int);
        let path = entry.path.skip(prefix.len() as int);
        assert(path =~= name + seq!['/'] + rest);
        assert(entry.path =~= prefix + path);
        law_name_leads_path(name, rest);
        lemma_components_from(rest, 0);
        lemma_stops_at(items, 0, at, components(path));
        assert(components(path).skip(1) =~= components(rest));
    }
}

/// In a tidy volume each listed path leads to a file of the listed size, or to a
/// directory where one is listed.
pub proof fn law_listed_path_resolves(root: Seq<IndexItem>, i: int)
    requires
        is_tidy(root),
        0 <= i < listing(root).len(),
    ensures
        match resolve(root, listing(root)[i].path) {
            Some(item) => listing(root)[i].is_dir == (item is Directory) && listing(root)[i].size
                == length_or_zero(item.length()),
            None => false,
        },
{
    let entry = listing(root)[i];
    lemma_listed_is_found(root, 0, Seq::empty(), i);
    assert(entry.path.skip(0) =~= entry.path);
}

/// Directories are listed with no size.
pub proof fn law_directories_have_no_size(
    items: Seq<IndexItem>,
    at: int,
    prefix: Seq<char>,
    i: int,
)
    requires
        0 <= at <= items.len(),
        0 <= i < listing_from(items, at, prefix).len(),
    ensures
        listing_from(items, at, prefix)[i].is_dir ==> listing_from(items, at, prefix)[i].size == 0,
    decreases items, items.len() - at,
{
    let item = items[at];
    let here = listing_of(item, prefix);
    if i >= here.len() {
        law_directories_have_no_size(items, at + 1, prefix, i - here.len());
    } else if i > 0 {
        law_directories_have_no_size(
            item.items(),
            0,
            prefix + item.name() + seq!['/'],
            i - 1,
        );
    }
}

/// What is listed of a tidy directory starts with the name of one of its entries.
proof fn lemma_owner(items: Seq<IndexItem>, at: int, prefix: Seq<char>, i: int) -> (owner: int)
    requires
        is_tidy(items),
        0 <= at <= items.len(),
        0 <= i < listing_from(items, at, prefix).len(),
    ensures
        at <= owner < items.len(),
        i < listing_of(items[at], prefix).len() ==> owner == at,
        i >= listing_of(items[at], prefix).len() ==> owner > at,
        items[owner].is_listed(),
        ({
            let path = listing_from(items, at, prefix)[i].path;
            &&& prefix.len() <= path.len()
            &&& path == prefix + path.skip(prefix.len() as int)
            &&& head_of(path.skip(prefix.len() as int)) == items[owner].name()
        }),
    decreases items.len() - at,
{
    let path = listing_from(items, at, prefix)[i].path;
    let item = items[at];
    let here = listing_of(item, prefix);
    let name = item.name();
    lemma_listed_is_found(items, at, prefix, i);
    if i >= here.len() {
        lemma_owner(items, at + 1, prefix, i - here.len())
    } else {
        if i == 0 {
            assert(path.skip(prefix.len() as int) =~= name);
            law_name_is_head(name, Seq::empty());
        } else {
            let inner = prefix + name + seq!['/'];
            assert(is_tidy_below(item));
            lemma_listed_is_found(item.items(), 0, inner, i - 1);
            let rest = path.skip(inner.len() as int);
            assert(path.skip(prefix.len() as int) =~= name + seq!['/'] + rest);
            law_name_is_head(name, rest);
        }
        at
    }
}

/// A tidy directory lists no path twice: the second name that a file has for the sake
/// of DOS is no second entry.
pub proof fn law_paths_are_listed_once(
    items: Seq<IndexItem>,
    at: int,
    prefix: Seq<char>,
    i: int,
    j: int,
)
    requires
        is_tidy(items),
        0 <= at <= items.len(),
        0 <= i < j < listing_from(items, at, prefix).len(),
    ensures
        listing_from(items, at, prefix)[i].path != listing_from(items, at, prefix)[j].path,
    decreases items, items.len() - at,
{
    let item = items[at];
    let here = listing_of(item, prefix);
    let inner = prefix + item.name() + seq!['/'];
    if i >= here.len() {
        law_paths_are_listed_once(items, at + 1, prefix, i - here.len(), j - here.len());
    } else if j >= here.len() {
        let one = lemma_owner(items, at, prefix, i);
        let other = lemma_owner(items, at, prefix, j);
        assert(items[one].name() != items[other].name());
    } else {
        assert(is_tidy_below(item));
        lemma_listed_is_found(item.items(), 0, inner, j - 1);
        if i > 0 {
            law_paths_are_listed_once(item.items(), 0, inner, i - 1, j - 1);
        }
    }
}

/// Listed paths do not start with a slash: below a prefix that does not, none does, and
/// without a prefix none does where the entries that are listed have names.
pub proof fn law_no_leading_slash(items: Seq<IndexItem>, at: int, prefix: Seq<char>, i: int)
    requires
        is_tidy(items),
        if prefix.len() > 0 {
            prefix[0] != '/'
        } else {
            forall|j: int|
                0 <= j < items.len() && (#[trigger] items[j]).is_listed() ==> items[j].name().len()
                    > 0
        },
        0 <= at <= items.len(),
        0 <= i < listing_from(items, at, prefix).len(),
    ensures
        listing_from(items, at, prefix)[i].path.len() > 0,
        listing_from(items, at, prefix)[i].path[0] != '/',
    decreases items, items.len() - at,
{
    let item = items[at];
    let here = listing_of(item, prefix);
    if i >= here.len() {
        law_no_leading_slash(items, at + 1, prefix, i - here.len());
    } else {
        let path = prefix + item.name();
        assert(item.is_listed());
        assert(path[0] == if prefix.len() > 0 {
            prefix[0]
        } else {
            item.name()[0]
        });
        if i > 0 {
            let inner = path + seq!['/'];
            assert(inner[0] == path[0]);
            assert(is_tidy_below(item));
            law_no_leading_slash(item.items(), 0, inner, i - 1);
        }
    }
}

/// A path that leads through listed entries is listed.
proof fn lemma_visible_is_listed(
    items: Seq<IndexItem>,
    at: int,
    prefix: Seq<char>,
    path: Seq<char>,
) -> (i: int)
    requires
        0 <= at <= items.len(),
        is_visible_from(items, at, components(path)),
    ensures
        0 <= i < listing_from(items, at, prefix).len(),
        listing_from(items, at, prefix)[i].path == prefix + path,
    decreases path.len(), items.len() - at,
{
    let item = items[at];
    let here = listing_of(item, prefix);
    let parts = components(path);
    let (head, tail) = (head_of(path), tail_of(path));
    law_components_split(path);
    lemma_slash_from(path, 0);
    lemma_components_from(tail, 0);
    if !item.is_named(head) {
        let i = lemma_visible_is_listed(items, at + 1, prefix, path);
        here.len() + i
    } else if slash_from(path, 0) >= path.len() {
        assert(here[0].path == prefix + path);
        0
    } else {
        assert(parts.skip(1) =~= components(tail));
        let inner = prefix + head + seq!['/'];
        let i = lemma_visible_is_listed(item.items(), 0, inner, tail);
        assert(here[i + 1] == listing_from(item.items(), 0, inner)[i]);
        assert(inner + tail =~= prefix + path);
        i + 1
    }
}

/// The metafiles of NTFS and the entry of a directory for itself are left out of the
/// listing, with what lies below them, and nothing else is: in a tidy volume a path is
/// listed if and only if it leads to an entry and past none of these.
pub proof fn law_only_metafiles_are_left_out(root: Seq<IndexItem>, path: Seq<char>)
    requires
        is_tidy(root),
    ensures
        (exists|i: int| 0 <= i < listing(root).len() && (#[trigger] listing(root)[i]).path == path)
            <==> is_visible(root, path),
{
    if is_visible(root, path) {
        let i = lemma_visible_is_listed(root, 0, Seq::empty(), path);
        assert(Seq::<char>::empty() + path =~= path);
        assert(listing(root)[i].path == path);
    }
    if exists|i: int|
        0 <= i < listing(root).len() && (#[trigger] listing(root)[i]).path == path {
        let i = choose|i: int|
            0 <= i < listing(root).len() && (#[trigger] listing(root)[i]).path == path;
        lemma_listed_is_found(root, 0, Seq::empty(), i);
        assert(path.skip(0) =~= path);
    }
}

/// Whoever searches for the path of a listed file finds a file, of the listed size.
pub proof fn law_listed_file_is_found(root: Seq<IndexItem>, i: int)
    requires
        is_tidy(root),
        0 <= i < listing(root).len(),
        !listing(root)[i].is_dir,
    ensures
        exists|n: nat, end: Searching| #[trigger]
            Searching::start(root, listing(root)[i].path).leads(n, end) && end.search.phase is Found
                && !(end.cursor.item() is Directory) && length_or_zero(end.cursor.item().length())
                == listing(root)[i].size,
{
    law_listed_path_resolves(root, i);
    law_search_resolves_path(root, listing(root)[i].path);
}

/// What lies below a directory is one run in the listing, right behind the directory:
/// where the path of an entry continues that of another, it comes later, and so does
/// the path of each entry between them.
pub proof fn law_below_is_one_run(
    items: Seq<IndexItem>,
    at: int,
    prefix: Seq<char>,
    i: int,
    j: int,
    k: int,
)
    requires
        is_tidy(items),
        0 <= at <= items.len(),
        0 <= i < listing_from(items, at, prefix).len(),
        0 <= j < listing_from(items, at, prefix).len(),
        starts_below(
            listing_from(items, at, prefix)[j].path,
            listing_from(items, at, prefix)[i].path,
        ),
    ensures
        i < j,
        i < k <= j ==> starts_below(
            listing_from(items, at, prefix)[k].path,
            listing_from(items, at, prefix)[i].path,
        ),
    decreases items, items.len() - at,
{
    let list = listing_from(items, at, prefix);
    let item = items[at];
    let n = listing_of(item, prefix).len() as int;
    let inner = prefix + item.name() + seq!['/'];
    if i >= n && j >= n {
        law_below_is_one_run(items, at + 1, prefix, i - n, j - n, k - n);
    } else if i >= n || j >= n {
        let one = lemma_owner(items, at, prefix, i);
        let other = lemma_owner(items, at, prefix, j);
        let a = list[i].path.skip(prefix.len() as int);
        let b = list[j].path.skip(prefix.len() as int);
        law_below_prefix(prefix, b, a);
        law_below_has_head(b, a);
        assert(items[one].name() == items[other].name());
        assert(false);
    } else {
        assert(is_tidy_below(item));
        if i > 0 {
            lemma_listed_is_found(item.items(), 0, inner, i - 1);
            law_below_is_one_run(item.items(), 0, inner, i - 1, j - 1, k - 1);
        } else if i < k <= j {
            lemma_listed_is_found(item.items(), 0, inner, k - 1);
            assert(list[k].path.take(list[0].path.len() as int) =~= list[0].path);
        }
    }
}

/// The directory that a listed path lies in is listed before it.
pub proof fn law_parent_comes_earlier(
    items: Seq<IndexItem>,
    at: int,
    prefix: Seq<char>,
    j: int,
) -> (i: int)
    requires
        is_tidy(items),
        prefix.len() == 0 || prefix.last() == '/',
        0 <= at <= items.len(),
        0 <= j < listing_from(items, at, prefix).len(),
        ({
            let path = listing_from(items, at, prefix)[j].path;
            slash_before(path, path.len() as int) >= prefix.len()
        }),
    ensures
        0 <= i < j,
        listing_from(items, at, prefix)[i].is_dir,
        listing_from(items, at, prefix)[i].path == parent_path(
            listing_from(items, at, prefix)[j].path,
        ),
    decreases items, items.len() - at,
{
    let list = listing_from(items, at, prefix);
    let path = list[j].path;
    let slash = slash_before(path, path.len() as int);
    let item = items[at];
    let n = listing_of(item, prefix).len() as int;
    let inner = prefix + item.name() + seq!['/'];
    lemma_slash_before(path, path.len() as int);
    if j >= n {
        let i = law_parent_comes_earlier(items, at + 1, prefix, j - n);
        n + i
    } else if j == 0 {
        assert(path[slash] == item.name()[slash - prefix.len()]);
        assert(false);
        0
    } else {
        assert(is_tidy_below(item));
        lemma_listed_is_found(item.items(), 0, inner, j - 1);
        assert(path[inner.len() - 1] == '/');
        if slash >= inner.len() {
            let i = law_parent_comes_earlier(item.items(), 0, inner, j - 1);
            i + 1
        } else {
            assert(parent_path(path) =~= list[0].path);
            0
        }
    }
}

} // verus!
