//! NTFS: how the directory indexes are walked and searched.

use super::{entry_views, Entry, EntryView};
use crate::path::{components, lemma_components_from, split_components, texts};
use crate::text::concat;
use vstd::prelude::*;

verus! {

broadcast use vstd::string::group_string_axioms;

/// The namespace of a file name. A file is indexed once for each of its names.
#[derive(Debug, Clone, Copy, PartialEq, Eq, Structural)]
pub enum Namespace {
    Posix,
    Win32,
    Dos,
    Win32AndDos,
}

/// Whether an index entry is passed over: it has no name, or it is the 8.3 alias of
/// a file that has another entry.
pub open spec fn key_is_skipped(key: Option<Namespace>) -> bool {
    key is None || key == Some(Namespace::Dos)
}

/// How many file records NTFS keeps for itself, from the first on.
pub const RESERVED_RECORDS: u64 = 24;

/// Whether an entry is no user's: the directory itself, or one of the metafiles that
/// NTFS keeps in its reserved file records (`$MFT`, `$Bitmap` and the like). A file of
/// a user may well have a name that starts with a dollar sign.
pub open spec fn is_hidden(name: Seq<char>, record: u64) -> bool {
    name == seq!['.'] || (record < RESERVED_RECORDS && name.len() > 0 && name[0] == '$')
}

/// Whether an index entry is passed over.
fn skips_key(key: Option<Namespace>) -> (skips: bool)
    ensures
        skips == key_is_skipped(key),
{
    match key {
        None => true,
        Some(Namespace::Dos) => true,
        Some(_) => false,
    }
}

/// Whether an entry is passed over in listings.
fn hides(name: &str, record: u64) -> (hides: bool)
    ensures
        hides == is_hidden(name@, record),
{
    if name.is_empty() {
        return false;
    }
    let first: char = name.get_char(0);
    if first == '.' && name.unicode_len() == 1 {
        assert(name@ =~= seq!['.']);
        return true;
    }
    assert(name@ != seq!['.']) by {
        if name@ == seq!['.'] {
            assert(name@[0] == '.' && name@.len() == 1);
        }
    }
    record < RESERVED_RECORDS && first == '$'
}

/// What the backend finds.
#[derive(Debug)]
pub enum Event {
    /// The next entry of the current directory's index, and the namespace of its name.
    Key(Option<Namespace>),
    /// The name of that entry, and the number of the file record that it leads to.
    Name(String, u64),
    /// The file of that entry, and whether it is a directory.
    Opened(bool),
    /// The length of that file's unnamed data stream, if it has one.
    Length(Option<u64>),
    /// The index has no more entries.
    End,
}

/// An [`Event`], as contracts speak of it.
pub enum EventView {
    Key(Option<Namespace>),
    Name(Seq<char>, u64),
    Opened(bool),
    Length(Option<u64>),
    End,
}

impl View for Event {
    type V = EventView;

    open spec fn view(&self) -> EventView {
        match self {
            Event::Key(key) => EventView::Key(*key),
            Event::Name(name, record) => EventView::Name(name@, *record),
            Event::Opened(is_dir) => EventView::Opened(*is_dir),
            Event::Length(length) => EventView::Length(*length),
            Event::End => EventView::End,
        }
    }
}

/// What the backend is to do next.
#[derive(Debug, Clone, Copy, PartialEq, Eq, Structural)]
pub enum Action {
    /// Go to the next entry of the current directory's index.
    NextEntry,
    /// Read the name of the entry.
    ReadName,
    /// Open the file of the entry.
    OpenFile,
    /// Find the length of the file.
    MeasureData,
    /// Go down into the file, which is a directory.
    EnterDirectory,
    /// Go back up, and on to the next entry there.
    LeaveDirectory,
    /// The file is the one that is searched for: stream its contents.
    ReadData,
    /// There is no such path.
    NotFound,
}

/// The length of a file: a file without an unnamed data stream is empty.
pub open spec fn length_or_zero(length: Option<u64>) -> u64 {
    match length {
        Some(n) => n,
        None => 0,
    }
}

/// How far a walk is with the current entry; the text is the path of that entry.
pub enum WalkPhase {
    Scanning,
    Naming,
    Opening(Seq<char>),
    Measuring(Seq<char>),
}

/// A walk, as contracts speak of it.
#[verifier::ext_equal]
pub struct WalkView {
    /// What the paths in each open directory start with, the root's first.
    pub prefixes: Seq<Seq<char>>,
    pub phase: WalkPhase,
    /// What has been listed.
    pub entries: Seq<EntryView>,
}

impl WalkView {
    /// Whether `event` may come now.
    pub open spec fn expects(self, event: EventView) -> bool {
        self.prefixes.len() > 0 && match event {
            EventView::Key(_) => self.phase is Scanning,
            EventView::Name(_, _) => self.phase is Naming,
            EventView::Opened(_) => self.phase is Opening,
            EventView::Length(_) => self.phase is Measuring,
            EventView::End => self.phase is Scanning,
        }
    }

    /// The walk after `event`.
    pub open spec fn next(self, event: EventView) -> WalkView {
        match event {
            EventView::Key(key) => if key_is_skipped(key) {
                self
            } else {
                WalkView { phase: WalkPhase::Naming, ..self }
            },
            EventView::Name(name, record) => if is_hidden(name, record) {
                WalkView { phase: WalkPhase::Scanning, ..self }
            } else {
                WalkView { phase: WalkPhase::Opening(self.prefixes.last() + name), ..self }
            },
            EventView::Opened(is_dir) => if is_dir {
                WalkView {
                    prefixes: self.prefixes.push(self.phase->Opening_0 + seq!['/']),
                    phase: WalkPhase::Scanning,
                    entries: self.entries.push(
                        EntryView { path: self.phase->Opening_0, size: 0, is_dir: true },
                    ),
                }
            } else {
                WalkView { phase: WalkPhase::Measuring(self.phase->Opening_0), ..self }
            },
            EventView::Length(length) => WalkView {
                phase: WalkPhase::Scanning,
                entries: self.entries.push(
                    EntryView {
                        path: self.phase->Measuring_0,
                        size: length_or_zero(length),
                        is_dir: false,
                    },
                ),
                ..self
            },
            EventView::End => WalkView { prefixes: self.prefixes.drop_last(), ..self },
        }
    }

    /// What the backend is told after `event`.
    pub open spec fn answer(self, event: EventView) -> Action {
        match event {
            EventView::Key(key) => if key_is_skipped(key) {
                Action::NextEntry
            } else {
                Action::ReadName
            },
            EventView::Name(name, record) => if is_hidden(name, record) {
                Action::NextEntry
            } else {
                Action::OpenFile
            },
            EventView::Opened(is_dir) => if is_dir {
                Action::EnterDirectory
            } else {
                Action::MeasureData
            },
            EventView::Length(_) => Action::NextEntry,
            EventView::End => Action::LeaveDirectory,
        }
    }
}

/// How far a walk is with the current entry, and the path of that entry.
#[derive(Debug)]
enum Phase {
    Scanning,
    Naming,
    Opening(String),
    Measuring(String),
}

/// A listing of the volume under way.
#[derive(Debug)]
pub struct Walk {
    prefixes: Vec<String>,
    phase: Phase,
    entries: Vec<Entry>,
}

impl View for Walk {
    type V = WalkView;

    closed spec fn view(&self) -> WalkView {
        WalkView {
            prefixes: texts(self.prefixes@),
            phase: match self.phase {
                Phase::Scanning => WalkPhase::Scanning,
                Phase::Naming => WalkPhase::Naming,
                Phase::Opening(path) => WalkPhase::Opening(path@),
                Phase::Measuring(path) => WalkPhase::Measuring(path@),
            },
            entries: entry_views(self.entries@),
        }
    }
}

impl Walk {
    /// Begin in the root directory.
    pub fn new() -> (walk: Walk)
        ensures
            walk@ == walk_start(),
    {
        let mut prefixes: Vec<String> = Vec::new();
        prefixes.push(String::new());
        let walk: Walk = Walk { prefixes, phase: Phase::Scanning, entries: Vec::new() };
        assert(walk@ =~= walk_start());
        walk
    }

    /// Take what the backend found and say what it is to do next.
    pub fn step(&mut self, event: Event) -> (action: Action)
        requires
            old(self)@.expects(event@),
        ensures
            final(self)@ == old(self)@.next(event@),
            action == old(self)@.answer(event@),
    {
        let ghost before = self@;
        match event {
            Event::Key(key) => {
                if skips_key(key) {
                    Action::NextEntry
                } else {
                    self.phase = Phase::Naming;
                    Action::ReadName
                }
            },
            Event::Name(name, record) => {
                if hides(name.as_str(), record) {
                    self.phase = Phase::Scanning;
                    Action::NextEntry
                } else {
                    let top: usize = self.prefixes.len() - 1;
                    let path: String = concat(self.prefixes[top].as_str(), name.as_str());
                    self.phase = Phase::Opening(path);
                    Action::OpenFile
                }
            },
            Event::Opened(is_dir) => {
                let path: String = self.pending_path();
                if is_dir {
                    let prefix: String = concat(path.as_str(), "/");
                    proof {
                        reveal_strlit("/");
                        assert(prefix@ =~= path@ + seq!['/']);
                    }
                    self.prefixes.push(prefix);
                    self.entries.push(Entry { path, size: 0, is_dir: true });
                    self.phase = Phase::Scanning;
                    assert(self@ =~= before.next(EventView::Opened(true)));
                    Action::EnterDirectory
                } else {
                    self.phase = Phase::Measuring(path);
                    Action::MeasureData
                }
            },
            Event::Length(length) => {
                let path: String = self.pending_path();
                let size: u64 = match length {
                    Some(n) => n,
                    None => 0,
                };
                self.entries.push(Entry { path, size, is_dir: false });
                self.phase = Phase::Scanning;
                assert(self@ =~= before.next(EventView::Length(length)));
                Action::NextEntry
            },
            Event::End => {
                self.prefixes.pop();
                assert(self@ =~= before.next(EventView::End));
                Action::LeaveDirectory
            },
        }
    }

    /// The path of the current entry.
    fn pending_path(&self) -> (path: String)
        ensures
            self@.phase matches WalkPhase::Opening(p) ==> path@ == p,
            self@.phase matches WalkPhase::Measuring(p) ==> path@ == p,
    {
        match &self.phase {
            Phase::Opening(path) => path.clone(),
            Phase::Measuring(path) => path.clone(),
            _ => String::new(),
        }
    }

    /// Whether the root directory has been left: nothing more is to come.
    pub fn is_done(&self) -> (done: bool)
        ensures
            done == (self@.prefixes.len() == 0),
    {
        self.prefixes.len() == 0
    }

    /// What has been listed.
    pub fn into_entries(self) -> (entries: Vec<Entry>)
        ensures
            entry_views(entries@) == self@.entries,
    {
        self.entries
    }
}

/// A walk that has just begun.
pub open spec fn walk_start() -> WalkView {
    WalkView {
        prefixes: seq![Seq::empty()],
        phase: WalkPhase::Scanning,
        entries: Seq::empty(),
    }
}

/// How far a search is.
#[derive(Debug, Clone, Copy, PartialEq, Eq, Structural)]
pub enum SearchPhase {
    Scanning,
    Naming,
    Opening,
    Found,
    Failed,
}

/// A search, as contracts speak of it.
#[verifier::ext_equal]
pub struct SearchView {
    /// The components of the path.
    pub parts: Seq<Seq<char>>,
    /// The component that is searched for in the current directory.
    pub at: int,
    pub phase: SearchPhase,
}

impl SearchView {
    /// Whether `event` may come now.
    pub open spec fn expects(self, event: EventView) -> bool {
        0 <= self.at < self.parts.len() && match event {
            EventView::Key(_) => self.phase is Scanning,
            EventView::Name(_, _) => self.phase is Naming,
            EventView::Opened(_) => self.phase is Opening,
            EventView::Length(_) => false,
            EventView::End => self.phase is Scanning,
        }
    }

    /// The search after `event`.
    pub open spec fn next(self, event: EventView) -> SearchView {
        match event {
            EventView::Key(key) => if key_is_skipped(key) {
                self
            } else {
                SearchView { phase: SearchPhase::Naming, ..self }
            },
            EventView::Name(name, _) => if name == self.parts[self.at] {
                SearchView { phase: SearchPhase::Opening, ..self }
            } else {
                SearchView { phase: SearchPhase::Scanning, ..self }
            },
            EventView::Opened(is_dir) => if self.at == self.parts.len() - 1 {
                SearchView { phase: SearchPhase::Found, ..self }
            } else if is_dir {
                SearchView { at: self.at + 1, phase: SearchPhase::Scanning, ..self }
            } else {
                SearchView { phase: SearchPhase::Failed, ..self }
            },
            _ => SearchView { phase: SearchPhase::Failed, ..self },
        }
    }

    /// What the backend is told after `event`.
    pub open spec fn answer(self, event: EventView) -> Action {
        match event {
            EventView::Key(key) => if key_is_skipped(key) {
                Action::NextEntry
            } else {
                Action::ReadName
            },
            EventView::Name(name, _) => if name == self.parts[self.at] {
                Action::OpenFile
            } else {
                Action::NextEntry
            },
            EventView::Opened(is_dir) => if self.at == self.parts.len() - 1 {
                Action::ReadData
            } else if is_dir {
                Action::EnterDirectory
            } else {
                Action::NotFound
            },
            _ => Action::NotFound,
        }
    }
}

/// A search for a path under way.
#[derive(Debug)]
pub struct Search {
    parts: Vec<String>,
    at: usize,
    phase: SearchPhase,
}

impl View for Search {
    type V = SearchView;

    closed spec fn view(&self) -> SearchView {
        SearchView { parts: texts(self.parts@), at: self.at as int, phase: self.phase }
    }
}

impl Search {
    /// Begin in the root directory.
    pub fn new(path: &str) -> (search: Search)
        ensures
            search@ == search_start(path@),
            search@.parts.len() > 0,
    {
        proof {
            lemma_components_from(path@, 0);
        }
        Search { parts: split_components(path), at: 0, phase: SearchPhase::Scanning }
    }

    /// Take what the backend found and say what it is to do next.
    pub fn step(&mut self, event: Event) -> (action: Action)
        requires
            old(self)@.expects(event@),
        ensures
            final(self)@ == old(self)@.next(event@),
            action == old(self)@.answer(event@),
    {
        match event {
            Event::Key(key) => {
                if skips_key(key) {
                    Action::NextEntry
                } else {
                    self.phase = SearchPhase::Naming;
                    Action::ReadName
                }
            },
            Event::Name(name, _) => {
                if name == self.parts[self.at] {
                    self.phase = SearchPhase::Opening;
                    Action::OpenFile
                } else {
                    self.phase = SearchPhase::Scanning;
                    Action::NextEntry
                }
            },
            Event::Opened(is_dir) => {
                if self.at == self.parts.len() - 1 {
                    self.phase = SearchPhase::Found;
                    Action::ReadData
                } else if is_dir {
                    self.at = self.at + 1;
                    self.phase = SearchPhase::Scanning;
                    Action::EnterDirectory
                } else {
                    self.phase = SearchPhase::Failed;
                    Action::NotFound
                }
            },
            _ => {
                self.phase = SearchPhase::Failed;
                Action::NotFound
            },
        }
    }
}

/// A search that has just begun.
pub open spec fn search_start(path: Seq<char>) -> SearchView {
    SearchView { parts: components(path), at: 0, phase: SearchPhase::Scanning }
}

} // verus!
