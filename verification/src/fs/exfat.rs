//! exFAT: how the directories are walked and searched.

use super::{entry_views, Entry, EntryView};
use crate::failure::{Failure, FailureKind};
use crate::path::{head_of, split_first, tail_of, texts};
use crate::text::concat;
use vstd::prelude::*;

verus! {

broadcast use vstd::string::group_string_axioms;

/// What becomes of the attempt to open a directory.
#[derive(Debug, Clone, Copy, PartialEq, Eq, Structural)]
pub enum Opening {
    /// It is open.
    Opened,
    /// It has no clusters: nothing lies in it, and there is nothing to open.
    NoClusters,
    /// It could not be opened.
    Failed,
}

/// What the backend finds.
#[derive(Debug)]
pub enum Event {
    /// The next item of the current directory is a file with this name and length.
    File(String, u64),
    /// The next item of the current directory is a directory with this name.
    Directory(String),
    /// What became of the attempt to open that directory.
    Opened(Opening),
    /// The current directory has no more items.
    End,
}

/// An [`Event`], as contracts speak of it.
pub enum EventView {
    File(Seq<char>, u64),
    Directory(Seq<char>),
    Opened(Opening),
    End,
}

impl View for Event {
    type V = EventView;

    open spec fn view(&self) -> EventView {
        match self {
            Event::File(name, length) => EventView::File(name@, *length),
            Event::Directory(name) => EventView::Directory(name@),
            Event::Opened(opening) => EventView::Opened(*opening),
            Event::End => EventView::End,
        }
    }
}

/// What the backend is to do next.
#[derive(Debug, Clone, Copy, PartialEq, Eq, Structural)]
pub enum Action {
    /// Go to the next item of the current directory.
    NextItem,
    /// Open the item, which is a directory.
    OpenDirectory,
    /// Go down into the directory that has been opened.
    EnterDirectory,
    /// Go back up, and on to the next item there.
    LeaveDirectory,
    /// The item is the file that is searched for: stream its contents.
    CopyFile,
    /// There is no such file.
    NotFound,
    /// A directory is not open: stop, with the backend's error.
    GiveUp,
}

/// How far a walk is with the current item; the text is the path of that item.
pub enum WalkPhase {
    Scanning,
    Opening(Seq<char>),
    /// A directory could not be opened.
    Failed,
}

/// A walk, as contracts speak of it.
#[verifier::ext_equal]
pub struct WalkView {
    /// What the paths in each open directory start with, the root's first.
    pub prefixes: Seq<Seq<char>>,
    pub phase: WalkPhase,
    /// What has been listed.
    pub entries: Seq<EntryView>,
}

impl WalkView {
    /// Whether `event` may come now.
    pub open spec fn expects(self, event: EventView) -> bool {
        self.prefixes.len() > 0 && match event {
            EventView::Opened(_) => self.phase is Opening,
            _ => self.phase is Scanning,
        }
    }

    /// The walk after `event`.
    pub open spec fn next(self, event: EventView) -> WalkView {
        match event {
            EventView::File(name, length) => WalkView {
                entries: self.entries.push(
                    EntryView { path: self.prefixes.last() + name, size: length, is_dir: false },
                ),
                ..self
            },
            EventView::Directory(name) => WalkView {
                phase: WalkPhase::Opening(self.prefixes.last() + name),
                entries: self.entries.push(
                    EntryView { path: self.prefixes.last() + name, size: 0, is_dir: true },
                ),
                ..self
            },
            EventView::Opened(Opening::Opened) => WalkView {
                prefixes: self.prefixes.push(self.phase->Opening_0 + seq!['/']),
                phase: WalkPhase::Scanning,
                ..self
            },
            EventView::Opened(Opening::NoClusters) => WalkView {
                phase: WalkPhase::Scanning,
                ..self
            },
            EventView::Opened(Opening::Failed) => WalkView { phase: WalkPhase::Failed, ..self },
            EventView::End => WalkView { prefixes: self.prefixes.drop_last(), ..self },
        }
    }

    /// What the backend is told after `event`. A directory without clusters is listed,
    /// and nothing below it. A listing holds every file and directory of the volume, so
    /// a directory that cannot be opened ends it.
    pub open spec fn answer(self, event: EventView) -> Action {
        match event {
            EventView::File(_, _) => Action::NextItem,
            EventView::Directory(_) => Action::OpenDirectory,
            EventView::Opened(Opening::Opened) => Action::EnterDirectory,
            EventView::Opened(Opening::NoClusters) => Action::NextItem,
            EventView::Opened(Opening::Failed) => Action::GiveUp,
            EventView::End => Action::LeaveDirectory,
        }
    }
}

/// A walk that has just begun.
pub open spec fn walk_start() -> WalkView {
    WalkView {
        prefixes: seq![Seq::empty()],
        phase: WalkPhase::Scanning,
        entries: Seq::empty(),
    }
}

/// How far a walk is with the current item, and the path of that item.
#[derive(Debug)]
enum Phase {
    Scanning,
    Opening(String),
    Failed,
}

/// A listing of the volume under way.
#[derive(Debug)]
pub struct Walk {
    prefixes: Vec<String>,
    phase: Phase,
    entries: Vec<Entry>,
}

impl View for Walk {
    type V = WalkView;

    closed spec fn view(&self) -> WalkView {
        WalkView {
            prefixes: texts(self.prefixes@),
            phase: match self.phase {
                Phase::Scanning => WalkPhase::Scanning,
                Phase::Opening(path) => WalkPhase::Opening(path@),
                Phase::Failed => WalkPhase::Failed,
            },
            entries: entry_views(self.entries@),
        }
    }
}

impl Walk {
    /// Begin in the root directory.
    pub fn new() -> (walk: Walk)
        ensures
            walk@ == walk_start(),
    {
        let mut prefixes: Vec<String> = Vec::new();
        prefixes.push(String::new());
        let walk: Walk = Walk { prefixes, phase: Phase::Scanning, entries: Vec::new() };
        assert(walk@ =~= walk_start());
        walk
    }

    /// Take what the backend found and say what it is to do next.
    pub fn step(&mut self, event: Event) -> (action: Action)
        requires
            old(self)@.expects(event@),
        ensures
            final(self)@ == old(self)@.next(event@),
            action == old(self)@.answer(event@),
    {
        let ghost before = self@;
        match event {
            Event::File(name, length) => {
                let path: String = self.path_of(name.as_str());
                self.entries.push(Entry { path, size: length, is_dir: false });
                assert(self@ =~= before.next(EventView::File(name@, length)));
                Action::NextItem
            },
            Event::Directory(name) => {
                let path: String = self.path_of(name.as_str());
                self.phase = Phase::Opening(path.clone());
                self.entries.push(Entry { path, size: 0, is_dir: true });
                assert(self@ =~= before.next(EventView::Directory(name@)));
                Action::OpenDirectory
            },
            Event::Opened(opening) => {
                let action: Action = match opening {
                    Opening::Opened => {
                        let path: String = match &self.phase {
                            Phase::Opening(path) => path.clone(),
                            _ => String::new(),
                        };
                        let prefix: String = concat(path.as_str(), "/");
                        proof {
                            reveal_strlit("/");
                            assert(prefix@ =~= path@ + seq!['/']);
                        }
                        self.prefixes.push(prefix);
                        self.phase = Phase::Scanning;
                        Action::EnterDirectory
                    },
                    Opening::NoClusters => {
                        self.phase = Phase::Scanning;
                        Action::NextItem
                    },
                    Opening::Failed => {
                        self.phase = Phase::Failed;
                        Action::GiveUp
                    },
                };
                assert(self@ =~= before.next(EventView::Opened(opening)));
                action
            },
            Event::End => {
                self.prefixes.pop();
                assert(self@ =~= before.next(EventView::End));
                Action::LeaveDirectory
            },
        }
    }

    /// The path of an item of the current directory.
    fn path_of(&self, name: &str) -> (path: String)
        requires
            self@.prefixes.len() > 0,
        ensures
            path@ == self@.prefixes.last() + name@,
    {
        let top: usize = self.prefixes.len() - 1;
        concat(self.prefixes[top].as_str(), name)
    }

    /// Whether the root directory has been left: nothing more is to come.
    pub fn is_done(&self) -> (done: bool)
        ensures
            done == (self@.prefixes.len() == 0),
    {
        self.prefixes.len() == 0
    }

    /// What has been listed.
    pub fn into_entries(self) -> (entries: Vec<Entry>)
        ensures
            entry_views(entries@) == self@.entries,
    {
        self.entries
    }
}

/// How far a search is.
#[derive(Debug, Clone, Copy, PartialEq, Eq, Structural)]
pub enum SearchPhase {
    Scanning,
    Opening,
    Found,
    Failed,
    /// A directory on the way is not open.
    Barred,
}

/// A search, as contracts speak of it.
#[verifier::ext_equal]
pub struct SearchView {
    /// The path that is searched for from the current directory on.
    pub target: Seq<char>,
    pub phase: SearchPhase,
}

/// Whether a file with this name is the one that `target` leads to.
pub open spec fn is_target(target: Seq<char>, name: Seq<char>) -> bool {
    tail_of(target).len() == 0 && name == head_of(target)
}

/// Whether `target` leads through a directory with this name.
pub open spec fn is_on_the_way(target: Seq<char>, name: Seq<char>) -> bool {
    tail_of(target).len() > 0 && name == head_of(target)
}

impl SearchView {
    /// Whether `event` may come now.
    pub open spec fn expects(self, event: EventView) -> bool {
        match event {
            EventView::Opened(_) => self.phase is Opening,
            _ => self.phase is Scanning,
        }
    }

    /// The search after `event`.
    pub open spec fn next(self, event: EventView) -> SearchView {
        match event {
            EventView::File(name, _) => if is_target(self.target, name) {
                SearchView { phase: SearchPhase::Found, ..self }
            } else {
                self
            },
            EventView::Directory(name) => if is_on_the_way(self.target, name) {
                SearchView { phase: SearchPhase::Opening, ..self }
            } else {
                self
            },
            EventView::Opened(Opening::Opened) => SearchView {
                target: tail_of(self.target),
                phase: SearchPhase::Scanning,
            },
            EventView::Opened(_) => SearchView { phase: SearchPhase::Barred, ..self },
            EventView::End => SearchView { phase: SearchPhase::Failed, ..self },
        }
    }

    /// What the backend is told after `event`. A directory on the way that is not open,
    /// for whatever reason, ends the search.
    pub open spec fn answer(self, event: EventView) -> Action {
        match event {
            EventView::File(name, _) => if is_target(self.target, name) {
                Action::CopyFile
            } else {
                Action::NextItem
            },
            EventView::Directory(name) => if is_on_the_way(self.target, name) {
                Action::OpenDirectory
            } else {
                Action::NextItem
            },
            EventView::Opened(Opening::Opened) => Action::EnterDirectory,
            EventView::Opened(_) => Action::GiveUp,
            EventView::End => Action::NotFound,
        }
    }
}

/// A search that has just begun.
pub open spec fn search_start(path: Seq<char>) -> SearchView {
    SearchView { target: path, phase: SearchPhase::Scanning }
}

/// A search for a file under way.
#[derive(Debug)]
pub struct Search {
    target: String,
    phase: SearchPhase,
}

impl View for Search {
    type V = SearchView;

    closed spec fn view(&self) -> SearchView {
        SearchView { target: self.target@, phase: self.phase }
    }
}

impl Search {
    /// Begin in the root directory.
    pub fn new(path: &str) -> (search: Search)
        ensures
            search@ == search_start(path@),
    {
        Search { target: path.to_owned(), phase: SearchPhase::Scanning }
    }

    /// Take what the backend found and say what it is to do next.
    pub fn step(&mut self, event: Event) -> (action: Action)
        requires
            old(self)@.expects(event@),
        ensures
            final(self)@ == old(self)@.next(event@),
            action == old(self)@.answer(event@),
    {
        let (head, tail): (String, String) = split_first(self.target.as_str());
        match event {
            Event::File(name, _) => {
                if tail.as_str().is_empty() && name == head {
                    self.phase = SearchPhase::Found;
                    Action::CopyFile
                } else {
                    Action::NextItem
                }
            },
            Event::Directory(name) => {
                if !tail.as_str().is_empty() && name == head {
                    self.phase = SearchPhase::Opening;
                    Action::OpenDirectory
                } else {
                    Action::NextItem
                }
            },
            Event::Opened(opening) => {
                if opening == Opening::Opened {
                    self.target = tail;
                    self.phase = SearchPhase::Scanning;
                    Action::EnterDirectory
                } else {
                    self.phase = SearchPhase::Barred;
                    Action::GiveUp
                }
            },
            Event::End => {
                self.phase = SearchPhase::Failed;
                Action::NotFound
            },
        }
    }
}

/// No file of the volume is the one that was searched for.
pub fn file_not_found() -> (failure: Failure)
    ensures
        failure.says(FailureKind::NotFound, "file not found in volume"@),
{
    Failure::new(FailureKind::NotFound, "file not found in volume")
}

} // verus!
