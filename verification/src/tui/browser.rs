//! The browser's state: where the user is in the tree, and what each key does.

use super::plan::{
    can_strip, jobs_size, law_plan_matches_stats, plan_extraction, plan_extracts, strips, Plan,
};
use super::subtree::{
    checked_stats, lemma_tree_links_down, stats_below, subtree_stats,
};
use super::tree::{build_tree, is_tree, path_order, shows_entries, Node};
use super::tree_laws::{law_counts_are_bounded, law_node_is_listed_once};
use crate::failure::{Failure, FailureKind};
use crate::format::{
    decimal, human_size, left_aligned, push_decimal, push_left_aligned, push_right_aligned,
    right_aligned, size_text,
};
use crate::fs::{Entry, Filesystem};
use crate::text::concat;
use vstd::arithmetic::div_mod::{
    lemma_fundamental_div_mod, lemma_fundamental_div_mod_converse, lemma_mod_add_multiples_vanish,
    lemma_small_mod, lemma_sub_mod_noop,
};
use vstd::prelude::*;

verus! {

broadcast use vstd::string::group_string_axioms;

/// A key of the keyboard, as far as the browser knows it.
#[derive(Debug, Clone, Copy, PartialEq, Eq, Structural)]
pub enum Key {
    Char(char),
    Esc,
    Up,
    Down,
    Left,
    Right,
    Enter,
    Backspace,
    Other,
}

/// What the terminal reports.
#[derive(Debug, Clone, Copy, PartialEq, Eq, Structural)]
pub enum InputEvent {
    /// A key was pressed.
    Press(Key),
    /// A key was released or repeated, or something else happened.
    Other,
}

/// What the caller is to do next.
#[derive(Debug, Clone, Copy, PartialEq, Eq, Structural)]
pub enum Action {
    /// Draw the screen and wait for the next event.
    Continue,
    /// Leave the browser.
    Quit,
    /// Extract this node.
    Extract(usize),
}

/// What a key asks for while no popup is open.
#[derive(Debug, Clone, Copy, PartialEq, Eq, Structural)]
pub enum Command {
    Quit,
    Next,
    Previous,
    Open,
    GoUp,
    Info,
    Extract,
    Nothing,
}

/// What a key asks for.
pub open spec fn command_of(key: Key) -> Command {
    match key {
        Key::Char(c) => if c == 'q' {
            Command::Quit
        } else if c == 'j' {
            Command::Next
        } else if c == 'k' {
            Command::Previous
        } else if c == 'l' {
            Command::Open
        } else if c == 'h' {
            Command::GoUp
        } else if c == 'i' {
            Command::Info
        } else if c == 'e' {
            Command::Extract
        } else {
            Command::Nothing
        },
        Key::Esc => Command::Quit,
        Key::Down => Command::Next,
        Key::Up => Command::Previous,
        Key::Enter => Command::Open,
        Key::Right => Command::Open,
        Key::Left => Command::GoUp,
        Key::Backspace => Command::GoUp,
        Key::Other => Command::Nothing,
    }
}

/// What a key asks for.
pub fn command(key: Key) -> (command: Command)
    ensures
        command == command_of(key),
{
    match key {
        Key::Char(c) => if c == 'q' {
            Command::Quit
        } else if c == 'j' {
            Command::Next
        } else if c == 'k' {
            Command::Previous
        } else if c == 'l' {
            Command::Open
        } else if c == 'h' {
            Command::GoUp
        } else if c == 'i' {
            Command::Info
        } else if c == 'e' {
            Command::Extract
        } else {
            Command::Nothing
        },
        Key::Esc => Command::Quit,
        Key::Down => Command::Next,
        Key::Up => Command::Previous,
        Key::Enter => Command::Open,
        Key::Right => Command::Open,
        Key::Left => Command::GoUp,
        Key::Backspace => Command::GoUp,
        Key::Other => Command::Nothing,
    }
}

/// What the browser is made of, as its contracts speak of it.
#[verifier::ext_equal]
pub struct BrowserView {
    pub nodes: Seq<Node>,
    /// Directories from the root down to the current one.
    pub stack: Seq<usize>,
    /// The cursor among the children of the current directory.
    pub selected: Option<usize>,
    /// The text of the popup, while one is open.
    pub popup: Option<Seq<char>>,
}

impl BrowserView {
    /// Whether the stack leads down a tree and the cursor is where it may be.
    pub open spec fn wf(self) -> bool {
        &&& is_tree(self.nodes)
        &&& self.stack.len() > 0
        &&& self.stack[0] == 0
        &&& forall|i: int|
            0 <= i < self.stack.len() ==> #[trigger] self.stack[i] < self.nodes.len()
                && self.nodes[self.stack[i] as int].is_dir
        &&& forall|i: int, j: int|
            #![trigger self.stack[i], self.stack[j]]
            0 <= i && j == i + 1 && j < self.stack.len()
                ==> self.nodes[self.stack[i] as int].children@.contains(self.stack[j])
        &&& self.selected matches Some(s) ==> s == 0 || s < self.children().len()
    }

    /// Whether this is the browser as it starts on a list of entries: in the root of
    /// their tree, at its first child.
    pub open spec fn shows(self, entries: Seq<Entry>) -> bool {
        &&& self.wf()
        &&& exists|order: Seq<usize>| #[trigger]
            path_order(entries, order) && shows_entries(entries, order, self.nodes)
        &&& self.stack == seq![0usize]
        &&& self.selected == Some(0usize)
        &&& self.popup is None
    }

    /// The current directory.
    pub open spec fn dir(self) -> int {
        self.stack.last() as int
    }

    /// What the current directory holds.
    pub open spec fn children(self) -> Seq<usize> {
        self.nodes[self.dir()].children@
    }

    /// The node under the cursor.
    pub open spec fn selected_node(self) -> Option<usize> {
        match self.selected {
            Some(s) => if s < self.children().len() {
                Some(self.children()[s as int])
            } else {
                None
            },
            None => None,
        }
    }

    /// The cursor moved by `delta` rows, round the end.
    pub open spec fn moved(self, delta: int) -> BrowserView {
        let len = self.children().len() as int;
        let cur = match self.selected {
            Some(s) => s as int,
            None => 0,
        };
        if len == 0 {
            self
        } else {
            BrowserView { selected: Some(((cur + delta) % len) as usize), ..self }
        }
    }

    /// The popup opened on the node under the cursor.
    pub open spec fn informed(self) -> BrowserView {
        match self.selected_node() {
            Some(idx) => BrowserView { popup: Some(info_text(self.nodes, idx as int)), ..self },
            None => self,
        }
    }

    /// The node under the cursor opened: a directory entered, a file shown in a popup.
    pub open spec fn entered(self) -> BrowserView {
        match self.selected_node() {
            Some(idx) => if self.nodes[idx as int].is_dir {
                BrowserView {
                    stack: self.stack.push(idx),
                    selected: if self.nodes[idx as int].children@.len() == 0 {
                        None
                    } else {
                        Some(0)
                    },
                    ..self
                }
            } else {
                self.informed()
            },
            None => self,
        }
    }

    /// Whether `next` is this view with the current directory left: the cursor stands
    /// on the directory that was left.
    pub open spec fn left_to(self, next: BrowserView) -> bool {
        if self.stack.len() > 1 {
            &&& next.nodes == self.nodes
            &&& next.stack == self.stack.drop_last()
            &&& next.popup == self.popup
            &&& next.selected_node() == Some(self.stack.last())
        } else {
            next == self
        }
    }

    /// Whether the popup on the node under the cursor has numbers that can be held.
    pub open spec fn info_fits(self) -> bool {
        self.selected_node() matches Some(idx) ==> self.nodes[idx as int].is_dir ==> stats_below(
            self.nodes,
            idx as int,
        ).total <= u64::MAX
    }
}

/// Each directory of the stack holds the next one.
proof fn lemma_stack_links(v: BrowserView, i: int)
    requires
        v.wf(),
        0 < i < v.stack.len(),
    ensures
        v.stack[i - 1] < v.nodes.len(),
        v.stack[i] < v.nodes.len(),
        v.nodes[v.stack[i - 1] as int].children@.contains(v.stack[i]),
{
    assert(v.stack[i] < v.nodes.len());
    assert(v.stack[i - 1] < v.nodes.len());
}

/// Entering a directory keeps the browser in order.
proof fn lemma_entered_wf(v: BrowserView, idx: usize)
    requires
        v.wf(),
        v.selected_node() == Some(idx),
        idx < v.nodes.len(),
        v.nodes[idx as int].is_dir,
    ensures
        v.entered().wf(),
{
    let w = v.entered();
    assert(v.children().contains(idx));
    assert forall|i: int| 0 <= i < w.stack.len() implies #[trigger] w.stack[i] < w.nodes.len()
        && w.nodes[w.stack[i] as int].is_dir by {
        if i < v.stack.len() {
            assert(v.stack[i] < v.nodes.len());
        }
    }
    assert forall|i: int, j: int|
        #![trigger w.stack[i], w.stack[j]]
        0 <= i && j == i + 1 && j < w.stack.len() implies w.nodes[w.stack[i] as int].children@.contains(
        w.stack[j],
    ) by {
        if j < v.stack.len() {
            lemma_stack_links(v, j);
        }
    }
}

/// Leaving a directory keeps the browser in order.
proof fn lemma_left_wf(v: BrowserView, w: BrowserView)
    requires
        v.wf(),
        v.stack.len() > 1,
        w.nodes == v.nodes,
        w.stack == v.stack.drop_last(),
        w.selected matches Some(s) && s < w.children().len(),
    ensures
        w.wf(),
{
    assert forall|i: int| 0 <= i < w.stack.len() implies #[trigger] w.stack[i] < w.nodes.len()
        && w.nodes[w.stack[i] as int].is_dir by {
        assert(v.stack[i] < v.nodes.len());
    }
    assert forall|i: int, j: int|
        #![trigger w.stack[i], w.stack[j]]
        0 <= i && j == i + 1 && j < w.stack.len() implies w.nodes[w.stack[i] as int].children@.contains(
        w.stack[j],
    ) by {
        lemma_stack_links(v, j);
    }
}

/// The text of the popup on node `idx`.
pub open spec fn info_text(nodes: Seq<Node>, idx: int) -> Seq<char> {
    let node = nodes[idx];
    if node.is_dir {
        let s = stats_below(nodes, idx);
        "Directory  /"@ + node.path@ + "\n\nContains : "@ + decimal(s.files) + " file(s), "@
            + decimal(s.dirs) + " subdir(s)\nTotal    : "@ + size_text(s.total as u64)
            + "\n\ne = extract recursively   any key = close"@
    } else {
        "File  /"@ + node.path@ + "\n\nSize : "@ + size_text(node.size) + " ("@ + decimal(
            node.size as nat,
        ) + " bytes)\n\ne = extract   any key = close"@
    }
}

/// The row that shows a node.
pub open spec fn row_text(node: Node) -> Seq<char> {
    if node.is_dir {
        "[DIR]  "@ + node.name@ + "/"@
    } else {
        "       "@ + left_aligned(node.name@, 28) + " "@ + right_aligned(
            size_text(node.size),
            10,
            ' ',
        )
    }
}

/// The row that shows a node.
pub fn row_label(node: &Node) -> (label: String)
    ensures
        label@ == row_text(*node),
{
    if node.is_dir {
        let mut label: String = concat("[DIR]  ", node.name.as_str());
        label.append("/");
        label
    } else {
        let mut label: String = "       ".to_owned();
        push_left_aligned(&mut label, node.name.as_str(), 28);
        label.append(" ");
        push_right_aligned(&mut label, human_size(node.size).as_str(), 10, ' ');
        label
    }
}

/// The keys, as the footer of the screen names them.
pub fn footer() -> (hints: &'static str)
    ensures
        hints@
            == "up/down move    enter/right open    left/bksp up    e extract    i info    q quit"@,
{
    "up/down move    enter/right open    left/bksp up    e extract    i info    q quit"
}

/// The browser.
#[derive(Debug)]
pub struct Browser {
    nodes: Vec<Node>,
    stack: Vec<usize>,
    selected: Option<usize>,
    popup: Option<String>,
}

impl View for Browser {
    type V = BrowserView;

    closed spec fn view(&self) -> BrowserView {
        BrowserView {
            nodes: self.nodes@,
            stack: self.stack@,
            selected: self.selected,
            popup: match self.popup {
                Some(text) => Some(text@),
                None => None,
            },
        }
    }
}

impl Browser {
    /// Browse a list of entries, from the root on.
    pub fn new(entries: Vec<Entry>) -> (browser: Browser)
        ensures
            browser@.shows(entries@),
    {
        let nodes: Vec<Node> = build_tree(entries);
        let mut stack: Vec<usize> = Vec::new();
        stack.push(0);
        Browser { nodes, stack, selected: Some(0), popup: None }
    }

    /// Browse what the listing of a filesystem came to.
    pub fn from_listing(listing: Result<Vec<Entry>, Failure>) -> (browser: Result<Browser, Failure>)
        ensures
            match listing {
                Ok(entries) => browser matches Ok(b) && b@.shows(entries@),
                Err(e) => browser matches Err(f) && f.says(
                    FailureKind::Other,
                    "listing failed: "@ + e.message@,
                ),
            },
    {
        match listing {
            Ok(entries) => Ok(Browser::new(entries)),
            Err(e) => Err(
                Failure {
                    kind: FailureKind::Other,
                    message: concat("listing failed: ", e.message.as_str()),
                },
            ),
        }
    }

    /// Browse a mounted filesystem. What the filesystem lists is its own affair: where it
    /// lists something, that is what the browser shows, and where it fails, so does this.
    pub fn open<F: Filesystem>(filesystem: &mut F) -> (browser: Result<Browser, Failure>)
        ensures
            match browser {
                Ok(b) => exists|entries: Seq<Entry>| #[trigger] b@.shows(entries),
                Err(f) => exists|why: Seq<char>|
                    f.says(FailureKind::Other, #[trigger] ("listing failed: "@ + why)),
            },
    {
        Browser::from_listing(filesystem.list())
    }

    /// The current directory.
    pub fn current_dir(&self) -> (dir: usize)
        requires
            self@.wf(),
        ensures
            dir == self@.dir(),
    {
        self.stack[self.stack.len() - 1]
    }

    /// What the current directory holds.
    pub fn children(&self) -> (children: &Vec<usize>)
        requires
            self@.wf(),
        ensures
            children@ == self@.children(),
    {
        let dir: usize = self.current_dir();
        &self.nodes[dir].children
    }

    /// All nodes.
    pub fn nodes(&self) -> (nodes: &Vec<Node>)
        ensures
            nodes@ == self@.nodes,
    {
        &self.nodes
    }

    /// The cursor among the children of the current directory.
    pub fn selected(&self) -> (selected: Option<usize>)
        ensures
            selected == self@.selected,
    {
        self.selected
    }

    /// The text of the popup, while one is open.
    pub fn popup(&self) -> (popup: Option<&String>)
        ensures
            match popup {
                Some(text) => self@.popup == Some(text@),
                None => self@.popup is None,
            },
    {
        match &self.popup {
            Some(text) => Some(text),
            None => None,
        }
    }

    /// The node under the cursor.
    pub fn selected_node(&self) -> (node: Option<usize>)
        requires
            self@.wf(),
        ensures
            node == self@.selected_node(),
    {
        match self.selected {
            Some(s) => {
                let children: &Vec<usize> = self.children();
                if s < children.len() {
                    Some(children[s])
                } else {
                    None
                }
            },
            None => None,
        }
    }

    /// Move the cursor by `delta` rows, round the end.
    pub fn move_cursor(&mut self, delta: isize)
        requires
            old(self)@.wf(),
        ensures
            final(self)@ == old(self)@.moved(delta as int),
            final(self)@.wf(),
    {
        let len: usize = self.children().len();
        if len == 0 {
            return;
        }
        let cur: usize = match self.selected {
            Some(s) => s,
            None => 0,
        };
        let next: usize = wrap(cur, delta, len);
        self.selected = Some(next);
        assert(self@ =~= old(self)@.moved(delta as int));
    }

    /// Open the node under the cursor: enter a directory, show a file in a popup.
    pub fn enter(&mut self)
        requires
            old(self)@.wf(),
        ensures
            final(self)@ == old(self)@.entered(),
            final(self)@.wf(),
    {
        let idx: usize = match self.selected_node() {
            Some(idx) => idx,
            None => {
                return;
            },
        };
        proof {
            assert(self@.children().contains(idx));
        }
        if self.nodes[idx].is_dir {
            let ghost before = self@;
            self.stack.push(idx);
            self.selected = if self.nodes[idx].children.len() == 0 {
                None
            } else {
                Some(0)
            };
            proof {
                assert(self@ =~= before.entered());
                lemma_entered_wf(before, idx);
            }
        } else {
            self.show_info();
        }
    }

    /// Leave the current directory. The cursor goes back onto it.
    pub fn go_up(&mut self)
        requires
            old(self)@.wf(),
        ensures
            old(self)@.left_to(final(self)@),
            final(self)@.wf(),
    {
        if self.stack.len() > 1 {
            let ghost before = self@;
            let left: usize = self.stack[self.stack.len() - 1];
            let dir: usize = self.stack[self.stack.len() - 2];
            proof {
                lemma_stack_links(before, before.stack.len() - 1);
            }
            let pos: usize = position(&self.nodes[dir].children, left);
            self.stack.pop();
            self.selected = Some(pos);
            proof {
                assert(self@.stack =~= before.stack.drop_last());
                lemma_left_wf(before, self@);
            }
        }
    }

    /// The path of the current directory.
    pub fn current_path_display(&self) -> (path: String)
        requires
            self@.wf(),
        ensures
            path@ == "/"@ + self@.nodes[self@.dir()].path@,
    {
        let dir: usize = self.current_dir();
        concat("/", self.nodes[dir].path.as_str())
    }

    /// The rows that show what the current directory holds.
    pub fn rows(&self) -> (rows: Vec<String>)
        requires
            self@.wf(),
        ensures
            rows@.len() == self@.children().len(),
            forall|i: int|
                0 <= i < rows@.len() ==> (#[trigger] rows@[i])@ == row_text(
                    self@.nodes[self@.children()[i] as int],
                ),
    {
        let dir: usize = self.current_dir();
        let count: usize = self.nodes[dir].children.len();
        let mut rows: Vec<String> = Vec::new();
        let mut k: usize = 0;
        while k < count
            invariant
                self@.wf(),
                dir == self@.dir(),
                dir < self@.nodes.len(),
                count == self@.children().len(),
                k <= count,
                rows@.len() == k,
                forall|i: int|
                    0 <= i < k ==> (#[trigger] rows@[i])@ == row_text(
                        self@.nodes[self@.children()[i] as int],
                    ),
            decreases count - k,
        {
            let child: usize = self.nodes[dir].children[k];
            assert(self@.children().contains(child));
            rows.push(row_label(&self.nodes[child]));
            k = k + 1;
        }
        rows
    }

    /// Whether the popup on the node under the cursor has numbers that can be held.
    pub fn info_fits(&self) -> (fits: bool)
        requires
            self@.wf(),
        ensures
            fits == self@.info_fits(),
    {
        match self.selected_node() {
            Some(idx) => {
                proof {
                    assert(self@.children().contains(idx));
                    lemma_tree_links_down(self@.nodes);
                    law_counts_are_bounded(
                        self@.nodes,
                        idx as int,
                        self@.nodes[idx as int].children@.len() as int,
                    );
                }
                assert(self@.nodes.len() == self.nodes.len());
                if self.nodes[idx].is_dir {
                    checked_stats(&self.nodes, idx).is_some()
                } else {
                    true
                }
            },
            None => true,
        }
    }

    /// Open the popup on the node under the cursor.
    pub fn show_info(&mut self)
        requires
            old(self)@.wf(),
            old(self)@.info_fits(),
        ensures
            final(self)@ == old(self)@.informed(),
            final(self)@.wf(),
    {
        let idx: usize = match self.selected_node() {
            Some(idx) => idx,
            None => {
                return;
            },
        };
        proof {
            assert(self@.children().contains(idx));
        }
        let text: String = info(&self.nodes, idx);
        self.popup = Some(text);
        assert(self@ =~= old(self)@.informed());
    }

    /// What the extraction of node `idx` is to write.
    pub fn plan_extraction(&self, idx: usize) -> (plan: Plan)
        requires
            self@.wf(),
            idx < self@.nodes.len(),
            self@.nodes[idx as int].is_dir ==> can_strip(self@.nodes, idx as int),
        ensures
            plan_extracts(plan, self@.nodes, idx as int),
    {
        proof {
            lemma_tree_links_down(self@.nodes);
        }
        plan_extraction(&self.nodes, idx)
    }

    /// Whether node `idx` can be extracted: the paths below it can be shortened, and the
    /// size of its files can be held.
    pub fn can_extract(&self, idx: usize) -> (can: bool)
        requires
            self@.wf(),
            idx < self@.nodes.len(),
        ensures
            can == (self@.nodes[idx as int].is_dir ==> can_strip(self@.nodes, idx as int)
                && stats_below(self@.nodes, idx as int).total <= u64::MAX),
            can ==> forall|plan: Plan| #[trigger]
                plan_extracts(plan, self@.nodes, idx as int) ==> jobs_size(plan.jobs@) <= u64::MAX,
    {
        proof {
            lemma_tree_links_down(self@.nodes);
            law_counts_are_bounded(
                self@.nodes,
                idx as int,
                self@.nodes[idx as int].children@.len() as int,
            );
            assert forall|plan: Plan| #[trigger]
                plan_extracts(plan, self@.nodes, idx as int) && (self@.nodes[idx as int].is_dir
                    ==> stats_below(self@.nodes, idx as int).total <= u64::MAX) implies jobs_size(
                plan.jobs@,
            ) <= u64::MAX by {
                if self@.nodes[idx as int].is_dir {
                    law_plan_matches_stats(plan, self@.nodes, idx as int);
                } else {
                    reveal_with_fuel(jobs_size, 2);
                }
            }
        }
        assert(self@.nodes.len() == self.nodes.len());
        if self.nodes[idx].is_dir {
            strips(&self.nodes, idx) && checked_stats(&self.nodes, idx).is_some()
        } else {
            true
        }
    }

    /// Take an event from the terminal.
    pub fn on_event(&mut self, event: InputEvent) -> (action: Action)
        requires
            old(self)@.wf(),
            event == InputEvent::Press(Key::Char('i')) && old(self)@.popup is None ==> old(
                self,
            )@.info_fits(),
        ensures
            final(self)@.wf(),
            step(old(self)@, event, final(self)@, action),
    {
        let key: Key = match event {
            InputEvent::Press(key) => key,
            InputEvent::Other => {
                return Action::Continue;
            },
        };
        if self.popup.is_some() {
            self.popup = None;
            assert(self@ =~= (BrowserView { popup: None, ..old(self)@ }));
            return Action::Continue;
        }
        match command(key) {
            Command::Quit => Action::Quit,
            Command::Next => {
                self.move_cursor(1);
                Action::Continue
            },
            Command::Previous => {
                self.move_cursor(-1);
                Action::Continue
            },
            Command::Open => {
                self.enter();
                Action::Continue
            },
            Command::GoUp => {
                self.go_up();
                Action::Continue
            },
            Command::Info => {
                self.show_info();
                Action::Continue
            },
            Command::Extract => {
                match self.selected_node() {
                    Some(idx) => Action::Extract(idx),
                    None => Action::Continue,
                }
            },
            Command::Nothing => Action::Continue,
        }
    }
}

/// Whether `event` takes the browser from `v` to `w` with the answer `action`.
pub open spec fn step(v: BrowserView, event: InputEvent, w: BrowserView, action: Action) -> bool {
    match event {
        InputEvent::Other => w == v && action == Action::Continue,
        InputEvent::Press(key) => if v.popup is Some {
            w == (BrowserView { popup: None, ..v }) && action == Action::Continue
        } else {
            match command_of(key) {
                Command::Quit => w == v && action == Action::Quit,
                Command::Next => w == v.moved(1) && action == Action::Continue,
                Command::Previous => w == v.moved(-1) && action == Action::Continue,
                Command::Open => w == v.entered() && action == Action::Continue,
                Command::GoUp => v.left_to(w) && action == Action::Continue,
                Command::Info => w == v.informed() && action == Action::Continue,
                Command::Extract => w == v && action == (match v.selected_node() {
                    Some(idx) => Action::Extract(idx),
                    None => Action::Continue,
                }),
                Command::Nothing => w == v && action == Action::Continue,
            }
        },
    }
}

/// The cursor moved down and up again is where it was, and so it is moved up and down
/// again.
pub proof fn law_cursor_returns(v: BrowserView, delta: int)
    requires
        v.wf(),
        v.selected is Some,
    ensures
        v.moved(delta).moved(-delta) == v,
{
    let len = v.children().len() as int;
    if len > 0 {
        let s = v.selected->Some_0 as int;
        let there = (s + delta) % len;
        let w = v.moved(delta);
        assert(len == v.nodes[v.dir()].children.len());
        assert(0 <= there < len);
        assert(w.selected == Some(there as usize));
        lemma_sub_mod_noop(s + delta, delta, len);
        lemma_sub_mod_noop(there, delta, len);
        lemma_small_mod(there as nat, len as nat);
        lemma_small_mod(s as nat, len as nat);
        assert((there - delta) % len == s);
        assert(v.moved(delta).moved(-delta) =~= v);
    }
}

/// As many rows as there are lead round to where the cursor was.
pub proof fn law_cursor_goes_round(v: BrowserView)
    requires
        v.wf(),
        v.selected is Some,
    ensures
        v.moved(v.children().len() as int) == v,
{
    let len = v.children().len() as int;
    if len > 0 {
        let s = v.selected->Some_0 as int;
        lemma_mod_add_multiples_vanish(s, len);
        lemma_small_mod(s as nat, len as nat);
        assert(v.moved(len) =~= v);
    }
}

/// Whoever enters a directory and leaves it again is where they were, cursor and all.
pub proof fn law_enter_then_leave(v: BrowserView, w: BrowserView)
    requires
        v.wf(),
        v.selected_node() matches Some(idx) && v.nodes[idx as int].is_dir,
        v.entered().left_to(w),
        w.wf(),
    ensures
        w == v,
{
    let idx = v.selected_node()->Some_0;
    assert(v.entered().stack.drop_last() =~= v.stack);
    law_node_is_listed_once(
        v.nodes,
        v.dir(),
        v.selected->Some_0 as int,
        v.dir(),
        w.selected->Some_0 as int,
    );
    assert(w =~= v);
}

/// While a popup is open, any key closes it and does nothing else.
pub proof fn law_any_key_closes_popup(v: BrowserView, key: Key, w: BrowserView, action: Action)
    requires
        v.popup is Some,
        step(v, InputEvent::Press(key), w, action),
    ensures
        w == (BrowserView { popup: None, ..v }),
        action == Action::Continue,
{
}

/// No event changes the tree, and the browser quits on the quit keys alone, while no
/// popup is open.
pub proof fn law_browsing_keeps_tree(
    v: BrowserView,
    event: InputEvent,
    w: BrowserView,
    action: Action,
)
    requires
        step(v, event, w, action),
    ensures
        w.nodes == v.nodes,
        action == Action::Quit <==> v.popup is None && (event == InputEvent::Press(Key::Esc)
            || event == InputEvent::Press(Key::Char('q'))),
{
}

/// Where `wanted` stands in `list`.
fn position(list: &Vec<usize>, wanted: usize) -> (pos: usize)
    requires
        list@.contains(wanted),
    ensures
        pos < list@.len(),
        list@[pos as int] == wanted,
{
    let mut k: usize = 0;
    while k < list.len()
        invariant
            k <= list@.len(),
            list@.contains(wanted),
            forall|j: int| 0 <= j < k ==> #[trigger] list@[j] != wanted,
        decreases list@.len() - k,
    {
        if list[k] == wanted {
            return k;
        }
        k = k + 1;
    }
    assert(false);
    0
}

/// `cur + delta` modulo `len`.
fn wrap(cur: usize, delta: isize, len: usize) -> (next: usize)
    requires
        len > 0,
    ensures
        next == (cur + delta) % (len as int),
        next < len,
{
    let n: i128 = len as i128;
    let t: i128 = cur as i128 + delta as i128;
    if t >= 0 {
        (t % n) as usize
    } else {
        let r: i128 = (-t) % n;
        proof {
            lemma_fundamental_div_mod(-t as int, n as int);
            let q = (-t as int) / (n as int);
            if r == 0 {
                assert(t as int == (-q) * (n as int) + 0) by (nonlinear_arith)
                    requires
                        -t as int == n as int * q + 0,
                ;
                lemma_fundamental_div_mod_converse(t as int, n as int, -q, 0);
            } else {
                assert(t as int == (-q - 1) * (n as int) + (n - r)) by (nonlinear_arith)
                    requires
                        -t as int == n as int * q + r,
                ;
                lemma_fundamental_div_mod_converse(t as int, n as int, -q - 1, n - r);
            }
        }
        if r == 0 {
            0
        } else {
            (n - r) as usize
        }
    }
}

/// The text of the popup on node `idx`.
fn info(nodes: &Vec<Node>, idx: usize) -> (text: String)
    requires
        is_tree(nodes@),
        idx < nodes@.len(),
        nodes@[idx as int].is_dir ==> stats_below(nodes@, idx as int).total <= u64::MAX,
    ensures
        text@ == info_text(nodes@, idx as int),
{
    let node: &Node = &nodes[idx];
    assert(nodes@.len() == nodes.len());
    if node.is_dir {
        proof {
            lemma_tree_links_down(nodes@);
            law_counts_are_bounded(
                nodes@,
                idx as int,
                nodes@[idx as int].children@.len() as int,
            );
        }
        let (files, dirs, total): (usize, usize, u64) = subtree_stats(nodes, idx);
        let mut text: String = concat("Directory  /", node.path.as_str());
        text.append("\n\nContains : ");
        push_decimal(&mut text, files as u64);
        text.append(" file(s), ");
        push_decimal(&mut text, dirs as u64);
        text.append(" subdir(s)\nTotal    : ");
        text.append(human_size(total).as_str());
        text.append("\n\ne = extract recursively   any key = close");
        text
    } else {
        let mut text: String = concat("File  /", node.path.as_str());
        text.append("\n\nSize : ");
        text.append(human_size(node.size).as_str());
        text.append(" (");
        push_decimal(&mut text, node.size);
        text.append(" bytes)\n\ne = extract   any key = close");
        text
    }
}

} // verus!
