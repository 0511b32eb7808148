//! The tree, the browser and the progress of an extraction.

use vc_reader::failure::{Failure, FailureKind};
use vc_reader::fs::{Entry, Filesystem, Sink};
use vc_reader::tui::browser::{
    command, footer, row_label, Action, Browser, Command, InputEvent, Key,
};
use vc_reader::tui::order::text_less;
use vc_reader::tui::plan::{bytes_total, collect_files, plan_extraction, strips};
use vc_reader::tui::progress::{leaves_completion, redraw_is_due, ExtractState, Extraction};
use vc_reader::tui::subtree::{checked_stats, list_files, subtree_stats};
use vc_reader::tui::tree::{build_tree, sort_children, Node, SiblingKey};

fn entry(path: &str, size: u64, is_dir: bool) -> Entry {
    Entry { path: path.to_string(), size, is_dir }
}

fn sample() -> Vec<Entry> {
    vec![
        entry("root_file.txt", 56, false),
        entry("Beta.txt", 1, false),
        entry("alpha.txt", 2, false),
        entry("empty_dir", 0, true),
        entry("dir_a", 0, true),
        entry("dir_a/inside_a.txt", 56, false),
        entry("dir_a/dir_b", 0, true),
        entry("dir_a/dir_b/deep.txt", 4000, false),
        entry("dir_a/.first", 7, false),
    ]
}

fn names(nodes: &[Node], of: usize) -> Vec<String> {
    nodes[of].children.iter().map(|&c| nodes[c].name.clone()).collect()
}

fn index_of(nodes: &[Node], path: &str) -> usize {
    (1..nodes.len()).find(|&i| nodes[i].path == path).expect("path should be in the tree")
}

#[test]
fn tree_of_entries() {
    let nodes = build_tree(sample());
    assert_eq!(nodes.len(), 10);
    assert_eq!((nodes[0].name.as_str(), nodes[0].path.as_str(), nodes[0].is_dir), ("/", "", true));
    // Directories first, then names, upper and lower case alike.
    assert_eq!(
        names(&nodes, 0),
        vec!["dir_a", "empty_dir", "alpha.txt", "Beta.txt", "root_file.txt"]
    );
    let dir_a = index_of(&nodes, "dir_a");
    assert_eq!(names(&nodes, dir_a), vec!["dir_b", ".first", "inside_a.txt"]);
    let dir_b = index_of(&nodes, "dir_a/dir_b");
    assert_eq!(names(&nodes, dir_b), vec!["deep.txt"]);
    let deep = index_of(&nodes, "dir_a/dir_b/deep.txt");
    assert_eq!((nodes[deep].size, nodes[deep].is_dir), (4000, false));
    // The nodes behind the root are in the order of their paths.
    for i in 2..nodes.len() {
        assert!(nodes[i - 1].path <= nodes[i].path);
    }
}

#[test]
fn every_node_is_listed_once() {
    let nodes = build_tree(sample());
    let mut seen = vec![0; nodes.len()];
    for node in &nodes {
        for &child in &node.children {
            seen[child] += 1;
        }
    }
    assert_eq!(seen[0], 0);
    assert!(seen[1..].iter().all(|&times| times == 1));
}

#[test]
fn one_tree_for_a_listing() {
    let show = |nodes: Vec<Node>| -> Vec<(String, String, bool, u64, Vec<usize>)> {
        nodes.into_iter().map(|n| (n.name, n.path, n.is_dir, n.size, n.children)).collect()
    };
    assert_eq!(show(build_tree(sample())), show(build_tree(sample())));
    // No two entries share a path, so their order does not matter.
    let mut turned = sample();
    turned.reverse();
    assert_eq!(show(build_tree(turned)), show(build_tree(sample())));
}

#[test]
fn children_continue_the_path() {
    let nodes = build_tree(sample());
    for (p, node) in nodes.iter().enumerate() {
        for &child in &node.children {
            assert!(p < child);
            if p > 0 {
                assert_eq!(nodes[child].path, format!("{}/{}", node.path, nodes[child].name));
            }
        }
        let (files, dirs, _) = subtree_stats(&nodes, p);
        assert!(files + dirs < nodes.len() - p);
        let mut below = Vec::new();
        list_files(&nodes, p, &mut below);
        assert_eq!(below.len(), files);
        for file in below {
            assert!(p == 0 || nodes[file].path.starts_with(&format!("{}/", node.path)));
        }
    }
}

#[test]
fn orphans_hang_under_the_root() {
    let nodes = build_tree(vec![entry("gone/lost.txt", 1, false), entry("here", 0, true)]);
    assert_eq!(names(&nodes, 0), vec!["here", "lost.txt"]);
}

#[test]
fn empty_tree() {
    let nodes = build_tree(vec![]);
    assert_eq!(nodes.len(), 1);
    assert!(nodes[0].children.is_empty());
}

#[test]
fn same_paths_keep_their_order() {
    let nodes = build_tree(vec![
        entry("d", 0, true),
        entry("x", 1, false),
        entry("x", 2, false),
        entry("d", 0, true),
        entry("d/y", 3, false),
    ]);
    let sizes: Vec<u64> = (1..nodes.len()).map(|i| nodes[i].size).collect();
    assert_eq!(sizes, vec![0, 0, 3, 1, 2]);
    // A child goes to the last directory of its name.
    assert!(nodes[1].children.is_empty());
    assert_eq!(nodes[2].children, vec![3]);
}

#[test]
fn order_is_that_of_bytes() {
    let texts = ["", "a", "ab", "b", "B", "\u{e4}", "\u{ffff}", "\u{10000}", "a/b", "a.b", "a b"];
    for a in texts {
        for b in texts {
            assert_eq!(text_less(a, b), a < b, "{a} {b}");
        }
    }
}

#[test]
fn case_folding_sorts_siblings() {
    let nodes = build_tree(vec![
        entry("Zulu", 0, false),
        entry("\u{c4}rger", 0, false),
        entry("alpha", 0, false),
        entry("\u{e4}hnlich", 0, false),
        entry("ZEBRA", 0, false),
    ]);
    assert_eq!(
        names(&nodes, 0),
        vec!["alpha", "ZEBRA", "Zulu", "\u{e4}hnlich", "\u{c4}rger"]
    );
}

#[test]
fn children_are_sorted_by_their_keys() {
    let key = |is_dir: bool, name: &str| SiblingKey { is_dir, name: name.to_string() };
    let keys = vec![
        key(true, "/"),
        key(false, "b"),
        key(true, "z"),
        key(false, "a"),
        key(true, "c"),
        key(false, "a"),
        key(true, "z"),
    ];
    assert_eq!(sort_children(&keys, &vec![1, 2, 3, 4, 5, 6]), vec![4, 2, 6, 3, 5, 1]);
    assert_eq!(sort_children(&keys, &vec![1, 3]), vec![3, 1]);
    assert_eq!(sort_children(&keys, &vec![]), Vec::<usize>::new());
}

#[test]
fn root_counts_the_entries() {
    let entries = sample();
    let files = entries.iter().filter(|e| !e.is_dir).count();
    let dirs = entries.iter().filter(|e| e.is_dir).count();
    let total = entries.iter().filter(|e| !e.is_dir).map(|e| e.size).sum::<u64>();
    assert_eq!(subtree_stats(&build_tree(entries), 0), (files, dirs, total));
    // What lies below a file is not counted.
    let nodes = build_tree(vec![entry("f", 1, false), entry("f/x", 2, false)]);
    assert_eq!(subtree_stats(&nodes, 0), (1, 0, 1));
}

#[test]
fn large_directories_are_sorted() {
    let entries: Vec<Entry> =
        (0..500u64).map(|i| entry(&format!("f{:03}", (i * 7919) % 500), i, i % 3 == 0)).collect();
    let nodes = build_tree(entries);
    let mut expected: Vec<usize> = (1..nodes.len()).collect();
    expected.sort_by(|&a, &b| {
        nodes[b].is_dir.cmp(&nodes[a].is_dir).then(nodes[a].name.cmp(&nodes[b].name))
    });
    assert_eq!(nodes[0].children, expected);
}

#[test]
fn stats_and_files_below() {
    let nodes = build_tree(sample());
    assert_eq!(subtree_stats(&nodes, 0), (6, 3, 4122));
    let dir_a = index_of(&nodes, "dir_a");
    assert_eq!(subtree_stats(&nodes, dir_a), (3, 1, 4063));
    assert_eq!(checked_stats(&nodes, dir_a), Some((3, 1, 4063)));
    assert_eq!(subtree_stats(&nodes, index_of(&nodes, "empty_dir")), (0, 0, 0));
    let mut files = Vec::new();
    list_files(&nodes, dir_a, &mut files);
    let paths: Vec<&str> = files.iter().map(|&i| nodes[i].path.as_str()).collect();
    assert_eq!(paths, vec!["dir_a/dir_b/deep.txt", "dir_a/.first", "dir_a/inside_a.txt"]);
}

#[test]
fn sizes_that_do_not_fit() {
    let nodes = build_tree(vec![
        entry("d", 0, true),
        entry("d/a", u64::MAX, false),
        entry("d/b", 1, false),
    ]);
    assert_eq!(checked_stats(&nodes, 1), None);
    let mut browser = Browser::new(vec![
        entry("d", 0, true),
        entry("d/a", u64::MAX, false),
        entry("d/b", 1, false),
    ]);
    assert!(!browser.info_fits());
    assert!(!browser.can_extract(1));
    browser.enter();
    assert!(browser.info_fits());
    assert!(browser.can_extract(browser.selected_node().unwrap()));
}

#[test]
fn file_plan() {
    let nodes = build_tree(sample());
    let plan = plan_extraction(&nodes, index_of(&nodes, "dir_a/inside_a.txt"));
    assert_eq!(plan.title, "Extracting file  inside_a.txt");
    assert_eq!(plan.base, "");
    assert_eq!(plan.jobs.len(), 1);
    assert_eq!(plan.jobs[0].path, "dir_a/inside_a.txt");
    assert_eq!(plan.jobs[0].size, 56);
    assert_eq!(plan.jobs[0].out, "inside_a.txt");
}

#[test]
fn directory_plan() {
    let nodes = build_tree(sample());
    let dir_a = index_of(&nodes, "dir_a");
    assert!(strips(&nodes, dir_a));
    let plan = plan_extraction(&nodes, dir_a);
    assert_eq!(plan.title, "Extracting directory  dir_a/");
    assert_eq!(plan.base, "dir_a");
    let jobs: Vec<(&str, u64, &str)> =
        plan.jobs.iter().map(|job| (job.path.as_str(), job.size, job.out.as_str())).collect();
    assert_eq!(
        jobs,
        vec![
            ("dir_a/dir_b/deep.txt", 4000, "dir_a/dir_b/deep.txt"),
            ("dir_a/.first", 7, "dir_a/.first"),
            ("dir_a/inside_a.txt", 56, "dir_a/inside_a.txt"),
        ]
    );
    assert_eq!(bytes_total(&plan.jobs), 4063);
    // A directory further down goes into a directory of its own name.
    let plan = plan_extraction(&nodes, index_of(&nodes, "dir_a/dir_b"));
    assert_eq!(plan.base, "dir_b");
    assert_eq!(plan.jobs[0].out, "dir_b/deep.txt");
}

#[test]
fn files_are_collected_below_a_base() {
    let nodes = build_tree(sample());
    let dir_b = index_of(&nodes, "dir_a/dir_b");
    for (strip, out) in [(0, "out/dir_a/dir_b/deep.txt"), (6, "out/dir_b/deep.txt"), (20, "out/")] {
        let mut jobs = plan_extraction(&nodes, index_of(&nodes, "alpha.txt")).jobs;
        collect_files(&nodes, dir_b, "out", strip, &mut jobs);
        assert_eq!(jobs.len(), 2);
        assert_eq!(jobs[0].out, "alpha.txt");
        assert_eq!(jobs[1].path, "dir_a/dir_b/deep.txt");
        assert_eq!(jobs[1].out, out);
    }
}

#[test]
fn plan_matches_stats() {
    let nodes = build_tree(sample());
    for path in ["dir_a", "dir_a/dir_b", "empty_dir"] {
        let idx = index_of(&nodes, path);
        let plan = plan_extraction(&nodes, idx);
        let (files, _, total) = subtree_stats(&nodes, idx);
        assert_eq!((plan.jobs.len(), bytes_total(&plan.jobs)), (files, total));
    }
}

#[test]
fn nameless_directories() {
    // The first character goes where the path of the directory is empty.
    let nodes = build_tree(vec![entry("", 0, true), entry("ab", 1, false)]);
    assert!(strips(&nodes, 1));
    assert_eq!(plan_extraction(&nodes, 1).jobs[0].out, "b");
    let nodes = build_tree(vec![entry("", 0, true), entry("\u{e4}b", 1, false)]);
    assert!(!strips(&nodes, 1));
}

// --- the browser ---

fn press(browser: &mut Browser, key: Key) -> Action {
    browser.on_event(InputEvent::Press(key))
}

fn state(browser: &Browser) -> (String, Option<usize>, Option<String>) {
    (browser.current_path_display(), browser.selected(), browser.popup().cloned())
}

#[test]
fn keys_and_commands() {
    let keys = [
        (Key::Char('q'), Command::Quit),
        (Key::Esc, Command::Quit),
        (Key::Down, Command::Next),
        (Key::Char('j'), Command::Next),
        (Key::Up, Command::Previous),
        (Key::Char('k'), Command::Previous),
        (Key::Enter, Command::Open),
        (Key::Right, Command::Open),
        (Key::Char('l'), Command::Open),
        (Key::Left, Command::GoUp),
        (Key::Char('h'), Command::GoUp),
        (Key::Backspace, Command::GoUp),
        (Key::Char('i'), Command::Info),
        (Key::Char('e'), Command::Extract),
        (Key::Char('x'), Command::Nothing),
        (Key::Char('Q'), Command::Nothing),
        (Key::Other, Command::Nothing),
    ];
    for (key, expected) in keys {
        assert_eq!(command(key), expected);
    }
}

#[test]
fn cursor_goes_round() {
    let mut browser = Browser::new(sample());
    assert_eq!(state(&browser), ("/".to_string(), Some(0), None));
    assert_eq!(press(&mut browser, Key::Up), Action::Continue);
    assert_eq!(browser.selected(), Some(4));
    press(&mut browser, Key::Down);
    assert_eq!(browser.selected(), Some(0));
    for _ in 0..5 {
        press(&mut browser, Key::Char('j'));
    }
    assert_eq!(browser.selected(), Some(0));
    browser.move_cursor(-7);
    assert_eq!(browser.selected(), Some(3));
    browser.move_cursor(7);
    assert_eq!(browser.selected(), Some(0));
    browser.move_cursor(isize::MAX);
    browser.move_cursor(-isize::MAX);
    assert_eq!(browser.selected(), Some(0));
}

#[test]
fn entering_and_leaving() {
    let mut browser = Browser::new(sample());
    press(&mut browser, Key::Down);
    press(&mut browser, Key::Enter);
    assert_eq!(state(&browser), ("/empty_dir".to_string(), None, None));
    assert_eq!(browser.selected_node(), None);
    // Nothing to do in an empty directory but to leave it.
    for key in [Key::Down, Key::Up, Key::Enter, Key::Char('i'), Key::Char('e')] {
        assert_eq!(press(&mut browser, key), Action::Continue);
        assert_eq!(state(&browser), ("/empty_dir".to_string(), None, None));
    }
    press(&mut browser, Key::Backspace);
    assert_eq!(state(&browser), ("/".to_string(), Some(1), None));
    press(&mut browser, Key::Up);
    press(&mut browser, Key::Right);
    press(&mut browser, Key::Char('l'));
    assert_eq!(state(&browser), ("/dir_a/dir_b".to_string(), Some(0), None));
    press(&mut browser, Key::Left);
    assert_eq!(state(&browser), ("/dir_a".to_string(), Some(0), None));
    press(&mut browser, Key::Char('h'));
    assert_eq!(state(&browser), ("/".to_string(), Some(0), None));
    // The root is the top.
    press(&mut browser, Key::Left);
    assert_eq!(state(&browser), ("/".to_string(), Some(0), None));
}

#[test]
fn popups() {
    let mut browser = Browser::new(sample());
    press(&mut browser, Key::Char('i'));
    assert_eq!(
        browser.popup().unwrap(),
        "Directory  /dir_a\n\nContains : 3 file(s), 1 subdir(s)\nTotal    : 4.0 KiB\n\n\
         e = extract recursively   any key = close"
    );
    // Any key closes it and does nothing else, the quit key too.
    assert_eq!(press(&mut browser, Key::Char('q')), Action::Continue);
    assert_eq!(state(&browser), ("/".to_string(), Some(0), None));
    press(&mut browser, Key::Up);
    press(&mut browser, Key::Enter);
    assert_eq!(
        browser.popup().unwrap(),
        "File  /root_file.txt\n\nSize : 56 B (56 bytes)\n\ne = extract   any key = close"
    );
    // What is no key press leaves it open.
    assert_eq!(browser.on_event(InputEvent::Other), Action::Continue);
    assert!(browser.popup().is_some());
    press(&mut browser, Key::Other);
    assert!(browser.popup().is_none());
}

#[test]
fn quitting_and_extracting() {
    let mut browser = Browser::new(sample());
    assert_eq!(press(&mut browser, Key::Esc), Action::Quit);
    assert_eq!(press(&mut browser, Key::Char('q')), Action::Quit);
    assert_eq!(press(&mut browser, Key::Char('x')), Action::Continue);
    let dir_a = browser.selected_node().unwrap();
    assert_eq!(press(&mut browser, Key::Char('e')), Action::Extract(dir_a));
    assert!(browser.can_extract(dir_a));
    assert_eq!(browser.plan_extraction(dir_a).jobs.len(), 3);
}

#[test]
fn rows() {
    let nodes = build_tree(sample());
    let dir = index_of(&nodes, "dir_a");
    assert_eq!(row_label(&nodes[dir]), "[DIR]  dir_a/");
    let deep = index_of(&nodes, "dir_a/dir_b/deep.txt");
    assert_eq!(row_label(&nodes[deep]), format!("       {:<28} {:>10}", "deep.txt", "3.9 KiB"));
    let rows = Browser::new(sample()).rows();
    assert_eq!(rows.len(), 5);
    assert_eq!(rows[0], "[DIR]  dir_a/");
    assert_eq!(rows[3], format!("       {:<28} {:>10}", "Beta.txt", "1 B"));
    assert!(footer().starts_with("up/down move"));
}

#[test]
fn empty_volume_is_browsed() {
    let mut browser = Browser::new(vec![]);
    assert_eq!(browser.selected_node(), None);
    for key in [Key::Down, Key::Enter, Key::Left, Key::Char('i'), Key::Char('e')] {
        assert_eq!(press(&mut browser, key), Action::Continue);
    }
    assert_eq!(state(&browser), ("/".to_string(), Some(0), None));
}

struct Fake(Option<Vec<Entry>>);

impl Filesystem for Fake {
    fn label(&mut self) -> Option<String> {
        None
    }

    fn list(&mut self) -> Result<Vec<Entry>, Failure> {
        self.0.take().ok_or_else(|| Failure::new(FailureKind::NotFound, "no index"))
    }

    fn extract<W: Sink>(&mut self, path: &str, out: &mut W) -> Result<(), Failure> {
        out.write_all(path.as_bytes())
    }
}

#[test]
fn filesystems_are_browsed() {
    let mut fake = Fake(Some(sample()));
    let browser = Browser::open(&mut fake).expect("listing should succeed");
    assert_eq!(browser.nodes().len(), 10);
    assert_eq!(browser.children().len(), 5);
    assert_eq!(browser.current_dir(), 0);
    let refused = Browser::open(&mut fake).unwrap_err();
    assert_eq!(refused.kind, FailureKind::Other);
    assert_eq!(refused.message, "listing failed: no index");
}

// --- extraction ---

#[test]
fn extraction_runs_through_its_files() {
    let nodes = build_tree(sample());
    let mut extraction = Extraction::new(plan_extraction(&nodes, index_of(&nodes, "dir_a")));
    assert!(extraction.makes_base());
    assert_eq!(extraction.state.overall_label(), "0 B / 4.0 KiB  (0/3 files)");
    assert_eq!(extraction.next_job(), Some(0));
    assert_eq!(extraction.begin_job(), Some(0));
    assert_eq!(extraction.state.current_name, "deep.txt");
    extraction.state.wrote(1000);
    extraction.state.wrote(3000);
    assert_eq!(extraction.state.bytes_written(), 4000);
    assert_eq!(extraction.state.bytes_remaining(), 63);
    assert_eq!(extraction.state.overall_label(), "3.9 KiB / 4.0 KiB  (1/3 files)");
    extraction.end_job();
    assert_eq!(extraction.state.bytes_written(), 4000);
    assert_eq!(extraction.begin_job(), Some(1));
    assert_eq!(extraction.state.status_line(2048, Some(75)), "Rate 2.0 KiB/s    ETA 01:15");
    assert_eq!(extraction.state.hint(), "extracting...");
    extraction.state.wrote(7);
    extraction.end_job();
    assert_eq!(extraction.begin_job(), Some(2));
    extraction.state.wrote(60);
    extraction.end_job();
    // More came than was announced.
    assert_eq!(extraction.state.bytes_remaining(), 0);
    assert_eq!(extraction.begin_job(), None);
    extraction.finish(Ok(()));
    assert_eq!(extraction.state.status_line(0, None), "Done. Extracted 3 file(s).");
    assert_eq!(extraction.state.hint(), "press any key to return");
}

#[test]
fn announced_bytes_are_written() {
    let nodes = build_tree(sample());
    let mut extraction = Extraction::new(plan_extraction(&nodes, index_of(&nodes, "dir_a")));
    while let Some(index) = extraction.begin_job() {
        extraction.state.wrote(extraction.plan.jobs[index].size);
        extraction.end_job();
    }
    assert_eq!(extraction.state.bytes_written(), extraction.state.bytes_total);
    assert_eq!(extraction.state.overall_label(), "4.0 KiB / 4.0 KiB  (3/3 files)");
}

#[test]
fn failed_extraction() {
    let nodes = build_tree(sample());
    let mut extraction = Extraction::new(plan_extraction(&nodes, index_of(&nodes, "alpha.txt")));
    assert!(!extraction.makes_base());
    assert_eq!(extraction.begin_job(), Some(0));
    assert_eq!(extraction.state.status_line(0, None), "Rate 0 B/s    ETA --:--");
    extraction.finish(Err("disk full".to_string()));
    assert_eq!(extraction.state.status_line(0, None), "Failed: disk full");
    // The first failure ends the extraction, and it stays the outcome.
    assert_eq!(extraction.next_job(), None);
    assert_eq!(extraction.begin_job(), None);
    extraction.finish(Ok(()));
    assert_eq!(extraction.state.status_line(0, None), "Failed: disk full");
}

#[test]
fn repaints_and_completion() {
    assert!(!redraw_is_due(59));
    assert!(redraw_is_due(60));
    assert!(leaves_completion(InputEvent::Press(Key::Other)));
    assert!(leaves_completion(InputEvent::Press(Key::Char('q'))));
    assert!(!leaves_completion(InputEvent::Other));
}

#[test]
fn progress_of_one_file() {
    let mut state = ExtractState::new("t".to_string(), 2, 10);
    state.start_file(0, "a".to_string(), 4);
    assert_eq!((state.file_index, state.current_size, state.current_written), (1, 4, 0));
    state.wrote(4);
    state.finish_file();
    assert_eq!((state.bytes_done, state.current_written), (4, 0));
    state.start_file(5, "b".to_string(), 6);
    assert_eq!(state.overall_label(), "4 B / 10 B  (2/2 files)");
    assert_eq!(state.bytes_remaining(), 6);
}
