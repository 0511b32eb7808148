//! What an extraction is to write.

use super::subtree::{
    as_nodes, files_below, law_files_match_stats, links_down, list_files, size_of_files,
    stats_below,
};
use super::tree::{is_tree, Node};
use super::tree_laws::law_files_start_below;
use crate::path::{join_path, joined, starts_below};
use crate::text::{chars_of, concat, push_chars};
use vstd::prelude::*;

verus! {

broadcast use vstd::string::group_string_axioms;

/// One file to write: where it lies in the volume, its size, and where it goes.
#[derive(Debug)]
pub struct Job {
    pub path: String,
    pub size: u64,
    pub out: String,
}

/// An extraction: what the user is told, the directory to make first, if any, and
/// the files to write.
#[derive(Debug)]
pub struct Plan {
    pub title: String,
    pub base: String,
    pub jobs: Vec<Job>,
}

/// Whether `job` writes the file of `node` below `base`, without the first `strip`
/// characters of its path.
pub open spec fn job_writes(job: Job, node: Node, base: Seq<char>, strip: int) -> bool {
    &&& job.path@ == node.path@
    &&& job.size == node.size
    &&& job.out@ == joined(base, node.path@.skip(strip))
}

/// Whether `path` continues `dir` with one character that takes one byte, which is
/// then taken off with `dir`.
pub open spec fn strippable(path: Seq<char>, dir: Seq<char>) -> bool {
    path.len() > dir.len() && path.take(dir.len() as int) == dir && (path[dir.len() as int] as u32)
        < 128
}

/// Whether `dir` can be taken off the paths of all files below node `idx`.
pub open spec fn can_strip(nodes: Seq<Node>, idx: int) -> bool {
    forall|i: int|
        0 <= i < files_below(nodes, idx).len() ==> strippable(
            nodes[#[trigger] files_below(nodes, idx)[i]].path@,
            nodes[idx].path@,
        )
}

/// The size of all files of an extraction together.
pub open spec fn jobs_size(jobs: Seq<Job>) -> nat
    decreases jobs.len(),
{
    if jobs.len() == 0 {
        0
    } else {
        jobs_size(jobs.drop_last()) + jobs.last().size as nat
    }
}

/// Whether `plan` is how node `idx` is extracted: a file on its own, or all files
/// below a directory, into a directory of its name.
pub open spec fn plan_extracts(plan: Plan, nodes: Seq<Node>, idx: int) -> bool {
    let node = nodes[idx];
    if node.is_dir {
        let files = files_below(nodes, idx);
        &&& plan.title@ == "Extracting directory  "@ + node.name@ + "/"@
        &&& plan.base@ == node.name@
        &&& plan.jobs@.len() == files.len()
        &&& forall|i: int|
            0 <= i < files.len() ==> job_writes(
                #[trigger] plan.jobs@[i],
                nodes[files[i]],
                node.name@,
                node.path@.len() as int + 1,
            )
    } else {
        &&& plan.title@ == "Extracting file  "@ + node.name@
        &&& plan.base@.len() == 0
        &&& plan.jobs@.len() == 1
        &&& plan.jobs@[0].path@ == node.path@
        &&& plan.jobs@[0].size == node.size
        &&& plan.jobs@[0].out@ == node.name@
    }
}

/// Append every file below node `idx`, with its size and where it is to be written
/// below `base`: its path without the first `strip` characters.
pub fn collect_files(nodes: &Vec<Node>, idx: usize, base: &str, strip: usize, out: &mut Vec<Job>)
    requires
        links_down(nodes@),
        idx < nodes@.len(),
        forall|i: int|
            0 <= i < files_below(nodes@, idx as int).len() ==> strip <= nodes@[#[trigger] files_below(
                nodes@,
                idx as int,
            )[i]].path@.len(),
    ensures
        final(out)@.len() == old(out)@.len() + files_below(nodes@, idx as int).len(),
        final(out)@.take(old(out)@.len() as int) == old(out)@,
        forall|i: int|
            0 <= i < files_below(nodes@, idx as int).len() ==> job_writes(
                #[trigger] final(out)@[old(out)@.len() + i],
                nodes@[files_below(nodes@, idx as int)[i]],
                base@,
                strip as int,
            ),
{
    let mut files: Vec<usize> = Vec::new();
    list_files(nodes, idx, &mut files);
    assert(as_nodes(files@) =~= files_below(nodes@, idx as int));
    let ghost below = files_below(nodes@, idx as int);
    let ghost first = old(out)@.len() as int;
    let mut k: usize = 0;
    assert(out@.take(first) =~= old(out)@);
    while k < files.len()
        invariant
            k <= files@.len(),
            below == files_below(nodes@, idx as int),
            as_nodes(files@) == below,
            first == old(out)@.len(),
            out@.len() == first + k,
            out@.take(first) == old(out)@,
            forall|i: int| 0 <= i < files@.len() ==> #[trigger] files@[i] < nodes@.len(),
            forall|i: int|
                0 <= i < below.len() ==> strip <= nodes@[#[trigger] below[i]].path@.len(),
            forall|i: int|
                0 <= i < k ==> job_writes(
                    #[trigger] out@[first + i],
                    nodes@[below[i]],
                    base@,
                    strip as int,
                ),
        decreases files@.len() - k,
    {
        let ghost before = out@;
        let file: usize = files[k];
        assert(below[k as int] == file);
        let chars: Vec<char> = chars_of(nodes[file].path.as_str());
        let mut relative: String = String::new();
        let len: usize = chars.len();
        push_chars(&mut relative, &chars, strip, len);
        assert(relative@ =~= nodes@[file as int].path@.skip(strip as int));
        let job: Job = Job {
            path: nodes[file].path.clone(),
            size: nodes[file].size,
            out: join_path(base, relative.as_str()),
        };
        out.push(job);
        proof {
            assert(out@.take(first) =~= old(out)@);
            assert forall|i: int| 0 <= i < k + 1 implies job_writes(
                #[trigger] out@[first + i],
                nodes@[below[i]],
                base@,
                strip as int,
            ) by {
                if i < k {
                    assert(out@[first + i] == before[first + i]);
                }
            }
        }
        k = k + 1;
    }
}

/// Whether the path of node `idx` can be taken off the paths of all files below it.
pub fn strips(nodes: &Vec<Node>, idx: usize) -> (can: bool)
    requires
        links_down(nodes@),
        idx < nodes@.len(),
    ensures
        can == can_strip(nodes@, idx as int),
{
    let mut files: Vec<usize> = Vec::new();
    list_files(nodes, idx, &mut files);
    assert(as_nodes(files@) =~= files_below(nodes@, idx as int));
    let ghost below = files_below(nodes@, idx as int);
    let dir: Vec<char> = chars_of(nodes[idx].path.as_str());
    let mut k: usize = 0;
    while k < files.len()
        invariant
            k <= files@.len(),
            idx < nodes@.len(),
            dir@ == nodes@[idx as int].path@,
            below == files_below(nodes@, idx as int),
            as_nodes(files@) == below,
            forall|i: int| 0 <= i < files@.len() ==> #[trigger] files@[i] < nodes@.len(),
            forall|i: int| 0 <= i < k ==> strippable(nodes@[#[trigger] below[i]].path@, dir@),
        decreases files@.len() - k,
    {
        assert(below[k as int] == files@[k as int]);
        let path: Vec<char> = chars_of(nodes[files[k]].path.as_str());
        if !strips_one(&path, &dir) {
            assert(!strippable(nodes@[below[k as int]].path@, dir@));
            return false;
        }
        k = k + 1;
    }
    true
}

/// Whether `dir` can be taken off `path`.
fn strips_one(path: &Vec<char>, dir: &Vec<char>) -> (can: bool)
    ensures
        can == strippable(path@, dir@),
{
    if path.len() <= dir.len() {
        return false;
    }
    let mut k: usize = 0;
    while k < dir.len()
        invariant
            k <= dir@.len() < path@.len(),
            forall|i: int| 0 <= i < k ==> #[trigger] dir@[i] == path@[i],
        decreases dir@.len() - k,
    {
        if path[k] != dir[k] {
            assert(path@.take(dir@.len() as int)[k as int] != dir@[k as int]);
            return false;
        }
        k = k + 1;
    }
    assert(path@.take(dir@.len() as int) =~= dir@);
    (path[dir.len()] as u32) < 128
}

/// Work out what to extract for node `idx`.
pub fn plan_extraction(nodes: &Vec<Node>, idx: usize) -> (plan: Plan)
    requires
        links_down(nodes@),
        idx < nodes@.len(),
        nodes@[idx as int].is_dir ==> can_strip(nodes@, idx as int),
    ensures
        plan_extracts(plan, nodes@, idx as int),
{
    let node: &Node = &nodes[idx];
    if !node.is_dir {
        let mut jobs: Vec<Job> = Vec::new();
        jobs.push(Job { path: node.path.clone(), size: node.size, out: node.name.clone() });
        return Plan {
            title: concat("Extracting file  ", node.name.as_str()),
            base: String::new(),
            jobs,
        };
    }
    // what the paths of descendants start with
    let own: String = concat(node.path.as_str(), "/");
    proof {
        reveal_strlit("/");
    }
    let strip: usize = own.as_str().unicode_len();
    let mut jobs: Vec<Job> = Vec::new();
    collect_files(nodes, idx, node.name.as_str(), strip, &mut jobs);
    let mut title: String = concat("Extracting directory  ", node.name.as_str());
    title.append("/");
    proof {
        let files = files_below(nodes@, idx as int);
        assert forall|i: int| 0 <= i < files.len() implies job_writes(
            #[trigger] jobs@[i],
            nodes@[files[i]],
            node.name@,
            node.path@.len() as int + 1,
        ) by {
            assert(job_writes(jobs@[0 + i], nodes@[files[i]], node.name@, strip as int));
        }
    }
    Plan { title, base: node.name.clone(), jobs }
}

/// The size of all files of an extraction together.
pub fn bytes_total(jobs: &Vec<Job>) -> (total: u64)
    requires
        jobs_size(jobs@) <= u64::MAX,
    ensures
        total == jobs_size(jobs@),
{
    let mut total: u64 = 0;
    let mut k: usize = 0;
    assert(jobs@.take(0) =~= Seq::<Job>::empty());
    while k < jobs.len()
        invariant
            k <= jobs@.len(),
            jobs_size(jobs@) <= u64::MAX,
            total == jobs_size(jobs@.take(k as int)),
        decreases jobs@.len() - k,
    {
        proof {
            assert(jobs@.take(k + 1).drop_last() =~= jobs@.take(k as int));
            lemma_jobs_size_grows(jobs@, k + 1);
        }
        total = total + jobs[k].size;
        k = k + 1;
    }
    assert(jobs@.take(jobs@.len() as int) =~= jobs@);
    total
}

/// The first jobs are no larger than all.
proof fn lemma_jobs_size_grows(jobs: Seq<Job>, k: int)
    requires
        0 <= k <= jobs.len(),
    ensures
        jobs_size(jobs.take(k)) <= jobs_size(jobs),
    decreases jobs.len(),
{
    if k < jobs.len() {
        lemma_jobs_size_grows(jobs.drop_last(), k);
        assert(jobs.drop_last().take(k) =~= jobs.take(k));
    } else {
        assert(jobs.take(k) =~= jobs);
    }
}

/// Whatever has a path can be extracted: the path of a directory with a path of its
/// own can be taken off the paths of all files below it.
pub proof fn law_named_directories_strip(nodes: Seq<Node>, idx: int)
    requires
        is_tree(nodes),
        1 <= idx < nodes.len(),
        nodes[idx].path@.len() > 0,
    ensures
        can_strip(nodes, idx),
        forall|i: int|
            0 <= i < files_below(nodes, idx).len() ==> {
                let path = nodes[#[trigger] files_below(nodes, idx)[i]].path@;
                path == nodes[idx].path@ + seq!['/'] + path.skip(nodes[idx].path@.len() as int + 1)
            },
{
    let n = nodes[idx].children@.len() as int;
    law_files_start_below(nodes, idx, n, idx);
    assert forall|i: int| 0 <= i < files_below(nodes, idx).len() implies ({
        let path = nodes[#[trigger] files_below(nodes, idx)[i]].path@;
        path == nodes[idx].path@ + seq!['/'] + path.skip(nodes[idx].path@.len() as int + 1)
    }) by {
        let path = nodes[files_below(nodes, idx)[i]].path@;
        let dir = nodes[idx].path@;
        assert(starts_below(path, dir));
        assert(path =~= path.take(dir.len() as int) + seq!['/'] + path.skip(dir.len() as int + 1));
    }
}

/// An extraction writes as many files, and as many bytes, as the counts of the
/// directory say.
pub proof fn law_plan_matches_stats(plan: Plan, nodes: Seq<Node>, idx: int)
    requires
        plan_extracts(plan, nodes, idx),
        nodes[idx].is_dir,
    ensures
        plan.jobs@.len() == stats_below(nodes, idx).files,
        jobs_size(plan.jobs@) == stats_below(nodes, idx).total,
{
    law_files_match_stats(nodes, idx, nodes[idx].children@.len() as int);
    lemma_jobs_size_of_files(
        plan.jobs@,
        nodes,
        files_below(nodes, idx),
        nodes[idx].name@,
        nodes[idx].path@.len() as int + 1,
    );
}

/// Jobs are as large as the files that they write.
proof fn lemma_jobs_size_of_files(
    jobs: Seq<Job>,
    nodes: Seq<Node>,
    files: Seq<int>,
    base: Seq<char>,
    strip: int,
)
    requires
        jobs.len() == files.len(),
        forall|i: int|
            0 <= i < files.len() ==> job_writes(#[trigger] jobs[i], nodes[files[i]], base, strip),
    ensures
        jobs_size(jobs) == size_of_files(nodes, files),
    decreases jobs.len(),
{
    if jobs.len() > 0 {
        lemma_jobs_size_of_files(jobs.drop_last(), nodes, files.drop_last(), base, strip);
        assert(job_writes(jobs[jobs.len() - 1], nodes[files[jobs.len() - 1]], base, strip));
    }
}

} // verus!
