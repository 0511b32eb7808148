//! The progress of an extraction.

use super::browser::InputEvent;
use super::plan::{bytes_total, jobs_size, Plan};
use crate::format::{decimal, duration_text, human_duration, human_size, push_decimal, size_text};
use crate::path::{file_name, file_name_of};
use vstd::prelude::*;

verus! {

broadcast use vstd::string::group_string_axioms;

/// Milliseconds between two repaints of the progress screen, at least: streaming a file
/// does not repaint it thousands of times per second.
pub const REDRAW_INTERVAL: u64 = 60;

/// Whether the progress screen is to be repainted, so many milliseconds after it was
/// last.
pub fn redraw_is_due(millis_since: u64) -> (due: bool)
    ensures
        due == (millis_since >= REDRAW_INTERVAL),
{
    millis_since >= REDRAW_INTERVAL
}

/// Whether an event ends the completion screen: any key press does.
pub fn leaves_completion(event: InputEvent) -> (leaves: bool)
    ensures
        leaves == (event is Press),
{
    match event {
        InputEvent::Press(_) => true,
        InputEvent::Other => false,
    }
}

/// Progress of an extraction in flight.
#[derive(Debug)]
pub struct ExtractState {
    pub title: String,
    pub files_total: usize,
    /// 1-based index of the file currently being written.
    pub file_index: usize,
    pub current_name: String,
    pub current_size: u64,
    pub current_written: u64,
    /// Bytes from files already fully written.
    pub bytes_done: u64,
    pub bytes_total: u64,
    /// `Some` once finished: `Ok(files)` or `Err(message)`.
    pub finished: Option<Result<usize, String>>,
}

impl ExtractState {
    /// All bytes written so far.
    pub open spec fn written(&self) -> int {
        self.bytes_done + self.current_written
    }

    /// Whether what does not change from file to file is that of `other`.
    pub open spec fn same_extraction(&self, other: &ExtractState) -> bool {
        &&& self.title == other.title
        &&& self.files_total == other.files_total
        &&& self.bytes_total == other.bytes_total
        &&& self.finished == other.finished
    }

    /// An extraction that has not begun.
    pub fn new(title: String, files_total: usize, bytes_total: u64) -> (state: ExtractState)
        ensures
            state.title == title,
            state.files_total == files_total,
            state.bytes_total == bytes_total,
            state.file_index == 0,
            state.current_name@.len() == 0,
            state.current_size == 0,
            state.current_written == 0,
            state.bytes_done == 0,
            state.finished is None,
    {
        ExtractState {
            title,
            files_total,
            file_index: 0,
            current_name: String::new(),
            current_size: 0,
            current_written: 0,
            bytes_done: 0,
            bytes_total,
            finished: None,
        }
    }

    /// The file at `index0` is about to be written.
    pub fn start_file(&mut self, index0: usize, name: String, size: u64)
        requires
            index0 < usize::MAX,
        ensures
            final(self).same_extraction(old(self)),
            final(self).file_index == index0 + 1,
            final(self).current_name == name,
            final(self).current_size == size,
            final(self).current_written == 0,
            final(self).bytes_done == old(self).bytes_done,
    {
        self.file_index = index0 + 1;
        self.current_name = name;
        self.current_size = size;
        self.current_written = 0;
    }

    /// `n` more bytes of the current file have been written.
    pub fn wrote(&mut self, n: u64)
        requires
            old(self).current_written + n <= u64::MAX,
        ensures
            *final(self) == (ExtractState {
                current_written: (old(self).current_written + n) as u64,
                ..*old(self)
            }),
            final(self).written() == old(self).written() + n,
    {
        self.current_written = self.current_written + n;
    }

    /// The current file is complete.
    pub fn finish_file(&mut self)
        requires
            old(self).written() <= u64::MAX,
        ensures
            *final(self) == (ExtractState {
                bytes_done: (old(self).bytes_done + old(self).current_written) as u64,
                current_written: 0,
                ..*old(self)
            }),
            final(self).written() == old(self).written(),
    {
        self.bytes_done = self.bytes_done + self.current_written;
        self.current_written = 0;
    }

    /// All bytes written so far.
    pub fn bytes_written(&self) -> (written: u64)
        requires
            self.written() <= u64::MAX,
        ensures
            written == self.written(),
    {
        self.bytes_done + self.current_written
    }

    /// How many bytes are still to be written; none where more came than was announced.
    pub fn bytes_remaining(&self) -> (remaining: u64)
        requires
            self.written() <= u64::MAX,
        ensures
            remaining == (if self.written() < self.bytes_total {
                self.bytes_total - self.written()
            } else {
                0
            }),
    {
        let written: u64 = self.bytes_written();
        if written < self.bytes_total {
            self.bytes_total - written
        } else {
            0
        }
    }

    /// The label of the overall gauge.
    pub open spec fn overall_text(&self) -> Seq<char> {
        let index = if self.file_index < self.files_total {
            self.file_index
        } else {
            self.files_total
        };
        size_text(self.written() as u64) + " / "@ + size_text(self.bytes_total) + "  ("@ + decimal(
            index as nat,
        ) + "/"@ + decimal(self.files_total as nat) + " files)"@
    }

    /// The label of the overall gauge.
    pub fn overall_label(&self) -> (label: String)
        requires
            self.written() <= u64::MAX,
        ensures
            label@ == self.overall_text(),
    {
        let index: usize = if self.file_index < self.files_total {
            self.file_index
        } else {
            self.files_total
        };
        let mut label: String = human_size(self.bytes_written());
        label.append(" / ");
        label.append(human_size(self.bytes_total).as_str());
        label.append("  (");
        push_decimal(&mut label, index as u64);
        label.append("/");
        push_decimal(&mut label, self.files_total as u64);
        label.append(" files)");
        label
    }

    /// The status line, at `rate` bytes per second and `eta` seconds from the end.
    pub open spec fn status_text(&self, rate: u64, eta: Option<u64>) -> Seq<char> {
        match self.finished {
            Some(Ok(count)) => "Done. Extracted "@ + decimal(count as nat) + " file(s)."@,
            Some(Err(message)) => "Failed: "@ + message@,
            None => "Rate "@ + size_text(rate) + "/s    ETA "@ + duration_text(eta),
        }
    }

    /// The status line, at `rate` bytes per second and `eta` seconds from the end.
    pub fn status_line(&self, rate: u64, eta: Option<u64>) -> (line: String)
        ensures
            line@ == self.status_text(rate, eta),
    {
        let mut line: String = String::new();
        match &self.finished {
            Some(Ok(count)) => {
                line.append("Done. Extracted ");
                push_decimal(&mut line, *count as u64);
                line.append(" file(s).");
            },
            Some(Err(message)) => {
                line.append("Failed: ");
                line.append(message.as_str());
            },
            None => {
                line.append("Rate ");
                line.append(human_size(rate).as_str());
                line.append("/s    ETA ");
                line.append(human_duration(eta).as_str());
            },
        }
        assert(line@ =~= self.status_text(rate, eta));
        line
    }

    /// The hint below the status line.
    pub fn hint(&self) -> (hint: &'static str)
        ensures
            hint@ == (if self.finished is Some {
                "press any key to return"@
            } else {
                "extracting..."@
            }),
    {
        if self.finished.is_some() {
            "press any key to return"
        } else {
            "extracting..."
        }
    }
}

/// An extraction under way: the caller writes one file after the other and reports
/// what became of it.
#[derive(Debug)]
pub struct Extraction {
    pub plan: Plan,
    pub state: ExtractState,
    /// The file to write next, or the one that is being written.
    pub next: usize,
}

impl Extraction {
    /// Whether each file that has been completed came with its announced size.
    pub open spec fn on_track(&self) -> bool {
        &&& self.next <= self.plan.jobs@.len()
        &&& self.state.bytes_done == jobs_size(self.plan.jobs@.take(self.next as int))
        &&& self.state.bytes_total == jobs_size(self.plan.jobs@)
    }

    /// Begin an extraction.
    pub fn new(plan: Plan) -> (extraction: Extraction)
        requires
            jobs_size(plan.jobs@) <= u64::MAX,
        ensures
            extraction.plan == plan,
            extraction.next == 0,
            extraction.state.title@ == plan.title@,
            extraction.state.files_total == plan.jobs@.len(),
            extraction.state.bytes_total == jobs_size(plan.jobs@),
            extraction.state.file_index == 0,
            extraction.state.written() == 0,
            extraction.state.current_size == 0,
            extraction.state.current_written == 0,
            extraction.state.current_name@.len() == 0,
            extraction.state.finished is None,
            extraction.on_track(),
    {
        assert(plan.jobs@.take(0).len() == 0);
        let total: u64 = bytes_total(&plan.jobs);
        let state: ExtractState = ExtractState::new(plan.title.clone(), plan.jobs.len(), total);
        Extraction { plan, state, next: 0 }
    }

    /// Whether a directory is to be made before the first file.
    pub fn makes_base(&self) -> (makes: bool)
        ensures
            makes == (self.plan.base@.len() > 0),
    {
        !self.plan.base.as_str().is_empty()
    }

    /// The file that comes next, unless the extraction is over or there is none left.
    pub open spec fn upcoming(&self) -> Option<usize> {
        if self.state.finished is None && self.next < self.plan.jobs@.len() {
            Some(self.next)
        } else {
            None
        }
    }

    /// The file that comes next, unless the extraction is over or there is none left: the
    /// first file that fails ends it.
    pub fn next_job(&self) -> (job: Option<usize>)
        ensures
            job == self.upcoming(),
    {
        if self.state.finished.is_none() && self.next < self.plan.jobs.len() {
            Some(self.next)
        } else {
            None
        }
    }

    /// Turn to the next file, or find that there is none left or that the extraction is
    /// over.
    pub fn begin_job(&mut self) -> (job: Option<usize>)
        ensures
            final(self).plan == old(self).plan,
            final(self).next == old(self).next,
            job == old(self).upcoming(),
            old(self).state.finished is Some ==> job is None,
            job is None ==> final(self).state == old(self).state,
            job is Some ==> {
                let this = old(self).plan.jobs@[old(self).next as int];
                &&& final(self).state.same_extraction(&old(self).state)
                &&& final(self).state.file_index == old(self).next + 1
                &&& final(self).state.current_name@ == file_name_of(this.out@)
                &&& final(self).state.current_size == this.size
                &&& final(self).state.current_written == 0
                &&& final(self).state.bytes_done == old(self).state.bytes_done
            },
            old(self).on_track() ==> final(self).on_track(),
    {
        let index: usize = match self.next_job() {
            Some(index) => index,
            None => {
                return None;
            },
        };
        assert(index < self.plan.jobs.len());
        let name: String = file_name(self.plan.jobs[index].out.as_str());
        let size: u64 = self.plan.jobs[index].size;
        self.state.start_file(index, name, size);
        Some(index)
    }

    /// The current file is complete.
    pub fn end_job(&mut self)
        requires
            old(self).next < old(self).plan.jobs@.len(),
            old(self).state.written() <= u64::MAX,
        ensures
            final(self).plan == old(self).plan,
            final(self).next == old(self).next + 1,
            final(self).state == (ExtractState {
                bytes_done: (old(self).state.bytes_done + old(self).state.current_written) as u64,
                current_written: 0,
                ..old(self).state
            }),
            final(self).state.written() == old(self).state.written(),
            old(self).on_track() && old(self).state.current_written
                == old(self).plan.jobs@[old(self).next as int].size ==> final(self).on_track(),
    {
        assert(self.next < self.plan.jobs.len());
        proof {
            let jobs = self.plan.jobs@;
            let k = self.next as int;
            assert(jobs.take(k + 1).drop_last() =~= jobs.take(k));
        }
        self.state.finish_file();
        self.next = self.next + 1;
    }

    /// The extraction is over: all files are written, or it stopped with an error. The
    /// first outcome stays.
    pub fn finish(&mut self, outcome: Result<(), String>)
        ensures
            final(self).plan == old(self).plan,
            final(self).next == old(self).next,
            final(self).state == (ExtractState {
                finished: final(self).state.finished,
                ..old(self).state
            }),
            old(self).state.finished is Some ==> final(self).state == old(self).state,
            old(self).state.finished is None ==> match outcome {
                Ok(_) => final(self).state.finished == Some(
                    Ok::<usize, String>(old(self).plan.jobs@.len() as usize),
                ) && old(self).plan.jobs@.len() <= usize::MAX,
                Err(message) => final(self).state.finished == Some(Err::<usize, String>(message)),
            },
    {
        if self.state.finished.is_none() {
            self.state.finished = match outcome {
                Ok(_) => Some(Ok(self.plan.jobs.len())),
                Err(message) => Some(Err(message)),
            };
        }
    }
}

/// When every file came with its announced size and none is left, all announced bytes
/// have been written.
pub proof fn law_extraction_adds_up(extraction: Extraction)
    requires
        extraction.on_track(),
        extraction.next == extraction.plan.jobs@.len(),
        extraction.state.current_written == 0,
    ensures
        extraction.state.written() == extraction.state.bytes_total,
{
    let jobs = extraction.plan.jobs@;
    assert(jobs.take(jobs.len() as int) =~= jobs);
}

} // verus!
