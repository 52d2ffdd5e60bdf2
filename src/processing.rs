//! The process table: every process spawned during the daemon's lifetime,
//! under sequential internal ids that start at 1 and are never reused.
use crate::clock::local_now_text;
use crate::commands::texts_view;
use crate::text::{int_text, nat_text, push_int, push_nat, push_text};
use vstd::prelude::*;

verus! {

/// One tracked process. The OS handle of the process itself is held by
/// whoever spawned it; the table keeps what it reports.
pub struct SibylProcess {
    /// Program and arguments, as displayed.
    pub cmdline: String,
    /// Local time at which the process was registered, as displayed.
    pub started: String,
    /// Internal id.
    pub pid: u32,
    /// Id of the process in the operating system.
    pub os_pid: u32,
    /// Path of the log file that holds its standard output.
    pub log_file: String,
}

/// The mathematical value of a tracked process.
pub struct ProcessView {
    pub cmdline: Seq<char>,
    pub started: Seq<char>,
    pub pid: u32,
    pub os_pid: u32,
    pub log_file: Seq<char>,
}

impl View for SibylProcess {
    type V = ProcessView;

    open spec fn view(&self) -> ProcessView {
        ProcessView {
            cmdline: self.cmdline@,
            started: self.started@,
            pid: self.pid,
            os_pid: self.os_pid,
            log_file: self.log_file@,
        }
    }
}

/// What a poll of a process reported.
pub enum ProcessWaitStatus {
    /// Still running, with this OS id.
    Running(u32),
    /// Exited, with its exit code where it has one.
    Exited(Option<i32>),
    /// The poll itself failed.
    Unknown,
}

/// What a non-blocking poll of the OS process returned.
pub enum PollOutcome {
    /// The process has not exited yet.
    StillRunning,
    /// The process has exited, with its exit code where it has one.
    Exited(Option<i32>),
    /// The poll failed.
    Failed,
}

/// A snapshot of one tracked process.
pub struct ProcessStatus {
    pub cmdline: String,
    pub started: String,
    pub internal_pid: u32,
    pub os_pid: u32,
    pub status: ProcessWaitStatus,
    pub log_path: String,
}

/// The texts of `ts` one after the other.
pub open spec fn concat_all(ts: Seq<Seq<char>>) -> Seq<char>
    decreases ts.len(),
{
    if ts.len() == 0 {
        Seq::empty()
    } else {
        concat_all(ts.drop_last()) + ts.last()
    }
}

/// The displayed command line: the program, then its arguments, as written.
pub open spec fn cmdline_of(program: Seq<char>, args: Seq<Seq<char>>) -> Seq<char> {
    program + concat_all(args)
}

/// The wait status that a poll outcome gives for a process with OS id `os_pid`.
pub open spec fn wait_status_of(poll: PollOutcome, os_pid: u32) -> ProcessWaitStatus {
    match poll {
        PollOutcome::StillRunning => ProcessWaitStatus::Running(os_pid),
        PollOutcome::Exited(code) => ProcessWaitStatus::Exited(code),
        PollOutcome::Failed => ProcessWaitStatus::Unknown,
    }
}

/// How a wait status reads.
pub open spec fn wait_status_text(w: ProcessWaitStatus) -> Seq<char> {
    match w {
        ProcessWaitStatus::Running(p) => "running (pid "@ + nat_text(p as nat) + ")"@,
        ProcessWaitStatus::Exited(Some(c)) => "exited (exit code "@ + int_text(c as int) + ")"@,
        ProcessWaitStatus::Exited(None) => "exited (no exit code)"@,
        ProcessWaitStatus::Unknown => "unknown"@,
    }
}

/// How a snapshot of the entry `e`, with wait status `w`, reads: one line
/// per field.
pub open spec fn snapshot_text(e: ProcessView, w: ProcessWaitStatus) -> Seq<char> {
    "process status for ("@ + nat_text(e.pid as nat) + ")\n"@
        + "  command line : "@ + e.cmdline + "\n"@
        + "  started at   : "@ + e.started + "\n"@
        + "  OS PID       : "@ + nat_text(e.os_pid as nat) + "\n"@
        + "  wait status  : "@ + wait_status_text(w) + "\n"@
        + "  log file     : "@ + e.log_file + "\n"@
}

/// How a status snapshot reads.
pub open spec fn status_text(s: ProcessStatus) -> Seq<char> {
    snapshot_text(
        ProcessView {
            cmdline: s.cmdline@,
            started: s.started@,
            pid: s.internal_pid,
            os_pid: s.os_pid,
            log_file: s.log_path@,
        },
        s.status,
    )
}

/// `pid` is the internal id of an entry of `t`, whose ids are sequential.
pub open spec fn has_id(t: Seq<ProcessView>, pid: u32) -> bool {
    1 <= pid <= t.len()
}

/// The internal id that the next registration in `t` receives.
pub open spec fn next_id(t: Seq<ProcessView>) -> nat {
    t.len() + 1
}

impl ProcessWaitStatus {
    /// The text of this wait status.
    pub fn to_text(&self) -> (r: String)
        ensures
            r@ == wait_status_text(*self),
    {
        let mut s = String::new();
        match self {
            ProcessWaitStatus::Running(p) => {
                push_text(&mut s, "running (pid ");
                push_nat(&mut s, *p as u128);
                push_text(&mut s, ")");
            },
            ProcessWaitStatus::Exited(Some(c)) => {
                push_text(&mut s, "exited (exit code ");
                push_int(&mut s, *c as i128);
                push_text(&mut s, ")");
            },
            ProcessWaitStatus::Exited(None) => {
                push_text(&mut s, "exited (no exit code)");
            },
            ProcessWaitStatus::Unknown => {
                push_text(&mut s, "unknown");
            },
        }
        s
    }
}

impl ProcessStatus {
    /// The text of this snapshot.
    pub fn to_text(&self) -> (r: String)
        ensures
            r@ == status_text(*self),
    {
        let mut s = String::new();
        push_text(&mut s, "process status for (");
        push_nat(&mut s, self.internal_pid as u128);
        push_text(&mut s, ")\n");
        push_text(&mut s, "  command line : ");
        push_text(&mut s, self.cmdline.as_str());
        push_text(&mut s, "\n");
        push_text(&mut s, "  started at   : ");
        push_text(&mut s, self.started.as_str());
        push_text(&mut s, "\n");
        push_text(&mut s, "  OS PID       : ");
        push_nat(&mut s, self.os_pid as u128);
        push_text(&mut s, "\n");
        push_text(&mut s, "  wait status  : ");
        let w = self.status.to_text();
        push_text(&mut s, w.as_str());
        push_text(&mut s, "\n");
        push_text(&mut s, "  log file     : ");
        push_text(&mut s, self.log_path.as_str());
        push_text(&mut s, "\n");
        s
    }
}

/// The internal ids of `v` are 1, 2, 3, ... in order.
pub open spec fn ids_sequential(v: Seq<ProcessView>) -> bool {
    forall|i: int| 0 <= i < v.len() ==> #[trigger] v[i].pid == i + 1
}

/// The process table.
pub struct ProcessHandler {
    count: u32,
    processes: Vec<SibylProcess>,
}

impl View for ProcessHandler {
    type V = Seq<ProcessView>;

    closed spec fn view(&self) -> Seq<ProcessView> {
        self.processes@.map_values(|p: SibylProcess| p@)
    }
}

impl ProcessHandler {
    /// The id counter agrees with the number of entries.
    pub closed spec fn counted(&self) -> bool {
        self.count as nat == self.processes@.len()
    }

    /// The table is well formed: the ids are sequential from 1, and the id
    /// counter agrees with them.
    pub open spec fn wf(&self) -> bool {
        &&& self.counted()
        &&& ids_sequential(self@)
    }

    /// An empty table.
    pub fn new() -> (r: ProcessHandler)
        ensures
            r.wf(),
            r@ == Seq::<ProcessView>::empty(),
    {
        let r = ProcessHandler { count: 0, processes: Vec::new() };
        assert(r@ =~= Seq::<ProcessView>::empty());
        r
    }

    /// True when every internal id has been handed out.
    pub fn is_full(&self) -> (r: bool)
        requires
            self.wf(),
        ensures
            r == (self@.len() >= u32::MAX),
    {
        self.count == u32::MAX
    }

    /// Registers a process that was spawned from `program` with `args`,
    /// whose OS id is `os_pid` and whose output goes to `log_path`, under
    /// the next internal id, which it returns; `None`, with the table
    /// unchanged, when every id has been handed out.
    pub fn create_process(
        &mut self,
        program: &String,
        args: &Vec<String>,
        log_path: &String,
        os_pid: u32,
    ) -> (r: Option<u32>)
        requires
            old(self).wf(),
        ensures
            final(self).wf(),
            old(self)@.len() >= u32::MAX ==> r is None && final(self)@ == old(self)@,
            old(self)@.len() < u32::MAX ==> {
                &&& r == Some(next_id(old(self)@) as u32)
                &&& final(self)@.len() == old(self)@.len() + 1
                &&& final(self)@.drop_last() == old(self)@
                &&& final(self)@.last().pid == next_id(old(self)@)
                &&& final(self)@.last().cmdline == cmdline_of(program@, texts_view(args@))
                &&& final(self)@.last().os_pid == os_pid
                &&& final(self)@.last().log_file == log_path@
            },
    {
        if self.count == u32::MAX {
            return None;
        }
        let mut cmdline = program.clone();
        let n = args.len();
        let mut i: usize = 0;
        while i < n
            invariant
                i <= n == args@.len(),
                cmdline@ == cmdline_of(program@, texts_view(args@.take(i as int))),
            decreases n - i,
        {
            push_text(&mut cmdline, args[i].as_str());
            proof {
                let done = texts_view(args@.take(i + 1));
                assert(done.drop_last() =~= texts_view(args@.take(i as int)));
                assert(done.last() == args@[i as int]@);
            }
            i = i + 1;
        }
        assert(args@.take(n as int) =~= args@);
        self.count = self.count + 1;
        let entry = SibylProcess {
            cmdline,
            started: local_now_text(),
            pid: self.count,
            os_pid,
            log_file: log_path.clone(),
        };
        let ghost before = self@;
        self.processes.push(entry);
        assert(self@.drop_last() =~= before);
        assert(ids_sequential(self@)) by {
            assert forall|i: int| 0 <= i < self@.len() implies #[trigger] self@[i].pid == i + 1 by {
                if i < before.len() {
                    assert(self@[i] == before[i]);
                }
            }
        }
        Some(self.count)
    }

    /// The entry registered under internal id `pid`, if any.
    pub fn get_process_by_pid(&self, pid: u32) -> (r: Option<&SibylProcess>)
        requires
            self.wf(),
        ensures
            r is Some <==> has_id(self@, pid),
            r matches Some(p) ==> p@ == self@[pid - 1],
    {
        if pid >= 1 && pid <= self.count {
            Some(&self.processes[(pid - 1) as usize])
        } else {
            None
        }
    }

    /// A snapshot of the entry under internal id `pid`, with the wait status
    /// that `poll` reports for it; `None` when no entry has that id.
    pub fn get_process_status(&self, pid: u32, poll: PollOutcome) -> (r: Option<ProcessStatus>)
        requires
            self.wf(),
        ensures
            r is Some <==> has_id(self@, pid),
            r matches Some(s) ==> {
                let e = self@[pid - 1];
                &&& s.internal_pid == pid
                &&& s.cmdline@ == e.cmdline
                &&& s.started@ == e.started
                &&& s.os_pid == e.os_pid
                &&& s.status == wait_status_of(poll, e.os_pid)
                &&& s.log_path@ == e.log_file
            },
    {
        match self.get_process_by_pid(pid) {
            Some(p) => {
                let status = match poll {
                    PollOutcome::StillRunning => ProcessWaitStatus::Running(p.os_pid),
                    PollOutcome::Exited(code) => ProcessWaitStatus::Exited(code),
                    PollOutcome::Failed => ProcessWaitStatus::Unknown,
                };
                Some(
                    ProcessStatus {
                        cmdline: p.cmdline.clone(),
                        started: p.started.clone(),
                        internal_pid: pid,
                        os_pid: p.os_pid,
                        status,
                        log_path: p.log_file.clone(),
                    },
                )
            },
            None => None,
        }
    }

    /// Every entry, in the order of registration.
    pub fn all_processes(&self) -> (r: &[SibylProcess])
        requires
            self.wf(),
        ensures
            r@.map_values(|p: SibylProcess| p@) == self@,
    {
        self.processes.as_slice()
    }
}

impl Default for ProcessHandler {
    fn default() -> (r: ProcessHandler)
        ensures
            r.wf(),
            r@ == Seq::<ProcessView>::empty(),
    {
        ProcessHandler::new()
    }
}

/// Two registrations in a row receive consecutive ids, in the order they
/// were made.
pub proof fn lemma_ids_consecutive(t0: Seq<ProcessView>, t1: Seq<ProcessView>)
    requires
        t1.len() == t0.len() + 1,
    ensures
        next_id(t1) == next_id(t0) + 1,
{
}

} // verus!
