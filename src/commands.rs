//! The closed set of commands, and how the daemon answers each of them.
use crate::clock::{local_now_text, utc_now_millis};
use crate::logging::{log_path, LogFile, LogHandler, LogName};
use crate::processing::{
    cmdline_of, concat_all, has_id, next_id, snapshot_text, wait_status_of, wait_status_text,
    PollOutcome, ProcessHandler, ProcessView, ProcessWaitStatus,
};
use crate::text::{int_text, nat_text, push_nat, push_text};
use crate::{Request, Response};
use vstd::prelude::*;

verus! {

/// Run `program` once with `args`, its standard output kept in a new log file.
pub struct CmdOnce {
    pub program: String,
    pub args: Vec<String>,
}

/// Report the content of the most recently modified log file.
pub struct CmdLatest;

/// Report how long the request took to reach the daemon.
pub struct CmdPing;

/// Report the status of the process tracked under internal id `pid`.
pub struct CmdStatus {
    pub pid: u32,
}

/// List every process tracked since the daemon started.
pub struct CmdList;

/// One command; the variant travels with it on the wire as a tag.
pub enum Command {
    Once(CmdOnce),
    Latest(CmdLatest),
    Ping(CmdPing),
    Status(CmdStatus),
    List(CmdList),
}

/// The mathematical value of a command.
pub enum CommandView {
    Once { program: Seq<char>, args: Seq<Seq<char>> },
    Latest,
    Ping,
    Status { pid: u32 },
    List,
}

/// The texts held in a vector of strings.
pub open spec fn texts_view(v: Seq<String>) -> Seq<Seq<char>> {
    v.map_values(|a: String| a@)
}

impl View for CmdOnce {
    type V = CommandView;

    open spec fn view(&self) -> CommandView {
        CommandView::Once { program: self.program@, args: texts_view(self.args@) }
    }
}

impl View for Command {
    type V = CommandView;

    open spec fn view(&self) -> CommandView {
        match self {
            Command::Once(c) => c@,
            Command::Latest(_) => CommandView::Latest,
            Command::Ping(_) => CommandView::Ping,
            Command::Status(c) => CommandView::Status { pid: c.pid },
            Command::List(_) => CommandView::List,
        }
    }
}

/// The arguments, each behind a `_`.
pub open spec fn underscored(ts: Seq<Seq<char>>) -> Seq<char>
    decreases ts.len(),
{
    if ts.len() == 0 {
        Seq::empty()
    } else {
        underscored(ts.drop_last()) + "_"@ + ts.last()
    }
}

/// `t` with each space turned into a `-`.
pub open spec fn dashed(t: Seq<char>) -> Seq<char> {
    t.map_values(|c: char| if c == ' ' { '-' } else { c })
}

/// The log name of a run of `program` with `args` at the moment written
/// `stamp`: program and arguments joined by `_`, then `_` and the moment,
/// its spaces turned into `-`.
pub open spec fn once_log_name(program: Seq<char>, args: Seq<Seq<char>>, stamp: Seq<char>) -> Seq<
    char,
> {
    program + underscored(args) + "_"@ + dashed(stamp)
}

/// The message that reports a process started under internal id `pid`.
pub open spec fn once_text(program: Seq<char>, pid: u32) -> Seq<char> {
    "successfully executed process: "@ + program + " | sibyl pid: "@ + nat_text(pid as nat)
}

/// The message that reports a failure described by `e`.
pub open spec fn error_text(e: Seq<char>) -> Seq<char> {
    "an error occurred: "@ + e
}

/// The message that reports a ping that took `ms` milliseconds.
pub open spec fn ping_text(ms: nat) -> Seq<char> {
    "pong! "@ + nat_text(ms) + "ms"@
}

/// The latency of a ping issued at `issued` and received at `now`, both in
/// milliseconds since the Unix epoch; a clock that reads earlier than the
/// issue time counts as no delay at all.
pub open spec fn latency(issued: i64, now: i64) -> nat {
    if now >= issued {
        (now - issued) as nat
    } else {
        0
    }
}

/// The message that reports a ping issued at `issued` and received at `now`.
pub open spec fn ping_text_between(issued: i64, now: i64) -> Seq<char> {
    ping_text(latency(issued, now))
}

/// The message for a status request on an id that no process has.
pub open spec fn not_found_text(pid: u32) -> Seq<char> {
    "no process found with pid "@ + nat_text(pid as nat)
}

/// The answer to a status request on `pid` in table `t`, the process
/// having been polled with outcome `poll`.
pub open spec fn status_response_text(t: Seq<ProcessView>, pid: u32, poll: PollOutcome) -> Seq<
    char,
> {
    if has_id(t, pid) {
        snapshot_text(t[pid - 1], wait_status_of(poll, t[pid - 1].os_pid))
    } else {
        not_found_text(pid)
    }
}

/// How one entry reads in a listing.
pub open spec fn list_line(e: ProcessView) -> Seq<char> {
    "  SPID: "@ + nat_text(e.pid as nat) + " - "@ + e.cmdline + "\n"@
}

/// The lines of a listing of `t`, one per entry, in order.
pub open spec fn list_lines(t: Seq<ProcessView>) -> Seq<Seq<char>> {
    t.map_values(|e: ProcessView| list_line(e))
}

/// The listing of table `t`.
pub open spec fn list_text(t: Seq<ProcessView>) -> Seq<char> {
    "list of processes:\n"@ + concat_all(list_lines(t))
}

/// The message when there is no log file to report.
pub open spec fn no_logs_text(directory: Seq<char>) -> Seq<char> {
    error_text("no log file in "@ + directory)
}

/// Entry `i` is the one the latest command reports, among log files whose
/// modification times are `m` (nanoseconds from the Unix epoch, negative
/// before it, in the order the directory lists them): no entry is later,
/// and none before it is as late.
pub open spec fn is_latest(m: Seq<i128>, i: int) -> bool {
    &&& 0 <= i < m.len()
    &&& forall|j: int| 0 <= j < m.len() ==> #[trigger] m[j] <= m[i]
    &&& forall|j: int| 0 <= j < i ==> #[trigger] m[j] < m[i]
}

/// A response with message `msg`.
pub fn response(msg: String) -> (r: Response)
    ensures
        r@ == msg@,
{
    Response { msg }
}

/// The response that reports a failure described by `e`.
pub fn error_response(e: &str) -> (r: Response)
    ensures
        r@ == error_text(e@),
{
    let mut msg = String::new();
    push_text(&mut msg, "an error occurred: ");
    push_text(&mut msg, e);
    Response { msg }
}

impl CmdOnce {
    /// The program followed by its arguments, taken from a command line
    /// whose first word is the program; `None` for an empty one.
    pub fn from_cmdline(cmdline: &Vec<String>) -> (r: Option<CmdOnce>)
        ensures
            r is None <==> cmdline@.len() == 0,
            r matches Some(c) ==> c.program@ == cmdline@[0]@ && texts_view(c.args@)
                == texts_view(cmdline@.skip(1)),
    {
        if cmdline.len() == 0 {
            return None;
        }
        let program = cmdline[0].clone();
        let mut args: Vec<String> = Vec::new();
        let n = cmdline.len();
        let mut i: usize = 1;
        while i < n
            invariant
                1 <= i <= n == cmdline@.len(),
                args@.len() == i - 1,
                forall|k: int| 0 <= k < i - 1 ==> #[trigger] args@[k]@ == cmdline@[k + 1]@,
            decreases n - i,
        {
            args.push(cmdline[i].clone());
            i = i + 1;
        }
        assert(texts_view(args@) =~= texts_view(cmdline@.skip(1)));
        Some(CmdOnce { program, args })
    }

    /// The log name of this run at the moment written `stamp`.
    pub fn log_name_at(&self, stamp: &String) -> (r: String)
        ensures
            r@ == once_log_name(self.program@, texts_view(self.args@), stamp@),
    {
        let mut name = self.program.clone();
        let n = self.args.len();
        let mut i: usize = 0;
        while i < n
            invariant
                i <= n == self.args@.len(),
                name@ == self.program@ + underscored(texts_view(self.args@.take(i as int))),
            decreases n - i,
        {
            push_text(&mut name, "_");
            push_text(&mut name, self.args[i].as_str());
            proof {
                let done = texts_view(self.args@.take(i + 1));
                assert(done.drop_last() =~= texts_view(self.args@.take(i as int)));
                assert(done.last() == self.args@[i as int]@);
            }
            assert(name@ =~= self.program@ + underscored(texts_view(self.args@.take(i + 1))));
            i = i + 1;
        }
        assert(self.args@.take(n as int) =~= self.args@);
        push_text(&mut name, "_");
        let ghost head = name@;
        let chars = stamp.as_str();
        let mut j: usize = 0;
        let ghost stamp_chars = stamp@;
        let mut tail = String::new();
        let m = chars.unicode_len();
        while j < m
            invariant
                j <= m == stamp_chars.len(),
                stamp_chars == stamp@,
                chars@ == stamp@,
                tail@ == dashed(stamp_chars.take(j as int)),
            decreases m - j,
        {
            let c = chars.get_char(j);
            if c == ' ' {
                tail.push('-');
            } else {
                tail.push(c);
            }
            assert(tail@ =~= dashed(stamp_chars.take(j + 1)));
            j = j + 1;
        }
        assert(stamp_chars.take(m as int) =~= stamp_chars);
        push_text(&mut name, tail.as_str());
        name
    }

    /// The response that reports this run started under internal id `pid`.
    pub fn success_response(&self, pid: u32) -> (r: Response)
        ensures
            r@ == once_text(self.program@, pid),
    {
        let mut msg = String::new();
        push_text(&mut msg, "successfully executed process: ");
        push_text(&mut msg, self.program.as_str());
        push_text(&mut msg, " | sibyl pid: ");
        push_nat(&mut msg, pid as u128);
        Response { msg }
    }
}

/// The message when every internal id has been handed out.
pub open spec fn ids_exhausted_text() -> Seq<char> {
    error_text("no internal process id is left"@)
}

impl CmdOnce {
    /// The first step of running this command: records its log in the log
    /// store (whose directory the caller has created) and returns the log
    /// file that the process's standard output is to go to. When every
    /// internal id has been handed out it changes nothing and returns the
    /// error response instead.
    pub fn prepare(&self, ctx: &mut CommandContext) -> (r: Result<LogFile, Response>)
        requires
            old(ctx).wf(),
        ensures
            final(ctx).wf(),
            final(ctx).prochandler@ == old(ctx).prochandler@,
            final(ctx).loghandler@.directory == old(ctx).loghandler@.directory,
            old(ctx).prochandler@.len() >= u32::MAX ==> {
                &&& r matches Err(e) && e@ == ids_exhausted_text()
                &&& final(ctx).loghandler@ == old(ctx).loghandler@
            },
            old(ctx).prochandler@.len() < u32::MAX ==> (r matches Ok(log) && exists|stamp: Seq<char>|
                {
                    let name = #[trigger] once_log_name(
                        self.program@,
                        texts_view(self.args@),
                        stamp,
                    );
                    &&& final(ctx).loghandler@.logs == old(ctx).loghandler@.logs.insert(
                        name,
                        log_path(old(ctx).loghandler@.directory, name),
                    )
                    &&& log@ == log_path(old(ctx).loghandler@.directory, name)
                }),
    {
        if ctx.prochandler.is_full() {
            return Err(error_response("no internal process id is left"));
        }
        let name = self.log_name();
        Ok(ctx.loghandler.create_log(&name))
    }

    /// The last step of running this command, once its process has been
    /// spawned with OS id `os_pid` and its output sent to `log`: registers
    /// the process under the next internal id and reports that id. When
    /// every internal id has been handed out it changes nothing and returns
    /// the error response instead.
    pub fn complete(&self, ctx: &mut CommandContext, log: &LogFile, os_pid: u32) -> (r: Response)
        requires
            old(ctx).wf(),
        ensures
            final(ctx).wf(),
            final(ctx).loghandler@ == old(ctx).loghandler@,
            old(ctx).prochandler@.len() >= u32::MAX ==> {
                &&& r@ == ids_exhausted_text()
                &&& final(ctx).prochandler@ == old(ctx).prochandler@
            },
            old(ctx).prochandler@.len() < u32::MAX ==> {
                let t = final(ctx).prochandler@;
                &&& r@ == once_text(self.program@, next_id(old(ctx).prochandler@) as u32)
                &&& t.len() == old(ctx).prochandler@.len() + 1
                &&& t.drop_last() == old(ctx).prochandler@
                &&& t.last().pid == next_id(old(ctx).prochandler@)
                &&& t.last().cmdline == cmdline_of(self.program@, texts_view(self.args@))
                &&& t.last().os_pid == os_pid
                &&& t.last().log_file == log@
            },
    {
        match ctx.prochandler.create_process(&self.program, &self.args, log.get_path(), os_pid) {
            Some(pid) => self.success_response(pid),
            None => error_response("no internal process id is left"),
        }
    }
}

impl LogName for CmdOnce {
    fn log_name(&self) -> (r: String)
        ensures
            exists|stamp: Seq<char>| r@ == once_log_name(self.program@, texts_view(self.args@), stamp),
    {
        let stamp = local_now_text();
        self.log_name_at(&stamp)
    }
}

impl CmdPing {
    /// The answer to a ping issued at `req.time` and received at `now`, both
    /// in milliseconds since the Unix epoch: the time between the two, or 0
    /// where `now` is the earlier.
    pub fn respond(&self, req: &Request, now: i64) -> (r: Response)
        ensures
            r@ == ping_text_between(req.time, now),
    {
        let ms: u128 = if now >= req.time {
            (now as i128 - req.time as i128) as u128
        } else {
            0
        };
        let mut msg = String::new();
        push_text(&mut msg, "pong! ");
        push_nat(&mut msg, ms);
        push_text(&mut msg, "ms");
        Response { msg }
    }

    /// The answer to a ping, timed by the clock as the daemon reads it now.
    pub fn execute(&self, req: &Request) -> (r: Response)
        ensures
            exists|now: i64| r@ == #[trigger] ping_text_between(req.time, now),
            exists|ms: nat| r@ == #[trigger] ping_text(ms),
    {
        let now = utc_now_millis();
        let r = self.respond(req, now);
        assert(r@ == ping_text(latency(req.time, now)));
        r
    }
}

/// `c` is a decimal digit.
pub open spec fn is_digit(c: char) -> bool {
    '0' <= c <= '9'
}

/// The value of a string of decimal digits, most significant first.
pub open spec fn digits_value(s: Seq<char>) -> nat
    decreases s.len(),
{
    if s.len() == 0 {
        0
    } else {
        digits_value(s.drop_last()) * 10 + (s.last() as nat - '0' as nat) as nat
    }
}

proof fn lemma_digits_value_grows(s: Seq<char>, i: int)
    requires
        0 <= i <= s.len(),
        forall|k: int| 0 <= k < s.len() ==> is_digit(#[trigger] s[k]),
    ensures
        digits_value(s.take(i)) <= digits_value(s),
    decreases s.len() - i,
{
    if i < s.len() {
        lemma_digits_value_grows(s, i + 1);
        assert(s.take(i + 1).drop_last() =~= s.take(i));
        assert(is_digit(s[i]));
    } else {
        assert(s.take(i) =~= s);
    }
}

/// The digits of a decimal number written `s`: `s` without its one
/// optional leading `+`.
pub open spec fn unsigned_digits(s: Seq<char>) -> Seq<char> {
    if s.len() > 0 && s[0] == '+' {
        s.skip(1)
    } else {
        s
    }
}

impl CmdStatus {
    /// The status command for the internal id written in `arg` in decimal,
    /// with one optional leading `+`; `None` when there is no digit, when
    /// anything but digits follows the sign, or when the id is beyond the
    /// range of ids.
    pub fn from_arg(arg: &String) -> (r: Option<CmdStatus>)
        ensures
            r is Some <==> {
                let s = unsigned_digits(arg@);
                &&& s.len() > 0
                &&& forall|k: int| 0 <= k < s.len() ==> is_digit(#[trigger] s[k])
                &&& digits_value(s) <= u32::MAX
            },
            r matches Some(c) ==> c.pid == digits_value(unsigned_digits(arg@)),
    {
        let text = arg.as_str();
        let len = text.unicode_len();
        let start: usize = if len > 0 && text.get_char(0) == '+' {
            1
        } else {
            0
        };
        if len - start == 0 {
            return None;
        }
        let ghost s = unsigned_digits(arg@);
        let n = len - start;
        let mut v: u64 = 0;
        let mut i: usize = 0;
        while i < n
            invariant
                i <= n == s.len(),
                s == unsigned_digits(arg@),
                start + n == len == text@.len(),
                text@ == arg@,
                s =~= text@.skip(start as int),
                forall|k: int| 0 <= k < i ==> is_digit(#[trigger] s[k]),
                v == digits_value(s.take(i as int)),
                v <= u32::MAX,
            decreases n - i,
        {
            let c = text.get_char(start + i);
            assert(c == s[i as int]);
            if !('0' <= c && c <= '9') {
                return None;
            }
            assert(s.take(i + 1).drop_last() =~= s.take(i as int));
            assert(s.take(i + 1).last() == c);
            let d = (c as u32 - '0' as u32) as u64;
            v = v * 10 + d;
            if v > u32::MAX as u64 {
                proof {
                    if forall|k: int| 0 <= k < s.len() ==> is_digit(#[trigger] s[k]) {
                        lemma_digits_value_grows(s, i + 1);
                    }
                }
                return None;
            }
            i = i + 1;
        }
        assert(s.take(n as int) =~= s);
        Some(CmdStatus { pid: v as u32 })
    }

    /// The answer to this status request, the process under `self.pid`
    /// having been polled with outcome `poll`.
    pub fn execute(&self, ctx: &CommandContext, poll: PollOutcome) -> (r: Response)
        requires
            ctx.wf(),
        ensures
            r@ == status_response_text(ctx.prochandler@, self.pid, poll),
    {
        match ctx.prochandler.get_process_status(self.pid, poll) {
            Some(status) => Response { msg: status.to_text() },
            None => {
                let mut msg = String::new();
                push_text(&mut msg, "no process found with pid ");
                push_nat(&mut msg, self.pid as u128);
                Response { msg }
            },
        }
    }
}

impl CmdList {
    /// The listing of every tracked process, in the order of registration.
    pub fn execute(&self, ctx: &CommandContext) -> (r: Response)
        requires
            ctx.wf(),
        ensures
            r@ == list_text(ctx.prochandler@),
    {
        let procs = ctx.prochandler.all_processes();
        let ghost t = ctx.prochandler@;
        let mut msg = String::new();
        push_text(&mut msg, "list of processes:\n");
        let n = procs.len();
        let mut i: usize = 0;
        while i < n
            invariant
                i <= n == procs@.len() == t.len(),
                procs@.map_values(|p: crate::processing::SibylProcess| p@) == t,
                msg@ == "list of processes:\n"@ + concat_all(list_lines(t.take(i as int))),
            decreases n - i,
        {
            let p = &procs[i];
            assert(p@ == t[i as int]);
            push_text(&mut msg, "  SPID: ");
            push_nat(&mut msg, p.pid as u128);
            push_text(&mut msg, " - ");
            push_text(&mut msg, p.cmdline.as_str());
            push_text(&mut msg, "\n");
            proof {
                let done = list_lines(t.take(i + 1));
                assert(done.drop_last() =~= list_lines(t.take(i as int)));
                assert(done.last() == list_line(t[i as int]));
            }
            assert(msg@ =~= "list of processes:\n"@ + concat_all(list_lines(t.take(i + 1))));
            i = i + 1;
        }
        assert(t.take(n as int) =~= t);
        Response { msg }
    }
}

impl CmdLatest {
    /// Which of the log files, whose modification times are `modified`
    /// (nanoseconds from the Unix epoch, negative before it, in the order
    /// the directory lists them), to report: the latest one, the first
    /// listed among equals; `None` only for an empty directory.
    pub fn pick(&self, modified: &Vec<i128>) -> (r: Option<usize>)
        ensures
            r is None <==> modified@.len() == 0,
            r matches Some(i) ==> is_latest(modified@, i as int),
    {
        let n = modified.len();
        let mut best: Option<usize> = None;
        let mut last: i128 = 0;
        let mut i: usize = 0;
        while i < n
            invariant
                i <= n == modified@.len(),
                best is None <==> i == 0,
                best matches Some(b) ==> {
                    &&& b < i
                    &&& last == modified@[b as int]
                    &&& forall|j: int| 0 <= j < i ==> #[trigger] modified@[j] <= last
                    &&& forall|j: int| 0 <= j < b ==> #[trigger] modified@[j] < last
                },
            decreases n - i,
        {
            if best.is_none() || modified[i] > last {
                last = modified[i];
                best = Some(i);
            }
            i = i + 1;
        }
        best
    }

    /// The response when there is no log file to report.
    pub fn no_logs_response(&self, ctx: &CommandContext) -> (r: Response)
        ensures
            r@ == no_logs_text(ctx.loghandler@.directory),
    {
        let mut e = String::new();
        push_text(&mut e, "no log file in ");
        push_text(&mut e, ctx.loghandler.log_directory().as_str());
        error_response(e.as_str())
    }
}

/// Everything a command may read or change: the log store and the process
/// table.
pub struct CommandContext {
    pub loghandler: LogHandler,
    pub prochandler: ProcessHandler,
}

impl CommandContext {
    /// Both parts are well formed.
    pub open spec fn wf(&self) -> bool {
        self.loghandler.wf() && self.prochandler.wf()
    }

    /// A fresh context, with logs kept under `log_directory`.
    pub fn new(log_directory: &String) -> (r: CommandContext)
        ensures
            r.wf(),
            r.loghandler@.directory == log_directory@,
            r.loghandler@.logs == Map::<Seq<char>, Seq<char>>::empty(),
            r.prochandler@ == Seq::<ProcessView>::empty(),
    {
        CommandContext { loghandler: LogHandler::new(log_directory), prochandler: ProcessHandler::new() }
    }
}

/// Right after a run has been registered, a status request on the id that
/// it reported finds the process: it is never "not found", and whenever the
/// poll itself succeeds the process is reported running or exited.
pub proof fn lemma_status_after_once(before: Seq<ProcessView>, after: Seq<ProcessView>, poll: PollOutcome)
    requires
        before.len() < u32::MAX,
        after.len() == before.len() + 1,
        after.drop_last() == before,
        after.last().pid == next_id(before),
    ensures
        has_id(after, next_id(before) as u32),
        status_response_text(after, next_id(before) as u32, poll) == snapshot_text(
            after.last(),
            wait_status_of(poll, after.last().os_pid),
        ),
        status_response_text(after, next_id(before) as u32, poll) != not_found_text(
            next_id(before) as u32,
        ),
        !(poll is Failed) ==> (wait_status_of(poll, after.last().os_pid) is Running
            || wait_status_of(poll, after.last().os_pid) is Exited),
{
    let found = status_response_text(after, next_id(before) as u32, poll);
    let missing = not_found_text(next_id(before) as u32);
    reveal_strlit("process status for (");
    reveal_strlit("no process found with pid ");
    assert(found[0] == 'p');
    assert(missing[0] == 'n');
}

/// Right after a run has been registered, a status request whose poll finds
/// the process exited with code 0 reports exactly that.
pub proof fn lemma_exit_zero_reported(before: Seq<ProcessView>, after: Seq<ProcessView>)
    requires
        before.len() < u32::MAX,
        after.len() == before.len() + 1,
        after.drop_last() == before,
        after.last().pid == next_id(before),
    ensures
        status_response_text(after, next_id(before) as u32, PollOutcome::Exited(Some(0)))
            == snapshot_text(after.last(), ProcessWaitStatus::Exited(Some(0))),
        wait_status_text(ProcessWaitStatus::Exited(Some(0))) == "exited (exit code 0)"@,
{
    reveal_strlit("exited (exit code ");
    reveal_strlit(")");
    reveal_strlit("exited (exit code 0)");
    assert(int_text(0) == seq!['0']);
    assert(wait_status_text(ProcessWaitStatus::Exited(Some(0))) =~= "exited (exit code 0)"@);
}

/// A status request on an id that no registration handed out finds
/// nothing, and answers with the "not found" message rather than an error.
pub proof fn lemma_status_never_issued(t: Seq<ProcessView>, pid: u32, poll: PollOutcome)
    requires
        crate::processing::ids_sequential(t),
        forall|i: int| 0 <= i < t.len() ==> #[trigger] t[i].pid != pid,
    ensures
        !has_id(t, pid),
        status_response_text(t, pid, poll) == not_found_text(pid),
{
    if has_id(t, pid) {
        assert(t[pid - 1].pid == pid);
    }
}

/// With no log file at all, the latest command has nothing to report, and
/// answers with an error message.
pub proof fn lemma_latest_without_logs(m: Seq<i128>)
    requires
        m.len() == 0,
    ensures
        forall|i: int| !is_latest(m, i),
        forall|d: Seq<char>| #[trigger] no_logs_text(d) == error_text("no log file in "@ + d),
{
}

/// The latest command reports the log file modified last: where one entry
/// is later than every other, it is the only one that may be reported.
pub proof fn lemma_latest_is_newest(m: Seq<i128>, k: int)
    requires
        0 <= k < m.len(),
        forall|j: int| 0 <= j < m.len() && j != k ==> #[trigger] m[j] < m[k],
    ensures
        is_latest(m, k),
        forall|i: int| #[trigger] is_latest(m, i) ==> i == k,
{
    assert forall|i: int| #[trigger] is_latest(m, i) implies i == k by {
        if i != k {
            assert(m[k] <= m[i]);
        }
    }
}

/// A ping always reports a non-negative number of milliseconds, written
/// without a sign: the time between issue and receipt where the receipt is
/// not the earlier, and 0 otherwise.
pub proof fn lemma_ping_nonnegative(issued: i64, now: i64)
    ensures
        latency(issued, now) >= 0,
        issued <= now ==> ping_text_between(issued, now) == "pong! "@ + nat_text(
            (now - issued) as nat,
        ) + "ms"@,
        now < issued ==> ping_text_between(issued, now) == "pong! "@ + nat_text(0) + "ms"@,
{
}

/// Each registration adds exactly one line at the end of the listing and
/// keeps every earlier line: the listing has one line per process ever
/// registered, in the order of registration, whatever became of them.
pub proof fn lemma_list_after_once(before: Seq<ProcessView>, after: Seq<ProcessView>)
    requires
        after.len() == before.len() + 1,
        after.drop_last() == before,
    ensures
        list_lines(after) == list_lines(before).push(list_line(after.last())),
        list_lines(after).len() == after.len(),
        list_text(after) == list_text(before) + list_line(after.last()),
{
    assert(list_lines(after) =~= list_lines(before).push(list_line(after.last())));
    assert(list_lines(after).drop_last() =~= list_lines(before));
    assert(list_text(after) =~= list_text(before) + list_line(after.last()));
}

} // verus!
