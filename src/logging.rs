//! The log store: a root directory and, for each log name derived during
//! the daemon's lifetime, the log file it stands for.
use crate::text::push_text;
use vstd::prelude::*;

verus! {

/// A command that needs a log file, and names it.
pub trait LogName {
    /// The name of the log file, without directory or extension.
    fn log_name(&self) -> String;
}

/// A log file, known by its path.
pub struct LogFile {
    path: String,
}

impl View for LogFile {
    type V = Seq<char>;

    closed spec fn view(&self) -> Seq<char> {
        self.path@
    }
}

impl LogFile {
    /// The path of this log file.
    pub fn get_path(&self) -> (r: &String)
        ensures
            r@ == self@,
    {
        &self.path
    }
}

/// The path of the log named `name` under `directory`.
pub open spec fn log_path(directory: Seq<char>, name: Seq<char>) -> Seq<char> {
    directory + "/"@ + name + ".slog"@
}

/// The mathematical value of a log store: its root directory, and the path
/// of the log file each name stands for.
pub struct LogStoreView {
    pub directory: Seq<char>,
    pub logs: Map<Seq<char>, Seq<char>>,
}

/// The state of the log store.
pub struct LogHandler {
    directory: String,
    logs: Vec<(String, LogFile)>,
    index: Ghost<Map<Seq<char>, Seq<char>>>,
}

impl View for LogHandler {
    type V = LogStoreView;

    closed spec fn view(&self) -> LogStoreView {
        LogStoreView { directory: self.directory@, logs: self.index@ }
    }
}

impl LogHandler {
    /// Each name stands once in the list, and the ghost map holds exactly
    /// the list's names and paths.
    pub closed spec fn wf(&self) -> bool {
        &&& forall|i: int, j: int|
            0 <= i < j < self.logs@.len() ==> #[trigger] self.logs@[i].0@
                != #[trigger] self.logs@[j].0@
        &&& forall|i: int|
            0 <= i < self.logs@.len() ==> #[trigger] self.index@.contains_key(self.logs@[i].0@)
                && self.index@[self.logs@[i].0@] == self.logs@[i].1@
        &&& forall|n: Seq<char>|
            #[trigger] self.index@.contains_key(n) ==> exists|i: int|
                0 <= i < self.logs@.len() && #[trigger] self.logs@[i].0@ == n
    }

    /// A log store rooted at `p`, with no logs yet.
    pub fn new(p: &String) -> (r: LogHandler)
        ensures
            r.wf(),
            r@.directory == p@,
            r@.logs == Map::<Seq<char>, Seq<char>>::empty(),
    {
        LogHandler { directory: p.clone(), logs: Vec::new(), index: Ghost(Map::empty()) }
    }

    /// The root directory of the log store.
    pub fn log_directory(&self) -> (r: &String)
        ensures
            r@ == self@.directory,
    {
        &self.directory
    }

    /// Records the log named `log_name` under the root directory, in place
    /// of any earlier log of that name, and returns it. The directory itself
    /// is created by whoever writes the file.
    pub fn create_log(&mut self, log_name: &String) -> (r: LogFile)
        requires
            old(self).wf(),
        ensures
            final(self).wf(),
            final(self)@.directory == old(self)@.directory,
            final(self)@.logs == old(self)@.logs.insert(
                log_name@,
                log_path(old(self)@.directory, log_name@),
            ),
            r@ == log_path(old(self)@.directory, log_name@),
    {
        let mut path = self.directory.clone();
        push_text(&mut path, "/");
        push_text(&mut path, log_name.as_str());
        push_text(&mut path, ".slog");
        let ghost p = path@;
        let n = self.logs.len();
        let mut i: usize = 0;
        while i < n
            invariant
                i <= n == self.logs@.len(),
                self.wf(),
                forall|j: int| 0 <= j < i ==> #[trigger] self.logs@[j].0@ != log_name@,
            ensures
                i < n ==> self.logs@[i as int].0@ == log_name@,
            decreases n - i,
        {
            if self.logs[i].0 == *log_name {
                break;
            }
            i = i + 1;
        }
        let ghost before = self.logs@;
        let ghost map_before = self.index@;
        if i < n {
            self.logs.set(i, (log_name.clone(), LogFile { path: path.clone() }));
        } else {
            self.logs.push((log_name.clone(), LogFile { path: path.clone() }));
        }
        self.index = Ghost(self.index@.insert(log_name@, p));
        proof {
            assert forall|a: int, b: int|
                0 <= a < b < self.logs@.len() implies #[trigger] self.logs@[a].0@
                != #[trigger] self.logs@[b].0@ by {
                if i < n {
                    assert(before[i as int].0@ == log_name@);
                    if a != i {
                        assert(self.logs@[a] == before[a]);
                    }
                    if b != i {
                        assert(self.logs@[b] == before[b]);
                    }
                } else {
                    assert(self.logs@[a] == before[a]);
                    if b < before.len() {
                        assert(self.logs@[b] == before[b]);
                    }
                }
            }
            assert forall|a: int| 0 <= a < self.logs@.len() implies #[trigger] self.index@.contains_key(
                self.logs@[a].0@,
            ) && self.index@[self.logs@[a].0@] == self.logs@[a].1@ by {
                if self.logs@[a].0@ != log_name@ {
                    assert(self.logs@[a] == before[a]);
                    assert(map_before.contains_key(before[a].0@));
                }
            }
            assert forall|m: Seq<char>| #[trigger] self.index@.contains_key(m) implies exists|a: int|
                0 <= a < self.logs@.len() && #[trigger] self.logs@[a].0@ == m by {
                if m == log_name@ {
                    if i < n {
                        assert(self.logs@[i as int].0@ == m);
                    } else {
                        assert(self.logs@[n as int].0@ == m);
                    }
                } else {
                    assert(map_before.contains_key(m));
                    let a = choose|a: int| 0 <= a < before.len() && #[trigger] before[a].0@ == m;
                    assert(self.logs@[a] == before[a]);
                }
            }
        }
        LogFile { path }
    }
}

} // verus!
