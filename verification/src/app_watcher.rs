//! Which running processes the process-polling app blocker stops.
use vstd::prelude::*;
use crate::strset::{StrSet, any_pattern};
use crate::text::{chars_of, file_name, file_name_of, string_of};

verus! {

/// Set of blocked applications.
pub struct BlockedSet {
    /// Exact executable paths.
    pub paths: StrSet,
    /// Process names (executable basenames).
    pub names: StrSet,
    /// Prefix patterns that end with '*'.
    pub patterns: StrSet,
}

/// Whether a process with this executable path and name is blocked.
pub open spec fn is_blocked_spec(
    paths: Seq<Seq<char>>,
    names: Seq<Seq<char>>,
    patterns: Seq<Seq<char>>,
    exe_path: Seq<char>,
    comm: Seq<char>,
) -> bool {
    ||| paths.contains(exe_path)
    ||| (exe_path.len() > 0 && file_name(exe_path) is Some && (names.contains(
        file_name(exe_path)->0,
    ) || any_pattern(patterns, file_name(exe_path)->0)))
    ||| names.contains(comm)
    ||| any_pattern(patterns, comm)
}

impl BlockedSet {
    /// The empty set.
    pub fn new() -> (s: BlockedSet)
        ensures
            s.paths@.len() == 0,
            s.names@.len() == 0,
            s.patterns@.len() == 0,
    {
        BlockedSet { paths: StrSet::new(), names: StrSet::new(), patterns: StrSet::new() }
    }

    /// Whether the process with this executable path and process name is
    /// blocked: by its exact path, by the basename of its path or its name,
    /// each exactly or by a prefix pattern.
    pub fn is_blocked(&self, exe_path: &str, comm: &str) -> (r: bool)
        ensures
            r == is_blocked_spec(self.paths@, self.names@, self.patterns@, exe_path@, comm@),
    {
        if self.paths.contains(exe_path) {
            return true;
        }
        let ev = chars_of(exe_path);
        if ev.len() > 0 {
            if let Some(base) = file_name_of(ev.as_slice()) {
                let s = string_of(base.as_slice());
                if self.names.contains(s.as_str()) {
                    return true;
                }
                if self.patterns.any_pattern_matches(base.as_slice()) {
                    return true;
                }
            }
        }
        if self.names.contains(comm) {
            return true;
        }
        let cv = chars_of(comm);
        self.patterns.any_pattern_matches(cv.as_slice())
    }

    /// Whether the executable path of a process with this name must be looked
    /// up before deciding: its name is blocked, or a blocked path has it as
    /// basename.
    pub fn needs_exe_lookup(&self, comm: &str) -> (r: bool)
        ensures
            r == (self.names@.contains(comm@) || exists|i: int|
                0 <= i < self.paths@.len() && file_name(#[trigger] self.paths@[i]) == Some(comm@)),
    {
        if self.names.contains(comm) {
            return true;
        }
        let cv = chars_of(comm);
        let mut i: usize = 0;
        while i < self.paths.len()
            invariant
                i <= self.paths@.len(),
                cv@ == comm@,
                forall|k: int| 0 <= k < i ==> file_name(#[trigger] self.paths@[k]) != Some(comm@),
            decreases self.paths@.len() - i,
        {
            let p = chars_of(self.paths.get(i).as_str());
            match file_name_of(p.as_slice()) {
                Some(base) => {
                    if crate::text::chars_eq(base.as_slice(), cv.as_slice()) {
                        return true;
                    }
                },
                None => {},
            }
            i = i + 1;
        }
        false
    }
}

impl Default for BlockedSet {
    fn default() -> (s: BlockedSet)
        ensures
            s.paths@.len() == 0,
            s.names@.len() == 0,
            s.patterns@.len() == 0,
    {
        BlockedSet::new()
    }
}

/// Whether the process `pid` is to be killed: it is neither this program
/// nor process 1 or lower, and it is blocked.
pub fn should_kill(blocked: &BlockedSet, pid: i32, my_pid: i32, exe_path: &str, comm: &str) -> (r: bool)
    ensures
        r == (pid != my_pid && pid > 1 && is_blocked_spec(
            blocked.paths@,
            blocked.names@,
            blocked.patterns@,
            exe_path@,
            comm@,
        )),
{
    if pid == my_pid || pid <= 1 {
        return false;
    }
    blocked.is_blocked(exe_path, comm)
}

/// The name shown for a killed process: the basename of its executable path
/// when there is one, else its process name.
pub fn killed_name(exe_path: &str, comm: &str) -> (name: String)
    ensures
        name@ == (if exe_path@.len() > 0 && file_name(exe_path@) is Some {
            file_name(exe_path@)->0
        } else {
            comm@
        }),
{
    let ev = chars_of(exe_path);
    if ev.len() > 0 {
        if let Some(base) = file_name_of(ev.as_slice()) {
            return string_of(base.as_slice());
        }
    }
    String::from_str(comm)
}

/// Polls the process list and kills blocked applications.
pub struct AppWatcher {
    /// The blocked applications.
    pub blocked: BlockedSet,
    /// How often to poll the process list, in milliseconds.
    pub poll_interval_ms: u64,
}

impl AppWatcher {
    /// A watcher with no blocked application that polls every 500 ms.
    pub fn new() -> (w: AppWatcher)
        ensures
            w.poll_interval_ms == 500,
            w.blocked.paths@.len() == 0,
            w.blocked.names@.len() == 0,
            w.blocked.patterns@.len() == 0,
    {
        AppWatcher { blocked: BlockedSet::new(), poll_interval_ms: 500 }
    }

    /// A watcher with no blocked application that polls at the given
    /// interval.
    pub fn with_interval(interval_ms: u64) -> (w: AppWatcher)
        ensures
            w.poll_interval_ms == interval_ms,
            w.blocked.paths@.len() == 0,
            w.blocked.names@.len() == 0,
            w.blocked.patterns@.len() == 0,
    {
        AppWatcher { blocked: BlockedSet::new(), poll_interval_ms: interval_ms }
    }

    /// Whether the executable path of a process with this name must be looked
    /// up in a polling round: its name is blocked or some path is blocked.
    pub fn needs_exe_lookup(&self, comm: &str) -> (r: bool)
        ensures
            r == (self.blocked.names@.contains(comm@) || self.blocked.paths@.len() > 0),
    {
        self.blocked.names.contains(comm) || !self.blocked.paths.is_empty()
    }
}

impl Default for AppWatcher {
    fn default() -> (w: AppWatcher)
        ensures
            w.poll_interval_ms == 500,
            w.blocked.paths@.len() == 0,
            w.blocked.names@.len() == 0,
            w.blocked.patterns@.len() == 0,
    {
        AppWatcher::new()
    }
}

} // verus!
