//! The forced screen lock: the rest period (01:00 to 07:00) and the daemon's
//! decision, each time it wakes, whether to lock the screen.
use vstd::prelude::*;
use crate::numeric::{parse_u32, parse_u32_spec, parse_u64, parse_u64_spec};
use crate::text::{chars_of, trim, trim_bounds};

verus! {

/// The first hour of the rest period.
pub const LOCK_START_HOUR: u32 = 1;

/// The hour at which the rest period ends.
pub const LOCK_END_HOUR: u32 = 7;

/// How often the daemon wakes, in seconds, unless configured otherwise.
pub const DEFAULT_POLL_SECS: u64 = 60;

/// Whether `hour` (0 to 23) lies in the rest period, 01:00 to 07:00.
pub fn is_in_lock_window(hour: u32) -> (r: bool)
    ensures
        r == (LOCK_START_HOUR <= hour && hour < LOCK_END_HOUR),
{
    hour >= LOCK_START_HOUR && hour < LOCK_END_HOUR
}

/// Whether the daemon treats `hour` as locked time: when a test hour is set,
/// exactly that hour; otherwise the rest period.
pub fn in_lock_time(hour: u32, test_hour: Option<u32>) -> (r: bool)
    ensures
        r == match test_hour {
            Some(h) => hour == h,
            None => LOCK_START_HOUR <= hour && hour < LOCK_END_HOUR,
        },
{
    match test_hour {
        Some(h) => hour == h,
        None => is_in_lock_window(hour),
    }
}

/// The characters of `s` without surrounding whitespace.
fn trimmed(s: &str) -> (t: Vec<char>)
    ensures
        t@ == trim(s@),
{
    let v = chars_of(s);
    let (a, b) = trim_bounds(v.as_slice());
    let mut t: Vec<char> = Vec::new();
    let mut k = a;
    while k < b
        invariant
            a <= k <= b <= v@.len(),
            t@ == v@.subrange(a as int, k as int),
        decreases b - k,
    {
        t.push(v[k]);
        k = k + 1;
    }
    t
}

/// The hour that the output of `date +%H` gives; 0 when it does not read as
/// a number.
pub fn hour_from_date_output(out: &str) -> (hour: u32)
    ensures
        hour == match parse_u32_spec(trim(out@)) {
            Some(h) => h,
            None => 0,
        },
{
    let t = trimmed(out);
    match parse_u32(t.as_slice()) {
        Some(h) => h,
        None => 0,
    }
}

/// The polling period that the configured value gives: the value read as a
/// number of seconds, or 60 when it is missing or does not read as one.
pub fn poll_secs_from(value: Option<&str>) -> (secs: u64)
    ensures
        secs == match value {
            Some(v) => match parse_u64_spec(v@) {
                Some(n) => n,
                None => DEFAULT_POLL_SECS,
            },
            None => DEFAULT_POLL_SECS,
        },
{
    match value {
        Some(v) => {
            let cv = chars_of(v);
            match parse_u64(cv.as_slice()) {
                Some(n) => n,
                None => DEFAULT_POLL_SECS,
            }
        },
        None => DEFAULT_POLL_SECS,
    }
}

/// The test hour that the configured value gives, when it reads as a number.
pub fn test_hour_from(value: Option<&str>) -> (h: Option<u32>)
    ensures
        h == match value {
            Some(v) => parse_u32_spec(v@),
            None => None,
        },
{
    match value {
        Some(v) => {
            let cv = chars_of(v);
            parse_u32(cv.as_slice())
        },
        None => None,
    }
}

/// Whether the screen-saver session dictionary query reports the screen
/// locked: its output, trimmed, is "1".
pub fn locked_from_output(out: &str) -> (locked: bool)
    ensures
        locked == (trim(out@) == seq!['1']),
{
    let t = trimmed(out);
    let r = t.len() == 1 && t[0] == '1';
    assert(r == (t@ =~= seq!['1']));
    r
}

/// What one wake-up of the daemon does: from the hour it last locked at (if
/// it has locked in the current rest period), the hour now, whether now is
/// locked time and whether the screen is locked, the new last lock hour and
/// whether to lock the screen now.
pub open spec fn lock_step(last: Option<u32>, hour: u32, in_window: bool, screen_locked: bool) -> (
    Option<u32>,
    bool,
) {
    if !in_window {
        (None, false)
    } else if last != Some(hour) || !screen_locked {
        (Some(hour), true)
    } else {
        (last, false)
    }
}

/// The lock daemon's memory between wake-ups.
pub struct LockDaemon {
    /// The hour at which it last locked the screen in the current rest
    /// period.
    pub last_lock_hour: Option<u32>,
}

impl LockDaemon {
    /// A daemon that has not locked yet.
    pub fn new() -> (d: LockDaemon)
        ensures
            d.last_lock_hour is None,
    {
        LockDaemon { last_lock_hour: None }
    }

    /// One wake-up: returns whether to lock the screen now. Within locked
    /// time it locks when the hour has changed since it last locked, or the
    /// screen was unlocked; outside it, it forgets the last lock hour.
    pub fn step(&mut self, hour: u32, in_window: bool, screen_locked: bool) -> (lock: bool)
        ensures
            (final(self).last_lock_hour, lock) == lock_step(
                old(self).last_lock_hour,
                hour,
                in_window,
                screen_locked,
            ),
    {
        if in_window {
            let changed = match self.last_lock_hour {
                Some(h) => h != hour,
                None => true,
            };
            if changed || !screen_locked {
                self.last_lock_hour = Some(hour);
                true
            } else {
                false
            }
        } else {
            self.last_lock_hour = None;
            false
        }
    }
}

/// Once the daemon has locked the screen at an hour, a later wake-up in the
/// same hour of locked time that finds the screen still locked does not lock
/// it again; one that finds it unlocked does.
pub proof fn lemma_lock_once_per_hour(last: Option<u32>, hour: u32, screen_locked: bool)
    ensures
        lock_step(lock_step(last, hour, true, screen_locked).0, hour, true, true).1 == false,
        lock_step(lock_step(last, hour, true, screen_locked).0, hour, true, false).1 == true,
{
}

/// Outside locked time the daemon never locks, and the next wake-up in
/// locked time always locks.
pub proof fn lemma_window_start_locks(last: Option<u32>, h1: u32, h2: u32, l1: bool, l2: bool)
    ensures
        lock_step(last, h1, false, l1).1 == false,
        lock_step(lock_step(last, h1, false, l1).0, h2, true, l2).1 == true,
{
}

/// The launchd property list that starts `binary_path` as the screen lock
/// daemon at boot and keeps it running.
pub fn launch_daemon_plist(binary_path: &str) -> (plist: String)
    ensures
        plist@ == "<?xml version=\"1.0\" encoding=\"UTF-8\"?>\n<!DOCTYPE plist PUBLIC \"-//Apple//DTD PLIST 1.0//EN\" \"http://www.apple.com/DTDs/PropertyList-1.0.dtd\">\n<plist version=\"1.0\">\n<dict>\n    <key>Label</key>\n    <string>com.antidistractor.screenlock</string>\n    <key>ProgramArguments</key>\n    <array>\n        <string>"@ + binary_path@ + "</string>\n        <string>--screen-lock-daemon</string>\n    </array>\n    <key>RunAtLoad</key>\n    <true/>\n    <key>KeepAlive</key>\n    <true/>\n    <key>StandardErrorPath</key>\n    <string>/var/log/antidistractor-screenlock.log</string>\n    <key>StandardOutPath</key>\n    <string>/var/log/antidistractor-screenlock.log</string>\n</dict>\n</plist>\n"@,
{
    let mut out = String::from_str("<?xml version=\"1.0\" encoding=\"UTF-8\"?>\n<!DOCTYPE plist PUBLIC \"-//Apple//DTD PLIST 1.0//EN\" \"http://www.apple.com/DTDs/PropertyList-1.0.dtd\">\n<plist version=\"1.0\">\n<dict>\n    <key>Label</key>\n    <string>com.antidistractor.screenlock</string>\n    <key>ProgramArguments</key>\n    <array>\n        <string>");
    out.append(binary_path);
    out.append("</string>\n        <string>--screen-lock-daemon</string>\n    </array>\n    <key>RunAtLoad</key>\n    <true/>\n    <key>KeepAlive</key>\n    <true/>\n    <key>StandardErrorPath</key>\n    <string>/var/log/antidistractor-screenlock.log</string>\n    <key>StandardOutPath</key>\n    <string>/var/log/antidistractor-screenlock.log</string>\n</dict>\n</plist>\n");
    out
}

} // verus!
