//! Decisions of the exec-permission app blocker: which executables may start,
//! and the event records it reads and the responses it writes.
use vstd::prelude::*;
use crate::strset::StrSet;
use crate::text::{chars_of, file_name, file_name_of, string_of, prefix_pattern_matches};

verus! {

/// Set of blocked applications.
pub struct BlockedSet {
    /// Exact executable paths.
    pub paths: StrSet,
    /// Process names (executable basenames); an entry that ends with '*'
    /// blocks every name that starts with what precedes the '*'.
    pub names: StrSet,
}

/// Whether the name entry `entry` blocks the process name `name`.
pub open spec fn name_entry_matches(entry: Seq<char>, name: Seq<char>) -> bool {
    entry == name || prefix_pattern_matches(entry, name)
}

/// Whether the executable at `path` is blocked.
pub open spec fn is_blocked_spec(paths: Seq<Seq<char>>, names: Seq<Seq<char>>, path: Seq<char>) -> bool {
    ||| paths.contains(path)
    ||| (file_name(path) is Some && exists|i: int|
        0 <= i < names.len() && name_entry_matches(#[trigger] names[i], file_name(path)->0))
}

impl BlockedSet {
    /// The empty set.
    pub fn new() -> (s: BlockedSet)
        ensures
            s.paths@.len() == 0,
            s.names@.len() == 0,
    {
        BlockedSet { paths: StrSet::new(), names: StrSet::new() }
    }

    /// Whether the executable at `path` is blocked: by its exact path, or by
    /// its basename, exactly or through a prefix pattern.
    pub fn is_blocked(&self, path: &str) -> (r: bool)
        ensures
            r == is_blocked_spec(self.paths@, self.names@, path@),
    {
        if self.paths.contains(path) {
            return true;
        }
        let pv = chars_of(path);
        match file_name_of(pv.as_slice()) {
            None => false,
            Some(base) => {
                let s = string_of(base.as_slice());
                if self.names.contains(s.as_str()) {
                    let ghost i = choose|i: int| 0 <= i < self.names@.len() && self.names@[i] == s@;
                    assert(name_entry_matches(self.names@[i], base@));
                    return true;
                }
                let r = self.names.any_pattern_matches(base.as_slice());
                proof {
                    if !r {
                        assert forall|i: int| 0 <= i < self.names@.len() implies !name_entry_matches(
                            #[trigger] self.names@[i],
                            base@,
                        ) by {
                            if self.names@[i] == base@ {
                                assert(self.names@.contains(s@));
                            }
                        }
                    }
                }
                r
            },
        }
    }
}

impl Default for BlockedSet {
    fn default() -> (s: BlockedSet)
        ensures
            s.paths@.len() == 0,
            s.names@.len() == 0,
    {
        BlockedSet::new()
    }
}

/// The size of one event record.
pub const META_SIZE: usize = 24;

/// The exec-permission bit of an event mask.
pub const FAN_OPEN_EXEC_PERM: u64 = 0x40000;

/// The response that lets the exec proceed.
pub const FAN_ALLOW: u32 = 1;

/// The response that refuses the exec.
pub const FAN_DENY: u32 = 2;

/// The header of one event record.
pub struct FanotifyEventMetadata {
    pub event_len: u32,
    pub vers: u8,
    pub reserved: u8,
    pub metadata_len: u16,
    pub mask: u64,
    pub fd: i32,
    pub pid: i32,
}

/// The little-endian unsigned value of `b[off..off + n]`.
pub open spec fn le_value(b: Seq<u8>, off: int, n: nat) -> nat
    decreases n,
{
    if n == 0 {
        0
    } else {
        b[off] as nat + 256 * le_value(b, off + 1, (n - 1) as nat)
    }
}

/// The field values of the record that starts at `off`.
pub open spec fn meta_at(b: Seq<u8>, off: int) -> (u32, u8, u8, u16, u64, i32, i32) {
    (
        le_value(b, off, 4) as u32,
        b[off + 4],
        b[off + 5],
        le_value(b, off + 6, 2) as u16,
        le_value(b, off + 8, 8) as u64,
        (le_value(b, off + 16, 4) as u32) as i32,
        (le_value(b, off + 20, 4) as u32) as i32,
    )
}

/// The fields of a record, as a tuple.
pub open spec fn meta_fields(m: FanotifyEventMetadata) -> (u32, u8, u8, u16, u64, i32, i32) {
    (m.event_len, m.vers, m.reserved, m.metadata_len, m.mask, m.fd, m.pid)
}

/// The offsets of the records in a buffer of `len` bytes read from `off` on:
/// each record starts where the previous one ends (or one header further,
/// when its length is zero), while a whole header fits.
pub open spec fn record_offsets(b: Seq<u8>, off: nat) -> Seq<nat>
    decreases b.len() - off,
{
    if off + 24 > b.len() {
        Seq::empty()
    } else {
        let ev_len = le_value(b, off as int, 4);
        let step: nat = if ev_len > 0 { ev_len } else { 24 };
        if off + step > b.len() {
            seq![off]
        } else {
            seq![off] + record_offsets(b, off + step)
        }
    }
}

proof fn lemma_le_value_bound(b: Seq<u8>, off: int, n: nat)
    requires
        0 <= off,
        off + n <= b.len(),
    ensures
        le_value(b, off, n) < pow256(n),
    decreases n,
{
    if n > 0 {
        lemma_le_value_bound(b, off + 1, (n - 1) as nat);
    }
}

/// 256 to the power `n`.
pub open spec fn pow256(n: nat) -> nat
    decreases n,
{
    if n == 0 {
        1
    } else {
        256 * pow256((n - 1) as nat)
    }
}

/// Reads a little-endian `u32` at `off`.
fn read_u32(b: &[u8], off: usize) -> (v: u32)
    requires
        off + 4 <= b.len(),
    ensures
        v == le_value(b@, off as int, 4),
{
    proof {
        reveal_with_fuel(le_value, 5);
    }
    (b[off] as u32) + 256 * ((b[off + 1] as u32) + 256 * ((b[off + 2] as u32) + 256 * (b[off + 3] as u32)))
}

/// Reads a little-endian `u16` at `off`.
fn read_u16(b: &[u8], off: usize) -> (v: u16)
    requires
        off + 2 <= b.len(),
    ensures
        v == le_value(b@, off as int, 2),
{
    proof {
        reveal_with_fuel(le_value, 3);
    }
    (b[off] as u16) + 256 * (b[off + 1] as u16)
}

/// Reads a little-endian `u64` at `off`.
fn read_u64(b: &[u8], off: usize) -> (v: u64)
    requires
        off + 8 <= b.len(),
    ensures
        v == le_value(b@, off as int, 8),
{
    let lo = read_u32(b, off);
    let hi = read_u32(b, off + 4);
    proof {
        lemma_le_value_split(b@, off as int);
    }
    (lo as u64) + 4294967296 * (hi as u64)
}

proof fn lemma_le_value_split(b: Seq<u8>, off: int)
    ensures
        le_value(b, off, 8) == le_value(b, off, 4) + 4294967296 * le_value(b, off + 4, 4),
{
    reveal_with_fuel(le_value, 9);
}

/// Decodes the record header that starts at `off` (little-endian fields).
pub fn decode_meta(b: &[u8], off: usize) -> (m: FanotifyEventMetadata)
    requires
        off + 24 <= b.len(),
    ensures
        meta_fields(m) == meta_at(b@, off as int),
{
    FanotifyEventMetadata {
        event_len: read_u32(b, off),
        vers: b[off + 4],
        reserved: b[off + 5],
        metadata_len: read_u16(b, off + 6),
        mask: read_u64(b, off + 8),
        fd: read_u32(b, off + 16) as i32,
        pid: read_u32(b, off + 20) as i32,
    }
}

/// The event records in the bytes that one read returned.
pub fn parse_events(b: &[u8]) -> (evs: Vec<FanotifyEventMetadata>)
    ensures
        evs@.len() == record_offsets(b@, 0).len(),
        forall|i: int| 0 <= i < evs@.len() ==> meta_fields(#[trigger] evs@[i]) == meta_at(
            b@,
            record_offsets(b@, 0)[i] as int,
        ),
{
    let n = b.len();
    let mut evs: Vec<FanotifyEventMetadata> = Vec::new();
    let mut off: usize = 0;
    let ghost mut done: Seq<nat> = Seq::empty();
    while n >= 24 && off <= n - 24
        invariant
            n == b@.len(),
            off <= n,
            record_offsets(b@, 0) == done + record_offsets(b@, off as nat),
            evs@.len() == done.len(),
            forall|i: int| 0 <= i < evs@.len() ==> meta_fields(#[trigger] evs@[i]) == meta_at(
                b@,
                done[i] as int,
            ),
        decreases n - off,
    {
        let m = decode_meta(b, off);
        let ev_len = m.event_len;
        let step: usize = if ev_len > 0 { ev_len as usize } else { 24 };
        let ghost old_done = done;
        proof {
            lemma_le_value_bound(b@, off as int, 4);
            reveal_with_fuel(pow256, 5);
            assert(ev_len as nat == le_value(b@, off as int, 4));
            done = done.push(off as nat);
        }
        evs.push(m);
        if step > n - off {
            proof {
                assert(record_offsets(b@, off as nat) == seq![off as nat]);
                assert(done =~= old_done + seq![off as nat]);
            }
            return evs;
        }
        proof {
            assert(record_offsets(b@, off as nat) == seq![off as nat] + record_offsets(b@, (off + step) as nat));
            assert(done + record_offsets(b@, (off + step) as nat) =~= old_done + (seq![off as nat] + record_offsets(b@, (off + step) as nat)));
        }
        off = off + step;
    }
    assert(record_offsets(b@, off as nat) =~= Seq::<nat>::empty());
    assert(done + Seq::<nat>::empty() =~= done);
    evs
}

/// What to do with one event before looking at the executable.
pub enum EventStep {
    /// The event carries no file (a queue overflow): nothing to answer.
    Skip,
    /// Answer at once with this response.
    Respond(u32),
    /// Read the executable's path and answer by `path_response`.
    CheckPath,
}

/// The first step for an event: events without a file are skipped; this
/// program's own execs, and events that are not exec permission requests,
/// are allowed; the rest need the executable's path.
pub fn event_step(ev: &FanotifyEventMetadata, my_pid: i32) -> (s: EventStep)
    ensures
        ev.fd < 0 ==> s is Skip,
        ev.fd >= 0 && ev.pid == my_pid ==> s == EventStep::Respond(FAN_ALLOW),
        ev.fd >= 0 && ev.pid != my_pid && ev.mask & FAN_OPEN_EXEC_PERM == 0 ==> s
            == EventStep::Respond(FAN_ALLOW),
        ev.fd >= 0 && ev.pid != my_pid && ev.mask & FAN_OPEN_EXEC_PERM != 0 ==> s is CheckPath,
{
    if ev.fd < 0 {
        EventStep::Skip
    } else if ev.pid == my_pid {
        EventStep::Respond(FAN_ALLOW)
    } else if ev.mask & FAN_OPEN_EXEC_PERM == 0 {
        EventStep::Respond(FAN_ALLOW)
    } else {
        EventStep::CheckPath
    }
}

/// The response to an exec of the executable at `path`: refused when it is
/// blocked, allowed otherwise.
pub fn path_response(blocked: &BlockedSet, path: &str) -> (r: u32)
    ensures
        r == (if is_blocked_spec(blocked.paths@, blocked.names@, path@) { FAN_DENY } else { FAN_ALLOW }),
{
    if blocked.is_blocked(path) {
        FAN_DENY
    } else {
        FAN_ALLOW
    }
}

/// The bytes of a response record: the event's descriptor, then the
/// response, each as a little-endian 32-bit value.
pub fn encode_response(fd: i32, response: u32) -> (b: Vec<u8>)
    ensures
        b@.len() == 8,
        le_value(b@, 0, 4) == fd as u32,
        le_value(b@, 4, 4) == response,
{
    let f = fd as u32;
    let mut b: Vec<u8> = Vec::new();
    b.push((f % 256) as u8);
    b.push(((f / 256) % 256) as u8);
    b.push(((f / 65536) % 256) as u8);
    b.push((f / 16777216) as u8);
    b.push((response % 256) as u8);
    b.push(((response / 256) % 256) as u8);
    b.push(((response / 65536) % 256) as u8);
    b.push((response / 16777216) as u8);
    proof {
        reveal_with_fuel(le_value, 5);
    }
    b
}

/// The name shown when an exec is refused: the basename of the path, or the
/// whole path when it has none.
pub fn blocked_app_name(path: &str) -> (name: String)
    ensures
        name@ == (match file_name(path@) {
            Some(base) => base,
            None => path@,
        }),
{
    let pv = chars_of(path);
    match file_name_of(pv.as_slice()) {
        Some(base) => string_of(base.as_slice()),
        None => String::from_str(path),
    }
}

} // verus!
