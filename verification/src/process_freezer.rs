//! Which processes are frozen: the names frozen, and for each the pids that
//! were stopped, so that exactly those are continued again.
use vstd::prelude::*;
use crate::numeric::{parse_i32, parse_i32_spec};
use crate::strset::{StrSet, views, sorted};
use crate::text::{chars_of, chars_eq, char_views, file_name, file_name_of, has_prefix, lines,
    lines_of, starts_with, trim, trim_bounds};

verus! {

/// Whether no two entries have the same name.
pub open spec fn unique_names(e: Seq<(String, Vec<i32>)>) -> bool {
    forall|i: int, j: int| 0 <= i < j < e.len() ==> (#[trigger] e[i]).0@ != (#[trigger] e[j]).0@
}

/// The table that a list of entries stands for: each name maps to its set of
/// pids.
pub open spec fn table_map(e: Seq<(String, Vec<i32>)>) -> Map<Seq<char>, Set<i32>>
    decreases e.len(),
{
    if e.len() == 0 {
        Map::empty()
    } else {
        table_map(e.drop_last()).insert(e.last().0@, e.last().1@.to_set())
    }
}

/// The names of the table are those of its entries, and (names being
/// unique) each maps to the pids of its entry.
pub proof fn lemma_table_map(e: Seq<(String, Vec<i32>)>, k: Seq<char>)
    requires
        unique_names(e),
    ensures
        table_map(e).dom().contains(k) <==> exists|i: int| 0 <= i < e.len() && (#[trigger] e[i]).0@ == k,
        forall|i: int| 0 <= i < e.len() && (#[trigger] e[i]).0@ == k ==> table_map(e)[k] == e[i].1@.to_set(),
    decreases e.len(),
{
    if e.len() > 0 {
        let init = e.drop_last();
        assert(unique_names(init)) by {
            assert forall|i: int, j: int| 0 <= i < j < init.len() implies (#[trigger] init[i]).0@ != (#[trigger] init[j]).0@ by {
                assert(init[i] == e[i] && init[j] == e[j]);
            }
        }
        lemma_table_map(init, k);
        if exists|i: int| 0 <= i < init.len() && (#[trigger] init[i]).0@ == k {
            let i = choose|i: int| 0 <= i < init.len() && (#[trigger] init[i]).0@ == k;
            assert(e[i] == init[i]);
        }
        if exists|i: int| 0 <= i < e.len() && (#[trigger] e[i]).0@ == k {
            let i = choose|i: int| 0 <= i < e.len() && (#[trigger] e[i]).0@ == k;
            if i < e.len() - 1 {
                assert(init[i] == e[i]);
            }
        }
        assert forall|i: int| 0 <= i < e.len() && (#[trigger] e[i]).0@ == k implies table_map(e)[k] == e[i].1@.to_set() by {
            if i < e.len() - 1 {
                assert(init[i] == e[i]);
                assert(e[e.len() - 1].0@ != k);
            }
        }
    }
}

/// Names mapped to the pids that were stopped under them.
pub struct FrozenTable {
    entries: Vec<(String, Vec<i32>)>,
}

impl View for FrozenTable {
    type V = Map<Seq<char>, Set<i32>>;

    closed spec fn view(&self) -> Map<Seq<char>, Set<i32>> {
        table_map(self.entries@)
    }
}

impl FrozenTable {
    #[verifier::type_invariant]
    spec fn inv(self) -> bool {
        unique_names(self.entries@)
    }

    /// The empty table.
    pub fn new() -> (t: FrozenTable)
        ensures
            t@ == Map::<Seq<char>, Set<i32>>::empty(),
    {
        FrozenTable { entries: Vec::new() }
    }

    /// The position of the entry named `name`.
    fn find(&self, name: &str) -> (r: Option<usize>)
        ensures
            match r {
                Some(i) => i < self.entries@.len() && self.entries@[i as int].0@ == name@,
                None => forall|i: int| 0 <= i < self.entries@.len() ==> (#[trigger] self.entries@[i]).0@ != name@,
            },
    {
        let target = chars_of(name);
        let mut i: usize = 0;
        while i < self.entries.len()
            invariant
                i <= self.entries@.len(),
                target@ == name@,
                forall|k: int| 0 <= k < i ==> (#[trigger] self.entries@[k]).0@ != name@,
            decreases self.entries.len() - i,
        {
            let cur = chars_of(self.entries[i].0.as_str());
            if chars_eq(cur.as_slice(), target.as_slice()) {
                return Some(i);
            }
            i = i + 1;
        }
        None
    }

    /// Whether `name` is in the table.
    pub fn contains_key(&self, name: &str) -> (r: bool)
        ensures
            r == self@.dom().contains(name@),
    {
        proof {
            use_type_invariant(self);
            lemma_table_map(self.entries@, name@);
        }
        self.find(name).is_some()
    }

    /// Removes `name`; gives back its pids when it was there.
    pub fn remove(&mut self, name: &str) -> (r: Option<Vec<i32>>)
        ensures
            final(self)@ == old(self)@.remove(name@),
            match r {
                Some(p) => old(self)@.dom().contains(name@) && p@.to_set() == old(self)@[name@],
                None => !old(self)@.dom().contains(name@),
            },
    {
        proof {
            use_type_invariant(&*self);
            lemma_table_map(self.entries@, name@);
        }
        match self.find(name) {
            None => {
                assert(self@ =~= old(self)@.remove(name@));
                None
            },
            Some(i) => {
                let ghost e = self.entries@;
                let mut entries: Vec<(String, Vec<i32>)> = Vec::new();
                std::mem::swap(&mut entries, &mut self.entries);
                let (_, pids) = entries.remove(i);
                proof {
                    let f = entries@;
                    assert(f =~= e.remove(i as int));
                    assert(unique_names(f)) by {
                        assert forall|a: int, b: int| 0 <= a < b < f.len() implies (#[trigger] f[a]).0@ != (#[trigger] f[b]).0@ by {
                            let oa = if a < i { a } else { a + 1 };
                            let ob = if b < i { b } else { b + 1 };
                            assert(f[a] == e[oa] && f[b] == e[ob]);
                        }
                    }
                    assert forall|k: Seq<char>| #![trigger table_map(f).dom().contains(k)] table_map(f).dom().contains(k) <==> table_map(e).remove(name@).dom().contains(k) by {
                        lemma_table_map(f, k);
                        lemma_table_map(e, k);
                        if table_map(f).dom().contains(k) {
                            let a = choose|a: int| 0 <= a < f.len() && (#[trigger] f[a]).0@ == k;
                            let oa = if a < i { a } else { a + 1 };
                            assert(f[a] == e[oa]);
                            assert(k != name@);
                        }
                        if table_map(e).remove(name@).dom().contains(k) {
                            let a = choose|a: int| 0 <= a < e.len() && (#[trigger] e[a]).0@ == k;
                            assert(a != i);
                            let fa = if a < i { a } else { a - 1 };
                            assert(f[fa] == e[a]);
                        }
                    }
                    assert forall|k: Seq<char>| #[trigger] table_map(f).dom().contains(k) implies table_map(f)[k] == table_map(e)[k] by {
                        lemma_table_map(f, k);
                        lemma_table_map(e, k);
                        let a = choose|a: int| 0 <= a < f.len() && (#[trigger] f[a]).0@ == k;
                        let oa = if a < i { a } else { a + 1 };
                        assert(f[a] == e[oa]);
                    }
                    assert(table_map(f) =~= table_map(e).remove(name@));
                }
                self.entries = entries;
                Some(pids)
            },
        }
    }

    /// Sets the pids of `name`; gives back those it had before.
    pub fn insert(&mut self, name: String, pids: Vec<i32>) -> (r: Option<Vec<i32>>)
        ensures
            final(self)@ == old(self)@.insert(name@, pids@.to_set()),
            match r {
                Some(p) => old(self)@.dom().contains(name@) && p@.to_set() == old(self)@[name@],
                None => !old(self)@.dom().contains(name@),
            },
    {
        let previous = self.remove(name.as_str());
        proof {
            use_type_invariant(&*self);
            lemma_table_map(self.entries@, name@);
        }
        let ghost e = self.entries@;
        let mut entries: Vec<(String, Vec<i32>)> = Vec::new();
        std::mem::swap(&mut entries, &mut self.entries);
        entries.push((name, pids));
        proof {
            let f = entries@;
            assert(f.drop_last() =~= e);
            assert(unique_names(f)) by {
                assert forall|a: int, b: int| 0 <= a < b < f.len() implies (#[trigger] f[a]).0@ != (#[trigger] f[b]).0@ by {
                    if b == f.len() - 1 {
                        assert(f[a] == e[a]);
                    } else {
                        assert(f[a] == e[a] && f[b] == e[b]);
                    }
                }
            }
            assert(table_map(f) =~= old(self)@.insert(name@, pids@.to_set()));
        }
        self.entries = entries;
        previous
    }

    /// The names, in ascending order.
    pub fn names(&self) -> (v: Vec<String>)
        ensures
            sorted(views(v@)),
            views(v@).to_set() == self@.dom(),
    {
        proof {
            use_type_invariant(self);
        }
        let mut set = StrSet::new();
        let mut i: usize = 0;
        while i < self.entries.len()
            invariant
                i <= self.entries@.len(),
                unique_names(self.entries@),
                set@.to_set() == Set::new(|k: Seq<char>| exists|j: int| 0 <= j < i && (#[trigger] self.entries@[j]).0@ == k),
            decreases self.entries.len() - i,
        {
            let name = self.entries[i].0.clone();
            let ghost before = set@.to_set();
            set.insert(name);
            proof {
                assert(set@.to_set() =~= Set::new(|k: Seq<char>| exists|j: int| 0 <= j < i + 1 && (#[trigger] self.entries@[j]).0@ == k)) by {
                    assert forall|k: Seq<char>| set@.to_set().contains(k) implies exists|j: int| 0 <= j < i + 1 && (#[trigger] self.entries@[j]).0@ == k by {
                        if k != self.entries@[i as int].0@ {
                            assert(before.contains(k));
                        }
                    }
                }
            }
            i = i + 1;
        }
        let v = set.sorted_vec();
        proof {
            assert forall|k: Seq<char>| #![trigger self@.dom().contains(k)] views(v@).to_set().contains(k) <==> self@.dom().contains(k) by {
                lemma_table_map(self.entries@, k);
            }
            assert(views(v@).to_set() =~= self@.dom());
        }
        v
    }
}

impl Default for FrozenTable {
    fn default() -> (t: FrozenTable)
        ensures
            t@ == Map::<Seq<char>, Set<i32>>::empty(),
    {
        FrozenTable::new()
    }
}

/// The frozen process names, each with the pids that were stopped for it.
pub struct FreezerState {
    pub frozen: FrozenTable,
}

impl FreezerState {
    /// No process frozen.
    pub fn new() -> (s: FreezerState)
        ensures
            s.frozen@ == Map::<Seq<char>, Set<i32>>::empty(),
    {
        FreezerState { frozen: FrozenTable::new() }
    }

    /// The frozen names, in ascending order.
    pub fn frozen_names(&self) -> (v: Vec<String>)
        ensures
            sorted(views(v@)),
            views(v@).to_set() == self.frozen@.dom(),
    {
        self.frozen.names()
    }

    /// Whether processes named `name` are frozen.
    pub fn is_frozen(&self, name: &str) -> (r: bool)
        ensures
            r == self.frozen@.dom().contains(name@),
    {
        self.frozen.contains_key(name)
    }
}

impl FreezerState {
    /// Records that processes named `name` were stopped: `signaled` lists,
    /// for each process tree signalled, the pids that took the signal. The
    /// name maps to all of them; the count of distinct pids is returned.
    pub fn record_freeze(&mut self, name: String, signaled: &Vec<Vec<i32>>) -> (count: usize)
        ensures
            final(self).frozen@ == old(self).frozen@.insert(name@, pid_union(signaled@)),
            count == pid_union(signaled@).len(),
    {
        let all = union_pids(signaled);
        let count = all.len();
        proof {
            all@.unique_seq_to_set();
        }
        self.frozen.insert(name, all);
        count
    }
}

impl Default for FreezerState {
    fn default() -> (s: FreezerState)
        ensures
            s.frozen@ == Map::<Seq<char>, Set<i32>>::empty(),
    {
        FreezerState::new()
    }
}

/// All pids of the lists.
pub open spec fn pid_union(lists: Seq<Vec<i32>>) -> Set<i32>
    decreases lists.len(),
{
    if lists.len() == 0 {
        Set::empty()
    } else {
        pid_union(lists.drop_last()).union(lists.last()@.to_set())
    }
}

/// The pids of all lists, each once.
pub fn union_pids(lists: &Vec<Vec<i32>>) -> (all: Vec<i32>)
    ensures
        all@.no_duplicates(),
        all@.to_set() == pid_union(lists@),
{
    let mut all: Vec<i32> = Vec::new();
    let mut i: usize = 0;
    assert(all@.to_set() =~= Set::<i32>::empty());
    while i < lists.len()
        invariant
            i <= lists@.len(),
            all@.no_duplicates(),
            all@.to_set() == pid_union(lists@.take(i as int)),
        decreases lists.len() - i,
    {
        assert(lists@.take(i + 1).drop_last() =~= lists@.take(i as int));
        let list = &lists[i];
        let ghost start = all@;
        let mut j: usize = 0;
        while j < list.len()
            invariant
                j <= list@.len(),
                i < lists@.len(),
                list == lists@[i as int],
                all@.no_duplicates(),
                all@.to_set() == start.to_set().union(list@.take(j as int).to_set()),
            decreases list.len() - j,
        {
            let pid = list[j];
            let ghost before = all@;
            assert(list@.take(j + 1) =~= list@.take(j as int).push(pid));
            if !contains_i32(&all, pid) {
                all.push(pid);
                proof {
                    assert forall|a: int, b: int| 0 <= a < b < all@.len() implies all@[a] != all@[b] by {
                        if b == all@.len() - 1 {
                            assert(all@[a] == before[a]);
                            assert(before.contains(before[a]));
                        } else {
                            assert(all@[a] == before[a] && all@[b] == before[b]);
                        }
                    }
                    before.lemma_push_to_set_commute(pid);
                }
            } else {
                assert(before.to_set().contains(pid));
            }
            proof {
                list@.take(j as int).lemma_push_to_set_commute(pid);
            }
            assert(all@.to_set() =~= start.to_set().union(list@.take(j + 1).to_set()));
            j = j + 1;
        }
        assert(list@.take(j as int) =~= list@);
        i = i + 1;
    }
    assert(lists@.take(i as int) =~= lists@);
    all
}

/// Whether `x` is an element of `v`.
fn contains_i32(v: &Vec<i32>, x: i32) -> (r: bool)
    ensures
        r == v@.contains(x),
{
    let mut i: usize = 0;
    while i < v.len()
        invariant
            i <= v@.len(),
            forall|k: int| 0 <= k < i ==> v@[k] != x,
        decreases v.len() - i,
    {
        if v[i] == x {
            return true;
        }
        i = i + 1;
    }
    false
}

/// The pids of `current` that are not among `frozen`, in order: processes
/// that appeared under the name after it was frozen.
pub fn extra_pids(frozen: &Vec<i32>, current: &Vec<i32>) -> (r: Vec<i32>)
    ensures
        r@ == current@.filter(|p: i32| !frozen@.contains(p)),
{
    let mut r: Vec<i32> = Vec::new();
    let mut i: usize = 0;
    while i < current.len()
        invariant
            i <= current@.len(),
            r@ == current@.take(i as int).filter(|p: i32| !frozen@.contains(p)),
        decreases current.len() - i,
    {
        let p = current[i];
        proof {
            assert(current@.take(i + 1).drop_last() =~= current@.take(i as int));
            assert(current@.take(i + 1).last() == p);
            current@.take(i as int).lemma_filter_push(p, |p: i32| !frozen@.contains(p));
            assert(current@.take(i as int).push(p) == current@.take(i + 1));
        }
        if !contains_i32(frozen, p) {
            r.push(p);
        }
        i = i + 1;
    }
    assert(current@.take(i as int) =~= current@);
    r
}

/// The name of a process as the kernel reports it in its `comm` file: the
/// file's text without surrounding whitespace; and the name of its executable.
/// A process answers to `name` when either is `name` (a missing executable
/// has the empty name).
pub open spec fn answers_to(comm: Seq<char>, exe: Option<Seq<char>>, name: Seq<char>) -> bool {
    let exe_name = match exe {
        Some(p) => match file_name(p) {
            Some(n) => n,
            None => Seq::empty(),
        },
        None => Seq::empty(),
    };
    trim(comm) == name || exe_name == name
}

/// Whether the process with this `comm` file text and executable path (if
/// it could be read) answers to `name`.
pub fn answers_to_name(comm: &str, exe: Option<&str>, name: &str) -> (r: bool)
    ensures
        r == answers_to(comm@, match exe { Some(p) => Some(p@), None => None }, name@),
{
    let target = chars_of(name);
    let c = chars_of(comm);
    let (a, b) = trim_bounds(c.as_slice());
    let mut trimmed: Vec<char> = Vec::new();
    let mut k = a;
    while k < b
        invariant
            a <= k <= b <= c@.len(),
            trimmed@ == c@.subrange(a as int, k as int),
        decreases b - k,
    {
        trimmed.push(c[k]);
        k = k + 1;
    }
    if chars_eq(trimmed.as_slice(), target.as_slice()) {
        return true;
    }
    let exe_name: Vec<char> = match exe {
        Some(p) => {
            let pv = chars_of(p);
            match file_name_of(pv.as_slice()) {
                Some(n) => n,
                None => Vec::new(),
            }
        },
        None => Vec::new(),
    };
    assert(exe_name@ == (match (match exe { Some(p) => Some(p@), None => None::<Seq<char>> }) {
        Some(p) => match file_name(p) { Some(n) => n, None => Seq::empty() },
        None => Seq::empty(),
    }));
    chars_eq(exe_name.as_slice(), target.as_slice())
}

/// The label before a process's parent pid in its `status` file.
pub open spec fn ppid_label() -> Seq<char> {
    seq!['P', 'P', 'i', 'd', ':', '\t']
}

/// The parent pid given by the first line of `ls` that starts with the label:
/// the rest of that line, trimmed, read as a number.
pub open spec fn ppid_in_lines(ls: Seq<Seq<char>>) -> Option<i32>
    decreases ls.len(),
{
    if ls.len() == 0 {
        None
    } else if has_prefix(ls[0], ppid_label()) {
        parse_i32_spec(trim(ls[0].skip(6)))
    } else {
        ppid_in_lines(ls.drop_first())
    }
}

/// The parent pid that a process's `status` file text gives.
pub fn parse_ppid(status: &str) -> (r: Option<i32>)
    ensures
        r == ppid_in_lines(lines(status@)),
{
    let v = chars_of(status);
    let ls = lines_of(v.as_slice());
    let ghost all = char_views(ls@);
    let label: Vec<char> = vec!['P', 'P', 'i', 'd', ':', '\t'];
    assert(label@ =~= ppid_label());
    let mut i: usize = 0;
    assert(all.skip(0) =~= all);
    while i < ls.len()
        invariant
            i <= ls@.len(),
            all == char_views(ls@),
            all == lines(status@),
            label@ == ppid_label(),
            ppid_in_lines(all) == ppid_in_lines(all.skip(i as int)),
        decreases ls.len() - i,
    {
        let line = &ls[i];
        assert(all.skip(i as int)[0] == line@);
        assert(all.skip(i as int).drop_first() =~= all.skip(i + 1));
        if starts_with(line.as_slice(), label.as_slice()) {
            let mut rest: Vec<char> = Vec::new();
            let mut k: usize = 6;
            while k < line.len()
                invariant
                    6 <= k <= line@.len(),
                    rest@ == line@.subrange(6, k as int),
                decreases line.len() - k,
            {
                rest.push(line[k]);
                k = k + 1;
            }
            assert(rest@ =~= line@.skip(6));
            let (a, b) = trim_bounds(rest.as_slice());
            let mut t: Vec<char> = Vec::new();
            let mut m = a;
            while m < b
                invariant
                    a <= m <= b <= rest@.len(),
                    t@ == rest@.subrange(a as int, m as int),
                decreases b - m,
            {
                t.push(rest[m]);
                m = m + 1;
            }
            return parse_i32(t.as_slice());
        }
        i = i + 1;
    }
    None
}

/// Thawing a name right after freezing it gives back exactly the pids that
/// were stopped, and leaves the table as it was before, when the name was
/// not frozen then.
pub proof fn lemma_thaw_undoes_freeze(table: Map<Seq<char>, Set<i32>>, name: Seq<char>, pids: Set<i32>)
    requires
        !table.dom().contains(name),
    ensures
        table.insert(name, pids).dom().contains(name),
        table.insert(name, pids)[name] == pids,
        table.insert(name, pids).remove(name) == table,
{
    assert(table.insert(name, pids).remove(name) =~= table);
}

} // verus!
