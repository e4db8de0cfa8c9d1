//! Processes and process trees: which running processes match a name, and in
//! which order a whole subtree of processes is signalled.
use vstd::prelude::*;
use crate::numeric::{parse_i32, parse_i32_spec};
use crate::text::{chars_of, char_views, file_name, file_name_of, lines, lines_of, string_of, words,
    split_whitespace};

verus! {

/// A running process.
pub struct ProcessInfo {
    pub pid: i32,
    /// The process name: the last component of its executable path.
    pub comm: String,
    /// The full path of its executable (empty when it could not be read).
    pub exe_path: String,
    /// Its parent process (0: not looked up).
    pub ppid: i32,
}

/// The name of a process with this executable path: the path's last
/// component, or nothing when the path is empty or has none.
pub open spec fn basename(exe: Seq<char>) -> Seq<char> {
    if exe.len() > 0 {
        match file_name(exe) {
            Some(n) => n,
            None => Seq::empty(),
        }
    } else {
        Seq::empty()
    }
}

/// Whether a process with this executable path has the name `name`: the
/// path is not empty and its last component is `name`.
pub open spec fn exe_named(exe: Seq<char>, name: Seq<char>) -> bool {
    exe.len() > 0 && file_name(exe) == Some(name)
}

/// The processes (pid and executable path) whose executable has the name
/// `name`, in the order given.
pub open spec fn named(procs: Seq<(i32, String)>, name: Seq<char>) -> Seq<(i32, String)>
    decreases procs.len(),
{
    if procs.len() == 0 {
        Seq::empty()
    } else {
        let rest = named(procs.drop_last(), name);
        if exe_named(procs.last().1@, name) {
            rest.push(procs.last())
        } else {
            rest
        }
    }
}

/// The process name for an executable path.
pub fn exe_basename(exe: &str) -> (name: String)
    ensures
        name@ == basename(exe@),
{
    let v = chars_of(exe);
    if v.len() == 0 {
        return String::new();
    }
    match file_name_of(v.as_slice()) {
        Some(n) => string_of(n.as_slice()),
        None => String::new(),
    }
}

/// The running processes, from the pid and executable path of each (an empty
/// path where it could not be read); the parent is left at 0.
pub fn list_all_processes(procs: Vec<(i32, String)>) -> (r: Vec<ProcessInfo>)
    ensures
        r@.len() == procs@.len(),
        forall|i: int|
            0 <= i < procs@.len() ==> {
                &&& (#[trigger] r@[i]).pid == procs@[i].0
                &&& r@[i].exe_path@ == procs@[i].1@
                &&& r@[i].comm@ == basename(procs@[i].1@)
                &&& r@[i].ppid == 0
            },
{
    let mut r: Vec<ProcessInfo> = Vec::new();
    let mut i: usize = 0;
    while i < procs.len()
        invariant
            i <= procs@.len(),
            r@.len() == i,
            forall|k: int|
                0 <= k < i ==> {
                    &&& (#[trigger] r@[k]).pid == procs@[k].0
                    &&& r@[k].exe_path@ == procs@[k].1@
                    &&& r@[k].comm@ == basename(procs@[k].1@)
                    &&& r@[k].ppid == 0
                },
        decreases procs.len() - i,
    {
        let pid = procs[i].0;
        let exe_path = procs[i].1.clone();
        let comm = exe_basename(exe_path.as_str());
        r.push(ProcessInfo { pid, comm, exe_path, ppid: 0 });
        i = i + 1;
    }
    r
}

/// The processes among `procs` (pid and executable path) whose executable
/// is named `name`, in the order given.
pub fn find_processes_by_name(procs: &[(i32, String)], name: &str) -> (r: Vec<(i32, String)>)
    ensures
        r@.len() == named(procs@, name@).len(),
        forall|i: int|
            0 <= i < r@.len() ==> (#[trigger] r@[i]).0 == named(procs@, name@)[i].0 && r@[i].1@
                == named(procs@, name@)[i].1@,
{
    let target = chars_of(name);
    let mut r: Vec<(i32, String)> = Vec::new();
    let mut i: usize = 0;
    while i < procs.len()
        invariant
            i <= procs@.len(),
            target@ == name@,
            r@.len() == named(procs@.take(i as int), name@).len(),
            forall|k: int|
                0 <= k < r@.len() ==> (#[trigger] r@[k]).0 == named(procs@.take(i as int), name@)[k].0
                    && r@[k].1@ == named(procs@.take(i as int), name@)[k].1@,
        decreases procs.len() - i,
    {
        assert(procs@.take(i + 1).drop_last() =~= procs@.take(i as int));
        let exe = chars_of(procs[i].1.as_str());
        let mut hit = false;
        if exe.len() > 0 {
            match file_name_of(exe.as_slice()) {
                Some(n) => {
                    hit = crate::text::chars_eq(n.as_slice(), target.as_slice());
                },
                None => {},
            }
        }
        assert(hit == exe_named(procs@[i as int].1@, name@));
        if hit {
            let path = procs[i].1.clone();
            r.push((procs[i].0, path));
        }
        i = i + 1;
    }
    assert(procs@.take(i as int) =~= procs@);
    r
}

/// The pids of the processes among `procs` whose executable is named `name`.
pub fn find_pids_by_name(procs: &[(i32, String)], name: &str) -> (r: Vec<i32>)
    ensures
        r@.len() == named(procs@, name@).len(),
        forall|i: int| 0 <= i < r@.len() ==> #[trigger] r@[i] == named(procs@, name@)[i].0,
{
    let found = find_processes_by_name(procs, name);
    let mut r: Vec<i32> = Vec::new();
    let mut i: usize = 0;
    while i < found.len()
        invariant
            i <= found@.len(),
            r@.len() == i,
            forall|k: int| 0 <= k < i ==> #[trigger] r@[k] == found@[k].0,
        decreases found.len() - i,
    {
        r.push(found[i].0);
        i = i + 1;
    }
    r
}

/// The pids that a process listing buffer holds: the first `bytes / 4`
/// entries (the buffer holds 4-byte pids), those above 0.
pub open spec fn listed_pids(buf: Seq<i32>, n: int) -> Seq<i32>
    decreases n,
{
    if n <= 0 {
        Seq::empty()
    } else {
        let rest = listed_pids(buf, n - 1);
        if buf[n - 1] > 0 {
            rest.push(buf[n - 1])
        } else {
            rest
        }
    }
}

/// The pids in a process listing buffer of which the listing call reported
/// `bytes` bytes filled (nothing when it reported none or failed).
pub fn pids_in_buffer(buf: &[i32], bytes: i32) -> (r: Vec<i32>)
    requires
        bytes / 4 <= buf@.len(),
    ensures
        r@ == (if bytes <= 0 { Seq::empty() } else { listed_pids(buf@, bytes / 4) }),
{
    let mut r: Vec<i32> = Vec::new();
    if bytes <= 0 {
        return r;
    }
    let n = (bytes / 4) as usize;
    let mut i: usize = 0;
    while i < n
        invariant
            i <= n <= buf@.len(),
            n == bytes / 4,
            r@ == listed_pids(buf@, i as int),
        decreases n - i,
    {
        if buf[i] > 0 {
            r.push(buf[i]);
        }
        i = i + 1;
    }
    r
}

/// The parent link that one line of `ps -eo pid,ppid` output gives: its
/// first two words read as pid and parent pid, both above 0.
pub open spec fn ps_line_link(line: Seq<char>) -> Option<(i32, i32)> {
    let ws = words(line);
    if ws.len() >= 2 {
        match (parse_i32_spec(ws[0]), parse_i32_spec(ws[1])) {
            (Some(pid), Some(ppid)) => if pid > 0 && ppid > 0 { Some((pid, ppid)) } else { None },
            _ => None,
        }
    } else {
        None
    }
}

/// The parent links that a list of `ps` output lines gives.
pub open spec fn ps_links(ls: Seq<Seq<char>>) -> Seq<(i32, i32)>
    decreases ls.len(),
{
    if ls.len() == 0 {
        Seq::empty()
    } else {
        let rest = ps_links(ls.drop_last());
        match ps_line_link(ls.last()) {
            Some(l) => rest.push(l),
            None => rest,
        }
    }
}

/// The lines after the first.
pub open spec fn after_header(ls: Seq<Seq<char>>) -> Seq<Seq<char>> {
    if ls.len() == 0 {
        Seq::empty()
    } else {
        ls.drop_first()
    }
}

/// The parent links in the output of `ps -eo pid,ppid`: one per line after
/// the header whose pid and parent pid read as numbers above 0.
pub fn parse_ps_output(text: &str) -> (links: Vec<(i32, i32)>)
    ensures
        links@ == ps_links(after_header(lines(text@))),
{
    let v = chars_of(text);
    let ls = lines_of(v.as_slice());
    let ghost all = char_views(ls@);
    let mut links: Vec<(i32, i32)> = Vec::new();
    if ls.len() == 0 {
        return links;
    }
    let mut i: usize = 1;
    assert(all.skip(1).take(0) =~= Seq::<Seq<char>>::empty());
    while i < ls.len()
        invariant
            1 <= i <= ls@.len(),
            all == char_views(ls@),
            all == lines(text@),
            links@ == ps_links(all.skip(1).take(i - 1)),
        decreases ls.len() - i,
    {
        let ghost line = all[i as int];
        assert(all.skip(1).take(i as int).drop_last() =~= all.skip(1).take(i - 1));
        assert(all.skip(1).take(i as int).last() == line);
        assert(ls@[i as int]@ == line);
        let ws = split_whitespace(ls[i].as_slice());
        if ws.len() >= 2 {
            let a = parse_i32(ws[0].as_slice());
            let b = parse_i32(ws[1].as_slice());
            match (a, b) {
                (Some(pid), Some(ppid)) => {
                    if pid > 0 && ppid > 0 {
                        links.push((pid, ppid));
                    }
                },
                _ => {},
            }
        }
        i = i + 1;
    }
    assert(all.skip(1).take(i - 1) =~= after_header(all));
    links
}

/// Parent links: each pair is `(pid, ppid)`, in the order they were read.
pub open spec fn is_child(links: Seq<(i32, i32)>, c: i32, p: i32) -> bool {
    exists|k: int| 0 <= k < links.len() && (#[trigger] links[k]).0 == c && links[k].1 == p
}

/// The children of `p`, in the order their links were read.
pub open spec fn children(links: Seq<(i32, i32)>, p: i32) -> Seq<i32>
    decreases links.len(),
{
    if links.len() == 0 {
        Seq::empty()
    } else {
        let rest = children(links.drop_last(), p);
        if links.last().1 == p {
            rest.push(links.last().0)
        } else {
            rest
        }
    }
}

/// `v` is reached from `root` in at most `n` steps from parent to child.
pub open spec fn reach_within(links: Seq<(i32, i32)>, root: i32, v: i32, n: nat) -> bool
    decreases n,
{
    if n == 0 {
        v == root
    } else {
        reach_within(links, root, v, (n - 1) as nat) || exists|k: int|
            0 <= k < links.len() && (#[trigger] links[k]).0 == v && reach_within(
                links,
                root,
                links[k].1,
                (n - 1) as nat,
            )
    }
}

/// `v` lies in the process tree below `root` (or is `root`).
pub open spec fn in_tree(links: Seq<(i32, i32)>, root: i32, v: i32) -> bool {
    exists|n: nat| reach_within(links, root, v, n)
}

/// The children of `p` are exactly the processes linked to `p` as parent.
pub proof fn lemma_children_members(links: Seq<(i32, i32)>, p: i32, c: i32)
    ensures
        children(links, p).contains(c) <==> is_child(links, c, p),
    decreases links.len(),
{
    if links.len() > 0 {
        let init = links.drop_last();
        lemma_children_members(init, p, c);
        let rest = children(init, p);
        if is_child(init, c, p) {
            let k = choose|k: int| 0 <= k < init.len() && (#[trigger] init[k]).0 == c && init[k].1 == p;
            assert(links[k] == init[k]);
        }
        if is_child(links, c, p) {
            let k = choose|k: int| 0 <= k < links.len() && (#[trigger] links[k]).0 == c && links[k].1 == p;
            if k < links.len() - 1 {
                assert(init[k] == links[k]);
                assert(is_child(init, c, p));
            }
        }
        if links.last().1 == p {
            assert(rest.push(links.last().0).contains(c) <==> (rest.contains(c) || c == links.last().0)) by {
                if rest.push(links.last().0).contains(c) {
                    let i = choose|i: int| 0 <= i < rest.len() + 1 && rest.push(links.last().0)[i] == c;
                    if i < rest.len() {
                        assert(rest[i] == c);
                    }
                }
                if rest.contains(c) {
                    let i = choose|i: int| 0 <= i < rest.len() && rest[i] == c;
                    assert(rest.push(links.last().0)[i] == c);
                }
                assert(rest.push(links.last().0)[rest.len() as int] == links.last().0);
            }
            if c == links.last().0 {
                assert(links[links.len() - 1] == links.last());
            }
        }
    }
}

/// A set of processes that holds `root` and the children of each of its
/// members holds the whole tree below `root`.
pub proof fn lemma_closed_holds_tree(links: Seq<(i32, i32)>, root: i32, s: Seq<i32>, v: i32, n: nat)
    requires
        s.contains(root),
        forall|k: int| 0 <= k < links.len() && s.contains((#[trigger] links[k]).1) ==> s.contains(links[k].0),
        reach_within(links, root, v, n),
    ensures
        s.contains(v),
    decreases n,
{
    if n > 0 {
        if reach_within(links, root, v, (n - 1) as nat) {
            lemma_closed_holds_tree(links, root, s, v, (n - 1) as nat);
        } else {
            let k = choose|k: int|
                0 <= k < links.len() && (#[trigger] links[k]).0 == v && reach_within(
                    links,
                    root,
                    links[k].1,
                    (n - 1) as nat,
                );
            lemma_closed_holds_tree(links, root, s, links[k].1, (n - 1) as nat);
        }
    }
}

/// What lies within `n` steps also lies within any larger number of steps.
pub proof fn lemma_reach_more(links: Seq<(i32, i32)>, root: i32, v: i32, n: nat, m: nat)
    requires
        reach_within(links, root, v, n),
        n <= m,
    ensures
        reach_within(links, root, v, m),
    decreases m - n,
{
    if n < m {
        lemma_reach_more(links, root, v, n, (m - 1) as nat);
    }
}

/// The children of `p`, read from the links.
pub fn children_of(links: &[(i32, i32)], p: i32) -> (kids: Vec<i32>)
    ensures
        kids@ == children(links@, p),
{
    let mut kids: Vec<i32> = Vec::new();
    let mut i: usize = 0;
    while i < links.len()
        invariant
            i <= links@.len(),
            kids@ == children(links@.take(i as int), p),
        decreases links.len() - i,
    {
        assert(links@.take(i + 1).drop_last() =~= links@.take(i as int));
        let (c, q) = links[i];
        if q == p {
            kids.push(c);
        }
        i = i + 1;
    }
    assert(links@.take(i as int) =~= links@);
    kids
}

/// Whether `x` is an element of `v`.
fn contains_pid(v: &Vec<i32>, x: i32) -> (r: bool)
    ensures
        r == v@.contains(x),
{
    let mut i: usize = 0;
    while i < v.len()
        invariant
            i <= v@.len(),
            forall|k: int| 0 <= k < i ==> v@[k] != x,
        decreases v.len() - i,
    {
        if v[i] == x {
            return true;
        }
        i = i + 1;
    }
    false
}

/// The processes a depth-first walk visits, in the order it first reaches
/// them: it takes the most recently pushed process off `stack`; one not yet
/// visited is visited and its children pushed, in link order. `fuel` bounds
/// the number of steps.
pub open spec fn dfs_walk(links: Seq<(i32, i32)>, stack: Seq<i32>, visited: Seq<i32>, fuel: nat) -> Seq<i32>
    decreases fuel,
{
    if fuel == 0 || stack.len() == 0 {
        visited
    } else {
        let pid = stack.last();
        if visited.contains(pid) {
            dfs_walk(links, stack.drop_last(), visited, (fuel - 1) as nat)
        } else {
            dfs_walk(links, stack.drop_last() + children(links, pid), visited.push(pid), (fuel - 1) as nat)
        }
    }
}

/// The depth-first walk from `root`, given a step for every link and one
/// more (which the walk never needs to exceed).
pub open spec fn dfs_order(links: Seq<(i32, i32)>, root: i32) -> Seq<i32> {
    dfs_walk(links, seq![root], Seq::empty(), (links.len() + 1) as nat)
}

/// The number of links whose parent is in `vis`.
pub open spec fn count_links(links: Seq<(i32, i32)>, vis: Seq<i32>) -> nat
    decreases links.len(),
{
    if links.len() == 0 {
        0
    } else {
        count_links(links.drop_last(), vis) + if vis.contains(links.last().1) { 1nat } else { 0nat }
    }
}

/// Visiting one more process counts its children's links too.
proof fn lemma_count_links_push(links: Seq<(i32, i32)>, vis: Seq<i32>, p: i32)
    requires
        !vis.contains(p),
    ensures
        count_links(links, vis.push(p)) == count_links(links, vis) + children(links, p).len(),
    decreases links.len(),
{
    if links.len() > 0 {
        lemma_count_links_push(links.drop_last(), vis, p);
        let q = links.last().1;
        assert(vis.push(p).contains(q) <==> (vis.contains(q) || q == p)) by {
            if vis.push(p).contains(q) {
                let k = choose|k: int| 0 <= k < vis.push(p).len() && vis.push(p)[k] == q;
                if k < vis.len() {
                    assert(vis[k] == q);
                }
            }
            if vis.contains(q) {
                let k = choose|k: int| 0 <= k < vis.len() && vis[k] == q;
                assert(vis.push(p)[k] == q);
            }
            assert(vis.push(p)[vis.len() as int] == p);
        }
    }
}

/// No more links are counted than there are.
proof fn lemma_count_links_bound(links: Seq<(i32, i32)>, vis: Seq<i32>)
    ensures
        count_links(links, vis) <= links.len(),
    decreases links.len(),
{
    if links.len() > 0 {
        lemma_count_links_bound(links.drop_last(), vis);
    }
}

/// No process visited yet: no link counted.
proof fn lemma_count_links_empty(links: Seq<(i32, i32)>)
    ensures
        count_links(links, Seq::empty()) == 0,
    decreases links.len(),
{
    if links.len() > 0 {
        lemma_count_links_empty(links.drop_last());
    }
}

/// All processes in the tree below `root_pid`, `root_pid` included, each once,
/// children before the parent that found them: the reverse of the order in
/// which a depth-first walk from `root_pid` first visits them.
pub fn collect_process_tree_postorder(links: &[(i32, i32)], root_pid: i32) -> (order: Vec<i32>)
    ensures
        order@.no_duplicates(),
        forall|v: i32| order@.contains(v) <==> in_tree(links@, root_pid, v),
        order@.len() > 0 && order@.last() == root_pid,
        forall|i: int|
            0 <= i < order@.len() - 1 ==> exists|j: int|
                i < j < order@.len() && is_child(links@, #[trigger] order@[i], order@[j]),
        order@ == dfs_order(links@, root_pid).reverse(),
{
    let ghost e = links@;
    let ghost universe: Seq<i32> = seq![root_pid] + e.map_values(|x: (i32, i32)| x.0);
    let mut visited: Vec<i32> = Vec::new();
    let mut stack: Vec<i32> = Vec::new();
    stack.push(root_pid);
    let ghost mut iters: nat = 0;
    let ghost mut pushed: nat = 1;
    proof {
        assert(reach_within(e, root_pid, root_pid, 0));
        assert(stack@[0] == root_pid);
        assert(universe[0] == root_pid);
        universe.lemma_cardinality_of_set();
        lemma_count_links_empty(e);
        assert(stack@ =~= seq![root_pid]);
        assert(visited@ =~= Seq::<i32>::empty());
    }
    while stack.len() > 0
        invariant
            e == links@,
            pushed == 1 + count_links(e, visited@),
            count_links(e, visited@) <= e.len(),
            iters + stack@.len() == pushed,
            dfs_order(e, root_pid) == dfs_walk(e, stack@, visited@, (e.len() + 1 - iters) as nat),
            universe == seq![root_pid] + e.map_values(|x: (i32, i32)| x.0),
            universe.to_set().len() <= e.len() + 1,
            visited@.no_duplicates(),
            visited@.len() <= e.len() + 1,
            visited@.contains(root_pid) || stack@.contains(root_pid),
            visited@.len() > 0 ==> visited@[0] == root_pid,
            forall|v: i32| #[trigger] visited@.contains(v) ==> in_tree(e, root_pid, v),
            forall|v: i32| #[trigger] stack@.contains(v) ==> in_tree(e, root_pid, v),
            forall|v: i32| #[trigger] visited@.contains(v) ==> universe.contains(v),
            forall|v: i32| #[trigger] stack@.contains(v) ==> universe.contains(v),
            forall|k: int|
                0 <= k < e.len() && visited@.contains((#[trigger] e[k]).1) ==> visited@.contains(e[k].0)
                    || stack@.contains(e[k].0),
            forall|i: int|
                0 < i < visited@.len() ==> exists|j: int| 0 <= j < i && is_child(e, #[trigger] visited@[i], visited@[j]),
            forall|s: i32|
                #[trigger] stack@.contains(s) ==> s == root_pid || exists|j: int|
                    0 <= j < visited@.len() && is_child(e, s, visited@[j]),
        decreases e.len() + 1 - visited@.len(), stack@.len(),
    {
        let ghost old_stack = stack@;
        let ghost old_fuel: nat = (e.len() + 1 - iters) as nat;
        let pid = stack.pop().unwrap();
        assert(old_stack == stack@.push(pid));
        assert(old_stack[old_stack.len() - 1] == pid);
        assert(old_stack.contains(pid));
        assert(old_fuel > 0);
        assert(old_stack.drop_last() =~= stack@);
        if !contains_pid(&visited, pid) {
            let kids = children_of(links, pid);
            let ghost before = stack@;
            let mut i: usize = 0;
            while i < kids.len()
                invariant
                    i <= kids@.len(),
                    kids@ == children(e, pid),
                    stack@ == before + kids@.take(i as int),
                decreases kids.len() - i,
            {
                stack.push(kids[i]);
                assert(kids@.take(i + 1) =~= kids@.take(i as int).push(kids@[i as int]));
                i = i + 1;
            }
            assert(kids@.take(i as int) =~= kids@);
            let ghost old_visited = visited@;
            visited.push(pid);
            proof {
                assert(visited@ == old_visited.push(pid));
                assert(!old_visited.contains(pid));
                lemma_count_links_push(e, old_visited, pid);
                assert(dfs_walk(e, old_stack, old_visited, old_fuel) == dfs_walk(
                    e,
                    before + children(e, pid),
                    old_visited.push(pid),
                    (old_fuel - 1) as nat,
                ));
                iters = iters + 1;
                pushed = pushed + kids@.len();
                lemma_count_links_bound(e, visited@);
                // every member of the stack now
                assert forall|v: i32| #[trigger] stack@.contains(v) implies (before.contains(v) || kids@.contains(v)) by {
                    let m = choose|m: int| 0 <= m < stack@.len() && stack@[m] == v;
                    if m < before.len() {
                        assert(stack@[m] == before[m]);
                    } else {
                        assert(stack@[m] == kids@[m - before.len()]);
                    }
                }
                assert forall|v: i32| before.contains(v) implies #[trigger] stack@.contains(v) by {
                    let m = choose|m: int| 0 <= m < before.len() && before[m] == v;
                    assert(stack@[m] == before[m]);
                }
                assert forall|v: i32| kids@.contains(v) implies #[trigger] stack@.contains(v) by {
                    let m = choose|m: int| 0 <= m < kids@.len() && kids@[m] == v;
                    assert(stack@[before.len() + m] == kids@[m]);
                }
                assert forall|v: i32| #[trigger] before.contains(v) implies old_stack.contains(v) by {
                    let m = choose|m: int| 0 <= m < before.len() && before[m] == v;
                    assert(old_stack[m] == before[m]);
                }
                assert forall|v: i32| #[trigger] old_visited.contains(v) implies visited@.contains(v) by {
                    let m = choose|m: int| 0 <= m < old_visited.len() && old_visited[m] == v;
                    assert(visited@[m] == old_visited[m]);
                }
                assert(visited@[visited@.len() - 1] == pid);
                assert forall|v: i32| #[trigger] visited@.contains(v) implies (old_visited.contains(v) || v == pid) by {
                    let m = choose|m: int| 0 <= m < visited@.len() && visited@[m] == v;
                    if m < old_visited.len() {
                        assert(visited@[m] == old_visited[m]);
                    }
                }
                assert forall|v: i32| #[trigger] old_stack.contains(v) implies (before.contains(v) || v == pid) by {
                    let m = choose|m: int| 0 <= m < old_stack.len() && old_stack[m] == v;
                    if m < before.len() {
                        assert(old_stack[m] == before[m]);
                    }
                }
                // the children of pid lie in the tree and in the universe
                let n = choose|n: nat| reach_within(e, root_pid, pid, n);
                assert forall|v: i32| #[trigger] kids@.contains(v) implies in_tree(e, root_pid, v) && universe.contains(v)
                    && is_child(e, v, pid) by {
                    lemma_children_members(e, pid, v);
                    let k = choose|k: int| 0 <= k < e.len() && (#[trigger] e[k]).0 == v && e[k].1 == pid;
                    assert(reach_within(e, root_pid, v, n + 1));
                    assert(universe[k + 1] == e[k].0);
                }
                // no duplicates
                assert forall|a: int, b: int| 0 <= a < b < visited@.len() implies visited@[a] != visited@[b] by {
                    if b == visited@.len() - 1 {
                        assert(old_visited.contains(visited@[a]) || visited@[a] == pid) by {
                            assert(visited@[a] == old_visited[a]);
                        }
                        assert(old_visited[a] == visited@[a]);
                    } else {
                        assert(visited@[a] == old_visited[a]);
                        assert(visited@[b] == old_visited[b]);
                    }
                }
                // the size bound
                assert(visited@.to_set().subset_of(universe.to_set())) by {
                    assert forall|v: i32| visited@.to_set().contains(v) implies universe.to_set().contains(v) by {
                        assert(visited@.contains(v));
                    }
                }
                visited@.unique_seq_to_set();
                vstd::set_lib::lemma_len_subset(visited@.to_set(), universe.to_set());
                // closure under children
                assert forall|k: int|
                    0 <= k < e.len() && visited@.contains((#[trigger] e[k]).1) implies visited@.contains(e[k].0)
                        || stack@.contains(e[k].0) by {
                    if e[k].1 == pid {
                        lemma_children_members(e, pid, e[k].0);
                        assert(kids@.contains(e[k].0));
                    } else {
                        assert(old_visited.contains(e[k].1));
                        if old_stack.contains(e[k].0) && !old_visited.contains(e[k].0) {
                            if e[k].0 != pid {
                                assert(before.contains(e[k].0));
                            }
                        }
                    }
                }
                // a parent precedes each visited process but the first
                assert forall|i: int| 0 < i < visited@.len() implies exists|j: int|
                    0 <= j < i && is_child(e, #[trigger] visited@[i], visited@[j]) by {
                    if i < old_visited.len() {
                        let j = choose|j: int| 0 <= j < i && is_child(e, old_visited[i], old_visited[j]);
                        assert(visited@[i] == old_visited[i]);
                        assert(visited@[j] == old_visited[j]);
                    } else {
                        assert(old_visited.len() > 0);
                        assert(old_visited[0] == root_pid);
                        assert(pid != root_pid);
                        let j = choose|j: int| 0 <= j < old_visited.len() && is_child(e, pid, old_visited[j]);
                        assert(visited@[j] == old_visited[j]);
                    }
                }
                assert forall|s: i32| #[trigger] stack@.contains(s) implies s == root_pid || exists|j: int|
                    0 <= j < visited@.len() && is_child(e, s, visited@[j]) by {
                    if before.contains(s) {
                        assert(old_stack.contains(s));
                        if s != root_pid {
                            let j = choose|j: int| 0 <= j < old_visited.len() && is_child(e, s, old_visited[j]);
                            assert(visited@[j] == old_visited[j]);
                        }
                    } else {
                        assert(kids@.contains(s));
                        assert(is_child(e, s, visited@[visited@.len() - 1]));
                    }
                }
            }
        } else {
            proof {
                assert(dfs_walk(e, old_stack, visited@, old_fuel) == dfs_walk(
                    e,
                    stack@,
                    visited@,
                    (old_fuel - 1) as nat,
                ));
                iters = iters + 1;
                assert forall|v: i32| #[trigger] stack@.contains(v) implies old_stack.contains(v) by {
                    let m = choose|m: int| 0 <= m < stack@.len() && stack@[m] == v;
                    assert(old_stack[m] == stack@[m]);
                }
                assert forall|v: i32| #[trigger] old_stack.contains(v) implies (stack@.contains(v) || v == pid) by {
                    let m = choose|m: int| 0 <= m < old_stack.len() && old_stack[m] == v;
                    if m < stack@.len() {
                        assert(stack@[m] == old_stack[m]);
                    }
                }
            }
        }
    }
    proof {
        assert forall|v: i32| #![trigger visited@.contains(v)] visited@.contains(v) <==> in_tree(e, root_pid, v) by {
            if in_tree(e, root_pid, v) {
                let n = choose|n: nat| reach_within(e, root_pid, v, n);
                lemma_closed_holds_tree(e, root_pid, visited@, v, n);
            }
        }
    }
    let ghost walk = visited@;
    assert(forall|v: i32| #[trigger] walk.contains(v) <==> in_tree(e, root_pid, v));
    assert(dfs_order(e, root_pid) == walk);
    let mut order: Vec<i32> = Vec::new();
    let mut i: usize = visited.len();
    while i > 0
        invariant
            i <= walk.len(),
            visited@ == walk,
            order@.len() == walk.len() - i,
            forall|k: int| 0 <= k < order@.len() ==> order@[k] == walk[walk.len() - 1 - k],
        decreases i,
    {
        i = i - 1;
        order.push(visited[i]);
    }
    proof {
        assert(order@ =~= walk.reverse());
        assert forall|a: int, b: int| 0 <= a < b < order@.len() implies order@[a] != order@[b] by {
            assert(order@[a] == walk[walk.len() - 1 - a]);
            assert(order@[b] == walk[walk.len() - 1 - b]);
        }
        assert forall|v: i32| order@.contains(v) <==> walk.contains(v) by {
            if order@.contains(v) {
                let m = choose|m: int| 0 <= m < order@.len() && order@[m] == v;
                assert(walk[walk.len() - 1 - m] == v);
            }
            if walk.contains(v) {
                let m = choose|m: int| 0 <= m < walk.len() && walk[m] == v;
                assert(order@[walk.len() - 1 - m] == v);
            }
        }
        assert forall|v: i32| #[trigger] order@.contains(v) <==> in_tree(links@, root_pid, v) by {
            assert(order@.contains(v) <==> walk.contains(v));
        }
        assert(walk.contains(root_pid));
        assert(order@[order@.len() - 1] == walk[0]);
        assert forall|i: int| 0 <= i < order@.len() - 1 implies exists|j: int|
            i < j < order@.len() && is_child(e, #[trigger] order@[i], order@[j]) by {
            let wi = walk.len() - 1 - i;
            assert(order@[i] == walk[wi]);
            let wj = choose|wj: int| 0 <= wj < wi && is_child(e, walk[wi], walk[wj]);
            assert(order@[walk.len() - 1 - wj] == walk[wj]);
        }
    }
    order
}

} // verus!
