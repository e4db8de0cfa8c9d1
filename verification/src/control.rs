//! The control interface: its commands and responses, and what each command
//! does to the blocking state.
//!
//! A command that adds or removes domains is carried out in two steps. First
//! `domain_ops` lists the backend operations it makes, in order; the caller
//! performs them and collects one result per operation (`None` on success,
//! the error text otherwise); then `apply_domain_results` updates the state
//! and builds the response from those results.
use vstd::prelude::*;
use crate::app_blocker;
use crate::app_watcher;
use crate::process_freezer::FreezerState;
use crate::strset::{StrSet, views, sorted};
use crate::text::{chars_of, str_eq};

verus! {

/// A command sent to the control socket.
pub enum ControlCmd {
    /// Adds domains to the blocklist.
    Block { domains: Vec<String> },
    /// Removes domains from the blocklist.
    Unblock { domains: Vec<String> },
    /// Replaces all dynamically blocked domains and the blocked app names.
    Sync { blocked_domains: Vec<String>, blocked_apps: Vec<String> },
    /// Turns focus mode on (blocking `domains`) or off (unblocking all
    /// dynamically blocked domains).
    FocusMode { enabled: bool, domains: Vec<String> },
    /// Blocks applications by path or by name.
    BlockApp { paths: Vec<String>, names: Vec<String> },
    /// Unblocks applications by path or by name.
    UnblockApp { paths: Vec<String>, names: Vec<String> },
    /// Blocks applications by name.
    BlockApps { apps: Vec<String> },
    /// Unblocks applications by name.
    UnblockApps { apps: Vec<String> },
    /// Freezes the processes with these names.
    FreezeApp { names: Vec<String> },
    /// Thaws the processes with these names.
    ThawApp { names: Vec<String> },
    /// Asks for the current state.
    Status,
}

/// The blocked applications, as reported.
pub struct BlockedAppsPayload {
    pub paths: Vec<String>,
    pub names: Vec<String>,
}

/// The state reported by `Status`.
pub struct StatusPayload {
    pub focus_mode: bool,
    /// The dynamically blocked domains (the older field name).
    pub dynamic_blocked: Vec<String>,
    /// The dynamically blocked domains.
    pub blocked_domains: Vec<String>,
    pub blocked_apps: BlockedAppsPayload,
    pub frozen_apps: Vec<String>,
    pub uptime_seconds: u64,
    pub platform: String,
}

/// The answer to a command.
pub struct ControlResp {
    pub ok: bool,
    pub error: Option<String>,
    pub status: Option<StatusPayload>,
}

/// What the control interface keeps between commands.
pub struct ControlState {
    /// The domains blocked through the interface, in the order they were
    /// added.
    pub dynamic_blocked: Vec<String>,
    /// Whether focus mode is on.
    pub focus_mode: bool,
}

/// One operation on the domain blocking backend.
pub enum DomainOp {
    Add(String),
    Remove(String),
}

/// An operation as a pair: whether it adds, and the domain.
pub open spec fn op_view(op: DomainOp) -> (bool, Seq<char>) {
    match op {
        DomainOp::Add(d) => (true, d@),
        DomainOp::Remove(d) => (false, d@),
    }
}

/// Operations that add, or remove, each domain in turn.
pub open spec fn ops_on(ds: Seq<Seq<char>>, add: bool) -> Seq<(bool, Seq<char>)> {
    ds.map_values(|d: Seq<char>| (add, d))
}

/// The domains of `ds` that are blocked through the interface.
pub open spec fn dynamic_among(ds: Seq<Seq<char>>, dynamic: Seq<Seq<char>>) -> Seq<Seq<char>> {
    ds.filter(|d: Seq<char>| dynamic.contains(d))
}

/// The backend operations a command makes, given the dynamically blocked
/// domains: `Block` adds its domains; `Unblock` removes those of its domains
/// that are dynamically blocked (the domains blocked from the start are
/// left alone); `Sync` removes every dynamically blocked domain, then adds
/// its domains; focus mode on adds its domains, off removes every
/// dynamically blocked domain.
pub open spec fn domain_plan(dynamic: Seq<Seq<char>>, cmd: ControlCmd) -> Seq<(bool, Seq<char>)> {
    match cmd {
        ControlCmd::Block { domains } => ops_on(views(domains@), true),
        ControlCmd::Unblock { domains } => ops_on(dynamic_among(views(domains@), dynamic), false),
        ControlCmd::Sync { blocked_domains, blocked_apps } => ops_on(dynamic, false) + ops_on(
            views(blocked_domains@),
            true,
        ),
        ControlCmd::FocusMode { enabled, domains } => if enabled {
            ops_on(views(domains@), true)
        } else {
            ops_on(dynamic, false)
        },
        _ => Seq::empty(),
    }
}

/// The results as error texts (`None` where the operation succeeded).
pub open spec fn result_views(rs: Seq<Option<String>>) -> Seq<Option<Seq<char>>> {
    rs.map_values(|r: Option<String>| match r {
        Some(e) => Some(e@),
        None => None,
    })
}

/// The domains whose operation succeeded, in order.
pub open spec fn succeeded(ds: Seq<Seq<char>>, rs: Seq<Option<Seq<char>>>) -> Seq<Seq<char>>
    decreases ds.len(),
{
    if ds.len() == 0 {
        Seq::empty()
    } else {
        let rest = succeeded(ds.drop_last(), rs);
        if rs[ds.len() - 1] is None {
            rest.push(ds.last())
        } else {
            rest
        }
    }
}

/// The error line of a failed operation: the domain, ": ", the error.
pub open spec fn error_line(d: Seq<char>, e: Seq<char>) -> Seq<char> {
    d + ": "@ + e
}

/// The error lines of the operations that failed, in order.
pub open spec fn failures(ds: Seq<Seq<char>>, rs: Seq<Option<Seq<char>>>) -> Seq<Seq<char>>
    decreases ds.len(),
{
    if ds.len() == 0 {
        Seq::empty()
    } else {
        let rest = failures(ds.drop_last(), rs);
        match rs[ds.len() - 1] {
            Some(e) => rest.push(error_line(ds.last(), e)),
            None => rest,
        }
    }
}

/// The parts joined with `sep` between them.
pub open spec fn joined(parts: Seq<Seq<char>>, sep: Seq<char>) -> Seq<char>
    decreases parts.len(),
{
    if parts.len() == 0 {
        Seq::empty()
    } else if parts.len() == 1 {
        parts[0]
    } else {
        joined(parts.drop_last(), sep) + sep + parts.last()
    }
}

/// The dynamically blocked domains after a command, from those before, the
/// command and the results of its operations.
pub open spec fn dynamic_after(
    dynamic: Seq<Seq<char>>,
    cmd: ControlCmd,
    rs: Seq<Option<Seq<char>>>,
) -> Seq<Seq<char>> {
    match cmd {
        ControlCmd::Block { domains } => dynamic + succeeded(views(domains@), rs),
        ControlCmd::Unblock { domains } => dynamic.filter(|d: Seq<char>| !views(domains@).contains(d)),
        ControlCmd::Sync { blocked_domains, blocked_apps } => succeeded(
            views(blocked_domains@),
            rs.skip(dynamic.len() as int),
        ),
        ControlCmd::FocusMode { enabled, domains } => if enabled {
            dynamic + succeeded(views(domains@), rs)
        } else {
            Seq::empty()
        },
        _ => dynamic,
    }
}

/// The errors a command reports, from its operations' results (the removals
/// that `Sync` and focus mode make first report none).
pub open spec fn domain_errors(
    dynamic: Seq<Seq<char>>,
    cmd: ControlCmd,
    rs: Seq<Option<Seq<char>>>,
) -> Seq<Seq<char>> {
    match cmd {
        ControlCmd::Block { domains } => failures(views(domains@), rs),
        ControlCmd::Unblock { domains } => failures(dynamic_among(views(domains@), dynamic), rs),
        ControlCmd::Sync { blocked_domains, blocked_apps } => failures(
            views(blocked_domains@),
            rs.skip(dynamic.len() as int),
        ),
        _ => Seq::empty(),
    }
}

/// Focus mode after a command.
pub open spec fn focus_after(focus: bool, cmd: ControlCmd) -> bool {
    match cmd {
        ControlCmd::FocusMode { enabled, domains } => enabled,
        _ => focus,
    }
}

/// `resp` answers with these errors: it succeeds without an error when there
/// is none, and fails with the errors joined by "; " otherwise.
pub open spec fn answers_with(resp: ControlResp, errors: Seq<Seq<char>>) -> bool {
    &&& resp.status is None
    &&& resp.ok == (errors.len() == 0)
    &&& match resp.error {
        Some(e) => errors.len() > 0 && e@ == joined(errors, "; "@),
        None => errors.len() == 0,
    }
}

/// The response that reports these errors: success when there is none.
pub fn response_for(errors: &Vec<String>) -> (resp: ControlResp)
    ensures
        answers_with(resp, views(errors@)),
{
    if errors.len() == 0 {
        return ControlResp { ok: true, error: None, status: None };
    }
    let mut text = errors[0].clone();
    assert(text@ == errors@[0]@);
    let mut i: usize = 1;
    assert(views(errors@).take(1) =~= seq![errors@[0]@]);
    while i < errors.len()
        invariant
            1 <= i <= errors@.len(),
            text@ == joined(views(errors@).take(i as int), "; "@),
        decreases errors.len() - i,
    {
        text.append("; ");
        text.append(errors[i].as_str());
        proof {
            let t = views(errors@).take(i + 1);
            assert(t.drop_last() =~= views(errors@).take(i as int));
            assert(t.last() == errors@[i as int]@);
        }
        i = i + 1;
    }
    assert(views(errors@).take(i as int) =~= views(errors@));
    ControlResp { ok: false, error: Some(text), status: None }
}

/// The response to a request line that was empty.
pub fn empty_input_response() -> (resp: ControlResp)
    ensures
        resp.ok == false,
        resp.error matches Some(e) && e@ == "empty input"@,
        resp.status is None,
{
    ControlResp { ok: false, error: Some(String::from_str("empty input")), status: None }
}

/// The response to a request line that is not a command; `detail` says why.
pub fn parse_error_response(detail: &str) -> (resp: ControlResp)
    ensures
        resp.ok == false,
        resp.error matches Some(e) && e@ == "parse error: "@ + detail@,
        resp.status is None,
{
    let mut text = String::from_str("parse error: ");
    text.append(detail);
    ControlResp { ok: false, error: Some(text), status: None }
}

impl ControlState {
    /// Nothing blocked through the interface, focus mode off.
    pub fn new() -> (s: ControlState)
        ensures
            s.dynamic_blocked@.len() == 0,
            !s.focus_mode,
    {
        ControlState { dynamic_blocked: Vec::new(), focus_mode: false }
    }
}

/// Operations that add, or remove, each domain of `ds` in turn.
fn push_ops(ops: &mut Vec<DomainOp>, ds: &Vec<String>, add: bool)
    ensures
        final(ops)@.map_values(|o: DomainOp| op_view(o)) == old(ops)@.map_values(|o: DomainOp| op_view(o))
            + ops_on(views(ds@), add),
{
    let ghost start = ops@.map_values(|o: DomainOp| op_view(o));
    let mut i: usize = 0;
    while i < ds.len()
        invariant
            i <= ds@.len(),
            ops@.map_values(|o: DomainOp| op_view(o)) == start + ops_on(views(ds@), add).take(i as int),
        decreases ds.len() - i,
    {
        let d = ds[i].clone();
        let op = if add { DomainOp::Add(d) } else { DomainOp::Remove(d) };
        let ghost before = ops@;
        ops.push(op);
        proof {
            assert(ops@.map_values(|o: DomainOp| op_view(o)) =~= before.map_values(|o: DomainOp| op_view(o)).push((add, ds@[i as int]@)));
            assert(ops_on(views(ds@), add).take(i + 1) =~= ops_on(views(ds@), add).take(i as int).push((add, ds@[i as int]@)));
        }
        i = i + 1;
    }
    assert(ops_on(views(ds@), add).take(i as int) =~= ops_on(views(ds@), add));
}

/// The domains of `ds` that are in `dynamic`, in order.
fn dynamic_subset(ds: &Vec<String>, dynamic: &Vec<String>) -> (r: Vec<String>)
    ensures
        views(r@) == dynamic_among(views(ds@), views(dynamic@)),
{
    let mut r: Vec<String> = Vec::new();
    let mut i: usize = 0;
    while i < ds.len()
        invariant
            i <= ds@.len(),
            views(r@) == views(ds@).take(i as int).filter(|d: Seq<char>| views(dynamic@).contains(d)),
        decreases ds.len() - i,
    {
        let ghost d = ds@[i as int]@;
        proof {
            assert(views(ds@).take(i + 1) == views(ds@).take(i as int).push(d));
            views(ds@).take(i as int).lemma_filter_push(d, |d: Seq<char>| views(dynamic@).contains(d));
        }
        if holds(dynamic, ds[i].as_str()) {
            let ghost before = views(r@);
            r.push(ds[i].clone());
            assert(views(r@) =~= before.push(d));
        }
        i = i + 1;
    }
    assert(views(ds@).take(i as int) =~= views(ds@));
    r
}

/// The backend operations that `cmd` makes, in order.
pub fn domain_ops(state: &ControlState, cmd: &ControlCmd) -> (ops: Vec<DomainOp>)
    ensures
        ops@.map_values(|o: DomainOp| op_view(o)) == domain_plan(views(state.dynamic_blocked@), *cmd),
{
    let mut ops: Vec<DomainOp> = Vec::new();
    assert(ops@.map_values(|o: DomainOp| op_view(o)) =~= Seq::<(bool, Seq<char>)>::empty());
    match cmd {
        ControlCmd::Block { domains } => push_ops(&mut ops, domains, true),
        ControlCmd::Unblock { domains } => {
            let targets = dynamic_subset(domains, &state.dynamic_blocked);
            push_ops(&mut ops, &targets, false);
            assert(Seq::<(bool, Seq<char>)>::empty() + ops_on(views(targets@), false) =~= ops_on(views(targets@), false));
        },
        ControlCmd::Sync { blocked_domains, .. } => {
            push_ops(&mut ops, &state.dynamic_blocked, false);
            push_ops(&mut ops, blocked_domains, true);
        },
        ControlCmd::FocusMode { enabled, domains } => {
            if *enabled {
                push_ops(&mut ops, domains, true);
            } else {
                push_ops(&mut ops, &state.dynamic_blocked, false);
            }
        },
        _ => {},
    }
    proof {
        assert(Seq::<(bool, Seq<char>)>::empty() + ops_on(views(state.dynamic_blocked@), false)
            =~= ops_on(views(state.dynamic_blocked@), false));
        match cmd {
            ControlCmd::Block { domains } => {
                assert(Seq::<(bool, Seq<char>)>::empty() + ops_on(views(domains@), true) =~= ops_on(views(domains@), true));
            },
            ControlCmd::FocusMode { enabled, domains } => {
                assert(Seq::<(bool, Seq<char>)>::empty() + ops_on(views(domains@), true) =~= ops_on(views(domains@), true));
            },
            _ => {},
        }
    }
    ops
}

/// The domains of `ds` whose result (from `from` on in `rs`) is a success,
/// appended to `out`; and the error lines of the others, appended to `errs`.
fn collect_results(
    ds: &Vec<String>,
    rs: &Vec<Option<String>>,
    from: usize,
    out: &mut Vec<String>,
    errs: &mut Vec<String>,
)
    requires
        from + ds@.len() == rs@.len(),
    ensures
        views(final(out)@) == views(old(out)@) + succeeded(views(ds@), result_views(rs@).skip(from as int)),
        views(final(errs)@) == views(old(errs)@) + failures(views(ds@), result_views(rs@).skip(from as int)),
{
    let ghost rv = result_views(rs@).skip(from as int);
    let ghost out0 = views(out@);
    let ghost errs0 = views(errs@);
    let mut i: usize = 0;
    while i < ds.len()
        invariant
            i <= ds@.len(),
            from + ds@.len() == rs.len(),
            rv == result_views(rs@).skip(from as int),
            views(out@) == out0 + succeeded(views(ds@).take(i as int), rv),
            views(errs@) == errs0 + failures(views(ds@).take(i as int), rv),
        decreases ds.len() - i,
    {
        let ghost pre = views(ds@).take(i as int);
        let ghost cur = views(ds@).take(i + 1);
        assert(cur.drop_last() =~= pre);
        assert(cur.last() == ds@[i as int]@);
        assert(rv[i as int] == result_views(rs@)[from + i]);
        match &rs[from + i] {
            None => {
                let ghost before = views(out@);
                out.push(ds[i].clone());
                assert(views(out@) =~= before.push(ds@[i as int]@));
            },
            Some(e) => {
                let mut line = ds[i].clone();
                line.append(": ");
                line.append(e.as_str());
                let ghost before = views(errs@);
                errs.push(line);
                assert(views(errs@) =~= before.push(error_line(ds@[i as int]@, e@)));
            },
        }
        i = i + 1;
    }
    assert(views(ds@).take(i as int) =~= views(ds@));
}

/// Whether `x` is one of `items`.
fn holds(items: &Vec<String>, x: &str) -> (r: bool)
    ensures
        r == views(items@).contains(x@),
{
    let mut i: usize = 0;
    while i < items.len()
        invariant
            i <= items@.len(),
            forall|k: int| 0 <= k < i ==> items@[k]@ != x@,
        decreases items.len() - i,
    {
        if str_eq(items[i].as_str(), x) {
            assert(views(items@)[i as int] == x@);
            return true;
        }
        i = i + 1;
    }
    proof {
        if views(items@).contains(x@) {
            let k = choose|k: int| 0 <= k < views(items@).len() && views(items@)[k] == x@;
            assert(items@[k]@ == x@);
        }
    }
    false
}

/// Updates the state after `cmd`'s backend operations gave `results` (one
/// per operation of `domain_ops`), and answers: with the errors of the
/// domains that could not be blocked or unblocked, if any. Commands that make
/// no backend operation leave the state as it is and succeed.
pub fn apply_domain_results(state: &mut ControlState, cmd: &ControlCmd, results: &Vec<Option<String>>) -> (resp: ControlResp)
    requires
        results@.len() == domain_plan(views(old(state).dynamic_blocked@), *cmd).len(),
    ensures
        views(final(state).dynamic_blocked@) == dynamic_after(
            views(old(state).dynamic_blocked@),
            *cmd,
            result_views(results@),
        ),
        final(state).focus_mode == focus_after(old(state).focus_mode, *cmd),
        answers_with(resp, domain_errors(views(old(state).dynamic_blocked@), *cmd, result_views(results@))),
{
    let ghost dyn0 = views(state.dynamic_blocked@);
    let ghost rv = result_views(results@);
    let mut errs: Vec<String> = Vec::new();
    assert(views(errs@) =~= Seq::<Seq<char>>::empty());
    assert(rv.skip(0) =~= rv);
    match cmd {
        ControlCmd::Block { domains } => {
            collect_results(domains, results, 0, &mut state.dynamic_blocked, &mut errs);
            assert(views(errs@) =~= failures(views(domains@), rv));
        },
        ControlCmd::Unblock { domains } => {
            let targets = dynamic_subset(domains, &state.dynamic_blocked);
            let mut scratch: Vec<String> = Vec::new();
            collect_results(&targets, results, 0, &mut scratch, &mut errs);
            assert(views(errs@) =~= failures(views(targets@), rv));
            let mut kept: Vec<String> = Vec::new();
            let mut i: usize = 0;
            while i < state.dynamic_blocked.len()
                invariant
                    i <= state.dynamic_blocked@.len(),
                    views(state.dynamic_blocked@) == dyn0,
                    views(kept@) == dyn0.take(i as int).filter(|d: Seq<char>| !views(domains@).contains(d)),
                decreases state.dynamic_blocked.len() - i,
            {
                let ghost d = dyn0[i as int];
                proof {
                    assert(dyn0.take(i + 1) == dyn0.take(i as int).push(d));
                    dyn0.take(i as int).lemma_filter_push(d, |d: Seq<char>| !views(domains@).contains(d));
                }
                if !holds(domains, state.dynamic_blocked[i].as_str()) {
                    let ghost before = views(kept@);
                    kept.push(state.dynamic_blocked[i].clone());
                    assert(views(kept@) =~= before.push(d));
                }
                i = i + 1;
            }
            assert(dyn0.take(i as int) =~= dyn0);
            state.dynamic_blocked = kept;
        },
        ControlCmd::Sync { blocked_domains, .. } => {
            let n = state.dynamic_blocked.len();
            let mut fresh: Vec<String> = Vec::new();
            assert(views(fresh@) =~= Seq::<Seq<char>>::empty());
            collect_results(blocked_domains, results, n, &mut fresh, &mut errs);
            assert(views(errs@) =~= failures(views(blocked_domains@), rv.skip(n as int)));
            assert(views(fresh@) =~= succeeded(views(blocked_domains@), rv.skip(n as int)));
            state.dynamic_blocked = fresh;
        },
        ControlCmd::FocusMode { enabled, domains } => {
            if *enabled {
                let mut ignored: Vec<String> = Vec::new();
                collect_results(domains, results, 0, &mut state.dynamic_blocked, &mut ignored);
            } else {
                state.dynamic_blocked = Vec::new();
                assert(views(state.dynamic_blocked@) =~= Seq::<Seq<char>>::empty());
            }
            state.focus_mode = *enabled;
        },
        _ => {},
    }
    response_for(&errs)
}

/// Whether an application name is a prefix pattern: it ends with '*'.
pub open spec fn is_pattern(s: Seq<char>) -> bool {
    s.len() > 0 && s.last() == '*'
}

/// The items that are (or are not) prefix patterns.
pub open spec fn picked(items: Seq<Seq<char>>, pattern: bool) -> Set<Seq<char>> {
    Set::new(|x: Seq<char>| items.contains(x) && is_pattern(x) == pattern)
}

/// Whether `s` ends with '*'.
fn ends_with_star(s: &str) -> (r: bool)
    ensures
        r == is_pattern(s@),
{
    let v = chars_of(s);
    v.len() > 0 && v[v.len() - 1] == '*'
}

/// Adds to `set` each of `items` that is a prefix pattern (or each that is
/// not, as `pattern` says); with `all`, adds every item.
fn insert_items(set: &mut StrSet, items: &Vec<String>, all: bool, pattern: bool)
    ensures
        final(set)@.to_set() == old(set)@.to_set().union(
            if all { views(items@).to_set() } else { picked(views(items@), pattern) },
        ),
{
    let ghost target = if all { views(items@).to_set() } else { picked(views(items@), pattern) };
    let ghost start = set@.to_set();
    let mut i: usize = 0;
    while i < items.len()
        invariant
            i <= items@.len(),
            target == (if all { views(items@).to_set() } else { picked(views(items@), pattern) }),
            set@.to_set() == start.union(target.intersect(views(items@).take(i as int).to_set())),
        decreases items.len() - i,
    {
        let ghost before = set@.to_set();
        let x = &items[i];
        let take = all || ends_with_star(x.as_str()) == pattern;
        if take {
            set.insert(x.clone());
        }
        proof {
            let pre = views(items@).take(i as int);
            let post = views(items@).take(i + 1);
            assert(post =~= pre.push(x@));
            pre.lemma_push_to_set_commute(x@);
            assert(views(items@)[i as int] == x@);
            assert(views(items@).contains(x@));
            assert(set@.to_set() =~= start.union(target.intersect(post.to_set())));
        }
        i = i + 1;
    }
    proof {
        assert(views(items@).take(i as int) =~= views(items@));
        assert(target.subset_of(views(items@).to_set()));
        assert(target.intersect(views(items@).to_set()) =~= target);
    }
}

/// Removes from `set` each of `items` that is a prefix pattern (or each that
/// is not, as `pattern` says); with `all`, removes every item.
fn remove_items(set: &mut StrSet, items: &Vec<String>, all: bool, pattern: bool)
    ensures
        final(set)@.to_set() == old(set)@.to_set().difference(
            if all { views(items@).to_set() } else { picked(views(items@), pattern) },
        ),
{
    let ghost target = if all { views(items@).to_set() } else { picked(views(items@), pattern) };
    let ghost start = set@.to_set();
    let mut i: usize = 0;
    while i < items.len()
        invariant
            i <= items@.len(),
            target == (if all { views(items@).to_set() } else { picked(views(items@), pattern) }),
            set@.to_set() == start.difference(target.intersect(views(items@).take(i as int).to_set())),
        decreases items.len() - i,
    {
        let x = &items[i];
        let take = all || ends_with_star(x.as_str()) == pattern;
        if take {
            set.remove(x.as_str());
        }
        proof {
            let pre = views(items@).take(i as int);
            let post = views(items@).take(i + 1);
            assert(post =~= pre.push(x@));
            pre.lemma_push_to_set_commute(x@);
            assert(views(items@)[i as int] == x@);
            assert(views(items@).contains(x@));
            assert(set@.to_set() =~= start.difference(target.intersect(post.to_set())));
        }
        i = i + 1;
    }
    proof {
        assert(views(items@).take(i as int) =~= views(items@));
        assert(target.subset_of(views(items@).to_set()));
        assert(target.intersect(views(items@).to_set()) =~= target);
    }
}

/// The blocked paths and names after an application command, for the set
/// whose names hold prefix patterns too: each command adds its paths and
/// names to those sets or removes them; `Sync` clears every application
/// block (paths and names) and then blocks the names it gives.
pub open spec fn apps_after(paths: Set<Seq<char>>, names: Set<Seq<char>>, cmd: ControlCmd) -> (
    Set<Seq<char>>,
    Set<Seq<char>>,
) {
    match cmd {
        ControlCmd::BlockApp { paths: ps, names: ns } => (
            paths.union(views(ps@).to_set()),
            names.union(views(ns@).to_set()),
        ),
        ControlCmd::UnblockApp { paths: ps, names: ns } => (
            paths.difference(views(ps@).to_set()),
            names.difference(views(ns@).to_set()),
        ),
        ControlCmd::BlockApps { apps } => (paths, names.union(views(apps@).to_set())),
        ControlCmd::UnblockApps { apps } => (paths, names.difference(views(apps@).to_set())),
        ControlCmd::Sync { blocked_domains, blocked_apps } => (Set::empty(), views(blocked_apps@).to_set()),
        _ => (paths, names),
    }
}

/// The blocked paths, names and patterns after an application command, for
/// the set that keeps prefix patterns apart: a name that ends with '*' goes
/// to (or leaves) the patterns, any other name the names. `Sync` clears
/// every application block and then blocks the names it gives.
pub open spec fn apps_after_split(
    paths: Set<Seq<char>>,
    names: Set<Seq<char>>,
    patterns: Set<Seq<char>>,
    cmd: ControlCmd,
) -> (Set<Seq<char>>, Set<Seq<char>>, Set<Seq<char>>) {
    match cmd {
        ControlCmd::BlockApp { paths: ps, names: ns } => (
            paths.union(views(ps@).to_set()),
            names.union(picked(views(ns@), false)),
            patterns.union(picked(views(ns@), true)),
        ),
        ControlCmd::UnblockApp { paths: ps, names: ns } => (
            paths.difference(views(ps@).to_set()),
            names.difference(picked(views(ns@), false)),
            patterns.difference(picked(views(ns@), true)),
        ),
        ControlCmd::BlockApps { apps } => (
            paths,
            names.union(picked(views(apps@), false)),
            patterns.union(picked(views(apps@), true)),
        ),
        ControlCmd::UnblockApps { apps } => (
            paths,
            names.difference(picked(views(apps@), false)),
            patterns.difference(picked(views(apps@), true)),
        ),
        ControlCmd::Sync { blocked_domains, blocked_apps } => (
            Set::empty(),
            picked(views(blocked_apps@), false),
            picked(views(blocked_apps@), true),
        ),
        _ => (paths, names, patterns),
    }
}

/// Carries out an application command on the exec-permission blocker's set;
/// application commands always succeed.
pub fn apply_app_cmd_linux(set: &mut app_blocker::BlockedSet, cmd: &ControlCmd) -> (resp: ControlResp)
    ensures
        answers_with(resp, Seq::empty()),
        (final(set).paths@.to_set(), final(set).names@.to_set()) == apps_after(
            old(set).paths@.to_set(),
            old(set).names@.to_set(),
            *cmd,
        ),
{
    match cmd {
        ControlCmd::BlockApp { paths, names } => {
            insert_items(&mut set.paths, paths, true, false);
            insert_items(&mut set.names, names, true, false);
        },
        ControlCmd::UnblockApp { paths, names } => {
            remove_items(&mut set.paths, paths, true, false);
            remove_items(&mut set.names, names, true, false);
        },
        ControlCmd::BlockApps { apps } => {
            insert_items(&mut set.names, apps, true, false);
        },
        ControlCmd::UnblockApps { apps } => {
            remove_items(&mut set.names, apps, true, false);
        },
        ControlCmd::Sync { blocked_apps, .. } => {
            set.paths.clear();
            set.names.clear();
            insert_items(&mut set.names, blocked_apps, true, false);
            assert(Seq::<Seq<char>>::empty().to_set() =~= Set::<Seq<char>>::empty());
            assert(Seq::<Seq<char>>::empty().to_set().union(views(blocked_apps@).to_set()) =~= views(blocked_apps@).to_set());
        },
        _ => {},
    }
    ControlResp { ok: true, error: None, status: None }
}

/// Carries out an application command on the process-polling blocker's set;
/// application commands always succeed.
pub fn apply_app_cmd_macos(set: &mut app_watcher::BlockedSet, cmd: &ControlCmd) -> (resp: ControlResp)
    ensures
        answers_with(resp, Seq::empty()),
        (final(set).paths@.to_set(), final(set).names@.to_set(), final(set).patterns@.to_set())
            == apps_after_split(
            old(set).paths@.to_set(),
            old(set).names@.to_set(),
            old(set).patterns@.to_set(),
            *cmd,
        ),
{
    match cmd {
        ControlCmd::BlockApp { paths, names } => {
            insert_items(&mut set.paths, paths, true, false);
            insert_items(&mut set.names, names, false, false);
            insert_items(&mut set.patterns, names, false, true);
        },
        ControlCmd::UnblockApp { paths, names } => {
            remove_items(&mut set.paths, paths, true, false);
            remove_items(&mut set.names, names, false, false);
            remove_items(&mut set.patterns, names, false, true);
        },
        ControlCmd::BlockApps { apps } => {
            insert_items(&mut set.names, apps, false, false);
            insert_items(&mut set.patterns, apps, false, true);
        },
        ControlCmd::UnblockApps { apps } => {
            remove_items(&mut set.names, apps, false, false);
            remove_items(&mut set.patterns, apps, false, true);
        },
        ControlCmd::Sync { blocked_apps, .. } => {
            set.paths.clear();
            set.names.clear();
            set.patterns.clear();
            assert(Seq::<Seq<char>>::empty().to_set() =~= Set::<Seq<char>>::empty());
            insert_items(&mut set.names, blocked_apps, false, false);
            insert_items(&mut set.patterns, blocked_apps, false, true);
            assert(Seq::<Seq<char>>::empty().to_set().union(picked(views(blocked_apps@), false))
                =~= picked(views(blocked_apps@), false));
            assert(Seq::<Seq<char>>::empty().to_set().union(picked(views(blocked_apps@), true))
                =~= picked(views(blocked_apps@), true));
        },
        _ => {},
    }
    ControlResp { ok: true, error: None, status: None }
}

/// A copy of a list of strings.
fn copy_strings(v: &Vec<String>) -> (c: Vec<String>)
    ensures
        views(c@) == views(v@),
{
    let mut c: Vec<String> = Vec::new();
    let mut i: usize = 0;
    while i < v.len()
        invariant
            i <= v@.len(),
            views(c@) == views(v@).take(i as int),
        decreases v.len() - i,
    {
        let ghost before = views(c@);
        c.push(v[i].clone());
        assert(views(c@) =~= before.push(v@[i as int]@));
        assert(views(v@).take(i + 1) =~= views(v@).take(i as int).push(v@[i as int]@));
        i = i + 1;
    }
    assert(views(v@).take(i as int) =~= views(v@));
    c
}

/// `p` reports the interface state, these blocked paths and the frozen names
/// of `freezer`, the uptime and the platform.
pub open spec fn reports(
    p: StatusPayload,
    state: ControlState,
    paths: Seq<Seq<char>>,
    freezer: FreezerState,
    uptime_seconds: u64,
    platform: Seq<char>,
) -> bool {
    &&& p.focus_mode == state.focus_mode
    &&& views(p.dynamic_blocked@) == views(state.dynamic_blocked@)
    &&& views(p.blocked_domains@) == views(state.dynamic_blocked@)
    &&& views(p.blocked_apps.paths@) == paths
    &&& sorted(views(p.frozen_apps@))
    &&& views(p.frozen_apps@).to_set() == freezer.frozen@.dom()
    &&& p.uptime_seconds == uptime_seconds
    &&& p.platform@ == platform
}

/// The answer to `Status` on Linux: the blocked paths and names in
/// ascending order.
pub fn status_linux(
    state: &ControlState,
    apps: &app_blocker::BlockedSet,
    freezer: &FreezerState,
    uptime_seconds: u64,
) -> (resp: ControlResp)
    ensures
        resp.ok,
        resp.error is None,
        resp.status matches Some(p) && reports(p, *state, apps.paths@, *freezer, uptime_seconds, "linux/ebpf"@)
            && views(p.blocked_apps.names@) == apps.names@,
{
    let payload = StatusPayload {
        focus_mode: state.focus_mode,
        dynamic_blocked: copy_strings(&state.dynamic_blocked),
        blocked_domains: copy_strings(&state.dynamic_blocked),
        blocked_apps: BlockedAppsPayload { paths: apps.paths.sorted_vec(), names: apps.names.sorted_vec() },
        frozen_apps: freezer.frozen_names(),
        uptime_seconds,
        platform: String::from_str("linux/ebpf"),
    };
    ControlResp { ok: true, error: None, status: Some(payload) }
}

/// The answer to `Status` on macOS: the blocked paths in ascending order,
/// and the names and prefix patterns together in ascending order.
pub fn status_macos(
    state: &ControlState,
    apps: &app_watcher::BlockedSet,
    freezer: &FreezerState,
    uptime_seconds: u64,
) -> (resp: ControlResp)
    ensures
        resp.ok,
        resp.error is None,
        resp.status matches Some(p) && reports(p, *state, apps.paths@, *freezer, uptime_seconds, "macos/pf"@)
            && sorted(views(p.blocked_apps.names@)) && views(p.blocked_apps.names@).to_set()
            == apps.names@.to_set().union(apps.patterns@.to_set()),
{
    let mut all = StrSet::new();
    let names = apps.names.sorted_vec();
    let patterns = apps.patterns.sorted_vec();
    assert(Seq::<Seq<char>>::empty().to_set() =~= Set::<Seq<char>>::empty());
    insert_items(&mut all, &names, true, false);
    insert_items(&mut all, &patterns, true, false);
    assert(all@.to_set() =~= apps.names@.to_set().union(apps.patterns@.to_set()));
    let payload = StatusPayload {
        focus_mode: state.focus_mode,
        dynamic_blocked: copy_strings(&state.dynamic_blocked),
        blocked_domains: copy_strings(&state.dynamic_blocked),
        blocked_apps: BlockedAppsPayload { paths: apps.paths.sorted_vec(), names: all.sorted_vec() },
        frozen_apps: freezer.frozen_names(),
        uptime_seconds,
        platform: String::from_str("macos/pf"),
    };
    ControlResp { ok: true, error: None, status: Some(payload) }
}

/// The error lines of a freeze: one for each name that was neither frozen
/// already nor matched by any process (`outcomes` holds, per name, the number
/// of processes stopped and whether it was frozen already).
pub open spec fn freeze_errors(names: Seq<Seq<char>>, outcomes: Seq<(usize, bool)>) -> Seq<Seq<char>>
    decreases names.len(),
{
    if names.len() == 0 {
        Seq::empty()
    } else {
        let rest = freeze_errors(names.drop_last(), outcomes);
        let (count, already) = outcomes[names.len() - 1];
        if !already && count == 0 {
            rest.push(names.last() + ": no matching process found"@)
        } else {
            rest
        }
    }
}

/// The answer to `FreezeApp`, from what freezing each name gave.
pub fn freeze_response(names: &Vec<String>, outcomes: &Vec<(usize, bool)>) -> (resp: ControlResp)
    requires
        outcomes@.len() == names@.len(),
    ensures
        answers_with(resp, freeze_errors(views(names@), outcomes@)),
{
    let mut errs: Vec<String> = Vec::new();
    let mut i: usize = 0;
    assert(views(errs@) =~= Seq::<Seq<char>>::empty());
    while i < names.len()
        invariant
            i <= names@.len(),
            outcomes@.len() == names@.len(),
            views(errs@) == freeze_errors(views(names@).take(i as int), outcomes@),
        decreases names.len() - i,
    {
        let ghost cur = views(names@).take(i + 1);
        assert(cur.drop_last() =~= views(names@).take(i as int));
        assert(cur.last() == names@[i as int]@);
        let (count, already) = outcomes[i];
        if !already && count == 0 {
            let mut line = names[i].clone();
            line.append(": no matching process found");
            let ghost before = views(errs@);
            errs.push(line);
            assert(views(errs@) =~= before.push(names@[i as int]@ + ": no matching process found"@));
        }
        i = i + 1;
    }
    assert(views(names@).take(i as int) =~= views(names@));
    response_for(&errs)
}

/// The error lines of a thaw: one for each name that was not frozen.
pub open spec fn thaw_errors(names: Seq<Seq<char>>, found: Seq<bool>) -> Seq<Seq<char>>
    decreases names.len(),
{
    if names.len() == 0 {
        Seq::empty()
    } else {
        let rest = thaw_errors(names.drop_last(), found);
        if !found[names.len() - 1] {
            rest.push(names.last() + ": not in frozen list"@)
        } else {
            rest
        }
    }
}

/// The answer to `ThawApp`, from whether each name was frozen.
pub fn thaw_response(names: &Vec<String>, found: &Vec<bool>) -> (resp: ControlResp)
    requires
        found@.len() == names@.len(),
    ensures
        answers_with(resp, thaw_errors(views(names@), found@)),
{
    let mut errs: Vec<String> = Vec::new();
    let mut i: usize = 0;
    assert(views(errs@) =~= Seq::<Seq<char>>::empty());
    while i < names.len()
        invariant
            i <= names@.len(),
            found@.len() == names@.len(),
            views(errs@) == thaw_errors(views(names@).take(i as int), found@),
        decreases names.len() - i,
    {
        let ghost cur = views(names@).take(i + 1);
        assert(cur.drop_last() =~= views(names@).take(i as int));
        assert(cur.last() == names@[i as int]@);
        if !found[i] {
            let mut line = names[i].clone();
            line.append(": not in frozen list");
            let ghost before = views(errs@);
            errs.push(line);
            assert(views(errs@) =~= before.push(names@[i as int]@ + ": not in frozen list"@));
        }
        i = i + 1;
    }
    assert(views(names@).take(i as int) =~= views(names@));
    response_for(&errs)
}

/// Every domain that succeeded is one of the command's domains.
proof fn lemma_succeeded_within(ds: Seq<Seq<char>>, rs: Seq<Option<Seq<char>>>)
    ensures
        forall|x: Seq<char>| #[trigger] succeeded(ds, rs).contains(x) ==> ds.contains(x),
    decreases ds.len(),
{
    if ds.len() > 0 {
        lemma_succeeded_within(ds.drop_last(), rs);
        let rest = succeeded(ds.drop_last(), rs);
        assert forall|x: Seq<char>| #[trigger] succeeded(ds, rs).contains(x) implies ds.contains(x) by {
            let k = choose|k: int| 0 <= k < succeeded(ds, rs).len() && succeeded(ds, rs)[k] == x;
            if k < rest.len() {
                assert(succeeded(ds, rs)[k] == rest[k]);
                assert(rest.contains(x));
                let m = choose|m: int| 0 <= m < ds.drop_last().len() && ds.drop_last()[m] == x;
                assert(ds[m] == x);
            } else {
                assert(ds[ds.len() - 1] == x);
            }
        }
    }
}

/// When no operation failed, every domain succeeded and none failed.
pub proof fn lemma_all_succeeded(ds: Seq<Seq<char>>, rs: Seq<Option<Seq<char>>>)
    requires
        rs.len() >= ds.len(),
        forall|i: int| 0 <= i < rs.len() ==> rs[i] is None,
    ensures
        succeeded(ds, rs) == ds,
        failures(ds, rs) == Seq::<Seq<char>>::empty(),
    decreases ds.len(),
{
    if ds.len() > 0 {
        lemma_all_succeeded(ds.drop_last(), rs);
        assert(ds.drop_last().push(ds.last()) =~= ds);
    }
}

/// Unblocking the domains that a `Block` added takes the list back to what
/// it was without them: whatever the backend answered, no domain of the
/// command stays in the list.
pub proof fn lemma_unblock_undoes_block(
    dynamic: Seq<Seq<char>>,
    block: ControlCmd,
    unblock: ControlCmd,
    rs1: Seq<Option<Seq<char>>>,
    rs2: Seq<Option<Seq<char>>>,
)
    requires
        block matches ControlCmd::Block { domains: a } && unblock matches ControlCmd::Unblock { domains: b }
            && views(a@) == views(b@),
    ensures
        dynamic_after(dynamic_after(dynamic, block, rs1), unblock, rs2) == dynamic_after(dynamic, unblock, rs2),
{
    if let ControlCmd::Block { domains: a } = block {
        if let ControlCmd::Unblock { domains: b } = unblock {
            let ds = views(b@);
            let pred = |d: Seq<char>| !ds.contains(d);
            let added = succeeded(views(a@), rs1);
            Seq::filter_distributes_over_add(dynamic, added, pred);
            lemma_succeeded_within(views(a@), rs1);
            assert(added.all(|x: Seq<char>| !pred(x))) by {
                assert forall|i: int| 0 <= i < added.len() implies !pred(#[trigger] added[i]) by {
                    assert(added.contains(added[i]));
                }
            }
            added.lemma_all_neg_filter_empty(pred);
            assert(added.filter(pred) =~= Seq::<Seq<char>>::empty());
            assert(dynamic.filter(pred) + Seq::<Seq<char>>::empty() =~= dynamic.filter(pred));
        }
    }
}

/// A `Sync` whose additions all succeed leaves exactly its domains blocked,
/// whatever was blocked before, and reports no error.
pub proof fn lemma_sync_replaces(dynamic: Seq<Seq<char>>, sync: ControlCmd, rs: Seq<Option<Seq<char>>>)
    requires
        sync matches ControlCmd::Sync { blocked_domains: d, blocked_apps: _ } && rs.len() == domain_plan(
            dynamic,
            sync,
        ).len(),
        forall|i: int| dynamic.len() <= i < rs.len() ==> rs[i] is None,
    ensures
        sync matches ControlCmd::Sync { blocked_domains: d, blocked_apps: _ } && dynamic_after(dynamic, sync, rs)
            == views(d@),
        domain_errors(dynamic, sync, rs).len() == 0,
{
    if let ControlCmd::Sync { blocked_domains: d, blocked_apps: _ } = sync {
        let tail = rs.skip(dynamic.len() as int);
        assert(tail.len() == views(d@).len());
        assert forall|i: int| 0 <= i < tail.len() implies tail[i] is None by {
            assert(tail[i] == rs[dynamic.len() + i]);
        }
        lemma_all_succeeded(views(d@), tail);
    }
}

/// Turning focus mode off unblocks every domain blocked through the
/// interface.
pub proof fn lemma_focus_off_clears(dynamic: Seq<Seq<char>>, off: ControlCmd, rs: Seq<Option<Seq<char>>>)
    requires
        off matches ControlCmd::FocusMode { enabled: false, domains: _ },
    ensures
        dynamic_after(dynamic, off, rs).len() == 0,
        !focus_after(true, off),
        domain_plan(dynamic, off) == ops_on(dynamic, false),
{
}

/// Commands remove from the backend only domains that were blocked through
/// the interface: the domains blocked from the start stay blocked.
pub proof fn lemma_removals_only_dynamic(dynamic: Seq<Seq<char>>, cmd: ControlCmd)
    ensures
        forall|i: int|
            0 <= i < domain_plan(dynamic, cmd).len() && !(#[trigger] domain_plan(dynamic, cmd)[i]).0
                ==> dynamic.contains(domain_plan(dynamic, cmd)[i].1),
{
    let plan = domain_plan(dynamic, cmd);
    assert forall|i: int| 0 <= i < plan.len() && !(#[trigger] plan[i]).0 implies dynamic.contains(plan[i].1) by {
        match cmd {
            ControlCmd::Unblock { domains } => {
                let ds = views(domains@);
                let pred = |d: Seq<char>| dynamic.contains(d);
                assert(plan[i].1 == ds.filter(pred)[i]);
                ds.lemma_filter_pred(pred, i);
            },
            ControlCmd::Sync { blocked_domains, blocked_apps } => {
                if i < dynamic.len() {
                    assert(plan[i] == ops_on(dynamic, false)[i]);
                    assert(dynamic[i] == plan[i].1);
                } else {
                    assert(plan[i] == ops_on(views(blocked_domains@), true)[i - dynamic.len()]);
                }
            },
            ControlCmd::FocusMode { enabled, domains } => {
                if !enabled {
                    assert(dynamic[i] == plan[i].1);
                }
            },
            _ => {},
        }
    }
}

/// Both application blockers treat paths alike: after any command the
/// blocked paths of the set that keeps prefix patterns apart are those of
/// the set that does not.
pub proof fn lemma_app_paths_agree(
    paths: Set<Seq<char>>,
    names: Set<Seq<char>>,
    patterns: Set<Seq<char>>,
    cmd: ControlCmd,
)
    ensures
        apps_after_split(paths, names, patterns, cmd).0 == apps_after(paths, names, cmd).0,
{
}

/// `BlockApp` on the process-polling blocker's set blocks every path it
/// gives: the blocked paths become the old ones together with the
/// command's, and a process whose executable is one of them is blocked
/// whatever its name.
pub proof fn lemma_block_app_blocks_paths(
    old_paths: Seq<Seq<char>>,
    old_names: Seq<Seq<char>>,
    old_patterns: Seq<Seq<char>>,
    new_paths: Seq<Seq<char>>,
    new_names: Seq<Seq<char>>,
    new_patterns: Seq<Seq<char>>,
    cmd: ControlCmd,
    comm: Seq<char>,
)
    requires
        cmd is BlockApp,
        (new_paths.to_set(), new_names.to_set(), new_patterns.to_set()) == apps_after_split(
            old_paths.to_set(),
            old_names.to_set(),
            old_patterns.to_set(),
            cmd,
        ),
    ensures
        cmd matches ControlCmd::BlockApp { paths: ps, names: _ } && new_paths.to_set() == old_paths.to_set().union(
            views(ps@).to_set(),
        ) && forall|i: int|
            0 <= i < ps@.len() ==> app_watcher::is_blocked_spec(
                new_paths,
                new_names,
                new_patterns,
                #[trigger] ps@[i]@,
                comm,
            ),
{
    if let ControlCmd::BlockApp { paths: ps, names: _ } = cmd {
        assert forall|i: int| 0 <= i < ps@.len() implies app_watcher::is_blocked_spec(
            new_paths,
            new_names,
            new_patterns,
            #[trigger] ps@[i]@,
            comm,
        ) by {
            assert(views(ps@)[i] == ps@[i]@);
            assert(views(ps@).contains(ps@[i]@));
            assert(views(ps@).to_set().contains(ps@[i]@));
            assert(new_paths.to_set().contains(ps@[i]@));
        }
    }
}

} // verus!
