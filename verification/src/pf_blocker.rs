//! Domain blocking through a marked block of entries in the hosts file.
//!
//! The blocked domains are kept in a set; the hosts file text is computed from
//! its current content and that set. Reading and writing the file is left to
//! the caller.
use vstd::prelude::*;
use crate::strset::{StrSet, views, sorted};
use crate::text::{chars_of, chars_eq, string_of_range, trim_end, trim_end_len, has_prefix,
    starts_with, lines, lemma_nl_index_is, lemma_nl_index_bounds, nl_index, strip_cr, is_space};

verus! {

/// The line that opens the block of entries this program owns.
pub open spec fn marker_start() -> Seq<char> {
    "# BEGIN antidistractor"@
}

/// The line that closes the block of entries this program owns.
pub open spec fn marker_end() -> Seq<char> {
    "# END antidistractor"@
}

/// The lines that lie outside every marked block; `in_block` tells whether
/// the first line lies inside one.
pub open spec fn kept(ls: Seq<Seq<char>>, in_block: bool) -> Seq<Seq<char>>
    decreases ls.len(),
{
    if ls.len() == 0 {
        Seq::empty()
    } else if ls[0] == marker_start() {
        kept(ls.drop_first(), true)
    } else if ls[0] == marker_end() {
        kept(ls.drop_first(), false)
    } else if in_block {
        kept(ls.drop_first(), true)
    } else {
        seq![ls[0]] + kept(ls.drop_first(), false)
    }
}

/// The lines joined with newlines between them.
pub open spec fn join_lines(ls: Seq<Seq<char>>) -> Seq<char>
    decreases ls.len(),
{
    if ls.len() == 0 {
        Seq::empty()
    } else if ls.len() == 1 {
        ls[0]
    } else {
        join_lines(ls.drop_last()) + seq!['\n'] + ls.last()
    }
}

/// The hosts file text without the marked block: its other lines, joined.
pub open spec fn without_block(content: Seq<char>) -> Seq<char> {
    join_lines(kept(lines(content), false))
}

/// Removes the marked block (and its marker lines) from hosts file content.
pub fn remove_hosts_block(content: &str) -> (res: String)
    ensures
        res@ == without_block(content@),
{
    let v = chars_of(content);
    let start_marker = chars_of("# BEGIN antidistractor");
    let end_marker = chars_of("# END antidistractor");
    let n = v.len();
    let mut out = String::new();
    let mut first = true;
    let mut in_block = false;
    let mut start: usize = 0;
    let ghost mut done: Seq<Seq<char>> = Seq::empty();
    assert(v@.skip(0) =~= v@);
    while start < n
        invariant
            n == v@.len(),
            start <= n,
            start_marker@ == marker_start(),
            end_marker@ == marker_end(),
            kept(lines(v@), false) == done + kept(lines(v@.skip(start as int)), in_block),
            out@ == join_lines(done),
            first == (done.len() == 0),
        decreases n - start,
    {
        let mut j = start;
        while j < n && v[j] != '\n'
            invariant
                start <= j <= n,
                n == v@.len(),
                forall|k: int| start <= k < j ==> v@[k] != '\n',
            decreases n - j,
        {
            j = j + 1;
        }
        let ghost rest = v@.skip(start as int);
        proof {
            lemma_nl_index_is(rest, j - start);
        }
        let mut line_end = j;
        if j < n && j > start && v[j - 1] == '\r' {
            line_end = j - 1;
        }
        let line = string_of_range(v.as_slice(), start, line_end);
        let lv = chars_of(line.as_str());
        proof {
            if j < n {
                assert(rest.take(j - start) =~= v@.subrange(start as int, j as int));
                assert(rest.skip(j - start + 1) =~= v@.skip(j + 1));
                assert(lines(rest) == seq![strip_cr(rest.take(j - start))] + lines(rest.skip(j - start + 1)));
                assert(strip_cr(rest.take(j - start)) =~= lv@);
            } else {
                assert(rest =~= lv@);
                assert(v@.skip(n as int) =~= Seq::<char>::empty());
                assert(lines(rest) == seq![rest]);
            }
        }
        let ghost next_start: int = if j < n { j + 1 } else { n as int };
        let ghost ls = lines(rest);
        assert(ls[0] == lv@);
        assert(ls.drop_first() == lines(v@.skip(next_start))) by {
            if j < n {
                assert((seq![lv@] + lines(v@.skip(j + 1))).drop_first() =~= lines(v@.skip(j + 1)));
            } else {
                assert(seq![lv@].drop_first() =~= Seq::<Seq<char>>::empty());
            }
        }
        if chars_eq(lv.as_slice(), start_marker.as_slice()) {
            in_block = true;
        } else if chars_eq(lv.as_slice(), end_marker.as_slice()) {
            in_block = false;
        } else if !in_block {
            proof {
                assert(done.push(lv@) + kept(ls.drop_first(), false) =~= done + (seq![lv@] + kept(ls.drop_first(), false)));
                if done.len() > 0 {
                    assert(done.push(lv@).drop_last() =~= done);
                }
                done = done.push(lv@);
            }
            if !first {
                crate::text::push_char(&mut out, '\n');
            }
            out.append(line.as_str());
            first = false;
        }
        start = if j < n { j + 1 } else { n };
    }
    assert(v@.skip(n as int) =~= Seq::<char>::empty());
    assert(done + Seq::<Seq<char>>::empty() =~= done);
    out
}

/// The entry lines for the given domains: each maps to the IPv4 and the IPv6
/// loopback address.
pub open spec fn entry_lines(ds: Seq<Seq<char>>) -> Seq<char>
    decreases ds.len(),
{
    if ds.len() == 0 {
        Seq::empty()
    } else {
        entry_lines(ds.drop_last()) + "127.0.0.1 "@ + ds.last() + seq!['\n'] + "::1 "@
            + ds.last() + seq!['\n']
    }
}

/// The marked block for the given domains; empty when there is none.
pub open spec fn hosts_block(ds: Seq<Seq<char>>) -> Seq<char> {
    if ds.len() == 0 {
        Seq::empty()
    } else {
        marker_start() + seq!['\n'] + entry_lines(ds) + marker_end() + seq!['\n']
    }
}

/// The hosts file text after an update: the other lines without trailing
/// whitespace, a newline, then the block for `ds`.
pub open spec fn updated_hosts(content: Seq<char>, ds: Seq<Seq<char>>) -> Seq<char> {
    trim_end(without_block(content)) + seq!['\n'] + hosts_block(ds)
}

/// A network blocker that maps blocked domains to the loopback address in the
/// hosts file.
pub struct PfBlocker {
    /// The blocked domains.
    pub blocked_domains: StrSet,
}

impl PfBlocker {
    /// A blocker with no blocked domain.
    pub fn new() -> (b: PfBlocker)
        ensures
            b.blocked_domains@ == Seq::<Seq<char>>::empty(),
    {
        PfBlocker { blocked_domains: StrSet::new() }
    }

    /// Prepares blocking: gives the hosts text to write in place of
    /// `current_hosts` so that no stale block from an earlier run is left,
    /// only the block for the current domains (none, for a new blocker). It
    /// always succeeds; the caller writes the text, and a failure to write is
    /// only a warning.
    pub fn enable(&self, current_hosts: &str) -> (r: Result<String, String>)
        ensures
            r matches Ok(t) && t@ == updated_hosts(current_hosts@, self.blocked_domains@),
    {
        Ok(self.hosts_content(current_hosts))
    }

    /// A new blocker, prepared by `enable`: the blocker and the cleaned hosts
    /// text.
    pub fn new_and_enable(current_hosts: &str) -> (r: Result<(PfBlocker, String), String>)
        ensures
            r matches Ok((b, t)) && b.blocked_domains@ == Seq::<Seq<char>>::empty() && t@ == updated_hosts(
                current_hosts@,
                Seq::empty(),
            ),
    {
        let blocker = PfBlocker::new();
        match blocker.enable(current_hosts) {
            Ok(cleaned) => Ok((blocker, cleaned)),
            Err(e) => Err(e),
        }
    }

    /// Stops blocking every domain. The hosts file is then rewritten from
    /// `hosts_content`, which no longer holds a block.
    pub fn disable(&mut self)
        ensures
            final(self).blocked_domains@ == Seq::<Seq<char>>::empty(),
    {
        self.blocked_domains.clear();
    }

    /// Blocks `domain`; returns whether the set changed, so that the hosts
    /// file must be rewritten. A suffix key (one that starts with '.') is
    /// ignored: the hosts file has no wildcard entries.
    pub fn add_domain(&mut self, domain: &str) -> (changed: bool)
        ensures
            has_prefix(domain@, seq!['.']) ==> !changed && final(self).blocked_domains@
                == old(self).blocked_domains@,
            !has_prefix(domain@, seq!['.']) ==> {
                &&& changed == !old(self).blocked_domains@.contains(domain@)
                &&& final(self).blocked_domains@.to_set() == old(self).blocked_domains@.to_set().insert(domain@)
            },
    {
        let v = chars_of(domain);
        let dot = chars_of(".");
        proof { reveal_strlit("."); }
        assert(dot@ == seq!['.']);
        if starts_with(v.as_slice(), dot.as_slice()) {
            return false;
        }
        let d = String::from_str(domain);
        self.blocked_domains.insert(d)
    }

    /// Unblocks `domain`; returns whether it was blocked, so that the hosts
    /// file must be rewritten.
    pub fn remove_domain(&mut self, domain: &str) -> (changed: bool)
        ensures
            changed == old(self).blocked_domains@.contains(domain@),
            final(self).blocked_domains@.to_set() == old(self).blocked_domains@.to_set().remove(domain@),
    {
        self.blocked_domains.remove(domain)
    }

    /// The blocked domains, in ascending order.
    pub fn blocked_domains(&self) -> (v: Vec<String>)
        ensures
            views(v@) == self.blocked_domains@,
            sorted(views(v@)),
    {
        self.blocked_domains.sorted_vec()
    }

    /// DNS results need no refreshing: the hosts file names domains, not
    /// addresses. Kept as a no-op.
    pub fn start_dns_refresh_task(&self) {
    }

    /// The hosts file text that blocks exactly the current domains, given the
    /// file's current text.
    pub fn hosts_content(&self, current: &str) -> (res: String)
        ensures
            res@ == updated_hosts(current@, self.blocked_domains@),
    {
        let cleaned = remove_hosts_block(current);
        let cv = chars_of(cleaned.as_str());
        let n = trim_end_len(cv.as_slice());
        let mut out = string_of_range(cv.as_slice(), 0, n);
        crate::text::push_char(&mut out, '\n');
        let ds = self.blocked_domains.sorted_vec();
        if ds.len() == 0 {
            assert(hosts_block(self.blocked_domains@) =~= Seq::<char>::empty());
            assert(out@ + Seq::<char>::empty() =~= out@);
            return out;
        }
        let ghost head = out@;
        out.append("# BEGIN antidistractor");
        crate::text::push_char(&mut out, '\n');
        let ghost mid = out@;
        let mut i: usize = 0;
        assert(views(ds@).subrange(0, 0) =~= Seq::<Seq<char>>::empty());
        while i < ds.len()
            invariant
                i <= ds@.len(),
                out@ == mid + entry_lines(views(ds@).subrange(0, i as int)),
            decreases ds.len() - i,
        {
            out.append("127.0.0.1 ");
            out.append(ds[i].as_str());
            crate::text::push_char(&mut out, '\n');
            out.append("::1 ");
            out.append(ds[i].as_str());
            crate::text::push_char(&mut out, '\n');
            proof {
                let sub = views(ds@).subrange(0, i + 1);
                assert(sub.drop_last() =~= views(ds@).subrange(0, i as int));
                assert(sub.last() == ds@[i as int]@);
            }
            i = i + 1;
        }
        assert(views(ds@).subrange(0, i as int) =~= views(ds@));
        out.append("# END antidistractor");
        crate::text::push_char(&mut out, '\n');
        assert(out@ =~= head + hosts_block(self.blocked_domains@));
        out
    }
}

impl Default for PfBlocker {
    fn default() -> (b: PfBlocker)
        ensures
            b.blocked_domains@ == Seq::<Seq<char>>::empty(),
    {
        PfBlocker::new()
    }
}

/// The pieces of `s` between its newlines, as they stand (one more than
/// there are newlines).
pub open spec fn pieces(s: Seq<char>) -> Seq<Seq<char>>
    decreases s.len(),
{
    let k = nl_index(s);
    if k >= s.len() {
        seq![s]
    } else {
        proof {
            lemma_nl_index_bounds(s);
        }
        seq![s.take(k)] + pieces(s.skip(k + 1))
    }
}

/// A line that the hosts rewrite leaves alone: neither marker, and not
/// ending with a carriage return.
pub open spec fn plain_line(l: Seq<char>) -> bool {
    l != marker_start() && l != marker_end() && !(l.len() > 0 && l.last() == '\r')
}

/// No line of `ls` is a marker.
pub open spec fn no_marker(ls: Seq<Seq<char>>) -> bool {
    forall|i: int| 0 <= i < ls.len() ==> (#[trigger] ls[i]) != marker_start() && ls[i] != marker_end()
}

/// Where the first newline of `a + b` lies.
proof fn lemma_nl_index_concat(a: Seq<char>, b: Seq<char>)
    ensures
        nl_index(a) < a.len() ==> nl_index(a + b) == nl_index(a),
        nl_index(a) >= a.len() ==> nl_index(a + b) == a.len() + nl_index(b),
{
    lemma_nl_index_bounds(a);
    lemma_nl_index_bounds(b);
    let s = a + b;
    if nl_index(a) < a.len() {
        let j = nl_index(a);
        assert forall|k: int| 0 <= k < j implies s[k] != '\n' by {
            assert(s[k] == a[k]);
        }
        assert(s[j] == a[j]);
        lemma_nl_index_is(s, j);
    } else {
        let j = a.len() + nl_index(b);
        assert forall|k: int| 0 <= k < j implies s[k] != '\n' by {
            if k < a.len() {
                assert(s[k] == a[k]);
            } else {
                assert(s[k] == b[k - a.len()]);
            }
        }
        if j < s.len() {
            assert(s[j] == b[nl_index(b)]);
        }
        lemma_nl_index_is(s, j);
    }
}

/// The lines of `r`, a newline and `x` are the pieces of `r` followed by the
/// lines of `x`, when no piece of `r` ends with a carriage return.
proof fn lemma_lines_after(r: Seq<char>, x: Seq<char>)
    requires
        forall|i: int| 0 <= i < pieces(r).len() ==> !((#[trigger] pieces(r)[i]).len() > 0 && pieces(r)[i].last() == '\r'),
    ensures
        lines(r + seq!['\n'] + x) == pieces(r) + lines(x),
    decreases r.len(),
{
    let s = r + seq!['\n'] + x;
    let nx = seq!['\n'] + x;
    assert(s =~= r + nx);
    lemma_nl_index_bounds(r);
    lemma_nl_index_concat(r, nx);
    let k = nl_index(r);
    if k < r.len() {
        let rest = r.skip(k + 1);
        assert(s.take(k) =~= r.take(k));
        assert(s.skip(k + 1) =~= rest + seq!['\n'] + x);
        assert(pieces(r) == seq![r.take(k)] + pieces(rest));
        assert(pieces(r)[0] == r.take(k));
        assert forall|i: int| 0 <= i < pieces(rest).len() implies !((#[trigger] pieces(rest)[i]).len() > 0
            && pieces(rest)[i].last() == '\r') by {
            assert(pieces(rest)[i] == pieces(r)[i + 1]);
        }
        lemma_lines_after(rest, x);
        assert(strip_cr(r.take(k)) == r.take(k));
        assert(lines(s) == seq![strip_cr(s.take(k))] + lines(s.skip(k + 1)));
        assert(lines(s) =~= pieces(r) + lines(x));
    } else {
        assert(nl_index(nx) == 0);
        assert(nl_index(s) == r.len());
        assert(s.take(r.len() as int) =~= r);
        assert(s.skip(r.len() as int + 1) =~= x);
        assert(pieces(r) == seq![r]);
        assert(pieces(r)[0] == r);
        assert(strip_cr(r) == r);
        assert(lines(s) == seq![strip_cr(s.take(r.len() as int))] + lines(s.skip(r.len() as int + 1)));
        assert(lines(s) =~= pieces(r) + lines(x));
    }
}

/// The lines of `a + b` are those of `a` and then those of `b`, when `a`
/// ends with a newline.
proof fn lemma_lines_concat(a: Seq<char>, b: Seq<char>)
    requires
        a.len() > 0,
        a.last() == '\n',
    ensures
        lines(a + b) == lines(a) + lines(b),
    decreases a.len(),
{
    lemma_nl_index_bounds(a);
    let k = nl_index(a);
    if k >= a.len() {
        assert(a[a.len() - 1] == '\n');
    }
    lemma_nl_index_concat(a, b);
    let s = a + b;
    assert(s.take(k) =~= a.take(k));
    assert(s.skip(k + 1) =~= a.skip(k + 1) + b);
    assert(lines(s) == seq![strip_cr(s.take(k))] + lines(s.skip(k + 1)));
    assert(lines(a) == seq![strip_cr(a.take(k))] + lines(a.skip(k + 1)));
    if k + 1 == a.len() {
        assert(a.skip(k + 1) =~= Seq::<char>::empty());
        assert(a.skip(k + 1) + b =~= b);
        assert(lines(a.skip(k + 1)) =~= Seq::<Seq<char>>::empty());
        assert(lines(s) =~= lines(a) + lines(b));
    } else {
        let rest = a.skip(k + 1);
        assert(rest.last() == a.last());
        lemma_lines_concat(rest, b);
        assert(lines(s) =~= lines(a) + lines(b));
    }
}

/// Lines that are not markers pass through `kept` untouched outside a block.
proof fn lemma_kept_prefix(p: Seq<Seq<char>>, l: Seq<Seq<char>>)
    requires
        no_marker(p),
    ensures
        kept(p + l, false) == p + kept(l, false),
    decreases p.len(),
{
    if p.len() == 0 {
        assert(p + l =~= l);
        assert(p + kept(l, false) =~= kept(l, false));
    } else {
        let q = p.drop_first();
        assert((p + l)[0] == p[0]);
        assert((p + l).drop_first() =~= q + l);
        assert(no_marker(q)) by {
            assert forall|i: int| 0 <= i < q.len() implies (#[trigger] q[i]) != marker_start() && q[i] != marker_end() by {
                assert(q[i] == p[i + 1]);
            }
        }
        lemma_kept_prefix(q, l);
        assert(p =~= seq![p[0]] + q);
        assert(kept(p + l, false) =~= p + kept(l, false));
    }
}

/// No line of `ls` is the closing marker.
pub open spec fn no_end_marker(ls: Seq<Seq<char>>) -> bool {
    forall|i: int| 0 <= i < ls.len() ==> (#[trigger] ls[i]) != marker_end()
}

/// Inside a block, lines are dropped until the closing marker.
proof fn lemma_kept_in_block(e: Seq<Seq<char>>, l: Seq<Seq<char>>)
    requires
        no_end_marker(e),
    ensures
        kept(e + l, true) == kept(l, true),
    decreases e.len(),
{
    if e.len() == 0 {
        assert(e + l =~= l);
    } else {
        let q = e.drop_first();
        assert((e + l)[0] == e[0]);
        assert((e + l).drop_first() =~= q + l);
        assert(no_end_marker(q)) by {
            assert forall|i: int| 0 <= i < q.len() implies (#[trigger] q[i]) != marker_end() by {
                assert(q[i] == e[i + 1]);
            }
        }
        lemma_kept_in_block(q, l);
    }
}

/// Each line with its final carriage return, if any, dropped.
pub open spec fn strip_all(ls: Seq<Seq<char>>) -> Seq<Seq<char>> {
    ls.map_values(|p: Seq<char>| strip_cr(p))
}

/// The lines of `r`, a newline and `x` are the pieces of `r`, each without a
/// final carriage return, followed by the lines of `x`.
proof fn lemma_lines_general(r: Seq<char>, x: Seq<char>)
    ensures
        lines(r + seq!['\n'] + x) == strip_all(pieces(r)) + lines(x),
    decreases r.len(),
{
    let s = r + seq!['\n'] + x;
    let nx = seq!['\n'] + x;
    assert(s =~= r + nx);
    lemma_nl_index_bounds(r);
    lemma_nl_index_concat(r, nx);
    let k = nl_index(r);
    if k < r.len() {
        let rest = r.skip(k + 1);
        assert(s.take(k) =~= r.take(k));
        assert(s.skip(k + 1) =~= rest + seq!['\n'] + x);
        assert(pieces(r) == seq![r.take(k)] + pieces(rest));
        lemma_lines_general(rest, x);
        assert(lines(s) == seq![strip_cr(s.take(k))] + lines(s.skip(k + 1)));
        assert(strip_all(pieces(r)) =~= seq![strip_cr(r.take(k))] + strip_all(pieces(rest)));
        assert(lines(s) =~= strip_all(pieces(r)) + lines(x));
    } else {
        assert(nl_index(nx) == 0);
        assert(nl_index(s) == r.len());
        assert(s.take(r.len() as int) =~= r);
        assert(s.skip(r.len() as int + 1) =~= x);
        assert(pieces(r) == seq![r]);
        assert(strip_all(pieces(r)) =~= seq![strip_cr(r)]);
        assert(lines(s) == seq![strip_cr(s.take(r.len() as int))] + lines(s.skip(r.len() as int + 1)));
        assert(lines(s) =~= strip_all(pieces(r)) + lines(x));
    }
}

/// Text without a newline put before `d` joins the first piece of `d`.
proof fn lemma_pieces_prefix(a: Seq<char>, d: Seq<char>)
    requires
        forall|k: int| 0 <= k < a.len() ==> a[k] != '\n',
    ensures
        pieces(d).len() >= 1,
        pieces(a + d) == seq![a + pieces(d)[0]] + pieces(d).drop_first(),
{
    lemma_nl_index_bounds(a);
    lemma_nl_index_bounds(d);
    lemma_nl_index_is(a, a.len() as int);
    lemma_nl_index_concat(a, d);
    let s = a + d;
    let k = nl_index(d);
    if k < d.len() {
        let j = a.len() + k;
        assert(s.take(j) =~= a + d.take(k));
        assert(s.skip(j + 1) =~= d.skip(k + 1));
        assert(pieces(d) == seq![d.take(k)] + pieces(d.skip(k + 1)));
        assert(pieces(d).drop_first() =~= pieces(d.skip(k + 1)));
        assert(pieces(s) =~= seq![a + pieces(d)[0]] + pieces(d).drop_first());
    } else {
        assert(pieces(d) == seq![d]);
        assert(pieces(d).drop_first() =~= Seq::<Seq<char>>::empty());
        assert(pieces(s) =~= seq![a + pieces(d)[0]] + pieces(d).drop_first());
    }
}

/// The single line of a text that has no newline but its last character.
proof fn lemma_one_line(t: Seq<char>)
    requires
        forall|k: int| 0 <= k < t.len() ==> t[k] != '\n',
    ensures
        lines(t + seq!['\n']) == seq![strip_cr(t)],
{
    let s = t + seq!['\n'];
    assert forall|k: int| 0 <= k < t.len() implies s[k] != '\n' by {
        assert(s[k] == t[k]);
    }
    assert(s[t.len() as int] == '\n');
    lemma_nl_index_is(s, t.len() as int);
    assert(s.take(t.len() as int) =~= t);
    assert(s.skip(t.len() as int + 1) =~= Seq::<char>::empty());
    assert(lines(s) == seq![strip_cr(s.take(t.len() as int))] + lines(s.skip(t.len() as int + 1)));
    assert(lines(s) =~= seq![strip_cr(t)]);
}

/// No line that the domain holds after a newline (with a final carriage
/// return dropped) is the closing marker, so that its entries cannot end the
/// marked block early. A domain without a newline always qualifies.
pub open spec fn entry_safe(d: Seq<char>) -> bool {
    forall|i: int| 1 <= i < pieces(d).len() ==> strip_cr(#[trigger] pieces(d)[i]) != marker_end()
}

/// Every domain's entries stay inside the marked block.
pub open spec fn entry_safe_domains(ds: Seq<Seq<char>>) -> bool {
    forall|i: int| 0 <= i < ds.len() ==> entry_safe(#[trigger] ds[i])
}

/// The lines of one entry (the prefix, the domain, a newline) are not the
/// closing marker.
proof fn lemma_entry_line(a: Seq<char>, d: Seq<char>)
    requires
        a.len() >= 4,
        a[0] != '#',
        forall|k: int| 0 <= k < a.len() ==> a[k] != '\n',
        entry_safe(d),
    ensures
        no_end_marker(lines(a + d + seq!['\n'])),
{
    reveal_strlit("# END antidistractor");
    lemma_pieces_prefix(a, d);
    lemma_lines_general(a + d, Seq::empty());
    assert(a + d + seq!['\n'] + Seq::<char>::empty() =~= a + d + seq!['\n']);
    assert(lines(Seq::<char>::empty()) =~= Seq::<Seq<char>>::empty());
    let ls = lines(a + d + seq!['\n']);
    assert(ls =~= strip_all(pieces(a + d)));
    assert forall|i: int| 0 <= i < ls.len() implies (#[trigger] ls[i]) != marker_end() by {
        if i == 0 {
            let first = a + pieces(d)[0];
            assert(ls[0] == strip_cr(first));
            assert(strip_cr(first)[0] == a[0]);
            assert(marker_end()[0] == '#');
        } else {
            assert(pieces(a + d)[i] == pieces(d)[i]);
            assert(ls[i] == strip_cr(pieces(d)[i]));
        }
    }
}

/// The two entry lines of one domain do not close the block.
proof fn lemma_entry_pair(d: Seq<char>)
    requires
        entry_safe(d),
    ensures
        no_end_marker(lines(("127.0.0.1 "@ + d + seq!['\n']) + ("::1 "@ + d + seq!['\n']))),
{
    reveal_strlit("127.0.0.1 ");
    reveal_strlit("::1 ");
    let a = "127.0.0.1 "@;
    let b = "::1 "@;
    lemma_entry_line(a, d);
    lemma_entry_line(b, d);
    let t1 = a + d + seq!['\n'];
    let t2 = b + d + seq!['\n'];
    lemma_lines_concat(t1, t2);
    let all = lines(t1) + lines(t2);
    assert forall|i: int| 0 <= i < all.len() implies (#[trigger] all[i]) != marker_end() by {
        if i < lines(t1).len() {
            assert(all[i] == lines(t1)[i]);
        } else {
            assert(all[i] == lines(t2)[i - lines(t1).len()]);
        }
    }
}

/// The lines of the entries do not close the block, and the entries end
/// with a newline.
proof fn lemma_entry_lines(ds: Seq<Seq<char>>)
    requires
        entry_safe_domains(ds),
    ensures
        no_end_marker(lines(entry_lines(ds))),
        ds.len() > 0 ==> entry_lines(ds).len() > 0 && entry_lines(ds).last() == '\n',
    decreases ds.len(),
{
    if ds.len() > 0 {
        let init = ds.drop_last();
        let d = ds.last();
        assert(entry_safe_domains(init)) by {
            assert forall|i: int| 0 <= i < init.len() implies entry_safe(#[trigger] init[i]) by {
                assert(init[i] == ds[i]);
            }
        }
        lemma_entry_lines(init);
        assert(ds[ds.len() - 1] == d);
        assert(entry_safe(d));
        lemma_entry_pair(d);
        let e0 = entry_lines(init);
        let t12 = ("127.0.0.1 "@ + d + seq!['\n']) + ("::1 "@ + d + seq!['\n']);
        assert(entry_lines(ds) =~= e0 + t12);
        let l12 = lines(t12);
        if init.len() > 0 {
            lemma_lines_concat(e0, t12);
            let all = lines(e0) + l12;
            assert forall|i: int| 0 <= i < all.len() implies (#[trigger] all[i]) != marker_end() by {
                if i < lines(e0).len() {
                    assert(all[i] == lines(e0)[i]);
                } else {
                    assert(all[i] == l12[i - lines(e0).len()]);
                }
            }
        } else {
            assert(e0 =~= Seq::<char>::empty());
            assert(e0 + t12 =~= t12);
        }
        assert(t12.last() == '\n');
        assert((e0 + t12).last() == '\n');
    }
}

/// The marked block leaves no line behind when blocks are removed.
proof fn lemma_block_vanishes(ds: Seq<Seq<char>>)
    requires
        entry_safe_domains(ds),
    ensures
        kept(lines(hosts_block(ds)), false) == Seq::<Seq<char>>::empty(),
{
    if ds.len() > 0 {
        reveal_strlit("# BEGIN antidistractor");
        reveal_strlit("# END antidistractor");
        lemma_entry_lines(ds);
        let e = entry_lines(ds);
        let t1 = marker_start() + seq!['\n'];
        let t3 = marker_end() + seq!['\n'];
        assert(hosts_block(ds) =~= t1 + (e + t3));
        lemma_one_line(marker_start());
        lemma_one_line(marker_end());
        assert(strip_cr(marker_start()) == marker_start());
        assert(strip_cr(marker_end()) == marker_end());
        lemma_lines_concat(t1, e + t3);
        lemma_lines_concat(e, t3);
        let le = lines(e);
        let hl = seq![marker_start()] + (le + seq![marker_end()]);
        assert(lines(hosts_block(ds)) =~= hl);
        assert(hl[0] == marker_start());
        assert(hl.drop_first() =~= le + seq![marker_end()]);
        assert(kept(hl, false) == kept(hl.drop_first(), true));
        lemma_kept_in_block(le, seq![marker_end()]);
        assert(kept(seq![marker_end()], true) == kept(seq![marker_end()].drop_first(), false));
        assert(seq![marker_end()].drop_first() =~= Seq::<Seq<char>>::empty());
    } else {
        assert(hosts_block(ds) =~= Seq::<char>::empty());
    }
}

/// Joining the pieces of `r` with newlines gives back `r`.
proof fn lemma_join_pieces(r: Seq<char>)
    ensures
        join_lines(pieces(r)) == r,
    decreases r.len(),
{
    lemma_nl_index_bounds(r);
    let k = nl_index(r);
    if k < r.len() {
        let rest = r.skip(k + 1);
        lemma_join_pieces(rest);
        lemma_join_front(r.take(k), pieces(rest));
        assert(r =~= r.take(k) + seq!['\n'] + rest);
    }
}

/// A joined list is its first line, a newline and the rest joined.
proof fn lemma_join_front(x: Seq<char>, rest: Seq<Seq<char>>)
    ensures
        rest.len() > 0 ==> join_lines(seq![x] + rest) == x + seq!['\n'] + join_lines(rest),
    decreases rest.len(),
{
    if rest.len() > 0 {
        let all = seq![x] + rest;
        assert(all.drop_last() =~= seq![x] + rest.drop_last());
        assert(all.last() == rest.last());
        assert(join_lines(all) == join_lines(all.drop_last()) + seq!['\n'] + all.last());
        if rest.len() == 1 {
            assert(seq![x] + rest.drop_last() =~= seq![x]);
            assert(join_lines(seq![x]) == x);
            assert(join_lines(rest) == rest[0]);
            assert(rest.last() == rest[0]);
        } else {
            lemma_join_front(x, rest.drop_last());
            assert(join_lines(rest) == join_lines(rest.drop_last()) + seq!['\n'] + rest.last());
            assert(join_lines(all) =~= x + seq!['\n'] + join_lines(rest));
        }
    }
}

/// Whatever follows a newline after `r`, removing the marked block gives
/// back `r` when that is the hosts block and no piece of `r` is touched by
/// the rewrite.
pub proof fn lemma_block_removal_after(r: Seq<char>, ds: Seq<Seq<char>>)
    requires
        forall|i: int| 0 <= i < pieces(r).len() ==> plain_line(#[trigger] pieces(r)[i]),
        entry_safe_domains(ds),
    ensures
        without_block(r + seq!['\n'] + hosts_block(ds)) == r,
{
    lemma_lines_after(r, hosts_block(ds));
    assert(no_marker(pieces(r)));
    lemma_kept_prefix(pieces(r), lines(hosts_block(ds)));
    lemma_block_vanishes(ds);
    assert(pieces(r) + Seq::<Seq<char>>::empty() =~= pieces(r));
    lemma_join_pieces(r);
}

/// Rewriting the hosts file keeps every other line: removing the marked
/// block from the rewritten text gives the earlier text without its block
/// and trailing whitespace. It needs that no domain holds a line that would
/// close the block early, and that no remaining line (after the trailing
/// whitespace is trimmed) is a marker or ends in a carriage return: the law
/// fails, for instance, when a last line "# END antidistractor " becomes a
/// marker once trimmed, and is then dropped.
pub proof fn lemma_rewrite_keeps_other_lines(content: Seq<char>, ds: Seq<Seq<char>>)
    requires
        forall|i: int|
            0 <= i < pieces(trim_end(without_block(content))).len() ==> plain_line(
                #[trigger] pieces(trim_end(without_block(content)))[i],
            ),
        entry_safe_domains(ds),
    ensures
        without_block(updated_hosts(content, ds)) == trim_end(without_block(content)),
{
    lemma_block_removal_after(trim_end(without_block(content)), ds);
}

/// Trimming twice trims no more.
pub proof fn lemma_trim_end_idempotent(s: Seq<char>)
    ensures
        trim_end(trim_end(s)) == trim_end(s),
    decreases s.len(),
{
    if s.len() > 0 && is_space(s.last()) {
        lemma_trim_end_idempotent(s.drop_last());
    }
}

/// Rewriting the hosts file for one set of domains and then for another
/// gives what rewriting it for the second set at once gives: the earlier
/// block is replaced, not kept.
pub proof fn lemma_rewrite_replaces_block(content: Seq<char>, ds1: Seq<Seq<char>>, ds2: Seq<Seq<char>>)
    requires
        forall|i: int|
            0 <= i < pieces(trim_end(without_block(content))).len() ==> plain_line(
                #[trigger] pieces(trim_end(without_block(content)))[i],
            ),
        entry_safe_domains(ds1),
    ensures
        updated_hosts(updated_hosts(content, ds1), ds2) == updated_hosts(content, ds2),
{
    lemma_rewrite_keeps_other_lines(content, ds1);
    lemma_trim_end_idempotent(without_block(content));
}

/// Removing the marked block drops the opening marker, the lines up to the
/// closing marker and that marker, and keeps every line before and after
/// it: lines that follow the closing marker are kept.
pub proof fn lemma_block_lines_removed(a: Seq<Seq<char>>, e: Seq<Seq<char>>, b: Seq<Seq<char>>)
    requires
        no_marker(a),
        no_end_marker(e),
        no_marker(b),
    ensures
        kept(a + seq![marker_start()] + e + seq![marker_end()] + b, false) == a + b,
        kept(seq![marker_end()] + b, true) == b,
{
    lemma_markers_differ();
    let tail = e + seq![marker_end()] + b;
    let blk = seq![marker_start()] + tail;
    assert(a + seq![marker_start()] + e + seq![marker_end()] + b =~= a + blk);
    lemma_kept_prefix(a, blk);
    assert(blk[0] == marker_start());
    assert(blk.drop_first() =~= tail);
    assert(tail =~= e + (seq![marker_end()] + b));
    lemma_kept_in_block(e, seq![marker_end()] + b);
    let eb = seq![marker_end()] + b;
    assert(eb[0] == marker_end());
    assert(eb.drop_first() =~= b);
    assert(kept(eb, true) == kept(b, false));
    lemma_kept_prefix(b, Seq::<Seq<char>>::empty());
    assert(b + Seq::<Seq<char>>::empty() =~= b);
    assert(kept(Seq::<Seq<char>>::empty(), false) =~= Seq::<Seq<char>>::empty());
}

/// The two marker lines differ.
proof fn lemma_markers_differ()
    ensures
        marker_start() != marker_end(),
{
    reveal_strlit("# BEGIN antidistractor");
    reveal_strlit("# END antidistractor");
    assert(marker_start()[2] != marker_end()[2]);
}

} // verus!
