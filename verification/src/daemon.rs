//! Start-up decisions: the mode the program runs in, the domains blocked
//! from the start, and the network interfaces the packet classifier is
//! attached to, read from the output of the system's interface tools.
use vstd::prelude::*;
use crate::strset::{StrSet, views, sorted};
use crate::text::{chars_of, char_views, has_prefix, lines, lines_of, split_char, split_on,
    split_whitespace, starts_with, string_of, trim, trim_bounds, words};

verus! {

/// The domains blocked from the start.
pub open spec fn default_domains() -> Seq<Seq<char>> {
    seq![
        "bilibili.com"@, "www.bilibili.com"@, "m.bilibili.com"@, "api.bilibili.com"@,
        "api.vc.bilibili.com"@, "app.bilibili.com"@, "live.bilibili.com"@, "t.bilibili.com"@,
        "space.bilibili.com"@, "search.bilibili.com"@, "member.bilibili.com"@,
        "passport.bilibili.com"@, "account.bilibili.com"@, "manga.bilibili.com"@, "hdslb.com"@,
        "www.hdslb.com"@, "i0.hdslb.com"@, "i1.hdslb.com"@, "i2.hdslb.com"@, "s1.hdslb.com"@,
        "bilivideo.com"@, "bilivideo.cn"@, "biliapi.net"@, "biliapi.com"@,
    ]
}

/// The domains blocked from the start, in their listed order.
pub fn default_blocklist() -> (v: Vec<String>)
    ensures
        views(v@) == default_domains(),
{
    let names: [&str; 24] = [
        "bilibili.com", "www.bilibili.com", "m.bilibili.com", "api.bilibili.com",
        "api.vc.bilibili.com", "app.bilibili.com", "live.bilibili.com", "t.bilibili.com",
        "space.bilibili.com", "search.bilibili.com", "member.bilibili.com",
        "passport.bilibili.com", "account.bilibili.com", "manga.bilibili.com", "hdslb.com",
        "www.hdslb.com", "i0.hdslb.com", "i1.hdslb.com", "i2.hdslb.com", "s1.hdslb.com",
        "bilivideo.com", "bilivideo.cn", "biliapi.net", "biliapi.com",
    ];
    let mut v: Vec<String> = Vec::new();
    let mut i: usize = 0;
    while i < 24
        invariant
            i <= 24,
            names@ == seq![
                "bilibili.com", "www.bilibili.com", "m.bilibili.com", "api.bilibili.com",
                "api.vc.bilibili.com", "app.bilibili.com", "live.bilibili.com", "t.bilibili.com",
                "space.bilibili.com", "search.bilibili.com", "member.bilibili.com",
                "passport.bilibili.com", "account.bilibili.com", "manga.bilibili.com", "hdslb.com",
                "www.hdslb.com", "i0.hdslb.com", "i1.hdslb.com", "i2.hdslb.com", "s1.hdslb.com",
                "bilivideo.com", "bilivideo.cn", "biliapi.net", "biliapi.com",
            ],
            views(v@) == names@.take(i as int).map_values(|s: &str| s@),
        decreases 24 - i,
    {
        let ghost before = views(v@);
        v.push(String::from_str(names[i]));
        assert(views(v@) =~= before.push(names@[i as int]@));
        assert(names@.take(i + 1).map_values(|s: &str| s@) =~= names@.take(i as int).map_values(|s: &str| s@).push(names@[i as int]@));
        i = i + 1;
    }
    assert(names@.take(24).map_values(|s: &str| s@) =~= default_domains());
    v
}

/// Whether one of the arguments is `a` or `b`.
pub open spec fn has_flag(args: Seq<Seq<char>>, a: Seq<char>, b: Seq<char>) -> bool {
    exists|i: int| 0 <= i < args.len() && (args[i] == a || args[i] == b)
}

/// Whether `x` is `a` or `b`.
fn is_either(x: &str, a: &str, b: &str) -> (r: bool)
    ensures
        r == (x@ == a@ || x@ == b@),
{
    crate::text::str_eq(x, a) || crate::text::str_eq(x, b)
}

/// Whether some argument is `a` or `b`.
fn any_flag(args: &Vec<String>, a: &str, b: &str) -> (r: bool)
    ensures
        r == has_flag(views(args@), a@, b@),
{
    let mut i: usize = 0;
    while i < args.len()
        invariant
            i <= args@.len(),
            forall|k: int| 0 <= k < i ==> !(args@[k]@ == a@ || args@[k]@ == b@),
        decreases args.len() - i,
    {
        if is_either(args[i].as_str(), a, b) {
            assert(views(args@)[i as int] == args@[i as int]@);
            return true;
        }
        i = i + 1;
    }
    proof {
        if has_flag(views(args@), a@, b@) {
            let k = choose|k: int| 0 <= k < views(args@).len() && (views(args@)[k] == a@ || views(args@)[k] == b@);
            assert(views(args@)[k] == args@[k]@);
        }
    }
    false
}

/// Whether the program runs as a daemon: an argument is "--daemon" or "-d".
pub fn is_daemon_mode(args: &Vec<String>) -> (r: bool)
    ensures
        r == has_flag(views(args@), "--daemon"@, "-d"@),
{
    any_flag(args, "--daemon", "-d")
}

/// Whether the program runs as the screen lock daemon: an argument is
/// "--screen-lock-daemon".
pub fn is_screen_lock_daemon_mode(args: &Vec<String>) -> (r: bool)
    ensures
        r == has_flag(views(args@), "--screen-lock-daemon"@, "--screen-lock-daemon"@),
{
    any_flag(args, "--screen-lock-daemon", "--screen-lock-daemon")
}

/// The first argument after the program name that does not start with '-',
/// searching from position `from`.
pub open spec fn first_operand(args: Seq<Seq<char>>, from: int) -> Option<Seq<char>>
    decreases args.len() - from,
{
    if from >= args.len() || from < 0 {
        None
    } else if !has_prefix(args[from], seq!['-']) {
        Some(args[from])
    } else {
        first_operand(args, from + 1)
    }
}

/// The interface named on the command line: the first argument after the
/// program name that does not start with '-'.
pub fn interface_arg(args: &Vec<String>) -> (r: Option<String>)
    ensures
        match r {
            Some(s) => first_operand(views(args@), 1) == Some(s@),
            None => first_operand(views(args@), 1) is None,
        },
{
    let dash: Vec<char> = vec!['-'];
    assert(dash@ =~= seq!['-']);
    let mut i: usize = 1;
    if args.len() == 0 {
        return None;
    }
    while i < args.len()
        invariant
            1 <= i <= args@.len(),
            dash@ == seq!['-'],
            first_operand(views(args@), 1) == first_operand(views(args@), i as int),
        decreases args.len() - i,
    {
        let a = chars_of(args[i].as_str());
        assert(views(args@)[i as int] == a@);
        if !starts_with(a.as_slice(), dash.as_slice()) {
            return Some(args[i].clone());
        }
        i = i + 1;
    }
    None
}

/// The interface to guard: the one named on the command line, else the one
/// the default route uses, else "eth0".
pub fn choose_interface(arg: Option<String>, route: Option<String>) -> (iface: String)
    ensures
        iface@ == match arg {
            Some(a) => a@,
            None => match route {
                Some(r) => r@,
                None => "eth0"@,
            },
        },
{
    match arg {
        Some(a) => a,
        None => match route {
            Some(r) => r,
            None => String::from_str("eth0"),
        },
    }
}

/// The interface that `ip route show default` names: its fifth word.
pub open spec fn route_interface(out: Seq<char>) -> Option<Seq<char>> {
    let ws = words(out);
    if ws.len() > 4 {
        Some(ws[4])
    } else {
        None
    }
}

/// The interface of the default route, from the output of
/// `ip route show default`.
pub fn default_interface_from_route(out: &str) -> (r: Option<String>)
    ensures
        match r {
            Some(s) => route_interface(out@) == Some(s@),
            None => route_interface(out@) is None,
        },
{
    let v = chars_of(out);
    let ws = split_whitespace(v.as_slice());
    if ws.len() > 4 {
        assert(char_views(ws@)[4] == ws@[4]@);
        Some(string_of(ws[4].as_slice()))
    } else {
        None
    }
}

/// The tunnel interfaces that lines of `ip -o link show type tun` output
/// name: of each line, the text between its first and second ':', trimmed,
/// where that is not empty.
pub open spec fn link_names(ls: Seq<Seq<char>>) -> Seq<Seq<char>>
    decreases ls.len(),
{
    if ls.len() == 0 {
        Seq::empty()
    } else {
        let rest = link_names(ls.drop_last());
        let parts = split_on(ls.last(), ':');
        if parts.len() > 1 && trim(parts[1]).len() > 0 {
            rest.push(trim(parts[1]))
        } else {
            rest
        }
    }
}

/// The characters of `v` without surrounding whitespace.
fn trimmed_chars(v: &[char]) -> (t: Vec<char>)
    ensures
        t@ == trim(v@),
{
    let (a, b) = trim_bounds(v);
    let mut t: Vec<char> = Vec::new();
    let mut k = a;
    while k < b
        invariant
            a <= k <= b <= v@.len(),
            t@ == v@.subrange(a as int, k as int),
        decreases b - k,
    {
        t.push(v[k]);
        k = k + 1;
    }
    t
}

/// The tunnel interfaces named in the output of `ip -o link show type tun`.
pub fn tun_interfaces_from_link(out: &str) -> (ifaces: Vec<String>)
    ensures
        views(ifaces@) == link_names(lines(out@)),
{
    let v = chars_of(out);
    let ls = lines_of(v.as_slice());
    let ghost all = char_views(ls@);
    let mut ifaces: Vec<String> = Vec::new();
    let mut i: usize = 0;
    assert(all.take(0) =~= Seq::<Seq<char>>::empty());
    assert(views(ifaces@) =~= Seq::<Seq<char>>::empty());
    while i < ls.len()
        invariant
            i <= ls@.len(),
            all == char_views(ls@),
            all == lines(out@),
            views(ifaces@) == link_names(all.take(i as int)),
        decreases ls.len() - i,
    {
        assert(all.take(i + 1).drop_last() =~= all.take(i as int));
        assert(all.take(i + 1).last() == ls@[i as int]@);
        let parts = split_char(ls[i].as_slice(), ':');
        if parts.len() > 1 {
            let name = trimmed_chars(parts[1].as_slice());
            assert(char_views(parts@)[1] == parts@[1]@);
            if name.len() > 0 {
                let ghost before = views(ifaces@);
                ifaces.push(string_of(name.as_slice()));
                assert(views(ifaces@) =~= before.push(name@));
            }
        }
        i = i + 1;
    }
    assert(all.take(i as int) =~= all);
    ifaces
}

/// Whether `pat` occurs in `s`.
pub open spec fn occurs(s: Seq<char>, pat: Seq<char>) -> bool {
    exists|i: int| 0 <= i && i + pat.len() <= s.len() && #[trigger] s.subrange(i, i + pat.len()) == pat
}

/// Whether `pat` occurs in `s`.
fn occurs_in(s: &[char], pat: &[char]) -> (r: bool)
    ensures
        r == occurs(s@, pat@),
{
    if pat.len() > s.len() {
        return false;
    }
    let mut i: usize = 0;
    let last = s.len() - pat.len();
    while i <= last
        invariant
            pat@.len() <= s@.len(),
            last == s@.len() - pat@.len(),
            i <= s@.len() - pat@.len() + 1,
            forall|k: int| 0 <= k < i ==> #[trigger] s@.subrange(k, k + pat@.len()) != pat@,
        decreases s.len() - i,
    {
        let mut j: usize = 0;
        let mut same = true;
        while j < pat.len()
            invariant
                j <= pat@.len(),
                i + pat@.len() <= s.len(),
                same == forall|m: int| 0 <= m < j ==> s@[i + m] == pat@[m],
            decreases pat.len() - j,
        {
            if s[i + j] != pat[j] {
                same = false;
            }
            j = j + 1;
        }
        if same {
            assert(s@.subrange(i as int, i + pat@.len()) =~= pat@);
            return true;
        }
        proof {
            if s@.subrange(i as int, i + pat@.len()) == pat@ {
                let m = choose|m: int| 0 <= m < pat@.len() && s@[i + m] != pat@[m];
                assert(s@.subrange(i as int, i + pat@.len())[m] == s@[i + m]);
            }
        }
        i = i + 1;
    }
    false
}

/// The tunnel interfaces that lines of `ifconfig` output name, `current`
/// being the interface whose block the first line continues: a line that
/// starts with neither a tab nor a space begins a new interface, named by the
/// text before its first ':'; a line that mentions "POINTOPOINT" names the
/// current interface when it is not empty and starts with "utun" or "tun".
pub open spec fn ifconfig_tuns(ls: Seq<Seq<char>>, current: Seq<char>) -> Seq<Seq<char>>
    decreases ls.len(),
{
    if ls.len() == 0 {
        Seq::empty()
    } else {
        let line = ls[0];
        let cur = if !has_prefix(line, seq!['\t']) && !has_prefix(line, seq![' ']) {
            split_on(line, ':')[0]
        } else {
            current
        };
        let rest = ifconfig_tuns(ls.drop_first(), cur);
        if occurs(line, "POINTOPOINT"@) && cur.len() > 0 && (has_prefix(cur, "utun"@) || has_prefix(
            cur,
            "tun"@,
        )) {
            seq![cur] + rest
        } else {
            rest
        }
    }
}

/// The tunnel interfaces named in `ifconfig` output.
pub fn tun_interfaces_from_ifconfig(out: &str) -> (ifaces: Vec<String>)
    ensures
        views(ifaces@) == ifconfig_tuns(lines(out@), Seq::empty()),
{
    let v = chars_of(out);
    let ls = lines_of(v.as_slice());
    let ghost all = char_views(ls@);
    let tab: Vec<char> = vec!['\t'];
    let space: Vec<char> = vec![' '];
    let utun = chars_of("utun");
    let tun = chars_of("tun");
    let pointopoint = chars_of("POINTOPOINT");
    assert(tab@ =~= seq!['\t']);
    assert(space@ =~= seq![' ']);
    let mut current: Vec<char> = Vec::new();
    let mut ifaces: Vec<String> = Vec::new();
    let mut i: usize = 0;
    assert(all.skip(0) =~= all);
    assert(views(ifaces@) =~= Seq::<Seq<char>>::empty());
    while i < ls.len()
        invariant
            i <= ls@.len(),
            all == char_views(ls@),
            all == lines(out@),
            tab@ == seq!['\t'],
            space@ == seq![' '],
            utun@ == "utun"@,
            tun@ == "tun"@,
            pointopoint@ == "POINTOPOINT"@,
            ifconfig_tuns(all, Seq::empty()) == views(ifaces@) + ifconfig_tuns(all.skip(i as int), current@),
        decreases ls.len() - i,
    {
        let line = &ls[i];
        let ghost rest = all.skip(i as int);
        assert(rest[0] == line@);
        assert(rest.drop_first() =~= all.skip(i + 1));
        if !starts_with(line.as_slice(), tab.as_slice()) && !starts_with(line.as_slice(), space.as_slice()) {
            let parts = split_char(line.as_slice(), ':');
            proof {
                crate::text::lemma_split_on_nonempty(line@, ':');
                assert(char_views(parts@)[0] == parts@[0]@);
            }
            current = parts[0].clone();
            assert(current@ =~= parts@[0]@);
        }
        if occurs_in(line.as_slice(), pointopoint.as_slice()) && current.len() > 0 && (starts_with(
            current.as_slice(),
            utun.as_slice(),
        ) || starts_with(current.as_slice(), tun.as_slice())) {
            let ghost before = views(ifaces@);
            ifaces.push(string_of(current.as_slice()));
            assert(views(ifaces@) =~= before.push(current@));
            assert(before + (seq![current@] + ifconfig_tuns(all.skip(i + 1), current@)) =~= before.push(current@)
                + ifconfig_tuns(all.skip(i + 1), current@));
        }
        i = i + 1;
    }
    assert(all.skip(i as int) =~= Seq::<Seq<char>>::empty());
    assert(views(ifaces@) + Seq::<Seq<char>>::empty() =~= views(ifaces@));
    ifaces
}

/// The interfaces to attach to: "lo", the chosen interface and the tunnel
/// interfaces, sorted, each once.
pub fn target_interfaces(default_iface: &str, tuns: &Vec<String>) -> (ifaces: Vec<String>)
    ensures
        sorted(views(ifaces@)),
        views(ifaces@).to_set() == set!["lo"@, default_iface@].union(views(tuns@).to_set()),
{
    let mut set = StrSet::new();
    set.insert(String::from_str("lo"));
    set.insert(String::from_str(default_iface));
    let mut i: usize = 0;
    assert(views(tuns@).take(0).to_set() =~= Set::<Seq<char>>::empty());
    while i < tuns.len()
        invariant
            i <= tuns@.len(),
            set@.to_set() == set!["lo"@, default_iface@].union(views(tuns@).take(i as int).to_set()),
        decreases tuns.len() - i,
    {
        set.insert(tuns[i].clone());
        proof {
            assert(views(tuns@).take(i + 1) =~= views(tuns@).take(i as int).push(tuns@[i as int]@));
            views(tuns@).take(i as int).lemma_push_to_set_commute(tuns@[i as int]@);
            assert(set@.to_set() =~= set!["lo"@, default_iface@].union(views(tuns@).take(i + 1).to_set()));
        }
        i = i + 1;
    }
    assert(views(tuns@).take(i as int) =~= views(tuns@));
    set.sorted_vec()
}

/// Whether the classifier can be loaded for `requested` interfaces: not
/// when none is given.
pub fn check_interfaces(requested: usize) -> (r: Result<(), String>)
    ensures
        r matches Ok(_) <==> requested > 0,
        r matches Err(e) ==> e@ == "No interfaces specified"@,
{
    if requested == 0 {
        Err(String::from_str("No interfaces specified"))
    } else {
        Ok(())
    }
}

/// Whether loading succeeded, given how many interfaces the classifier was
/// attached to: not when it is none.
pub fn check_attached(attached: usize) -> (r: Result<(), String>)
    ensures
        r matches Ok(_) <==> attached > 0,
        r matches Err(e) ==> e@ == "Failed to attach eBPF to any interface"@,
{
    if attached == 0 {
        Err(String::from_str("Failed to attach eBPF to any interface"))
    } else {
        Ok(())
    }
}

} // verus!
