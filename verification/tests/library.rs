use antidistractor::app_blocker;
use antidistractor::app_watcher;
use antidistractor::control::{
    apply_app_cmd_linux, apply_app_cmd_macos, apply_domain_results, domain_ops, empty_input_response,
    freeze_response, parse_error_response, status_linux, status_macos, thaw_response, ControlCmd,
    ControlState, DomainOp,
};
use antidistractor::daemon::{
    choose_interface, default_blocklist, default_interface_from_route, interface_arg, is_daemon_mode,
    is_screen_lock_daemon_mode, target_interfaces, tun_interfaces_from_ifconfig,
    tun_interfaces_from_link,
};
use antidistractor::notifications::{
    send_app_blocked_notification, send_domain_blocked_notification, send_screen_lock_notification,
};
use antidistractor::numeric::{parse_i32, parse_u32, parse_u64};
use antidistractor::pf_blocker::{remove_hosts_block, PfBlocker};
use antidistractor::process_freezer::{answers_to_name, extra_pids, parse_ppid, union_pids, FreezerState};
use antidistractor::process_utils::{
    collect_process_tree_postorder, exe_basename, find_pids_by_name, find_processes_by_name,
    parse_ps_output, pids_in_buffer,
};
use antidistractor::screen_lock::{
    hour_from_date_output, in_lock_time, launch_daemon_plist, locked_from_output, poll_secs_from,
    test_hour_from, LockDaemon,
};
use antidistractor::sni::{classify, domain_key, server_name_of, Blocklist, TC_ACT_OK, TC_ACT_SHOT};
use antidistractor::text::{file_name_of, lines_of, split_char, split_whitespace};
use antidistractor::ui::{centered_margin, title_text, App, InputMode, Key, UiAction};

fn chars(s: &str) -> Vec<char> {
    s.chars().collect()
}

fn strings(v: &[&str]) -> Vec<String> {
    v.iter().map(|s| s.to_string()).collect()
}

// ─── packets ────────────────────────────────────────────────────────────────

/// A TLS ClientHello that announces `name`, after an extension of another
/// type.
fn client_hello(name: &str) -> Vec<u8> {
    let n = name.len();
    let mut sni = vec![0u8, 0u8];
    let list_len = (n + 3) as u16;
    sni.extend_from_slice(&((n + 5) as u16).to_be_bytes());
    sni.extend_from_slice(&list_len.to_be_bytes());
    sni.push(0);
    sni.extend_from_slice(&(n as u16).to_be_bytes());
    sni.extend_from_slice(name.as_bytes());
    // an extension of another type first
    let mut exts = vec![0x00, 0x17, 0x00, 0x00];
    exts.extend_from_slice(&sni);
    let mut hello = vec![3, 3];
    hello.extend_from_slice(&[7u8; 32]);
    hello.push(0); // session id length
    hello.extend_from_slice(&[0, 2, 0x13, 0x01]); // cipher suites
    hello.extend_from_slice(&[1, 0]); // compression methods
    hello.extend_from_slice(&(exts.len() as u16).to_be_bytes());
    hello.extend_from_slice(&exts);
    let mut hs = vec![1, 0];
    hs.extend_from_slice(&(hello.len() as u16).to_be_bytes());
    hs.extend_from_slice(&hello);
    let mut rec = vec![22, 3, 1];
    rec.extend_from_slice(&(hs.len() as u16).to_be_bytes());
    rec.extend_from_slice(&hs);
    rec
}

fn tcp_header(dst_port: u16) -> Vec<u8> {
    let mut t = vec![0xc3, 0x50];
    t.extend_from_slice(&dst_port.to_be_bytes());
    t.extend_from_slice(&[0; 8]);
    t.push(0x50); // data offset: 5 words
    t.extend_from_slice(&[0x18, 0xff, 0xff, 0, 0, 0, 0]);
    t
}

fn ipv4_packet(proto: u8, dst_port: u16, name: &str) -> Vec<u8> {
    let mut p = vec![0x45, 0, 0, 0, 0, 0, 0, 0, 64, proto, 0, 0, 10, 0, 0, 1, 10, 0, 0, 2];
    p.extend_from_slice(&tcp_header(dst_port));
    p.extend_from_slice(&client_hello(name));
    p
}

fn ipv6_packet(name: &str) -> Vec<u8> {
    let mut p = vec![0x60, 0, 0, 0, 0, 0, 6, 64];
    p.extend_from_slice(&[0; 32]);
    p.extend_from_slice(&tcp_header(443));
    p.extend_from_slice(&client_hello(name));
    p
}

fn ethernet_ipv4_packet(name: &str) -> Vec<u8> {
    let mut p = vec![0x00, 0x11, 0x22, 0x33, 0x44, 0x55, 0x66, 0x77, 0x88, 0x99, 0xaa, 0xbb, 0x08, 0x00];
    p.extend_from_slice(&ipv4_packet(6, 443, name));
    p
}

#[test]
fn sni_name_is_read_from_the_client_hello() {
    let p = ipv4_packet(6, 443, "www.bilibili.com");
    assert_eq!(server_name_of(&p), Some(b"www.bilibili.com".to_vec()));
    assert_eq!(server_name_of(&ipv6_packet("example.org")), Some(b"example.org".to_vec()));
    assert_eq!(server_name_of(&ethernet_ipv4_packet("a.b")), Some(b"a.b".to_vec()));
}

#[test]
fn sni_requires_tcp_to_port_443() {
    assert_eq!(server_name_of(&ipv4_packet(17, 443, "www.bilibili.com")), None);
    assert_eq!(server_name_of(&ipv4_packet(6, 80, "www.bilibili.com")), None);
}

#[test]
fn sni_truncated_packet_passes() {
    let p = ipv4_packet(6, 443, "www.bilibili.com");
    let cut = &p[..p.len() - 3];
    assert_eq!(server_name_of(cut), None);
    let mut bl = Blocklist::new();
    bl.add_domain("www.bilibili.com");
    assert_eq!(classify(cut, &bl), TC_ACT_OK);
    assert_eq!(classify(&[], &bl), TC_ACT_OK);
}

#[test]
fn classify_drops_blocked_names_and_passes_others() {
    let mut bl = Blocklist::new();
    let p = ipv4_packet(6, 443, "www.bilibili.com");
    assert_eq!(classify(&p, &bl), TC_ACT_OK);
    bl.add_domain("www.bilibili.com");
    assert_eq!(classify(&p, &bl), TC_ACT_SHOT);
    assert_eq!(classify(&ipv4_packet(6, 443, "bilibili.com"), &bl), TC_ACT_OK);
    assert_eq!(classify(&ipv4_packet(6, 443, "example.com"), &bl), TC_ACT_OK);
    // unblocking lets it through again
    bl.remove_domain("www.bilibili.com");
    assert_eq!(classify(&p, &bl), TC_ACT_OK);
}

#[test]
fn classify_blocks_subdomains_under_a_suffix_key() {
    let mut bl = Blocklist::new();
    bl.add_domain(".bilibili.com");
    assert_eq!(classify(&ipv4_packet(6, 443, "api.bilibili.com"), &bl), TC_ACT_SHOT);
    assert_eq!(classify(&ipv6_packet("a.b.bilibili.com"), &bl), TC_ACT_SHOT);
    assert_eq!(classify(&ethernet_ipv4_packet("live.bilibili.com"), &bl), TC_ACT_SHOT);
    // the root name itself needs its own key
    assert_eq!(classify(&ipv4_packet(6, 443, "bilibili.com"), &bl), TC_ACT_OK);
    assert_eq!(classify(&ipv4_packet(6, 443, "notbilibili.com"), &bl), TC_ACT_OK);
    bl.add_domain("bilibili.com");
    assert_eq!(classify(&ipv4_packet(6, 443, "bilibili.com"), &bl), TC_ACT_SHOT);
}

#[test]
fn domain_key_pads_to_256_bytes() {
    let k = domain_key("ab");
    assert_eq!(k.name.len(), 256);
    assert_eq!(&k.name[..3], &[b'a', b'b', 0]);
    let long = "x".repeat(300);
    let k = domain_key(&long);
    assert_eq!(k.name, vec![b'x'; 256]);
}

#[test]
fn blocklist_membership() {
    let mut bl = Blocklist::new();
    bl.add_domain("a.com");
    bl.add_domain("a.com");
    assert!(bl.contains_key(&domain_key("a.com")));
    assert!(!bl.contains_key(&domain_key("b.com")));
    bl.remove_domain("a.com");
    assert!(!bl.contains_key(&domain_key("a.com")));
    assert!(!bl.blocks_name(b"a.com"));
}

// ─── text and numbers ───────────────────────────────────────────────────────

#[test]
fn file_names_of_paths() {
    assert_eq!(file_name_of(&chars("/usr/bin/steam")), Some(chars("steam")));
    assert_eq!(file_name_of(&chars("/usr/bin/")), Some(chars("bin")));
    assert_eq!(file_name_of(&chars("/usr/bin/.")), Some(chars("bin")));
    assert_eq!(file_name_of(&chars("/usr/..")), None);
    assert_eq!(file_name_of(&chars("/")), None);
    assert_eq!(file_name_of(&chars("")), None);
    assert_eq!(file_name_of(&chars("steam")), Some(chars("steam")));
}

#[test]
fn splitting_text() {
    assert_eq!(
        split_whitespace(&chars("  default via 10.0.0.1  dev wlan0 ")),
        vec![chars("default"), chars("via"), chars("10.0.0.1"), chars("dev"), chars("wlan0")]
    );
    assert_eq!(split_whitespace(&chars("   ")), Vec::<Vec<char>>::new());
    assert_eq!(split_char(&chars("a::b"), ':'), vec![chars("a"), chars(""), chars("b")]);
    assert_eq!(split_char(&chars(""), ':'), vec![chars("")]);
    assert_eq!(lines_of(&chars("a\r\nb\n\nc\n")), vec![chars("a"), chars("b"), chars(""), chars("c")]);
    assert_eq!(lines_of(&chars("")), Vec::<Vec<char>>::new());
}

#[test]
fn parsing_numbers() {
    assert_eq!(parse_u32(&chars("07")), Some(7));
    assert_eq!(parse_u32(&chars("+5")), Some(5));
    assert_eq!(parse_u32(&chars("-5")), None);
    assert_eq!(parse_u32(&chars("")), None);
    assert_eq!(parse_u32(&chars("+")), None);
    assert_eq!(parse_u32(&chars("4294967295")), Some(4294967295));
    assert_eq!(parse_u32(&chars("4294967296")), None);
    assert_eq!(parse_u32(&chars(" 5")), None);
    assert_eq!(parse_u64(&chars("18446744073709551615")), Some(u64::MAX));
    assert_eq!(parse_u64(&chars("18446744073709551616")), None);
    assert_eq!(parse_i32(&chars("-2147483648")), Some(i32::MIN));
    assert_eq!(parse_i32(&chars("2147483648")), None);
    assert_eq!(parse_i32(&chars("-0")), Some(0));
    assert_eq!(parse_i32(&chars("-")), None);
    assert_eq!(parse_i32(&chars("12a")), None);
    for s in ["0", "42", "-17", "+8", "2147483647", "99999999999", "x", ""] {
        assert_eq!(parse_i32(&chars(s)), s.parse::<i32>().ok());
        assert_eq!(parse_u32(&chars(s)), s.parse::<u32>().ok());
    }
}

// ─── processes ──────────────────────────────────────────────────────────────

#[test]
fn process_tree_children_come_before_their_parent() {
    // 1 -> 2 -> 4, 1 -> 3, 5 is elsewhere
    let links = vec![(2, 1), (3, 1), (4, 2), (5, 9)];
    let order = collect_process_tree_postorder(&links, 1);
    assert_eq!(order, vec![4, 2, 3, 1]);
    let pos = |p: i32| order.iter().position(|&x| x == p).unwrap();
    assert!(pos(4) < pos(2) && pos(2) < pos(1) && pos(3) < pos(1));
    assert!(!order.contains(&5));
}

#[test]
fn process_tree_of_a_leaf_and_with_a_cycle() {
    assert_eq!(collect_process_tree_postorder(&[], 7), vec![7]);
    // a cycle does not repeat anyone
    let links = vec![(2, 1), (1, 2)];
    let order = collect_process_tree_postorder(&links, 1);
    assert_eq!(order, vec![2, 1]);
}

#[test]
fn ps_output_links() {
    let text = "  PID  PPID\n    1     0\n  100     1\n  101   100\n junk line\n  -5     1\n";
    assert_eq!(parse_ps_output(text), vec![(100, 1), (101, 100)]);
    assert_eq!(parse_ps_output(""), vec![]);
}

#[test]
fn finding_processes_by_executable_name() {
    let procs = vec![
        (10, "/Applications/WeChat.app/Contents/MacOS/WeChat".to_string()),
        (11, "".to_string()),
        (12, "/opt/wechat".to_string()),
        (13, "/usr/bin/WeChat".to_string()),
    ];
    assert_eq!(find_pids_by_name(&procs, "WeChat"), vec![10, 13]);
    assert_eq!(
        find_processes_by_name(&procs, "wechat"),
        vec![(12, "/opt/wechat".to_string())]
    );
    assert_eq!(find_pids_by_name(&procs, ""), Vec::<i32>::new());
    assert_eq!(exe_basename("/usr/bin/steam"), "steam");
    assert_eq!(exe_basename(""), "");
}

#[test]
fn listing_buffer_pids() {
    assert_eq!(pids_in_buffer(&[1, 0, 55, -3, 9], 16), vec![1, 55]);
    assert_eq!(pids_in_buffer(&[1, 2], 0), Vec::<i32>::new());
    assert_eq!(pids_in_buffer(&[1, 2], -1), Vec::<i32>::new());
}

#[test]
fn freezer_records_and_releases() {
    let mut s = FreezerState::default();
    let count = s.record_freeze("code".to_string(), &vec![vec![3, 2, 1], vec![2, 5]]);
    assert_eq!(count, 4);
    assert!(s.is_frozen("code"));
    let mut pids = s.frozen.remove("code").unwrap();
    pids.sort();
    assert_eq!(pids, vec![1, 2, 3, 5]);
    assert!(!s.is_frozen("code"));
    assert_eq!(s.frozen.remove("code"), None);
    assert_eq!(union_pids(&vec![vec![1, 1], vec![]]), vec![1]);
    assert_eq!(extra_pids(&vec![1, 2], &vec![3, 2, 4]), vec![3, 4]);
    s.frozen.insert("b".to_string(), vec![1]);
    s.frozen.insert("a".to_string(), vec![2]);
    assert_eq!(s.frozen.insert("a".to_string(), vec![3]), Some(vec![2]));
    assert_eq!(s.frozen_names(), vec!["a", "b"]);
}

#[test]
fn process_status_parent_pid() {
    let status = "Name:\tbash\nUmask:\t0022\nState:\tS (sleeping)\nPPid:\t 1234 \nTracerPid:\t0\n";
    assert_eq!(parse_ppid(status), Some(1234));
    assert_eq!(parse_ppid("Name:\tx\nPPid:\tabc\nPPid:\t5\n"), None);
    assert_eq!(parse_ppid("Name:\tx\n"), None);
}

#[test]
fn process_answers_to_comm_or_executable() {
    assert!(answers_to_name("code\n", None, "code"));
    assert!(answers_to_name("code-insiders", Some("/usr/share/code/code"), "code"));
    assert!(!answers_to_name("steam", Some("/usr/bin/steamwebhelper"), "code"));
    // a process whose executable is unknown has the empty executable name
    assert!(answers_to_name("x", None, ""));
}

// ─── control ────────────────────────────────────────────────────────────────

fn ops_as_pairs(ops: &[DomainOp]) -> Vec<(bool, String)> {
    ops.iter()
        .map(|o| match o {
            DomainOp::Add(d) => (true, d.clone()),
            DomainOp::Remove(d) => (false, d.clone()),
        })
        .collect()
}

#[test]
fn block_adds_what_succeeded_and_reports_failures() {
    let mut st = ControlState::new();
    let cmd = ControlCmd::Block { domains: strings(&["a.com", "b.com", "c.com"]) };
    let ops = domain_ops(&st, &cmd);
    assert_eq!(
        ops_as_pairs(&ops),
        vec![(true, "a.com".to_string()), (true, "b.com".to_string()), (true, "c.com".to_string())]
    );
    let results = vec![None, Some("map full".to_string()), Some("denied".to_string())];
    let resp = apply_domain_results(&mut st, &cmd, &results);
    assert!(!resp.ok);
    assert_eq!(resp.error.as_deref(), Some("b.com: map full; c.com: denied"));
    assert!(resp.status.is_none());
    assert_eq!(st.dynamic_blocked, strings(&["a.com"]));
}

#[test]
fn unblock_drops_domains_even_when_the_backend_fails() {
    let mut st = ControlState::new();
    st.dynamic_blocked = strings(&["a.com", "b.com", "a.com", "c.com"]);
    // x.com was not blocked through the interface (a default domain, say):
    // it is left alone
    let cmd = ControlCmd::Unblock { domains: strings(&["a.com", "x.com"]) };
    let ops = domain_ops(&st, &cmd);
    assert_eq!(ops_as_pairs(&ops), vec![(false, "a.com".to_string())]);
    let resp = apply_domain_results(&mut st, &cmd, &vec![Some("absent".to_string())]);
    assert!(!resp.ok);
    assert_eq!(resp.error.as_deref(), Some("a.com: absent"));
    assert_eq!(st.dynamic_blocked, strings(&["b.com", "c.com"]));
}

#[test]
fn default_domains_survive_unblock_and_sync() {
    let mut st = ControlState::new();
    st.dynamic_blocked = strings(&["tiktok.com"]);
    let unblock = ControlCmd::Unblock { domains: strings(&["bilibili.com"]) };
    assert!(domain_ops(&st, &unblock).is_empty());
    let sync = ControlCmd::Sync { blocked_domains: vec![], blocked_apps: vec![] };
    assert_eq!(ops_as_pairs(&domain_ops(&st, &sync)), vec![(false, "tiktok.com".to_string())]);
}

#[test]
fn sync_replaces_domains_and_app_names() {
    let mut st = ControlState::new();
    st.dynamic_blocked = strings(&["old.com"]);
    let cmd = ControlCmd::Sync {
        blocked_domains: strings(&[".bilibili.com", "bilibili.com"]),
        blocked_apps: strings(&["steam", "bilibili*"]),
    };
    let ops = domain_ops(&st, &cmd);
    assert_eq!(
        ops_as_pairs(&ops),
        vec![
            (false, "old.com".to_string()),
            (true, ".bilibili.com".to_string()),
            (true, "bilibili.com".to_string())
        ]
    );
    // the removal's failure is not reported
    let resp = apply_domain_results(&mut st, &cmd, &vec![Some("gone".to_string()), None, None]);
    assert!(resp.ok);
    assert!(resp.error.is_none());
    assert_eq!(st.dynamic_blocked, strings(&[".bilibili.com", "bilibili.com"]));

    let mut linux = app_blocker::BlockedSet::default();
    linux.names.insert("old".to_string());
    linux.paths.insert("/usr/bin/x".to_string());
    apply_app_cmd_linux(&mut linux, &cmd);
    assert_eq!(linux.names.sorted_vec(), strings(&["bilibili*", "steam"]));
    // every application block is cleared first, paths included
    assert!(linux.paths.is_empty());
    assert!(!linux.is_blocked("/usr/bin/x"));

    let mut mac = app_watcher::BlockedSet::default();
    mac.names.insert("old".to_string());
    mac.patterns.insert("x*".to_string());
    mac.paths.insert("/Applications/X.app/Contents/MacOS/X".to_string());
    let resp = apply_app_cmd_macos(&mut mac, &cmd);
    assert!(resp.ok && resp.error.is_none());
    assert!(mac.paths.is_empty());
    assert_eq!(mac.names.sorted_vec(), strings(&["steam"]));
    assert_eq!(mac.patterns.sorted_vec(), strings(&["bilibili*"]));
    assert!(mac.is_blocked("/opt/bilibili-helper", "bilibili-helper"));
}

#[test]
fn focus_mode_on_and_off() {
    let mut st = ControlState::new();
    let on = ControlCmd::FocusMode { enabled: true, domains: strings(&["tiktok.com", "x.com"]) };
    let resp = apply_domain_results(&mut st, &on, &vec![None, Some("no".to_string())]);
    assert!(resp.ok);
    assert!(st.focus_mode);
    assert_eq!(st.dynamic_blocked, strings(&["tiktok.com"]));
    let off = ControlCmd::FocusMode { enabled: false, domains: vec![] };
    let ops = domain_ops(&st, &off);
    assert_eq!(ops_as_pairs(&ops), vec![(false, "tiktok.com".to_string())]);
    let resp = apply_domain_results(&mut st, &off, &vec![None]);
    assert!(resp.ok);
    assert!(!st.focus_mode);
    assert!(st.dynamic_blocked.is_empty());
}

#[test]
fn app_commands_on_both_sets() {
    let mut linux = app_blocker::BlockedSet::default();
    apply_app_cmd_linux(
        &mut linux,
        &ControlCmd::BlockApp { paths: strings(&["/usr/bin/steam"]), names: strings(&["WeChat", "bili*"]) },
    );
    assert!(linux.is_blocked("/usr/bin/steam"));
    assert!(linux.is_blocked("/opt/WeChat"));
    assert!(linux.is_blocked("/opt/bilibili"));
    apply_app_cmd_linux(&mut linux, &ControlCmd::UnblockApps { apps: strings(&["bili*"]) });
    assert!(!linux.is_blocked("/opt/bilibili"));
    apply_app_cmd_linux(&mut linux, &ControlCmd::BlockApps { apps: strings(&["code"]) });
    assert_eq!(linux.names.sorted_vec(), strings(&["WeChat", "code"]));
    apply_app_cmd_linux(
        &mut linux,
        &ControlCmd::UnblockApp { paths: strings(&["/usr/bin/steam"]), names: strings(&["code"]) },
    );
    assert!(!linux.is_blocked("/usr/bin/steam"));
    assert_eq!(linux.names.sorted_vec(), strings(&["WeChat"]));

    let mut mac = app_watcher::BlockedSet::default();
    apply_app_cmd_macos(&mut mac, &ControlCmd::BlockApps { apps: strings(&["WeChat", "bili*"]) });
    assert_eq!(mac.names.sorted_vec(), strings(&["WeChat"]));
    assert_eq!(mac.patterns.sorted_vec(), strings(&["bili*"]));
    apply_app_cmd_macos(&mut mac, &ControlCmd::UnblockApps { apps: strings(&["bili*"]) });
    assert!(mac.patterns.is_empty());
    assert_eq!(mac.names.len(), 1);
}

#[test]
fn status_reports_the_state() {
    let mut st = ControlState::new();
    st.dynamic_blocked = strings(&["bilibili.com", ".bilibili.com"]);
    let mut apps = app_watcher::BlockedSet::default();
    apps.names.insert("WeChat".to_string());
    apps.patterns.insert("bilibili*".to_string());
    apps.paths.insert("/b".to_string());
    apps.paths.insert("/a".to_string());
    let mut fr = FreezerState::default();
    fr.record_freeze("steam".to_string(), &vec![vec![9]]);
    let resp = status_macos(&st, &apps, &fr, 3600);
    assert!(resp.ok && resp.error.is_none());
    let p = resp.status.unwrap();
    assert!(!p.focus_mode);
    assert_eq!(p.blocked_domains, strings(&["bilibili.com", ".bilibili.com"]));
    assert_eq!(p.dynamic_blocked, p.blocked_domains);
    assert_eq!(p.blocked_apps.paths, strings(&["/a", "/b"]));
    assert_eq!(p.blocked_apps.names, strings(&["WeChat", "bilibili*"]));
    assert_eq!(p.frozen_apps, strings(&["steam"]));
    assert_eq!(p.uptime_seconds, 3600);
    assert_eq!(p.platform, "macos/pf");

    let mut lapps = app_blocker::BlockedSet::default();
    lapps.names.insert("steam".to_string());
    let resp = status_linux(&st, &lapps, &FreezerState::default(), 42);
    let p = resp.status.unwrap();
    assert_eq!(p.platform, "linux/ebpf");
    assert_eq!(p.blocked_apps.names, strings(&["steam"]));
    assert!(p.frozen_apps.is_empty());
}

#[test]
fn freeze_and_thaw_responses() {
    let names = strings(&["code", "WeChat", "steam"]);
    let resp = freeze_response(&names, &vec![(3, false), (0, true), (0, false)]);
    assert!(!resp.ok);
    assert_eq!(resp.error.as_deref(), Some("steam: no matching process found"));
    let resp = freeze_response(&names, &vec![(3, false), (0, true), (1, false)]);
    assert!(resp.ok && resp.error.is_none());
    let resp = thaw_response(&strings(&["code", "x"]), &vec![false, false]);
    assert_eq!(resp.error.as_deref(), Some("code: not in frozen list; x: not in frozen list"));
    let resp = thaw_response(&strings(&["code"]), &vec![true]);
    assert!(resp.ok);
}

#[test]
fn error_responses() {
    let r = empty_input_response();
    assert!(!r.ok);
    assert_eq!(r.error.as_deref(), Some("empty input"));
    let r = parse_error_response("expected value at line 1 column 1");
    assert_eq!(r.error.as_deref(), Some("parse error: expected value at line 1 column 1"));
}

// ─── screen lock ────────────────────────────────────────────────────────────

#[test]
fn lock_daemon_locks_once_per_hour() {
    let mut d = LockDaemon::new();
    assert!(!d.step(0, in_lock_time(0, None), false));
    assert!(d.step(1, in_lock_time(1, None), true)); // the window starts
    assert!(!d.step(1, true, true)); // still locked, same hour
    assert!(d.step(1, true, false)); // unlocked: lock again
    assert!(d.step(2, true, true)); // the hour changed
    assert!(!d.step(7, in_lock_time(7, None), false));
    assert_eq!(d.last_lock_hour, None);
    assert!(in_lock_time(15, Some(15)));
    assert!(!in_lock_time(2, Some(15)));
}

#[test]
fn lock_configuration_values() {
    assert_eq!(hour_from_date_output("03\n"), 3);
    assert_eq!(hour_from_date_output("garbage"), 0);
    assert_eq!(poll_secs_from(Some("5")), 5);
    assert_eq!(poll_secs_from(Some("five")), 60);
    assert_eq!(poll_secs_from(None), 60);
    assert_eq!(test_hour_from(Some("1")), Some(1));
    assert_eq!(test_hour_from(Some("")), None);
    assert!(locked_from_output(" 1\n"));
    assert!(!locked_from_output("0\n"));
    assert!(!locked_from_output("11"));
    let plist = launch_daemon_plist("/usr/local/bin/antidistractor");
    assert!(plist.contains("<string>/usr/local/bin/antidistractor</string>"));
    assert!(plist.contains("--screen-lock-daemon"));
    assert!(plist.starts_with("<?xml"));
}

// ─── interface and start-up ─────────────────────────────────────────────────

#[test]
fn interfaces_from_tool_output() {
    assert_eq!(
        default_interface_from_route("default via 192.168.1.1 dev wlp1s0 proto dhcp metric 600\n"),
        Some("wlp1s0".to_string())
    );
    assert_eq!(default_interface_from_route("default via 1.2.3.4"), None);
    let link = "5: Mihomo: <POINTOPOINT,UP> mtu 9000 qdisc\n7: tun0: <POINTOPOINT> mtu 1500\nbroken line\n";
    assert_eq!(tun_interfaces_from_link(link), strings(&["Mihomo", "tun0"]));
    let ifc = "lo0: flags=8049<UP,LOOPBACK,RUNNING,MULTICAST> mtu 16384\n\tinet 127.0.0.1\nutun0: flags=8051<UP,POINTOPOINT,RUNNING,MULTICAST> mtu 1380\n\tinet6 fe80::1\nen0: flags=8863<UP,BROADCAST> mtu 1500\nppp0: flags=8051<UP,POINTOPOINT> mtu 1500\n";
    assert_eq!(tun_interfaces_from_ifconfig(ifc), strings(&["utun0"]));
}

#[test]
fn interfaces_to_attach() {
    assert_eq!(
        target_interfaces("wlan0", &strings(&["tun0", "lo", "Mihomo"])),
        strings(&["Mihomo", "lo", "tun0", "wlan0"])
    );
    let args = strings(&["antidistractor", "--daemon", "eth1"]);
    assert_eq!(interface_arg(&args), Some("eth1".to_string()));
    assert_eq!(interface_arg(&strings(&["antidistractor", "-d"])), None);
    assert_eq!(choose_interface(None, Some("wlan0".to_string())), "wlan0");
    assert_eq!(choose_interface(None, None), "eth0");
    assert_eq!(choose_interface(Some("x".to_string()), Some("y".to_string())), "x");
    assert!(is_daemon_mode(&args));
    assert!(is_daemon_mode(&strings(&["a", "-d"])));
    assert!(!is_daemon_mode(&strings(&["a", "--daemonize"])));
    assert!(is_screen_lock_daemon_mode(&strings(&["a", "--screen-lock-daemon"])));
    let list = default_blocklist();
    assert_eq!(list.len(), 24);
    assert_eq!(list[0], "bilibili.com");
    assert_eq!(list[23], "biliapi.com");
}

// ─── the terminal interface ─────────────────────────────────────────────────

#[test]
fn keys_drive_the_interface() {
    let mut app = App::new();
    assert_eq!(app.blocklist, strings(&["www.bilibili.com", "bilibili.com"]));
    assert!(matches!(app.handle_key(Key::Char('x')), UiAction::Nothing));
    assert!(matches!(app.handle_key(Key::Char('a')), UiAction::Nothing));
    assert!(app.input_mode == InputMode::Editing);
    for c in "ab.cd".chars() {
        app.handle_key(Key::Char(c));
    }
    app.handle_key(Key::Backspace);
    assert_eq!(app.input, "ab.c");
    match app.handle_key(Key::Enter) {
        UiAction::AddDomain(d) => assert_eq!(d, "ab.c"),
        _ => panic!("expected an added domain"),
    }
    assert!(app.input_mode == InputMode::Normal);
    assert_eq!(app.input, "");
    assert_eq!(app.blocklist.len(), 3);
    match app.handle_key(Key::Char('d')) {
        UiAction::RemoveDomain(d) => assert_eq!(d, "ab.c"),
        _ => panic!("expected a removed domain"),
    }
    app.handle_key(Key::Char('a'));
    assert!(matches!(app.handle_key(Key::Enter), UiAction::Nothing));
    app.handle_key(Key::Char('p'));
    assert!(!app.protection_active);
    app.handle_key(Key::Char('q'));
    assert!(app.should_quit);
}

#[test]
fn logs_keep_the_last_hundred() {
    let mut app = App::new();
    let lines: Vec<String> = (0..150).map(|i| format!("line {i}")).collect();
    app.update_logs(lines);
    assert_eq!(app.logs.len(), 100);
    assert_eq!(app.logs[0], "line 50");
    assert_eq!(app.logs[99], "line 149");
    assert_eq!(title_text(true), "Antidistractor (eBPF Trace Mode) [ACTIVE]");
    assert_eq!(title_text(false), "Antidistractor (eBPF Trace Mode) [PAUSED]");
    assert_eq!(centered_margin(60), 20);
}

// ─── app blocking ───────────────────────────────────────────────────────────

#[test]
fn exec_blocker_decisions() {
    let mut set = app_blocker::BlockedSet::default();
    set.names.insert("steam".to_string());
    set.names.insert("bilibili*".to_string());
    assert!(set.is_blocked("/usr/bin/steam"));
    assert!(set.is_blocked("/opt/bilibili-helper"));
    assert!(!set.is_blocked("/usr/bin/bash"));
    assert_eq!(app_blocker::path_response(&set, "/usr/bin/steam"), app_blocker::FAN_DENY);
    assert_eq!(app_blocker::path_response(&set, "/usr/bin/ls"), app_blocker::FAN_ALLOW);
    assert_eq!(app_blocker::blocked_app_name("/usr/bin/steam"), "steam");
    assert_eq!(app_blocker::encode_response(5, app_blocker::FAN_DENY), vec![5, 0, 0, 0, 2, 0, 0, 0]);
}

#[test]
fn exec_blocker_reads_event_records() {
    let mut buf = Vec::new();
    for (fd, pid, mask) in [(7i32, 100i32, 0x40000u64), (-1, 5, 0x40000)] {
        buf.extend_from_slice(&24u32.to_le_bytes());
        buf.push(3);
        buf.push(0);
        buf.extend_from_slice(&24u16.to_le_bytes());
        buf.extend_from_slice(&mask.to_le_bytes());
        buf.extend_from_slice(&fd.to_le_bytes());
        buf.extend_from_slice(&pid.to_le_bytes());
    }
    let evs = app_blocker::parse_events(&buf);
    assert_eq!(evs.len(), 2);
    assert_eq!((evs[0].fd, evs[0].pid, evs[0].mask), (7, 100, 0x40000));
    assert!(matches!(app_blocker::event_step(&evs[0], 1), app_blocker::EventStep::CheckPath));
    assert!(matches!(app_blocker::event_step(&evs[0], 100), app_blocker::EventStep::Respond(1)));
    assert!(matches!(app_blocker::event_step(&evs[1], 1), app_blocker::EventStep::Skip));
}

#[test]
fn polling_watcher_decisions() {
    let mut set = app_watcher::BlockedSet::default();
    set.patterns.insert("bili*".to_string());
    assert!(app_watcher::should_kill(&set, 500, 42, "", "bilibili"));
    assert!(!app_watcher::should_kill(&set, 42, 42, "", "bilibili"));
    assert!(!app_watcher::should_kill(&set, 1, 42, "", "bilibili"));
    assert_eq!(app_watcher::killed_name("/Applications/X.app/Contents/MacOS/X", "x"), "X");
    assert_eq!(app_watcher::killed_name("", "comm"), "comm");
    let w = app_watcher::AppWatcher::with_interval(250);
    assert_eq!(w.poll_interval_ms, 250);
    assert_eq!(app_watcher::AppWatcher::new().poll_interval_ms, 500);
}

// ─── hosts file and notifications ───────────────────────────────────────────

#[test]
fn hosts_file_content() {
    let mut b = PfBlocker::new();
    assert!(b.add_domain("z.com"));
    assert!(b.add_domain("a.com"));
    assert!(!b.add_domain("a.com"));
    assert!(!b.add_domain(".suffix.com"));
    let current = "127.0.0.1 localhost\n# BEGIN antidistractor\n127.0.0.1 old.com\n# END antidistractor\n\n";
    assert_eq!(
        b.hosts_content(current),
        "127.0.0.1 localhost\n# BEGIN antidistractor\n127.0.0.1 a.com\n::1 a.com\n127.0.0.1 z.com\n::1 z.com\n# END antidistractor\n"
    );
    assert!(b.remove_domain("a.com"));
    assert!(!b.remove_domain("a.com"));
    b.disable();
    assert_eq!(b.hosts_content("127.0.0.1 localhost"), "127.0.0.1 localhost\n");
}

#[test]
fn notification_texts() {
    let n = send_app_blocked_notification("WeChat");
    assert_eq!(n.title, "Antidistractor");
    assert_eq!(n.message, "已阻止 \"WeChat\" 启动");
    assert_eq!(n.script(), "display notification \"已阻止 \\\"WeChat\\\" 启动\" with title \"Antidistractor\"");
    assert_eq!(send_domain_blocked_notification("x.com").message, "已封锁域名: x.com");
    assert_eq!(send_screen_lock_notification().title, "Antidistractor - 强制锁屏");
}

// ─── laws on concrete values ────────────────────────────────────────────────

#[test]
fn hosts_rewrite_keeps_other_lines() {
    let mut b = PfBlocker::new();
    b.add_domain("bilibili.com");
    let current = "127.0.0.1 localhost\n\n# a comment\n::1 localhost   \n\n";
    let once = b.hosts_content(current);
    assert_eq!(remove_hosts_block(&once), "127.0.0.1 localhost\n\n# a comment\n::1 localhost");
    // rewriting for another set replaces the block instead of adding one
    let mut c = PfBlocker::new();
    c.add_domain("x.com");
    assert_eq!(c.hosts_content(&once), c.hosts_content(current));
}

#[test]
fn escaped_text_reads_back() {
    fn unescape(s: &str) -> String {
        let mut out = String::new();
        let mut it = s.chars();
        while let Some(c) = it.next() {
            if c == '\\' {
                match it.next() {
                    Some(n) => out.push(n),
                    None => out.push(c),
                }
            } else {
                out.push(c);
            }
        }
        out
    }
    for s in ["plain", "a \"quoted\" \\ path\\", "已阻止 \"微信\"", ""] {
        assert_eq!(unescape(&antidistractor::notifications::escape_applescript(s)), s);
    }
}

#[test]
fn unblocking_after_blocking_restores_the_list() {
    let mut st = ControlState::new();
    st.dynamic_blocked = strings(&["keep.com"]);
    let ds = strings(&["a.com", "b.com"]);
    let block = ControlCmd::Block { domains: ds.clone() };
    apply_domain_results(&mut st, &block, &vec![None, Some("e".to_string())]);
    assert_eq!(st.dynamic_blocked, strings(&["keep.com", "a.com"]));
    let unblock = ControlCmd::Unblock { domains: ds };
    assert_eq!(domain_ops(&st, &unblock).len(), 1);
    let resp = apply_domain_results(&mut st, &unblock, &vec![None]);
    assert!(resp.ok);
    assert_eq!(st.dynamic_blocked, strings(&["keep.com"]));
}

#[test]
fn enabling_cleans_a_stale_block() {
    let stale = "127.0.0.1 localhost\n# BEGIN antidistractor\n127.0.0.1 old.com\n::1 old.com\n# END antidistractor\n";
    let (b, cleaned) = PfBlocker::new_and_enable(stale).unwrap();
    assert!(b.blocked_domains().is_empty());
    assert_eq!(cleaned, "127.0.0.1 localhost\n");
    assert_eq!(b.enable("a\n\n").unwrap(), "a\n");
    assert!(antidistractor::daemon::check_interfaces(0).is_err());
    assert!(antidistractor::daemon::check_interfaces(2).is_ok());
    assert_eq!(
        antidistractor::daemon::check_attached(0),
        Err("Failed to attach eBPF to any interface".to_string())
    );
    let w = <antidistractor::app_watcher::AppWatcher as Default>::default();
    assert!(w.blocked.paths.is_empty() && w.blocked.names.is_empty() && w.blocked.patterns.is_empty());
}
