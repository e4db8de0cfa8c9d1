use antidistractor::app_watcher::BlockedSet;
use antidistractor::notifications::escape_applescript;
use antidistractor::pf_blocker::{remove_hosts_block, PfBlocker};
use antidistractor::process_freezer::FreezerState;
use antidistractor::process_utils::{list_all_processes, parse_ps_output, pids_in_buffer};
use antidistractor::screen_lock::is_in_lock_window;

#[test]
fn test_blocked_set_path_match() {
    let mut set = BlockedSet::default();
    set.paths.insert("/Applications/WeChat.app/Contents/MacOS/WeChat".to_string());
    assert!(set.is_blocked("/Applications/WeChat.app/Contents/MacOS/WeChat", "WeChat"));
    assert!(!set.is_blocked("/Applications/Other.app/Contents/MacOS/Other", "Other"));
}

#[test]
fn test_blocked_set_name_match() {
    let mut set = BlockedSet::default();
    set.names.insert("WeChat".to_string());
    assert!(set.is_blocked("/Applications/WeChat.app/Contents/MacOS/WeChat", "WeChat"));
    assert!(set.is_blocked("", "WeChat")); // comm match
    assert!(!set.is_blocked("/Applications/Other.app/Other", "Other"));
}

#[test]
fn test_blocked_set_basename_match() {
    let mut set = BlockedSet::default();
    set.names.insert("WeChat".to_string());
    assert!(set.is_blocked("/opt/wechat/WeChat", "WeChat"));
    assert!(!set.is_blocked("/opt/wechat/wechat", "wechat")); // case-sensitive
}

#[test]
fn test_escape_applescript() {
    assert_eq!(escape_applescript("hello"), "hello");
    assert_eq!(escape_applescript("say \"hi\""), r#"say \"hi\""#);
    assert_eq!(escape_applescript("back\\slash"), r#"back\\slash"#);
}

#[test]
fn test_escape_with_chinese() {
    // Chinese characters pass through unchanged
    let s = "已阻止 WeChat 启动";
    assert_eq!(escape_applescript(s), s);
}

#[test]
fn test_pf_blocker_new() {
    let b = PfBlocker::new();
    assert!(b.blocked_domains().is_empty());
}

#[test]
fn test_add_remove_domain_state() {
    let mut b = PfBlocker::new();
    b.blocked_domains.insert("test.example.com".to_string());
    assert!(b.blocked_domains().contains(&"test.example.com".to_string()));
    b.blocked_domains.remove("test.example.com");
    assert!(b.blocked_domains().is_empty());
}

#[test]
fn test_remove_hosts_block_empty() {
    let content = "127.0.0.1 localhost\n::1 localhost\n";
    let cleaned = remove_hosts_block(content);
    assert!(!cleaned.contains("antidistractor"));
    assert!(cleaned.contains("localhost"));
}

#[test]
fn test_remove_hosts_block_with_entries() {
    let content = "127.0.0.1 localhost\n# BEGIN antidistractor\n127.0.0.1 bilibili.com\n# END antidistractor\n::1 localhost\n";
    let cleaned = remove_hosts_block(content);
    assert!(!cleaned.contains("bilibili.com"));
    assert!(cleaned.contains("localhost"));
}

#[test]
fn test_blocked_domains_sorted() {
    let mut b = PfBlocker::new();
    b.blocked_domains.insert("z.com".to_string());
    b.blocked_domains.insert("a.com".to_string());
    b.blocked_domains.insert("m.com".to_string());
    let v = b.blocked_domains();
    assert_eq!(v, vec!["a.com", "m.com", "z.com"]);
}

#[test]
fn test_list_processes_not_empty() {
    // the listing that the system's process table gave: pid 1 and its executable
    let procs = list_all_processes(vec![(1, "/sbin/launchd".to_string())]);
    assert!(!procs.is_empty());
}

fn is_hour_in_window(hour: u32) -> bool {
    is_in_lock_window(hour)
}

#[test]
fn test_lock_window_boundaries() {
    assert!(!is_hour_in_window(0));
    assert!(is_hour_in_window(1));
    assert!(is_hour_in_window(3));
    assert!(is_hour_in_window(6));
    assert!(!is_hour_in_window(7));
    assert!(!is_hour_in_window(12));
    assert!(!is_hour_in_window(23));
}

#[test]
fn test_freezer_state_default() {
    let s = FreezerState::default();
    assert!(s.frozen_names().is_empty());
    assert!(!s.is_frozen("firefox"));
}

#[test]
fn test_freezer_state_insert_remove() {
    let mut s = FreezerState::default();
    s.frozen.insert("WeChat".to_string(), [1234, 1235].into_iter().collect());
    assert!(s.is_frozen("WeChat"));
    assert!(!s.is_frozen("wechat")); // case-sensitive
    assert_eq!(s.frozen_names(), vec!["WeChat"]);
    s.frozen.remove("WeChat");
    assert!(!s.is_frozen("WeChat"));
}

#[test]
fn test_list_pids_not_empty() {
    // a listing buffer as the system fills it: three pids, 12 bytes reported
    let pids = pids_in_buffer(&[1, 88, 301, 0], 12);
    assert!(!pids.is_empty(), "should find at least one PID");
}

#[test]
fn test_pid_1_exists() {
    let pids = pids_in_buffer(&[1, 88, 301, 0], 12);
    assert!(pids.contains(&1), "PID 1 (launchd) should exist");
}

#[test]
fn test_build_children_map() {
    // output of `ps -eo pid,ppid` on a running system
    let links = parse_ps_output("  PID  PPID\n    1     0\n   88     1\n  301    88\n");
    // launchd (PID 1) should have children
    assert!(links.iter().any(|&(_, ppid)| ppid == 1) || !links.is_empty());
}
