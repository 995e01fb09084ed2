use aur_guard::config::{
    app_dir, baseline_file, config_file, epoch_from, nanos_from, now_epoch, now_nanos, paru_conf,
    parse_pid, pid_file_content, pidfile, socket_path, state_file,
};

#[test]
fn paths() {
    assert_eq!(config_file("/home/u/.config/aur-guard"), "/home/u/.config/aur-guard/config.toml");
    assert_eq!(config_file("/x/"), "/x/config.toml");
    assert_eq!(app_dir("/tmp"), "/tmp/aur-guard");
    assert_eq!(socket_path(Some("/run/user/1000"), "/s"), "/run/user/1000/aur-guard.sock");
    assert_eq!(socket_path(None, "/s"), "/s/aur-guard.sock");
    assert_eq!(pidfile("/s"), "/s/daemon.pid");
    assert_eq!(state_file("/s"), "/s/feeds/current.json");
    assert_eq!(baseline_file("/s"), "/s/feed_baseline.json");
    assert_eq!(paru_conf("/c"), "/c/paru/paru.conf");
}

#[test]
fn pid_files() {
    assert_eq!(pid_file_content(4242), "4242\n");
    assert_eq!(parse_pid(&pid_file_content(4242)), Some(4242));
    assert_eq!(parse_pid(&pid_file_content(u32::MAX)), Some(u32::MAX));
    assert_eq!(parse_pid(" +17 \n"), Some(17));
    assert_eq!(parse_pid("4294967296"), None);
    assert_eq!(parse_pid("12a"), None);
    assert_eq!(parse_pid(""), None);
    assert_eq!(parse_pid("+"), None);
    assert_eq!(parse_pid("-1"), None);
}

#[test]
fn clock() {
    assert_eq!(epoch_from(Some(5)), 5);
    assert_eq!(epoch_from(None), 0);
    assert_eq!(epoch_from(Some(u64::MAX)), -1);
    assert_eq!(nanos_from(Some(7)), 7);
    assert_eq!(nanos_from(None), 0);
    assert!(now_epoch() > 1_600_000_000);
    assert!(now_nanos() > 1_600_000_000_000_000_000);
}
