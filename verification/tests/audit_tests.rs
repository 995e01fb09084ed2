use aur_guard::audit::{
    cmdline_text, cron_paths, in_suspicious_dir, is_kernel_thread, listening_pids,
    not_pacman_owned_path, package_lines, parse_status, pids_from_groups, port_finding, rc_files, recent_secs, run,
    scan_persistence, short, short_is_ok, CronObs, EntryObs, Finding, HomeObs, KeysObs,
    PersistenceObs, ProcScan,
};
use aur_guard::config::Config;
use aur_guard::feeds::{FeedEntry, FeedState};

fn s(v: &[&str]) -> Vec<String> {
    v.iter().map(|x| x.to_string()).collect()
}

fn fs(v: &[Finding]) -> Vec<(String, String)> {
    v.iter().map(|f| (f.severity.clone(), f.message.clone())).collect()
}

fn f(sev: &str, msg: &str) -> (String, String) {
    (sev.to_string(), msg.to_string())
}

#[test]
fn package_lines_trims() {
    assert_eq!(package_lines("a\n  b  \n\n\tc\n"), s(&["a", "b", "c"]));
    assert_eq!(package_lines(""), Vec::<String>::new());
}

#[test]
fn kernel_threads() {
    assert!(is_kernel_thread("[kworker/0:1]", b"", 2));
    assert!(!is_kernel_thread("[kworker/0:1]", b"", 1));
    assert!(!is_kernel_thread("[kworker", b"", 2));
    assert!(!is_kernel_thread("[x]", b"x", 2));
}

#[test]
fn shortening() {
    assert_eq!(short("abc", 5), "abc");
    assert_eq!(short("abcdef", 3), "abc…");
    assert_eq!(short("abc", 3), "abc");
    assert!(short_is_ok("ñandu", 2));
    assert_eq!(short("ñandu", 2), "ñ…");
    assert!(!short_is_ok("ñandu", 1));
    assert!(short_is_ok("ñ", 5));
}

#[test]
fn suspicious_dirs() {
    assert_eq!(in_suspicious_dir("/tmp/x"), Some("/tmp/"));
    assert_eq!(in_suspicious_dir("/dev/shm/x"), Some("/dev/shm/"));
    assert_eq!(in_suspicious_dir("/var/tmp/y"), Some("/var/tmp/"));
    assert_eq!(in_suspicious_dir("/run/user/1000/z"), Some("/run/user/"));
    assert_eq!(in_suspicious_dir("/tmpfoo"), None);
    assert!(not_pacman_owned_path("/home/u/bin/x"));
    assert!(!not_pacman_owned_path("/usr/bin/x"));
    assert!(!not_pacman_owned_path("/snap/x"));
    assert!(not_pacman_owned_path("/snapx"));
}

fn cfg(days: u64) -> Config {
    Config { cache_ttl_secs: 3600, recent_days: days, notify: true, log: true, feeds: vec![] }
}

#[test]
fn recent_window() {
    assert_eq!(recent_secs(&cfg(30)), 2_592_000);
    assert_eq!(recent_secs(&cfg(u64::MAX)), u64::MAX);
    assert_eq!(recent_secs(&cfg(0)), 0);
}

#[test]
fn status_and_cmdline() {
    let st = "Name:\tbash\nUmask:\t0022\nPPid:\t  42\nPPid:\t7\n";
    assert_eq!(parse_status(st), (42, "bash".to_string()));
    assert_eq!(parse_status("PPid: x\n"), (0, String::new()));
    assert_eq!(cmdline_text(b"/usr/bin/python\0-c\0\0print(1)\0"), "/usr/bin/python -c print(1)");
    assert_eq!(cmdline_text(b""), "");
    assert_eq!(cmdline_text(b"a\xffb"), "a\u{fffd}b");
}

#[test]
fn audit_run() {
    let st = FeedState {
        updated_at: 0,
        packages: vec![FeedEntry { name: "evil".into(), campaigns: s(&["c"]) }],
    };
    let r = run(&st, &s(&["bash", "evil-bin", "evil"]), s(&["evil"]), vec![], vec![]);
    assert_eq!(r.scanned_installed, 3);
    assert_eq!(r.foreign_installed, s(&["evil"]));
    assert_eq!(r.infected.len(), 2);
    assert_eq!(r.infected[0].name, "evil-bin");
    assert_eq!(r.infected[1].reasons, s(&["c"]));
    assert!(r.infected.iter().all(|v| v.malicious));
}

#[test]
fn process_scan() {
    let mut sc = ProcScan::new();
    assert_eq!(sc.observe(1, "[kw]", b"", 2, "", None), None);
    assert_eq!(sc.observe(5, "x", b"x", 1, "/tmp/x --run", Some("/tmp/x")), Some("/tmp/x".to_string()));
    sc.record_owner(5, "x", "/tmp/x", "/tmp/x --run", false);
    assert_eq!(sc.observe(6, "x", b"x", 1, "/tmp/x", Some("/tmp/x")), None);
    assert_eq!(sc.observe(7, "aur-guard", b"a", 1, "aur-guard daemon", Some("/tmp/a")), None);
    assert_eq!(sc.observe(8, "py", b"p", 1, "/var/tmp/evil.py", None), None);
    assert_eq!(sc.observe(9, "ls", b"l", 1, "ls", Some("/usr/bin/ls")), None);
    let out = fs(&sc.into_findings());
    assert_eq!(
        out,
        vec![
            f("crit", "proceso 5 [x] con binario en /tmp/: /tmp/x --run"),
            f("warn", "proceso 5 [x] con binario sin paquete: /tmp/x (/tmp/x --run)"),
            f("crit", "proceso 6 [x] con binario en /tmp/: /tmp/x"),
            f("info", "proceso 8 [py] en ruta sospechosa /var/tmp/: /var/tmp/evil.py"),
        ]
    );
}

#[test]
fn ownership_queries_are_bounded() {
    let mut sc = ProcScan::new();
    for i in 0..100u32 {
        let exe = format!("/opt/bin{}", i);
        match sc.observe(i, "p", b"p", 1, "p", Some(&exe)) {
            Some(e) => sc.record_owner(i, "p", &e, "p", true),
            None => assert!(i >= 80),
        }
    }
    assert!(sc.into_findings().is_empty());
}

#[test]
fn ports() {
    let out = "LISTEN 0 5 *:80 users:((\"nc\",pid=123,fd=3),(\"nc\",pid=124,fd=4))\nLISTEN x pid=123\n";
    assert_eq!(listening_pids(out), s(&["123", "124"]));
    assert_eq!(listening_pids("<ss no disponible: x>"), Vec::<String>::new());
    let p = port_finding("TCP", "123", "/dev/shm/x").unwrap();
    assert_eq!(p.message, "puerto TCP escuchando desde /dev/shm/ (pid 123): /dev/shm/x");
    assert_eq!(p.severity, "crit");
    assert!(port_finding("TCP", "1", "/usr/bin/sshd").is_none());
}

fn e(name: &str, recent: bool) -> EntryObs {
    EntryObs { name: name.to_string(), recent }
}

#[test]
fn persistence() {
    assert_eq!(rc_files(), s(&[".bashrc", ".zshrc", ".profile", ".bash_profile"]));
    assert_eq!(cron_paths().len(), 6);
    let obs = PersistenceObs {
        system_units: vec![e("a.service", true), e("b.conf", true), e("c.timer", false)],
        home: Some(HomeObs {
            user_units: vec![e("u.timer", true), e("u.socket", true)],
            autostart: s(&["x.desktop", "y.txt"]),
            authorized_keys: Some(KeysObs { text: Some("ssh-ed25519 AAA\n\n  \nssh-rsa B\n".into()), recent: true }),
            rc_files: vec![e(".bashrc", true), e(".zshrc", false)],
        }),
        cron: vec![
            CronObs::File { path: "/etc/crontab".into(), recent: true },
            CronObs::Dir { entries: vec![e("/etc/cron.d/x", true), e("/etc/cron.d/y", false)] },
            CronObs::Absent,
        ],
        rc_local: true,
        iptables: "Chain INPUT\nACCEPT all\nDROP tcp\nfoo\n".into(),
    };
    assert_eq!(
        fs(&scan_persistence(&obs)),
        vec![
            f("warn", "unit systemd modificada recientemente: /etc/systemd/system (a.service)"),
            f("warn", "unit systemd de usuario modificada recientemente: u.timer"),
            f("info", "entrada de autostart presente: x.desktop"),
            f("warn", "authorized_keys con 2 claves (modificado recientemente)"),
            f("info", ".bashrc modificado recientemente"),
            f("warn", "/etc/crontab modificado recientemente"),
            f("warn", "/etc/cron.d/x modificado recientemente"),
            f("info", "/etc/rc.local existe"),
            f("info", "2 reglas activas en iptables"),
        ]
    );
    let obs2 = PersistenceObs {
        system_units: vec![],
        home: Some(HomeObs {
            user_units: vec![],
            autostart: vec![],
            authorized_keys: Some(KeysObs { text: None, recent: false }),
            rc_files: vec![],
        }),
        cron: vec![],
        rc_local: false,
        iptables: "<iptables no disponible: x>".into(),
    };
    assert_eq!(
        fs(&scan_persistence(&obs2)),
        vec![
            f("info", "authorized_keys con 0 claves"),
            f("info", "iptables no disponible o requiere permisos"),
        ]
    );
}

#[test]
fn pids_from_capture_groups() {
    let m = |p: &str| vec![Some(format!("pid={}", p)), Some(p.to_string())];
    let gs = vec![
        vec![m("10"), m("11")],
        vec![],
        vec![m("10"), vec![Some("x".to_string()), None], vec![Some("y".to_string())], m("12")],
    ];
    assert_eq!(pids_from_groups(&gs), s(&["10", "11", "12"]));
    assert_eq!(pids_from_groups(&vec![]), Vec::<String>::new());
}
