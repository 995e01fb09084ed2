use aur_guard::audit::{Finding, Report};
use aur_guard::cli::{
    check_lines, gate_intro, gate_outcome, install_report, name_from_captures, name_from_pkgbuild,
    pkgbase_from_env_or_pkgbuild, report_lines,
};
use aur_guard::gate::Verdict;

fn s(v: &[&str]) -> Vec<String> {
    v.iter().map(|x| x.to_string()).collect()
}

#[test]
fn pkgbase_detection() {
    assert_eq!(pkgbase_from_env_or_pkgbuild(Some("  foo  "), None), Some("foo".to_string()));
    assert_eq!(pkgbase_from_env_or_pkgbuild(Some("   "), None), None);
    let pb = "pkgname=('bar' 'baz')\npkgname=\"qux\"\n  pkgbase = 'base' # c\n";
    assert_eq!(name_from_pkgbuild(pb), Some("base".to_string()));
    assert_eq!(pkgbase_from_env_or_pkgbuild(None, Some("pkgname=\"qux\"\npkgver=1\n")), Some("qux".to_string()));
    assert_eq!(pkgbase_from_env_or_pkgbuild(Some(""), Some("pkgver=1\n")), None);
    assert_eq!(name_from_pkgbuild("pkgname=('bar' 'baz')\n"), Some("('bar".to_string()));
}

fn v(name: &str, bad: bool, reasons: &[&str]) -> Verdict {
    Verdict { name: name.to_string(), malicious: bad, reasons: s(reasons) }
}

#[test]
fn install_lines() {
    let (lines, bad) = install_report(&vec![v("a", false, &[]), v("b", true, &["c1", "c2"])]);
    assert!(bad);
    assert_eq!(
        lines,
        s(&["[ok] a -> sin coincidencias de malware", "[INSTALAR BLOQUEADO] b -> COMPROMETIDO [c1, c2]"])
    );
    let (_, bad) = install_report(&vec![v("a", false, &[])]);
    assert!(!bad);
}

#[test]
fn check_output() {
    assert_eq!(
        check_lines(&vec![], 2000),
        s(&["[check] feed actualizado: 2000 paquetes en la lista de malware.", "[check] sin cambios nuevos."])
    );
    assert_eq!(
        check_lines(&s(&["x", "y"]), 0),
        s(&[
            "[check] feed actualizado: 0 paquetes en la lista de malware.",
            "[check] paquetes NUEVOS marcados como malware:",
            "  - x",
            "  - y",
        ])
    );
}

#[test]
fn report_output() {
    let r = Report {
        scanned_installed: 12,
        foreign_installed: s(&["a", "b"]),
        infected: vec![v("evil", true, &["c1", "c2"])],
        processes: vec![],
        persistence: vec![Finding { severity: "warn".into(), message: "m".into() }],
    };
    assert_eq!(
        report_lines(&r),
        s(&[
            "== ESCANEO DEL SISTEMA ==",
            "[+] 12 paquetes instalados revisados (2 de AUR)",
            "\n== PAQUETES INFECTADOS INSTALADOS ==",
            "  [CRIT] evil [c1, c2]",
            "\n== PROCESOS SOSPECHOSOS ==",
            "  sin anomalias",
            "\n== PERSISTENCIA / AUTORUN ==",
            "  [WARN] m",
            "",
        ])
    );
}

#[test]
fn gate_output() {
    assert_eq!(gate_intro("foo"), "[aur-guard gate] comprobando 'foo'...");
    let (out, err) = gate_outcome("foo", &v("foo", true, &["a", "b"]));
    assert_eq!(out, "[BLOQUEADO] 'foo' es malware: [a, b]");
    assert_eq!(err, Some("aur-guard: BLOQUEADO 'foo' — a, b".to_string()));
    let (out, err) = gate_outcome("foo", &v("foo", false, &[]));
    assert_eq!(out, "[ok] 'foo' sin coincidencias de malware.");
    assert_eq!(err, None);
}

#[test]
fn name_from_capture_groups() {
    let m = |k: &str, v: &str| vec![Some(format!("{}={}", k, v)), Some(k.to_string()), Some(v.to_string())];
    assert_eq!(name_from_captures(&vec![m("pkgname", "\"a\""), m("pkgbase", "'b'")]), Some("b".to_string()));
    assert_eq!(name_from_captures(&vec![m("pkgname", "a"), m("pkgname", "c")]), Some("a".to_string()));
    assert_eq!(name_from_captures(&vec![]), None);
    assert_eq!(name_from_captures(&vec![m("pkgname", "'\"q\"'")]), Some("\"q\"".to_string()));
}
