use aur_guard::paru::{has_conflicting_prebuild, insert_under_bin, line_is_ours, plan_hook};
use aur_guard::shell::{plan_shell_hook, rc_path, MARK, SNIPPET};

fn s(v: &[&str]) -> Vec<String> {
    v.iter().map(|x| x.to_string()).collect()
}

const HOOK: &str = "PreBuildCommand = aur-guard gate";

#[test]
fn ours_and_conflicts() {
    assert!(line_is_ours("  PreBuildCommand = aur-guard gate "));
    assert!(line_is_ours("PreBuildCommand=/usr/bin/aur-guard gate --x"));
    assert!(!line_is_ours("PreBuildCommand = other"));
    assert_eq!(
        has_conflicting_prebuild(&s(&["[bin]", "  PreBuildCommand = other  "])),
        Some("PreBuildCommand = other".to_string())
    );
    assert_eq!(has_conflicting_prebuild(&s(&["[bin]", HOOK])), None);
}

#[test]
fn insert_cases() {
    assert_eq!(insert_under_bin(vec![]), s(&["", "[bin]", HOOK]));
    assert_eq!(insert_under_bin(s(&["[options]", "[bin]", "X=1"])), s(&["[options]", "[bin]", HOOK, "X=1", ""]));
    let done = s(&["[bin]", HOOK]);
    assert_eq!(insert_under_bin(done.clone()), done);
    let once = insert_under_bin(s(&["[options]"]));
    assert_eq!(insert_under_bin(once.clone()), once);
}

#[test]
fn plan_paru_hook() {
    let p = plan_hook("", "/c/paru.conf").unwrap();
    assert_eq!(p.write.as_deref(), Some("\n[bin]\nPreBuildCommand = aur-guard gate\n"));
    assert_eq!(p.message, "gancho paru instalado en /c/paru.conf");
    let again = plan_hook(p.write.as_deref().unwrap(), "/c/paru.conf").unwrap();
    assert!(again.write.is_none());
    assert_eq!(again.message, "gancho paru ya instalado");
    let e = plan_hook("[bin]\nPreBuildCommand = foo\n", "/c").unwrap_err();
    assert_eq!(
        e,
        "paru.conf ya tiene un PreBuildCommand distinto (PreBuildCommand = foo); no se modifica. Ajustalo a: PreBuildCommand = aur-guard gate"
    );
    let p = plan_hook("[bin]\r\nSudo = doas\r\n", "/c").unwrap();
    assert_eq!(p.write.as_deref(), Some("[bin]\nPreBuildCommand = aur-guard gate\nSudo = doas\n\n"));
}

#[test]
fn shell_hook() {
    assert_eq!(rc_path("/usr/bin/zsh", "/home/u"), "/home/u/.zshrc");
    assert_eq!(rc_path("/bin/bash", "/home/u/"), "/home/u/.bashrc");
    assert_eq!(rc_path("", ""), ".bashrc");
    let (w, m) = plan_shell_hook("alias x=y", "/home/u/.bashrc");
    let w = w.unwrap();
    assert_eq!(w, format!("alias x=y\n{}\n{}\n", MARK, SNIPPET));
    assert_eq!(m, "gancho de shell instalado en /home/u/.bashrc. Abre una terminal nueva para que aplique.");
    let (w2, m2) = plan_shell_hook(&w, "/home/u/.bashrc");
    assert!(w2.is_none());
    assert_eq!(m2, "el gancho de shell ya esta instalado en /home/u/.bashrc");
    let (w3, _) = plan_shell_hook("", "p");
    assert_eq!(w3.unwrap(), format!("\n{}\n{}\n", MARK, SNIPPET));
    let (w4, _) = plan_shell_hook("x\n", "p");
    assert_eq!(w4.unwrap(), format!("x\n{}\n{}\n", MARK, SNIPPET));
}

#[test]
fn paru_hook_installs_once() {
    for text in ["", "[options]\n", "[bin]\r\r\nSudo = doas", "[options]\r\n\r\n[bin]\nX=1\n", "a\nb"] {
        let first = plan_hook(text, "/c/paru.conf").unwrap();
        let written = first.write.expect("the hook is written the first time");
        let second = plan_hook(&written, "/c/paru.conf").unwrap();
        assert!(second.write.is_none());
        assert_eq!(second.message, "gancho paru ya instalado");
    }
}

#[test]
fn hook_in_a_later_section_does_not_count() {
    let text = "[bin]\nSudo = doas\n[options]\nPreBuildCommand = aur-guard gate\n";
    let p = plan_hook(text, "/c/paru.conf").unwrap();
    assert_eq!(
        p.write.as_deref(),
        Some("[bin]\nPreBuildCommand = aur-guard gate\nSudo = doas\n[options]\nPreBuildCommand = aur-guard gate\n\n")
    );
    assert_eq!(p.message, "gancho paru instalado en /c/paru.conf");
    let again = plan_hook(p.write.as_deref().unwrap(), "/c/paru.conf").unwrap();
    assert!(again.write.is_none());
    assert_eq!(
        insert_under_bin(s(&["[bin]", "X=1", "  [options]", HOOK])),
        s(&["[bin]", HOOK, "X=1", "  [options]", HOOK, ""])
    );
    let in_bin = s(&["[options]", "[bin]", "X=1", HOOK, "[misc]"]);
    assert_eq!(insert_under_bin(in_bin.clone()), in_bin);
}
