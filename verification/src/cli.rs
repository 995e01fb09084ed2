//! What the commands decide and print: the package name of a build, and the
//! reports shown to the user.
use vstd::prelude::*;
use crate::audit::{findings_view, Finding, Report};
use crate::gate::Verdict;
use crate::pattern::{regex_accepts, regex_groups, Pattern};
use crate::text::{chars_of_all, append_chars, decimal, decimal_chars, join, join_chars, same, string_of, strings_of, to_chars, trim, trim_char, trim_char_exec, trim_chars, views};

verus! {

broadcast use vstd::string::group_string_axioms;

// ---------------------------------------------------------------------------
// The package being built
// ---------------------------------------------------------------------------

/// The expression that finds `pkgbase = ...` and `pkgname = ...` lines.
pub open spec fn pkgbuild_pattern() -> Seq<char> {
    "(?m)^\\s*(pkgbase|pkgname)\\s*=\\s*([^#\\s]+)"@
}

/// Every match has its key group and its value group.
pub open spec fn captures_well_formed(caps: Seq<Seq<Option<Seq<char>>>>) -> bool {
    forall|i: int|
        0 <= i < caps.len() ==> (#[trigger] caps[i]).len() > 2 && caps[i][1] is Some
            && caps[i][2] is Some
}

/// A value with surrounding double quotes, then single quotes, removed.
pub open spec fn unquote(v: Seq<char>) -> Seq<char> {
    trim_char(trim_char(v, '"'), '\'')
}

/// The package name among the matches: the first `pkgbase` value, else the
/// first value (`first` carries the first value seen so far).
pub open spec fn pick_name(caps: Seq<Seq<Option<Seq<char>>>>, first: Option<Seq<char>>) -> Option<
    Seq<char>,
>
    decreases caps.len(),
{
    if caps.len() == 0 {
        first
    } else {
        let val = unquote(caps[0][2]->0);
        if caps[0][1]->0 == "pkgbase"@ {
            Some(val)
        } else {
            pick_name(
                caps.drop_first(),
                if first is None {
                    Some(val)
                } else {
                    first
                },
            )
        }
    }
}

/// The package name from the matches of `pkgbuild_pattern` in a PKGBUILD.
pub fn name_from_captures(caps: &Vec<Vec<Option<String>>>) -> (r: Option<String>)
    requires
        captures_well_formed(caps.deep_view()),
    ensures
        match r {
            Some(v) => pick_name(caps.deep_view(), None) == Some(v@),
            None => pick_name(caps.deep_view(), None) is None,
        },
{
    let ghost cv = caps.deep_view();
    let mut first: Option<Vec<char>> = None;
    assert(cv.skip(0) =~= cv);
    for i in 0..caps.len()
        invariant
            cv == caps.deep_view(),
            cv.len() == caps@.len(),
            captures_well_formed(cv),
            pick_name(cv, None) == pick_name(cv.skip(i as int), match first {
                Some(f) => Some(f@),
                None => None,
            }),
    {
        let c = &caps[i];
        assert(cv[i as int] == c.deep_view());
        assert(cv.skip(i as int)[0] == cv[i as int]);
        assert(cv.skip(i as int).drop_first() =~= cv.skip(i + 1));
        assert((cv[i as int]).len() > 2);
        let key = match &c[1] {
            Some(k) => to_chars(k.as_str()),
            None => Vec::new(),
        };
        let raw = match &c[2] {
            Some(v) => to_chars(v.as_str()),
            None => Vec::new(),
        };
        assert(key@ == cv[i as int][1]->0);
        assert(raw@ == cv[i as int][2]->0);
        let val = trim_char_exec(&trim_char_exec(&raw, '"'), '\'');
        if same(&key, &to_chars("pkgbase")) {
            return Some(string_of(val.as_slice()));
        }
        if first.is_none() {
            first = Some(val);
        }
    }
    assert(cv.skip(caps@.len() as int) =~= Seq::<Seq<Option<Seq<char>>>>::empty());
    match first {
        Some(f) => Some(string_of(f.as_slice())),
        None => None,
    }
}

fn well_formed_exec(caps: &Vec<Vec<Option<String>>>) -> (r: bool)
    ensures
        r == captures_well_formed(caps.deep_view()),
{
    let ghost cv = caps.deep_view();
    for i in 0..caps.len()
        invariant
            cv == caps.deep_view(),
            forall|j: int|
                0 <= j < i ==> (#[trigger] cv[j]).len() > 2 && cv[j][1] is Some && cv[j][2] is Some,
    {
        assert(cv[i as int] == caps@[i as int].deep_view());
        if !(caps[i].len() > 2 && caps[i][1].is_some() && caps[i][2].is_some()) {
            assert(!(cv[i as int].len() > 2 && cv[i as int][1] is Some && cv[i as int][2] is Some));
            return false;
        }
    }
    true
}

/// The package name in a PKGBUILD: no name when the expression does not
/// compile or some match lacks a group; otherwise `pick_name` of the matches.
pub open spec fn name_from_pkgbuild_spec(text: Seq<char>) -> Option<Seq<char>> {
    if !regex_accepts(pkgbuild_pattern()) {
        None
    } else {
        let caps = regex_groups(pkgbuild_pattern(), text);
        if captures_well_formed(caps) {
            pick_name(caps, None)
        } else {
            None
        }
    }
}

/// The package name in the text of a PKGBUILD.
pub fn name_from_pkgbuild(text: &str) -> (r: Option<String>)
    ensures
        match r {
            Some(v) => name_from_pkgbuild_spec(text@) == Some(v@),
            None => name_from_pkgbuild_spec(text@) is None,
        },
{
    let pat = match Pattern::compile("(?m)^\\s*(pkgbase|pkgname)\\s*=\\s*([^#\\s]+)") {
        Some(p) => p,
        None => {
            return None;
        },
    };
    let caps = pat.captures(text);
    if !well_formed_exec(&caps) {
        return None;
    }
    name_from_captures(&caps)
}

/// The package being built: `$PKGBASE` when it is set and not blank
/// (trimmed), else the name in `./PKGBUILD` if it could be read.
pub open spec fn pkgbase_spec(env: Option<Seq<char>>, pkgbuild: Option<Seq<char>>) -> Option<
    Seq<char>,
> {
    match env {
        Some(v) if trim(v).len() > 0 => Some(trim(v)),
        _ => match pkgbuild {
            Some(t) => name_from_pkgbuild_spec(t),
            None => None,
        },
    }
}

pub fn pkgbase_from_env_or_pkgbuild(env: Option<&str>, pkgbuild: Option<&str>) -> (r: Option<String>)
    ensures
        match r {
            Some(v) => pkgbase_spec(
                match env {
                    Some(e) => Some(e@),
                    None => None,
                },
                match pkgbuild {
                    Some(t) => Some(t@),
                    None => None,
                },
            ) == Some(v@),
            None => pkgbase_spec(
                match env {
                    Some(e) => Some(e@),
                    None => None,
                },
                match pkgbuild {
                    Some(t) => Some(t@),
                    None => None,
                },
            ) is None,
        },
{
    match env {
        Some(e) => {
            let t = trim_chars(&to_chars(e));
            if t.len() > 0 {
                return Some(string_of(t.as_slice()));
            }
        },
        None => {},
    }
    match pkgbuild {
        Some(t) => name_from_pkgbuild(t),
        None => None,
    }
}

// ---------------------------------------------------------------------------
// Reports
// ---------------------------------------------------------------------------

/// The reasons of a verdict joined with `", "`.
fn reasons_joined(reasons: &Vec<String>) -> (r: Vec<char>)
    ensures
        r@ == join(reasons.deep_view(), ", "@),
{
    let c = chars_of_all(reasons);
    join_chars(&c, &to_chars(", "))
}

/// The line `install` prints for one verdict.
pub open spec fn install_line(name: Seq<char>, malicious: bool, reasons: Seq<Seq<char>>) -> Seq<char> {
    if malicious {
        "[INSTALAR BLOQUEADO] "@ + name + " -> COMPROMETIDO ["@ + join(reasons, ", "@) + "]"@
    } else {
        "[ok] "@ + name + " -> sin coincidencias de malware"@
    }
}

pub open spec fn install_lines(v: Seq<Verdict>) -> Seq<Seq<char>>
    decreases v.len(),
{
    if v.len() == 0 {
        Seq::empty()
    } else {
        install_lines(v.drop_last()).push(
            install_line(v.last().name@, v.last().malicious, v.last().reasons.deep_view()),
        )
    }
}

/// The lines `install` prints for the verdicts, and whether any package is
/// compromised (the installation is then refused).
pub fn install_report(verdicts: &Vec<Verdict>) -> (r: (Vec<String>, bool))
    ensures
        r.0.deep_view() == install_lines(verdicts@),
        r.1 == exists|i: int| 0 <= i < verdicts@.len() && (#[trigger] verdicts@[i]).malicious,
{
    let mut out: Vec<Vec<char>> = Vec::new();
    let mut any_bad = false;
    for i in 0..verdicts.len()
        invariant
            views(out@) == install_lines(verdicts@.take(i as int)),
            any_bad == exists|j: int| 0 <= j < i && (#[trigger] verdicts@[j]).malicious,
    {
        assert(verdicts@.take(i + 1).drop_last() =~= verdicts@.take(i as int));
        let v = &verdicts[i];
        assert(verdicts@.take(i + 1).last() == *v);
        let name = to_chars(v.name.as_str());
        let line = if v.malicious {
            any_bad = true;
            let mut m = to_chars("[INSTALAR BLOQUEADO] ");
            m = append_chars(&m, &name);
            m = append_chars(&m, &to_chars(" -> COMPROMETIDO ["));
            m = append_chars(&m, &reasons_joined(&v.reasons));
            m = append_chars(&m, &to_chars("]"));
            m
        } else {
            append_chars(&append_chars(&to_chars("[ok] "), &name), &to_chars(" -> sin coincidencias de malware"))
        };
        assert(line@ =~= install_line(v.name@, v.malicious, v.reasons.deep_view()));
        let ghost before = views(out@);
        out.push(line);
        assert(views(out@) =~= before.push(install_line(v.name@, v.malicious, v.reasons.deep_view())));
        assert(any_bad == exists|j: int| 0 <= j < i + 1 && (#[trigger] verdicts@[j]).malicious) by {
            if v.malicious {
                assert(verdicts@[i as int].malicious);
            }
        }
    }
    assert(verdicts@.take(verdicts@.len() as int) =~= verdicts@);
    (strings_of(&out), any_bad)
}

/// The lines `check` prints after a feed refresh.
pub open spec fn check_lines_spec(new_malware: Seq<Seq<char>>, total: nat) -> Seq<Seq<char>> {
    seq!["[check] feed actualizado: "@ + decimal(total) + " paquetes en la lista de malware."@]
        + if new_malware.len() == 0 {
        seq!["[check] sin cambios nuevos."@]
    } else {
        seq!["[check] paquetes NUEVOS marcados como malware:"@] + Seq::new(
            new_malware.len(),
            |i: int| "  - "@ + new_malware[i],
        )
    }
}

pub fn check_lines(new_malware: &Vec<String>, total: usize) -> (r: Vec<String>)
    ensures
        r.deep_view() == check_lines_spec(new_malware.deep_view(), total as nat),
{
    let mut out: Vec<Vec<char>> = Vec::new();
    let mut first = to_chars("[check] feed actualizado: ");
    first = append_chars(&first, &decimal_chars(total as u64));
    first = append_chars(&first, &to_chars(" paquetes en la lista de malware."));
    out.push(first);
    if new_malware.len() == 0 {
        out.push(to_chars("[check] sin cambios nuevos."));
        assert(views(out@) =~= check_lines_spec(new_malware.deep_view(), total as nat));
    } else {
        out.push(to_chars("[check] paquetes NUEVOS marcados como malware:"));
        let ghost nv = new_malware.deep_view();
        let ghost head = views(out@);
        for i in 0..new_malware.len()
            invariant
                nv == new_malware.deep_view(),
                nv.len() == new_malware@.len(),
                views(out@) == head + Seq::new(i as nat, |j: int| "  - "@ + nv[j]),
        {
            let ghost before = views(out@);
            let line = append_chars(&to_chars("  - "), &to_chars(new_malware[i].as_str()));
            assert(line@ == "  - "@ + nv[i as int]);
            out.push(line);
            assert(views(out@) =~= before.push("  - "@ + nv[i as int]));
            assert(views(out@) =~= head + Seq::new((i + 1) as nat, |j: int| "  - "@ + nv[j]));
        }
        assert(views(out@) =~= check_lines_spec(new_malware.deep_view(), total as nat));
    }
    strings_of(&out)
}

/// `str::to_uppercase` (the Unicode upper-case mapping).
pub uninterp spec fn uppercase(s: Seq<char>) -> Seq<char>;

/// `str::to_uppercase`.
#[verifier::external_body]
fn to_upper(s: &str) -> (r: String)
    ensures
        r@ == uppercase(s@),
{
    s.to_uppercase()
}

/// The lines of a findings section: a placeholder when empty, else one line
/// per finding with its severity in capitals.
pub open spec fn findings_lines(fs: Seq<(Seq<char>, Seq<char>)>) -> Seq<Seq<char>> {
    if fs.len() == 0 {
        seq!["  sin anomalias"@]
    } else {
        Seq::new(fs.len(), |i: int| "  ["@ + uppercase(fs[i].0) + "] "@ + fs[i].1)
    }
}

pub open spec fn infected_lines(v: Seq<Verdict>) -> Seq<Seq<char>> {
    if v.len() == 0 {
        seq!["  sin coincidencias"@]
    } else {
        Seq::new(v.len(), |i: int| "  [CRIT] "@ + v[i].name@ + " ["@ + join(v[i].reasons.deep_view(), ", "@) + "]"@)
    }
}

/// The lines printed for a scan report (a line that starts with `'\n'` is
/// preceded by a blank line).
pub open spec fn report_lines_spec(r: Report) -> Seq<Seq<char>> {
    seq![
        "== ESCANEO DEL SISTEMA =="@,
        "[+] "@ + decimal(r.scanned_installed as nat) + " paquetes instalados revisados ("@ + decimal(
            r.foreign_installed@.len(),
        ) + " de AUR)"@,
        "\n== PAQUETES INFECTADOS INSTALADOS =="@,
    ] + infected_lines(r.infected@) + seq!["\n== PROCESOS SOSPECHOSOS =="@] + findings_lines(
        findings_view(r.processes@),
    ) + seq!["\n== PERSISTENCIA / AUTORUN =="@] + findings_lines(findings_view(r.persistence@))
        + seq![Seq::empty()]
}

fn push_findings_lines(out: &mut Vec<Vec<char>>, fs: &Vec<Finding>)
    ensures
        views(final(out)@) == views(old(out)@) + findings_lines(findings_view(fs@)),
{
    let ghost o0 = views(out@);
    if fs.len() == 0 {
        out.push(to_chars("  sin anomalias"));
        assert(views(out@) =~= o0 + findings_lines(findings_view(fs@)));
        return;
    }
    let ghost fv = findings_view(fs@);
    for i in 0..fs.len()
        invariant
            fv == findings_view(fs@),
            fv.len() == fs@.len(),
            views(out@) == o0 + Seq::new(i as nat, |j: int| "  ["@ + uppercase(fv[j].0) + "] "@ + fv[j].1),
    {
        let ghost before = views(out@);
        let mut m = to_chars("  [");
        m = append_chars(&m, &to_chars(to_upper(fs[i].severity.as_str()).as_str()));
        m = append_chars(&m, &to_chars("] "));
        m = append_chars(&m, &to_chars(fs[i].message.as_str()));
        assert(m@ == "  ["@ + uppercase(fv[i as int].0) + "] "@ + fv[i as int].1);
        out.push(m);
        assert(views(out@) =~= before.push("  ["@ + uppercase(fv[i as int].0) + "] "@ + fv[i as int].1));
        assert(views(out@) =~= o0 + Seq::new((i + 1) as nat, |j: int| "  ["@ + uppercase(fv[j].0) + "] "@ + fv[j].1));
    }
    assert(views(out@) =~= o0 + findings_lines(fv));
}

/// The lines printed for a scan report (see `report_lines_spec`).
pub fn report_lines(r: &Report) -> (lines: Vec<String>)
    ensures
        lines.deep_view() == report_lines_spec(*r),
{
    let mut out: Vec<Vec<char>> = Vec::new();
    out.push(to_chars("== ESCANEO DEL SISTEMA =="));
    let mut l = to_chars("[+] ");
    l = append_chars(&l, &decimal_chars(r.scanned_installed as u64));
    l = append_chars(&l, &to_chars(" paquetes instalados revisados ("));
    l = append_chars(&l, &decimal_chars(r.foreign_installed.len() as u64));
    l = append_chars(&l, &to_chars(" de AUR)"));
    out.push(l);
    out.push(to_chars("\n== PAQUETES INFECTADOS INSTALADOS =="));
    let ghost head = views(out@);
    if r.infected.len() == 0 {
        out.push(to_chars("  sin coincidencias"));
    } else {
        for i in 0..r.infected.len()
            invariant
                views(out@) == head + Seq::new(i as nat, |j: int| "  [CRIT] "@ + r.infected@[j].name@ + " ["@ + join(r.infected@[j].reasons.deep_view(), ", "@) + "]"@),
        {
            let ghost before = views(out@);
            let v = &r.infected[i];
            let mut m = to_chars("  [CRIT] ");
            m = append_chars(&m, &to_chars(v.name.as_str()));
            m = append_chars(&m, &to_chars(" ["));
            m = append_chars(&m, &reasons_joined(&v.reasons));
            m = append_chars(&m, &to_chars("]"));
            let ghost x = "  [CRIT] "@ + r.infected@[i as int].name@ + " ["@ + join(r.infected@[i as int].reasons.deep_view(), ", "@) + "]"@;
            assert(m@ == x);
            out.push(m);
            assert(views(out@) =~= before.push(x));
            assert(views(out@) =~= head + Seq::new((i + 1) as nat, |j: int| "  [CRIT] "@ + r.infected@[j].name@ + " ["@ + join(r.infected@[j].reasons.deep_view(), ", "@) + "]"@));
        }
    }
    assert(views(out@) =~= head + infected_lines(r.infected@));
    let ghost a1 = views(out@);
    out.push(to_chars("\n== PROCESOS SOSPECHOSOS =="));
    assert(views(out@) =~= a1.push("\n== PROCESOS SOSPECHOSOS =="@));
    push_findings_lines(&mut out, &r.processes);
    let ghost a2 = views(out@);
    out.push(to_chars("\n== PERSISTENCIA / AUTORUN =="));
    assert(views(out@) =~= a2.push("\n== PERSISTENCIA / AUTORUN =="@));
    push_findings_lines(&mut out, &r.persistence);
    let ghost a3 = views(out@);
    out.push(Vec::new());
    assert(views(out@) =~= a3.push(Seq::empty()));
    assert(head =~= seq![
        "== ESCANEO DEL SISTEMA =="@,
        "[+] "@ + decimal(r.scanned_installed as nat) + " paquetes instalados revisados ("@ + decimal(
            r.foreign_installed@.len(),
        ) + " de AUR)"@,
        "\n== PAQUETES INFECTADOS INSTALADOS =="@,
    ]);
    assert(views(out@) =~= report_lines_spec(*r));
    strings_of(&out)
}

/// What `aur-guard gate` prints about a package before asking the daemon.
pub fn gate_intro(name: &str) -> (r: String)
    ensures
        r@ == "[aur-guard gate] comprobando '"@ + name@ + "'..."@,
{
    string_of(append_chars(&append_chars(&to_chars("[aur-guard gate] comprobando '"), &to_chars(name)), &to_chars("'...")).as_slice())
}

/// The output of `aur-guard gate` for one package: when it is malicious, a
/// blocking line on stdout and one on stderr (and the build stops); otherwise
/// an all-clear line.
pub open spec fn gate_outcome_spec(name: Seq<char>, malicious: bool, reasons: Seq<Seq<char>>) -> (Seq<char>, Option<Seq<char>>) {
    if malicious {
        (
            "[BLOQUEADO] '"@ + name + "' es malware: ["@ + join(reasons, ", "@) + "]"@,
            Some("aur-guard: BLOQUEADO '"@ + name + "' — "@ + join(reasons, ", "@)),
        )
    } else {
        ("[ok] '"@ + name + "' sin coincidencias de malware."@, None)
    }
}

pub fn gate_outcome(name: &str, v: &Verdict) -> (r: (String, Option<String>))
    ensures
        gate_outcome_spec(name@, v.malicious, v.reasons.deep_view()) == (r.0@, match r.1 {
            Some(e) => Some(e@),
            None => None::<Seq<char>>,
        }),
{
    let n = to_chars(name);
    if v.malicious {
        let j = reasons_joined(&v.reasons);
        let mut a = to_chars("[BLOQUEADO] '");
        a = append_chars(&a, &n);
        a = append_chars(&a, &to_chars("' es malware: ["));
        a = append_chars(&a, &j);
        a = append_chars(&a, &to_chars("]"));
        let mut b = to_chars("aur-guard: BLOQUEADO '");
        b = append_chars(&b, &n);
        b = append_chars(&b, &to_chars("' — "));
        b = append_chars(&b, &j);
        (string_of(a.as_slice()), Some(string_of(b.as_slice())))
    } else {
        let a = append_chars(&append_chars(&to_chars("[ok] '"), &n), &to_chars("' sin coincidencias de malware."));
        (string_of(a.as_slice()), None)
    }
}

} // verus!
