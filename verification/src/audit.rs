//! Host audit: which installed packages the feed flags, suspicious running
//! processes, and persistence mechanisms.
use vstd::prelude::*;
use crate::config::Config;
use crate::feeds::{feed_verdict, verdict_spec, FeedState};
use crate::gate::Verdict;
use crate::pattern::{regex_accepts, regex_groups, Pattern};
use crate::text::{append_chars, decimal, decimal_chars, has_infix, has_prefix, has_suffix, join, join_chars, lemma_push_contains, lemma_take_contains, lemma_take_full, lines, owned, parse_u32, parse_u32_chars, same, split_lines, starts_with, string_of, strings_of, subvec, to_chars, trim, trim_chars, views};

verus! {

broadcast use vstd::string::group_string_axioms;

/// One audit observation.
#[derive(Clone, Debug)]
pub struct Finding {
    /// `"crit"`, `"warn"` or `"info"`.
    pub severity: String,
    pub message: String,
}

/// The result of a host audit.
#[derive(Clone, Debug)]
pub struct Report {
    pub scanned_installed: usize,
    pub foreign_installed: Vec<String>,
    pub infected: Vec<Verdict>,
    pub processes: Vec<Finding>,
    pub persistence: Vec<Finding>,
}

pub open spec fn finding_view(f: Finding) -> (Seq<char>, Seq<char>) {
    (f.severity@, f.message@)
}

pub open spec fn findings_view(fs: Seq<Finding>) -> Seq<(Seq<char>, Seq<char>)> {
    Seq::new(fs.len(), |i: int| finding_view(fs[i]))
}

fn finding(severity: &str, message: Vec<char>) -> (f: Finding)
    ensures
        finding_view(f) == (severity@, message@),
{
    Finding { severity: owned(severity), message: string_of(message.as_slice()) }
}

// ---------------------------------------------------------------------------
// Installed packages
// ---------------------------------------------------------------------------

/// The trimmed non-blank lines of a text, in order.
pub open spec fn nonblank_lines(ls: Seq<Seq<char>>) -> Seq<Seq<char>>
    decreases ls.len(),
{
    if ls.len() == 0 {
        Seq::empty()
    } else {
        nonblank_lines(ls.drop_last()) + if trim(ls.last()).len() > 0 {
            seq![trim(ls.last())]
        } else {
            Seq::empty()
        }
    }
}

/// The package names in `pacman -Qq` / `pacman -Qm` output: its trimmed
/// non-blank lines.
pub fn package_lines(stdout: &str) -> (r: Vec<String>)
    ensures
        r.deep_view() == nonblank_lines(lines(stdout@)),
{
    let ls = split_lines(&to_chars(stdout));
    let ghost lv = views(ls@);
    let mut out: Vec<Vec<char>> = Vec::new();
    for i in 0..ls.len()
        invariant
            lv == views(ls@),
            views(out@) == nonblank_lines(lv.take(i as int)),
    {
        assert(lv.take(i + 1).drop_last() =~= lv.take(i as int));
        assert(lv.take(i + 1).last() == ls@[i as int]@);
        let t = trim_chars(&ls[i]);
        let ghost before = views(out@);
        if t.len() > 0 {
            out.push(t);
            assert(views(out@) =~= before + seq![trim(lv[i as int])]);
        } else {
            assert(views(out@) =~= before + Seq::<Seq<char>>::empty());
        }
    }
    proof {
        lemma_take_full(lv);
    }
    strings_of(&out)
}

/// The installed packages the feed flags, in installation-list order.
pub open spec fn infected_spec(t: crate::feeds::Table, installed: Seq<Seq<char>>) -> Seq<
    (Seq<char>, Seq<Seq<char>>),
>
    decreases installed.len(),
{
    if installed.len() == 0 {
        Seq::empty()
    } else {
        infected_spec(t, installed.drop_last()) + match verdict_spec(t, installed.last()) {
            Some(c) => seq![(installed.last(), c)],
            None => Seq::empty(),
        }
    }
}

pub open spec fn infected_view(v: Seq<Verdict>) -> Seq<(Seq<char>, Seq<Seq<char>>)> {
    Seq::new(v.len(), |i: int| (v[i].name@, v[i].reasons.deep_view()))
}

/// The audit report from what was observed on the host: every installed
/// package is checked against the feed, and each flagged one is reported as
/// malicious with its campaigns.
pub fn run(
    state: &FeedState,
    installed: &Vec<String>,
    foreign: Vec<String>,
    processes: Vec<Finding>,
    persistence: Vec<Finding>,
) -> (r: Report)
    ensures
        r.scanned_installed == installed@.len(),
        r.foreign_installed@ == foreign@,
        infected_view(r.infected@) == infected_spec(state.view_table(), installed.deep_view()),
        forall|i: int| 0 <= i < r.infected@.len() ==> #[trigger] r.infected@[i].malicious,
        r.processes@ == processes@,
        r.persistence@ == persistence@,
{
    let ghost iv = installed.deep_view();
    let mut infected: Vec<Verdict> = Vec::new();
    for i in 0..installed.len()
        invariant
            iv == installed.deep_view(),
            infected_view(infected@) == infected_spec(state.view_table(), iv.take(i as int)),
            forall|k: int| 0 <= k < infected@.len() ==> #[trigger] infected@[k].malicious,
    {
        assert(iv.take(i + 1).drop_last() =~= iv.take(i as int));
        assert(iv.take(i + 1).last() == installed@[i as int]@);
        let (bad, reasons) = feed_verdict(state, installed[i].as_str());
        let ghost before = infected_view(infected@);
        if bad {
            let v = Verdict { name: owned(installed[i].as_str()), malicious: true, reasons };
            infected.push(v);
            assert(infected_view(infected@) =~= before + seq![(iv[i as int], verdict_spec(state.view_table(), iv[i as int])->0)]);
        } else {
            assert(infected_view(infected@) =~= before + Seq::<(Seq<char>, Seq<Seq<char>>)>::empty());
        }
    }
    proof {
        lemma_take_full(iv);
    }
    Report {
        scanned_installed: installed.len(),
        foreign_installed: foreign,
        infected,
        processes,
        persistence,
    }
}

// ---------------------------------------------------------------------------
// Processes
// ---------------------------------------------------------------------------

/// A kernel thread: no command line, parent 2 (`kthreadd`), name in brackets.
pub open spec fn is_kernel_thread_spec(cmd: Seq<char>, cmdline: Seq<u8>, ppid: u32) -> bool {
    cmdline.len() == 0 && ppid == 2 && cmd.len() > 0 && cmd[0] == '[' && cmd.last() == ']'
}

pub fn is_kernel_thread(cmd: &str, cmdline: &[u8], ppid: u32) -> (r: bool)
    ensures
        r == is_kernel_thread_spec(cmd@, cmdline@, ppid),
{
    let c = to_chars(cmd);
    cmdline.len() == 0 && ppid == 2 && c.len() > 0 && c[0] == '[' && c[c.len() - 1] == ']'
}

/// The number of UTF-8 bytes of a character.
pub open spec fn utf8_width(c: char) -> nat {
    let u = c as u32;
    if u < 0x80 {
        1
    } else if u < 0x800 {
        2
    } else if u < 0x10000 {
        3
    } else {
        4
    }
}

/// The number of UTF-8 bytes of a text (`str::len`).
pub open spec fn byte_len(s: Seq<char>) -> nat
    decreases s.len(),
{
    if s.len() == 0 {
        0
    } else {
        byte_len(s.drop_last()) + utf8_width(s.last())
    }
}

/// `n` is a character boundary of `s`: some prefix of `s` is `n` bytes long.
pub open spec fn is_boundary(s: Seq<char>, n: int) -> bool {
    exists|k: int| 0 <= k <= s.len() && byte_len(#[trigger] s.take(k)) == n
}

/// Cutting `s` at `n` bytes is defined: `s` fits, or `n` is a boundary
/// (slicing elsewhere panics).
pub open spec fn short_ok(s: Seq<char>, n: int) -> bool {
    byte_len(s) <= n || is_boundary(s, n)
}

/// `s` cut to its first `n` bytes with `'…'` appended, or `s` itself when it
/// fits in `n` bytes.
pub open spec fn short_spec(s: Seq<char>, n: int) -> Seq<char> {
    if byte_len(s) <= n {
        s
    } else {
        s.take(choose|k: int| 0 <= k <= s.len() && byte_len(#[trigger] s.take(k)) == n) + seq!['…']
    }
}

proof fn lemma_byte_len_prefix_strict(s: Seq<char>, j: int, k: int)
    requires
        0 <= j < k <= s.len(),
    ensures
        byte_len(s.take(j)) < byte_len(s.take(k)),
    decreases k - j,
{
    assert(s.take(k).drop_last() =~= s.take(k - 1));
    if j < k - 1 {
        lemma_byte_len_prefix_strict(s, j, k - 1);
    }
}

proof fn lemma_boundary_unique(s: Seq<char>, j: int, k: int)
    requires
        0 <= j <= s.len(),
        0 <= k <= s.len(),
        byte_len(s.take(j)) == byte_len(s.take(k)),
    ensures
        j == k,
{
    if j < k {
        lemma_byte_len_prefix_strict(s, j, k);
    } else if k < j {
        lemma_byte_len_prefix_strict(s, k, j);
    }
}

fn width(c: char) -> (w: usize)
    ensures
        w == utf8_width(c),
{
    let u = c as u32;
    if u < 0x80 {
        1
    } else if u < 0x800 {
        2
    } else if u < 0x10000 {
        3
    } else {
        4
    }
}

proof fn lemma_scan_result(s: Seq<char>, n: int, k: int, acc: int)
    requires
        0 <= k <= s.len(),
        acc == byte_len(s.take(k)),
        forall|j: int| 0 <= j < k ==> byte_len(#[trigger] s.take(j)) < n,
        k == s.len() || acc >= n,
    ensures
        short_ok(s, n) <==> (acc == n || (k == s.len() && acc < n)),
        acc == n ==> is_boundary(s, n),
        (acc == n && k < s.len()) ==> byte_len(s) > n,
{
    assert(s.take(s.len() as int) =~= s);
    if acc == n && k < s.len() {
        lemma_byte_len_prefix_strict(s, k, s.len() as int);
    }
    if acc > n {
        assert forall|m: int| 0 <= m <= s.len() implies byte_len(#[trigger] s.take(m)) != n by {
            if m < k {
            } else if m > k {
                lemma_byte_len_prefix_strict(s, k, m);
            }
        }
        if k < s.len() {
            lemma_byte_len_prefix_strict(s, k, s.len() as int);
        }
    }
    if acc == n {
        assert(byte_len(s.take(k)) == n);
    }
}

/// Whether `short(s, n)` is defined (see `short_ok`).
pub fn short_is_ok(s: &str, n: usize) -> (r: bool)
    ensures
        r == short_ok(s@, n as int),
{
    let c = to_chars(s);
    let mut acc: u128 = 0;
    let mut k: usize = 0;
    assert(c@.take(0) =~= Seq::<char>::empty());
    while k < c.len() && acc < n as u128
        invariant
            k <= c@.len(),
            acc == byte_len(c@.take(k as int)),
            acc < n + 4,
            forall|j: int| 0 <= j < k ==> byte_len(#[trigger] c@.take(j)) < n,
        decreases c@.len() - k,
    {
        assert(c@.take(k + 1).drop_last() =~= c@.take(k as int));
        acc = acc + width(c[k]) as u128;
        k += 1;
    }
    proof {
        lemma_scan_result(c@, n as int, k as int, acc as int);
    }
    acc == n as u128 || (k == c.len() && acc < n as u128)
}

/// `s` cut to its first `n` bytes with `'…'`, or `s` itself when it fits.
pub fn short(s: &str, n: usize) -> (r: String)
    requires
        short_ok(s@, n as int),
    ensures
        r@ == short_spec(s@, n as int),
{
    let c = to_chars(s);
    let mut acc: u128 = 0;
    let mut k: usize = 0;
    assert(c@.take(0) =~= Seq::<char>::empty());
    while k < c.len() && acc < n as u128
        invariant
            c@ == s@,
            k <= c@.len(),
            acc == byte_len(c@.take(k as int)),
            acc < n + 4,
            forall|j: int| 0 <= j < k ==> byte_len(#[trigger] c@.take(j)) < n,
        decreases c@.len() - k,
    {
        assert(c@.take(k + 1).drop_last() =~= c@.take(k as int));
        acc = acc + width(c[k]) as u128;
        k += 1;
    }
    proof {
        lemma_scan_result(c@, n as int, k as int, acc as int);
    }
    if k == c.len() && acc <= n as u128 {
        assert(c@.take(k as int) =~= c@);
        return owned(s);
    }
    proof {
        let m = choose|m: int| 0 <= m <= c@.len() && byte_len(#[trigger] c@.take(m)) == n;
        lemma_boundary_unique(c@, m, k as int);
    }
    let mut p = subvec(&c, 0, k);
    assert(p@ =~= c@.take(k as int));
    p.push('…');
    string_of(p.as_slice())
}

/// The first suspicious directory that the path starts with.
pub open spec fn suspicious_dir_spec(p: Seq<char>) -> Option<Seq<char>> {
    if has_prefix(p, "/tmp/"@) {
        Some("/tmp/"@)
    } else if has_prefix(p, "/dev/shm/"@) {
        Some("/dev/shm/"@)
    } else if has_prefix(p, "/var/tmp/"@) {
        Some("/var/tmp/"@)
    } else if has_prefix(p, "/run/user/"@) {
        Some("/run/user/"@)
    } else {
        None
    }
}

/// The suspicious directory (`/tmp/`, `/dev/shm/`, `/var/tmp/`, `/run/user/`)
/// a path lies in, checked in that order.
pub fn in_suspicious_dir(p: &str) -> (r: Option<&'static str>)
    ensures
        match r {
            Some(d) => suspicious_dir_spec(p@) == Some(d@),
            None => suspicious_dir_spec(p@) is None,
        },
{
    let c = to_chars(p);
    if starts_with(&c, &to_chars("/tmp/")) {
        Some("/tmp/")
    } else if starts_with(&c, &to_chars("/dev/shm/")) {
        Some("/dev/shm/")
    } else if starts_with(&c, &to_chars("/var/tmp/")) {
        Some("/var/tmp/")
    } else if starts_with(&c, &to_chars("/run/user/")) {
        Some("/run/user/")
    } else {
        None
    }
}

/// A path outside the trees that packages, Flatpak apps or snaps own.
pub open spec fn not_pacman_owned_spec(p: Seq<char>) -> bool {
    !(has_prefix(p, "/usr"@) || has_prefix(p, "/bin"@) || has_prefix(p, "/sbin"@) || has_prefix(
        p,
        "/lib"@,
    ) || has_prefix(p, "/proc"@) || has_prefix(p, "/app/"@) || has_prefix(p, "/snap/"@))
}

pub fn not_pacman_owned_path(p: &str) -> (r: bool)
    ensures
        r == not_pacman_owned_spec(p@),
{
    let c = to_chars(p);
    !(starts_with(&c, &to_chars("/usr")) || starts_with(&c, &to_chars("/bin")) || starts_with(
        &c,
        &to_chars("/sbin"),
    ) || starts_with(&c, &to_chars("/lib")) || starts_with(&c, &to_chars("/proc"))
        || starts_with(&c, &to_chars("/app/")) || starts_with(&c, &to_chars("/snap/")))
}

/// A path under `/tmp/`, `/dev/shm/`, `/var/tmp/` or `/run/user/` is in a
/// suspicious directory (the first of them, in that order, that it is
/// under); a path under none of them is not.
pub proof fn law_suspicious_dirs(p: Seq<char>)
    ensures
        has_prefix(p, "/tmp/"@) ==> suspicious_dir_spec(p) == Some("/tmp/"@),
        !has_prefix(p, "/tmp/"@) && has_prefix(p, "/dev/shm/"@) ==> suspicious_dir_spec(p) == Some(
            "/dev/shm/"@,
        ),
        !has_prefix(p, "/tmp/"@) && !has_prefix(p, "/dev/shm/"@) && has_prefix(p, "/var/tmp/"@)
            ==> suspicious_dir_spec(p) == Some("/var/tmp/"@),
        !has_prefix(p, "/tmp/"@) && !has_prefix(p, "/dev/shm/"@) && !has_prefix(p, "/var/tmp/"@)
            && has_prefix(p, "/run/user/"@) ==> suspicious_dir_spec(p) == Some("/run/user/"@),
        !has_prefix(p, "/tmp/"@) && !has_prefix(p, "/dev/shm/"@) && !has_prefix(p, "/var/tmp/"@)
            && !has_prefix(p, "/run/user/"@) ==> suspicious_dir_spec(p) is None,
{
}

/// The process scan never asks who owns a binary in the package trees
/// (`/usr`, `/bin`, `/sbin`, `/lib`, `/proc`) or in the Flatpak and snap trees
/// (`/app/`, `/snap/`), and asks about any other binary.
pub proof fn law_owner_queries_skip_trees(p: Seq<char>)
    ensures
        has_prefix(p, "/usr"@) ==> !not_pacman_owned_spec(p),
        has_prefix(p, "/bin"@) ==> !not_pacman_owned_spec(p),
        has_prefix(p, "/sbin"@) ==> !not_pacman_owned_spec(p),
        has_prefix(p, "/lib"@) ==> !not_pacman_owned_spec(p),
        has_prefix(p, "/proc"@) ==> !not_pacman_owned_spec(p),
        has_prefix(p, "/app/"@) ==> !not_pacman_owned_spec(p),
        has_prefix(p, "/snap/"@) ==> !not_pacman_owned_spec(p),
        !has_prefix(p, "/usr"@) && !has_prefix(p, "/bin"@) && !has_prefix(p, "/sbin"@)
            && !has_prefix(p, "/lib"@) && !has_prefix(p, "/proc"@) && !has_prefix(p, "/app/"@)
            && !has_prefix(p, "/snap/"@) ==> not_pacman_owned_spec(p),
{
}

/// The window for "recently modified", in seconds: the configured days
/// times 86400, saturating.
pub fn recent_secs(cfg: &Config) -> (r: u64)
    ensures
        r == (if cfg.recent_days * 86400 > u64::MAX {
            u64::MAX as int
        } else {
            cfg.recent_days * 86400
        }),
{
    if cfg.recent_days > 213503982334601 {
        u64::MAX
    } else {
        cfg.recent_days * 86400
    }
}


// ---------------------------------------------------------------------------
// The process scan
// ---------------------------------------------------------------------------

/// At most this many `pacman -Qo` ownership queries are made per scan.
pub open spec fn max_owner_checks() -> nat {
    80
}

/// A process line prefix: `"proceso {pid} [{comm}] "`.
pub open spec fn proc_prefix(pid: u32, comm: Seq<char>) -> Seq<char> {
    "proceso "@ + decimal(pid as nat) + " ["@ + comm + "] "@
}

/// A binary in a suspicious directory.
pub open spec fn exe_in_dir_message(pid: u32, comm: Seq<char>, d: Seq<char>, cmdline: Seq<char>) -> Seq<char> {
    proc_prefix(pid, comm) + "con binario en "@ + d + ": "@ + short_spec(cmdline, 120)
}

/// A binary no package owns.
pub open spec fn unowned_message(pid: u32, comm: Seq<char>, exe: Seq<char>, cmdline: Seq<char>) -> Seq<char> {
    proc_prefix(pid, comm) + "con binario sin paquete: "@ + exe + " ("@ + short_spec(cmdline, 100)
        + ")"@
}

/// A process without a readable binary whose command line is in a
/// suspicious directory.
pub open spec fn cmdline_in_dir_message(pid: u32, comm: Seq<char>, d: Seq<char>, cmdline: Seq<char>) -> Seq<char> {
    proc_prefix(pid, comm) + "en ruta sospechosa "@ + d + ": "@ + short_spec(cmdline, 120)
}

/// The state of a process scan: the ownership answers so far, how many
/// queries were made, the binaries already reported, and the findings.
pub struct ProcScan {
    owners: Vec<(String, bool)>,
    checks: usize,
    reported: Vec<String>,
    findings: Vec<Finding>,
}

impl ProcScan {
    pub closed spec fn owners_view(&self) -> Seq<(Seq<char>, bool)> {
        Seq::new(self.owners@.len(), |i: int| (self.owners@[i].0@, self.owners@[i].1))
    }

    pub closed spec fn checks_view(&self) -> nat {
        self.checks as nat
    }

    pub closed spec fn reported_view(&self) -> Seq<Seq<char>> {
        self.reported.deep_view()
    }

    pub closed spec fn findings_view(&self) -> Seq<(Seq<char>, Seq<char>)> {
        findings_view(self.findings@)
    }

    /// The ownership answer recorded for a binary, if any.
    pub open spec fn cached(&self, exe: Seq<char>) -> Option<bool> {
        owner_lookup(self.owners_view(), exe)
    }

    /// Well-formed: one query per recorded answer, at most
    /// `max_owner_checks` of them, no binary recorded or reported twice,
    /// and every binary found unowned reported.
    pub open spec fn wf(&self) -> bool {
        &&& self.checks_view() == self.owners_view().len()
        &&& self.checks_view() <= max_owner_checks()
        &&& self.reported_view().no_duplicates()
        &&& forall|i: int|
            0 <= i < self.owners_view().len() && !(#[trigger] self.owners_view()[i]).1
                ==> self.reported_view().contains(self.owners_view()[i].0)
    }

    /// A scan that has seen nothing.
    pub fn new() -> (r: ProcScan)
        ensures
            r.wf(),
            r.owners_view().len() == 0,
            r.reported_view().len() == 0,
            r.findings_view().len() == 0,
    {
        let r = ProcScan { owners: Vec::new(), checks: 0, reported: Vec::new(), findings: Vec::new() };
        assert(r.reported_view() =~= Seq::<Seq<char>>::empty());
        r
    }

    /// The findings so far.
    pub fn into_findings(self) -> (r: Vec<Finding>)
        ensures
            findings_view(r@) == self.findings_view(),
    {
        self.findings
    }

    fn lookup_owner(&self, exe: &Vec<char>) -> (r: Option<bool>)
        ensures
            r == self.cached(exe@),
    {
        let ghost ov = self.owners_view();
        assert(ov.skip(0) =~= ov);
        for i in 0..self.owners.len()
            invariant
                ov == self.owners_view(),
                ov.len() == self.owners@.len(),
                owner_lookup(ov, exe@) == owner_lookup(ov.skip(i as int), exe@),
        {
            assert(ov.skip(i as int)[0] == ov[i as int]);
            assert(ov.skip(i as int).drop_first() =~= ov.skip(i + 1));
            if same(&to_chars(self.owners[i].0.as_str()), exe) {
                return Some(self.owners[i].1);
            }
        }
        assert(ov.skip(ov.len() as int) =~= Seq::<(Seq<char>, bool)>::empty());
        None
    }

    /// Whether observing this process formats its command line cut at 120
    /// bytes (so `short_ok(cmdline, 120)` must hold).
    pub open spec fn observe_cuts(
        comm: Seq<char>,
        cmdline_bytes: Seq<u8>,
        ppid: u32,
        cmdline: Seq<char>,
        exe: Option<Seq<char>>,
    ) -> bool {
        !is_kernel_thread_spec(comm, cmdline_bytes, ppid) && !has_infix(cmdline, "aur-guard"@) && match exe {
            Some(e) => suspicious_dir_spec(e) is Some,
            None => suspicious_dir_spec(cmdline) is Some,
        }
    }

    /// The executable form of `observe_cuts`.
    pub fn observe_would_cut(
        comm: &str,
        cmdline_bytes: &[u8],
        ppid: u32,
        cmdline: &str,
        exe: Option<&str>,
    ) -> (r: bool)
        ensures
            r == Self::observe_cuts(comm@, cmdline_bytes@, ppid, cmdline@, match exe {
                Some(e) => Some(e@),
                None => None,
            }),
    {
        !is_kernel_thread(comm, cmdline_bytes, ppid) && !crate::text::contains(
            &to_chars(cmdline),
            &to_chars("aur-guard"),
        ) && match exe {
            Some(e) => in_suspicious_dir(e).is_some(),
            None => in_suspicious_dir(cmdline).is_some(),
        }
    }

    /// Take one process into account. Kernel threads and aur-guard's own
    /// processes are skipped. A binary in a suspicious directory is
    /// critical; without a binary, a command line in a suspicious directory
    /// is noted. The result names the binary whose package ownership must be
    /// asked (then given to `record_owner`): a binary outside the package
    /// trees, not asked before, while fewer than `max_owner_checks` queries
    /// were made.
    pub fn observe(
        &mut self,
        pid: u32,
        comm: &str,
        cmdline_bytes: &[u8],
        ppid: u32,
        cmdline: &str,
        exe: Option<&str>,
    ) -> (r: Option<String>)
        requires
            old(self).wf(),
            Self::observe_cuts(comm@, cmdline_bytes@, ppid, cmdline@, match exe {
                Some(e) => Some(e@),
                None => None,
            }) ==> short_ok(cmdline@, 120),
        ensures
            final(self).wf(),
            final(self).owners_view() == old(self).owners_view(),
            final(self).reported_view() == old(self).reported_view(),
            ({
                let skip = is_kernel_thread_spec(comm@, cmdline_bytes@, ppid) || has_infix(
                    cmdline@,
                    "aur-guard"@,
                );
                let added: Seq<(Seq<char>, Seq<char>)> = if skip {
                    Seq::empty()
                } else {
                    match exe {
                        Some(e) => match suspicious_dir_spec(e@) {
                            Some(d) => seq![("crit"@, exe_in_dir_message(pid, comm@, d, cmdline@))],
                            None => Seq::empty(),
                        },
                        None => match suspicious_dir_spec(cmdline@) {
                            Some(d) => seq![("info"@, cmdline_in_dir_message(pid, comm@, d, cmdline@))],
                            None => Seq::empty(),
                        },
                    }
                };
                let ask = !skip && match exe {
                    Some(e) => old(self).checks_view() < max_owner_checks()
                        && not_pacman_owned_spec(e@) && old(self).cached(e@) is None,
                    None => false,
                };
                &&& final(self).findings_view() == old(self).findings_view() + added
                &&& ask ==> r is Some && r->0@ == exe->0@
                &&& !ask ==> r is None
            }),
    {
        let ghost old_f = self.findings_view();
        if is_kernel_thread(comm, cmdline_bytes, ppid) || crate::text::contains(
            &to_chars(cmdline),
            &to_chars("aur-guard"),
        ) {
            assert(old_f =~= old_f + Seq::<(Seq<char>, Seq<char>)>::empty());
            return None;
        }
        let pidc = decimal_chars(pid as u64);
        let mut prefix = to_chars("proceso ");
        prefix = append_chars(&prefix, &pidc);
        prefix = append_chars(&prefix, &to_chars(" ["));
        prefix = append_chars(&prefix, &to_chars(comm));
        prefix = append_chars(&prefix, &to_chars("] "));
        assert(prefix@ =~= proc_prefix(pid, comm@));
        match exe {
            Some(es) => {
                match in_suspicious_dir(es) {
                    Some(d) => {
                        let mut m = append_chars(&prefix, &to_chars("con binario en "));
                        m = append_chars(&m, &to_chars(d));
                        m = append_chars(&m, &to_chars(": "));
                        m = append_chars(&m, &to_chars(short(cmdline, 120).as_str()));
                        assert(m@ =~= exe_in_dir_message(pid, comm@, d@, cmdline@));
                        self.findings.push(finding("crit", m));
                        assert(self.findings_view() =~= old_f + seq![("crit"@, exe_in_dir_message(pid, comm@, d@, cmdline@))]);
                    },
                    None => {
                        assert(old_f =~= old_f + Seq::<(Seq<char>, Seq<char>)>::empty());
                    },
                }
                if self.checks < 80 && not_pacman_owned_path(es) {
                    let e = to_chars(es);
                    match self.lookup_owner(&e) {
                        Some(_) => None,
                        None => Some(owned(es)),
                    }
                } else {
                    None
                }
            },
            None => {
                match in_suspicious_dir(cmdline) {
                    Some(d) => {
                        let mut m = append_chars(&prefix, &to_chars("en ruta sospechosa "));
                        m = append_chars(&m, &to_chars(d));
                        m = append_chars(&m, &to_chars(": "));
                        m = append_chars(&m, &to_chars(short(cmdline, 120).as_str()));
                        assert(m@ =~= cmdline_in_dir_message(pid, comm@, d@, cmdline@));
                        self.findings.push(finding("info", m));
                        assert(self.findings_view() =~= old_f + seq![("info"@, cmdline_in_dir_message(pid, comm@, d@, cmdline@))]);
                    },
                    None => {
                        assert(old_f =~= old_f + Seq::<(Seq<char>, Seq<char>)>::empty());
                    },
                }
                None
            },
        }
    }

    /// Record the answer to an ownership query for `exe` (asked because
    /// `observe` named it): a binary no package owns is reported once, as a
    /// warning.
    pub fn record_owner(&mut self, pid: u32, comm: &str, exe: &str, cmdline: &str, is_owned: bool)
        requires
            old(self).wf(),
            old(self).checks_view() < max_owner_checks(),
            old(self).cached(exe@) is None,
            !is_owned ==> short_ok(cmdline@, 100),
        ensures
            final(self).wf(),
            final(self).owners_view() == old(self).owners_view().push((exe@, is_owned)),
            final(self).checks_view() == old(self).checks_view() + 1,
            ({
                let report = !is_owned && !old(self).reported_view().contains(exe@);
                &&& report ==> final(self).reported_view() == old(self).reported_view().push(exe@)
                    && final(self).findings_view() == old(self).findings_view().push(
                    ("warn"@, unowned_message(pid, comm@, exe@, cmdline@)),
                )
                &&& !report ==> final(self).reported_view() == old(self).reported_view()
                    && final(self).findings_view() == old(self).findings_view()
            }),
    {
        let ghost old_o = self.owners_view();
        let ghost old_r = self.reported_view();
        let ghost old_f = self.findings_view();
        self.owners.push((owned(exe), is_owned));
        self.checks = self.checks + 1;
        assert(self.owners_view() =~= old_o.push((exe@, is_owned)));
        if !is_owned {
            let e = to_chars(exe);
            let rc = chars_of_reported(&self.reported);
            if !member_chars(&rc, &e) {
                self.reported.push(owned(exe));
                assert(self.reported_view() =~= old_r.push(exe@));
                let pidc = decimal_chars(pid as u64);
                let mut m = to_chars("proceso ");
                m = append_chars(&m, &pidc);
                m = append_chars(&m, &to_chars(" ["));
                m = append_chars(&m, &to_chars(comm));
                m = append_chars(&m, &to_chars("] "));
                m = append_chars(&m, &to_chars("con binario sin paquete: "));
                m = append_chars(&m, &e);
                m = append_chars(&m, &to_chars(" ("));
                m = append_chars(&m, &to_chars(short(cmdline, 100).as_str()));
                m = append_chars(&m, &to_chars(")"));
                assert(m@ =~= unowned_message(pid, comm@, exe@, cmdline@));
                self.findings.push(finding("warn", m));
                assert(self.findings_view() =~= old_f.push(("warn"@, unowned_message(pid, comm@, exe@, cmdline@))));
                proof {
                    assert forall|i: int|
                        0 <= i < self.owners_view().len() && !(#[trigger] self.owners_view()[i]).1
                            implies self.reported_view().contains(self.owners_view()[i].0) by {
                        lemma_push_contains(old_r, exe@, self.owners_view()[i].0);
                        if i < old_o.len() {
                            assert(self.owners_view()[i] == old_o[i]);
                        }
                    }
                    assert(self.reported_view().no_duplicates()) by {
                        assert forall|i: int, j: int|
                            0 <= i < self.reported_view().len() && 0 <= j < self.reported_view().len() && i != j
                                implies self.reported_view()[i] != self.reported_view()[j] by {
                            if i < old_r.len() && j < old_r.len() {
                            } else if i == old_r.len() {
                                assert(old_r[j] == self.reported_view()[j]);
                                assert(old_r.contains(old_r[j]));
                            } else {
                                assert(old_r[i] == self.reported_view()[i]);
                                assert(old_r.contains(old_r[i]));
                            }
                        }
                    }
                }
                return;
            } else {
                proof {
                    assert forall|i: int|
                        0 <= i < self.owners_view().len() && !(#[trigger] self.owners_view()[i]).1
                            implies self.reported_view().contains(self.owners_view()[i].0) by {
                        if i < old_o.len() {
                            assert(self.owners_view()[i] == old_o[i]);
                        }
                    }
                }
                return;
            }
        }
        proof {
            assert forall|i: int|
                0 <= i < self.owners_view().len() && !(#[trigger] self.owners_view()[i]).1
                    implies self.reported_view().contains(self.owners_view()[i].0) by {
                if i < old_o.len() {
                    assert(self.owners_view()[i] == old_o[i]);
                }
            }
        }
    }
}

/// The ownership answer of the first entry for `exe`.
pub open spec fn owner_lookup(o: Seq<(Seq<char>, bool)>, exe: Seq<char>) -> Option<bool>
    decreases o.len(),
{
    if o.len() == 0 {
        None
    } else if o[0].0 == exe {
        Some(o[0].1)
    } else {
        owner_lookup(o.drop_first(), exe)
    }
}

fn chars_of_reported(v: &Vec<String>) -> (r: Vec<Vec<char>>)
    ensures
        views(r@) == v.deep_view(),
{
    crate::text::chars_of_all(v)
}

fn member_chars(base: &Vec<Vec<char>>, c: &Vec<char>) -> (r: bool)
    ensures
        r == views(base@).contains(c@),
{
    let ghost bv = views(base@);
    for j in 0..base.len()
        invariant
            bv == views(base@),
            !bv.take(j as int).contains(c@),
    {
        proof {
            lemma_take_contains(bv, j as int, c@);
        }
        if same(&base[j], c) {
            assert(bv[j as int] == c@);
            assert(bv.contains(c@));
            return true;
        }
    }
    proof {
        lemma_take_full(bv);
    }
    false
}

/// A scan never makes more than `max_owner_checks` ownership queries, and
/// reports each unowned binary once.
pub proof fn law_scan_bounded(s: ProcScan)
    requires
        s.wf(),
    ensures
        s.owners_view().len() <= max_owner_checks(),
        s.owners_view().len() <= 80,
        s.reported_view().no_duplicates(),
{
}


// ---------------------------------------------------------------------------
// /proc/<pid>/status and cmdline
// ---------------------------------------------------------------------------

/// The rest of the first line that starts with `key`.
pub open spec fn field_value(ls: Seq<Seq<char>>, key: Seq<char>) -> Option<Seq<char>>
    decreases ls.len(),
{
    if ls.len() == 0 {
        None
    } else if has_prefix(ls[0], key) {
        Some(ls[0].skip(key.len() as int))
    } else {
        field_value(ls.drop_first(), key)
    }
}

/// The parent pid in a status file: the `PPid:` field, trimmed and parsed,
/// or 0.
pub open spec fn status_ppid(status: Seq<char>) -> u32 {
    match field_value(lines(status), "PPid:"@) {
        Some(v) => match parse_u32(trim(v)) {
            Some(p) => p,
            None => 0,
        },
        None => 0,
    }
}

/// The command name in a status file: the `Name:` field, trimmed, or empty.
pub open spec fn status_name(status: Seq<char>) -> Seq<char> {
    match field_value(lines(status), "Name:"@) {
        Some(v) => trim(v),
        None => Seq::empty(),
    }
}

fn field_value_exec(ls: &Vec<Vec<char>>, key: &Vec<char>) -> (r: Option<Vec<char>>)
    ensures
        match r {
            Some(v) => field_value(views(ls@), key@) == Some(v@),
            None => field_value(views(ls@), key@) is None,
        },
{
    let ghost lv = views(ls@);
    assert(lv.skip(0) =~= lv);
    for i in 0..ls.len()
        invariant
            lv == views(ls@),
            lv.len() == ls@.len(),
            field_value(lv, key@) == field_value(lv.skip(i as int), key@),
    {
        assert(lv.skip(i as int)[0] == ls@[i as int]@);
        assert(lv.skip(i as int).drop_first() =~= lv.skip(i + 1));
        if starts_with(&ls[i], key) {
            let v = subvec(&ls[i], key.len(), ls[i].len());
            assert(v@ =~= ls@[i as int]@.skip(key@.len() as int));
            return Some(v);
        }
    }
    assert(lv.skip(lv.len() as int) =~= Seq::<Seq<char>>::empty());
    None
}

/// The parent pid and command name of a `/proc/<pid>/status` file.
pub fn parse_status(status: &str) -> (r: (u32, String))
    ensures
        r.0 == status_ppid(status@),
        r.1@ == status_name(status@),
{
    let ls = split_lines(&to_chars(status));
    let ppid = match field_value_exec(&ls, &to_chars("PPid:")) {
        Some(v) => match parse_u32_chars(&trim_chars(&v)) {
            Some(p) => p,
            None => 0,
        },
        None => 0,
    };
    let name = match field_value_exec(&ls, &to_chars("Name:")) {
        Some(v) => string_of(trim_chars(&v).as_slice()),
        None => String::new(),
    };
    (ppid, name)
}

/// `String::from_utf8_lossy` (ill-formed sequences become U+FFFD).
pub uninterp spec fn utf8_lossy(bytes: Seq<u8>) -> Seq<char>;

/// `String::from_utf8_lossy`, owned: the decoded text, which is exactly the
/// encoded characters when the bytes are well-formed UTF-8.
#[verifier::external_body]
fn lossy_string(bytes: &[u8]) -> (r: String)
    ensures
        r@ == utf8_lossy(bytes@),
        vstd::utf8::valid_utf8(bytes@) ==> r@ == vstd::utf8::decode_utf8(bytes@),
{
    String::from_utf8_lossy(bytes).into_owned()
}

/// Position of the first NUL at or after `k`, or `b.len()`.
pub open spec fn nul_from(b: Seq<u8>, k: int) -> int
    decreases b.len() - k,
{
    if k < 0 || k >= b.len() {
        b.len() as int
    } else if b[k] == 0u8 {
        k
    } else {
        nul_from(b, k + 1)
    }
}

proof fn lemma_nul_from(b: Seq<u8>, k: int, i: int)
    requires
        0 <= k <= i <= b.len(),
        forall|j: int| k <= j < i ==> b[j] != 0u8,
    ensures
        nul_from(b, k) == nul_from(b, i),
        k <= nul_from(b, k) <= b.len(),
    decreases i - k,
{
    if k < i {
        lemma_nul_from(b, k + 1, i);
    } else {
        lemma_nul_bound(b, k);
    }
}

pub proof fn lemma_nul_bound(b: Seq<u8>, k: int)
    requires
        0 <= k <= b.len(),
    ensures
        k <= nul_from(b, k) <= b.len(),
    decreases b.len() - k,
{
    if k < b.len() && b[k] != 0u8 {
        lemma_nul_bound(b, k + 1);
    }
}

/// The non-empty NUL-separated arguments of `b[k..]`.
pub open spec fn args_from(b: Seq<u8>, k: int) -> Seq<Seq<u8>>
    decreases b.len() - k,
{
    if k < 0 || k > b.len() {
        Seq::empty()
    } else {
        let e = nul_from(b, k);
        let part = b.subrange(k, e);
        let here = if part.len() > 0 {
            seq![part]
        } else {
            Seq::<Seq<u8>>::empty()
        };
        if e < b.len() {
            proof {
                lemma_nul_bound(b, k);
            }
            here + args_from(b, e + 1)
        } else {
            here
        }
    }
}

pub open spec fn lossy_all(parts: Seq<Seq<u8>>) -> Seq<Seq<char>> {
    Seq::new(parts.len(), |i: int| utf8_lossy(parts[i]))
}

/// The command line of a process from `/proc/<pid>/cmdline`: the non-empty
/// NUL-separated arguments, each decoded leniently, joined with spaces.
pub open spec fn cmdline_text_spec(b: Seq<u8>) -> Seq<char> {
    join(lossy_all(args_from(b, 0)), " "@)
}

pub fn cmdline_text(bytes: &[u8]) -> (r: String)
    ensures
        r@ == cmdline_text_spec(bytes@),
{
    let n = bytes.len();
    let ghost b = bytes@;
    let mut parts: Vec<Vec<char>> = Vec::new();
    let mut start: usize = 0;
    let mut i: usize = 0;
    while i < n
        invariant
            n == b.len(),
            b == bytes@,
            start <= i <= n,
            lossy_all(args_from(b, 0)) == views(parts@) + lossy_all(args_from(b, start as int)),
            forall|j: int| start <= j < i ==> b[j] != 0u8,
        decreases n - i,
    {
        if bytes[i] == 0 {
            proof {
                lemma_nul_from(b, start as int, i as int);
            }
            let ghost before = views(parts@);
            if i > start {
                let sl = slice_part(bytes, start, i);
                let t = lossy_string(sl.as_slice());
                parts.push(to_chars(t.as_str()));
                assert(views(parts@) =~= before.push(utf8_lossy(b.subrange(start as int, i as int))));
                assert(lossy_all(args_from(b, start as int)) =~= seq![utf8_lossy(b.subrange(start as int, i as int))] + lossy_all(args_from(b, i + 1)));
            } else {
                assert(args_from(b, start as int) =~= args_from(b, i + 1));
            }
            assert(lossy_all(args_from(b, 0)) =~= views(parts@) + lossy_all(args_from(b, i + 1)));
            start = i + 1;
        }
        i += 1;
    }
    proof {
        lemma_nul_from(b, start as int, n as int);
    }
    if start < n {
        let sl = slice_part(bytes, start, n);
        let t = lossy_string(sl.as_slice());
        let ghost before = views(parts@);
        parts.push(to_chars(t.as_str()));
        assert(lossy_all(args_from(b, start as int)) =~= seq![utf8_lossy(b.subrange(start as int, n as int))]);
        assert(views(parts@) =~= before + lossy_all(args_from(b, start as int)));
    } else {
        assert(lossy_all(args_from(b, start as int)) =~= Seq::<Seq<char>>::empty());
        assert(views(parts@) + Seq::<Seq<char>>::empty() =~= views(parts@));
    }
    string_of(join_chars(&parts, &to_chars(" ")).as_slice())
}

fn slice_part(b: &[u8], a: usize, e: usize) -> (r: Vec<u8>)
    requires
        a <= e <= b@.len(),
    ensures
        r@ == b@.subrange(a as int, e as int),
{
    let mut r: Vec<u8> = Vec::new();
    let mut i = a;
    while i < e
        invariant
            a <= i <= e <= b@.len(),
            r@ == b@.subrange(a as int, i as int),
        decreases e - i,
    {
        r.push(b[i]);
        i += 1;
    }
    r
}

// ---------------------------------------------------------------------------
// Listening ports
// ---------------------------------------------------------------------------

/// The expression that finds the pids in `ss -p` output.
pub open spec fn pid_pattern() -> Seq<char> {
    "pid=(\\d+)"@
}

/// The first-group texts of the matches on each line, in order, for the
/// matches where the group took part.
pub open spec fn line_pids(groups: Seq<Seq<Option<Seq<char>>>>) -> Seq<Seq<char>>
    decreases groups.len(),
{
    if groups.len() == 0 {
        Seq::empty()
    } else {
        line_pids(groups.drop_last()) + if groups.last().len() > 1 && groups.last()[1] is Some {
            seq![groups.last()[1]->0]
        } else {
            Seq::empty()
        }
    }
}

/// All pids found, line by line, from the capture groups of each line.
pub open spec fn all_pids(gs: Seq<Seq<Seq<Option<Seq<char>>>>>) -> Seq<Seq<char>>
    decreases gs.len(),
{
    if gs.len() == 0 {
        Seq::empty()
    } else {
        all_pids(gs.drop_last()) + line_pids(gs.last())
    }
}

/// The capture groups of the pid expression on each line of `ss` output.
pub open spec fn output_groups(ls: Seq<Seq<char>>) -> Seq<Seq<Seq<Option<Seq<char>>>>> {
    Seq::new(ls.len(), |i: int| regex_groups(pid_pattern(), ls[i]))
}

/// The first occurrence of each element, in order.
pub open spec fn dedup_first(s: Seq<Seq<char>>) -> Seq<Seq<char>>
    decreases s.len(),
{
    if s.len() == 0 {
        Seq::empty()
    } else if dedup_first(s.drop_last()).contains(s.last()) {
        dedup_first(s.drop_last())
    } else {
        dedup_first(s.drop_last()).push(s.last())
    }
}

/// The pids with listening sockets in one `ss -tlnp` / `ss -ulnp` output, each
/// once, in order of appearance; none when `ss` could not run (its output is
/// then the `"<ss ..."` placeholder) or the pid expression does not compile.
pub open spec fn listening_pids_spec(out: Seq<char>) -> Seq<Seq<char>> {
    if has_prefix(out, "<ss"@) || !regex_accepts(pid_pattern()) {
        Seq::empty()
    } else {
        dedup_first(all_pids(output_groups(lines(out))))
    }
}

fn groups_pids(groups: &Vec<Vec<Option<String>>>) -> (r: Vec<Vec<char>>)
    ensures
        views(r@) == line_pids(groups.deep_view()),
{
    let ghost gv = groups.deep_view();
    let mut out: Vec<Vec<char>> = Vec::new();
    for i in 0..groups.len()
        invariant
            gv == groups.deep_view(),
            views(out@) == line_pids(gv.take(i as int)),
    {
        assert(gv.take(i + 1).drop_last() =~= gv.take(i as int));
        assert(gv.take(i + 1).last() == groups@[i as int].deep_view());
        let g = &groups[i];
        let ghost before = views(out@);
        if g.len() > 1 {
            match &g[1] {
                Some(t) => {
                    out.push(to_chars(t.as_str()));
                    assert(g.deep_view()[1] == Some(t@));
                    assert(views(out@) =~= before + seq![t@]);
                },
                None => {
                    assert(g.deep_view()[1] is None);
                    assert(views(out@) =~= before + Seq::<Seq<char>>::empty());
                },
            }
        } else {
            assert(views(out@) =~= before + Seq::<Seq<char>>::empty());
        }
    }
    proof {
        lemma_take_full(gv);
    }
    out
}

/// The pids among the capture groups of each line (group 1 of each match),
/// each once, in order of appearance.
pub fn pids_from_groups(gs: &Vec<Vec<Vec<Option<String>>>>) -> (r: Vec<String>)
    ensures
        r.deep_view() == dedup_first(all_pids(gs.deep_view())),
{
    let ghost gv = gs.deep_view();
    let mut all: Vec<Vec<char>> = Vec::new();
    for i in 0..gs.len()
        invariant
            gv == gs.deep_view(),
            views(all@) == all_pids(gv.take(i as int)),
    {
        assert(gv.take(i + 1).drop_last() =~= gv.take(i as int));
        assert(gv.take(i + 1).last() == gs@[i as int].deep_view());
        let ps = groups_pids(&gs[i]);
        let ghost before = views(all@);
        for j in 0..ps.len()
            invariant
                views(all@) == before + views(ps@).take(j as int),
        {
            let c = subvec(&ps[j], 0, ps[j].len());
            assert(c@ =~= ps@[j as int]@);
            let ghost b2 = views(all@);
            all.push(c);
            assert(views(all@) =~= b2.push(ps@[j as int]@));
            assert(views(ps@).take(j + 1) =~= views(ps@).take(j as int).push(ps@[j as int]@));
            assert(views(all@) =~= before + views(ps@).take(j + 1));
        }
        assert(views(ps@).take(ps@.len() as int) =~= views(ps@));
    }
    proof {
        lemma_take_full(gv);
    }
    let ghost av = views(all@);
    let mut seen: Vec<Vec<char>> = Vec::new();
    for i in 0..all.len()
        invariant
            av == views(all@),
            views(seen@) == dedup_first(av.take(i as int)),
    {
        assert(av.take(i + 1).drop_last() =~= av.take(i as int));
        assert(av.take(i + 1).last() == all@[i as int]@);
        if !member_chars(&seen, &all[i]) {
            let ghost before = views(seen@);
            let c = subvec(&all[i], 0, all[i].len());
            assert(c@ =~= all@[i as int]@);
            seen.push(c);
            assert(views(seen@) =~= before.push(av[i as int]));
        }
    }
    proof {
        lemma_take_full(av);
    }
    strings_of(&seen)
}

/// The pids with listening sockets in one `ss` output (see
/// `listening_pids_spec`).
pub fn listening_pids(out: &str) -> (r: Vec<String>)
    ensures
        r.deep_view() == listening_pids_spec(out@),
{
    let oc = to_chars(out);
    if starts_with(&oc, &to_chars("<ss")) {
        return Vec::new();
    }
    let pat = match Pattern::compile("pid=(\\d+)") {
        Some(p) => p,
        None => {
            return Vec::new();
        },
    };
    let ls = split_lines(&oc);
    let ghost lv = views(ls@);
    let mut gs: Vec<Vec<Vec<Option<String>>>> = Vec::new();
    for i in 0..ls.len()
        invariant
            lv == views(ls@),
            pat.source_view() == pid_pattern(),
            gs.deep_view() == output_groups(lv).take(i as int),
    {
        let line = string_of(ls[i].as_slice());
        let caps = pat.captures(line.as_str());
        let ghost before = gs.deep_view();
        let ghost cv = caps.deep_view();
        assert(cv == regex_groups(pid_pattern(), lv[i as int]));
        gs.push(caps);
        assert(gs.deep_view() =~= before.push(cv));
        assert(gs.deep_view() =~= output_groups(lv).take(i + 1));
    }
    assert(output_groups(lv).take(ls@.len() as int) =~= output_groups(lv));
    pids_from_groups(&gs)
}

/// A listening socket whose process runs a binary from a suspicious
/// directory: `"puerto {proto} escuchando desde {dir} (pid {pid}): {exe}"`.
pub open spec fn port_finding_spec(proto: Seq<char>, pid: Seq<char>, exe: Seq<char>) -> Option<
    (Seq<char>, Seq<char>),
> {
    match suspicious_dir_spec(exe) {
        Some(d) => Some(
            (
                "crit"@,
                "puerto "@ + proto + " escuchando desde "@ + d + " (pid "@ + pid + "): "@ + exe,
            ),
        ),
        None => None,
    }
}

pub fn port_finding(proto: &str, pid: &str, exe: &str) -> (r: Option<Finding>)
    ensures
        match r {
            Some(f) => port_finding_spec(proto@, pid@, exe@) == Some(finding_view(f)),
            None => port_finding_spec(proto@, pid@, exe@) is None,
        },
{
    match in_suspicious_dir(exe) {
        Some(d) => {
            let mut m = to_chars("puerto ");
            m = append_chars(&m, &to_chars(proto));
            m = append_chars(&m, &to_chars(" escuchando desde "));
            m = append_chars(&m, &to_chars(d));
            m = append_chars(&m, &to_chars(" (pid "));
            m = append_chars(&m, &to_chars(pid));
            m = append_chars(&m, &to_chars("): "));
            m = append_chars(&m, &to_chars(exe));
            assert(m@ =~= "puerto "@ + proto@ + " escuchando desde "@ + d@ + " (pid "@ + pid@ + "): "@ + exe@);
            Some(finding("crit", m))
        },
        None => None,
    }
}


// ---------------------------------------------------------------------------
// Persistence
// ---------------------------------------------------------------------------

/// A directory entry, and whether it was modified within the recent window.
#[derive(Clone, Debug)]
pub struct EntryObs {
    pub name: String,
    pub recent: bool,
}

/// `~/.ssh/authorized_keys`, when it exists: its text if readable, and
/// whether it was modified recently.
#[derive(Clone, Debug)]
pub struct KeysObs {
    pub text: Option<String>,
    pub recent: bool,
}

/// What was seen under the home directory.
#[derive(Clone, Debug)]
pub struct HomeObs {
    /// `~/.config/systemd/user` entries.
    pub user_units: Vec<EntryObs>,
    /// `~/.config/autostart` entry names.
    pub autostart: Vec<String>,
    pub authorized_keys: Option<KeysObs>,
    /// The shell startup files of `rc_files`, in that order; `recent` when the
    /// file exists and was modified recently.
    pub rc_files: Vec<EntryObs>,
}

/// One of the cron locations of `cron_paths`.
#[derive(Clone, Debug)]
pub enum CronObs {
    /// A regular file at `path`.
    File { path: String, recent: bool },
    /// A directory, with its entries named by their full paths.
    Dir { entries: Vec<EntryObs> },
    /// Neither.
    Absent,
}

/// What a persistence scan looked at.
#[derive(Clone, Debug)]
pub struct PersistenceObs {
    /// `/etc/systemd/system` entries.
    pub system_units: Vec<EntryObs>,
    /// `None` when the home directory is unknown.
    pub home: Option<HomeObs>,
    pub cron: Vec<CronObs>,
    /// Whether `/etc/rc.local` exists.
    pub rc_local: bool,
    /// The output of `iptables -L -n` (or its `"<iptables ..."` placeholder).
    pub iptables: String,
}

/// The shell startup files looked at, in the home directory.
pub fn rc_files() -> (r: Vec<String>)
    ensures
        r.deep_view() == seq![".bashrc"@, ".zshrc"@, ".profile"@, ".bash_profile"@],
{
    let mut r: Vec<String> = Vec::new();
    r.push(owned(".bashrc"));
    r.push(owned(".zshrc"));
    r.push(owned(".profile"));
    r.push(owned(".bash_profile"));
    assert(r.deep_view() =~= seq![".bashrc"@, ".zshrc"@, ".profile"@, ".bash_profile"@]);
    r
}

/// The cron locations looked at.
pub fn cron_paths() -> (r: Vec<String>)
    ensures
        r.deep_view() == seq![
            "/etc/crontab"@,
            "/etc/cron.d"@,
            "/etc/cron.hourly"@,
            "/etc/cron.daily"@,
            "/etc/cron.weekly"@,
            "/etc/cron.monthly"@,
        ],
{
    let mut r: Vec<String> = Vec::new();
    r.push(owned("/etc/crontab"));
    r.push(owned("/etc/cron.d"));
    r.push(owned("/etc/cron.hourly"));
    r.push(owned("/etc/cron.daily"));
    r.push(owned("/etc/cron.weekly"));
    r.push(owned("/etc/cron.monthly"));
    assert(r.deep_view() =~= seq![
        "/etc/crontab"@,
        "/etc/cron.d"@,
        "/etc/cron.hourly"@,
        "/etc/cron.daily"@,
        "/etc/cron.weekly"@,
        "/etc/cron.monthly"@,
    ]);
    r
}

pub open spec fn entries_view(es: Seq<EntryObs>) -> Seq<(Seq<char>, bool)> {
    Seq::new(es.len(), |i: int| (es[i].name@, es[i].recent))
}

/// The finding for one entry: when its name ends with one of `sufs` and it is
/// recent (or recency does not matter), `(sev, pre + name + post)`.
pub open spec fn entry_finding(
    e: (Seq<char>, bool),
    sufs: Seq<Seq<char>>,
    need_recent: bool,
    sev: Seq<char>,
    pre: Seq<char>,
    post: Seq<char>,
) -> Seq<(Seq<char>, Seq<char>)> {
    if (exists|i: int| 0 <= i < sufs.len() && has_suffix(e.0, #[trigger] sufs[i])) && (e.1
        || !need_recent) {
        seq![(sev, pre + e.0 + post)]
    } else {
        Seq::empty()
    }
}

/// The findings for a run of entries, in order.
pub open spec fn entries_findings(
    es: Seq<(Seq<char>, bool)>,
    sufs: Seq<Seq<char>>,
    need_recent: bool,
    sev: Seq<char>,
    pre: Seq<char>,
    post: Seq<char>,
) -> Seq<(Seq<char>, Seq<char>)>
    decreases es.len(),
{
    if es.len() == 0 {
        Seq::empty()
    } else {
        entries_findings(es.drop_last(), sufs, need_recent, sev, pre, post) + entry_finding(
            es.last(),
            sufs,
            need_recent,
            sev,
            pre,
            post,
        )
    }
}

fn any_suffix(name: &Vec<char>, sufs: &Vec<Vec<char>>) -> (r: bool)
    ensures
        r == exists|i: int| 0 <= i < sufs@.len() && has_suffix(name@, #[trigger] views(sufs@)[i]),
{
    let ghost sv = views(sufs@);
    for i in 0..sufs.len()
        invariant
            sv == views(sufs@),
            forall|j: int| 0 <= j < i ==> !has_suffix(name@, #[trigger] sv[j]),
    {
        if crate::text::ends_with(name, &sufs[i]) {
            assert(has_suffix(name@, sv[i as int]));
            return true;
        }
    }
    false
}

fn push_entries_findings(
    out: &mut Vec<Finding>,
    es: &Vec<EntryObs>,
    sufs: &Vec<Vec<char>>,
    need_recent: bool,
    sev: &str,
    pre: &str,
    post: &str,
)
    ensures
        findings_view(final(out)@) == findings_view(old(out)@) + entries_findings(
            entries_view(es@),
            views(sufs@),
            need_recent,
            sev@,
            pre@,
            post@,
        ),
{
    let ghost ev = entries_view(es@);
    let ghost o0 = findings_view(out@);
    for i in 0..es.len()
        invariant
            ev == entries_view(es@),
            findings_view(out@) == o0 + entries_findings(ev.take(i as int), views(sufs@), need_recent, sev@, pre@, post@),
    {
        assert(ev.take(i + 1).drop_last() =~= ev.take(i as int));
        assert(ev.take(i + 1).last() == (es@[i as int].name@, es@[i as int].recent));
        let name = to_chars(es[i].name.as_str());
        let ghost before = findings_view(out@);
        if any_suffix(&name, sufs) && (es[i].recent || !need_recent) {
            let m = append_chars(&append_chars(&to_chars(pre), &name), &to_chars(post));
            out.push(finding(sev, m));
            assert(findings_view(out@) =~= before.push((sev@, pre@ + name@ + post@)));
        } else {
            assert(findings_view(out@) =~= before + Seq::<(Seq<char>, Seq<char>)>::empty());
        }
    }
    proof {
        lemma_take_full(ev);
    }
}

fn suffix_list3(a: &str, b: &str, c: &str) -> (r: Vec<Vec<char>>)
    ensures
        views(r@) == seq![a@, b@, c@],
{
    let mut r: Vec<Vec<char>> = Vec::new();
    r.push(to_chars(a));
    r.push(to_chars(b));
    r.push(to_chars(c));
    assert(views(r@) =~= seq![a@, b@, c@]);
    r
}

fn suffix_list1(a: &str) -> (r: Vec<Vec<char>>)
    ensures
        views(r@) == seq![a@],
{
    let mut r: Vec<Vec<char>> = Vec::new();
    r.push(to_chars(a));
    assert(views(r@) =~= seq![a@]);
    r
}

fn suffix_list2(a: &str, b: &str) -> (r: Vec<Vec<char>>)
    ensures
        views(r@) == seq![a@, b@],
{
    let mut r: Vec<Vec<char>> = Vec::new();
    r.push(to_chars(a));
    r.push(to_chars(b));
    assert(views(r@) =~= seq![a@, b@]);
    r
}

/// Whether a line of `iptables -L -n` is a rule (it mentions `ACCEPT`,
/// `DROP` or `REJECT`).
pub open spec fn is_rule_line(l: Seq<char>) -> bool {
    has_infix(l, "ACCEPT"@) || has_infix(l, "DROP"@) || has_infix(l, "REJECT"@)
}

/// The number of rule lines.
pub open spec fn rule_count(ls: Seq<Seq<char>>) -> nat
    decreases ls.len(),
{
    if ls.len() == 0 {
        0
    } else {
        rule_count(ls.drop_last()) + if is_rule_line(ls.last()) {
            1nat
        } else {
            0nat
        }
    }
}

/// The `authorized_keys` finding: a warning when the file holds keys, else a
/// note; the key count is its number of non-blank lines (0 when unreadable).
pub open spec fn keys_finding(k: KeysObs) -> (Seq<char>, Seq<char>) {
    let count: nat = match k.text {
        Some(t) => nonblank_lines(lines(t@)).len(),
        None => 0,
    };
    (
        if count > 0 {
            "warn"@
        } else {
            "info"@
        },
        "authorized_keys con "@ + decimal(count) + " claves"@ + if k.recent {
            " (modificado recientemente)"@
        } else {
            Seq::empty()
        },
    )
}

/// The findings for what was seen under the home directory.
pub open spec fn home_findings(h: HomeObs) -> Seq<(Seq<char>, Seq<char>)> {
    entries_findings(
        entries_view(h.user_units@),
        seq![".service"@, ".timer"@],
        true,
        "warn"@,
        "unit systemd de usuario modificada recientemente: "@,
        Seq::empty(),
    ) + entries_findings(
        Seq::new(h.autostart@.len(), |i: int| (h.autostart@[i]@, false)),
        seq![".desktop"@],
        false,
        "info"@,
        "entrada de autostart presente: "@,
        Seq::empty(),
    ) + match h.authorized_keys {
        Some(k) => seq![keys_finding(k)],
        None => Seq::empty(),
    } + entries_findings(
        entries_view(h.rc_files@),
        seq![Seq::empty()],
        true,
        "info"@,
        Seq::empty(),
        " modificado recientemente"@,
    )
}

/// The findings for one cron location.
pub open spec fn cron_findings(c: CronObs) -> Seq<(Seq<char>, Seq<char>)> {
    match c {
        CronObs::File { path, recent } => if recent {
            seq![("warn"@, path@ + " modificado recientemente"@)]
        } else {
            Seq::empty()
        },
        CronObs::Dir { entries } => entries_findings(
            entries_view(entries@),
            seq![Seq::empty()],
            true,
            "warn"@,
            Seq::empty(),
            " modificado recientemente"@,
        ),
        CronObs::Absent => Seq::empty(),
    }
}

pub open spec fn all_cron_findings(cs: Seq<CronObs>) -> Seq<(Seq<char>, Seq<char>)>
    decreases cs.len(),
{
    if cs.len() == 0 {
        Seq::empty()
    } else {
        all_cron_findings(cs.drop_last()) + cron_findings(cs.last())
    }
}

/// The `iptables` finding: a note when it is unavailable, else a note with the
/// number of active rules when there are any.
pub open spec fn iptables_findings(out: Seq<char>) -> Seq<(Seq<char>, Seq<char>)> {
    if has_prefix(out, "<iptables"@) {
        seq![("info"@, "iptables no disponible o requiere permisos"@)]
    } else if rule_count(lines(out)) > 0 {
        seq![("info"@, decimal(rule_count(lines(out))) + " reglas activas en iptables"@)]
    } else {
        Seq::empty()
    }
}

/// All persistence findings, in the order the scan looks: system units,
/// the home directory, cron, `/etc/rc.local`, `iptables`.
pub open spec fn persistence_spec(o: PersistenceObs) -> Seq<(Seq<char>, Seq<char>)> {
    entries_findings(
        entries_view(o.system_units@),
        seq![".service"@, ".timer"@, ".socket"@],
        true,
        "warn"@,
        "unit systemd modificada recientemente: /etc/systemd/system ("@,
        ")"@,
    ) + match o.home {
        Some(h) => home_findings(h),
        None => Seq::empty(),
    } + all_cron_findings(o.cron@) + if o.rc_local {
        seq![("info"@, "/etc/rc.local existe"@)]
    } else {
        Seq::empty()
    } + iptables_findings(o.iptables@)
}

proof fn lemma_contains_concat<A>(a: Seq<A>, b: Seq<A>, x: A)
    requires
        a.contains(x),
    ensures
        (a + b).contains(x),
        (b + a).contains(x),
{
    let i = choose|i: int| 0 <= i < a.len() && a[i] == x;
    assert((a + b)[i] == x);
    assert((b + a)[b.len() + i] == x);
}

proof fn lemma_entries_findings_contains(
    es: Seq<(Seq<char>, bool)>,
    sufs: Seq<Seq<char>>,
    need_recent: bool,
    sev: Seq<char>,
    pre: Seq<char>,
    post: Seq<char>,
    i: int,
    j: int,
)
    requires
        0 <= i < es.len(),
        0 <= j < sufs.len(),
        has_suffix(es[i].0, sufs[j]),
        es[i].1 || !need_recent,
    ensures
        entries_findings(es, sufs, need_recent, sev, pre, post).contains((sev, pre + es[i].0 + post)),
    decreases es.len(),
{
    let x = (sev, pre + es[i].0 + post);
    let prev = entries_findings(es.drop_last(), sufs, need_recent, sev, pre, post);
    let last = entry_finding(es.last(), sufs, need_recent, sev, pre, post);
    if i == es.len() - 1 {
        assert(last == seq![x]);
        assert(last.contains(x)) by {
            assert(last[0] == x);
        }
        lemma_contains_concat(last, prev, x);
    } else {
        assert(es.drop_last()[i] == es[i]);
        lemma_entries_findings_contains(es.drop_last(), sufs, need_recent, sev, pre, post, i, j);
        lemma_contains_concat(prev, last, x);
    }
}

/// Every recently modified user systemd unit (`~/.config/systemd/user`)
/// whose name ends in `.service` or `.timer` is reported as a warning
/// `"unit systemd de usuario modificada recientemente: <name>"`.
pub proof fn law_recent_user_units_reported(o: PersistenceObs, i: int)
    requires
        o.home is Some,
        0 <= i < o.home->0.user_units@.len(),
        o.home->0.user_units@[i].recent,
        has_suffix(o.home->0.user_units@[i].name@, ".service"@) || has_suffix(
            o.home->0.user_units@[i].name@,
            ".timer"@,
        ),
    ensures
        persistence_spec(o).contains(
            (
                "warn"@,
                "unit systemd de usuario modificada recientemente: "@
                    + o.home->0.user_units@[i].name@,
            ),
        ),
{
    reveal_strlit("");
    let h = o.home->0;
    let e = h.user_units@[i];
    let x = ("warn"@, "unit systemd de usuario modificada recientemente: "@ + e.name@);
    let es = entries_view(h.user_units@);
    let sufs = seq![".service"@, ".timer"@];
    let j: int = if has_suffix(e.name@, ".service"@) { 0 } else { 1 };
    assert(es[i] == (e.name@, e.recent));
    assert(sufs[j] == if j == 0 { ".service"@ } else { ".timer"@ });
    lemma_entries_findings_contains(
        es,
        sufs,
        true,
        "warn"@,
        "unit systemd de usuario modificada recientemente: "@,
        Seq::empty(),
        i,
        j,
    );
    assert("unit systemd de usuario modificada recientemente: "@ + e.name@ + Seq::<char>::empty()
        =~= "unit systemd de usuario modificada recientemente: "@ + e.name@);
    let a = entries_findings(
        es,
        sufs,
        true,
        "warn"@,
        "unit systemd de usuario modificada recientemente: "@,
        Seq::empty(),
    );
    assert(a.contains(x));
    let b = entries_findings(
        Seq::new(h.autostart@.len(), |k: int| (h.autostart@[k]@, false)),
        seq![".desktop"@],
        false,
        "info"@,
        "entrada de autostart presente: "@,
        Seq::empty(),
    );
    let c: Seq<(Seq<char>, Seq<char>)> = match h.authorized_keys {
        Some(k) => seq![keys_finding(k)],
        None => Seq::empty(),
    };
    let d = entries_findings(
        entries_view(h.rc_files@),
        seq![Seq::empty()],
        true,
        "info"@,
        Seq::empty(),
        " modificado recientemente"@,
    );
    lemma_contains_concat(a, b, x);
    lemma_contains_concat(a + b, c, x);
    lemma_contains_concat(a + b + c, d, x);
    assert(home_findings(h) == a + b + c + d);
    let sys = entries_findings(
        entries_view(o.system_units@),
        seq![".service"@, ".timer"@, ".socket"@],
        true,
        "warn"@,
        "unit systemd modificada recientemente: /etc/systemd/system ("@,
        ")"@,
    );
    let rest_rc: Seq<(Seq<char>, Seq<char>)> = if o.rc_local {
        seq![("info"@, "/etc/rc.local existe"@)]
    } else {
        Seq::empty()
    };
    lemma_contains_concat(home_findings(h), sys, x);
    lemma_contains_concat(sys + home_findings(h), all_cron_findings(o.cron@), x);
    lemma_contains_concat(sys + home_findings(h) + all_cron_findings(o.cron@), rest_rc, x);
    lemma_contains_concat(
        sys + home_findings(h) + all_cron_findings(o.cron@) + rest_rc,
        iptables_findings(o.iptables@),
        x,
    );
    assert(persistence_spec(o) == sys + home_findings(h) + all_cron_findings(o.cron@) + rest_rc
        + iptables_findings(o.iptables@));
}

proof fn lemma_persistence_parts(o: PersistenceObs, x: (Seq<char>, Seq<char>))
    ensures
        entries_findings(
            entries_view(o.system_units@),
            seq![".service"@, ".timer"@, ".socket"@],
            true,
            "warn"@,
            "unit systemd modificada recientemente: /etc/systemd/system ("@,
            ")"@,
        ).contains(x) ==> persistence_spec(o).contains(x),
        (o.home matches Some(h) && home_findings(h).contains(x)) ==> persistence_spec(o).contains(x),
        o.rc_local && x == ("info"@, "/etc/rc.local existe"@) ==> persistence_spec(o).contains(x),
{
    let sys = entries_findings(
        entries_view(o.system_units@),
        seq![".service"@, ".timer"@, ".socket"@],
        true,
        "warn"@,
        "unit systemd modificada recientemente: /etc/systemd/system ("@,
        ")"@,
    );
    let home: Seq<(Seq<char>, Seq<char>)> = match o.home {
        Some(h) => home_findings(h),
        None => Seq::empty(),
    };
    let cron = all_cron_findings(o.cron@);
    let rc: Seq<(Seq<char>, Seq<char>)> = if o.rc_local {
        seq![("info"@, "/etc/rc.local existe"@)]
    } else {
        Seq::empty()
    };
    let ipt = iptables_findings(o.iptables@);
    assert(persistence_spec(o) == sys + home + cron + rc + ipt);
    if sys.contains(x) {
        lemma_contains_concat(sys, home, x);
        lemma_contains_concat(sys + home, cron, x);
        lemma_contains_concat(sys + home + cron, rc, x);
        lemma_contains_concat(sys + home + cron + rc, ipt, x);
    }
    if home.contains(x) {
        lemma_contains_concat(home, sys, x);
        lemma_contains_concat(sys + home, cron, x);
        lemma_contains_concat(sys + home + cron, rc, x);
        lemma_contains_concat(sys + home + cron + rc, ipt, x);
    }
    if o.rc_local && x == ("info"@, "/etc/rc.local existe"@) {
        assert(rc[0] == x);
        assert(rc.contains(x));
        lemma_contains_concat(rc, sys + home + cron, x);
        lemma_contains_concat(sys + home + cron + rc, ipt, x);
    }
}

/// Every recently modified unit in `/etc/systemd/system` whose name ends in
/// `.service`, `.timer` or `.socket` is reported as a warning.
pub proof fn law_recent_system_units_reported(o: PersistenceObs, i: int)
    requires
        0 <= i < o.system_units@.len(),
        o.system_units@[i].recent,
        has_suffix(o.system_units@[i].name@, ".service"@) || has_suffix(
            o.system_units@[i].name@,
            ".timer"@,
        ) || has_suffix(o.system_units@[i].name@, ".socket"@),
    ensures
        persistence_spec(o).contains(
            (
                "warn"@,
                "unit systemd modificada recientemente: /etc/systemd/system ("@
                    + o.system_units@[i].name@ + ")"@,
            ),
        ),
{
    let e = o.system_units@[i];
    let es = entries_view(o.system_units@);
    let sufs = seq![".service"@, ".timer"@, ".socket"@];
    let j: int = if has_suffix(e.name@, ".service"@) {
        0
    } else if has_suffix(e.name@, ".timer"@) {
        1
    } else {
        2
    };
    assert(es[i] == (e.name@, e.recent));
    lemma_entries_findings_contains(
        es,
        sufs,
        true,
        "warn"@,
        "unit systemd modificada recientemente: /etc/systemd/system ("@,
        ")"@,
        i,
        j,
    );
    lemma_persistence_parts(
        o,
        ("warn"@, "unit systemd modificada recientemente: /etc/systemd/system ("@ + e.name@ + ")"@),
    );
}

/// Every `.desktop` entry of `~/.config/autostart` is noted, recent or not.
pub proof fn law_autostart_entries_noted(o: PersistenceObs, i: int)
    requires
        o.home is Some,
        0 <= i < o.home->0.autostart@.len(),
        has_suffix(o.home->0.autostart@[i]@, ".desktop"@),
    ensures
        persistence_spec(o).contains(
            ("info"@, "entrada de autostart presente: "@ + o.home->0.autostart@[i]@),
        ),
{
    reveal_strlit("");
    let h = o.home->0;
    let name = h.autostart@[i]@;
    let x = ("info"@, "entrada de autostart presente: "@ + name);
    let es = Seq::new(h.autostart@.len(), |k: int| (h.autostart@[k]@, false));
    assert(es[i] == (name, false));
    lemma_entries_findings_contains(
        es,
        seq![".desktop"@],
        false,
        "info"@,
        "entrada de autostart presente: "@,
        Seq::empty(),
        i,
        0,
    );
    assert("entrada de autostart presente: "@ + name + Seq::<char>::empty() =~= "entrada de autostart presente: "@ + name);
    let a = entries_findings(
        entries_view(h.user_units@),
        seq![".service"@, ".timer"@],
        true,
        "warn"@,
        "unit systemd de usuario modificada recientemente: "@,
        Seq::empty(),
    );
    let b = entries_findings(
        es,
        seq![".desktop"@],
        false,
        "info"@,
        "entrada de autostart presente: "@,
        Seq::empty(),
    );
    let c: Seq<(Seq<char>, Seq<char>)> = match h.authorized_keys {
        Some(k) => seq![keys_finding(k)],
        None => Seq::empty(),
    };
    let d = entries_findings(
        entries_view(h.rc_files@),
        seq![Seq::empty()],
        true,
        "info"@,
        Seq::empty(),
        " modificado recientemente"@,
    );
    assert(b.contains(x));
    lemma_contains_concat(b, a, x);
    lemma_contains_concat(a + b, c, x);
    lemma_contains_concat(a + b + c, d, x);
    assert(home_findings(h) == a + b + c + d);
    lemma_persistence_parts(o, x);
}

/// An existing `/etc/rc.local` is always noted.
pub proof fn law_rc_local_noted(o: PersistenceObs)
    requires
        o.rc_local,
    ensures
        persistence_spec(o).contains(("info"@, "/etc/rc.local existe"@)),
{
    lemma_persistence_parts(o, ("info"@, "/etc/rc.local existe"@));
}

fn count_nonblank(t: &str) -> (r: u64)
    ensures
        r == nonblank_lines(lines(t@)).len(),
{
    let ls = package_lines(t);
    proof {
        lemma_nonblank_len(lines(t@));
    }
    ls.len() as u64
}

proof fn lemma_nonblank_len(ls: Seq<Seq<char>>)
    ensures
        nonblank_lines(ls).len() <= ls.len(),
    decreases ls.len(),
{
    if ls.len() > 0 {
        lemma_nonblank_len(ls.drop_last());
    }
}

fn keys_finding_exec(k: &KeysObs) -> (f: Finding)
    ensures
        finding_view(f) == keys_finding(*k),
{
    let count: u64 = match &k.text {
        Some(t) => count_nonblank(t.as_str()),
        None => 0,
    };
    let mut m = to_chars("authorized_keys con ");
    m = append_chars(&m, &decimal_chars(count));
    m = append_chars(&m, &to_chars(" claves"));
    if k.recent {
        m = append_chars(&m, &to_chars(" (modificado recientemente)"));
    } else {
        assert(m@ =~= m@ + Seq::<char>::empty());
    }
    if count > 0 {
        finding("warn", m)
    } else {
        finding("info", m)
    }
}

fn rule_lines(out: &Vec<char>) -> (r: u64)
    ensures
        r == rule_count(lines(out@)),
{
    let ls = split_lines(out);
    let ghost lv = views(ls@);
    let accept = to_chars("ACCEPT");
    let drop = to_chars("DROP");
    let reject = to_chars("REJECT");
    let mut n: u64 = 0;
    for i in 0..ls.len()
        invariant
            lv == views(ls@),
            accept@ == "ACCEPT"@,
            drop@ == "DROP"@,
            reject@ == "REJECT"@,
            n == rule_count(lv.take(i as int)),
            n <= i,
    {
        assert(lv.take(i + 1).drop_last() =~= lv.take(i as int));
        assert(lv.take(i + 1).last() == ls@[i as int]@);
        if crate::text::contains(&ls[i], &accept) || crate::text::contains(&ls[i], &drop)
            || crate::text::contains(&ls[i], &reject) {
            n = n + 1;
        }
    }
    proof {
        lemma_take_full(lv);
    }
    n
}

/// The persistence findings from what the scan looked at (see
/// `persistence_spec`).
pub fn scan_persistence(o: &PersistenceObs) -> (r: Vec<Finding>)
    ensures
        findings_view(r@) == persistence_spec(*o),
{
    proof {
        reveal_strlit("");
        assert(""@ =~= Seq::<char>::empty());
    }
    let mut out: Vec<Finding> = Vec::new();
    let sys = suffix_list3(".service", ".timer", ".socket");
    push_entries_findings(
        &mut out,
        &o.system_units,
        &sys,
        true,
        "warn",
        "unit systemd modificada recientemente: /etc/systemd/system (",
        ")",
    );
    let ghost after_sys = findings_view(out@);
    match &o.home {
        Some(h) => {
            let user = suffix_list2(".service", ".timer");
            push_entries_findings(
                &mut out,
                &h.user_units,
                &user,
                true,
                "warn",
                "unit systemd de usuario modificada recientemente: ",
                "",
            );
            let mut auto: Vec<EntryObs> = Vec::new();
            for i in 0..h.autostart.len()
                invariant
                    auto@.len() == i,
                    entries_view(auto@) == Seq::new(i as nat, |j: int| (h.autostart@[j]@, false)),
            {
                let ghost before = entries_view(auto@);
                let e = EntryObs { name: owned(h.autostart[i].as_str()), recent: false };
                assert((e.name@, e.recent) == (h.autostart@[i as int]@, false));
                auto.push(e);
                assert(entries_view(auto@) =~= before.push((h.autostart@[i as int]@, false)));
                assert(entries_view(auto@) =~= Seq::new((i + 1) as nat, |j: int| (h.autostart@[j]@, false)));
            }
            push_entries_findings(
                &mut out,
                &auto,
                &suffix_list1(".desktop"),
                false,
                "info",
                "entrada de autostart presente: ",
                "",
            );
            let ghost before_keys = findings_view(out@);
            match &h.authorized_keys {
                Some(k) => {
                    let f = keys_finding_exec(k);
                    out.push(f);
                    assert(findings_view(out@) =~= before_keys + seq![keys_finding(*k)]);
                },
                None => {
                    assert(findings_view(out@) =~= before_keys + Seq::<(Seq<char>, Seq<char>)>::empty());
                },
            }
            push_entries_findings(
                &mut out,
                &h.rc_files,
                &suffix_list1(""),
                true,
                "info",
                "",
                " modificado recientemente",
            );
            assert(findings_view(out@) =~= after_sys + home_findings(*h));
        },
        None => {
            assert(findings_view(out@) =~= after_sys + Seq::<(Seq<char>, Seq<char>)>::empty());
        },
    }
    let ghost after_home = findings_view(out@);
    for i in 0..o.cron.len()
        invariant
            ""@ == Seq::<char>::empty(),
            findings_view(out@) == after_home + all_cron_findings(o.cron@.take(i as int)),
    {
        assert(o.cron@.take(i + 1).drop_last() =~= o.cron@.take(i as int));
        assert(o.cron@.take(i + 1).last() == o.cron@[i as int]);
        let ghost before = findings_view(out@);
        match &o.cron[i] {
            CronObs::File { path, recent } => {
                if *recent {
                    let m = append_chars(&to_chars(path.as_str()), &to_chars(" modificado recientemente"));
                    out.push(finding("warn", m));
                    assert(findings_view(out@) =~= before + cron_findings(o.cron@[i as int]));
                } else {
                    assert(findings_view(out@) =~= before + cron_findings(o.cron@[i as int]));
                }
            },
            CronObs::Dir { entries } => {
                push_entries_findings(
                    &mut out,
                    entries,
                    &suffix_list1(""),
                    true,
                    "warn",
                    "",
                    " modificado recientemente",
                );
            },
            CronObs::Absent => {
                assert(findings_view(out@) =~= before + cron_findings(o.cron@[i as int]));
            },
        }
        assert(findings_view(out@) =~= after_home + all_cron_findings(o.cron@.take(i + 1)));
    }
    proof {
        lemma_take_full(o.cron@);
    }
    let ghost after_cron = findings_view(out@);
    if o.rc_local {
        out.push(finding("info", to_chars("/etc/rc.local existe")));
        assert(findings_view(out@) =~= after_cron + seq![("info"@, "/etc/rc.local existe"@)]);
    } else {
        assert(findings_view(out@) =~= after_cron + Seq::<(Seq<char>, Seq<char>)>::empty());
    }
    let ghost after_rc = findings_view(out@);
    let ipt = to_chars(o.iptables.as_str());
    if starts_with(&ipt, &to_chars("<iptables")) {
        out.push(finding("info", to_chars("iptables no disponible o requiere permisos")));
        assert(findings_view(out@) =~= after_rc + iptables_findings(o.iptables@));
    } else {
        let n = rule_lines(&ipt);
        if n > 0 {
            let m = append_chars(&decimal_chars(n), &to_chars(" reglas activas en iptables"));
            out.push(finding("info", m));
        }
        assert(findings_view(out@) =~= after_rc + iptables_findings(o.iptables@));
    }
    out
}

} // verus!
