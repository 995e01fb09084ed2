//! The package gate: the verdict on a package from the feed and from the
//! indicators of compromise found in its build files.
use vstd::prelude::*;
use crate::feeds::{feed_verdict, verdict_spec, FeedState};
use crate::pattern::{regex_accepts, regex_finds, Pattern};
use crate::text::{cat, has_suffix, lemma_sorted_unique, same, same_members, sort_dedup_strings, strictly_sorted, subvec, to_chars, utf8_string};

verus! {

broadcast use vstd::string::group_string_axioms;

/// The verdict on one package.
#[derive(Clone, Debug)]
pub struct Verdict {
    pub name: String,
    pub malicious: bool,
    pub reasons: Vec<String>,
}

// ---------------------------------------------------------------------------
// File names
// ---------------------------------------------------------------------------

/// Position of the last `'/'` in `p`, or -1.
pub open spec fn last_slash(p: Seq<char>) -> int
    decreases p.len(),
{
    if p.len() == 0 {
        -1
    } else if p.last() == '/' {
        p.len() - 1
    } else {
        last_slash(p.drop_last())
    }
}

pub proof fn lemma_last_slash(p: Seq<char>)
    ensures
        -1 <= last_slash(p) < p.len(),
        last_slash(p) >= 0 ==> p[last_slash(p)] == '/',
        forall|j: int| last_slash(p) < j < p.len() ==> p[j] != '/',
    decreases p.len(),
{
    if p.len() > 0 && p.last() != '/' {
        lemma_last_slash(p.drop_last());
        assert forall|j: int| last_slash(p) < j < p.len() implies p[j] != '/' by {
            if j < p.len() - 1 {
                assert(p[j] == p.drop_last()[j]);
            }
        }
    }
}

/// `Path::file_name` (empty when there is none): the last component that is
/// neither empty nor `"."`, unless that component is `".."`.
pub open spec fn file_name(p: Seq<char>) -> Seq<char>
    decreases p.len(),
{
    let i = last_slash(p);
    let seg = p.subrange(i + 1, p.len() as int);
    if seg.len() == 0 || seg == "."@ {
        if i < 0 {
            Seq::empty()
        } else {
            proof {
                lemma_last_slash(p);
            }
            file_name(p.subrange(0, i))
        }
    } else if seg == ".."@ {
        Seq::empty()
    } else {
        seg
    }
}

fn file_name_exec(p: &Vec<char>) -> (r: Vec<char>)
    ensures
        r@ == file_name(p@),
{
    let dot = to_chars(".");
    let dotdot = to_chars("..");
    let mut e: usize = p.len();
    assert(p@.subrange(0, e as int) =~= p@);
    loop
        invariant
            e <= p@.len(),
            dot@ == "."@,
            dotdot@ == ".."@,
            file_name(p@) == file_name(p@.subrange(0, e as int)),
        decreases e,
    {
        let ghost q = p@.subrange(0, e as int);
        proof {
            lemma_last_slash(q);
        }
        let mut k: usize = e;
        while k > 0 && p[k - 1] != '/'
            invariant
                k <= e <= p@.len(),
                q == p@.subrange(0, e as int),
                forall|j: int| k <= j < e ==> p@[j] != '/',
            decreases k,
        {
            k -= 1;
        }
        proof {
            // k - 1 is the last slash of q
            if k > 0 {
                assert(q[k - 1] == '/');
                if last_slash(q) != k - 1 {
                    assert(last_slash(q) < k - 1 || last_slash(q) > k - 1);
                    if last_slash(q) > k - 1 {
                        assert(q[last_slash(q)] == p@[last_slash(q)]);
                    }
                }
            } else {
                if last_slash(q) >= 0 {
                    assert(q[last_slash(q)] == p@[last_slash(q)]);
                }
            }
            assert(last_slash(q) == k - 1);
        }
        let seg = subvec(p, k, e);
        assert(seg@ =~= q.subrange(k as int, q.len() as int));
        if seg.len() == 0 || same(&seg, &dot) {
            if k == 0 {
                return Vec::new();
            }
            assert(q.subrange(0, k - 1) =~= p@.subrange(0, k - 1));
            e = k - 1;
        } else if same(&seg, &dotdot) {
            return Vec::new();
        } else {
            return seg;
        }
    }
}

/// The build-file extensions worth scanning.
pub open spec fn scanned_extensions() -> Seq<Seq<char>> {
    seq![".install"@, ".sh"@, ".bash"@, ".zsh"@, ".py"@, ".pl"@, ".rb"@, ".patch"@]
}

/// A file worth scanning: `PKGBUILD`, `.SRCINFO`, a script or patch by its
/// extension, or a name without a dot.
pub open spec fn is_interesting_spec(file: Seq<char>) -> bool {
    let base = file_name(file);
    base == "PKGBUILD"@ || base == ".SRCINFO"@ || (exists|i: int|
        0 <= i < scanned_extensions().len() && has_suffix(base, #[trigger] scanned_extensions()[i]))
        || !base.contains('.')
}

proof fn lemma_last_slash_append(p: Seq<char>, q: Seq<char>)
    requires
        forall|i: int| 0 <= i < q.len() ==> q[i] != '/',
    ensures
        last_slash(p + q) == last_slash(p),
    decreases q.len(),
{
    if q.len() == 0 {
        assert(p + q =~= p);
    } else {
        assert((p + q).last() == q.last());
        assert((p + q).drop_last() =~= p + q.drop_last());
        lemma_last_slash_append(p, q.drop_last());
    }
}

proof fn lemma_extension_interesting(b: Seq<char>, k: int)
    requires
        0 <= k < scanned_extensions().len(),
        scanned_extensions()[k].len() >= 3,
        forall|i: int| 0 <= i < scanned_extensions()[k].len() ==> scanned_extensions()[k][i] != '/',
    ensures
        is_interesting_spec(b + scanned_extensions()[k]),
{
    reveal_strlit(".");
    reveal_strlit("..");
    let ext = scanned_extensions()[k];
    let f = b + ext;
    lemma_last_slash_append(b, ext);
    lemma_last_slash(b);
    let l = last_slash(b);
    let seg = f.subrange(l + 1, f.len() as int);
    assert(seg.len() >= 3);
    assert(seg != "."@);
    assert(seg != ".."@);
    assert(file_name(f) == seg);
    assert(seg.subrange(seg.len() - ext.len(), seg.len() as int) =~= ext);
    assert(has_suffix(file_name(f), scanned_extensions()[k]));
}

/// Build scripts and patches are always scanned: any file whose name ends in
/// `.install`, `.sh`, `.bash`, `.zsh`, `.py`, `.pl`, `.rb` or `.patch`, in
/// any directory, is worth scanning.
pub proof fn law_scripts_are_scanned(b: Seq<char>)
    ensures
        is_interesting_spec(b + ".install"@),
        is_interesting_spec(b + ".sh"@),
        is_interesting_spec(b + ".bash"@),
        is_interesting_spec(b + ".zsh"@),
        is_interesting_spec(b + ".py"@),
        is_interesting_spec(b + ".pl"@),
        is_interesting_spec(b + ".rb"@),
        is_interesting_spec(b + ".patch"@),
{
    reveal_strlit(".install");
    reveal_strlit(".sh");
    reveal_strlit(".bash");
    reveal_strlit(".zsh");
    reveal_strlit(".py");
    reveal_strlit(".pl");
    reveal_strlit(".rb");
    reveal_strlit(".patch");
    assert(scanned_extensions()[0] == ".install"@);
    assert(scanned_extensions()[1] == ".sh"@);
    assert(scanned_extensions()[2] == ".bash"@);
    assert(scanned_extensions()[3] == ".zsh"@);
    assert(scanned_extensions()[4] == ".py"@);
    assert(scanned_extensions()[5] == ".pl"@);
    assert(scanned_extensions()[6] == ".rb"@);
    assert(scanned_extensions()[7] == ".patch"@);
    lemma_extension_interesting(b, 0);
    lemma_extension_interesting(b, 1);
    lemma_extension_interesting(b, 2);
    lemma_extension_interesting(b, 3);
    lemma_extension_interesting(b, 4);
    lemma_extension_interesting(b, 5);
    lemma_extension_interesting(b, 6);
    lemma_extension_interesting(b, 7);
}

proof fn lemma_file_name_in_dir(b: Seq<char>, n: Seq<char>)
    requires
        b.len() == 0 || b.last() == '/',
        n.len() > 0,
        forall|i: int| 0 <= i < n.len() ==> n[i] != '/',
        n != "."@,
        n != ".."@,
    ensures
        file_name(b + n) == n,
{
    lemma_last_slash_append(b, n);
    lemma_last_slash(b);
    let l = last_slash(b);
    assert(l == b.len() - 1) by {
        if b.len() > 0 {
            assert(b[b.len() - 1] == '/');
            if l < b.len() - 1 {
                assert(false);
            }
        }
    }
    assert((b + n).subrange(l + 1, (b + n).len() as int) =~= n);
}

/// In any directory, `PKGBUILD`, `.SRCINFO` and every file without a dot in
/// its name are scanned.
pub proof fn law_build_files_are_scanned(b: Seq<char>, n: Seq<char>)
    requires
        b.len() == 0 || b.last() == '/',
    ensures
        is_interesting_spec(b + "PKGBUILD"@),
        is_interesting_spec(b + ".SRCINFO"@),
        n.len() > 0 && (forall|i: int| 0 <= i < n.len() ==> n[i] != '/' && n[i] != '.')
            ==> is_interesting_spec(b + n),
{
    reveal_strlit("PKGBUILD");
    reveal_strlit(".SRCINFO");
    reveal_strlit(".");
    reveal_strlit("..");
    let k = "PKGBUILD"@;
    assert forall|i: int| 0 <= i < k.len() implies k[i] != '/' by {}
    assert(k.len() != "."@.len() && k.len() != ".."@.len());
    lemma_file_name_in_dir(b, k);
    let m = ".SRCINFO"@;
    assert forall|i: int| 0 <= i < m.len() implies m[i] != '/' by {}
    assert(m.len() != "."@.len() && m.len() != ".."@.len());
    lemma_file_name_in_dir(b, m);
    if n.len() > 0 && (forall|i: int| 0 <= i < n.len() ==> n[i] != '/' && n[i] != '.') {
        assert(n[0] != '.');
        assert(n != "."@);
        assert(n != ".."@);
        lemma_file_name_in_dir(b, n);
        assert(!n.contains('.'));
    }
}

fn extension_list() -> (r: Vec<Vec<char>>)
    ensures
        crate::text::views(r@) == scanned_extensions(),
{
    let mut r: Vec<Vec<char>> = Vec::new();
    r.push(to_chars(".install"));
    r.push(to_chars(".sh"));
    r.push(to_chars(".bash"));
    r.push(to_chars(".zsh"));
    r.push(to_chars(".py"));
    r.push(to_chars(".pl"));
    r.push(to_chars(".rb"));
    r.push(to_chars(".patch"));
    assert(crate::text::views(r@) =~= scanned_extensions());
    r
}

/// Whether a file of a package is worth scanning for indicators.
pub fn is_interesting(file: &str) -> (r: bool)
    ensures
        r == is_interesting_spec(file@),
{
    let base = file_name_exec(&to_chars(file));
    if same(&base, &to_chars("PKGBUILD")) || same(&base, &to_chars(".SRCINFO")) {
        return true;
    }
    let exts = extension_list();
    let ghost ev = crate::text::views(exts@);
    for i in 0..exts.len()
        invariant
            ev == crate::text::views(exts@),
            ev == scanned_extensions(),
            base@ == file_name(file@),
            forall|j: int| 0 <= j < i ==> !has_suffix(base@, #[trigger] ev[j]),
    {
        if crate::text::ends_with(&base, &exts[i]) {
            assert(ev.len() == exts@.len());
            assert(0 <= i < scanned_extensions().len());
            assert(has_suffix(base@, scanned_extensions()[i as int]));
            assert(base@ == file_name(file@));
            return true;
        }
    }
    !crate::text::contains_char(&base, '.')
}

// ---------------------------------------------------------------------------
// Indicators of compromise
// ---------------------------------------------------------------------------

/// The indicators of compromise: a label and the regular expression that
/// detects it.
pub open spec fn ioc_table() -> Seq<(Seq<char>, Seq<char>)> {
    seq![
        ("descarga curl|sh"@, "(?i)\\bcurl\\b[^\\n]*\\|\\s*(ba)?sh\\b"@),
        ("descarga wget|sh"@, "(?i)\\bwget\\b[^\\n]*\\|\\s*(ba)?sh\\b"@),
        ("npm atomic-lockfile"@, "(?i)\\bnpm\\s+(i|install|ci)\\b[^\\n]*atomic-lockfile"@),
        ("bun js-digest"@, "(?i)\\bbun\\s+install\\b[^\\n]*js-digest"@),
        ("npm lockfile-js"@, "(?i)\\bnpm\\s+(i|install|ci)\\b[^\\n]*(lockfile-js|nextfile-js)"@),
        ("base64 -d | sh"@, "(?i)base64\\s*-d\\b[^\\n]*\\|\\s*(ba)?sh\\b"@),
        ("eval oculto"@, "(?i)\\beval\\s+\\$\\([^\\n]*echo\\b"@),
        ("reverse shell /dev/tcp"@, "/dev/tcp/"@),
        ("reverse shell nc -e"@, "(?i)\\bnc\\b[^\\n]*\\s-[a-z]*e\\s"@),
        ("socat EXEC"@, "(?i)\\bsocat\\b[^\\n]*\\bEXEC\\b"@),
        ("escritura systemd"@, "(?i)/etc/systemd/system"@),
        ("acceso authorized_keys"@, "(?i)authorized_keys"@),
        ("modificacion shell rc"@, "(?i)\\.(bashrc|zshrc|bash_profile|profile)\\b"@),
    ]
}

fn ioc_entry(i: usize) -> (r: (&'static str, &'static str))
    requires
        i < 13,
    ensures
        (r.0@, r.1@) == ioc_table()[i as int],
{
    if i == 0 {
        ("descarga curl|sh", "(?i)\\bcurl\\b[^\\n]*\\|\\s*(ba)?sh\\b")
    } else if i == 1 {
        ("descarga wget|sh", "(?i)\\bwget\\b[^\\n]*\\|\\s*(ba)?sh\\b")
    } else if i == 2 {
        ("npm atomic-lockfile", "(?i)\\bnpm\\s+(i|install|ci)\\b[^\\n]*atomic-lockfile")
    } else if i == 3 {
        ("bun js-digest", "(?i)\\bbun\\s+install\\b[^\\n]*js-digest")
    } else if i == 4 {
        ("npm lockfile-js", "(?i)\\bnpm\\s+(i|install|ci)\\b[^\\n]*(lockfile-js|nextfile-js)")
    } else if i == 5 {
        ("base64 -d | sh", "(?i)base64\\s*-d\\b[^\\n]*\\|\\s*(ba)?sh\\b")
    } else if i == 6 {
        ("eval oculto", "(?i)\\beval\\s+\\$\\([^\\n]*echo\\b")
    } else if i == 7 {
        ("reverse shell /dev/tcp", "/dev/tcp/")
    } else if i == 8 {
        ("reverse shell nc -e", "(?i)\\bnc\\b[^\\n]*\\s-[a-z]*e\\s")
    } else if i == 9 {
        ("socat EXEC", "(?i)\\bsocat\\b[^\\n]*\\bEXEC\\b")
    } else if i == 10 {
        ("escritura systemd", "(?i)/etc/systemd/system")
    } else if i == 11 {
        ("acceso authorized_keys", "(?i)authorized_keys")
    } else {
        ("modificacion shell rc", "(?i)\\.(bashrc|zshrc|bash_profile|profile)\\b")
    }
}

/// Which indicators a text shows: indicator `i` when its expression
/// compiles and matches the text.
pub open spec fn ioc_found(text: Seq<char>) -> Seq<bool> {
    Seq::new(
        ioc_table().len(),
        |i: int| regex_accepts(ioc_table()[i].1) && regex_finds(ioc_table()[i].1, text),
    )
}

/// The hits among the first `n` indicators: `"label (file)"` for each one
/// found, in table order.
pub open spec fn hits_upto(found: Seq<bool>, n: int, fname: Seq<char>) -> Seq<Seq<char>>
    decreases n,
{
    if n <= 0 {
        Seq::empty()
    } else {
        hits_upto(found, n - 1, fname) + if found[n - 1] {
            seq![ioc_table()[n - 1].0 + " ("@ + fname + ")"@]
        } else {
            Seq::empty()
        }
    }
}

/// The hits for the indicators found (entries past the table are ignored).
pub open spec fn hits_spec(found: Seq<bool>, fname: Seq<char>) -> Seq<Seq<char>> {
    hits_upto(
        found,
        if found.len() < ioc_table().len() {
            found.len() as int
        } else {
            ioc_table().len() as int
        },
        fname,
    )
}

/// The indicators found in the text of one file.
pub open spec fn ioc_hits_spec(fname: Seq<char>, text: Seq<char>) -> Seq<Seq<char>> {
    hits_spec(ioc_found(text), fname)
}

/// The hits of a file from which indicators it shows (`found[i]` for the
/// `i`-th indicator), as `"label (file)"` in table order.
pub fn hits_from_found(fname: &str, found: &Vec<bool>) -> (r: Vec<String>)
    ensures
        r.deep_view() == hits_spec(found@, fname@),
{
    let n: usize = if found.len() < 13 {
        found.len()
    } else {
        13
    };
    let mut out: Vec<String> = Vec::new();
    let mut i: usize = 0;
    while i < n
        invariant
            n <= found@.len(),
            n <= 13,
            ioc_table().len() == 13,
            n == (if found@.len() < 13 { found@.len() as int } else { 13 }),
            i <= n,
            out.deep_view() == hits_upto(found@, i as int, fname@),
        decreases n - i,
    {
        let ghost before = out.deep_view();
        if found[i] {
            let (label, _) = ioc_entry(i);
            let h = cat(cat(cat(label, " (").as_str(), fname).as_str(), ")");
            out.push(h);
            assert(out.deep_view() =~= before.push(h@));
        } else {
            assert(before =~= before + Seq::<Seq<char>>::empty());
        }
        i += 1;
    }
    out
}

/// Which indicators the text of a file shows (see `ioc_found`).
fn indicators_found(text: &str) -> (r: Vec<bool>)
    ensures
        r@ == ioc_found(text@),
{
    let mut found: Vec<bool> = Vec::new();
    let mut i: usize = 0;
    while i < 13
        invariant
            i <= 13,
            ioc_table().len() == 13,
            found@ == ioc_found(text@).take(i as int),
        decreases 13 - i,
    {
        let (_, re) = ioc_entry(i);
        let hit = match Pattern::compile(re) {
            Some(p) => p.is_match(text),
            None => false,
        };
        found.push(hit);
        assert(found@ =~= ioc_found(text@).take(i + 1));
        i += 1;
    }
    assert(ioc_found(text@).take(13) =~= ioc_found(text@));
    found
}

/// The indicators found in the text of one file, as `"label (file)"`.
pub fn ioc_hits(fname: &str, text: &str) -> (r: Vec<String>)
    ensures
        r.deep_view() == ioc_hits_spec(fname@, text@),
{
    let found = indicators_found(text);
    hits_from_found(fname, &found)
}

/// The size limit for a scanned file, in bytes.
pub open spec fn scan_size_limit() -> u64 {
    524288
}

/// A build file is read when it is at most 512 KiB, and skipped when larger.
pub proof fn law_scan_size_limit(len: u64)
    ensures
        len <= 512 * 1024 <==> len <= scan_size_limit(),
{
}

/// Whether a directory entry is read for scanning: an interesting regular
/// file of at most 512 KiB.
pub fn scan_entry_wanted(fname: &str, is_file: bool, len: u64) -> (r: bool)
    ensures
        r == (is_interesting_spec(fname@) && is_file && len <= scan_size_limit()),
{
    is_interesting(fname) && is_file && len <= 524288
}

/// The indicators found in a file's bytes: none for binary content (a NUL
/// byte) or content that is not UTF-8, else those of its text.
pub fn scan_file_bytes(fname: &str, bytes: &[u8]) -> (r: Vec<String>)
    ensures
        bytes@.contains(0u8) ==> r@.len() == 0,
        !bytes@.contains(0u8) && !vstd::utf8::valid_utf8(bytes@) ==> r@.len() == 0,
        !bytes@.contains(0u8) && vstd::utf8::valid_utf8(bytes@) ==> r.deep_view()
            == ioc_hits_spec(fname@, vstd::utf8::decode_utf8(bytes@)),
{
    for i in 0..bytes.len()
        invariant
            forall|j: int| 0 <= j < i ==> bytes@[j] != 0u8,
    {
        if bytes[i] == 0 {
            assert(bytes@[i as int] == 0u8);
            return Vec::new();
        }
    }
    match utf8_string(bytes) {
        Some(text) => ioc_hits(fname, text.as_str()),
        None => Vec::new(),
    }
}

// ---------------------------------------------------------------------------
// The verdict
// ---------------------------------------------------------------------------

/// The campaigns the feed gives for a package (empty when it is not listed).
pub open spec fn feed_reasons(state: FeedState, name: Seq<char>) -> Seq<Seq<char>> {
    match verdict_spec(state.view_table(), name) {
        Some(c) => c,
        None => Seq::empty(),
    }
}

/// `v` is the verdict on package `name` given the feed and the indicators
/// found in its build files (what `check` ensures).
pub open spec fn is_verdict(state: FeedState, name: Seq<char>, hits: Seq<Seq<char>>, v: Verdict) -> bool {
    &&& v.name@ == name
    &&& v.malicious == (verdict_spec(state.view_table(), name) is Some || hits.len() > 0)
    &&& strictly_sorted(v.reasons.deep_view())
    &&& same_members(v.reasons.deep_view(), feed_reasons(state, name) + hits)
}

/// The verdict is determined: the same feed, name and indicators give the
/// same name, flag and reasons.
pub proof fn law_verdict_determined(
    state: FeedState,
    name: Seq<char>,
    hits: Seq<Seq<char>>,
    v1: Verdict,
    v2: Verdict,
)
    requires
        is_verdict(state, name, hits, v1),
        is_verdict(state, name, hits, v2),
    ensures
        v1.name@ == v2.name@,
        v1.malicious == v2.malicious,
        v1.reasons.deep_view() == v2.reasons.deep_view(),
{
    assert forall|x: Seq<char>|
        v1.reasons.deep_view().contains(x) <==> v2.reasons.deep_view().contains(x) by {
        assert(v1.reasons.deep_view().contains(x) <==> (feed_reasons(state, name) + hits).contains(x));
        assert(v2.reasons.deep_view().contains(x) <==> (feed_reasons(state, name) + hits).contains(x));
    }
    lemma_sorted_unique(v1.reasons.deep_view(), v2.reasons.deep_view());
}

/// The verdict on a package: malicious when the feed lists it or its build
/// files showed an indicator; the reasons are the feed's campaigns and the
/// indicators found, sorted and without repetition.
pub fn check(state: &FeedState, name: &str, dir_hits: &Vec<String>) -> (v: Verdict)
    ensures
        v.name@ == name@,
        v.malicious == (verdict_spec(state.view_table(), name@) is Some || dir_hits@.len() > 0),
        strictly_sorted(v.reasons.deep_view()),
        same_members(v.reasons.deep_view(), feed_reasons(*state, name@) + dir_hits.deep_view()),
        is_verdict(*state, name@, dir_hits.deep_view(), v),
{
    let (in_feed, mut reasons) = feed_verdict(state, name);
    let ghost fr = reasons.deep_view();
    assert(fr == feed_reasons(*state, name@));
    let mut malicious = in_feed;
    for i in 0..dir_hits.len()
        invariant
            reasons.deep_view() == fr + dir_hits.deep_view().take(i as int),
            malicious == (in_feed || i > 0),
    {
        let ghost before = reasons.deep_view();
        reasons.push(crate::text::owned(dir_hits[i].as_str()));
        assert(reasons.deep_view() =~= before.push(dir_hits@[i as int]@));
        assert(dir_hits.deep_view().take(i + 1) =~= dir_hits.deep_view().take(i as int).push(
            dir_hits@[i as int]@,
        ));
        malicious = true;
    }
    assert(dir_hits.deep_view().take(dir_hits@.len() as int) =~= dir_hits.deep_view());
    let sorted = sort_dedup_strings(&reasons);
    Verdict { name: crate::text::owned(name), malicious, reasons: sorted }
}

} // verus!
