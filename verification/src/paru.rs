//! The paru hook: keeping `PreBuildCommand = aur-guard gate` under the
//! `[bin]` section of `paru.conf`.
use vstd::prelude::*;
use crate::text::{
    cat, append_chars, contains, has_infix, has_prefix, join, join_chars, lemma_lines_no_newlines,
    lemma_lines_render, lemma_trim_strip_cr, lines, no_newlines, occurs_at, owned, same, split_lines,
    starts_with, strip_all, strip_cr, string_of, strings_of, to_chars, trim, trim_chars, views,
};

verus! {

broadcast use vstd::string::group_string_axioms;

/// The hook line.
pub open spec fn hook_line() -> Seq<char> {
    "PreBuildCommand = aur-guard gate"@
}

/// A line that already installs the hook: the hook line itself, or any
/// `PreBuildCommand` that runs `aur-guard gate`.
pub open spec fn is_ours(line: Seq<char>) -> bool {
    let t = trim(line);
    t == hook_line() || (has_prefix(t, "PreBuildCommand"@) && has_infix(t, "aur-guard gate"@))
}

/// A `PreBuildCommand` line of someone else.
pub open spec fn is_foreign_prebuild(line: Seq<char>) -> bool {
    let t = trim(line);
    has_prefix(t, "PreBuildCommand"@) && !has_infix(t, "aur-guard gate"@)
}

/// The `[bin]` section header.
pub open spec fn is_bin(line: Seq<char>) -> bool {
    trim(line) == "[bin]"@
}

fn line_is_ours_chars(line: &Vec<char>) -> (r: bool)
    ensures
        r == is_ours(line@),
{
    let t = trim_chars(line);
    same(&t, &to_chars("PreBuildCommand = aur-guard gate")) || (starts_with(
        &t,
        &to_chars("PreBuildCommand"),
    ) && contains(&t, &to_chars("aur-guard gate")))
}

/// Whether a line of `paru.conf` already installs the hook.
pub fn line_is_ours(line: &str) -> (r: bool)
    ensures
        r == is_ours(line@),
{
    line_is_ours_chars(&to_chars(line))
}

fn is_bin_chars(line: &Vec<char>) -> (r: bool)
    ensures
        r == is_bin(line@),
{
    same(&trim_chars(line), &to_chars("[bin]"))
}

/// The trimmed text of the first foreign `PreBuildCommand`, if any.
pub open spec fn conflict_spec(ls: Seq<Seq<char>>) -> Option<Seq<char>>
    decreases ls.len(),
{
    if ls.len() == 0 {
        None
    } else if is_foreign_prebuild(ls[0]) {
        Some(trim(ls[0]))
    } else {
        conflict_spec(ls.drop_first())
    }
}

/// The first `PreBuildCommand` that does not run `aur-guard gate`, trimmed: paru
/// runs one such command, so the hook cannot be added beside it.
pub fn has_conflicting_prebuild(lines: &Vec<String>) -> (r: Option<String>)
    ensures
        match r {
            Some(c) => conflict_spec(lines.deep_view()) == Some(c@),
            None => conflict_spec(lines.deep_view()) is None,
        },
{
    let ghost lv = lines.deep_view();
    assert(lv.skip(0) =~= lv);
    for i in 0..lines.len()
        invariant
            lv == lines.deep_view(),
            lv.len() == lines@.len(),
            conflict_spec(lv) == conflict_spec(lv.skip(i as int)),
    {
        assert(lv.skip(i as int)[0] == lines@[i as int]@);
        assert(lv.skip(i as int).drop_first() =~= lv.skip(i + 1));
        let t = trim_chars(&to_chars(lines[i].as_str()));
        if starts_with(&t, &to_chars("PreBuildCommand")) && !contains(&t, &to_chars("aur-guard gate")) {
            return Some(string_of(t.as_slice()));
        }
    }
    assert(lv.skip(lines@.len() as int) =~= Seq::<Seq<char>>::empty());
    None
}

/// Position of the first `[bin]` header, or `ls.len()`.
pub open spec fn bin_index(ls: Seq<Seq<char>>) -> int
    decreases ls.len(),
{
    if ls.len() == 0 {
        0
    } else if is_bin(ls[0]) {
        0
    } else {
        1 + bin_index(ls.drop_first())
    }
}

/// A section header: a line whose trimmed text starts with `[`.
pub open spec fn is_header(line: Seq<char>) -> bool {
    let t = trim(line);
    t.len() > 0 && t[0] == '['
}

/// The section that starts at header `i` (the lines after it, up to the
/// next header) has a line that installs the hook.
pub open spec fn ours_in_section(ls: Seq<Seq<char>>, i: int) -> bool {
    exists|j: int|
        i < j < ls.len() && is_ours(#[trigger] ls[j]) && forall|k: int|
            i < k < j ==> !is_header(#[trigger] ls[k])
}

/// The hook is in place: it is in the section of the first `[bin]` header.
pub open spec fn hook_present(ls: Seq<Seq<char>>) -> bool {
    bin_index(ls) < ls.len() && ours_in_section(ls, bin_index(ls))
}

/// The lines with the hook placed under `[bin]`: unchanged when the section
/// of the first `[bin]` already has it; else the hook right after the first
/// `[bin]` and an empty line at the end; else a new `[bin]` section
/// appended.
pub open spec fn insert_spec(ls: Seq<Seq<char>>) -> Seq<Seq<char>> {
    let b = bin_index(ls);
    if b < ls.len() {
        if ours_in_section(ls, b) {
            ls
        } else {
            ls.take(b + 1) + seq![hook_line()] + ls.skip(b + 1) + seq![Seq::empty()]
        }
    } else {
        ls + seq![Seq::empty(), "[bin]"@, hook_line()]
    }
}

pub proof fn lemma_bin_index(ls: Seq<Seq<char>>)
    ensures
        0 <= bin_index(ls) <= ls.len(),
        bin_index(ls) < ls.len() ==> is_bin(ls[bin_index(ls)]),
        forall|j: int| 0 <= j < bin_index(ls) ==> !is_bin(#[trigger] ls[j]),
    decreases ls.len(),
{
    if ls.len() > 0 && !is_bin(ls[0]) {
        lemma_bin_index(ls.drop_first());
        assert forall|j: int| 0 <= j < bin_index(ls) implies !is_bin(#[trigger] ls[j]) by {
            if j > 0 {
                assert(ls[j] == ls.drop_first()[j - 1]);
            }
        }
    }
}

proof fn lemma_bin_index_is(ls: Seq<Seq<char>>, b: int)
    requires
        0 <= b <= ls.len(),
        b < ls.len() ==> is_bin(ls[b]),
        forall|j: int| 0 <= j < b ==> !is_bin(#[trigger] ls[j]),
    ensures
        bin_index(ls) == b,
    decreases b,
{
    if b > 0 {
        assert(!is_bin(ls[0]));
        assert forall|j: int| 0 <= j < b - 1 implies !is_bin(#[trigger] ls.drop_first()[j]) by {
            assert(ls.drop_first()[j] == ls[j + 1]);
        }
        if b < ls.len() {
            assert(ls.drop_first()[b - 1] == ls[b]);
        }
        lemma_bin_index_is(ls.drop_first(), b - 1);
    } else if ls.len() > 0 {
        assert(is_bin(ls[0]));
    }
}

fn find_bin(ls: &Vec<Vec<char>>) -> (r: usize)
    ensures
        r as int == bin_index(views(ls@)),
{
    let ghost lv = views(ls@);
    for i in 0..ls.len()
        invariant
            lv == views(ls@),
            forall|j: int| 0 <= j < i ==> !is_bin(#[trigger] lv[j]),
    {
        if is_bin_chars(&ls[i]) {
            proof {
                lemma_bin_index_is(lv, i as int);
            }
            return i;
        }
    }
    proof {
        lemma_bin_index_is(lv, lv.len() as int);
    }
    ls.len()
}

fn is_header_chars(line: &Vec<char>) -> (r: bool)
    ensures
        r == is_header(line@),
{
    let t = trim_chars(line);
    t.len() > 0 && t[0] == '['
}

fn section_has_hook(ls: &Vec<Vec<char>>, b: usize) -> (r: bool)
    requires
        b < ls@.len(),
    ensures
        r == ours_in_section(views(ls@), b as int),
{
    let ghost lv = views(ls@);
    let n = ls.len();
    let mut j = b + 1;
    while j < n
        invariant
            lv == views(ls@),
            n == ls@.len(),
            b < j <= ls@.len(),
            forall|k: int| b < k < j ==> !is_ours(#[trigger] lv[k]) && !is_header(lv[k]),
        decreases ls@.len() - j,
    {
        if line_is_ours_chars(&ls[j]) {
            assert(is_ours(lv[j as int]));
            assert(forall|k: int| b < k < j ==> !is_header(#[trigger] lv[k]));
            return true;
        }
        if is_header_chars(&ls[j]) {
            assert(!ours_in_section(lv, b as int)) by {
                if ours_in_section(lv, b as int) {
                    let j2 = choose|j2: int|
                        b < j2 < lv.len() && is_ours(#[trigger] lv[j2]) && forall|k: int|
                            b < k < j2 ==> !is_header(#[trigger] lv[k]);
                    if j2 > j {
                        assert(!is_header(lv[j as int]));
                    }
                }
            }
            return false;
        }
        j += 1;
    }
    assert(!ours_in_section(lv, b as int)) by {
        if ours_in_section(lv, b as int) {
            let j2 = choose|j2: int|
                b < j2 < lv.len() && is_ours(#[trigger] lv[j2]) && forall|k: int|
                    b < k < j2 ==> !is_header(#[trigger] lv[k]);
            assert(!is_ours(lv[j2]));
        }
    }
    false
}

fn hook_lines() -> (r: Vec<char>)
    ensures
        r@ == hook_line(),
{
    to_chars("PreBuildCommand = aur-guard gate")
}

fn insert_under_bin_chars(ls: Vec<Vec<char>>) -> (r: Vec<Vec<char>>)
    ensures
        views(r@) == insert_spec(views(ls@)),
{
    let ghost lv = views(ls@);
    let b = find_bin(&ls);
    if b < ls.len() {
        if section_has_hook(&ls, b) {
            return ls;
        }
        let mut out: Vec<Vec<char>> = Vec::new();
        for i in 0..ls.len()
            invariant
                lv == views(ls@),
                b < ls@.len(),
                views(out@) == if i <= b {
                    lv.take(i as int)
                } else {
                    lv.take(b + 1) + seq![hook_line()] + lv.subrange(b + 1, i as int)
                },
        {
            let ghost before = views(out@);
            let line = crate::text::subvec(&ls[i], 0, ls[i].len());
            assert(line@ =~= lv[i as int]);
            out.push(line);
            assert(views(out@) =~= before.push(lv[i as int]));
            if i == b {
                out.push(hook_lines());
            }
            if i < b {
                assert(views(out@) =~= lv.take(i + 1));
            } else if i == b {
                assert(views(out@) =~= lv.take(b + 1) + seq![hook_line()] + lv.subrange(b + 1, i + 1));
            } else {
                assert(views(out@) =~= lv.take(b + 1) + seq![hook_line()] + lv.subrange(b + 1, i + 1));
            }
        }
        let ghost before = views(out@);
        out.push(Vec::new());
        assert(views(out@) =~= before.push(Seq::empty()));
        assert(lv.subrange(b + 1, lv.len() as int) =~= lv.skip(b + 1));
        out
    } else {
        let mut out = ls;
        let ghost before = views(out@);
        out.push(Vec::new());
        out.push(to_chars("[bin]"));
        out.push(hook_lines());
        assert(views(out@) =~= before + seq![Seq::empty(), "[bin]"@, hook_line()]);
        out
    }
}

/// Put the hook under `[bin]` (see `insert_spec`): lines that already have
/// it in the section of the first `[bin]` are left as they are.
pub fn insert_under_bin(lines: Vec<String>) -> (r: Vec<String>)
    ensures
        r.deep_view() == insert_spec(lines.deep_view()),
{
    let c = crate::text::chars_of_all(&lines);
    strings_of(&insert_under_bin_chars(c))
}

/// What installing the hook does to a `paru.conf`.
#[derive(Debug)]
pub struct HookPlan {
    /// The new file contents, when the file must be written.
    pub write: Option<String>,
    /// The message for the user.
    pub message: String,
}

/// The refusal when another `PreBuildCommand` is configured.
pub open spec fn conflict_message(conflict: Seq<char>) -> Seq<char> {
    "paru.conf ya tiene un PreBuildCommand distinto ("@ + conflict
        + "); no se modifica. Ajustalo a: "@ + hook_line()
}

/// The file text for a list of lines: joined with newlines, ending in one.
pub open spec fn render(ls: Seq<Seq<char>>) -> Seq<char> {
    join(ls, "\n"@) + "\n"@
}

/// Installing the hook into the text of `paru.conf` at `path`: refused when
/// another `PreBuildCommand` is configured; nothing to write when the hook
/// is already in the section of the first `[bin]` header; otherwise the
/// file with the hook placed by `insert_spec`.
pub open spec fn plan_hook_spec(text: Seq<char>, path: Seq<char>) -> Result<
    (Option<Seq<char>>, Seq<char>),
    Seq<char>,
> {
    let ls = lines(text);
    match conflict_spec(ls) {
        Some(c) => Err(conflict_message(c)),
        None => if hook_present(ls) {
            Ok((None, "gancho paru ya instalado"@))
        } else {
            Ok((Some(render(insert_spec(ls))), "gancho paru instalado en "@ + path))
        },
    }
}

proof fn lemma_present_iff_unchanged(ls: Seq<Seq<char>>)
    ensures
        hook_present(ls) <==> insert_spec(ls) == ls,
{
    lemma_bin_index(ls);
    let b = bin_index(ls);
    if insert_spec(ls) == ls {
        if b < ls.len() {
            if !ours_in_section(ls, b) {
                assert(insert_spec(ls).len() == ls.len() + 2);
            }
        } else {
            assert(insert_spec(ls).len() == ls.len() + 3);
        }
    }
}

proof fn lemma_hook_line_facts()
    ensures
        is_ours(hook_line()),
        is_bin("[bin]"@),
        !is_bin(Seq::empty()),
{
    reveal_strlit("PreBuildCommand = aur-guard gate");
    reveal_strlit("[bin]");
    reveal_strlit("PreBuildCommand");
    reveal_strlit("aur-guard gate");
    let h = hook_line();
    assert(trim_start_spec_id(h));
    assert(trim(h) == h);
    let b = "[bin]"@;
    assert(trim_start_spec_id(b));
    assert(trim(b) == b);
    assert(trim(Seq::<char>::empty()) == Seq::<char>::empty());
}

spec fn trim_start_spec_id(s: Seq<char>) -> bool {
    crate::text::trim_start(s) == s && crate::text::trim_end(s) == s
}

/// After installing, the hook is in place.
pub proof fn law_insert_installs(ls: Seq<Seq<char>>)
    ensures
        hook_present(insert_spec(ls)),
{
    lemma_bin_index(ls);
    lemma_hook_line_facts();
    let b = bin_index(ls);
    let r = insert_spec(ls);
    if b < ls.len() {
        if !ours_in_section(ls, b) {
            assert forall|j: int| 0 <= j < b implies !is_bin(#[trigger] r[j]) by {
                assert(r[j] == ls[j]);
            }
            assert(r[b] == ls[b]);
            lemma_bin_index_is(r, b);
            assert(r[b + 1] == hook_line());
            assert(is_ours(r[b + 1]) && forall|k: int| b < k < b + 1 ==> !is_header(#[trigger] r[k]));
            assert(ours_in_section(r, b));
        }
    } else {
        let n = ls.len() as int;
        assert forall|j: int| 0 <= j < n + 1 implies !is_bin(#[trigger] r[j]) by {
            if j < n {
                assert(r[j] == ls[j]);
            } else {
                assert(r[j] == Seq::<char>::empty());
            }
        }
        assert(r[n + 1] == "[bin]"@);
        lemma_bin_index_is(r, n + 1);
        assert(r[n + 2] == hook_line());
        assert(is_ours(r[n + 2]) && forall|k: int| n + 1 < k < n + 2 ==> !is_header(#[trigger] r[k]));
        assert(ours_in_section(r, n + 1));
    }
}

/// The hook is in place exactly when installing changes nothing.
pub proof fn law_present_iff_unchanged(ls: Seq<Seq<char>>)
    ensures
        hook_present(ls) <==> insert_spec(ls) == ls,
{
    lemma_present_iff_unchanged(ls);
}

/// Installing twice is installing once.
pub proof fn law_insert_idempotent(ls: Seq<Seq<char>>)
    ensures
        insert_spec(insert_spec(ls)) == insert_spec(ls),
{
    law_insert_installs(ls);
    lemma_present_iff_unchanged(insert_spec(ls));
}

proof fn lemma_line_facts_strip(l: Seq<char>)
    ensures
        is_ours(strip_cr(l)) == is_ours(l),
        is_bin(strip_cr(l)) == is_bin(l),
        is_header(strip_cr(l)) == is_header(l),
        is_foreign_prebuild(strip_cr(l)) == is_foreign_prebuild(l),
        trim(strip_cr(l)) == trim(l),
{
    lemma_trim_strip_cr(l);
}

proof fn lemma_conflict_strip(ls: Seq<Seq<char>>)
    ensures
        conflict_spec(strip_all(ls)) == conflict_spec(ls),
    decreases ls.len(),
{
    if ls.len() > 0 {
        lemma_line_facts_strip(ls[0]);
        assert(strip_all(ls)[0] == strip_cr(ls[0]));
        assert(strip_all(ls).drop_first() =~= strip_all(ls.drop_first()));
        lemma_conflict_strip(ls.drop_first());
    }
}

proof fn lemma_present_strip(ls: Seq<Seq<char>>)
    ensures
        hook_present(strip_all(ls)) == hook_present(ls),
{
    let s = strip_all(ls);
    lemma_bin_index(ls);
    let b = bin_index(ls);
    assert forall|j: int| 0 <= j < b implies !is_bin(#[trigger] s[j]) by {
        lemma_line_facts_strip(ls[j]);
    }
    if b < ls.len() {
        lemma_line_facts_strip(ls[b]);
    }
    lemma_bin_index_is(s, b);
    if b < ls.len() {
        if ours_in_section(ls, b) {
            let j = choose|j: int|
                b < j < ls.len() && is_ours(#[trigger] ls[j]) && forall|k: int|
                    b < k < j ==> !is_header(#[trigger] ls[k]);
            lemma_line_facts_strip(ls[j]);
            assert forall|k: int| b < k < j implies !is_header(#[trigger] s[k]) by {
                lemma_line_facts_strip(ls[k]);
            }
            assert(is_ours(s[j]));
        }
        if ours_in_section(s, b) {
            let j = choose|j: int|
                b < j < s.len() && is_ours(#[trigger] s[j]) && forall|k: int|
                    b < k < j ==> !is_header(#[trigger] s[k]);
            lemma_line_facts_strip(ls[j]);
            assert forall|k: int| b < k < j implies !is_header(#[trigger] ls[k]) by {
                lemma_line_facts_strip(ls[k]);
                assert(!is_header(s[k]));
            }
            assert(is_ours(ls[j]));
        }
    }
}

proof fn lemma_no_conflict_all(ls: Seq<Seq<char>>)
    ensures
        conflict_spec(ls) is None <==> forall|i: int|
            0 <= i < ls.len() ==> !is_foreign_prebuild(#[trigger] ls[i]),
    decreases ls.len(),
{
    if ls.len() > 0 {
        let rest = ls.drop_first();
        lemma_no_conflict_all(rest);
        if conflict_spec(ls) is None {
            assert forall|i: int| 0 <= i < ls.len() implies !is_foreign_prebuild(#[trigger] ls[i]) by {
                if i > 0 {
                    assert(ls[i] == rest[i - 1]);
                }
            }
        }
        if forall|i: int| 0 <= i < ls.len() ==> !is_foreign_prebuild(#[trigger] ls[i]) {
            assert(!is_foreign_prebuild(ls[0]));
            assert forall|i: int| 0 <= i < rest.len() implies !is_foreign_prebuild(#[trigger] rest[i]) by {
                assert(rest[i] == ls[i + 1]);
            }
        }
    }
}

proof fn lemma_added_lines()
    ensures
        !is_foreign_prebuild(hook_line()),
        !is_foreign_prebuild(Seq::empty()),
        !is_foreign_prebuild("[bin]"@),
        !hook_line().contains('\n'),
        !"[bin]"@.contains('\n'),
        !Seq::<char>::empty().contains('\n'),
{
    lemma_hook_line_facts();
    reveal_strlit("PreBuildCommand = aur-guard gate");
    reveal_strlit("[bin]");
    reveal_strlit("PreBuildCommand");
    reveal_strlit("aur-guard gate");
    let h = hook_line();
    assert(h.subrange(18, 32) =~= "aur-guard gate"@);
    assert(occurs_at(trim(h), "aur-guard gate"@, 18));
    assert(trim(Seq::<char>::empty()) == Seq::<char>::empty());
    if h.contains('\n') {
        let j = choose|j: int| 0 <= j < h.len() && h[j] == '\n';
        assert(false);
    }
    let b = "[bin]"@;
    if b.contains('\n') {
        let j = choose|j: int| 0 <= j < b.len() && b[j] == '\n';
        assert(false);
    }
}

proof fn lemma_insert_shape(ls: Seq<Seq<char>>)
    requires
        no_newlines(ls),
        conflict_spec(ls) is None,
    ensures
        insert_spec(ls).len() > 0,
        no_newlines(insert_spec(ls)),
        conflict_spec(insert_spec(ls)) is None,
{
    lemma_bin_index(ls);
    lemma_added_lines();
    lemma_no_conflict_all(ls);
    let r = insert_spec(ls);
    let b = bin_index(ls);
    assert forall|i: int| 0 <= i < r.len() implies !(#[trigger] r[i]).contains('\n')
        && !is_foreign_prebuild(r[i]) by {
        if b < ls.len() {
            if !ours_in_section(ls, b) {
                if i <= b {
                    assert(r[i] == ls[i]);
                } else if i == b + 1 {
                    assert(r[i] == hook_line());
                } else if i < ls.len() + 1 {
                    assert(r[i] == ls[i - 1]);
                } else {
                    assert(r[i] == Seq::<char>::empty());
                }
            }
        } else {
            if i < ls.len() {
                assert(r[i] == ls[i]);
            } else if i == ls.len() {
                assert(r[i] == Seq::<char>::empty());
            } else if i == ls.len() + 1 {
                assert(r[i] == "[bin]"@);
            } else {
                assert(r[i] == hook_line());
            }
        }
    }
    lemma_no_conflict_all(r);
    if b >= ls.len() {
        assert(r.len() == ls.len() + 3);
    }
}

/// Installing the hook into `paru.conf` is idempotent: once the text it
/// writes is in place, installing again writes nothing and reports the hook
/// as installed.
pub proof fn law_plan_hook_idempotent(text: Seq<char>, path: Seq<char>)
    ensures
        plan_hook_spec(text, path) matches Ok((Some(w), _)) ==> plan_hook_spec(w, path) == Ok::<
            (Option<Seq<char>>, Seq<char>),
            Seq<char>,
        >((None, "gancho paru ya instalado"@)),
{
    let ls = lines(text);
    if let Ok((Some(w), _)) = plan_hook_spec(text, path) {
        let ins = insert_spec(ls);
        assert(conflict_spec(ls) is None);
        lemma_lines_no_newlines(text, 0);
        lemma_insert_shape(ls);
        reveal_strlit("\n");
        assert("\n"@ =~= seq!['\n']);
        assert(w == join(ins, seq!['\n']) + seq!['\n']);
        lemma_lines_render(ins);
        assert(lines(w) == strip_all(ins));
        lemma_conflict_strip(ins);
        law_insert_installs(ls);
        lemma_present_strip(ins);
    }
}

fn present(ls: &Vec<Vec<char>>) -> (r: bool)
    ensures
        r == hook_present(views(ls@)),
{
    let b = find_bin(ls);
    b < ls.len() && section_has_hook(ls, b)
}

/// Installing the hook into the text of `paru.conf` at `path` (see
/// `plan_hook_spec`); the caller writes `write` when it is present, or
/// reports the error.
pub fn plan_hook(text: &str, path: &str) -> (r: Result<HookPlan, String>)
    ensures
        match r {
            Ok(p) => plan_hook_spec(text@, path@) == Ok::<(Option<Seq<char>>, Seq<char>), Seq<char>>((
                match p.write {
                    Some(w) => Some(w@),
                    None => None,
                },
                p.message@,
            )),
            Err(e) => plan_hook_spec(text@, path@) == Err::<(Option<Seq<char>>, Seq<char>), Seq<char>>(e@),
        },
{
    let chars = to_chars(text);
    let ls = split_lines(&chars);
    let strs = strings_of(&ls);
    match has_conflicting_prebuild(&strs) {
        Some(c) => {
            let m = cat(
                cat(cat("paru.conf ya tiene un PreBuildCommand distinto (", c.as_str()).as_str(), "); no se modifica. Ajustalo a: ").as_str(),
                "PreBuildCommand = aur-guard gate",
            );
            return Err(m);
        },
        None => {},
    }
    if present(&ls) {
        return Ok(HookPlan { write: None, message: owned("gancho paru ya instalado") });
    }
    let ghost lv = views(ls@);
    let new_lines = insert_under_bin_chars(ls);
    let joined = join_chars(&new_lines, &to_chars("\n"));
    let content = append_chars(&joined, &to_chars("\n"));
    Ok(
        HookPlan {
            write: Some(string_of(content.as_slice())),
            message: cat("gancho paru instalado en ", path),
        },
    )
}

} // verus!
