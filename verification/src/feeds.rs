//! Malware feeds: parsing the published package lists, the table of flagged
//! packages with the campaigns that flag them, and matching a package name
//! against it.
use vstd::prelude::*;
use crate::config::FeedConfig;
use crate::text::{lemma_find_from_bounds, lemma_find_from_prefix, lemma_lines_concat, lemma_trim_strip_cr, find_from, lines_from, strip_cr, lemma_push_contains, lemma_take_contains, lemma_take_full, cat, chars_of_all, append_chars, join, join_chars, owned, sort_dedup_strings, trim_end_char, trim_end_char_exec, trim_start_char, trim_start_char_exec, ends_with, has_suffix, is_alnum, is_ascii_alnum, is_whitespace, is_ws, lines, same, lemma_same_members_len, lemma_sorted_no_duplicates, same_members, sort_dedup, split_lines, strictly_sorted, string_of, strings_of, subvec, to_chars, trim, trim_chars, views};

verus! {

broadcast use vstd::string::group_string_axioms;

/// A flagged package and the campaigns that list it.
#[derive(Clone, Debug)]
pub struct FeedEntry {
    pub name: String,
    pub campaigns: Vec<String>,
}

/// The merged contents of all feeds, with the time they were fetched.
#[derive(Clone, Debug)]
pub struct FeedState {
    pub updated_at: i64,
    pub packages: Vec<FeedEntry>,
}

/// A table of flagged packages: name and campaigns, in table order.
pub type Table = Seq<(Seq<char>, Seq<Seq<char>>)>;

pub open spec fn entry_view(e: FeedEntry) -> (Seq<char>, Seq<Seq<char>>) {
    (e.name@, e.campaigns.deep_view())
}

pub open spec fn table(es: Seq<FeedEntry>) -> Table {
    Seq::new(es.len(), |i: int| entry_view(es[i]))
}

impl FeedState {
    pub open spec fn view_table(&self) -> Table {
        table(self.packages@)
    }

    /// Well-formed: no name has two entries, as in the map the feed cache
    /// stores (`merge_downloads` builds only such tables).
    pub open spec fn wf(&self) -> bool {
        unique_keys(self.view_table())
    }
}

/// The campaigns of the first entry named `k`, if any.
pub open spec fn lookup(t: Table, k: Seq<char>) -> Option<Seq<Seq<char>>>
    decreases t.len(),
{
    if t.len() == 0 {
        None
    } else if t[0].0 == k {
        Some(t[0].1)
    } else {
        lookup(t.drop_first(), k)
    }
}

/// Position of the first entry named `k`, or `t.len()`.
pub open spec fn key_index(t: Table, k: Seq<char>) -> int
    decreases t.len(),
{
    if t.len() == 0 {
        0
    } else if t[0].0 == k {
        0
    } else {
        1 + key_index(t.drop_first(), k)
    }
}

pub open spec fn keys(t: Table) -> Seq<Seq<char>> {
    Seq::new(t.len(), |i: int| t[i].0)
}

proof fn lemma_key_index(t: Table, k: Seq<char>)
    ensures
        0 <= key_index(t, k) <= t.len(),
        key_index(t, k) < t.len() ==> t[key_index(t, k)].0 == k && lookup(t, k) == Some(
            t[key_index(t, k)].1,
        ),
        key_index(t, k) == t.len() ==> lookup(t, k) is None,
        forall|j: int| 0 <= j < key_index(t, k) ==> t[j].0 != k,
    decreases t.len(),
{
    if t.len() > 0 && t[0].0 != k {
        lemma_key_index(t.drop_first(), k);
        assert forall|j: int| 0 <= j < key_index(t, k) implies t[j].0 != k by {
            if j > 0 {
                assert(t[j] == t.drop_first()[j - 1]);
            }
        }
    }
}

// ---------------------------------------------------------------------------
// Package names and lists
// ---------------------------------------------------------------------------

/// A character allowed in a package name.
pub open spec fn name_char(c: char) -> bool {
    is_alnum(c) || c == '@' || c == '.' || c == '_' || c == '+' || c == ':' || c == '-'
}

/// A plausible package name: non-empty, only letters, digits and `@._+:-`,
/// starting with a letter or digit.
pub open spec fn is_valid_name(s: Seq<char>) -> bool {
    s.len() > 0 && is_alnum(s[0]) && forall|i: int| 0 <= i < s.len() ==> name_char(#[trigger] s[i])
}

fn valid_name_chars(s: &Vec<char>) -> (b: bool)
    ensures
        b == is_valid_name(s@),
{
    if s.len() == 0 || !is_ascii_alnum(s[0]) {
        return false;
    }
    for i in 0..s.len()
        invariant
            forall|j: int| 0 <= j < i ==> name_char(#[trigger] s@[j]),
    {
        let c = s[i];
        if !(is_ascii_alnum(c) || c == '@' || c == '.' || c == '_' || c == '+' || c == ':' || c
            == '-') {
            assert(!name_char(s@[i as int]));
            return false;
        }
    }
    true
}

/// Only valid package names (no markdown noise or garbage).
pub fn valid_name(s: &str) -> (b: bool)
    ensures
        b == is_valid_name(s@),
{
    valid_name_chars(&to_chars(s))
}

/// Position of the first whitespace at or after `k`, or `s.len()`.
pub open spec fn ws_from(s: Seq<char>, k: int) -> int
    decreases s.len() - k,
{
    if k < 0 || k >= s.len() {
        s.len() as int
    } else if is_ws(s[k]) {
        k
    } else {
        ws_from(s, k + 1)
    }
}

proof fn lemma_ws_from(s: Seq<char>, k: int)
    requires
        0 <= k <= s.len(),
    ensures
        k <= ws_from(s, k) <= s.len(),
        ws_from(s, k) < s.len() ==> is_ws(s[ws_from(s, k)]),
        forall|j: int| k <= j < ws_from(s, k) ==> !is_ws(s[j]),
    decreases s.len() - k,
{
    if k < s.len() && !is_ws(s[k]) {
        lemma_ws_from(s, k + 1);
    }
}

/// The first whitespace-separated word of a line that does not start with
/// whitespace.
pub open spec fn first_word(t: Seq<char>) -> Seq<char> {
    t.take(ws_from(t, 0))
}

/// What one line of a published list contributes: its first word, when the
/// trimmed line is not empty, not a `#` comment, not a markdown fence, and the
/// word is a valid package name.
pub open spec fn list_entry(line: Seq<char>) -> Option<Seq<char>> {
    let t = trim(line);
    if t.len() == 0 || t[0] == '#' || t[0] == '`' {
        None
    } else if is_valid_name(first_word(t)) {
        Some(first_word(t))
    } else {
        None
    }
}

/// The entries of a run of lines, in order.
pub open spec fn list_entries(ls: Seq<Seq<char>>) -> Seq<Seq<char>>
    decreases ls.len(),
{
    if ls.len() == 0 {
        Seq::empty()
    } else {
        list_entries(ls.drop_last()) + match list_entry(ls.last()) {
            Some(w) => seq![w],
            None => Seq::empty(),
        }
    }
}

/// The package names in a published list.
pub open spec fn parse_list_spec(text: Seq<char>) -> Seq<Seq<char>> {
    list_entries(lines(text))
}

/// The package names in a published list: one per line, the first word of
/// each line, skipping blank lines, `#` comments, markdown fences and
/// anything that is not a valid package name.
pub fn parse_list(text: &str) -> (r: Vec<String>)
    ensures
        r.deep_view() == parse_list_spec(text@),
        forall|i: int| 0 <= i < r@.len() ==> is_valid_name(#[trigger] r.deep_view()[i]),
{
    let chars = to_chars(text);
    let ls = split_lines(&chars);
    let ghost lv = views(ls@);
    let mut out: Vec<Vec<char>> = Vec::new();
    for i in 0..ls.len()
        invariant
            lv == views(ls@),
            lv == lines(text@),
            views(out@) == list_entries(lv.take(i as int)),
    {
        assert(lv.take(i + 1).drop_last() =~= lv.take(i as int));
        assert(lv.take(i + 1).last() == ls@[i as int]@);
        let t = trim_chars(&ls[i]);
        if t.len() > 0 && t[0] != '#' && t[0] != '`' {
            let mut k: usize = 0;
            while k < t.len() && !is_whitespace(t[k])
                invariant
                    k <= t@.len(),
                    forall|j: int| 0 <= j < k ==> !is_ws(#[trigger] t@[j]),
                decreases t@.len() - k,
            {
                k += 1;
            }
            proof {
                lemma_ws_from(t@, 0);
                if ws_from(t@, 0) < k {
                    assert(!is_ws(t@[ws_from(t@, 0)]));
                }
                if k < ws_from(t@, 0) {
                    assert(!is_ws(t@[k as int]));
                }
            }
            let w = subvec(&t, 0, k);
            assert(w@ =~= first_word(t@));
            if valid_name_chars(&w) {
                let ghost old_out = views(out@);
                out.push(w);
                assert(views(out@) =~= old_out + seq![first_word(t@)]);
            } else {
                assert(views(out@) =~= views(out@) + Seq::<Seq<char>>::empty());
            }
        } else {
            assert(views(out@) =~= views(out@) + Seq::<Seq<char>>::empty());
        }
    }
    assert(lv.take(ls@.len() as int) =~= lv);
    proof {
        lemma_list_entries_valid(lv);
    }
    strings_of(&out)
}

proof fn lemma_list_entries_valid(ls: Seq<Seq<char>>)
    ensures
        forall|i: int|
            0 <= i < list_entries(ls).len() ==> is_valid_name(#[trigger] list_entries(ls)[i]),
    decreases ls.len(),
{
    if ls.len() > 0 {
        lemma_list_entries_valid(ls.drop_last());
        let prev = list_entries(ls.drop_last());
        assert forall|i: int| 0 <= i < list_entries(ls).len() implies is_valid_name(
            #[trigger] list_entries(ls)[i],
        ) by {
            if i < prev.len() {
                assert(list_entries(ls)[i] == prev[i]);
            }
        }
    }
}

proof fn lemma_list_entries_concat(x: Seq<Seq<char>>, y: Seq<Seq<char>>)
    ensures
        list_entries(x + y) == list_entries(x) + list_entries(y),
    decreases y.len(),
{
    if y.len() == 0 {
        assert(x + y =~= x);
        assert(list_entries(x) + list_entries(y) =~= list_entries(x));
    } else {
        lemma_list_entries_concat(x, y.drop_last());
        assert((x + y).drop_last() =~= x + y.drop_last());
        assert((x + y).last() == y.last());
        assert(list_entries(x + y) =~= list_entries(x) + list_entries(y));
    }
}

proof fn lemma_entries_single(y: Seq<char>)
    ensures
        list_entries(seq![y]) == match list_entry(y) {
            Some(w) => seq![w],
            None => Seq::<Seq<char>>::empty(),
        },
{
    let z = seq![y];
    let m = match list_entry(y) {
        Some(w) => seq![w],
        None => Seq::<Seq<char>>::empty(),
    };
    assert(z.drop_last() =~= Seq::<Seq<char>>::empty());
    assert(z.last() == y);
    assert(list_entries(Seq::<Seq<char>>::empty()) == Seq::<Seq<char>>::empty());
    assert(list_entries(z) == list_entries(z.drop_last()) + m);
    assert(list_entries(z) =~= m);
}

proof fn lemma_list_entry_strip(l: Seq<char>)
    ensures
        list_entry(strip_cr(l)) == list_entry(l),
{
    lemma_trim_strip_cr(l);
}

/// A final newline adds no entry.
proof fn lemma_entries_final_newline(a: Seq<char>, k: int)
    requires
        0 <= k <= a.len(),
    ensures
        list_entries(lines_from(a + seq!['\n'], k)) == list_entries(lines_from(a, k)),
    decreases a.len() - k,
{
    let s = a + seq!['\n'];
    let e0: Seq<char> = Seq::empty();
    assert(trim(e0) == e0);
    assert(list_entry(e0) is None);
    if k == a.len() {
        assert(s[k] == '\n');
        assert(find_from(s, '\n', k) == k);
        assert(s.subrange(k, k) =~= e0);
        assert(strip_cr(e0) == e0);
        assert(lines_from(s, k + 1) =~= Seq::<Seq<char>>::empty());
        assert(lines_from(s, k) =~= seq![e0]);
        lemma_entries_single(e0);
        assert(lines_from(a, k) =~= Seq::<Seq<char>>::empty());
    } else {
        lemma_find_from_bounds(a, '\n', k);
        let e = find_from(a, '\n', k);
        lemma_find_from_prefix(a, seq!['\n'], '\n', k);
        assert(find_from(seq!['\n'], '\n', 0) == 0);
        assert(find_from(s, '\n', k) == e);
        assert(s.subrange(k, e) =~= a.subrange(k, e));
        let x = strip_cr(a.subrange(k, e));
        if e < a.len() {
            lemma_entries_final_newline(a, e + 1);
            assert(lines_from(s, k) == seq![x] + lines_from(s, e + 1));
            assert(lines_from(a, k) == seq![x] + lines_from(a, e + 1));
            lemma_list_entries_concat(seq![x], lines_from(s, e + 1));
            lemma_list_entries_concat(seq![x], lines_from(a, e + 1));
        } else {
            assert(lines_from(s, e + 1) =~= Seq::<Seq<char>>::empty());
            assert(lines_from(s, k) =~= seq![x]);
            assert(lines_from(a, k) == seq![a.subrange(k, a.len() as int)]);
            lemma_list_entry_strip(a.subrange(k, e));
            lemma_entries_single(x);
            lemma_entries_single(a.subrange(k, e));
        }
    }
}

proof fn lemma_entry_is_first_word(ls: Seq<Seq<char>>, i: int)
    requires
        0 <= i < list_entries(ls).len(),
    ensures
        exists|j: int|
            0 <= j < ls.len() && list_entries(ls)[i] == first_word(trim(#[trigger] ls[j])),
    decreases ls.len(),
{
    let prev = list_entries(ls.drop_last());
    if i < prev.len() {
        lemma_entry_is_first_word(ls.drop_last(), i);
        let j = choose|j: int|
            0 <= j < ls.drop_last().len() && prev[i] == first_word(trim(#[trigger] ls.drop_last()[j]));
        assert(list_entries(ls)[i] == prev[i]);
        assert(ls[j] == ls.drop_last()[j]);
    } else {
        let j = ls.len() - 1;
        assert(list_entries(ls)[i] == first_word(trim(ls[j])));
    }
}

/// Every name a list yields is a valid package name and the first word of
/// one of the list's trimmed lines.
pub proof fn law_parse_list_names(text: Seq<char>, i: int)
    requires
        0 <= i < parse_list_spec(text).len(),
    ensures
        is_valid_name(parse_list_spec(text)[i]),
        exists|j: int|
            0 <= j < lines(text).len() && parse_list_spec(text)[i] == first_word(
                trim(#[trigger] lines(text)[j]),
            ),
{
    lemma_list_entries_valid(lines(text));
    lemma_entry_is_first_word(lines(text), i);
}

/// A package-name character: an ASCII letter or digit, or one of `@._+:-`.
pub open spec fn name_char_code(c: char) -> bool {
    (48 <= (c as u32) <= 57) || (65 <= (c as u32) <= 90) || (97 <= (c as u32) <= 122) || c == '@'
        || c == '.' || c == '_' || c == '+' || c == ':' || c == '-'
}

/// A list made of one package name yields exactly that name: any name that
/// starts with an ASCII letter or digit and goes on with letters, digits or
/// `@._+:-` is kept, names that start with a digit included.
pub proof fn law_package_name_line(w: Seq<char>)
    requires
        w.len() > 0,
        (48 <= (w[0] as u32) <= 57) || (65 <= (w[0] as u32) <= 90) || (97 <= (w[0] as u32) <= 122),
        forall|i: int| 0 <= i < w.len() ==> name_char_code(#[trigger] w[i]),
    ensures
        parse_list_spec(w) == seq![w],
{
    assert forall|i: int| 0 <= i < w.len() implies !is_ws(#[trigger] w[i]) && w[i] != '\n' by {
        assert(name_char_code(w[i]));
    }
    // one line, the whole text
    lemma_find_from_bounds(w, '\n', 0);
    let f = find_from(w, '\n', 0);
    assert(f == w.len()) by {
        if f < w.len() {
            assert(w[f] == '\n');
        }
    }
    assert(w.subrange(0, w.len() as int) =~= w);
    assert(lines(w) =~= seq![w]);
    // nothing to trim
    assert(!is_ws(w[0]));
    assert(crate::text::trim_start(w) == w);
    assert(!is_ws(w.last()));
    assert(crate::text::trim_end(w) == w);
    assert(trim(w) == w);
    // the first word is the whole name
    lemma_ws_from(w, 0);
    assert(ws_from(w, 0) == w.len()) by {
        if ws_from(w, 0) < w.len() {
            assert(is_ws(w[ws_from(w, 0)]));
        }
    }
    assert(w.take(w.len() as int) =~= w);
    assert(first_word(w) == w);
    assert(is_valid_name(w)) by {
        assert forall|i: int| 0 <= i < w.len() implies name_char(#[trigger] w[i]) by {
            assert(name_char_code(w[i]));
        }
    }
    assert(w[0] != '#' && w[0] != '`');
    assert(list_entry(w) == Some(w));
    lemma_entries_single(w);
}

proof fn lemma_stripped_contains(name: Seq<char>, sufs: Seq<Seq<char>>, k: int)
    requires
        0 <= k < sufs.len(),
        has_suffix(name, sufs[k]),
    ensures
        stripped_variants(name, sufs).contains(name.subrange(0, name.len() - sufs[k].len())),
    decreases sufs.len(),
{
    let x = name.subrange(0, name.len() - sufs[k].len());
    let prev = stripped_variants(name, sufs.drop_last());
    if k == sufs.len() - 1 {
        assert(stripped_variants(name, sufs) == prev + seq![x]);
        assert((prev + seq![x])[prev.len() as int] == x);
    } else {
        assert(sufs.drop_last()[k] == sufs[k]);
        lemma_stripped_contains(name, sufs.drop_last(), k);
        let j = choose|j: int| 0 <= j < prev.len() && prev[j] == x;
        let tail = if has_suffix(name, sufs.last()) {
            seq![name.subrange(0, name.len() - sufs.last().len())]
        } else {
            Seq::empty()
        };
        assert(stripped_variants(name, sufs) == prev + tail);
        assert((prev + tail)[j] == x);
    }
}

proof fn lemma_variant_tried(t: Table, n: Seq<char>, k: int)
    requires
        0 <= k < variant_suffixes().len(),
    ensures
        normalize_spec(n + variant_suffixes()[k]).contains(n),
        lookup(t, n) is Some ==> verdict_spec(t, n + variant_suffixes()[k]) is Some,
{
    let s = variant_suffixes()[k];
    let name = n + s;
    assert(name.subrange(name.len() - s.len(), name.len() as int) =~= s);
    assert(has_suffix(name, s));
    lemma_stripped_contains(name, variant_suffixes(), k);
    assert(name.subrange(0, name.len() - s.len()) =~= n);
    let st = stripped_variants(name, variant_suffixes());
    let j = choose|j: int| 0 <= j < st.len() && st[j] == n;
    assert(normalize_spec(name)[j + 1] == n);
    if lookup(t, n) is Some {
        law_flagged_iff_some_name_listed(t, name);
        assert(lookup(t, normalize_spec(name)[j + 1]) is Some);
    }
}

/// The VCS and binary builds of a package are looked up under its own name:
/// `n-git`, `n-bin`, `n-svn`, `n-hg`, `n-bzr`, `n-cvs` and `n-dev` each try
/// `n`, so each is flagged whenever the feed lists `n`.
pub proof fn law_variants_looked_up(t: Table, n: Seq<char>)
    ensures
        normalize_spec(n + "-git"@).contains(n),
        normalize_spec(n + "-bin"@).contains(n),
        normalize_spec(n + "-svn"@).contains(n),
        normalize_spec(n + "-hg"@).contains(n),
        normalize_spec(n + "-bzr"@).contains(n),
        normalize_spec(n + "-cvs"@).contains(n),
        normalize_spec(n + "-dev"@).contains(n),
        lookup(t, n) is Some ==> {
            &&& verdict_spec(t, n + "-git"@) is Some
            &&& verdict_spec(t, n + "-bin"@) is Some
            &&& verdict_spec(t, n + "-svn"@) is Some
            &&& verdict_spec(t, n + "-hg"@) is Some
            &&& verdict_spec(t, n + "-bzr"@) is Some
            &&& verdict_spec(t, n + "-cvs"@) is Some
            &&& verdict_spec(t, n + "-dev"@) is Some
        },
{
    assert(variant_suffixes()[0] == "-git"@);
    assert(variant_suffixes()[1] == "-bin"@);
    assert(variant_suffixes()[2] == "-svn"@);
    assert(variant_suffixes()[3] == "-hg"@);
    assert(variant_suffixes()[4] == "-bzr"@);
    assert(variant_suffixes()[5] == "-cvs"@);
    assert(variant_suffixes()[6] == "-dev"@);
    lemma_variant_tried(t, n, 0);
    lemma_variant_tried(t, n, 1);
    lemma_variant_tried(t, n, 2);
    lemma_variant_tried(t, n, 3);
    lemma_variant_tried(t, n, 4);
    lemma_variant_tried(t, n, 5);
    lemma_variant_tried(t, n, 6);
}

/// A comment line (`#`) or a markdown fence line (`` ` ``) yields no name.
pub proof fn law_comment_lines_skipped(l: Seq<char>)
    requires
        forall|i: int| 0 <= i < l.len() ==> l[i] != '\n',
        trim(l).len() > 0,
        trim(l)[0] == '#' || trim(l)[0] == '`',
    ensures
        parse_list_spec(l).len() == 0,
{
    assert(l.len() > 0);
    lemma_find_from_bounds(l, '\n', 0);
    let f = find_from(l, '\n', 0);
    assert(f == l.len()) by {
        if f < l.len() {
            assert(l[f] == '\n');
        }
    }
    assert(l.subrange(0, l.len() as int) =~= l);
    assert(lines(l) =~= seq![l]);
    assert(list_entry(l) is None);
    lemma_entries_single(l);
}

/// Two lists joined by a newline hold the names of the first, then those of
/// the second.
pub proof fn law_parse_list_concat(a: Seq<char>, b: Seq<char>)
    ensures
        parse_list_spec(a + "\n"@ + b) == parse_list_spec(a) + parse_list_spec(b),
{
    reveal_strlit("\n");
    let p = a + seq!['\n'];
    assert(a + "\n"@ + b =~= p + b);
    lemma_lines_concat(p, b, 0);
    lemma_list_entries_concat(lines(p), lines(b));
    lemma_entries_final_newline(a, 0);
}

// ---------------------------------------------------------------------------
// Name variants
// ---------------------------------------------------------------------------

/// The suffixes of VCS and binary variants of a package.
pub open spec fn variant_suffixes() -> Seq<Seq<char>> {
    seq!["-git"@, "-bin"@, "-svn"@, "-hg"@, "-bzr"@, "-cvs"@, "-dev"@]
}

/// `name` without each suffix of `sufs` that it ends with, in suffix order.
pub open spec fn stripped_variants(name: Seq<char>, sufs: Seq<Seq<char>>) -> Seq<Seq<char>>
    decreases sufs.len(),
{
    if sufs.len() == 0 {
        Seq::empty()
    } else {
        stripped_variants(name, sufs.drop_last()) + if has_suffix(name, sufs.last()) {
            seq![name.subrange(0, name.len() - sufs.last().len())]
        } else {
            Seq::empty()
        }
    }
}

/// The names a package is looked up under: itself, then itself without each
/// variant suffix it carries.
pub open spec fn normalize_spec(name: Seq<char>) -> Seq<Seq<char>> {
    seq![name] + stripped_variants(name, variant_suffixes())
}

fn variant_suffix_list() -> (r: Vec<Vec<char>>)
    ensures
        views(r@) == variant_suffixes(),
{
    let mut r: Vec<Vec<char>> = Vec::new();
    r.push(to_chars("-git"));
    r.push(to_chars("-bin"));
    r.push(to_chars("-svn"));
    r.push(to_chars("-hg"));
    r.push(to_chars("-bzr"));
    r.push(to_chars("-cvs"));
    r.push(to_chars("-dev"));
    assert(views(r@) =~= variant_suffixes());
    r
}

fn normalize_chars(name: &Vec<char>) -> (r: Vec<Vec<char>>)
    ensures
        views(r@) == normalize_spec(name@),
{
    let sufs = variant_suffix_list();
    let ghost sv = views(sufs@);
    let mut r: Vec<Vec<char>> = Vec::new();
    let first = subvec(name, 0, name.len());
    assert(first@ =~= name@);
    r.push(first);
    assert(sv.take(0) =~= Seq::<Seq<char>>::empty());
    assert(stripped_variants(name@, sv.take(0)) == Seq::<Seq<char>>::empty());
    assert(views(r@) =~= seq![name@] + stripped_variants(name@, sv.take(0)));
    for i in 0..sufs.len()
        invariant
            sv == views(sufs@),
            sv == variant_suffixes(),
            views(r@) == seq![name@] + stripped_variants(name@, sv.take(i as int)),
    {
        assert(sv.take(i + 1).drop_last() =~= sv.take(i as int));
        assert(sv.take(i + 1).last() == sufs@[i as int]@);
        if ends_with(name, &sufs[i]) {
            let s = subvec(name, 0, name.len() - sufs[i].len());
            let ghost old_r = views(r@);
            r.push(s);
            assert(views(r@) =~= old_r.push(s@));
        } else {
            assert(views(r@) =~= views(r@) + Seq::<Seq<char>>::empty());
        }
    }
    assert(sv.take(sufs@.len() as int) =~= sv);
    r
}

/// The names a package is looked up under: the name itself, then the name
/// without each of `-git`, `-bin`, `-svn`, `-hg`, `-bzr`, `-cvs`, `-dev` that
/// it ends with.
pub fn normalize(name: &str) -> (r: Vec<String>)
    ensures
        r.deep_view() == normalize_spec(name@),
{
    let c = to_chars(name);
    strings_of(&normalize_chars(&c))
}

// ---------------------------------------------------------------------------
// Matching against the table
// ---------------------------------------------------------------------------

/// The campaigns of the first of `names` that the table lists.
pub open spec fn first_hit(t: Table, names: Seq<Seq<char>>) -> Option<Seq<Seq<char>>>
    decreases names.len(),
{
    if names.len() == 0 {
        None
    } else {
        match lookup(t, names[0]) {
            Some(c) => Some(c),
            None => first_hit(t, names.drop_first()),
        }
    }
}

/// The verdict of the feed on a package: flagged when the package or one of
/// its variant-stripped names is listed, with the campaigns of the first
/// such name.
pub open spec fn verdict_spec(t: Table, name: Seq<char>) -> Option<Seq<Seq<char>>> {
    first_hit(t, normalize_spec(name))
}

fn find_entry(state: &FeedState, k: &Vec<char>) -> (r: Option<usize>)
    ensures
        match r {
            Some(i) => i < state.packages@.len() && lookup(state.view_table(), k@) == Some(
                state.view_table()[i as int].1,
            ),
            None => lookup(state.view_table(), k@) is None,
        },
{
    let ghost t = state.view_table();
    proof {
        lemma_key_index(t, k@);
    }
    for i in 0..state.packages.len()
        invariant
            t == state.view_table(),
            0 <= key_index(t, k@) <= t.len(),
            key_index(t, k@) < t.len() ==> t[key_index(t, k@)].0 == k@ && lookup(t, k@) == Some(
                t[key_index(t, k@)].1,
            ),
            key_index(t, k@) == t.len() ==> lookup(t, k@) is None,
            forall|j: int| 0 <= j < key_index(t, k@) ==> t[j].0 != k@,
            forall|j: int| 0 <= j < i ==> t[j].0 != k@,
    {
        let nm = to_chars(state.packages[i].name.as_str());
        if same(&nm, k) {
            proof {
                assert(t[i as int].0 == k@);
                if key_index(t, k@) < i {
                    assert(t[key_index(t, k@)].0 == k@);
                }
            }
            return Some(i);
        }
    }
    assert(key_index(t, k@) == t.len()) by {
        if key_index(t, k@) < t.len() {
            assert(t[key_index(t, k@)].0 == k@);
        }
    }
    None
}

fn copy_strings(v: &Vec<String>) -> (r: Vec<String>)
    ensures
        r.deep_view() == v.deep_view(),
{
    let c = chars_of_all(v);
    strings_of(&c)
}

/// The verdict of the feed on a package: `(true, campaigns)` when the
/// package, or the package without a variant suffix, is listed (the first
/// listed name in `normalize` order decides); `(false, [])` otherwise.
pub fn feed_verdict(state: &FeedState, name: &str) -> (r: (bool, Vec<String>))
    ensures
        r.0 == verdict_spec(state.view_table(), name@) is Some,
        r.0 ==> r.1.deep_view() == verdict_spec(state.view_table(), name@)->0,
        !r.0 ==> r.1@.len() == 0,
{
    let c = to_chars(name);
    let ns = normalize_chars(&c);
    let ghost t = state.view_table();
    let ghost nv = views(ns@);
    assert(nv.skip(0) =~= nv);
    for i in 0..ns.len()
        invariant
            t == state.view_table(),
            nv == views(ns@),
            nv == normalize_spec(name@),
            first_hit(t, nv) == first_hit(t, nv.skip(i as int)),
    {
        assert(nv.skip(i as int)[0] == ns@[i as int]@);
        assert(nv.skip(i as int).drop_first() =~= nv.skip(i + 1));
        match find_entry(state, &ns[i]) {
            Some(j) => {
                return (true, copy_strings(&state.packages[j].campaigns));
            },
            None => {},
        }
    }
    assert(nv.skip(ns@.len() as int) =~= Seq::<Seq<char>>::empty());
    (false, Vec::new())
}

/// The flagged package names, sorted and without repetition.
pub fn malware_set(state: &FeedState) -> (r: Vec<String>)
    ensures
        strictly_sorted(r.deep_view()),
        same_members(r.deep_view(), keys(state.view_table())),
        state.wf() ==> r@.len() == state.packages@.len(),
{
    let ghost t = state.view_table();
    let mut names: Vec<Vec<char>> = Vec::new();
    for i in 0..state.packages.len()
        invariant
            t == state.view_table(),
            views(names@) == keys(t).take(i as int),
    {
        let ghost old_n = views(names@);
        names.push(to_chars(state.packages[i].name.as_str()));
        assert(views(names@) =~= keys(t).take(i + 1)) by {
            assert(views(names@) =~= old_n.push(t[i as int].0));
        }
    }
    assert(keys(t).take(state.packages@.len() as int) =~= keys(t));
    let r = strings_of(&sort_dedup(names));
    proof {
        if state.wf() {
            lemma_sorted_no_duplicates(r.deep_view());
            assert(keys(t).no_duplicates()) by {
                assert forall|i: int, j: int|
                    0 <= i < keys(t).len() && 0 <= j < keys(t).len() && i != j implies keys(t)[i]
                    != keys(t)[j] by {
                    if i < j {
                        assert(t[i].0 != t[j].0);
                    } else {
                        assert(t[j].0 != t[i].0);
                    }
                }
            }
            lemma_same_members_len(r.deep_view(), keys(t));
        }
    }
    r
}


// ---------------------------------------------------------------------------
// Building the table
// ---------------------------------------------------------------------------

/// The table after one listing of `k` by campaign `c`: the campaign is
/// appended to the entry of `k`, or a new entry is added at the end.
pub open spec fn add_name(t: Table, k: Seq<char>, c: Seq<char>) -> Table {
    let i = key_index(t, k);
    if i < t.len() {
        t.update(i, (k, t[i].1.push(c)))
    } else {
        t.push((k, seq![c]))
    }
}

/// The table after listing each of `names`, in order, by campaign `c`.
pub open spec fn add_names_spec(t: Table, names: Seq<Seq<char>>, c: Seq<char>) -> Table
    decreases names.len(),
{
    if names.len() == 0 {
        t
    } else {
        add_name(add_names_spec(t, names.drop_last(), c), names.last(), c)
    }
}

fn find_index(packages: &Vec<FeedEntry>, k: &Vec<char>) -> (r: usize)
    ensures
        r as int == key_index(table(packages@), k@),
{
    let ghost t = table(packages@);
    proof {
        lemma_key_index(t, k@);
    }
    for i in 0..packages.len()
        invariant
            t == table(packages@),
            0 <= key_index(t, k@) <= t.len(),
            key_index(t, k@) < t.len() ==> t[key_index(t, k@)].0 == k@,
            forall|j: int| 0 <= j < key_index(t, k@) ==> t[j].0 != k@,
            forall|j: int| 0 <= j < i ==> t[j].0 != k@,
    {
        let nm = to_chars(packages[i].name.as_str());
        if same(&nm, k) {
            proof {
                assert(t[i as int].0 == k@);
                if key_index(t, k@) < i {
                    assert(t[key_index(t, k@)].0 == k@);
                }
            }
            return i;
        }
    }
    proof {
        if key_index(t, k@) < t.len() {
            assert(t[key_index(t, k@)].0 == k@);
        }
    }
    packages.len()
}

/// Record that campaign `campaign` lists each of `names`: each name's
/// campaign list gains the campaign, and unlisted names get a new entry.
pub fn add_names(packages: &mut Vec<FeedEntry>, names: &Vec<String>, campaign: &str)
    ensures
        table(final(packages)@) == add_names_spec(table(old(packages)@), names.deep_view(), campaign@),
{
    let ghost t0 = table(packages@);
    let ghost nv = names.deep_view();
    for i in 0..names.len()
        invariant
            nv == names.deep_view(),
            table(packages@) == add_names_spec(t0, nv.take(i as int), campaign@),
    {
        assert(nv.take(i + 1).drop_last() =~= nv.take(i as int));
        assert(nv.take(i + 1).last() == names@[i as int]@);
        let k = to_chars(names[i].as_str());
        let ghost tb = table(packages@);
        let j = find_index(packages, &k);
        if j < packages.len() {
            let mut e = packages.remove(j);
            let ghost old_c = e.campaigns.deep_view();
            e.campaigns.push(owned(campaign));
            assert(e.campaigns.deep_view() =~= old_c.push(campaign@));
            packages.insert(j, e);
            assert(table(packages@) =~= tb.update(j as int, (k@, tb[j as int].1.push(campaign@)))) by {
                lemma_key_index(tb, k@);
            }
        } else {
            let mut cs: Vec<String> = Vec::new();
            cs.push(owned(campaign));
            assert(cs.deep_view() =~= seq![campaign@]);
            packages.push(FeedEntry { name: owned(names[i].as_str()), campaigns: cs });
            assert(table(packages@) =~= tb.push((k@, seq![campaign@])));
        }
    }
    assert(nv.take(names@.len() as int) =~= nv);
}

/// Sort each entry's campaigns and drop repeated ones.
pub fn finalize(packages: &mut Vec<FeedEntry>)
    ensures
        final(packages)@.len() == old(packages)@.len(),
        forall|i: int|
            0 <= i < final(packages)@.len() ==> {
                let n = #[trigger] table(final(packages)@)[i];
                let o = table(old(packages)@)[i];
                &&& n.0 == o.0
                &&& strictly_sorted(n.1)
                &&& same_members(n.1, o.1)
            },
{
    let ghost t0 = table(packages@);
    let n = packages.len();
    for i in 0..n
        invariant
            n == t0.len(),
            packages@.len() == t0.len(),
            forall|j: int|
                0 <= j < t0.len() ==> {
                    let n = #[trigger] table(packages@)[j];
                    let o = t0[j];
                    if j < i {
                        &&& n.0 == o.0
                        &&& strictly_sorted(n.1)
                        &&& same_members(n.1, o.1)
                    } else {
                        n == o
                    }
                },
    {
        let ghost tb = table(packages@);
        let ghost old_p = packages@;
        let e = packages.remove(i);
        let sorted = sort_dedup_strings(&e.campaigns);
        let ne = FeedEntry { name: e.name, campaigns: sorted };
        let ghost nev = entry_view(ne);
        packages.insert(i, ne);
        assert(packages@ =~= old_p.update(i as int, ne));
        assert(table(packages@)[i as int] == nev);
        assert(tb[i as int] == entry_view(e));
        assert forall|j: int| 0 <= j < t0.len() implies {
            let n = #[trigger] table(packages@)[j];
            let o = t0[j];
            if j < i + 1 {
                &&& n.0 == o.0
                &&& strictly_sorted(n.1)
                &&& same_members(n.1, o.1)
            } else {
                n == o
            }
        } by {
            if j != i {
                assert(table(packages@)[j] == tb[j]);
            }
        }
    }
}

// ---------------------------------------------------------------------------
// Merging downloaded lists
// ---------------------------------------------------------------------------

/// A downloaded list and the campaign (or feed) it is credited to.
#[derive(Clone, Debug)]
pub struct Download {
    pub campaign: String,
    pub text: String,
}

pub open spec fn downloads_view(ds: Seq<Download>) -> Seq<(Seq<char>, Seq<char>)> {
    Seq::new(ds.len(), |i: int| (ds[i].campaign@, ds[i].text@))
}

/// The table built from downloaded lists `(campaign, text)`, in order,
/// before the campaigns are sorted.
pub open spec fn downloads_table(ds: Seq<(Seq<char>, Seq<char>)>) -> Table
    decreases ds.len(),
{
    if ds.len() == 0 {
        Seq::empty()
    } else {
        add_names_spec(downloads_table(ds.drop_last()), parse_list_spec(ds.last().1), ds.last().0)
    }
}

/// `a` is `b` with each entry's campaigns sorted and without repetition.
pub open spec fn finalized(a: Table, b: Table) -> bool {
    &&& a.len() == b.len()
    &&& forall|i: int|
        0 <= i < a.len() ==> {
            &&& (#[trigger] a[i]).0 == b[i].0
            &&& strictly_sorted(a[i].1)
            &&& same_members(a[i].1, b[i].1)
        }
}

/// The flagged packages from the downloaded lists: each list's names are
/// credited to its campaign, one entry per name, campaigns sorted and never
/// empty.
pub fn merge_downloads(ds: &Vec<Download>) -> (r: Vec<FeedEntry>)
    ensures
        finalized(table(r@), downloads_table(downloads_view(ds@))),
        unique_keys(table(r@)),
        valid_keys(table(r@)),
        nonempty_campaigns(table(r@)),
{
    let ghost dv = downloads_view(ds@);
    let mut packages: Vec<FeedEntry> = Vec::new();
    assert(table(packages@) =~= downloads_table(dv.take(0)));
    for i in 0..ds.len()
        invariant
            dv == downloads_view(ds@),
            table(packages@) == downloads_table(dv.take(i as int)),
    {
        assert(dv.take(i + 1).drop_last() =~= dv.take(i as int));
        assert(dv.take(i + 1).last() == (ds@[i as int].campaign@, ds@[i as int].text@));
        let names = parse_list(ds[i].text.as_str());
        add_names(&mut packages, &names, ds[i].campaign.as_str());
    }
    assert(dv.take(ds@.len() as int) =~= dv);
    let ghost before = table(packages@);
    finalize(&mut packages);
    proof {
        lemma_downloads_keys(dv);
        let t = table(packages@);
        assert(finalized(t, before));
        assert forall|i: int, j: int| 0 <= i < j < t.len() implies #[trigger] t[i].0 != #[trigger] t[j].0 by {
            assert(t[i].0 == before[i].0);
            assert(t[j].0 == before[j].0);
        }
        assert forall|i: int| 0 <= i < t.len() implies is_valid_name(#[trigger] t[i].0) by {
            assert(t[i].0 == before[i].0);
        }
        assert forall|i: int| 0 <= i < t.len() implies (#[trigger] t[i]).1.len() > 0 by {
            assert(before[i].1.len() > 0);
            assert(before[i].1.contains(before[i].1[0]));
            assert(same_members(t[i].1, before[i].1));
            assert(t[i].1.contains(before[i].1[0]));
        }
    }
    packages
}

proof fn lemma_add_names_nonempty(t: Table, names: Seq<Seq<char>>, c: Seq<char>)
    requires
        nonempty_campaigns(t),
    ensures
        nonempty_campaigns(add_names_spec(t, names, c)),
    decreases names.len(),
{
    if names.len() > 0 {
        lemma_add_names_nonempty(t, names.drop_last(), c);
        lemma_add_name_keys(add_names_spec(t, names.drop_last(), c), names.last(), c);
    }
}

proof fn lemma_downloads_keys(ds: Seq<(Seq<char>, Seq<char>)>)
    ensures
        unique_keys(downloads_table(ds)),
        valid_keys(downloads_table(ds)),
        nonempty_campaigns(downloads_table(ds)),
    decreases ds.len(),
{
    if ds.len() > 0 {
        lemma_downloads_keys(ds.drop_last());
        let prev = downloads_table(ds.drop_last());
        let names = parse_list_spec(ds.last().1);
        lemma_list_entries_valid(lines(ds.last().1));
        law_add_names_keeps_unique(prev, names, ds.last().0);
        law_add_names_keeps_valid(prev, names, ds.last().0);
        lemma_add_names_nonempty(prev, names, ds.last().0);
    }
}

/// The first entry of a name stays where it is when a table keeps its
/// names and only grows.
proof fn lemma_key_index_kept(t1: Table, t2: Table, n: Seq<char>)
    requires
        t1.len() <= t2.len(),
        forall|i: int| 0 <= i < t1.len() ==> (#[trigger] t2[i]).0 == t1[i].0,
        key_index(t1, n) < t1.len(),
    ensures
        key_index(t2, n) == key_index(t1, n),
{
    lemma_key_index(t1, n);
    let i = key_index(t1, n);
    assert forall|j: int| 0 <= j < i implies t2[j].0 != n by {
        assert(t2[j].0 == t1[j].0);
    }
    assert(t2[i].0 == n);
    lemma_key_index_is(t2, n, i);
}

/// A listing never takes a campaign away from a listed name.
proof fn lemma_add_name_mono(t: Table, k: Seq<char>, c: Seq<char>, n: Seq<char>, x: Seq<char>)
    requires
        lookup(t, n) is Some,
        lookup(t, n)->0.contains(x),
    ensures
        lookup(add_name(t, k, c), n) is Some,
        lookup(add_name(t, k, c), n)->0.contains(x),
{
    lemma_key_index(t, n);
    lemma_key_index(t, k);
    let t2 = add_name(t, k, c);
    let i = key_index(t, n);
    assert(i < t.len()) by {
        if i == t.len() {
            assert(lookup(t, n) is None);
        }
    }
    assert forall|m: int| 0 <= m < t.len() implies (#[trigger] t2[m]).0 == t[m].0 by {}
    lemma_key_index_kept(t, t2, n);
    lemma_key_index(t2, n);
    if key_index(t, k) == i && i < t.len() {
        lemma_push_contains(t[i].1, c, x);
    }
}

proof fn lemma_add_names_mono(t: Table, names: Seq<Seq<char>>, c: Seq<char>, n: Seq<char>, x: Seq<char>)
    requires
        lookup(t, n) is Some,
        lookup(t, n)->0.contains(x),
    ensures
        lookup(add_names_spec(t, names, c), n) is Some,
        lookup(add_names_spec(t, names, c), n)->0.contains(x),
    decreases names.len(),
{
    if names.len() > 0 {
        lemma_add_names_mono(t, names.drop_last(), c, n, x);
        lemma_add_name_mono(add_names_spec(t, names.drop_last(), c), names.last(), c, n, x);
    }
}

proof fn lemma_add_names_lists(t: Table, names: Seq<Seq<char>>, c: Seq<char>, j: int)
    requires
        0 <= j < names.len(),
    ensures
        lookup(add_names_spec(t, names, c), names[j]) is Some,
        lookup(add_names_spec(t, names, c), names[j])->0.contains(c),
    decreases names.len(),
{
    let prev = add_names_spec(t, names.drop_last(), c);
    if j == names.len() - 1 {
        law_added_name_is_listed(prev, names.last(), c);
    } else {
        lemma_add_names_lists(t, names.drop_last(), c, j);
        assert(names.drop_last()[j] == names[j]);
        lemma_add_name_mono(prev, names.last(), c, names[j], c);
    }
}

proof fn lemma_downloads_lists(ds: Seq<(Seq<char>, Seq<char>)>, i: int, j: int)
    requires
        0 <= i < ds.len(),
        0 <= j < parse_list_spec(ds[i].1).len(),
    ensures
        lookup(downloads_table(ds), parse_list_spec(ds[i].1)[j]) is Some,
        lookup(downloads_table(ds), parse_list_spec(ds[i].1)[j])->0.contains(ds[i].0),
    decreases ds.len(),
{
    let prev = downloads_table(ds.drop_last());
    let n = parse_list_spec(ds[i].1)[j];
    if i == ds.len() - 1 {
        lemma_add_names_lists(prev, parse_list_spec(ds.last().1), ds.last().0, j);
    } else {
        assert(ds.drop_last()[i] == ds[i]);
        lemma_downloads_lists(ds.drop_last(), i, j);
        lemma_add_names_mono(prev, parse_list_spec(ds.last().1), ds.last().0, n, ds[i].0);
    }
}

/// Every package of a downloaded list is flagged, credited to that list's
/// campaign, in the table merged from the lists.
pub proof fn law_downloaded_names_flagged(ds: Seq<(Seq<char>, Seq<char>)>, t: Table, i: int, j: int)
    requires
        finalized(t, downloads_table(ds)),
        0 <= i < ds.len(),
        0 <= j < parse_list_spec(ds[i].1).len(),
    ensures
        lookup(t, parse_list_spec(ds[i].1)[j]) is Some,
        lookup(t, parse_list_spec(ds[i].1)[j])->0.contains(ds[i].0),
        verdict_spec(t, parse_list_spec(ds[i].1)[j]) is Some,
{
    let d = downloads_table(ds);
    let n = parse_list_spec(ds[i].1)[j];
    lemma_downloads_lists(ds, i, j);
    lemma_key_index(d, n);
    let p = key_index(d, n);
    assert(p < d.len()) by {
        if p == d.len() {
            assert(lookup(d, n) is None);
        }
    }
    assert forall|m: int| 0 <= m < d.len() implies (#[trigger] t[m]).0 == d[m].0 by {}
    lemma_key_index_kept(d, t, n);
    lemma_key_index(t, n);
    assert(same_members(t[p].1, d[p].1));
    assert(d[p].1.contains(ds[i].0));
    law_listed_package_is_flagged(t, n);
}

// ---------------------------------------------------------------------------
// Refresh decisions
// ---------------------------------------------------------------------------

/// The cache is fresh when its age in seconds is below the TTL (the TTL
/// taken as `i64`, as the comparison is made).
pub open spec fn cache_fresh_spec(updated_at: i64, now: i64, ttl: u64) -> bool {
    now - updated_at < (ttl as i64)
}

/// Whether a cached feed fetched at `updated_at` may be used at `now`.
pub fn cache_fresh(updated_at: i64, now: i64, ttl: u64) -> (r: bool)
    requires
        i64::MIN <= now - updated_at <= i64::MAX,
    ensures
        r == cache_fresh_spec(updated_at, now, ttl),
{
    let age = now - updated_at;
    age < ttl as i64
}

/// What to do with one configured feed.
#[derive(Clone, Copy, Debug, PartialEq, Eq)]
pub enum FeedKind {
    /// `enabled = false`: skip it.
    Disabled,
    /// A campaign index (`kind = "lenucksi"`).
    Lenucksi,
    /// A plain list (`kind = "plain"`).
    Plain,
    /// Any other kind: an error.
    Unknown,
}

/// The kind of a configured feed; a feed is enabled unless it says otherwise.
pub fn feed_kind(f: &FeedConfig) -> (r: FeedKind)
    ensures
        r == (if f.enabled == Some(false) {
            FeedKind::Disabled
        } else if f.kind@ == "lenucksi"@ {
            FeedKind::Lenucksi
        } else if f.kind@ == "plain"@ {
            FeedKind::Plain
        } else {
            FeedKind::Unknown
        }),
{
    let enabled = match f.enabled {
        Some(b) => b,
        None => true,
    };
    if !enabled {
        return FeedKind::Disabled;
    }
    let k = to_chars(f.kind.as_str());
    if same(&k, &to_chars("lenucksi")) {
        FeedKind::Lenucksi
    } else if same(&k, &to_chars("plain")) {
        FeedKind::Plain
    } else {
        FeedKind::Unknown
    }
}

/// The error for a feed of an unknown kind.
pub fn unknown_kind_message(kind: &str) -> (r: String)
    ensures
        r@ == "tipo de feed desconocido: "@ + kind@,
{
    cat("tipo de feed desconocido: ", kind)
}

/// A campaign of the lenucksi index.
#[derive(Clone, Debug)]
pub struct Campaign {
    pub id: String,
    /// `"aur"` for AUR campaigns.
    pub type_: String,
    pub lists: Vec<String>,
    pub refresh_url: Option<String>,
}

/// A list to download, and the campaign it belongs to.
#[derive(Clone, Debug)]
pub struct ListSource {
    pub url: String,
    pub campaign: String,
}

/// The base URL of a lenucksi feed, without trailing slashes.
pub open spec fn lenucksi_base_spec(f: FeedConfig) -> Seq<char> {
    match f.base_url {
        Some(b) => trim_end_char(b@, '/'),
        None => Seq::empty(),
    }
}

pub fn lenucksi_base(f: &FeedConfig) -> (r: String)
    ensures
        r@ == lenucksi_base_spec(*f),
{
    match &f.base_url {
        Some(b) => string_of(trim_end_char_exec(&to_chars(b.as_str()), '/').as_slice()),
        None => String::new(),
    }
}

/// The URL of the campaign index under a base URL.
pub fn index_url(base: &str) -> (r: String)
    ensures
        r@ == base@ + "/data/campaigns.json"@,
{
    cat(base, "/data/campaigns.json")
}

/// The URL of a plain feed (empty when none is configured).
pub fn plain_url(f: &FeedConfig) -> (r: String)
    ensures
        r@ == match f.url {
            Some(u) => u@,
            None => Seq::empty(),
        },
{
    match &f.url {
        Some(u) => owned(u.as_str()),
        None => String::new(),
    }
}

pub open spec fn source_view(s: ListSource) -> (Seq<char>, Seq<char>) {
    (s.url@, s.campaign@)
}

pub open spec fn sources_view(s: Seq<ListSource>) -> Seq<(Seq<char>, Seq<char>)> {
    Seq::new(s.len(), |i: int| source_view(s[i]))
}

/// The URLs of the campaign's lists under `base`.
pub open spec fn list_urls(base: Seq<char>, lists: Seq<Seq<char>>, id: Seq<char>) -> Seq<
    (Seq<char>, Seq<char>),
>
    decreases lists.len(),
{
    if lists.len() == 0 {
        Seq::empty()
    } else {
        list_urls(base, lists.drop_last(), id).push(
            (base + "/"@ + trim_start_char(lists.last(), '/'), id),
        )
    }
}

/// The downloads a campaign asks for: for an AUR campaign, each of its lists
/// under the base URL, then its refresh URL if it has one; nothing for other
/// campaigns.
pub open spec fn campaign_sources_spec(base: Seq<char>, c: Campaign) -> Seq<
    (Seq<char>, Seq<char>),
> {
    if c.type_@ == "aur"@ {
        list_urls(base, c.lists.deep_view(), c.id@) + match c.refresh_url {
            Some(u) => seq![(u@, c.id@)],
            None => Seq::empty(),
        }
    } else {
        Seq::empty()
    }
}

/// The downloads of all campaigns, in order.
pub open spec fn all_sources_spec(base: Seq<char>, cs: Seq<Campaign>) -> Seq<
    (Seq<char>, Seq<char>),
>
    decreases cs.len(),
{
    if cs.len() == 0 {
        Seq::empty()
    } else {
        all_sources_spec(base, cs.drop_last()) + campaign_sources_spec(base, cs.last())
    }
}

fn push_source(out: &mut Vec<ListSource>, url: String, campaign: &str)
    ensures
        sources_view(final(out)@) == sources_view(old(out)@).push((url@, campaign@)),
{
    out.push(ListSource { url, campaign: owned(campaign) });
    assert(sources_view(out@) =~= sources_view(old(out)@).push((url@, campaign@)));
}

/// The lists to download for the campaigns of an index.
pub fn campaign_sources(base: &str, campaigns: &Vec<Campaign>) -> (r: Vec<ListSource>)
    ensures
        sources_view(r@) == all_sources_spec(base@, campaigns@),
{
    let mut out: Vec<ListSource> = Vec::new();
    let aur = to_chars("aur");
    let b = to_chars(base);
    let slash = to_chars("/");
    for i in 0..campaigns.len()
        invariant
            aur@ == "aur"@,
            b@ == base@,
            slash@ == "/"@,
            sources_view(out@) == all_sources_spec(base@, campaigns@.take(i as int)),
    {
        let c = &campaigns[i];
        assert(campaigns@.take(i + 1).drop_last() =~= campaigns@.take(i as int));
        assert(campaigns@.take(i + 1).last() == *c);
        let ghost before = sources_view(out@);
        if same(&to_chars(c.type_.as_str()), &aur) {
            let ghost lv = c.lists.deep_view();
            for j in 0..c.lists.len()
                invariant
                    b@ == base@,
                    slash@ == "/"@,
                    lv == c.lists.deep_view(),
                    sources_view(out@) == before + list_urls(base@, lv.take(j as int), c.id@),
            {
                assert(lv.take(j + 1).drop_last() =~= lv.take(j as int));
                assert(lv.take(j + 1).last() == c.lists@[j as int]@);
                let tail = trim_start_char_exec(&to_chars(c.lists[j].as_str()), '/');
                let url = append_chars(&append_chars(&b, &slash), &tail);
                push_source(&mut out, string_of(url.as_slice()), c.id.as_str());
            }
            assert(lv.take(c.lists@.len() as int) =~= lv);
            match &c.refresh_url {
                Some(u) => {
                    push_source(&mut out, owned(u.as_str()), c.id.as_str());
                },
                None => {},
            }
            assert(sources_view(out@) =~= before + campaign_sources_spec(base@, *c));
        } else {
            assert(sources_view(out@) =~= before + campaign_sources_spec(base@, *c));
        }
    }
    assert(campaigns@.take(campaigns@.len() as int) =~= campaigns@);
    out
}

// ---------------------------------------------------------------------------
// Change tracking
// ---------------------------------------------------------------------------

/// What `serde_json::from_str::<Vec<String>>` reads from a text: the
/// strings of a JSON array of strings, or `None` when the text is not one.
pub uninterp spec fn json_strings(text: Seq<char>) -> Option<Seq<Seq<char>>>;

/// The text `serde_json::to_string` writes for a list of strings.
pub uninterp spec fn json_of_strings(v: Seq<Seq<char>>) -> Seq<char>;

/// `serde_json::from_str::<Vec<String>>`: the strings of the JSON array the
/// text holds, `None` when it holds something else.
#[verifier::external_body]
fn parse_json_strings(text: &str) -> (r: Option<Vec<String>>)
    ensures
        match r {
            Some(v) => json_strings(text@) == Some(v.deep_view()),
            None => json_strings(text@) is None,
        },
{
    serde_json::from_str::<Vec<String>>(text).ok()
}

/// `serde_json::to_string` of a list of strings: the JSON array text, which
/// `serde_json::from_str` reads back as the same strings. Whether it
/// succeeds is not promised (for strings the crate never fails).
#[verifier::external_body]
fn strings_json(v: &Vec<String>) -> (r: Option<String>)
    ensures
        r matches Some(s) ==> s@ == json_of_strings(v.deep_view()) && json_strings(s@) == Some(
            v.deep_view(),
        ),
{
    serde_json::to_string(v).ok()
}

/// The names of a stored baseline: the strings of the file's JSON array, or
/// none when the file could not be read or holds something else.
pub open spec fn stored_names(text: Option<Seq<char>>) -> Seq<Seq<char>> {
    match text {
        Some(t) => match json_strings(t) {
            Some(v) => v,
            None => Seq::empty(),
        },
        None => Seq::empty(),
    }
}

/// The names stored in the baseline file, from its text (`None` when it
/// could not be read).
pub fn stored_baseline(text: Option<&str>) -> (r: Vec<String>)
    ensures
        r.deep_view() == stored_names(
            match text {
                Some(t) => Some(t@),
                None => None,
            },
        ),
{
    match text {
        Some(t) => match parse_json_strings(t) {
            Some(v) => v,
            None => Vec::new(),
        },
        None => Vec::new(),
    }
}

/// The text of the baseline file for the flagged names: their JSON array,
/// which reads back as the same names.
pub fn baseline_text(names: &Vec<String>) -> (r: Option<String>)
    ensures
        r matches Some(s) ==> s@ == json_of_strings(names.deep_view()) && stored_names(Some(s@))
            == names.deep_view(),
{
    strings_json(names)
}

/// Names of a stored baseline that are kept: the valid package names, sorted
/// and without repetition.
pub fn baseline_names(stored: &Vec<String>) -> (r: Vec<String>)
    ensures
        strictly_sorted(r.deep_view()),
        forall|x: Seq<char>|
            #[trigger] r.deep_view().contains(x) <==> (stored.deep_view().contains(x)
                && is_valid_name(x)),
{
    let ghost sv = stored.deep_view();
    let mut keep: Vec<Vec<char>> = Vec::new();
    for i in 0..stored.len()
        invariant
            sv == stored.deep_view(),
            sv.len() == stored@.len(),
            forall|x: Seq<char>|
                #[trigger] views(keep@).contains(x) <==> (sv.take(i as int).contains(x)
                    && is_valid_name(x)),
    {
        let c = to_chars(stored[i].as_str());
        assert(c@ == sv[i as int]);
        let ghost before = views(keep@);
        let ok = valid_name_chars(&c);
        if ok {
            keep.push(c);
            assert(views(keep@) =~= before.push(sv[i as int]));
        } else {
            assert(views(keep@) =~= before);
        }
        assert forall|x: Seq<char>| #[trigger] views(keep@).contains(x) <==> (sv.take(i + 1).contains(
            x,
        ) && is_valid_name(x)) by {
            lemma_take_contains(sv, i as int, x);
            lemma_push_contains(before, sv[i as int], x);
        }
    }
    proof {
        lemma_take_full(sv);
    }
    strings_of(&sort_dedup(keep))
}

fn member(base: &Vec<Vec<char>>, c: &Vec<char>) -> (r: bool)
    ensures
        r == views(base@).contains(c@),
{
    let ghost bv = views(base@);
    for j in 0..base.len()
        invariant
            bv == views(base@),
            !bv.take(j as int).contains(c@),
    {
        proof {
            lemma_take_contains(bv, j as int, c@);
        }
        if same(&base[j], c) {
            assert(bv[j as int] == c@);
            assert(bv.contains(c@));
            return true;
        }
    }
    proof {
        lemma_take_full(bv);
    }
    false
}

/// The flagged names that are not in the baseline, sorted and without
/// repetition.
pub fn new_malware(set: &Vec<String>, baseline: &Vec<String>) -> (r: Vec<String>)
    ensures
        strictly_sorted(r.deep_view()),
        forall|x: Seq<char>|
            #[trigger] r.deep_view().contains(x) <==> (set.deep_view().contains(x)
                && !baseline.deep_view().contains(x)),
{
    let ghost sv = set.deep_view();
    let ghost bv = baseline.deep_view();
    let base = chars_of_all(baseline);
    let mut keep: Vec<Vec<char>> = Vec::new();
    for i in 0..set.len()
        invariant
            sv == set.deep_view(),
            sv.len() == set@.len(),
            bv == baseline.deep_view(),
            views(base@) == bv,
            forall|x: Seq<char>|
                #[trigger] views(keep@).contains(x) <==> (sv.take(i as int).contains(x)
                    && !bv.contains(x)),
    {
        let c = to_chars(set[i].as_str());
        assert(c@ == sv[i as int]);
        let ghost before = views(keep@);
        let found = member(&base, &c);
        if !found {
            keep.push(c);
            assert(views(keep@) =~= before.push(sv[i as int]));
        } else {
            assert(views(keep@) =~= before);
        }
        assert forall|x: Seq<char>| #[trigger] views(keep@).contains(x) <==> (sv.take(i + 1).contains(
            x,
        ) && !bv.contains(x)) by {
            lemma_take_contains(sv, i as int, x);
            lemma_push_contains(before, sv[i as int], x);
        }
    }
    proof {
        lemma_take_full(sv);
    }
    strings_of(&sort_dedup(keep))
}

/// A desktop/log alert.
#[derive(Clone, Debug)]
pub struct Alert {
    pub title: String,
    pub body: String,
}

/// The campaigns of a flagged package, joined with `", "` (empty when the
/// package is not listed).
pub fn reasons_text(state: &FeedState, name: &str) -> (r: String)
    ensures
        r@ == match lookup(state.view_table(), name@) {
            Some(c) => join(c, ", "@),
            None => Seq::empty(),
        },
{
    let k = to_chars(name);
    match find_entry(state, &k) {
        Some(i) => {
            let cs = chars_of_all(&state.packages[i].campaigns);
            let j = join_chars(&cs, &to_chars(", "));
            string_of(j.as_slice())
        },
        None => String::new(),
    }
}

/// The alert for a package newly flagged by the feed. Once a baseline
/// exists every change alerts, saying so when the package is installed; on
/// the first synchronisation only installed packages alert.
pub open spec fn feed_alert_spec(name: Seq<char>, reasons: Seq<char>, had_baseline: bool, installed: bool) -> Option<(Seq<char>, Seq<char>)> {
    let body = name + " ["@ + reasons + "]"@;
    if had_baseline {
        Some(("AUR: paquete marcado como malware"@ + if installed {
            " — ¡INSTALADO EN TU SISTEMA!"@
        } else {
            Seq::empty()
        }, body))
    } else if installed {
        Some(("AUR: paquete instalado y marcado como malware"@, body))
    } else {
        None
    }
}

pub fn feed_alert(name: &str, reasons: &str, had_baseline: bool, installed: bool) -> (r: Option<Alert>)
    ensures
        match r {
            Some(a) => feed_alert_spec(name@, reasons@, had_baseline, installed) == Some((a.title@, a.body@)),
            None => feed_alert_spec(name@, reasons@, had_baseline, installed) is None,
        },
{
    let body = cat(cat(cat(name, " [").as_str(), reasons).as_str(), "]");
    if had_baseline {
        let title = if installed {
            cat("AUR: paquete marcado como malware", " — ¡INSTALADO EN TU SISTEMA!")
        } else {
            owned("AUR: paquete marcado como malware")
        };
        proof {
            if !installed {
                assert(title@ =~= "AUR: paquete marcado como malware"@ + Seq::<char>::empty());
            }
        }
        Some(Alert { title, body })
    } else if installed {
        Some(Alert { title: owned("AUR: paquete instalado y marcado como malware"), body })
    } else {
        None
    }
}

/// The baseline is saved again when the feed brought new names, and on the
/// first synchronisation.
pub fn baseline_needs_save(new_count: usize, had_baseline: bool) -> (r: bool)
    ensures
        r == (new_count > 0 || !had_baseline),
{
    new_count > 0 || !had_baseline
}

// ---------------------------------------------------------------------------
// Laws
// ---------------------------------------------------------------------------

/// A package listed in the feed under its own name is flagged, with that
/// entry's campaigns.
pub proof fn law_listed_package_is_flagged(t: Table, name: Seq<char>)
    requires
        lookup(t, name) is Some,
    ensures
        verdict_spec(t, name) == lookup(t, name),
{
    assert(normalize_spec(name)[0] == name);
}

/// A package is flagged exactly when one of the names it is looked up under
/// is listed.
pub proof fn law_flagged_iff_some_name_listed(t: Table, name: Seq<char>)
    ensures
        verdict_spec(t, name) is Some <==> exists|i: int|
            0 <= i < normalize_spec(name).len() && lookup(t, #[trigger] normalize_spec(name)[i]) is Some,
{
    lemma_first_hit(t, normalize_spec(name));
}

proof fn lemma_first_hit(t: Table, names: Seq<Seq<char>>)
    ensures
        first_hit(t, names) is Some <==> exists|i: int|
            0 <= i < names.len() && lookup(t, #[trigger] names[i]) is Some,
    decreases names.len(),
{
    if names.len() > 0 {
        lemma_first_hit(t, names.drop_first());
        if first_hit(t, names) is Some && lookup(t, names[0]) is None {
            let i = choose|i: int|
                0 <= i < names.drop_first().len() && lookup(t, #[trigger] names.drop_first()[i]) is Some;
            assert(names[i + 1] == names.drop_first()[i]);
        }
        if exists|i: int| 0 <= i < names.len() && lookup(t, #[trigger] names[i]) is Some {
            let i = choose|i: int| 0 <= i < names.len() && lookup(t, #[trigger] names[i]) is Some;
            if i > 0 {
                assert(names.drop_first()[i - 1] == names[i]);
            }
        }
    }
}

/// After a listing, the name is in the table and its entry includes the
/// campaign.
pub proof fn law_added_name_is_listed(t: Table, k: Seq<char>, c: Seq<char>)
    ensures
        lookup(add_name(t, k, c), k) is Some,
        lookup(add_name(t, k, c), k)->0.contains(c),
{
    lemma_key_index(t, k);
    let t2 = add_name(t, k, c);
    let i = key_index(t, k);
    lemma_key_index(t2, k);
    if i < t.len() {
        assert forall|j: int| 0 <= j < i implies t2[j].0 != k by {
            assert(t2[j] == t[j]);
        }
        assert(t2[i].0 == k);
        lemma_key_index_is(t2, k, i);
        assert(t2[i].1 == t[i].1.push(c));
        assert(t2[i].1[t[i].1.len() as int] == c);
    } else {
        assert forall|j: int| 0 <= j < i implies t2[j].0 != k by {
            assert(t2[j] == t[j]);
        }
        lemma_key_index_is(t2, k, i);
        assert(t2[i].1[0] == c);
    }
}

proof fn lemma_key_index_is(t: Table, k: Seq<char>, i: int)
    requires
        0 <= i < t.len(),
        t[i].0 == k,
        forall|j: int| 0 <= j < i ==> t[j].0 != k,
    ensures
        key_index(t, k) == i,
    decreases i,
{
    if i > 0 {
        assert forall|j: int| 0 <= j < i - 1 implies t.drop_first()[j].0 != k by {
            assert(t.drop_first()[j] == t[j + 1]);
        }
        lemma_key_index_is(t.drop_first(), k, i - 1);
    }
}

/// No name has two entries in the table.
pub open spec fn unique_keys(t: Table) -> bool {
    forall|i: int, j: int| 0 <= i < j < t.len() ==> #[trigger] t[i].0 != #[trigger] t[j].0
}

/// Every name in the table is a valid package name.
pub open spec fn valid_keys(t: Table) -> bool {
    forall|i: int| 0 <= i < t.len() ==> is_valid_name(#[trigger] t[i].0)
}

/// Every entry lists at least one campaign.
pub open spec fn nonempty_campaigns(t: Table) -> bool {
    forall|i: int| 0 <= i < t.len() ==> (#[trigger] t[i]).1.len() > 0
}

proof fn lemma_add_name_keys(t: Table, k: Seq<char>, c: Seq<char>)
    ensures
        unique_keys(t) ==> unique_keys(add_name(t, k, c)),
        valid_keys(t) && is_valid_name(k) ==> valid_keys(add_name(t, k, c)),
        nonempty_campaigns(t) ==> nonempty_campaigns(add_name(t, k, c)),
{
    lemma_key_index(t, k);
    let r = add_name(t, k, c);
    let i = key_index(t, k);
    if i < t.len() {
        assert forall|j: int| 0 <= j < r.len() implies (#[trigger] r[j]).0 == t[j].0 by {}
        if nonempty_campaigns(t) {
            assert forall|j: int| 0 <= j < r.len() implies (#[trigger] r[j]).1.len() > 0 by {
                if j != i {
                    assert(r[j] == t[j]);
                }
            }
        }
    } else {
        assert forall|j: int| 0 <= j < t.len() implies (#[trigger] r[j]) == t[j] by {}
        assert(r[t.len() as int].0 == k);
    }
}

/// Listing names keeps one entry per name.
pub proof fn law_add_names_keeps_unique(t: Table, names: Seq<Seq<char>>, c: Seq<char>)
    requires
        unique_keys(t),
    ensures
        unique_keys(add_names_spec(t, names, c)),
    decreases names.len(),
{
    if names.len() > 0 {
        law_add_names_keeps_unique(t, names.drop_last(), c);
        lemma_add_name_keys(add_names_spec(t, names.drop_last(), c), names.last(), c);
    }
}

/// Listing valid names keeps every name in the table valid: a table built
/// from published lists holds only valid package names.
pub proof fn law_add_names_keeps_valid(t: Table, names: Seq<Seq<char>>, c: Seq<char>)
    requires
        valid_keys(t),
        forall|i: int| 0 <= i < names.len() ==> is_valid_name(#[trigger] names[i]),
    ensures
        valid_keys(add_names_spec(t, names, c)),
    decreases names.len(),
{
    if names.len() > 0 {
        assert forall|i: int| 0 <= i < names.drop_last().len() implies is_valid_name(
            #[trigger] names.drop_last()[i],
        ) by {
            assert(names.drop_last()[i] == names[i]);
        }
        law_add_names_keeps_valid(t, names.drop_last(), c);
        assert(is_valid_name(names[names.len() - 1]));
        lemma_add_name_keys(add_names_spec(t, names.drop_last(), c), names.last(), c);
    }
}

} // verus!
