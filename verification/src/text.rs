//! Character-level text utilities with their mathematical models.
//!
//! Strings are modelled as `Seq<char>`. The spec functions here give the
//! meaning of the standard text operations the library relies on (trimming,
//! line splitting, prefix and suffix tests, ordering), and the executable
//! functions are proved to compute exactly them.
use vstd::prelude::*;

verus! {

broadcast use vstd::string::group_string_axioms;

// ---------------------------------------------------------------------------
// Conversions
// ---------------------------------------------------------------------------

/// The characters of a string slice, as a vector.
pub fn to_chars(s: &str) -> (v: Vec<char>)
    ensures
        v@ == s@,
{
    let mut v: Vec<char> = Vec::new();
    for c in it: s.chars()
        invariant
            v@ == it.seq().take(it.index() as int),
            it.seq() == s@,
    {
        v.push(c);
    }
    v
}

/// `String: FromIterator<char>` (collecting characters into a `String`):
/// the string holds exactly the given characters, in order.
#[verifier::external_body]
pub fn string_of(v: &[char]) -> (s: String)
    ensures
        s@ == v@,
{
    v.iter().collect()
}

/// The views of a vector of character vectors.
pub open spec fn views(v: Seq<Vec<char>>) -> Seq<Seq<char>> {
    Seq::new(v.len(), |i: int| v[i]@)
}

/// Strings made from each character vector, in order.
pub fn strings_of(v: &Vec<Vec<char>>) -> (r: Vec<String>)
    ensures
        r.deep_view() == views(v@),
{
    let mut r: Vec<String> = Vec::new();
    for i in 0..v.len()
        invariant
            r@.len() == i,
            r.deep_view() == views(v@).take(i as int),
    {
        let s = string_of(v[i].as_slice());
        let ghost old_r = r@;
        let ghost old_dv = r.deep_view();
        r.push(s);
        assert(r@ == old_r.push(s));
        assert(r.deep_view() =~= views(v@).take(i + 1)) by {
            assert forall|j: int| 0 <= j <= i implies #[trigger] r.deep_view()[j] == views(v@)[j] by {
                if j < i {
                    assert(r.deep_view()[j] == old_r[j].deep_view());
                    assert(old_dv[j] == old_r[j].deep_view());
                    assert(old_dv[j] == views(v@).take(i as int)[j]);
                } else {
                    assert(r.deep_view()[j] == s.deep_view());
                    assert(s@ == v@[j]@);
                }
            }
        }
    }
    assert(views(v@).take(v@.len() as int) =~= views(v@));
    r
}

/// The characters of each string, in order.
pub fn chars_of_all(v: &Vec<String>) -> (r: Vec<Vec<char>>)
    ensures
        views(r@) == v.deep_view(),
{
    let mut r: Vec<Vec<char>> = Vec::new();
    for i in 0..v.len()
        invariant
            r@.len() == i,
            views(r@) == v.deep_view().take(i as int),
    {
        let c = to_chars(v[i].as_str());
        let ghost old_r = r@;
        r.push(c);
        assert(r@ == old_r.push(c));
        assert(views(r@) =~= v.deep_view().take(i + 1)) by {
            assert forall|j: int| 0 <= j <= i implies #[trigger] views(r@)[j] == v.deep_view()[j] by {
                if j < i {
                    assert(views(r@)[j] == old_r[j]@);
                    assert(views(old_r)[j] == old_r[j]@);
                }
            }
        }
    }
    assert(v.deep_view().take(v@.len() as int) =~= v.deep_view());
    r
}

/// The characters `v[a..b]`.
pub fn subvec(v: &Vec<char>, a: usize, b: usize) -> (r: Vec<char>)
    requires
        a <= b <= v@.len(),
    ensures
        r@ == v@.subrange(a as int, b as int),
{
    let mut r: Vec<char> = Vec::new();
    let mut i = a;
    while i < b
        invariant
            a <= i <= b <= v@.len(),
            r@ == v@.subrange(a as int, i as int),
        decreases b - i,
    {
        r.push(v[i]);
        i += 1;
    }
    r
}

/// `a` followed by `b`.
pub fn append_chars(a: &Vec<char>, b: &Vec<char>) -> (r: Vec<char>)
    ensures
        r@ == a@ + b@,
{
    let mut r = a.clone();
    for i in 0..b.len()
        invariant
            r@ == a@ + b@.take(i as int),
    {
        r.push(b[i]);
        assert(r@ =~= a@ + b@.take(i + 1));
    }
    assert(b@.take(b@.len() as int) =~= b@);
    r
}

// ---------------------------------------------------------------------------
// Character classes
// ---------------------------------------------------------------------------

/// Unicode `White_Space`, the property that `char::is_whitespace` tests.
pub open spec fn is_ws(c: char) -> bool {
    let u = c as u32;
    (9 <= u && u <= 13) || u == 32 || u == 0x85 || u == 0xa0 || u == 0x1680 || (0x2000 <= u && u
        <= 0x200a) || u == 0x2028 || u == 0x2029 || u == 0x202f || u == 0x205f || u == 0x3000
}

pub fn is_whitespace(c: char) -> (b: bool)
    ensures
        b == is_ws(c),
{
    let u = c as u32;
    (9 <= u && u <= 13) || u == 32 || u == 0x85 || u == 0xa0 || u == 0x1680 || (0x2000 <= u && u
        <= 0x200a) || u == 0x2028 || u == 0x2029 || u == 0x202f || u == 0x205f || u == 0x3000
}

/// `char::is_ascii_alphanumeric`.
pub open spec fn is_alnum(c: char) -> bool {
    let u = c as u32;
    (48 <= u && u <= 57) || (65 <= u && u <= 90) || (97 <= u && u <= 122)
}

pub fn is_ascii_alnum(c: char) -> (b: bool)
    ensures
        b == is_alnum(c),
{
    let u = c as u32;
    (48 <= u && u <= 57) || (65 <= u && u <= 90) || (97 <= u && u <= 122)
}

/// `char::is_ascii_digit`.
pub open spec fn is_digit(c: char) -> bool {
    48 <= (c as u32) && (c as u32) <= 57
}

// ---------------------------------------------------------------------------
// Trimming
// ---------------------------------------------------------------------------

/// `str::trim_start`: drop leading whitespace.
pub open spec fn trim_start(s: Seq<char>) -> Seq<char>
    decreases s.len(),
{
    if s.len() > 0 && is_ws(s[0]) {
        trim_start(s.drop_first())
    } else {
        s
    }
}

/// `str::trim_end`: drop trailing whitespace.
pub open spec fn trim_end(s: Seq<char>) -> Seq<char>
    decreases s.len(),
{
    if s.len() > 0 && is_ws(s.last()) {
        trim_end(s.drop_last())
    } else {
        s
    }
}

/// `str::trim`: drop leading and trailing whitespace.
pub open spec fn trim(s: Seq<char>) -> Seq<char> {
    trim_end(trim_start(s))
}

proof fn lemma_trim_start_skip(s: Seq<char>, i: int)
    requires
        0 <= i <= s.len(),
        forall|j: int| 0 <= j < i ==> is_ws(#[trigger] s[j]),
    ensures
        trim_start(s) == trim_start(s.subrange(i, s.len() as int)),
    decreases i,
{
    if i > 0 {
        assert(s.drop_first() =~= s.subrange(1, s.len() as int));
        lemma_trim_start_skip(s.drop_first(), i - 1);
        assert(s.drop_first().subrange(i - 1, s.drop_first().len() as int) =~= s.subrange(
            i,
            s.len() as int,
        ));
    } else {
        assert(s.subrange(0, s.len() as int) =~= s);
    }
}

proof fn lemma_trim_end_skip(s: Seq<char>, e: int)
    requires
        0 <= e <= s.len(),
        forall|j: int| e <= j < s.len() ==> is_ws(#[trigger] s[j]),
    ensures
        trim_end(s) == trim_end(s.subrange(0, e)),
    decreases s.len() - e,
{
    if e < s.len() {
        lemma_trim_end_skip(s.drop_last(), e);
        assert(s.drop_last().subrange(0, e) =~= s.subrange(0, e));
    } else {
        assert(s.subrange(0, e) =~= s);
    }
}

/// `str::trim` on characters.
pub fn trim_chars(v: &Vec<char>) -> (r: Vec<char>)
    ensures
        r@ == trim(v@),
{
    let n = v.len();
    let mut a: usize = 0;
    while a < n && is_whitespace(v[a])
        invariant
            a <= n == v@.len(),
            forall|j: int| 0 <= j < a ==> is_ws(#[trigger] v@[j]),
        decreases n - a,
    {
        a += 1;
    }
    proof {
        lemma_trim_start_skip(v@, a as int);
    }
    let ghost t = v@.subrange(a as int, n as int);
    assert(trim_start(v@) == t) by {
        if a < n {
            assert(t[0] == v@[a as int]);
        }
    }
    let mut b: usize = n;
    while b > a && is_whitespace(v[b - 1])
        invariant
            a <= b <= n == v@.len(),
            t == v@.subrange(a as int, n as int),
            forall|j: int| b <= j < n ==> is_ws(#[trigger] v@[j]),
        decreases b - a,
    {
        b -= 1;
    }
    proof {
        assert forall|j: int| b - a <= j < t.len() implies is_ws(#[trigger] t[j]) by {
            assert(t[j] == v@[j + a]);
        }
        lemma_trim_end_skip(t, b - a);
        assert(t.subrange(0, b - a) =~= v@.subrange(a as int, b as int));
        if b > a {
            assert(v@.subrange(a as int, b as int).last() == v@[b - 1]);
        }
    }
    subvec(v, a, b)
}

// ---------------------------------------------------------------------------
// Prefixes, suffixes, infixes
// ---------------------------------------------------------------------------

pub open spec fn has_prefix(s: Seq<char>, p: Seq<char>) -> bool {
    p.len() <= s.len() && s.subrange(0, p.len() as int) == p
}

pub open spec fn has_suffix(s: Seq<char>, p: Seq<char>) -> bool {
    p.len() <= s.len() && s.subrange(s.len() - p.len(), s.len() as int) == p
}

/// `p` occurs in `s` at position `i`.
pub open spec fn occurs_at(s: Seq<char>, p: Seq<char>, i: int) -> bool {
    0 <= i && i + p.len() <= s.len() && s.subrange(i, i + p.len()) == p
}

pub open spec fn has_infix(s: Seq<char>, p: Seq<char>) -> bool {
    exists|i: int| occurs_at(s, p, i)
}

/// `str::starts_with`.
pub fn starts_with(s: &Vec<char>, p: &Vec<char>) -> (b: bool)
    ensures
        b == has_prefix(s@, p@),
{
    if p.len() > s.len() {
        return false;
    }
    let mut i: usize = 0;
    while i < p.len()
        invariant
            p@.len() <= s@.len(),
            i <= p@.len(),
            s@.subrange(0, i as int) == p@.subrange(0, i as int),
        decreases p.len() - i,
    {
        if s[i] != p[i] {
            assert(s@.subrange(0, p@.len() as int)[i as int] != p@[i as int]);
            return false;
        }
        i += 1;
        assert(s@.subrange(0, i as int) =~= p@.subrange(0, i as int));
    }
    assert(p@.subrange(0, p@.len() as int) =~= p@);
    true
}

/// Whether `p` occurs in `s` at position `i`.
pub fn occurs_at_exec(s: &Vec<char>, p: &Vec<char>, i: usize) -> (b: bool)
    ensures
        b == occurs_at(s@, p@, i as int),
{
    let n = s.len();
    if i > n || p.len() > n - i {
        return false;
    }
    let mut k: usize = 0;
    while k < p.len()
        invariant
            n == s@.len(),
            i + p@.len() <= n,
            k <= p@.len(),
            s@.subrange(i as int, i + k) == p@.subrange(0, k as int),
        decreases p.len() - k,
    {
        if s[i + k] != p[k] {
            assert(s@.subrange(i as int, i + p@.len())[k as int] != p@[k as int]);
            return false;
        }
        k += 1;
        assert(s@.subrange(i as int, i + k) =~= p@.subrange(0, k as int));
    }
    assert(p@.subrange(0, p@.len() as int) =~= p@);
    true
}

/// `str::ends_with`.
pub fn ends_with(s: &Vec<char>, p: &Vec<char>) -> (b: bool)
    ensures
        b == has_suffix(s@, p@),
{
    if p.len() > s.len() {
        return false;
    }
    occurs_at_exec(s, p, s.len() - p.len())
}

/// `str::contains` with a string pattern.
pub fn contains(s: &Vec<char>, p: &Vec<char>) -> (b: bool)
    ensures
        b == has_infix(s@, p@),
{
    if p.len() > s.len() {
        assert(!has_infix(s@, p@));
        return false;
    }
    let last = s.len() - p.len();
    let mut i: usize = 0;
    loop
        invariant
            last == s@.len() - p@.len(),
            i <= last,
            forall|j: int| 0 <= j < i ==> !occurs_at(s@, p@, j),
        decreases last - i,
    {
        if occurs_at_exec(s, p, i) {
            return true;
        }
        if i == last {
            assert forall|j: int| !occurs_at(s@, p@, j) by {
                if 0 <= j <= last {
                    assert(j < i || j == i);
                }
            }
            return false;
        }
        i += 1;
    }
}

/// `str::contains` with a `char` pattern.
pub fn contains_char(s: &Vec<char>, c: char) -> (b: bool)
    ensures
        b == s@.contains(c),
{
    for i in 0..s.len()
        invariant
            forall|j: int| 0 <= j < i ==> s@[j] != c,
    {
        if s[i] == c {
            return true;
        }
    }
    false
}

// ---------------------------------------------------------------------------
// Lines
// ---------------------------------------------------------------------------

/// Position of the first `c` at or after `k`, or `s.len()` if there is none.
pub open spec fn find_from(s: Seq<char>, c: char, k: int) -> int
    decreases s.len() - k,
{
    if k >= s.len() {
        s.len() as int
    } else if k >= 0 && s[k] == c {
        k
    } else if k < 0 {
        s.len() as int
    } else {
        find_from(s, c, k + 1)
    }
}

pub proof fn lemma_find_from_bounds(s: Seq<char>, c: char, k: int)
    requires
        0 <= k,
    ensures
        k <= s.len() ==> k <= find_from(s, c, k) <= s.len(),
        k > s.len() ==> find_from(s, c, k) == s.len(),
        find_from(s, c, k) < s.len() ==> s[find_from(s, c, k)] == c,
        forall|j: int| k <= j < find_from(s, c, k) ==> s[j] != c,
    decreases s.len() - k,
{
    if k < s.len() && s[k] != c {
        lemma_find_from_bounds(s, c, k + 1);
    }
}

proof fn lemma_find_from_skip(s: Seq<char>, c: char, k: int, i: int)
    requires
        0 <= k <= i <= s.len(),
        forall|j: int| k <= j < i ==> s[j] != c,
    ensures
        find_from(s, c, k) == find_from(s, c, i),
    decreases i - k,
{
    if k < i {
        lemma_find_from_skip(s, c, k + 1, i);
    }
}

/// Drop one trailing carriage return.
pub open spec fn strip_cr(l: Seq<char>) -> Seq<char> {
    if l.len() > 0 && l.last() == '\r' {
        l.drop_last()
    } else {
        l
    }
}

/// The lines of `s[k..]`, as `str::lines` yields them.
pub open spec fn lines_from(s: Seq<char>, k: int) -> Seq<Seq<char>>
    decreases s.len() - k,
{
    if k < 0 || k >= s.len() {
        Seq::empty()
    } else {
        let e = find_from(s, '\n', k);
        if e < s.len() {
            proof {
                lemma_find_from_bounds(s, '\n', k);
            }
            seq![strip_cr(s.subrange(k, e))] + lines_from(s, e + 1)
        } else {
            seq![s.subrange(k, s.len() as int)]
        }
    }
}

/// `str::lines`: the text is split at each `'\n'`, a trailing `"\r"` is
/// dropped from each line that ended in `'\n'`, and a final newline does not
/// start an empty line.
pub open spec fn lines(s: Seq<char>) -> Seq<Seq<char>> {
    lines_from(s, 0)
}

/// `str::lines` on characters.
pub fn split_lines(v: &Vec<char>) -> (r: Vec<Vec<char>>)
    ensures
        views(r@) == lines(v@),
{
    let n = v.len();
    let mut r: Vec<Vec<char>> = Vec::new();
    let mut start: usize = 0;
    let mut i: usize = 0;
    while i < n
        invariant
            n == v@.len(),
            start <= i <= n,
            lines(v@) == views(r@) + lines_from(v@, start as int),
            forall|j: int| start <= j < i ==> v@[j] != '\n',
        decreases n - i,
    {
        if v[i] == '\n' {
            proof {
                lemma_find_from_skip(v@, '\n', start as int, i as int);
            }
            let mut line = subvec(v, start, i);
            if line.len() > 0 && line[line.len() - 1] == '\r' {
                line.pop();
            }
            let ghost old_r = r@;
            r.push(line);
            assert(views(r@) =~= views(old_r).push(strip_cr(v@.subrange(start as int, i as int))));
            assert(views(r@) + lines_from(v@, i + 1) =~= views(old_r) + (seq![
                strip_cr(v@.subrange(start as int, i as int)),
            ] + lines_from(v@, i + 1)));
            start = i + 1;
        }
        i += 1;
    }
    proof {
        lemma_find_from_skip(v@, '\n', start as int, n as int);
    }
    if start < n {
        let line = subvec(v, start, n);
        let ghost old_r = r@;
        r.push(line);
        assert(views(r@) =~= views(old_r) + seq![v@.subrange(start as int, n as int)]);
    } else {
        assert(views(r@) + lines_from(v@, start as int) =~= views(r@));
    }
    r
}


// ---------------------------------------------------------------------------
// Equality and order
// ---------------------------------------------------------------------------

/// Whether two character vectors hold the same characters.
pub fn same(a: &Vec<char>, b: &Vec<char>) -> (r: bool)
    ensures
        r == (a@ == b@),
{
    if a.len() != b.len() {
        return false;
    }
    let r = starts_with(a, b);
    proof {
        if r {
            assert(a@.subrange(0, b@.len() as int) =~= a@);
        } else {
            if a@ == b@ {
                assert(a@.subrange(0, b@.len() as int) =~= a@);
            }
        }
    }
    r
}

/// The order of `String`s (byte-wise on UTF-8, which is code-point-wise on
/// characters): `a` sorts strictly before `b`.
pub open spec fn lex_lt(a: Seq<char>, b: Seq<char>) -> bool
    decreases a.len(),
{
    if b.len() == 0 {
        false
    } else if a.len() == 0 {
        true
    } else if a[0] != b[0] {
        (a[0] as u32) < (b[0] as u32)
    } else {
        lex_lt(a.drop_first(), b.drop_first())
    }
}

pub proof fn lemma_lex_irreflexive(a: Seq<char>)
    ensures
        !lex_lt(a, a),
    decreases a.len(),
{
    if a.len() > 0 {
        lemma_lex_irreflexive(a.drop_first());
    }
}

pub proof fn lemma_lex_transitive(a: Seq<char>, b: Seq<char>, c: Seq<char>)
    requires
        lex_lt(a, b),
        lex_lt(b, c),
    ensures
        lex_lt(a, c),
    decreases a.len(),
{
    if a.len() > 0 && b.len() > 0 && c.len() > 0 {
        if a[0] == b[0] && b[0] == c[0] {
            lemma_lex_transitive(a.drop_first(), b.drop_first(), c.drop_first());
        }
    }
}

pub proof fn lemma_lex_total(a: Seq<char>, b: Seq<char>)
    requires
        a != b,
    ensures
        lex_lt(a, b) || lex_lt(b, a),
    decreases a.len(),
{
    if a.len() > 0 && b.len() > 0 && a[0] == b[0] {
        if a.drop_first() == b.drop_first() {
            assert(a =~= seq![a[0]] + a.drop_first());
            assert(b =~= seq![b[0]] + b.drop_first());
        }
        lemma_lex_total(a.drop_first(), b.drop_first());
    } else if a.len() == 0 && b.len() == 0 {
        assert(a =~= b);
    } else if a.len() > 0 && b.len() > 0 {
        lemma_char_u32_injective(a[0], b[0]);
    }
}

proof fn lemma_char_u32_injective(a: char, b: char)
    requires
        a != b,
    ensures
        (a as u32) != (b as u32),
{
}

pub proof fn lemma_lex_asymmetric(a: Seq<char>, b: Seq<char>)
    requires
        lex_lt(a, b),
    ensures
        !lex_lt(b, a),
{
    if lex_lt(b, a) {
        lemma_lex_transitive(a, b, a);
        lemma_lex_irreflexive(a);
    }
}

/// Whether `a` sorts strictly before `b`.
pub fn less(a: &Vec<char>, b: &Vec<char>) -> (r: bool)
    ensures
        r == lex_lt(a@, b@),
{
    let mut i: usize = 0;
    assert(a@.skip(0) =~= a@);
    assert(b@.skip(0) =~= b@);
    while i < a.len() && i < b.len() && a[i] == b[i]
        invariant
            i <= a@.len(),
            i <= b@.len(),
            lex_lt(a@, b@) == lex_lt(a@.skip(i as int), b@.skip(i as int)),
        decreases a@.len() - i,
    {
        assert(a@.skip(i as int).drop_first() =~= a@.skip(i + 1));
        assert(b@.skip(i as int).drop_first() =~= b@.skip(i + 1));
        i += 1;
    }
    if i == b.len() {
        false
    } else if i == a.len() {
        true
    } else {
        assert(a@.skip(i as int)[0] == a@[i as int]);
        assert(b@.skip(i as int)[0] == b@[i as int]);
        (a[i] as u32) < (b[i] as u32)
    }
}

/// Strictly increasing in the `String` order: sorted, with no repetition.
pub open spec fn strictly_sorted(s: Seq<Seq<char>>) -> bool {
    forall|i: int, j: int| 0 <= i < j < s.len() ==> lex_lt(#[trigger] s[i], #[trigger] s[j])
}

/// Two sequences hold the same members.
pub open spec fn same_members(a: Seq<Seq<char>>, b: Seq<Seq<char>>) -> bool {
    forall|x: Seq<char>| a.contains(x) <==> b.contains(x)
}

/// A strictly sorted sequence holds no element twice.
pub proof fn lemma_sorted_no_duplicates(s: Seq<Seq<char>>)
    requires
        strictly_sorted(s),
    ensures
        s.no_duplicates(),
{
    assert forall|i: int, j: int| 0 <= i < s.len() && 0 <= j < s.len() && i != j implies s[i]
        != s[j] by {
        lemma_lex_irreflexive(s[i]);
        if i < j {
            assert(lex_lt(s[i], s[j]));
        } else {
            assert(lex_lt(s[j], s[i]));
        }
    }
}

/// Two sequences without repetition that hold the same members have the
/// same length.
pub proof fn lemma_same_members_len(a: Seq<Seq<char>>, b: Seq<Seq<char>>)
    requires
        a.no_duplicates(),
        b.no_duplicates(),
        same_members(a, b),
    ensures
        a.len() == b.len(),
{
    a.unique_seq_to_set();
    b.unique_seq_to_set();
    assert(a.to_set() =~= b.to_set()) by {
        assert forall|x: Seq<char>| a.to_set().contains(x) <==> b.to_set().contains(x) by {
            assert(a.contains(x) <==> b.contains(x));
        }
    }
}

/// A strictly sorted sequence is determined by its members.
pub proof fn lemma_sorted_unique(a: Seq<Seq<char>>, b: Seq<Seq<char>>)
    requires
        strictly_sorted(a),
        strictly_sorted(b),
        same_members(a, b),
    ensures
        a == b,
    decreases a.len(),
{
    if a.len() == 0 {
        if b.len() > 0 {
            assert(b.contains(b[0]));
        }
        assert(a =~= b);
    } else {
        assert(a.contains(a[0]));
        assert(b.len() > 0);
        assert(b.contains(b[0]));
        // both heads are the least member
        if a[0] != b[0] {
            let i = choose|i: int| 0 <= i < b.len() && b[i] == a[0];
            let j = choose|j: int| 0 <= j < a.len() && a[j] == b[0];
            assert(i > 0);
            assert(j > 0);
            assert(lex_lt(b[0], b[i]));
            assert(lex_lt(a[0], a[j]));
            lemma_lex_asymmetric(a[0], b[0]);
        }
        let a1 = a.drop_first();
        let b1 = b.drop_first();
        assert forall|x: Seq<char>| a1.contains(x) <==> b1.contains(x) by {
            if a1.contains(x) {
                let i = choose|i: int| 0 <= i < a1.len() && a1[i] == x;
                assert(a[i + 1] == x);
                assert(lex_lt(a[0], a[i + 1]));
                lemma_lex_irreflexive(x);
                assert(b.contains(x));
                let k = choose|k: int| 0 <= k < b.len() && b[k] == x;
                assert(k != 0);
                assert(b1[k - 1] == x);
            }
            if b1.contains(x) {
                let i = choose|i: int| 0 <= i < b1.len() && b1[i] == x;
                assert(b[i + 1] == x);
                assert(lex_lt(b[0], b[i + 1]));
                lemma_lex_irreflexive(x);
                assert(a.contains(x));
                let k = choose|k: int| 0 <= k < a.len() && a[k] == x;
                assert(k != 0);
                assert(a1[k - 1] == x);
            }
        }
        assert(strictly_sorted(a1)) by {
            assert forall|i: int, j: int| 0 <= i < j < a1.len() implies lex_lt(
                #[trigger] a1[i],
                #[trigger] a1[j],
            ) by {
                assert(a1[i] == a[i + 1] && a1[j] == a[j + 1]);
            }
        }
        assert(strictly_sorted(b1)) by {
            assert forall|i: int, j: int| 0 <= i < j < b1.len() implies lex_lt(
                #[trigger] b1[i],
                #[trigger] b1[j],
            ) by {
                assert(b1[i] == b[i + 1] && b1[j] == b[j + 1]);
            }
        }
        lemma_sorted_unique(a1, b1);
        assert(a =~= seq![a[0]] + a1);
        assert(b =~= seq![b[0]] + b1);
    }
}

/// Insert `x` into a strictly sorted vector unless it is already there.
fn insert_sorted(r: &mut Vec<Vec<char>>, x: Vec<char>)
    requires
        strictly_sorted(views(old(r)@)),
    ensures
        strictly_sorted(views(final(r)@)),
        forall|y: Seq<char>|
            views(final(r)@).contains(y) <==> (views(old(r)@).contains(y) || y == x@),
{
    let ghost old_v = views(r@);
    let n = r.len();
    let mut p: usize = 0;
    while p < n && less(&r[p], &x)
        invariant
            n == r@.len(),
            old_v == views(r@),
            p <= n,
            forall|k: int| 0 <= k < p ==> lex_lt(#[trigger] old_v[k], x@),
        decreases n - p,
    {
        p += 1;
    }
    if p < n && same(&r[p], &x) {
        assert(old_v[p as int] == x@);
        assert forall|y: Seq<char>| views(r@).contains(y) <==> (old_v.contains(y) || y == x@) by {
            if y == x@ {
                assert(old_v[p as int] == y);
            }
        }
        return;
    }
    proof {
        if p < n {
            assert(!lex_lt(old_v[p as int], x@));
            assert(old_v[p as int] != x@);
            lemma_lex_total(old_v[p as int], x@);
        }
    }
    r.insert(p, x);
    let ghost new_v = views(r@);
    assert(new_v =~= old_v.insert(p as int, x@));
    assert forall|i: int, j: int| 0 <= i < j < new_v.len() implies lex_lt(
        #[trigger] new_v[i],
        #[trigger] new_v[j],
    ) by {
        if j < p {
        } else if j == p {
            assert(new_v[j] == x@);
        } else if i < p {
            assert(new_v[j] == old_v[j - 1]);
            if j - 1 > p {
                assert(lex_lt(old_v[p as int], old_v[j - 1]));
                lemma_lex_transitive(x@, old_v[p as int], old_v[j - 1]);
            }
            lemma_lex_transitive(old_v[i], x@, old_v[j - 1]);
        } else if i == p {
            assert(new_v[j] == old_v[j - 1]);
            if j - 1 > p {
                assert(lex_lt(old_v[p as int], old_v[j - 1]));
                lemma_lex_transitive(x@, old_v[p as int], old_v[j - 1]);
            }
        } else {
            assert(new_v[i] == old_v[i - 1]);
            assert(new_v[j] == old_v[j - 1]);
        }
    }
    assert forall|y: Seq<char>| new_v.contains(y) <==> (old_v.contains(y) || y == x@) by {
        if new_v.contains(y) {
            let k = choose|k: int| 0 <= k < new_v.len() && new_v[k] == y;
            if k < p {
                assert(old_v[k] == y);
            } else if k > p {
                assert(old_v[k - 1] == y);
            }
        }
        if old_v.contains(y) {
            let k = choose|k: int| 0 <= k < old_v.len() && old_v[k] == y;
            if k < p {
                assert(new_v[k] == y);
            } else {
                assert(new_v[k + 1] == y);
            }
        }
        if y == x@ {
            assert(new_v[p as int] == y);
        }
    }
}

/// `sort` followed by `dedup` on character vectors: the result is strictly
/// sorted and has exactly the members of the input.
pub fn sort_dedup(v: Vec<Vec<char>>) -> (r: Vec<Vec<char>>)
    ensures
        strictly_sorted(views(r@)),
        same_members(views(r@), views(v@)),
{
    let mut r: Vec<Vec<char>> = Vec::new();
    let n = v.len();
    let ghost vv = views(v@);
    let mut v = v;
    let mut i: usize = 0;
    while i < n
        invariant
            n == vv.len(),
            i <= n,
            views(v@) == vv,
            strictly_sorted(views(r@)),
            forall|y: Seq<char>| views(r@).contains(y) <==> vv.take(i as int).contains(y),
        decreases n - i,
    {
        let x = subvec(&v[i], 0, v[i].len());
        assert(x@ =~= vv[i as int]);
        let ghost before = views(r@);
        insert_sorted(&mut r, x);
        assert forall|y: Seq<char>| vv.take(i + 1).contains(y) <==> (vv.take(i as int).contains(
            y,
        ) || y == vv[i as int]) by {
            if vv.take(i + 1).contains(y) {
                let k = choose|k: int| 0 <= k < i + 1 && #[trigger] vv.take(i + 1)[k] == y;
                if k < i {
                    assert(vv.take(i as int)[k] == y);
                }
            }
            if vv.take(i as int).contains(y) {
                let k = choose|k: int| 0 <= k < i && #[trigger] vv.take(i as int)[k] == y;
                assert(vv.take(i + 1)[k] == y);
            }
            if y == vv[i as int] {
                assert(vv.take(i + 1)[i as int] == y);
            }
        }
        assert forall|y: Seq<char>| views(r@).contains(y) <==> vv.take(i + 1).contains(y) by {
            assert(views(r@).contains(y) <==> (before.contains(y) || y == vv[i as int]));
        }
        i += 1;
    }
    assert(vv.take(n as int) =~= vv);
    r
}

/// `sort` followed by `dedup` on strings.
pub fn sort_dedup_strings(v: &Vec<String>) -> (r: Vec<String>)
    ensures
        strictly_sorted(r.deep_view()),
        same_members(r.deep_view(), v.deep_view()),
{
    let c = chars_of_all(v);
    let s = sort_dedup(c);
    strings_of(&s)
}

// ---------------------------------------------------------------------------
// Numbers
// ---------------------------------------------------------------------------

/// The decimal digit for `d` (`0 <= d < 10`).
pub open spec fn digit_char(d: int) -> char {
    if d <= 0 {
        '0'
    } else if d == 1 {
        '1'
    } else if d == 2 {
        '2'
    } else if d == 3 {
        '3'
    } else if d == 4 {
        '4'
    } else if d == 5 {
        '5'
    } else if d == 6 {
        '6'
    } else if d == 7 {
        '7'
    } else if d == 8 {
        '8'
    } else {
        '9'
    }
}

/// The decimal representation of `n`, as `Display` writes an unsigned integer.
pub open spec fn decimal(n: nat) -> Seq<char>
    decreases n,
{
    if n < 10 {
        seq![digit_char(n as int)]
    } else {
        decimal(n / 10).push(digit_char((n % 10) as int))
    }
}

fn digit_exec(d: u64) -> (c: char)
    requires
        d < 10,
    ensures
        c == digit_char(d as int),
{
    if d == 0 {
        '0'
    } else if d == 1 {
        '1'
    } else if d == 2 {
        '2'
    } else if d == 3 {
        '3'
    } else if d == 4 {
        '4'
    } else if d == 5 {
        '5'
    } else if d == 6 {
        '6'
    } else if d == 7 {
        '7'
    } else if d == 8 {
        '8'
    } else {
        '9'
    }
}

/// The decimal representation of `n`.
pub fn decimal_chars(n: u64) -> (r: Vec<char>)
    ensures
        r@ == decimal(n as nat),
    decreases n,
{
    if n < 10 {
        let mut r: Vec<char> = Vec::new();
        r.push(digit_exec(n));
        r
    } else {
        let mut r = decimal_chars(n / 10);
        r.push(digit_exec(n % 10));
        r
    }
}

/// The value of a run of decimal digits.
pub open spec fn digits_value(s: Seq<char>) -> nat
    decreases s.len(),
{
    if s.len() == 0 {
        0
    } else {
        digits_value(s.drop_last()) * 10 + ((s.last() as u32) - 48) as nat
    }
}

pub open spec fn all_digits(s: Seq<char>) -> bool {
    forall|i: int| 0 <= i < s.len() ==> is_digit(#[trigger] s[i])
}

/// What follows an optional leading `'+'`.
pub open spec fn unsigned_body(s: Seq<char>) -> Seq<char> {
    if s.len() > 0 && s[0] == '+' {
        s.drop_first()
    } else {
        s
    }
}

/// `u32::from_str`: an optional `'+'`, then at least one decimal digit and
/// nothing else, with a value that fits in a `u32`.
pub open spec fn parse_u32(s: Seq<char>) -> Option<u32> {
    let d = unsigned_body(s);
    if d.len() > 0 && all_digits(d) && digits_value(d) <= u32::MAX {
        Some(digits_value(d) as u32)
    } else {
        None
    }
}

/// `u32::from_str` on characters.
pub fn parse_u32_chars(v: &Vec<char>) -> (r: Option<u32>)
    ensures
        r == parse_u32(v@),
{
    let n = v.len();
    let k: usize = if n > 0 && v[0] == '+' {
        1
    } else {
        0
    };
    let ghost d = unsigned_body(v@);
    assert(d =~= v@.subrange(k as int, n as int));
    if k == n {
        return None;
    }
    let mut acc: u64 = 0;
    let mut i: usize = k;
    while i < n
        invariant
            n == v@.len(),
            k <= i <= n,
            d == v@.subrange(k as int, n as int),
            d == unsigned_body(v@),
            acc as nat == if digits_value(v@.subrange(k as int, i as int)) < 4294967296 {
                digits_value(v@.subrange(k as int, i as int))
            } else {
                4294967296
            },
            forall|j: int| k <= j < i ==> is_digit(#[trigger] v@[j]),
        decreases n - i,
    {
        let c = v[i];
        let u = c as u32;
        if u < 48 || u > 57 {
            assert(!is_digit(d[i - k]));
            return None;
        }
        let ghost prev = digits_value(v@.subrange(k as int, i as int));
        assert(v@.subrange(k as int, i + 1).drop_last() =~= v@.subrange(k as int, i as int));
        assert(v@.subrange(k as int, i + 1).last() == c);
        assert(digits_value(v@.subrange(k as int, i + 1)) == prev * 10 + (u - 48) as nat);
        let next = acc * 10 + (u as u64 - 48);
        acc = if next < 4294967296 {
            next
        } else {
            4294967296
        };
        i += 1;
    }
    assert(v@.subrange(k as int, n as int) == d);
    assert(all_digits(d)) by {
        assert forall|j: int| 0 <= j < d.len() implies is_digit(#[trigger] d[j]) by {
            assert(d[j] == v@[j + k]);
        }
    }
    if acc <= 4294967295 {
        Some(acc as u32)
    } else {
        None
    }
}

proof fn lemma_digit_char(d: int)
    requires
        0 <= d < 10,
    ensures
        is_digit(digit_char(d)),
        (digit_char(d) as u32) - 48 == d,
{
}

/// Reading back a written decimal gives the number: `u32::from_str` undoes
/// `Display` on every `u32`.
pub proof fn lemma_parse_decimal(n: nat)
    requires
        n <= u32::MAX,
    ensures
        parse_u32(decimal(n)) == Some(n as u32),
{
    lemma_decimal_digits(n);
    let s = decimal(n);
    assert(s[0] != '+') by {
        assert(is_digit(s[0]));
    }
}

proof fn lemma_decimal_digits(n: nat)
    ensures
        decimal(n).len() > 0,
        all_digits(decimal(n)),
        digits_value(decimal(n)) == n,
    decreases n,
{
    if n < 10 {
        lemma_digit_char(n as int);
        assert(decimal(n).drop_last() =~= Seq::<char>::empty());
        assert(digits_value(Seq::<char>::empty()) == 0);
        assert(decimal(n).last() == digit_char(n as int));
    } else {
        lemma_decimal_digits(n / 10);
        lemma_digit_char((n % 10) as int);
        let s = decimal(n);
        assert(s.drop_last() =~= decimal(n / 10));
        assert forall|i: int| 0 <= i < s.len() implies is_digit(#[trigger] s[i]) by {
            if i < s.len() - 1 {
                assert(s[i] == decimal(n / 10)[i]);
            }
        }
    }
}

// ---------------------------------------------------------------------------
// Joining and paths
// ---------------------------------------------------------------------------

/// `[String]::join(sep)`.
pub open spec fn join(parts: Seq<Seq<char>>, sep: Seq<char>) -> Seq<char>
    decreases parts.len(),
{
    if parts.len() == 0 {
        Seq::empty()
    } else if parts.len() == 1 {
        parts[0]
    } else {
        join(parts.drop_last(), sep) + sep + parts.last()
    }
}

/// `[String]::join(sep)` on character vectors.
pub fn join_chars(parts: &Vec<Vec<char>>, sep: &Vec<char>) -> (r: Vec<char>)
    ensures
        r@ == join(views(parts@), sep@),
{
    let ghost pv = views(parts@);
    let mut r: Vec<char> = Vec::new();
    for i in 0..parts.len()
        invariant
            pv == views(parts@),
            r@ == join(pv.take(i as int), sep@),
    {
        assert(pv.take(i + 1).drop_last() =~= pv.take(i as int));
        if i == 0 {
            r = append_chars(&r, &parts[i]);
            assert(r@ =~= pv[0]);
        } else {
            r = append_chars(&r, sep);
            r = append_chars(&r, &parts[i]);
        }
        assert(pv.take(i + 1).last() == parts@[i as int]@);
    }
    assert(pv.take(parts@.len() as int) =~= pv);
    r
}

/// `PathBuf::join` with a relative name: a `'/'` is put between unless the
/// base is empty or already ends with one.
pub open spec fn path_join(base: Seq<char>, name: Seq<char>) -> Seq<char> {
    if base.len() > 0 && base.last() != '/' {
        base + seq!['/'] + name
    } else {
        base + name
    }
}

/// `PathBuf::join` with a relative name.
pub fn path_join_chars(base: &Vec<char>, name: &Vec<char>) -> (r: Vec<char>)
    ensures
        r@ == path_join(base@, name@),
{
    if base.len() > 0 && base[base.len() - 1] != '/' {
        let mut b = base.clone();
        b.push('/');
        assert(b@ == base@ + seq!['/']);
        append_chars(&b, name)
    } else {
        append_chars(base, name)
    }
}


// ---------------------------------------------------------------------------
// Trimming a given character
// ---------------------------------------------------------------------------

/// `str::trim_start_matches(c)`.
pub open spec fn trim_start_char(s: Seq<char>, c: char) -> Seq<char>
    decreases s.len(),
{
    if s.len() > 0 && s[0] == c {
        trim_start_char(s.drop_first(), c)
    } else {
        s
    }
}

/// `str::trim_end_matches(c)`.
pub open spec fn trim_end_char(s: Seq<char>, c: char) -> Seq<char>
    decreases s.len(),
{
    if s.len() > 0 && s.last() == c {
        trim_end_char(s.drop_last(), c)
    } else {
        s
    }
}

/// `str::trim_matches(c)`.
pub open spec fn trim_char(s: Seq<char>, c: char) -> Seq<char> {
    trim_end_char(trim_start_char(s, c), c)
}

proof fn lemma_trim_start_char_skip(s: Seq<char>, c: char, i: int)
    requires
        0 <= i <= s.len(),
        forall|j: int| 0 <= j < i ==> #[trigger] s[j] == c,
    ensures
        trim_start_char(s, c) == trim_start_char(s.subrange(i, s.len() as int), c),
    decreases i,
{
    if i > 0 {
        assert(s.drop_first() =~= s.subrange(1, s.len() as int));
        lemma_trim_start_char_skip(s.drop_first(), c, i - 1);
        assert(s.drop_first().subrange(i - 1, s.drop_first().len() as int) =~= s.subrange(
            i,
            s.len() as int,
        ));
    } else {
        assert(s.subrange(0, s.len() as int) =~= s);
    }
}

proof fn lemma_trim_end_char_skip(s: Seq<char>, c: char, e: int)
    requires
        0 <= e <= s.len(),
        forall|j: int| e <= j < s.len() ==> #[trigger] s[j] == c,
    ensures
        trim_end_char(s, c) == trim_end_char(s.subrange(0, e), c),
    decreases s.len() - e,
{
    if e < s.len() {
        lemma_trim_end_char_skip(s.drop_last(), c, e);
        assert(s.drop_last().subrange(0, e) =~= s.subrange(0, e));
    } else {
        assert(s.subrange(0, e) =~= s);
    }
}

/// `str::trim_start_matches(c)` on characters.
pub fn trim_start_char_exec(v: &Vec<char>, c: char) -> (r: Vec<char>)
    ensures
        r@ == trim_start_char(v@, c),
{
    let n = v.len();
    let mut a: usize = 0;
    while a < n && v[a] == c
        invariant
            a <= n == v@.len(),
            forall|j: int| 0 <= j < a ==> #[trigger] v@[j] == c,
        decreases n - a,
    {
        a += 1;
    }
    proof {
        lemma_trim_start_char_skip(v@, c, a as int);
        if a < n {
            assert(v@.subrange(a as int, n as int)[0] == v@[a as int]);
        }
    }
    subvec(v, a, n)
}

/// `str::trim_end_matches(c)` on characters.
pub fn trim_end_char_exec(v: &Vec<char>, c: char) -> (r: Vec<char>)
    ensures
        r@ == trim_end_char(v@, c),
{
    let n = v.len();
    let mut b: usize = n;
    while b > 0 && v[b - 1] == c
        invariant
            b <= n == v@.len(),
            forall|j: int| b <= j < n ==> #[trigger] v@[j] == c,
        decreases b,
    {
        b -= 1;
    }
    proof {
        lemma_trim_end_char_skip(v@, c, b as int);
        if b > 0 {
            assert(v@.subrange(0, b as int).last() == v@[b - 1]);
        }
    }
    subvec(v, 0, b)
}

/// `str::trim_matches(c)` on characters.
pub fn trim_char_exec(v: &Vec<char>, c: char) -> (r: Vec<char>)
    ensures
        r@ == trim_char(v@, c),
{
    let a = trim_start_char_exec(v, c);
    trim_end_char_exec(&a, c)
}

/// The characters of `a` followed by those of `b`, as a `String`.
pub fn cat(a: &str, b: &str) -> (r: String)
    ensures
        r@ == a@ + b@,
{
    let x = to_chars(a);
    let y = to_chars(b);
    string_of(append_chars(&x, &y).as_slice())
}

/// An owned copy of a string slice.
pub fn owned(s: &str) -> (r: String)
    ensures
        r@ == s@,
{
    string_of(to_chars(s).as_slice())
}


// ---------------------------------------------------------------------------
// Lines written back
// ---------------------------------------------------------------------------

/// Each line with one trailing carriage return dropped.
pub open spec fn strip_all(ls: Seq<Seq<char>>) -> Seq<Seq<char>> {
    Seq::new(ls.len(), |i: int| strip_cr(ls[i]))
}

/// No line holds a newline.
pub open spec fn no_newlines(ls: Seq<Seq<char>>) -> bool {
    forall|i: int| 0 <= i < ls.len() ==> !(#[trigger] ls[i]).contains('\n')
}

pub proof fn lemma_join_front(ls: Seq<Seq<char>>, sep: Seq<char>)
    requires
        ls.len() >= 2,
    ensures
        join(ls, sep) == ls[0] + sep + join(ls.drop_first(), sep),
    decreases ls.len(),
{
    if ls.len() == 2 {
        assert(ls.drop_last().len() == 1);
        assert(ls.drop_first().len() == 1);
        assert(join(ls.drop_last(), sep) == ls[0]);
        assert(join(ls.drop_first(), sep) == ls[1]);
        assert(join(ls, sep) =~= ls[0] + sep + join(ls.drop_first(), sep));
    } else {
        lemma_join_front(ls.drop_last(), sep);
        assert(ls.drop_last().drop_first() =~= ls.drop_first().drop_last());
        assert(ls.drop_first().last() == ls.last());
        assert(join(ls.drop_first(), sep) == join(ls.drop_first().drop_last(), sep) + sep
            + ls.drop_first().last());
        assert(join(ls, sep) =~= ls[0] + sep + join(ls.drop_first(), sep));
    }
}

proof fn lemma_find_from_shift(p: Seq<char>, q: Seq<char>, c: char, k: int)
    requires
        0 <= k <= q.len(),
    ensures
        find_from(p + q, c, p.len() + k) == p.len() + find_from(q, c, k),
    decreases q.len() - k,
{
    if k < q.len() {
        assert((p + q)[p.len() + k] == q[k]);
        if q[k] != c {
            lemma_find_from_shift(p, q, c, k + 1);
        }
    }
}

proof fn lemma_lines_from_shift(p: Seq<char>, q: Seq<char>, k: int)
    requires
        0 <= k <= q.len(),
    ensures
        lines_from(p + q, p.len() + k) == lines_from(q, k),
    decreases q.len() - k,
{
    if k < q.len() {
        let s = p + q;
        lemma_find_from_shift(p, q, '\n', k);
        lemma_find_from_bounds(q, '\n', k);
        let e = find_from(q, '\n', k);
        if e < q.len() {
            lemma_lines_from_shift(p, q, e + 1);
            assert(s.subrange(p.len() + k, p.len() + e) =~= q.subrange(k, e));
        } else {
            assert(s.subrange(p.len() + k, s.len() as int) =~= q.subrange(k, q.len() as int));
        }
    }
}

/// The first newline of `x + "\n" + rest` is right after `x` when `x` has none.
proof fn lemma_first_newline(x: Seq<char>, rest: Seq<char>)
    requires
        !x.contains('\n'),
    ensures
        find_from(x + seq!['\n'] + rest, '\n', 0) == x.len(),
{
    let s = x + seq!['\n'] + rest;
    lemma_find_from_bounds(s, '\n', 0);
    let f = find_from(s, '\n', 0);
    assert(s[x.len() as int] == '\n');
    if f < x.len() {
        assert(s[f] == x[f]);
        assert(x.contains(x[f]));
    }
}

/// Splitting lines joined with newlines, each followed by one, gives the
/// lines back, less one trailing carriage return each.
pub proof fn lemma_lines_render(ls: Seq<Seq<char>>)
    requires
        ls.len() > 0,
        no_newlines(ls),
    ensures
        lines(join(ls, seq!['\n']) + seq!['\n']) == strip_all(ls),
    decreases ls.len(),
{
    let nl = seq!['\n'];
    let x = ls[0];
    assert(!x.contains('\n'));
    if ls.len() == 1 {
        let s = join(ls, nl) + nl;
        assert(s =~= x + nl + Seq::<char>::empty());
        lemma_first_newline(x, Seq::<char>::empty());
        assert(s.subrange(0, x.len() as int) =~= x);
        assert(find_from(s, '\n', 0) == x.len());
        assert(lines_from(s, x.len() + 1int) == Seq::<Seq<char>>::empty());
        assert(lines(s) == seq![strip_cr(x)] + lines_from(s, x.len() + 1int));
        assert(lines(s) =~= strip_all(ls));
    } else {
        let rest = ls.drop_first();
        lemma_join_front(ls, nl);
        let q = join(rest, nl) + nl;
        let s = join(ls, nl) + nl;
        assert(s =~= x + nl + q);
        assert(no_newlines(rest)) by {
            assert forall|i: int| 0 <= i < rest.len() implies !(#[trigger] rest[i]).contains('\n') by {
                assert(rest[i] == ls[i + 1]);
            }
        }
        lemma_lines_render(rest);
        lemma_first_newline(x, q);
        assert(s.subrange(0, x.len() as int) =~= x);
        lemma_lines_from_shift(x + nl, q, 0);
        assert((x + nl) + q =~= s);
        assert(lines(s) == seq![strip_cr(x)] + lines_from(s, x.len() + 1int));
        assert(lines(s) =~= strip_all(ls));
    }
}

/// Where the first `c` at or after `k` lies in `p + q`: in `p` when `p` has
/// one there, else in `q`.
pub proof fn lemma_find_from_prefix(p: Seq<char>, q: Seq<char>, c: char, k: int)
    requires
        0 <= k <= p.len(),
    ensures
        find_from(p + q, c, k) == if find_from(p, c, k) < p.len() {
            find_from(p, c, k)
        } else {
            p.len() + find_from(q, c, 0)
        },
    decreases p.len() - k,
{
    if k == p.len() {
        lemma_find_from_shift(p, q, c, 0);
    } else {
        assert((p + q)[k] == p[k]);
        if p[k] != c {
            lemma_find_from_prefix(p, q, c, k + 1);
        }
    }
}

/// The lines of `p + q`, where `p` ends with a newline, are those of `p`
/// then those of `q`.
pub proof fn lemma_lines_concat(p: Seq<char>, q: Seq<char>, k: int)
    requires
        p.len() > 0,
        p.last() == '\n',
        0 <= k <= p.len(),
    ensures
        lines_from(p + q, k) == lines_from(p, k) + lines(q),
    decreases p.len() - k,
{
    if k == p.len() {
        lemma_lines_from_shift(p, q, 0);
        assert(lines_from(p, k) =~= Seq::<Seq<char>>::empty());
        assert(lines_from(p + q, k) =~= lines_from(p, k) + lines(q));
    } else {
        lemma_find_from_bounds(p, '\n', k);
        let f = find_from(p, '\n', k);
        assert(f < p.len()) by {
            if f == p.len() {
                assert(p[p.len() - 1] != '\n');
            }
        }
        lemma_find_from_prefix(p, q, '\n', k);
        lemma_lines_concat(p, q, f + 1);
        assert((p + q).subrange(k, f) =~= p.subrange(k, f));
        assert(lines_from(p + q, k) =~= lines_from(p, k) + lines(q));
    }
}

/// No line that `str::lines` yields holds a newline.
pub proof fn lemma_lines_no_newlines(s: Seq<char>, k: int)
    requires
        0 <= k,
    ensures
        no_newlines(lines_from(s, k)),
    decreases s.len() - k,
{
    if k < s.len() {
        lemma_find_from_bounds(s, '\n', k);
        let e = find_from(s, '\n', k);
        if e < s.len() {
            lemma_lines_no_newlines(s, e + 1);
            let l = strip_cr(s.subrange(k, e));
            assert(!l.contains('\n')) by {
                if l.contains('\n') {
                    let j = choose|j: int| 0 <= j < l.len() && l[j] == '\n';
                    assert(l[j] == s[k + j]);
                }
            }
            let r = lines_from(s, k);
            assert forall|i: int| 0 <= i < r.len() implies !(#[trigger] r[i]).contains('\n') by {
                if i > 0 {
                    assert(r[i] == lines_from(s, e + 1)[i - 1]);
                }
            }
        } else {
            let l = s.subrange(k, s.len() as int);
            assert(!l.contains('\n')) by {
                if l.contains('\n') {
                    let j = choose|j: int| 0 <= j < l.len() && l[j] == '\n';
                    assert(l[j] == s[k + j]);
                }
            }
            assert(lines_from(s, k) =~= seq![l]);
        }
    }
}

proof fn lemma_trim_start_push(m: Seq<char>, c: char)
    requires
        is_ws(c),
    ensures
        trim_start(m.push(c)) == (if trim_start(m).len() == 0 {
            Seq::<char>::empty()
        } else {
            trim_start(m).push(c)
        }),
    decreases m.len(),
{
    if m.len() == 0 {
        assert(m.push(c).drop_first() =~= Seq::<char>::empty());
        assert(trim_start(Seq::<char>::empty()) == Seq::<char>::empty());
    } else if is_ws(m[0]) {
        assert(m.push(c).drop_first() =~= m.drop_first().push(c));
        lemma_trim_start_push(m.drop_first(), c);
    }
}

/// Trimming ignores one trailing carriage return.
pub proof fn lemma_trim_strip_cr(l: Seq<char>)
    ensures
        trim(strip_cr(l)) == trim(l),
{
    if l.len() > 0 && l.last() == '\r' {
        let m = l.drop_last();
        assert(l =~= m.push('\r'));
        assert(is_ws('\r'));
        lemma_trim_start_push(m, '\r');
        let t = trim_start(m);
        if t.len() > 0 {
            assert(t.push('\r').drop_last() =~= t);
        }
    }
}

// ---------------------------------------------------------------------------
// Membership
// ---------------------------------------------------------------------------

pub proof fn lemma_take_contains<A>(s: Seq<A>, i: int, x: A)
    requires
        0 <= i < s.len(),
    ensures
        s.take(i + 1).contains(x) <==> (s.take(i).contains(x) || s[i] == x),
{
    if s.take(i + 1).contains(x) {
        let m = choose|m: int| 0 <= m < i + 1 && #[trigger] s.take(i + 1)[m] == x;
        if m < i {
            assert(s.take(i)[m] == x);
        }
    }
    if s.take(i).contains(x) {
        let m = choose|m: int| 0 <= m < i && #[trigger] s.take(i)[m] == x;
        assert(s.take(i + 1)[m] == x);
    }
    if s[i] == x {
        assert(s.take(i + 1)[i] == x);
    }
}

pub proof fn lemma_push_contains<A>(s: Seq<A>, y: A, x: A)
    ensures
        s.push(y).contains(x) <==> (s.contains(x) || x == y),
{
    if s.push(y).contains(x) {
        let m = choose|m: int| 0 <= m < s.len() + 1 && #[trigger] s.push(y)[m] == x;
        if m < s.len() {
            assert(s[m] == x);
        }
    }
    if s.contains(x) {
        let m = choose|m: int| 0 <= m < s.len() && #[trigger] s[m] == x;
        assert(s.push(y)[m] == x);
    }
    if x == y {
        assert(s.push(y)[s.len() as int] == x);
    }
}

pub proof fn lemma_take_full<A>(s: Seq<A>)
    ensures
        s.take(s.len() as int) == s,
{
    assert(s.take(s.len() as int) =~= s);
}


// ---------------------------------------------------------------------------
// UTF-8
// ---------------------------------------------------------------------------

/// `String::from_utf8`: `Some` exactly when the bytes are well-formed UTF-8,
/// holding the characters they encode.
#[verifier::external_body]
pub fn utf8_string(bytes: &[u8]) -> (r: Option<String>)
    ensures
        r is Some <==> vstd::utf8::valid_utf8(bytes@),
        r matches Some(s) ==> s@ == vstd::utf8::decode_utf8(bytes@),
{
    String::from_utf8(bytes.to_vec()).ok()
}

} // verus!
