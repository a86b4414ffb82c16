//! Character-level text operations with their specifications.
//!
//! Strings are handled through their view, a `Seq<char>`. The operations here
//! mirror what `str::split_once`, `str::split`, `str::contains` and `str::trim`
//! do, stated as spec functions and implemented on `Vec<char>`.

use vstd::prelude::*;

verus! {

/// The index of the first occurrence of `pat` in `s` at or after `i`.
pub open spec fn find_from(s: Seq<char>, pat: Seq<char>, i: int) -> Option<int>
    decreases s.len() + 1 - i,
{
    if i < 0 || i + pat.len() > s.len() {
        None
    } else if s.subrange(i, i + pat.len()) == pat {
        Some(i)
    } else {
        find_from(s, pat, i + 1)
    }
}

/// The index of the first (leftmost) occurrence of `pat` in `s`.
pub open spec fn find(s: Seq<char>, pat: Seq<char>) -> Option<int> {
    find_from(s, pat, 0)
}

/// Whether `pat` occurs in `s`.
pub open spec fn contains(s: Seq<char>, pat: Seq<char>) -> bool {
    find(s, pat) is Some
}

/// `s` split around the first occurrence of `pat`, as `str::split_once` does.
pub open spec fn split_once(s: Seq<char>, pat: Seq<char>) -> Option<(Seq<char>, Seq<char>)> {
    match find(s, pat) {
        Some(i) => Some((s.take(i), s.skip(i + pat.len()))),
        None => None,
    }
}

/// The pieces of `s` between the successive non-overlapping leftmost
/// occurrences of a non-empty `pat`, as `str::split` yields them.
pub open spec fn split_all(s: Seq<char>, pat: Seq<char>) -> Seq<Seq<char>>
    decreases s.len(),
{
    if pat.len() == 0 {
        seq![s]
    } else {
        match find(s, pat) {
            Some(i) => if 0 <= i && i + pat.len() <= s.len() {
                seq![s.take(i)] + split_all(s.skip(i + pat.len()), pat)
            } else {
                seq![s]
            },
            None => seq![s],
        }
    }
}

/// The Unicode `White_Space` characters, which `str::trim` removes.
pub open spec fn is_white_space(c: char) -> bool {
    let u = c as u32;
    (0x09 <= u && u <= 0x0d) || u == 0x20 || u == 0x85 || u == 0xa0 || u == 0x1680 || (0x2000
        <= u && u <= 0x200a) || u == 0x2028 || u == 0x2029 || u == 0x202f || u == 0x205f || u
        == 0x3000
}

/// `s` without its leading white space.
pub open spec fn trim_start(s: Seq<char>) -> Seq<char>
    decreases s.len(),
{
    if s.len() > 0 && is_white_space(s[0]) {
        trim_start(s.drop_first())
    } else {
        s
    }
}

/// `s` without its trailing white space.
pub open spec fn trim_end(s: Seq<char>) -> Seq<char>
    decreases s.len(),
{
    if s.len() > 0 && is_white_space(s.last()) {
        trim_end(s.drop_last())
    } else {
        s
    }
}

/// `s` without leading and trailing white space, as `str::trim` gives it.
pub open spec fn trim(s: Seq<char>) -> Seq<char> {
    trim_end(trim_start(s))
}

/// Lexicographic order on character sequences by code point; it is the order
/// of `String`s, since UTF-8 keeps the order of code points.
pub open spec fn text_lt(a: Seq<char>, b: Seq<char>) -> bool
    decreases a.len(),
{
    if a.len() == 0 {
        b.len() > 0
    } else if b.len() == 0 {
        false
    } else if a[0] == b[0] {
        text_lt(a.drop_first(), b.drop_first())
    } else {
        (a[0] as u32) < (b[0] as u32)
    }
}

// ---------------------------------------------------------------------------
// Lemmas
// ---------------------------------------------------------------------------

pub proof fn lemma_find_from_bounds(s: Seq<char>, pat: Seq<char>, i: int)
    ensures
        find_from(s, pat, i) matches Some(k) ==> {
            &&& i <= k
            &&& 0 <= k
            &&& k + pat.len() <= s.len()
            &&& s.subrange(k, k + pat.len()) == pat
        },
        find_from(s, pat, i) matches Some(k) ==> forall|j: int|
            i <= j < k ==> #[trigger] s.subrange(j, j + pat.len()) != pat,
        (find_from(s, pat, i) is None && 0 <= i) ==> forall|j: int|
            i <= j && j + pat.len() <= s.len() ==> #[trigger] s.subrange(j, j + pat.len()) != pat,
    decreases s.len() + 1 - i,
{
    if i < 0 || i + pat.len() > s.len() {
    } else if s.subrange(i, i + pat.len()) == pat {
    } else {
        lemma_find_from_bounds(s, pat, i + 1);
    }
}

/// A first occurrence is characterised by matching there and nowhere before.
pub proof fn lemma_find_from_is(s: Seq<char>, pat: Seq<char>, i: int, k: int)
    requires
        0 <= i <= k,
        k + pat.len() <= s.len(),
        s.subrange(k, k + pat.len()) == pat,
        forall|j: int| i <= j < k ==> #[trigger] s.subrange(j, j + pat.len()) != pat,
    ensures
        find_from(s, pat, i) == Some(k),
    decreases k - i,
{
    if i < k {
        assert(s.subrange(i, i + pat.len()) != pat);
        lemma_find_from_is(s, pat, i + 1, k);
    }
}

/// No occurrence from `i` on means `find_from` gives `None`.
pub proof fn lemma_find_from_none(s: Seq<char>, pat: Seq<char>, i: int)
    requires
        0 <= i,
        forall|j: int| i <= j && j + pat.len() <= s.len() ==> #[trigger] s.subrange(j, j + pat.len()) != pat,
    ensures
        find_from(s, pat, i) is None,
    decreases s.len() + 1 - i,
{
    if i + pat.len() > s.len() {
    } else {
        assert(s.subrange(i, i + pat.len()) != pat);
        lemma_find_from_none(s, pat, i + 1);
    }
}

pub proof fn lemma_find_bounds(s: Seq<char>, pat: Seq<char>)
    ensures
        find(s, pat) matches Some(k) ==> {
            &&& 0 <= k
            &&& k + pat.len() <= s.len()
            &&& s.subrange(k, k + pat.len()) == pat
            &&& forall|j: int| 0 <= j < k ==> #[trigger] s.subrange(j, j + pat.len()) != pat
        },
        find(s, pat) is None ==> forall|j: int|
            0 <= j && j + pat.len() <= s.len() ==> #[trigger] s.subrange(j, j + pat.len()) != pat,
{
    lemma_find_from_bounds(s, pat, 0);
}

/// Appending text after an occurrence does not move the first occurrence.
pub proof fn lemma_find_append(s: Seq<char>, pat: Seq<char>, x: Seq<char>)
    requires
        find(s, pat) is Some,
    ensures
        find(s + x, pat) == find(s, pat),
{
    lemma_find_bounds(s, pat);
    let k = find(s, pat)->0;
    let t = s + x;
    assert(t.subrange(k, k + pat.len()) =~= s.subrange(k, k + pat.len()));
    assert forall|j: int| 0 <= j < k implies #[trigger] t.subrange(j, j + pat.len()) != pat by {
        assert(t.subrange(j, j + pat.len()) =~= s.subrange(j, j + pat.len()));
    }
    lemma_find_from_is(t, pat, 0, k);
}

pub proof fn lemma_text_lt_irreflexive(a: Seq<char>)
    ensures
        !text_lt(a, a),
    decreases a.len(),
{
    if a.len() > 0 {
        lemma_text_lt_irreflexive(a.drop_first());
    }
}

pub proof fn lemma_text_lt_total(a: Seq<char>, b: Seq<char>)
    ensures
        a != b ==> text_lt(a, b) || text_lt(b, a),
        !(text_lt(a, b) && text_lt(b, a)),
    decreases a.len(),
{
    if a.len() > 0 && b.len() > 0 {
        lemma_text_lt_total(a.drop_first(), b.drop_first());
        if a[0] == b[0] {
            if a != b {
                assert(a =~= seq![a[0]] + a.drop_first());
                assert(b =~= seq![b[0]] + b.drop_first());
            }
        } else {
            vstd::utf8::char_u32_cast(a[0], a[0] as u32);
            vstd::utf8::char_u32_cast(b[0], b[0] as u32);
            assert((a[0] as u32) != (b[0] as u32));
        }
    } else if a.len() == 0 && b.len() == 0 {
        assert(a =~= b);
    }
}

pub proof fn lemma_text_lt_transitive(a: Seq<char>, b: Seq<char>, c: Seq<char>)
    requires
        text_lt(a, b),
        text_lt(b, c),
    ensures
        text_lt(a, c),
    decreases a.len(),
{
    if a.len() > 0 && b.len() > 0 && c.len() > 0 {
        if a[0] == b[0] && b[0] == c[0] {
            lemma_text_lt_transitive(a.drop_first(), b.drop_first(), c.drop_first());
        }
    }
}

/// A pattern whose first character does not occur in `s` is not found in it.
pub proof fn lemma_find_absent_first(s: Seq<char>, pat: Seq<char>)
    requires
        pat.len() > 0,
        forall|i: int| 0 <= i < s.len() ==> s[i] != pat[0],
    ensures
        find(s, pat) is None,
{
    assert forall|j: int| 0 <= j && j + pat.len() <= s.len() implies #[trigger] s.subrange(
        j,
        j + pat.len(),
    ) != pat by {
        assert(s.subrange(j, j + pat.len())[0] == s[j]);
    }
    lemma_find_from_none(s, pat, 0);
}

/// Text without white space at either end is its own trim.
pub proof fn lemma_trim_unchanged(s: Seq<char>)
    requires
        s.len() > 0 ==> !is_white_space(s[0]) && !is_white_space(s.last()),
    ensures
        trim(s) == s,
{
}

/// At the first position where two texts differ, the one with the smaller
/// code point there comes first, as it does among `String`s.
pub proof fn lemma_text_lt_first_difference(a: Seq<char>, b: Seq<char>, i: int)
    requires
        0 <= i < a.len(),
        i < b.len(),
        a.take(i) == b.take(i),
        a[i] != b[i],
    ensures
        text_lt(a, b) <==> (a[i] as u32) < (b[i] as u32),
    decreases i,
{
    if i > 0 {
        assert(a[0] == a.take(i)[0]);
        assert(b[0] == b.take(i)[0]);
        assert(a.drop_first().take(i - 1) =~= a.take(i).drop_first());
        assert(b.drop_first().take(i - 1) =~= b.take(i).drop_first());
        lemma_text_lt_first_difference(a.drop_first(), b.drop_first(), i - 1);
    }
}

/// A text comes before every longer text that it begins.
pub proof fn lemma_text_lt_prefix(a: Seq<char>, b: Seq<char>)
    requires
        a.len() < b.len(),
        b.take(a.len() as int) == a,
    ensures
        text_lt(a, b),
    decreases a.len(),
{
    if a.len() > 0 {
        assert(b[0] == b.take(a.len() as int)[0]);
        assert(b.drop_first().take(a.len() - 1) =~= b.take(a.len() as int).drop_first());
        lemma_text_lt_prefix(a.drop_first(), b.drop_first());
    }
}

// ---------------------------------------------------------------------------
// Executable operations
// ---------------------------------------------------------------------------

/// The characters of `s`, in order.
pub fn chars_of(s: &str) -> (v: Vec<char>)
    ensures
        v@ == s@,
{
    let mut v: Vec<char> = Vec::new();
    for c in it: s.chars()
        invariant
            v@ == it.seq().take(it.index() as int),
    {
        v.push(c);
    }
    v
}

/// The characters `s[from..to]`.
pub fn slice_chars(s: &Vec<char>, from: usize, to: usize) -> (v: Vec<char>)
    requires
        from <= to <= s.len(),
    ensures
        v@ == s@.subrange(from as int, to as int),
{
    let mut v: Vec<char> = Vec::new();
    let mut i = from;
    while i < to
        invariant
            from <= i <= to <= s.len(),
            v@ == s@.subrange(from as int, i as int),
        decreases to - i,
    {
        v.push(s[i]);
        i = i + 1;
    }
    v
}

/// Whether `s` holds `pat` at position `at`.
pub fn matches_at(s: &Vec<char>, pat: &Vec<char>, at: usize) -> (r: bool)
    requires
        at + pat.len() <= s.len(),
    ensures
        r == (s@.subrange(at as int, at + pat.len()) == pat@),
{
    let mut j: usize = 0;
    while j < pat.len()
        invariant
            j <= pat.len(),
            at + pat.len() <= s.len(),
            forall|k: int| 0 <= k < j ==> s@[at + k] == pat@[k],
        decreases pat.len() - j,
    {
        if s[at + j] != pat[j] {
            assert(s@.subrange(at as int, at + pat.len())[j as int] != pat@[j as int]);
            return false;
        }
        j = j + 1;
    }
    assert(s@.subrange(at as int, at + pat.len()) =~= pat@);
    true
}

/// The position of the first occurrence of `pat` in `s`.
pub fn find_chars(s: &Vec<char>, pat: &Vec<char>) -> (r: Option<usize>)
    ensures
        match r {
            Some(i) => find(s@, pat@) == Some(i as int),
            None => find(s@, pat@) is None,
        },
{
    if pat.len() > s.len() {
        return None;
    }
    let last = s.len() - pat.len();
    let mut i: usize = 0;
    while i < last
        invariant
            last + pat.len() == s.len(),
            i <= last,
            find(s@, pat@) == find_from(s@, pat@, i as int),
        decreases last - i,
    {
        if matches_at(s, pat, i) {
            return Some(i);
        }
        i = i + 1;
    }
    if matches_at(s, pat, last) {
        Some(last)
    } else {
        assert(find_from(s@, pat@, last + 1) is None);
        None
    }
}

/// Whether two character sequences are equal.
pub fn chars_eq(a: &Vec<char>, b: &Vec<char>) -> (r: bool)
    ensures
        r == (a@ == b@),
{
    if a.len() != b.len() {
        return false;
    }
    let r = matches_at(a, b, 0);
    assert(a@.subrange(0, a.len() as int) =~= a@);
    r
}

/// Whether `a` comes strictly before `b` in the order of strings.
pub fn chars_lt(a: &Vec<char>, b: &Vec<char>) -> (r: bool)
    ensures
        r == text_lt(a@, b@),
{
    let mut i: usize = 0;
    assert(a@.skip(0) =~= a@);
    assert(b@.skip(0) =~= b@);
    while i < a.len() && i < b.len()
        invariant
            i <= a.len(),
            i <= b.len(),
            text_lt(a@, b@) == text_lt(a@.skip(i as int), b@.skip(i as int)),
        decreases a.len() - i,
    {
        if a[i] != b[i] {
            return (a[i] as u32) < (b[i] as u32);
        }
        assert(a@.skip(i as int).drop_first() =~= a@.skip(i + 1));
        assert(b@.skip(i as int).drop_first() =~= b@.skip(i + 1));
        i = i + 1;
    }
    i < b.len()
}

/// Whether `c` is white space in the sense of `str::trim`.
pub fn char_is_white_space(c: char) -> (r: bool)
    ensures
        r == is_white_space(c),
{
    let u = c as u32;
    (0x09 <= u && u <= 0x0d) || u == 0x20 || u == 0x85 || u == 0xa0 || u == 0x1680 || (0x2000 <= u
        && u <= 0x200a) || u == 0x2028 || u == 0x2029 || u == 0x202f || u == 0x205f || u == 0x3000
}

/// The bounds `(a, b)` such that `s[a..b]` is `s` trimmed.
pub fn trim_bounds(s: &Vec<char>) -> (r: (usize, usize))
    ensures
        r.0 <= r.1 <= s.len(),
        s@.subrange(r.0 as int, r.1 as int) == trim(s@),
{
    let mut a: usize = 0;
    assert(s@.skip(0) =~= s@);
    while a < s.len() && char_is_white_space(s[a])
        invariant
            a <= s.len(),
            trim_start(s@) == trim_start(s@.skip(a as int)),
        decreases s.len() - a,
    {
        assert(s@.skip(a as int).drop_first() =~= s@.skip(a + 1));
        a = a + 1;
    }
    let mut b: usize = s.len();
    assert(trim_start(s@) == s@.subrange(a as int, b as int)) by {
        assert(s@.skip(a as int) =~= s@.subrange(a as int, b as int));
    }
    while b > a && char_is_white_space(s[b - 1])
        invariant
            a <= b <= s.len(),
            trim(s@) == trim_end(s@.subrange(a as int, b as int)),
        decreases b,
    {
        assert(s@.subrange(a as int, b as int).drop_last() =~= s@.subrange(a as int, b - 1));
        b = b - 1;
    }
    (a, b)
}

/// The pieces of `s` between the occurrences of the non-empty `pat`, as
/// `str::split` yields them.
pub fn split_pieces(s: &str, pat: &str) -> (r: Vec<String>)
    requires
        pat@.len() > 0,
    ensures
        r@.map_values(|t: String| t@) == split_all(s@, pat@),
{
    let all = chars_of(s);
    let p = chars_of(pat);
    let n = all.len();
    let mut rest = slice_chars(&all, 0, n);
    let mut pos: usize = 0;
    let mut out: Vec<String> = Vec::new();
    assert(rest@ =~= all@.subrange(0, n as int));
    assert(all@.subrange(0, n as int) =~= s@);
    loop
        invariant
            n == all.len(),
            all@ == s@,
            p@ == pat@,
            pat@.len() > 0,
            pos <= n,
            rest@ == all@.subrange(pos as int, n as int),
            split_all(s@, pat@) == out@.map_values(|t: String| t@) + split_all(rest@, pat@),
        decreases n - pos,
    {
        proof {
            lemma_find_bounds(rest@, p@);
        }
        match find_chars(&rest, &p) {
            None => {
                let piece = String::from_str(s.substring_char(pos, n));
                assert(split_all(rest@, pat@) =~= seq![rest@]);
                let ghost before = out@.map_values(|t: String| t@);
                out.push(piece);
                assert(out@.map_values(|t: String| t@) =~= before.push(piece@));
                return out;
            },
            Some(k) => {
                assert(k + p.len() <= rest.len());
                let piece = String::from_str(s.substring_char(pos, pos + k));
                assert(piece@ =~= rest@.take(k as int));
                let next = slice_chars(&rest, k + p.len(), rest.len());
                assert(next@ =~= rest@.skip(k + p.len()));
                assert(split_all(rest@, pat@) =~= seq![rest@.take(k as int)] + split_all(
                    next@,
                    pat@,
                ));
                let ghost before = out@.map_values(|t: String| t@);
                out.push(piece);
                assert(out@.map_values(|t: String| t@) =~= before.push(piece@));
                pos = pos + k + p.len();
                assert(next@ =~= all@.subrange(pos as int, n as int));
                rest = next;
            },
        }
    }
}

} // verus!
