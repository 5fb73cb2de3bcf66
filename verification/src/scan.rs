//! Character-level scanning primitives shared by the parser, the email
//! check and the truncator: whitespace classification, first-occurrence
//! search, trimming, and splitting on a separator character.

use vstd::prelude::*;

verus! {

/// The whitespace characters that trimming removes: the ASCII whitespace set.
pub open spec fn is_space(c: char) -> bool {
    c == ' ' || c == '\t' || c == '\n' || c == '\r' || c == '\x0b' || c == '\x0c'
}

/// Index of the first occurrence of `c` in `s`, or `s.len()` when `c` does
/// not occur.
pub open spec fn find_index(s: Seq<char>, c: char) -> nat
    decreases s.len(),
{
    if s.len() == 0 {
        0
    } else if s[0] == c {
        0
    } else {
        (1 + find_index(s.drop_first(), c)) as nat
    }
}

/// Any position that is preceded only by non-`c` characters and either sits
/// on a `c` or at the end of `s` is exactly `find_index(s, c)`.
pub proof fn lemma_find_index_at(s: Seq<char>, c: char, i: int)
    requires
        0 <= i <= s.len(),
        forall|j: int| 0 <= j < i ==> s[j] != c,
        i < s.len() ==> s[i] == c,
    ensures
        find_index(s, c) == i,
    decreases s.len(),
{
    if i == 0 {
    } else {
        assert(s[0] != c);
        assert forall|j: int| 0 <= j < i - 1 implies s.drop_first()[j] != c by {
            assert(s.drop_first()[j] == s[j + 1]);
        }
        assert(i - 1 < s.drop_first().len() ==> s.drop_first()[i - 1] == s[i]);
        lemma_find_index_at(s.drop_first(), c, i - 1);
    }
}

/// The segments of `s` between occurrences of `c`, in order. There is always
/// exactly one more segment than there are occurrences of `c`; segments are
/// empty where two occurrences are adjacent or one sits at an end of `s`.
pub open spec fn split_on(s: Seq<char>, c: char) -> Seq<Seq<char>>
    decreases s.len(),
{
    let i = find_index(s, c) as int;
    if i >= s.len() {
        seq![s]
    } else {
        seq![s.take(i)] + split_on(s.skip(i + 1), c)
    }
}

/// `s` with leading whitespace removed.
pub open spec fn trim_start_spec(s: Seq<char>) -> Seq<char>
    decreases s.len(),
{
    if s.len() > 0 && is_space(s[0]) {
        trim_start_spec(s.drop_first())
    } else {
        s
    }
}

/// `s` with trailing whitespace removed.
pub open spec fn trim_end_spec(s: Seq<char>) -> Seq<char>
    decreases s.len(),
{
    if s.len() > 0 && is_space(s.last()) {
        trim_end_spec(s.drop_last())
    } else {
        s
    }
}

/// `s` with leading and trailing whitespace removed.
pub open spec fn trim_spec(s: Seq<char>) -> Seq<char> {
    trim_end_spec(trim_start_spec(s))
}

/// If everything before `lo` is whitespace and `lo` is not (or is the end),
/// trimming the start yields the suffix from `lo`.
proof fn lemma_trim_start_at(s: Seq<char>, lo: int)
    requires
        0 <= lo <= s.len(),
        forall|j: int| 0 <= j < lo ==> is_space(s[j]),
        lo < s.len() ==> !is_space(s[lo]),
    ensures
        trim_start_spec(s) == s.skip(lo),
    decreases lo,
{
    if lo == 0 {
        assert(s.skip(0) =~= s);
    } else {
        assert(is_space(s[0]));
        assert forall|j: int| 0 <= j < lo - 1 implies is_space(s.drop_first()[j]) by {
            assert(s.drop_first()[j] == s[j + 1]);
        }
        lemma_trim_start_at(s.drop_first(), lo - 1);
        assert(s.drop_first().skip(lo - 1) =~= s.skip(lo));
    }
}

/// If everything from `hi` on is whitespace and the character before `hi`
/// is not (or `hi` is 0), trimming the end yields the prefix up to `hi`.
proof fn lemma_trim_end_at(s: Seq<char>, hi: int)
    requires
        0 <= hi <= s.len(),
        forall|j: int| hi <= j < s.len() ==> is_space(s[j]),
        hi > 0 ==> !is_space(s[hi - 1]),
    ensures
        trim_end_spec(s) == s.take(hi),
    decreases s.len() - hi,
{
    if hi == s.len() {
        if s.len() > 0 {
            assert(!is_space(s.last()));
        }
        assert(s.take(hi) =~= s);
    } else {
        assert(is_space(s.last()));
        lemma_trim_end_at(s.drop_last(), hi);
        assert(s.drop_last().take(hi) =~= s.take(hi));
    }
}

/// The `Seq<char>` views of a sequence of owned strings.
pub open spec fn views_of(v: Seq<String>) -> Seq<Seq<char>> {
    v.map_values(|t: String| t@)
}

/// True exactly when `c` is a whitespace character in the sense of `is_space`.
pub fn is_space_char(c: char) -> (r: bool)
    ensures
        r == is_space(c),
{
    c == ' ' || c == '\t' || c == '\n' || c == '\r' || c == '\x0b' || c == '\x0c'
}

/// The first position at or after `from` at which `c` occurs in `s`, or the
/// character length of `s` when `c` does not occur there.
pub fn find_char_from(s: &str, from: usize, c: char) -> (r: usize)
    requires
        from <= s@.len(),
    ensures
        from <= r <= s@.len(),
        r < s@.len() ==> s@[r as int] == c,
        forall|j: int| from <= j < r ==> s@[j] != c,
{
    let n = s.unicode_len();
    let mut i = from;
    while i < n
        invariant
            from <= i <= n,
            n == s@.len(),
            forall|j: int| from <= j < i ==> s@[j] != c,
        decreases n - i,
    {
        if s.get_char(i) == c {
            return i;
        }
        i += 1;
    }
    i
}

/// Character-for-character equality of two string slices.
pub fn str_eq(a: &str, b: &str) -> (r: bool)
    ensures
        r == (a@ == b@),
{
    let na = a.unicode_len();
    let nb = b.unicode_len();
    if na != nb {
        return false;
    }
    let mut i: usize = 0;
    while i < na
        invariant
            na == a@.len(),
            na == b@.len(),
            i <= na,
            forall|j: int| 0 <= j < i ==> a@[j] == b@[j],
        decreases na - i,
    {
        if a.get_char(i) != b.get_char(i) {
            return false;
        }
        i += 1;
    }
    proof {
        assert(a@ =~= b@);
    }
    true
}

/// A slice of `s` holding its content with surrounding whitespace removed.
pub fn trim_str<'a>(s: &'a str) -> (r: &'a str)
    ensures
        r@ == trim_spec(s@),
{
    let n = s.unicode_len();
    let mut lo: usize = 0;
    while lo < n && is_space_char(s.get_char(lo))
        invariant
            lo <= n,
            n == s@.len(),
            forall|j: int| 0 <= j < lo ==> is_space(s@[j]),
        decreases n - lo,
    {
        lo += 1;
    }
    let mut hi: usize = n;
    while hi > lo && is_space_char(s.get_char(hi - 1))
        invariant
            lo <= hi <= n,
            n == s@.len(),
            forall|j: int| hi <= j < n ==> is_space(s@[j]),
        decreases hi,
    {
        hi -= 1;
    }
    proof {
        lemma_trim_start_at(s@, lo as int);
        let u = s@.skip(lo as int);
        assert forall|j: int| (hi - lo) <= j < u.len() implies is_space(u[j]) by {
            assert(u[j] == s@[j + lo]);
        }
        if hi > lo {
            assert(u[hi - lo - 1] == s@[hi - 1]);
        }
        lemma_trim_end_at(u, hi - lo);
        assert(u.take(hi - lo) =~= s@.subrange(lo as int, hi as int));
    }
    s.substring_char(lo, hi)
}

/// The segments of `s` between occurrences of `c`, as owned strings.
pub fn split_on_char(s: &str, c: char) -> (r: Vec<String>)
    ensures
        views_of(r@) == split_on(s@, c),
{
    let n = s.unicode_len();
    let mut out: Vec<String> = Vec::new();
    let mut pos: usize = 0;
    let mut e = find_char_from(s, 0, c);
    proof {
        assert(s@.skip(0) =~= s@);
        assert(views_of(out@) =~= Seq::<Seq<char>>::empty());
        assert(views_of(out@) + split_on(s@.skip(0), c) =~= split_on(s@, c));
    }
    while e < n
        invariant
            n == s@.len(),
            pos <= e <= n,
            e < n ==> s@[e as int] == c,
            forall|j: int| pos <= j < e ==> s@[j] != c,
            split_on(s@, c) == views_of(out@) + split_on(s@.skip(pos as int), c),
        decreases n - e,
    {
        let seg = s.substring_char(pos, e);
        let ghost prev = out@;
        out.push(seg.to_owned());
        proof {
            let u = s@.skip(pos as int);
            assert forall|j: int| 0 <= j < e - pos implies u[j] != c by {
                assert(u[j] == s@[j + pos]);
            }
            assert(u[e - pos] == s@[e as int]);
            lemma_find_index_at(u, c, e - pos);
            assert(split_on(u, c) == seq![u.take(e - pos)] + split_on(u.skip(e - pos + 1), c));
            assert(u.take(e - pos) =~= s@.subrange(pos as int, e as int));
            assert(u.skip(e - pos + 1) =~= s@.skip(e + 1));
            assert(views_of(out@) =~= views_of(prev).push(seg@));
            assert(views_of(prev) + (seq![u.take(e - pos)] + split_on(u.skip(e - pos + 1), c))
                =~= views_of(out@) + split_on(s@.skip(e + 1), c));
        }
        pos = e + 1;
        e = find_char_from(s, pos, c);
    }
    let seg = s.substring_char(pos, n);
    let ghost prev = out@;
    out.push(seg.to_owned());
    proof {
        let u = s@.skip(pos as int);
        assert forall|j: int| 0 <= j < u.len() implies u[j] != c by {
            assert(u[j] == s@[j + pos]);
        }
        lemma_find_index_at(u, c, u.len() as int);
        assert(split_on(u, c) == seq![u]);
        assert(seg@ =~= u);
        assert(views_of(out@) =~= views_of(prev).push(seg@));
        assert(views_of(prev) + seq![u] =~= views_of(out@));
    }
    out
}

} // verus!
