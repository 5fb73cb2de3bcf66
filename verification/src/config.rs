//! Line-oriented `KEY=VALUE` configuration parsing.
//!
//! The input text is split into lines; each line is trimmed, blank lines and
//! `#` comments are skipped, and every remaining line must contain an `=`
//! whose left side trims to a non-empty key. Parsing is fail-fast: the first
//! offending line aborts the whole parse with an error carrying its 1-based
//! line number, and no partial map is returned. A duplicate key silently
//! overwrites the earlier value.

use vstd::pervasive::VecAdditionalExecFns;
use vstd::prelude::*;

use crate::scan::find_char_from;
use crate::scan::find_index;
use crate::scan::lemma_find_index_at;
use crate::scan::str_eq;
use crate::scan::trim_spec;
use crate::scan::trim_str;
use crate::scan::views_of;

verus! {

/// Why a parse failed; each variant carries the 1-based number of the
/// offending line.
#[derive(Clone, Copy, Debug, PartialEq, Eq, Structural)]
pub enum ParseError {
    /// A non-blank, non-comment line contains no `=` delimiter.
    MissingDelimiter { line: usize },
    /// The text before the first `=` trims to an empty key.
    EmptyKey { line: usize },
}

/// The mapping denoted by a sequence of key/value entries: entries are added
/// in order, so a later entry for the same key overwrites an earlier one.
pub open spec fn entries_map(s: Seq<(String, String)>) -> Map<Seq<char>, Seq<char>>
    decreases s.len(),
{
    if s.len() == 0 {
        Map::empty()
    } else {
        entries_map(s.drop_last()).insert(s.last().0@, s.last().1@)
    }
}

/// Pairwise distinctness of the stored keys.
pub open spec fn keys_unique(s: Seq<(String, String)>) -> bool {
    forall|i: int, j: int| 0 <= i < j < s.len() ==> s[i].0@ != s[j].0@
}

/// Every key of the denoted map comes from some stored entry.
proof fn lemma_entries_map_key_exists(s: Seq<(String, String)>, k: Seq<char>)
    requires
        entries_map(s).contains_key(k),
    ensures
        exists|i: int| 0 <= i < s.len() && s[i].0@ == k,
    decreases s.len(),
{
    if s.len() > 0 {
        if s.last().0@ == k {
            assert(s[s.len() - 1].0@ == k);
        } else {
            lemma_entries_map_key_exists(s.drop_last(), k);
            let i = choose|i: int| 0 <= i < s.drop_last().len() && s.drop_last()[i].0@ == k;
            assert(s[i].0@ == k);
        }
    }
}

/// An entry whose key recurs nowhere later determines the key's value in
/// the denoted map.
proof fn lemma_entries_map_value_at(s: Seq<(String, String)>, i: int)
    requires
        0 <= i < s.len(),
        forall|j: int| i < j < s.len() ==> s[j].0@ != s[i].0@,
    ensures
        entries_map(s).contains_key(s[i].0@),
        entries_map(s)[s[i].0@] == s[i].1@,
    decreases s.len(),
{
    if i == s.len() - 1 {
    } else {
        assert(s[s.len() - 1].0@ != s[i].0@);
        lemma_entries_map_value_at(s.drop_last(), i);
    }
}

/// With pairwise distinct keys, the denoted map is finite and has exactly
/// one key per entry.
proof fn lemma_entries_map_len(s: Seq<(String, String)>)
    requires
        keys_unique(s),
    ensures
        entries_map(s).dom().finite(),
        entries_map(s).len() == s.len(),
    decreases s.len(),
{
    broadcast use vstd::set::axiom_set_insert_len;

    if s.len() == 0 {
        assert(entries_map(s).dom() =~= Set::<Seq<char>>::empty());
    } else {
        lemma_entries_map_len(s.drop_last());
        let prev = entries_map(s.drop_last());
        if prev.contains_key(s.last().0@) {
            lemma_entries_map_key_exists(s.drop_last(), s.last().0@);
            let i = choose|i: int|
                0 <= i < s.drop_last().len() && s.drop_last()[i].0@ == s.last().0@;
            assert(s[i].0@ == s[s.len() - 1].0@);
            assert(false);
        }
        assert(entries_map(s).dom() =~= prev.dom().insert(s.last().0@));
    }
}

/// Overwriting the one entry that holds a key denotes inserting over it.
proof fn lemma_entries_map_update(s: Seq<(String, String)>, i: int, kv: (String, String))
    requires
        0 <= i < s.len(),
        s[i].0@ == kv.0@,
        forall|j: int| i < j < s.len() ==> s[j].0@ != kv.0@,
    ensures
        entries_map(s.update(i, kv)) == entries_map(s).insert(kv.0@, kv.1@),
    decreases s.len(),
{
    let su = s.update(i, kv);
    if i == s.len() - 1 {
        assert(su.drop_last() =~= s.drop_last());
        assert(su.last() == kv);
        assert(entries_map(s).insert(kv.0@, kv.1@) =~= entries_map(s.drop_last()).insert(
            kv.0@,
            kv.1@,
        ));
    } else {
        assert(su.drop_last() =~= s.drop_last().update(i, kv));
        assert(su.last() == s.last());
        lemma_entries_map_update(s.drop_last(), i, kv);
        assert(s.last().0@ != kv.0@);
        assert(entries_map(s.drop_last()).insert(kv.0@, kv.1@).insert(
            s.last().0@,
            s.last().1@,
        ) =~= entries_map(s.drop_last()).insert(s.last().0@, s.last().1@).insert(kv.0@, kv.1@));
    }
}

/// A key/value mapping produced by `parse_config`. It is modelled as a
/// `Map<Seq<char>, Seq<char>>` from key text to value text.
#[derive(Debug)]
pub struct ConfigMap {
    entries: Vec<(String, String)>,
}

impl View for ConfigMap {
    type V = Map<Seq<char>, Seq<char>>;

    closed spec fn view(&self) -> Map<Seq<char>, Seq<char>> {
        entries_map(self.entries@)
    }
}

impl ConfigMap {
    /// Well-formedness: the stored keys are pairwise distinct. Established
    /// by `new` and preserved by `insert`.
    pub closed spec fn wf(&self) -> bool {
        keys_unique(self.entries@)
    }

    /// An empty mapping.
    pub fn new() -> (r: ConfigMap)
        ensures
            r@ == Map::<Seq<char>, Seq<char>>::empty(),
            r.wf(),
    {
        ConfigMap { entries: Vec::new() }
    }

    /// The number of entries.
    pub fn len(&self) -> (n: usize)
        requires
            self.wf(),
        ensures
            n == self@.len(),
    {
        proof {
            lemma_entries_map_len(self.entries@);
        }
        self.entries.len()
    }

    /// The value stored for `key`, if any.
    pub fn get(&self, key: &str) -> (r: Option<&String>)
        requires
            self.wf(),
        ensures
            match r {
                Some(v) => self@.contains_key(key@) && v@ == self@[key@],
                None => !self@.contains_key(key@),
            },
    {
        let n = self.entries.len();
        let mut i: usize = 0;
        while i < n
            invariant
                n == self.entries@.len(),
                i <= n,
                keys_unique(self.entries@),
                forall|j: int| 0 <= j < i ==> self.entries@[j].0@ != key@,
            decreases n - i,
        {
            if str_eq(self.entries[i].0.as_str(), key) {
                proof {
                    lemma_entries_map_value_at(self.entries@, i as int);
                }
                return Some(&self.entries[i].1);
            }
            i += 1;
        }
        proof {
            if entries_map(self.entries@).contains_key(key@) {
                lemma_entries_map_key_exists(self.entries@, key@);
            }
        }
        None
    }

    /// True exactly when `key` has a value.
    pub fn contains_key(&self, key: &str) -> (r: bool)
        requires
            self.wf(),
        ensures
            r == self@.contains_key(key@),
    {
        self.get(key).is_some()
    }

    /// The entry at storage position `i`; positions `0 .. len()` cover the
    /// whole mapping, each key once.
    pub fn entry_at(&self, i: usize) -> (kv: (&String, &String))
        requires
            self.wf(),
            i < self@.len(),
        ensures
            self@.contains_key(kv.0@),
            self@[kv.0@] == kv.1@,
    {
        proof {
            lemma_entries_map_len(self.entries@);
            lemma_entries_map_value_at(self.entries@, i as int);
        }
        let e = &self.entries[i];
        (&e.0, &e.1)
    }

    /// Maps `key` to `value`, overwriting any earlier value for `key`.
    pub fn insert(&mut self, key: String, value: String)
        requires
            old(self).wf(),
        ensures
            final(self).wf(),
            final(self)@ == old(self)@.insert(key@, value@),
    {
        let n = self.entries.len();
        let mut i: usize = 0;
        while i < n
            invariant
                self == old(self),
                n == self.entries@.len(),
                i <= n,
                keys_unique(self.entries@),
                forall|j: int| 0 <= j < i ==> self.entries@[j].0@ != key@,
            decreases n - i,
        {
            if str_eq(self.entries[i].0.as_str(), key.as_str()) {
                proof {
                    lemma_entries_map_update(self.entries@, i as int, (key, value));
                    assert forall|p: int, q: int|
                        0 <= p < q < self.entries@.update(i as int, (key, value)).len() implies
                        self.entries@.update(i as int, (key, value))[p].0@ != self.entries@.update(
                        i as int,
                        (key, value),
                    )[q].0@ by {
                        let su = self.entries@.update(i as int, (key, value));
                        assert(self.entries@[i as int].0@ == key@);
                        if p != i && q != i {
                            assert(su[p] == self.entries@[p] && su[q] == self.entries@[q]);
                        }
                    }
                }
                self.entries.set(i, (key, value));
                return;
            }
            i += 1;
        }
        proof {
            if entries_map(self.entries@).contains_key(key@) {
                lemma_entries_map_key_exists(self.entries@, key@);
            }
            let sp = self.entries@.push((key, value));
            assert(sp.drop_last() =~= self.entries@);
            assert(sp.last() == (key, value));
            assert forall|p: int, q: int| 0 <= p < q < sp.len() implies sp[p].0@ != sp[q].0@ by {
                if q < sp.len() - 1 {
                    assert(sp[p] == self.entries@[p] && sp[q] == self.entries@[q]);
                } else {
                    assert(sp[p] == self.entries@[p]);
                }
            }
        }
        self.entries.push((key, value));
    }
}

/// The lines of `s`: segments between `\n` characters, with no final empty
/// line when `s` ends in `\n`. Carriage returns are left in place; trimming
/// removes them later, so `\r\n` line endings behave like plain `\n`.
pub open spec fn lines_of(s: Seq<char>) -> Seq<Seq<char>>
    decreases s.len(),
{
    if s.len() == 0 {
        seq![]
    } else {
        let i = find_index(s, '\n') as int;
        if i >= s.len() {
            seq![s]
        } else {
            seq![s.take(i)] + lines_of(s.skip(i + 1))
        }
    }
}

/// The lines of `s`, as owned strings.
fn split_lines(s: &str) -> (r: Vec<String>)
    ensures
        views_of(r@) == lines_of(s@),
{
    let n = s.unicode_len();
    let mut out: Vec<String> = Vec::new();
    if n == 0 {
        proof {
            assert(views_of(out@) =~= lines_of(s@));
        }
        return out;
    }
    let mut pos: usize = 0;
    let mut e = find_char_from(s, 0, '\n');
    proof {
        assert(s@.skip(0) =~= s@);
        assert(views_of(out@) =~= Seq::<Seq<char>>::empty());
        assert(views_of(out@) + lines_of(s@.skip(0)) =~= lines_of(s@));
    }
    while e < n
        invariant
            n == s@.len(),
            pos <= e <= n,
            e < n ==> s@[e as int] == '\n',
            forall|j: int| pos <= j < e ==> s@[j] != '\n',
            lines_of(s@) == views_of(out@) + lines_of(s@.skip(pos as int)),
        decreases n - e,
    {
        let seg = s.substring_char(pos, e);
        let ghost prev = out@;
        out.push(seg.to_owned());
        proof {
            let u = s@.skip(pos as int);
            assert forall|j: int| 0 <= j < e - pos implies u[j] != '\n' by {
                assert(u[j] == s@[j + pos]);
            }
            assert(u[e - pos] == s@[e as int]);
            lemma_find_index_at(u, '\n', e - pos);
            assert(lines_of(u) == seq![u.take(e - pos)] + lines_of(u.skip(e - pos + 1)));
            assert(u.take(e - pos) =~= s@.subrange(pos as int, e as int));
            assert(u.skip(e - pos + 1) =~= s@.skip(e + 1));
            assert(views_of(out@) =~= views_of(prev).push(seg@));
            assert(views_of(prev) + (seq![u.take(e - pos)] + lines_of(u.skip(e - pos + 1)))
                =~= views_of(out@) + lines_of(s@.skip(e + 1)));
        }
        pos = e + 1;
        e = find_char_from(s, pos, '\n');
    }
    if pos < n {
        let seg = s.substring_char(pos, n);
        let ghost prev = out@;
        out.push(seg.to_owned());
        proof {
            let u = s@.skip(pos as int);
            assert forall|j: int| 0 <= j < u.len() implies u[j] != '\n' by {
                assert(u[j] == s@[j + pos]);
            }
            lemma_find_index_at(u, '\n', u.len() as int);
            assert(lines_of(u) == seq![u]);
            assert(seg@ =~= u);
            assert(views_of(out@) =~= views_of(prev).push(seg@));
            assert(views_of(prev) + seq![u] =~= views_of(out@));
        }
    } else {
        proof {
            assert(s@.skip(pos as int).len() == 0);
            assert(lines_of(s@.skip(pos as int)) == Seq::<Seq<char>>::empty());
            assert(views_of(out@) + Seq::<Seq<char>>::empty() =~= views_of(out@));
        }
    }
    out
}

/// What parsing the remaining `lines` yields, `num` being the 1-based number
/// of the first of them and `acc` the entries gathered so far. Trimmed-blank
/// lines and `#` comments are skipped; a line without `=` or with an empty
/// trimmed key stops everything with an error; any other line adds its
/// key/value pair, overwriting an earlier value of the same key.
pub open spec fn parse_lines(
    lines: Seq<Seq<char>>,
    num: int,
    acc: Map<Seq<char>, Seq<char>>,
) -> Result<Map<Seq<char>, Seq<char>>, ParseError>
    decreases lines.len(),
{
    if lines.len() == 0 {
        Ok(acc)
    } else {
        let t = trim_spec(lines[0]);
        if t.len() == 0 || t[0] == '#' {
            parse_lines(lines.drop_first(), num + 1, acc)
        } else {
            let e = find_index(t, '=') as int;
            if e >= t.len() {
                Err(ParseError::MissingDelimiter { line: num as usize })
            } else {
                let k = trim_spec(t.take(e));
                let v = trim_spec(t.skip(e + 1));
                if k.len() == 0 {
                    Err(ParseError::EmptyKey { line: num as usize })
                } else {
                    parse_lines(lines.drop_first(), num + 1, acc.insert(k, v))
                }
            }
        }
    }
}

/// The meaning of `parse_config` on the text `s`.
pub open spec fn parse_spec(s: Seq<char>) -> Result<Map<Seq<char>, Seq<char>>, ParseError> {
    parse_lines(lines_of(s), 1, Map::empty())
}

/// Parses `KEY=VALUE` configuration text into a mapping. Blank lines and
/// `#` comments are ignored; only the first `=` of a line separates key from
/// value, and keys and values are trimmed. The first line with no `=`, or
/// with an empty key, fails the whole parse with that line's 1-based number;
/// on success the returned map holds, for every key defined by some line,
/// the value of the last line defining it.
pub fn parse_config(input: &str) -> (r: Result<ConfigMap, ParseError>)
    ensures
        match r {
            Ok(m) => m.wf() && parse_spec(input@) == Ok::<Map<Seq<char>, Seq<char>>, ParseError>(
                m@,
            ),
            Err(e) => parse_spec(input@) == Err::<Map<Seq<char>, Seq<char>>, ParseError>(e),
        },
{
    let lines = split_lines(input);
    let ghost lv = lines_of(input@);
    let mut map = ConfigMap::new();
    let mut i: usize = 0;
    proof {
        assert(lv.skip(0) =~= lv);
    }
    let n = lines.len();
    while i < n
        invariant
            n == lines@.len(),
            views_of(lines@) == lv,
            map.wf(),
            i <= n,
            parse_spec(input@) == parse_lines(lv.skip(i as int), i as int + 1, map@),
        decreases n - i,
    {
        let ghost rest = lv.skip(i as int);
        proof {
            assert(rest[0] == lv[i as int]);
            assert(lv[i as int] == lines@[i as int]@);
            assert(rest.drop_first() =~= lv.skip(i as int + 1));
        }
        let t = trim_str(lines[i].as_str());
        let tn = t.unicode_len();
        if tn == 0 {
            i += 1;
            continue;
        }
        if t.get_char(0) == '#' {
            i += 1;
            continue;
        }
        let e = find_char_from(t, 0, '=');
        proof {
            lemma_find_index_at(t@, '=', e as int);
        }
        if e == tn {
            return Err(ParseError::MissingDelimiter { line: i + 1 });
        }
        let key = trim_str(t.substring_char(0, e));
        let value = trim_str(t.substring_char(e + 1, tn));
        proof {
            assert(t@.subrange(0, e as int) =~= t@.take(e as int));
            assert(t@.subrange(e as int + 1, tn as int) =~= t@.skip(e as int + 1));
        }
        if key.is_empty() {
            return Err(ParseError::EmptyKey { line: i + 1 });
        }
        map.insert(key.to_owned(), value.to_owned());
        i += 1;
    }
    proof {
        assert(lv.skip(n as int) =~= Seq::<Seq<char>>::empty());
    }
    Ok(map)
}

/// A line the parser ignores: one that trims to nothing or to a `#` comment.
pub open spec fn is_skip_line(l: Seq<char>) -> bool {
    let t = trim_spec(l);
    t.len() == 0 || t[0] == '#'
}

/// A line that defines an entry: not skipped, containing an `=`, with a
/// non-empty trimmed key before it.
pub open spec fn is_kv_line(l: Seq<char>) -> bool {
    let t = trim_spec(l);
    &&& !is_skip_line(l)
    &&& find_index(t, '=') < t.len()
    &&& line_key(l).len() > 0
}

/// The key defined by a `KEY=VALUE` line: what precedes the first `=` of the
/// trimmed line, trimmed again.
pub open spec fn line_key(l: Seq<char>) -> Seq<char> {
    let t = trim_spec(l);
    trim_spec(t.take(find_index(t, '=') as int))
}

/// The value defined by a `KEY=VALUE` line: what follows the first `=` of
/// the trimmed line, trimmed again.
pub open spec fn line_value(l: Seq<char>) -> Seq<char> {
    let t = trim_spec(l);
    trim_spec(t.skip(find_index(t, '=') as int + 1))
}

/// Parsing lines that are all skipped returns the gathered entries as they
/// are.
proof fn lemma_parse_lines_all_skipped(
    lines: Seq<Seq<char>>,
    num: int,
    acc: Map<Seq<char>, Seq<char>>,
)
    requires
        forall|i: int| 0 <= i < lines.len() ==> is_skip_line(#[trigger] lines[i]),
    ensures
        parse_lines(lines, num, acc) == Ok::<Map<Seq<char>, Seq<char>>, ParseError>(acc),
    decreases lines.len(),
{
    if lines.len() > 0 {
        assert(is_skip_line(lines[0]));
        assert forall|i: int| 0 <= i < lines.drop_first().len() implies is_skip_line(
            #[trigger] lines.drop_first()[i],
        ) by {
            assert(lines.drop_first()[i] == lines[i + 1]);
        }
        lemma_parse_lines_all_skipped(lines.drop_first(), num + 1, acc);
    }
}

/// Text made only of blank lines and `#` comments parses to the empty map,
/// with no error.
pub proof fn lemma_parse_only_blanks_and_comments(s: Seq<char>)
    requires
        forall|i: int| 0 <= i < lines_of(s).len() ==> is_skip_line(#[trigger] lines_of(s)[i]),
    ensures
        parse_spec(s) == Ok::<Map<Seq<char>, Seq<char>>, ParseError>(
            Map::<Seq<char>, Seq<char>>::empty(),
        ),
{
    lemma_parse_lines_all_skipped(lines_of(s), 1, Map::empty());
}

/// Parsing is a function of the input text alone: two parses of the same
/// text yield the same outcome, so a parse repeated on one input returns
/// maps with identical contents.
pub proof fn lemma_parse_deterministic(s1: Seq<char>, s2: Seq<char>)
    requires
        s1 == s2,
    ensures
        parse_spec(s1) == parse_spec(s2),
{
}

/// A successful parse leaves a gathered key untouched when no line defines
/// that key.
proof fn lemma_parse_lines_preserves_key(
    lines: Seq<Seq<char>>,
    num: int,
    acc: Map<Seq<char>, Seq<char>>,
    k: Seq<char>,
)
    requires
        parse_lines(lines, num, acc) is Ok,
        acc.contains_key(k),
        forall|j: int| 0 <= j < lines.len() && is_kv_line(#[trigger] lines[j]) ==> line_key(
            lines[j],
        ) != k,
    ensures
        parse_lines(lines, num, acc)->Ok_0.contains_key(k),
        parse_lines(lines, num, acc)->Ok_0[k] == acc[k],
    decreases lines.len(),
{
    if lines.len() > 0 {
        assert forall|j: int|
            0 <= j < lines.drop_first().len() && is_kv_line(
                #[trigger] lines.drop_first()[j],
            ) implies line_key(lines.drop_first()[j]) != k by {
            assert(lines.drop_first()[j] == lines[j + 1]);
        }
        if is_skip_line(lines[0]) {
            lemma_parse_lines_preserves_key(lines.drop_first(), num + 1, acc, k);
        } else {
            assert(is_kv_line(lines[0]));
            assert(line_key(lines[0]) != k);
            lemma_parse_lines_preserves_key(
                lines.drop_first(),
                num + 1,
                acc.insert(line_key(lines[0]), line_value(lines[0])),
                k,
            );
        }
    }
}

/// In a successful parse, an entry-defining line whose key recurs on no
/// later entry-defining line determines that key's value in the result.
proof fn lemma_parse_lines_last_kv(
    lines: Seq<Seq<char>>,
    num: int,
    acc: Map<Seq<char>, Seq<char>>,
    i: int,
)
    requires
        parse_lines(lines, num, acc) is Ok,
        0 <= i < lines.len(),
        is_kv_line(lines[i]),
        forall|j: int| i < j < lines.len() && is_kv_line(#[trigger] lines[j]) ==> line_key(
            lines[j],
        ) != line_key(lines[i]),
    ensures
        parse_lines(lines, num, acc)->Ok_0.contains_key(line_key(lines[i])),
        parse_lines(lines, num, acc)->Ok_0[line_key(lines[i])] == line_value(lines[i]),
    decreases lines.len(),
{
    if i == 0 {
        let k = line_key(lines[0]);
        let v = line_value(lines[0]);
        assert forall|j: int|
            0 <= j < lines.drop_first().len() && is_kv_line(
                #[trigger] lines.drop_first()[j],
            ) implies line_key(lines.drop_first()[j]) != k by {
            assert(lines.drop_first()[j] == lines[j + 1]);
        }
        lemma_parse_lines_preserves_key(lines.drop_first(), num + 1, acc.insert(k, v), k);
    } else {
        assert forall|j: int|
            i - 1 < j < lines.drop_first().len() && is_kv_line(
                #[trigger] lines.drop_first()[j],
            ) implies line_key(lines.drop_first()[j]) != line_key(lines.drop_first()[i - 1]) by {
            assert(lines.drop_first()[j] == lines[j + 1]);
            assert(lines.drop_first()[i - 1] == lines[i]);
        }
        assert(lines.drop_first()[i - 1] == lines[i]);
        if is_skip_line(lines[0]) {
            lemma_parse_lines_last_kv(lines.drop_first(), num + 1, acc, i - 1);
        } else {
            assert(is_kv_line(lines[0]));
            lemma_parse_lines_last_kv(
                lines.drop_first(),
                num + 1,
                acc.insert(line_key(lines[0]), line_value(lines[0])),
                i - 1,
            );
        }
    }
}

/// When parsing succeeds, every entry-defining line whose key is defined by
/// no later line maps its key to its value in the result: an earlier
/// duplicate is overwritten by the last line that defines the key.
pub proof fn lemma_parse_maps_last_occurrence(s: Seq<char>, i: int)
    requires
        parse_spec(s) is Ok,
        0 <= i < lines_of(s).len(),
        is_kv_line(lines_of(s)[i]),
        forall|j: int|
            i < j < lines_of(s).len() && is_kv_line(#[trigger] lines_of(s)[j]) ==> line_key(
                lines_of(s)[j],
            ) != line_key(lines_of(s)[i]),
    ensures
        parse_spec(s)->Ok_0.contains_key(line_key(lines_of(s)[i])),
        parse_spec(s)->Ok_0[line_key(lines_of(s)[i])] == line_value(lines_of(s)[i]),
{
    lemma_parse_lines_last_kv(lines_of(s), 1, Map::empty(), i);
}

/// Every key of a successful parse was gathered from some line.
proof fn lemma_parse_lines_key_origin(
    lines: Seq<Seq<char>>,
    num: int,
    acc: Map<Seq<char>, Seq<char>>,
    k: Seq<char>,
)
    requires
        parse_lines(lines, num, acc) is Ok,
        parse_lines(lines, num, acc)->Ok_0.contains_key(k),
    ensures
        acc.contains_key(k) || exists|i: int|
            0 <= i < lines.len() && is_kv_line(#[trigger] lines[i]) && line_key(lines[i]) == k,
    decreases lines.len(),
{
    if lines.len() > 0 {
        if is_skip_line(lines[0]) {
            lemma_parse_lines_key_origin(lines.drop_first(), num + 1, acc, k);
        } else {
            assert(is_kv_line(lines[0]));
            lemma_parse_lines_key_origin(
                lines.drop_first(),
                num + 1,
                acc.insert(line_key(lines[0]), line_value(lines[0])),
                k,
            );
            if acc.insert(line_key(lines[0]), line_value(lines[0])).contains_key(k)
                && !acc.contains_key(k) {
                assert(is_kv_line(lines[0]) && line_key(lines[0]) == k);
            }
        }
        if exists|i: int|
            0 <= i < lines.drop_first().len() && is_kv_line(#[trigger] lines.drop_first()[i])
                && line_key(lines.drop_first()[i]) == k {
            let i = choose|i: int|
                0 <= i < lines.drop_first().len() && is_kv_line(#[trigger] lines.drop_first()[i])
                    && line_key(lines.drop_first()[i]) == k;
            assert(lines[i + 1] == lines.drop_first()[i]);
            assert(is_kv_line(lines[i + 1]) && line_key(lines[i + 1]) == k);
        }
    }
}

/// A parsed map never contains a key that no non-comment, non-blank line of
/// the input explicitly defines.
pub proof fn lemma_parse_keys_come_from_lines(s: Seq<char>, k: Seq<char>)
    requires
        parse_spec(s) is Ok,
        parse_spec(s)->Ok_0.contains_key(k),
    ensures
        exists|i: int|
            0 <= i < lines_of(s).len() && is_kv_line(#[trigger] lines_of(s)[i]) && line_key(
                lines_of(s)[i],
            ) == k,
{
    lemma_parse_lines_key_origin(lines_of(s), 1, Map::empty(), k);
}

} // verus!
