//! A structural email-format check. It is a heuristic over the shape of the
//! string, deliberately far short of the full address grammar: the string is
//! split at its first `@`, and only lengths and dot placement are examined.
//! A second `@` is not rejected by itself; it merely becomes part of what is
//! treated as the domain.

use vstd::prelude::*;

use crate::scan::find_index;
use crate::scan::lemma_find_index_at;
use crate::scan::split_on;
use crate::scan::split_on_char;
use crate::scan::views_of;

verus! {

/// The domain portion is acceptable when splitting it on `.` yields at
/// least two segments (so at least one dot is present), none of them empty,
/// and the final, top-level-domain-like segment is at least two characters.
pub open spec fn domain_valid(d: Seq<char>) -> bool {
    let parts = split_on(d, '.');
    &&& parts.len() >= 2
    &&& (forall|i: int| 0 <= i < parts.len() ==> parts[i].len() > 0)
    &&& parts.last().len() >= 2
}

/// An email-like string is accepted when it is non-empty, contains an `@`,
/// the local part before the first `@` is non-empty and at most 64
/// characters, and the remainder after that `@` is a valid domain.
pub open spec fn email_valid(s: Seq<char>) -> bool {
    let a = find_index(s, '@') as int;
    let local = s.take(a);
    let domain = s.skip(a + 1);
    &&& s.len() > 0
    &&& a < s.len()
    &&& local.len() > 0
    &&& domain.len() > 0
    &&& local.len() <= 64
    &&& domain_valid(domain)
}

/// Classifies `email` by the structural heuristic `email_valid`. Every
/// input yields a verdict; no input is an error.
pub fn validate_email(email: &str) -> (r: bool)
    ensures
        r == email_valid(email@),
{
    let n = email.unicode_len();
    if n == 0 {
        return false;
    }
    let a = crate::scan::find_char_from(email, 0, '@');
    proof {
        lemma_find_index_at(email@, '@', a as int);
    }
    if a == n {
        return false;
    }
    if a == 0 {
        return false;
    }
    if a + 1 == n {
        return false;
    }
    if a > 64 {
        return false;
    }
    let domain = email.substring_char(a + 1, n);
    proof {
        assert(domain@ =~= email@.skip(a + 1));
    }
    let segs = split_on_char(domain, '.');
    let ghost parts = split_on(email@.skip(a + 1), '.');
    if segs.len() < 2 {
        return false;
    }
    let mut i: usize = 0;
    while i < segs.len()
        invariant
            n == email@.len(),
            a as nat == find_index(email@, '@'),
            0 < a && a + 1 < n,
            parts == split_on(email@.skip(a + 1), '.'),
            views_of(segs@) == parts,
            segs@.len() == parts.len(),
            i <= segs@.len(),
            forall|j: int| 0 <= j < i ==> parts[j].len() > 0,
        decreases segs@.len() - i,
    {
        if segs[i].as_str().is_empty() {
            proof {
                assert(parts[i as int].len() == 0);
            }
            return false;
        }
        i += 1;
    }
    let tld = segs[segs.len() - 1].as_str();
    proof {
        assert(tld@ == parts.last());
    }
    if tld.unicode_len() < 2 {
        return false;
    }
    true
}

} // verus!
