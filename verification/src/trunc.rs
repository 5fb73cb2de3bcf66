//! Bounding a string to a maximum display length, with an ellipsis suffix
//! when content has to be dropped.

use vstd::prelude::*;

verus! {

/// `n` dot characters.
pub open spec fn dots(n: nat) -> Seq<char> {
    Seq::new(n, |i: int| '.')
}

/// What `truncate` returns: the input itself when it already fits, only dots
/// when the budget is too small for any content plus an ellipsis, and
/// otherwise the first `max_len - 3` characters followed by `...`.
pub open spec fn truncate_spec(s: Seq<char>, max_len: nat) -> Seq<char> {
    if s.len() <= max_len {
        s
    } else if max_len <= 3 {
        dots(max_len)
    } else {
        s.take(max_len - 3) + dots(3)
    }
}

/// Bounds `s` to at most `max_len` characters. A string that fits is
/// returned unchanged; a longer one is cut to `max_len - 3` characters plus
/// `...`, or to `max_len` dots when `max_len` is 3 or less. Whenever the
/// input is longer than `max_len`, the result is exactly `max_len`
/// characters long.
pub fn truncate(s: &str, max_len: usize) -> (r: String)
    ensures
        r@ == truncate_spec(s@, max_len as nat),
        s@.len() <= max_len ==> r@ == s@,
        s@.len() > max_len ==> r@.len() == max_len,
        s@.len() > max_len && max_len <= 3 ==> r@ == dots(max_len as nat),
{
    let n = s.unicode_len();
    if n <= max_len {
        return s.to_owned();
    }
    if max_len <= 3 {
        let mut r = String::new();
        let mut i: usize = 0;
        while i < max_len
            invariant
                i <= max_len,
                r@ == dots(i as nat),
            decreases max_len - i,
        {
            r.append(".");
            proof {
                reveal_strlit(".");
                assert(r@ =~= dots((i + 1) as nat));
            }
            i += 1;
        }
        return r;
    }
    let t = s.substring_char(0, max_len - 3);
    let mut r = t.to_owned();
    r.append("...");
    proof {
        reveal_strlit("...");
        assert(r@ =~= s@.take(max_len - 3) + dots(3));
    }
    r
}

} // verus!
