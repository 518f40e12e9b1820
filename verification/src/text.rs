//! Text helpers: character-level views of strings, case-insensitive
//! comparison, and substring search.

use vstd::prelude::*;

verus! {

/// What `str::to_lowercase` returns, as a function of the characters alone.
pub uninterp spec fn lower_of(s: Seq<char>) -> Seq<char>;

/// Relies on str::to_lowercase: the result depends on the characters alone.
#[verifier::external_body]
pub(crate) fn lowercase(s: &str) -> (r: String)
    ensures
        r@ == lower_of(s@),
{
    s.to_lowercase()
}

/// Relies on String's FromIterator impl: collecting characters concatenates
/// them in order into one string.
#[verifier::external_body]
pub(crate) fn string_from_chars(v: &Vec<char>) -> (r: String)
    ensures
        r@ == v@,
{
    v.iter().collect()
}

/// The characters of `s`, one vector element per character.
pub fn chars_of(s: &str) -> (r: Vec<char>)
    ensures
        r@ == s@,
{
    let n = s.unicode_len();
    let mut r: Vec<char> = Vec::new();
    let mut i: usize = 0;
    while i < n
        invariant
            n == s@.len(),
            i <= n,
            r@ == s@.take(i as int),
        decreases n - i,
    {
        r.push(s.get_char(i));
        proof {
            assert(r@ =~= s@.take(i + 1));
        }
        i += 1;
    }
    proof {
        assert(s@.take(n as int) =~= s@);
    }
    r
}

/// An ASCII capital letter folded to its small form; every other character
/// is left alone.
pub open spec fn ascii_lower_char(c: char) -> char {
    if 'A' <= c && c <= 'Z' {
        ((c as u32) + 32) as char
    } else {
        c
    }
}

/// The two texts are equal once ASCII capitals are folded, as
/// `str::eq_ignore_ascii_case` compares.
pub open spec fn eq_ignore_case_spec(a: Seq<char>, b: Seq<char>) -> bool {
    a.len() == b.len() && forall|i: int|
        0 <= i < a.len() ==> ascii_lower_char(#[trigger] a[i]) == ascii_lower_char(b[i])
}

/// Compares two texts ignoring ASCII case.
pub fn eq_ignore_case(a: &str, b: &str) -> (r: bool)
    ensures
        r == eq_ignore_case_spec(a@, b@),
{
    let la = a.unicode_len();
    let lb = b.unicode_len();
    if la != lb {
        return false;
    }
    let mut i: usize = 0;
    while i < la
        invariant
            la == a@.len(),
            la == b@.len(),
            i <= la,
            forall|k: int|
                0 <= k < i ==> ascii_lower_char(#[trigger] a@[k]) == ascii_lower_char(b@[k]),
        decreases la - i,
    {
        let ca = a.get_char(i);
        let cb = b.get_char(i);
        let mut ua = ca as u32;
        let mut ub = cb as u32;
        if 65 <= ua && ua <= 90 {
            ua = ua + 32;
        }
        if 65 <= ub && ub <= 90 {
            ub = ub + 32;
        }
        proof {
            assert(ua == ascii_lower_char(a@[i as int]) as u32);
            assert(ub == ascii_lower_char(b@[i as int]) as u32);
        }
        if ua != ub {
            return false;
        }
        proof {
            assert(ascii_lower_char(a@[i as int]) == ascii_lower_char(b@[i as int]));
        }
        i += 1;
    }
    true
}

/// `needle` occurs in `hay` as a contiguous run of characters.
pub open spec fn contains_seq(hay: Seq<char>, needle: Seq<char>) -> bool {
    exists|k: int|
        0 <= k && k + needle.len() <= hay.len() && #[trigger] hay.subrange(
            k,
            k + needle.len() as int,
        ) == needle
}

/// `needle` occurs in `hay` at exactly the offset `k`.
fn match_at(hay: &Vec<char>, needle: &Vec<char>, k: usize) -> (r: bool)
    requires
        k + needle@.len() <= hay@.len(),
    ensures
        r == (hay@.subrange(k as int, k + needle@.len() as int) == needle@),
{
    let n = needle.len();
    let h = hay.len();
    let mut j: usize = 0;
    while j < n
        invariant
            n == needle@.len(),
            h == hay@.len(),
            k + n <= h,
            j <= n,
            forall|m: int| 0 <= m < j ==> hay@[k + m] == needle@[m],
        decreases n - j,
    {
        if hay[k + j] != needle[j] {
            proof {
                assert(hay@.subrange(k as int, k + needle@.len() as int)[j as int] == hay@[k + j]);
            }
            return false;
        }
        j += 1;
    }
    proof {
        assert(hay@.subrange(k as int, k + needle@.len() as int) =~= needle@);
    }
    true
}

/// Substring search over character vectors.
pub fn contains_chars(hay: &Vec<char>, needle: &Vec<char>) -> (r: bool)
    ensures
        r == contains_seq(hay@, needle@),
{
    let n = needle.len();
    let h = hay.len();
    if n > h {
        proof {
            assert(!contains_seq(hay@, needle@));
        }
        return false;
    }
    let limit = h - n;
    let mut res = false;
    let mut k: usize = 0;
    while k < limit
        invariant
            n == needle@.len(),
            h == hay@.len(),
            n <= h,
            limit == h - n,
            k <= limit,
            res == exists|k2: int|
                0 <= k2 < k && #[trigger] hay@.subrange(k2, k2 + needle@.len() as int) == needle@,
        decreases limit - k,
    {
        if match_at(hay, needle, k) {
            res = true;
        }
        k += 1;
    }
    if match_at(hay, needle, limit) {
        res = true;
        proof {
            assert(hay@.subrange(limit as int, limit + needle@.len() as int) == needle@);
        }
    }
    proof {
        if res {
            assert(contains_seq(hay@, needle@));
        } else {
            assert forall|k2: int|
                0 <= k2 && k2 + needle@.len() <= hay@.len() implies #[trigger] hay@.subrange(
                k2,
                k2 + needle@.len() as int,
            ) != needle@ by {
                assert(k2 <= limit);
            }
        }
    }
    res
}

} // verus!
