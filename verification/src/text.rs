//! Character-level helpers on `&str`: trimming Unicode white space,
//! comparing with and stripping fixed prefixes, finding `>` marks.
use vstd::prelude::*;
use vstd::string::StrSliceExecFns;
use crate::command::{is_ws, is_whitespace_char};

verus! {

/// `s` without its leading white space.
pub open spec fn trim_start(s: Seq<char>) -> Seq<char>
    decreases s.len(),
{
    if s.len() > 0 && is_ws(s[0]) { trim_start(s.drop_first()) } else { s }
}

/// `s` without its trailing white space.
pub open spec fn trim_end(s: Seq<char>) -> Seq<char>
    decreases s.len(),
{
    if s.len() > 0 && is_ws(s.last()) { trim_end(s.drop_last()) } else { s }
}

/// `s` without white space at either end.
pub open spec fn trim(s: Seq<char>) -> Seq<char> {
    trim_end(trim_start(s))
}

/// Whether `s` begins with `p`.
pub open spec fn starts(s: Seq<char>, p: Seq<char>) -> bool {
    p.len() <= s.len() && s.take(p.len() as int) == p
}

/// The first `i >= from` with `s[i] == s[i + 1] == '>'`.
pub open spec fn find_pair_from(s: Seq<char>, from: int) -> Option<int>
    decreases s.len() - from,
{
    if from < 0 || from + 1 >= s.len() {
        None
    } else if s[from] == '>' && s[from + 1] == '>' {
        Some(from)
    } else {
        find_pair_from(s, from + 1)
    }
}

/// The first `i >= from` with `s[i] == '>'`.
pub open spec fn find_gt_from(s: Seq<char>, from: int) -> Option<int>
    decreases s.len() - from,
{
    if from < 0 || from >= s.len() {
        None
    } else if s[from] == '>' {
        Some(from)
    } else {
        find_gt_from(s, from + 1)
    }
}

proof fn lemma_find_pair_bound(s: Seq<char>, from: int)
    ensures
        find_pair_from(s, from) matches Some(i) ==> from <= i && i + 1 < s.len(),
    decreases s.len() - from,
{
    if !(from < 0 || from + 1 >= s.len()) && !(s[from] == '>' && s[from + 1] == '>') {
        lemma_find_pair_bound(s, from + 1);
    }
}

proof fn lemma_find_gt_bound(s: Seq<char>, from: int)
    ensures
        find_gt_from(s, from) matches Some(i) ==> from <= i && i < s.len(),
    decreases s.len() - from,
{
    if !(from < 0 || from >= s.len()) && s[from] != '>' {
        lemma_find_gt_bound(s, from + 1);
    }
}

/// Whether `t` is the same text as `lit`.
pub fn str_eq(t: &str, lit: &str) -> (r: bool)
    ensures
        r == (t@ == lit@),
{
    let n = t.unicode_len();
    let m = lit.unicode_len();
    if n != m {
        return false;
    }
    let mut i: usize = 0;
    while i < n
        invariant
            n == t@.len(),
            m == lit@.len(),
            n == m,
            i <= n,
            forall|k: int| 0 <= k < i ==> t@[k] == lit@[k],
        decreases n - i,
    {
        if t.get_char(i) != lit.get_char(i) {
            return false;
        }
        i = i + 1;
    }
    proof {
        assert(t@ =~= lit@);
    }
    true
}

/// Whether `t` begins with `lit`.
pub fn starts_with_str(t: &str, lit: &str) -> (r: bool)
    ensures
        r == starts(t@, lit@),
{
    let n = t.unicode_len();
    let m = lit.unicode_len();
    if m > n {
        return false;
    }
    let mut i: usize = 0;
    while i < m
        invariant
            n == t@.len(),
            m == lit@.len(),
            m <= n,
            i <= m,
            forall|k: int| 0 <= k < i ==> t@[k] == lit@[k],
        decreases m - i,
    {
        if t.get_char(i) != lit.get_char(i) {
            proof {
                assert(t@.take(m as int)[i as int] != lit@[i as int]);
            }
            return false;
        }
        i = i + 1;
    }
    proof {
        assert(t@.take(m as int) =~= lit@);
    }
    true
}

/// `t` from character `k` on.
pub fn skip_chars<'a>(t: &'a str, k: usize) -> (r: &'a str)
    requires
        k <= t@.len(),
    ensures
        r@ == t@.skip(k as int),
{
    let n = t.unicode_len();
    let r = t.substring_char(k, n);
    proof {
        assert(r@ =~= t@.skip(k as int));
    }
    r
}

/// The first `k` characters of `t`.
pub fn take_chars<'a>(t: &'a str, k: usize) -> (r: &'a str)
    requires
        k <= t@.len(),
    ensures
        r@ == t@.take(k as int),
{
    let r = t.substring_char(0, k);
    proof {
        assert(r@ =~= t@.take(k as int));
    }
    r
}

/// `t` without leading white space.
pub fn trim_start_str<'a>(t: &'a str) -> (r: &'a str)
    ensures
        r@ == trim_start(t@),
{
    let n = t.unicode_len();
    let mut i: usize = 0;
    proof {
        assert(t@.skip(0) =~= t@);
    }
    while i < n && is_whitespace_char(t.get_char(i))
        invariant
            n == t@.len(),
            i <= n,
            trim_start(t@) == trim_start(t@.skip(i as int)),
        decreases n - i,
    {
        proof {
            assert(t@.skip(i as int).drop_first() =~= t@.skip(i as int + 1));
        }
        i = i + 1;
    }
    let r = t.substring_char(i, n);
    proof {
        assert(r@ =~= t@.skip(i as int));
    }
    r
}

/// `t` without trailing white space.
pub fn trim_end_str<'a>(t: &'a str) -> (r: &'a str)
    ensures
        r@ == trim_end(t@),
{
    let n = t.unicode_len();
    let mut j: usize = n;
    proof {
        assert(t@.take(n as int) =~= t@);
    }
    while j > 0 && is_whitespace_char(t.get_char(j - 1))
        invariant
            n == t@.len(),
            j <= n,
            trim_end(t@) == trim_end(t@.take(j as int)),
        decreases j,
    {
        proof {
            assert(t@.take(j as int).drop_last() =~= t@.take(j as int - 1));
        }
        j = j - 1;
    }
    let r = t.substring_char(0, j);
    proof {
        assert(r@ =~= t@.take(j as int));
    }
    r
}

/// `t` without white space at either end.
pub fn trim_str<'a>(t: &'a str) -> (r: &'a str)
    ensures
        r@ == trim(t@),
{
    trim_end_str(trim_start_str(t))
}

/// Where the first `>>` of `t` starts.
pub fn find_pair(t: &str) -> (r: Option<usize>)
    ensures
        r matches Some(i) ==> find_pair_from(t@, 0) == Some(i as int) && i + 1 < t@.len(),
        r is None ==> find_pair_from(t@, 0) is None,
{
    let n = t.unicode_len();
    let mut i: usize = 0;
    while i < n && i + 1 < n
        invariant
            n == t@.len(),
            i <= n,
            find_pair_from(t@, 0) == find_pair_from(t@, i as int),
        decreases n - i,
    {
        if t.get_char(i) == '>' && t.get_char(i + 1) == '>' {
            return Some(i);
        }
        i = i + 1;
    }
    None
}

/// Where the first `>` of `t` is.
pub fn find_gt(t: &str) -> (r: Option<usize>)
    ensures
        r matches Some(i) ==> find_gt_from(t@, 0) == Some(i as int) && i < t@.len(),
        r is None ==> find_gt_from(t@, 0) is None,
{
    let n = t.unicode_len();
    let mut i: usize = 0;
    while i < n
        invariant
            n == t@.len(),
            i <= n,
            find_gt_from(t@, 0) == find_gt_from(t@, i as int),
        decreases n - i,
    {
        if t.get_char(i) == '>' {
            return Some(i);
        }
        i = i + 1;
    }
    None
}

/// `core::str::from_utf8`: the bytes as text when they are valid UTF-8.
/// Its contract claims that `None` comes exactly for invalid input and that
/// the text decodes the bytes.
#[verifier::external_body]
pub(crate) fn str_from_utf8(bytes: &[u8]) -> (r: Option<&str>)
    ensures
        r is Some <==> vstd::utf8::valid_utf8(bytes@),
        r matches Some(s) ==> s@ == vstd::utf8::decode_utf8(bytes@),
{
    core::str::from_utf8(bytes).ok()
}

} // verus!
