//! Character-level text utilities shared by the codec and the search code.
//!
//! All text manipulation inside the library works on `Vec<char>` so that the
//! contracts can speak about `Seq<char>` directly.

use vstd::prelude::*;

verus! {

/// The whitespace characters that the cleaning pass collapses and trimming
/// removes: the characters with the White_Space property.
pub open spec fn is_space_char(c: char) -> bool {
    ||| c == ' '
    ||| c == '\t'
    ||| c == '\n'
    ||| c == '\u{0B}'
    ||| c == '\u{0C}'
    ||| c == '\r'
    ||| c == '\u{85}'
    ||| c == '\u{A0}'
    ||| c == '\u{1680}'
    ||| ('\u{2000}' as u32) <= (c as u32) && (c as u32) <= ('\u{200A}' as u32)
    ||| c == '\u{2028}'
    ||| c == '\u{2029}'
    ||| c == '\u{202F}'
    ||| c == '\u{205F}'
    ||| c == '\u{3000}'
}

/// Executable mirror of `is_space_char`.
pub fn is_space(c: char) -> (r: bool)
    ensures
        r == is_space_char(c),
{
    c == ' ' || c == '\t' || c == '\n' || c == '\u{0B}' || c == '\u{0C}' || c == '\r' || c
        == '\u{85}' || c == '\u{A0}' || c == '\u{1680}' || (('\u{2000}' as u32) <= (c as u32) && (c
        as u32) <= ('\u{200A}' as u32)) || c == '\u{2028}' || c == '\u{2029}' || c == '\u{202F}'
        || c == '\u{205F}' || c == '\u{3000}'
}

/// Number of leading whitespace characters of `s`.
pub open spec fn leading_spaces(s: Seq<char>) -> int
    decreases s.len(),
{
    if s.len() == 0 {
        0
    } else if is_space_char(s[0]) {
        1 + leading_spaces(s.drop_first())
    } else {
        0
    }
}

/// Number of trailing whitespace characters of `s`.
pub open spec fn trailing_spaces(s: Seq<char>) -> int
    decreases s.len(),
{
    if s.len() == 0 {
        0
    } else if is_space_char(s[s.len() - 1]) {
        1 + trailing_spaces(s.drop_last())
    } else {
        0
    }
}

pub proof fn lemma_leading_spaces_bound(s: Seq<char>)
    ensures
        0 <= leading_spaces(s) <= s.len(),
        forall|i: int| 0 <= i < leading_spaces(s) ==> is_space_char(s[i]),
        leading_spaces(s) < s.len() ==> !is_space_char(s[leading_spaces(s)]),
    decreases s.len(),
{
    if s.len() > 0 && is_space_char(s[0]) {
        lemma_leading_spaces_bound(s.drop_first());
        assert forall|i: int| 0 <= i < leading_spaces(s) implies is_space_char(s[i]) by {
            if i > 0 {
                assert(s.drop_first()[i - 1] == s[i]);
            }
        }
        if leading_spaces(s) < s.len() {
            assert(s.drop_first()[leading_spaces(s) - 1] == s[leading_spaces(s)]);
        }
    }
}

pub proof fn lemma_trailing_spaces_bound(s: Seq<char>)
    ensures
        0 <= trailing_spaces(s) <= s.len(),
        forall|i: int| s.len() - trailing_spaces(s) <= i < s.len() ==> is_space_char(s[i]),
        trailing_spaces(s) < s.len() ==> !is_space_char(s[s.len() - 1 - trailing_spaces(s)]),
    decreases s.len(),
{
    if s.len() > 0 && is_space_char(s[s.len() - 1]) {
        lemma_trailing_spaces_bound(s.drop_last());
        assert forall|i: int| s.len() - trailing_spaces(s) <= i < s.len() implies is_space_char(
            s[i],
        ) by {
            if i < s.len() - 1 {
                assert(s.drop_last()[i] == s[i]);
            }
        }
        if trailing_spaces(s) < s.len() {
            assert(s.drop_last()[s.len() - 1 - trailing_spaces(s)] == s[s.len() - 1
                - trailing_spaces(s)]);
        }
    }
}

/// `s` with leading and trailing whitespace removed.
pub open spec fn spec_trim(s: Seq<char>) -> Seq<char> {
    if leading_spaces(s) == s.len() {
        Seq::empty()
    } else {
        s.subrange(leading_spaces(s), s.len() - trailing_spaces(s))
    }
}

/// A string is trimmed when it neither starts nor ends with whitespace.
pub open spec fn is_trimmed(s: Seq<char>) -> bool {
    s.len() > 0 ==> !is_space_char(s[0]) && !is_space_char(s[s.len() - 1])
}

pub proof fn lemma_trim_trimmed(s: Seq<char>)
    ensures
        is_trimmed(spec_trim(s)),
        spec_trim(s).len() <= s.len(),
{
    lemma_leading_spaces_bound(s);
    lemma_trailing_spaces_bound(s);
    if leading_spaces(s) != s.len() {
        let lo = leading_spaces(s);
        let hi = s.len() - trailing_spaces(s);
        assert(lo < hi) by {
            if hi <= lo {
                assert(is_space_char(s[lo]));
            }
        }
    }
}

pub proof fn lemma_trim_of_trimmed(s: Seq<char>)
    requires
        is_trimmed(s),
    ensures
        spec_trim(s) == s,
{
    if s.len() == 0 {
        assert(spec_trim(s) =~= s);
    } else {
        assert(leading_spaces(s) == 0);
        assert(trailing_spaces(s) == 0);
        assert(spec_trim(s) =~= s);
    }
}

/// Removes leading and trailing whitespace.
pub fn trim_chars(s: &Vec<char>) -> (r: Vec<char>)
    ensures
        r@ == spec_trim(s@),
{
    proof {
        lemma_leading_spaces_bound(s@);
        lemma_trailing_spaces_bound(s@);
    }
    let mut lo: usize = 0;
    while lo < s.len() && is_space(s[lo])
        invariant
            0 <= lo <= s@.len(),
            forall|i: int| 0 <= i < lo ==> is_space_char(s@[i]),
            lo <= leading_spaces(s@),
        decreases s@.len() - lo,
    {
        proof {
            lemma_leading_spaces_step(s@, lo as int);
        }
        lo = lo + 1;
    }
    proof {
        if lo < s@.len() {
            assert(lo == leading_spaces(s@)) by {
                lemma_leading_spaces_step_stop(s@, lo as int);
            }
        } else {
            assert(lo == leading_spaces(s@));
        }
    }
    if lo == s.len() {
        let r: Vec<char> = Vec::new();
        assert(spec_trim(s@) =~= Seq::<char>::empty());
        return r;
    }
    let mut hi: usize = s.len();
    while lo < hi && is_space(s[hi - 1])
        invariant
            lo < hi <= s@.len() || (lo == hi),
            lo < s@.len(),
            lo == leading_spaces(s@),
            !is_space_char(s@[lo as int]),
            lo <= hi,
            forall|i: int| hi <= i < s@.len() ==> is_space_char(s@[i]),
            s@.len() - hi <= trailing_spaces(s@),
        decreases hi,
    {
        proof {
            lemma_trailing_spaces_step(s@, hi as int);
        }
        hi = hi - 1;
    }
    proof {
        assert(hi > lo);
        assert(!is_space_char(s@[hi - 1]));
        assert(s@.len() - hi == trailing_spaces(s@)) by {
            lemma_trailing_spaces_step_stop(s@, hi as int);
        }
    }
    let mut r: Vec<char> = Vec::new();
    let mut i: usize = lo;
    while i < hi
        invariant
            lo <= i <= hi <= s@.len(),
            r@ == s@.subrange(lo as int, i as int),
        decreases hi - i,
    {
        r.push(s[i]);
        proof {
            assert(r@ =~= s@.subrange(lo as int, i + 1));
        }
        i = i + 1;
    }
    proof {
        assert(r@ =~= spec_trim(s@));
    }
    r
}

pub proof fn lemma_leading_spaces_step(s: Seq<char>, k: int)
    requires
        0 <= k < s.len(),
        forall|i: int| 0 <= i < k ==> is_space_char(s[i]),
        is_space_char(s[k]),
    ensures
        leading_spaces(s) >= k + 1,
    decreases k,
{
    lemma_leading_spaces_bound(s);
    if leading_spaces(s) <= k {
        assert(!is_space_char(s[leading_spaces(s)]));
    }
}

pub proof fn lemma_leading_spaces_step_stop(s: Seq<char>, k: int)
    requires
        0 <= k < s.len(),
        forall|i: int| 0 <= i < k ==> is_space_char(s[i]),
        !is_space_char(s[k]),
    ensures
        leading_spaces(s) == k,
{
    lemma_leading_spaces_bound(s);
    if leading_spaces(s) < k {
        assert(is_space_char(s[leading_spaces(s)]));
    }
    if leading_spaces(s) > k {
        assert(is_space_char(s[k]));
    }
}

pub proof fn lemma_trailing_spaces_step(s: Seq<char>, h: int)
    requires
        0 < h <= s.len(),
        forall|i: int| h <= i < s.len() ==> is_space_char(s[i]),
        is_space_char(s[h - 1]),
    ensures
        trailing_spaces(s) >= s.len() - h + 1,
{
    lemma_trailing_spaces_bound(s);
    if trailing_spaces(s) < s.len() - h + 1 {
        assert(!is_space_char(s[s.len() - 1 - trailing_spaces(s)]));
    }
}

pub proof fn lemma_trailing_spaces_step_stop(s: Seq<char>, h: int)
    requires
        0 < h <= s.len(),
        forall|i: int| h <= i < s.len() ==> is_space_char(s[i]),
        !is_space_char(s[h - 1]),
    ensures
        trailing_spaces(s) == s.len() - h,
{
    lemma_trailing_spaces_bound(s);
    if trailing_spaces(s) < s.len() - h {
        assert(is_space_char(s[h - 1]));
    }
    if trailing_spaces(s) > s.len() - h {
        assert(!is_space_char(s[s.len() - 1 - trailing_spaces(s)]));
        assert(is_space_char(s[s.len() - 1 - trailing_spaces(s)]));
    }
}

/// Copies the characters of a string slice into a vector.
pub fn str_to_chars(s: &str) -> (v: Vec<char>)
    ensures
        v@ == s@,
{
    let n = s.unicode_len();
    let mut v: Vec<char> = Vec::new();
    let mut i: usize = 0;
    while i < n
        invariant
            0 <= i <= n,
            n == s@.len(),
            v@ == s@.subrange(0, i as int),
        decreases n - i,
    {
        v.push(s.get_char(i));
        proof {
            assert(v@ =~= s@.subrange(0, i + 1));
        }
        i = i + 1;
    }
    proof {
        assert(v@ =~= s@);
    }
    v
}

/// Relies on `String`'s `FromIterator` over `char`: collecting yields a string
/// holding exactly the characters supplied, in order.
#[verifier::external_body]
pub(crate) fn chars_to_string(v: &Vec<char>) -> (s: String)
    ensures
        s@ == v@,
{
    v.iter().collect()
}

/// What `str::to_lowercase` returns on a given sequence of characters.
pub uninterp spec fn lower_of(s: Seq<char>) -> Seq<char>;

/// Relies on `str::to_lowercase`: the result is a function of the characters
/// alone.
#[verifier::external_body]
pub(crate) fn lowercase(s: &str) -> (r: String)
    ensures
        r@ == lower_of(s@),
{
    s.to_lowercase()
}

/// True when the vector holds exactly the characters of `s`.
pub fn chars_eq_str(v: &Vec<char>, s: &str) -> (r: bool)
    ensures
        r == (v@ == s@),
{
    let n = s.unicode_len();
    if v.len() != n {
        return false;
    }
    let mut i: usize = 0;
    while i < n
        invariant
            0 <= i <= n,
            n == s@.len(),
            n == v@.len(),
            forall|j: int| 0 <= j < i ==> v@[j] == s@[j],
        decreases n - i,
    {
        if v[i] != s.get_char(i) {
            return false;
        }
        i = i + 1;
    }
    proof {
        assert(v@ =~= s@);
    }
    true
}

/// Appends the characters of `s` to `out`.
pub fn append_str(out: &mut Vec<char>, s: &str)
    ensures
        final(out)@ == old(out)@ + s@,
{
    let n = s.unicode_len();
    let mut i: usize = 0;
    while i < n
        invariant
            0 <= i <= n,
            n == s@.len(),
            out@ == old(out)@ + s@.subrange(0, i as int),
        decreases n - i,
    {
        out.push(s.get_char(i));
        proof {
            assert(out@ =~= old(out)@ + s@.subrange(0, i + 1));
        }
        i = i + 1;
    }
    proof {
        assert(old(out)@ + s@.subrange(0, n as int) =~= old(out)@ + s@);
    }
}

/// Appends the characters of `v` to `out`.
pub fn append_chars(out: &mut Vec<char>, v: &Vec<char>)
    ensures
        final(out)@ == old(out)@ + v@,
{
    let mut i: usize = 0;
    while i < v.len()
        invariant
            0 <= i <= v@.len(),
            out@ == old(out)@ + v@.subrange(0, i as int),
        decreases v@.len() - i,
    {
        out.push(v[i]);
        proof {
            assert(out@ =~= old(out)@ + v@.subrange(0, i + 1));
        }
        i = i + 1;
    }
    proof {
        assert(old(out)@ + v@.subrange(0, v@.len() as int) =~= old(out)@ + v@);
    }
}

/// True when the characters of `a` equal the characters of `b`.
pub fn str_eq(a: &str, b: &str) -> (r: bool)
    ensures
        r == (a@ == b@),
{
    let na = a.unicode_len();
    let nb = b.unicode_len();
    if na != nb {
        return false;
    }
    let mut i: usize = 0;
    while i < na
        invariant
            0 <= i <= na,
            na == a@.len(),
            na == b@.len(),
            forall|j: int| 0 <= j < i ==> a@[j] == b@[j],
        decreases na - i,
    {
        if a.get_char(i) != b.get_char(i) {
            return false;
        }
        i = i + 1;
    }
    proof {
        assert(a@ =~= b@);
    }
    true
}

} // verus!
