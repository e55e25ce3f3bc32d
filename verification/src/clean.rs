//! Cleaning of translation, phonetic and note text.
//!
//! The cleaning pass decodes entities, strips complete markup tags, collapses
//! whitespace runs to single spaces, trims the ends, and cuts the text at the
//! note marker so only the primary translation remains.

use vstd::prelude::*;

use crate::chars::is_space;
use crate::chars::is_space_char;
use crate::chars::is_trimmed;
use crate::chars::leading_spaces;
use crate::chars::lemma_leading_spaces_bound;
use crate::chars::lemma_leading_spaces_step_stop;
use crate::chars::lemma_trim_of_trimmed;
use crate::chars::lemma_trim_trimmed;
use crate::chars::spec_trim;
use crate::chars::str_to_chars;
use crate::chars::trim_chars;
use crate::entities::begins;
use crate::entities::decode_text_chars;
use crate::entities::lemma_decode_double_id;
use crate::entities::lemma_decode_std_id;
use crate::entities::lemma_occurs_skip;
use crate::entities::lemma_std_free_implies_double_free;
use crate::entities::match_at;
use crate::entities::occurs_at;
use crate::entities::spec_decode_text;
use crate::entities::std_entity_free;

verus! {

/// The marker that introduces an explanatory note; text after it is dropped.
pub open spec fn note_marker() -> Seq<char> {
    seq!['说', '明', '：']
}

/// First position of `c` in `s`, or `-1` when absent.
pub open spec fn spec_find(s: Seq<char>, c: char) -> int
    decreases s.len(),
{
    if s.len() == 0 {
        -1
    } else if s[0] == c {
        0
    } else {
        let r = spec_find(s.skip(1), c);
        if r < 0 {
            -1
        } else {
            1 + r
        }
    }
}

pub proof fn lemma_find_props(s: Seq<char>, c: char)
    ensures
        spec_find(s, c) < 0 ==> forall|i: int| 0 <= i < s.len() ==> s[i] != c,
        spec_find(s, c) >= 0 ==> 0 <= spec_find(s, c) < s.len() && s[spec_find(s, c)] == c
            && forall|i: int| 0 <= i < spec_find(s, c) ==> s[i] != c,
    decreases s.len(),
{
    if s.len() > 0 && s[0] != c {
        lemma_find_props(s.skip(1), c);
        let r = spec_find(s.skip(1), c);
        if r < 0 {
            assert forall|i: int| 0 <= i < s.len() implies s[i] != c by {
                if i > 0 {
                    assert(s.skip(1)[i - 1] == s[i]);
                }
            }
        } else {
            assert(s.skip(1)[r] == s[1 + r]);
            assert forall|i: int| 0 <= i < spec_find(s, c) implies s[i] != c by {
                if i > 0 {
                    assert(s.skip(1)[i - 1] == s[i]);
                }
            }
        }
    }
}

/// First position where `p` occurs in `s`, or `-1` when it never does.
pub open spec fn spec_find_sub(s: Seq<char>, p: Seq<char>) -> int
    decreases s.len(),
{
    if begins(s, p) {
        0
    } else if s.len() == 0 {
        -1
    } else {
        let r = spec_find_sub(s.skip(1), p);
        if r < 0 {
            -1
        } else {
            1 + r
        }
    }
}

pub proof fn lemma_find_sub_props(s: Seq<char>, p: Seq<char>)
    requires
        p.len() > 0,
    ensures
        spec_find_sub(s, p) < 0 ==> forall|i: int| !occurs_at(s, p, i),
        spec_find_sub(s, p) >= 0 ==> occurs_at(s, p, spec_find_sub(s, p)) && forall|i: int|
            0 <= i < spec_find_sub(s, p) ==> !occurs_at(s, p, i),
    decreases s.len(),
{
    if begins(s, p) {
    } else if s.len() == 0 {
        assert forall|i: int| !occurs_at(s, p, i) by {
            if 0 <= i && i + p.len() <= s.len() {
                assert(p.len() == 0);
            }
        }
    } else {
        lemma_find_sub_props(s.skip(1), p);
        let r = spec_find_sub(s.skip(1), p);
        if r < 0 {
            assert forall|i: int| !occurs_at(s, p, i) by {
                if occurs_at(s, p, i) {
                    if i == 0 {
                        assert(begins(s, p));
                    } else {
                        lemma_occurs_skip(s, 1, p, i - 1);
                        assert(occurs_at(s.skip(1), p, i - 1));
                    }
                }
            }
        } else {
            lemma_occurs_skip(s, 1, p, r);
            assert forall|i: int| 0 <= i < spec_find_sub(s, p) implies !occurs_at(s, p, i) by {
                if occurs_at(s, p, i) {
                    if i == 0 {
                        assert(begins(s, p));
                    } else {
                        lemma_occurs_skip(s, 1, p, i - 1);
                    }
                }
            }
        }
    }
}

/// Removes every complete markup tag: a `<`, the characters to the first `>`
/// after it, and that `>`.  A `<` with no later `>` stays as it is.
pub open spec fn spec_strip_tags(s: Seq<char>) -> Seq<char>
    decreases s.len(),
    via spec_strip_tags_dec
{
    if s.len() == 0 {
        Seq::empty()
    } else if s[0] == '<' {
        let j = spec_find(s, '>');
        if j < 0 {
            s
        } else {
            spec_strip_tags(s.skip(j + 1))
        }
    } else {
        seq![s[0]] + spec_strip_tags(s.skip(1))
    }
}

#[via_fn]
proof fn spec_strip_tags_dec(s: Seq<char>) {
    lemma_find_props(s, '>');
}

/// Collapses every whitespace run to one space.
pub open spec fn spec_collapse(s: Seq<char>) -> Seq<char>
    decreases s.len(),
    via spec_collapse_dec
{
    if s.len() == 0 {
        Seq::empty()
    } else if is_space_char(s[0]) {
        seq![' '] + spec_collapse(s.skip(leading_spaces(s)))
    } else {
        seq![s[0]] + spec_collapse(s.skip(1))
    }
}

#[via_fn]
proof fn spec_collapse_dec(s: Seq<char>) {
    lemma_leading_spaces_bound(s);
}

/// Cuts the text just before the first note marker; text without the marker
/// stays whole.
pub open spec fn spec_cut_marker(s: Seq<char>) -> Seq<char> {
    let j = spec_find_sub(s, note_marker());
    if j < 0 {
        s
    } else {
        s.take(j)
    }
}

/// The whole cleaning pass, in the order the codec applies the steps.
pub open spec fn spec_clean(s: Seq<char>) -> Seq<char> {
    spec_trim(spec_cut_marker(spec_trim(spec_collapse(spec_strip_tags(spec_decode_text(s))))))
}

/// Strips complete markup tags from a character vector.
pub fn strip_tags_chars(s: &Vec<char>) -> (r: Vec<char>)
    ensures
        r@ == spec_strip_tags(s@),
{
    let mut out: Vec<char> = Vec::new();
    let mut i: usize = 0;
    proof {
        assert(s@.skip(0) =~= s@);
    }
    while i < s.len()
        invariant
            0 <= i <= s@.len(),
            spec_strip_tags(s@) == out@ + spec_strip_tags(s@.skip(i as int)),
        decreases s@.len() - i,
    {
        let ghost rem = s@.skip(i as int);
        if s[i] == '<' {
            let mut j: usize = i;
            while j < s.len() && s[j] != '>'
                invariant
                    i <= j <= s@.len(),
                    forall|k: int| i <= k < j ==> s@[k] != '>',
                decreases s@.len() - j,
            {
                j = j + 1;
            }
            proof {
                lemma_find_props(rem, '>');
            }
            if j == s.len() {
                proof {
                    assert(spec_find(rem, '>') < 0) by {
                        if spec_find(rem, '>') >= 0 {
                            assert(rem[spec_find(rem, '>')] == s@[i + spec_find(rem, '>')]);
                        }
                    }
                    assert(spec_strip_tags(rem) == rem);
                }
                let mut k: usize = i;
                while k < s.len()
                    invariant
                        i <= k <= s@.len(),
                        out@ == spec_strip_tags(s@).take(spec_strip_tags(s@).len() - (s@.len()
                            - k)),
                        spec_strip_tags(s@) == out@ + s@.skip(i as int).skip(k - i),
                    decreases s@.len() - k,
                {
                    out.push(s[k]);
                    proof {
                        assert(s@.skip(i as int).skip(k - i) =~= seq![s@[k as int]] + s@.skip(
                            i as int,
                        ).skip(k + 1 - i));
                        assert(out@ + s@.skip(i as int).skip(k + 1 - i) =~= spec_strip_tags(s@));
                        assert(out@ =~= spec_strip_tags(s@).take(
                            spec_strip_tags(s@).len() - (s@.len() - (k + 1)),
                        ));
                    }
                    k = k + 1;
                }
                proof {
                    assert(s@.skip(i as int).skip(k - i) =~= Seq::<char>::empty());
                    assert(out@ =~= spec_strip_tags(s@));
                    assert(s@.skip(s@.len() as int) =~= Seq::<char>::empty());
                    assert(out@ + spec_strip_tags(s@.skip(s@.len() as int)) =~= spec_strip_tags(
                        s@,
                    ));
                }
                i = s.len();
            } else {
                proof {
                    assert(s@[j as int] == '>');
                    assert(rem[j - i] == '>');
                    assert(spec_find(rem, '>') == j - i) by {
                        let f = spec_find(rem, '>');
                        if f < 0 {
                            assert(rem[j - i] != '>');
                        } else {
                            if f < j - i {
                                assert(s@[i + f] == rem[f]);
                            }
                            if f > j - i {
                                assert(rem[j - i] != '>');
                            }
                        }
                    }
                    assert(spec_strip_tags(rem) == spec_strip_tags(rem.skip(j - i + 1)));
                    assert(rem.skip(j - i + 1) =~= s@.skip(j + 1));
                }
                i = j + 1;
            }
        } else {
            out.push(s[i]);
            proof {
                assert(rem[0] == s@[i as int]);
                assert(rem.skip(1) =~= s@.skip(i + 1));
                assert(out@ + spec_strip_tags(s@.skip(i + 1)) =~= spec_strip_tags(s@));
            }
            i = i + 1;
        }
    }
    proof {
        assert(s@.skip(i as int) =~= Seq::<char>::empty());
        assert(out@ =~= spec_strip_tags(s@));
    }
    out
}

/// Collapses whitespace runs in a character vector.
pub fn collapse_chars(s: &Vec<char>) -> (r: Vec<char>)
    ensures
        r@ == spec_collapse(s@),
{
    let mut out: Vec<char> = Vec::new();
    let mut i: usize = 0;
    proof {
        assert(s@.skip(0) =~= s@);
    }
    while i < s.len()
        invariant
            0 <= i <= s@.len(),
            spec_collapse(s@) == out@ + spec_collapse(s@.skip(i as int)),
        decreases s@.len() - i,
    {
        let ghost rem = s@.skip(i as int);
        if is_space(s[i]) {
            out.push(' ');
            let mut j: usize = i;
            while j < s.len() && is_space(s[j])
                invariant
                    i <= j <= s@.len(),
                    forall|k: int| i <= k < j ==> is_space_char(s@[k]),
                decreases s@.len() - j,
            {
                j = j + 1;
            }
            proof {
                assert(rem[0] == s@[i as int]);
                assert(forall|k: int| 0 <= k < j - i ==> is_space_char(#[trigger] rem[k]));
                if j < s@.len() {
                    assert(rem[j - i] == s@[j as int]);
                    lemma_leading_spaces_step_stop(rem, j - i);
                } else {
                    lemma_leading_spaces_bound(rem);
                    if leading_spaces(rem) < rem.len() {
                        assert(is_space_char(rem[leading_spaces(rem)]));
                    }
                }
                assert(leading_spaces(rem) == j - i);
                assert(rem.skip(j - i) =~= s@.skip(j as int));
                assert(out@ + spec_collapse(s@.skip(j as int)) =~= spec_collapse(s@));
            }
            i = j;
        } else {
            out.push(s[i]);
            proof {
                assert(rem[0] == s@[i as int]);
                assert(rem.skip(1) =~= s@.skip(i + 1));
                assert(out@ + spec_collapse(s@.skip(i + 1)) =~= spec_collapse(s@));
            }
            i = i + 1;
        }
    }
    proof {
        assert(s@.skip(i as int) =~= Seq::<char>::empty());
        assert(out@ =~= spec_collapse(s@));
    }
    out
}

/// Finds the first occurrence of `p` in `s`.
pub fn find_sub_chars(s: &Vec<char>, p: &Vec<char>) -> (r: Option<usize>)
    requires
        p@.len() > 0,
    ensures
        r is Some ==> spec_find_sub(s@, p@) == r->0,
        r is None ==> spec_find_sub(s@, p@) == -1,
{
    proof {
        lemma_find_sub_props(s@, p@);
    }
    if p.len() > s.len() {
        proof {
            if spec_find_sub(s@, p@) >= 0 {
                assert(occurs_at(s@, p@, spec_find_sub(s@, p@)));
            }
        }
        return None;
    }
    let last = s.len() - p.len();
    let mut i: usize = 0;
    while i <= last
        invariant
            0 <= i <= last + 1,
            last == s@.len() - p@.len(),
            p@.len() > 0,
            s@.len() <= usize::MAX,
            forall|k: int| 0 <= k < i ==> !occurs_at(s@, p@, k),
        decreases last + 1 - i,
    {
        if match_at(s, i, p) {
            proof {
                lemma_find_sub_props(s@, p@);
                let f = spec_find_sub(s@, p@);
                if f < 0 {
                    assert(!occurs_at(s@, p@, i as int));
                }
                assert(f >= 0);
                if f < i {
                    assert(!occurs_at(s@, p@, f));
                }
                assert(f == i);
            }
            return Some(i);
        }
        i = i + 1;
    }
    proof {
        lemma_find_sub_props(s@, p@);
        let f = spec_find_sub(s@, p@);
        if f >= 0 {
            assert(occurs_at(s@, p@, f));
            assert(f >= i);
            assert(f + p@.len() <= s@.len());
        }
    }
    None
}

/// Whether `p` occurs somewhere in `s`.
pub fn contains_chars(s: &Vec<char>, p: &Vec<char>) -> (r: bool)
    ensures
        r == crate::entities::spec_contains(s@, p@),
{
    if p.len() == 0 {
        proof {
            assert(s@.subrange(0, 0) =~= p@);
            assert(occurs_at(s@, p@, 0));
        }
        return true;
    }
    match find_sub_chars(s, p) {
        Some(j) => {
            proof {
                lemma_find_sub_props(s@, p@);
            }
            true
        },
        None => {
            proof {
                lemma_find_sub_props(s@, p@);
            }
            false
        },
    }
}

/// Builds the note marker pattern.
pub fn note_marker_chars() -> (v: Vec<char>)
    ensures
        v@ == note_marker(),
{
    let v = str_to_chars("说明：");
    proof {
        reveal_strlit("说明：");
        assert(v@ =~= note_marker());
    }
    v
}

/// Cuts a character vector at the first note marker.
pub fn cut_marker_chars(s: &Vec<char>) -> (r: Vec<char>)
    ensures
        r@ == spec_cut_marker(s@),
{
    let marker = note_marker_chars();
    match find_sub_chars(s, &marker) {
        None => {
            let mut r: Vec<char> = Vec::new();
            let mut i: usize = 0;
            while i < s.len()
                invariant
                    0 <= i <= s@.len(),
                    r@ == s@.subrange(0, i as int),
                decreases s@.len() - i,
            {
                r.push(s[i]);
                proof {
                    assert(r@ =~= s@.subrange(0, i + 1));
                }
                i = i + 1;
            }
            proof {
                assert(r@ =~= spec_cut_marker(s@));
            }
            r
        },
        Some(j) => {
            proof {
                lemma_find_sub_props(s@, note_marker());
                assert(occurs_at(s@, note_marker(), j as int));
            }
            let mut r: Vec<char> = Vec::new();
            let mut i: usize = 0;
            while i < j
                invariant
                    0 <= i <= j,
                    j + note_marker().len() <= s@.len(),
                    r@ == s@.subrange(0, i as int),
                decreases j - i,
            {
                r.push(s[i]);
                proof {
                    assert(r@ =~= s@.subrange(0, i + 1));
                }
                i = i + 1;
            }
            proof {
                assert(r@ =~= spec_cut_marker(s@));
            }
            r
        },
    }
}

/// No complete tag is left: no `<` has a `>` anywhere after it.
pub open spec fn tag_free(s: Seq<char>) -> bool {
    forall|i: int, j: int| 0 <= i < j < s.len() ==> !(s[i] == '<' && s[j] == '>')
}

/// Whitespace is in normal form: every whitespace character is a plain space
/// and no two spaces are adjacent.
pub open spec fn ws_normal(s: Seq<char>) -> bool {
    &&& forall|i: int| 0 <= i < s.len() ==> (is_space_char(#[trigger] s[i]) ==> s[i] == ' ')
    &&& forall|i: int| 0 <= i < s.len() - 1 ==> !(#[trigger] s[i] == ' ' && s[i + 1] == ' ')
}

/// The note marker occurs nowhere in `s`.
pub open spec fn marker_free(s: Seq<char>) -> bool {
    forall|i: int| !occurs_at(s, note_marker(), i)
}

proof fn lemma_tag_free_subrange(s: Seq<char>, a: int, b: int)
    requires
        tag_free(s),
        0 <= a <= b <= s.len(),
    ensures
        tag_free(s.subrange(a, b)),
{
    assert forall|i: int, j: int|
        0 <= i < j < s.subrange(a, b).len() implies !(s.subrange(a, b)[i] == '<' && s.subrange(
        a,
        b,
    )[j] == '>') by {
        assert(s.subrange(a, b)[i] == s[a + i]);
        assert(s.subrange(a, b)[j] == s[a + j]);
    }
}

proof fn lemma_ws_normal_subrange(s: Seq<char>, a: int, b: int)
    requires
        ws_normal(s),
        0 <= a <= b <= s.len(),
    ensures
        ws_normal(s.subrange(a, b)),
{
    let t = s.subrange(a, b);
    assert forall|i: int| 0 <= i < t.len() implies (is_space_char(#[trigger] t[i]) ==> t[i]
        == ' ') by {
        assert(t[i] == s[a + i]);
    }
    assert forall|i: int| 0 <= i < t.len() - 1 implies !(#[trigger] t[i] == ' ' && t[i + 1]
        == ' ') by {
        assert(t[i] == s[a + i]);
        assert(t[i + 1] == s[a + i + 1]);
    }
}

proof fn lemma_marker_free_subrange(s: Seq<char>, a: int, b: int)
    requires
        marker_free(s),
        0 <= a <= b <= s.len(),
    ensures
        marker_free(s.subrange(a, b)),
{
    let t = s.subrange(a, b);
    assert forall|i: int| !occurs_at(t, note_marker(), i) by {
        if occurs_at(t, note_marker(), i) {
            assert(t.subrange(i, i + 3) =~= s.subrange(a + i, a + i + 3));
            assert(occurs_at(s, note_marker(), a + i));
        }
    }
}

proof fn lemma_tag_free_skip(s: Seq<char>, k: int)
    requires
        tag_free(s),
        0 <= k <= s.len(),
    ensures
        tag_free(s.skip(k)),
{
    lemma_tag_free_subrange(s, k, s.len() as int);
}

proof fn lemma_ws_normal_skip(s: Seq<char>, k: int)
    requires
        ws_normal(s),
        0 <= k <= s.len(),
    ensures
        ws_normal(s.skip(k)),
{
    lemma_ws_normal_subrange(s, k, s.len() as int);
}

/// Stripping leaves no complete tag behind.
proof fn lemma_strip_tag_free(s: Seq<char>)
    ensures
        tag_free(spec_strip_tags(s)),
    decreases s.len(),
{
    lemma_find_props(s, '>');
    if s.len() == 0 {
    } else if s[0] == '<' {
        let j = spec_find(s, '>');
        if j >= 0 {
            lemma_strip_tag_free(s.skip(j + 1));
        } else {
            // No `>` exists anywhere, so no pair can form.
        }
    } else {
        lemma_strip_tag_free(s.skip(1));
        let out = seq![s[0]] + spec_strip_tags(s.skip(1));
        let tail = spec_strip_tags(s.skip(1));
        assert forall|i: int, j: int| 0 <= i < j < out.len() implies !(out[i] == '<' && out[j]
            == '>') by {
            if i > 0 {
                assert(out[i] == tail[i - 1]);
                assert(out[j] == tail[j - 1]);
            } else {
                assert(out[0] == s[0]);
            }
        }
    }
}

/// On text with no complete tag, stripping changes nothing.
proof fn lemma_strip_id(s: Seq<char>)
    requires
        tag_free(s),
    ensures
        spec_strip_tags(s) == s,
    decreases s.len(),
{
    if s.len() == 0 {
        assert(spec_strip_tags(s) =~= s);
    } else if s[0] == '<' {
        let j = spec_find(s, '>');
        lemma_find_props(s, '>');
        if j >= 0 {
            assert(s[j] == '>');
            assert(j != 0);
            assert(!(s[0] == '<' && s[j] == '>'));
            assert(false);
        }
    } else {
        lemma_tag_free_skip(s, 1);
        lemma_strip_id(s.skip(1));
        assert(spec_strip_tags(s) =~= s);
    }
}

/// Collapsing introduces no character besides the space.
proof fn lemma_collapse_no_char(s: Seq<char>, c: char)
    requires
        c != ' ',
        forall|i: int| 0 <= i < s.len() ==> s[i] != c,
    ensures
        forall|i: int| 0 <= i < spec_collapse(s).len() ==> spec_collapse(s)[i] != c,
    decreases s.len(),
{
    if s.len() == 0 {
    } else if is_space_char(s[0]) {
        let k = leading_spaces(s);
        lemma_leading_spaces_bound(s);
        assert(forall|i: int| 0 <= i < s.skip(k).len() ==> s.skip(k)[i] != c) by {
            assert(forall|i: int| 0 <= i < s.skip(k).len() ==> #[trigger] s.skip(k)[i] == s[k + i]);
        }
        lemma_collapse_no_char(s.skip(k), c);
        let out = seq![' '] + spec_collapse(s.skip(k));
        assert forall|i: int| 0 <= i < out.len() implies out[i] != c by {
            if i > 0 {
                assert(out[i] == spec_collapse(s.skip(k))[i - 1]);
            }
        }
    } else {
        assert(forall|i: int| 0 <= i < s.skip(1).len() ==> #[trigger] s.skip(1)[i] == s[1 + i]);
        lemma_collapse_no_char(s.skip(1), c);
        let out = seq![s[0]] + spec_collapse(s.skip(1));
        assert forall|i: int| 0 <= i < out.len() implies out[i] != c by {
            if i > 0 {
                assert(out[i] == spec_collapse(s.skip(1))[i - 1]);
            }
        }
    }
}

/// Collapsing keeps text free of complete tags.
proof fn lemma_collapse_tag_free(s: Seq<char>)
    requires
        tag_free(s),
    ensures
        tag_free(spec_collapse(s)),
    decreases s.len(),
{
    if s.len() == 0 {
    } else if is_space_char(s[0]) {
        let k = leading_spaces(s);
        lemma_leading_spaces_bound(s);
        lemma_tag_free_skip(s, k);
        lemma_collapse_tag_free(s.skip(k));
        let tail = spec_collapse(s.skip(k));
        let out = seq![' '] + tail;
        assert forall|i: int, j: int| 0 <= i < j < out.len() implies !(out[i] == '<' && out[j]
            == '>') by {
            if i > 0 {
                assert(out[i] == tail[i - 1]);
                assert(out[j] == tail[j - 1]);
            }
        }
    } else {
        lemma_tag_free_skip(s, 1);
        lemma_collapse_tag_free(s.skip(1));
        let tail = spec_collapse(s.skip(1));
        let out = seq![s[0]] + tail;
        assert forall|i: int, j: int| 0 <= i < j < out.len() implies !(out[i] == '<' && out[j]
            == '>') by {
            if i > 0 {
                assert(out[i] == tail[i - 1]);
                assert(out[j] == tail[j - 1]);
            } else {
                assert(out[0] == s[0]);
                if s[0] == '<' {
                    // No `>` may follow a `<`, so the tail holds none at all.
                    assert(forall|m: int| 0 <= m < s.skip(1).len() ==> s.skip(1)[m] != '>') by {
                        assert(forall|m: int|
                            0 <= m < s.skip(1).len() ==> #[trigger] s.skip(1)[m] == s[1 + m]);
                    }
                    lemma_collapse_no_char(s.skip(1), '>');
                    assert(out[j] == tail[j - 1]);
                }
            }
        }
    }
}

/// Collapsed text has normal whitespace.
proof fn lemma_collapse_ws_normal(s: Seq<char>)
    ensures
        ws_normal(spec_collapse(s)),
    decreases s.len(),
{
    if s.len() == 0 {
    } else if is_space_char(s[0]) {
        let k = leading_spaces(s);
        lemma_leading_spaces_bound(s);
        lemma_collapse_ws_normal(s.skip(k));
        let tail = spec_collapse(s.skip(k));
        let out = seq![' '] + tail;
        assert(tail.len() > 0 ==> tail[0] != ' ') by {
            if s.skip(k).len() > 0 {
                assert(!is_space_char(s.skip(k)[0]));
                assert(tail[0] == s.skip(k)[0]);
            }
        }
        assert forall|i: int| 0 <= i < out.len() implies (is_space_char(#[trigger] out[i])
            ==> out[i] == ' ') by {
            if i > 0 {
                assert(out[i] == tail[i - 1]);
            }
        }
        assert forall|i: int| 0 <= i < out.len() - 1 implies !(#[trigger] out[i] == ' ' && out[i
            + 1] == ' ') by {
            if i > 0 {
                assert(out[i] == tail[i - 1]);
                assert(out[i + 1] == tail[i]);
            } else {
                assert(out[1] == tail[0]);
            }
        }
    } else {
        lemma_collapse_ws_normal(s.skip(1));
        let tail = spec_collapse(s.skip(1));
        let out = seq![s[0]] + tail;
        assert forall|i: int| 0 <= i < out.len() implies (is_space_char(#[trigger] out[i])
            ==> out[i] == ' ') by {
            if i > 0 {
                assert(out[i] == tail[i - 1]);
            }
        }
        assert forall|i: int| 0 <= i < out.len() - 1 implies !(#[trigger] out[i] == ' ' && out[i
            + 1] == ' ') by {
            if i > 0 {
                assert(out[i] == tail[i - 1]);
                assert(out[i + 1] == tail[i]);
            }
        }
    }
}

/// On text whose whitespace is already normal, collapsing changes nothing.
proof fn lemma_collapse_id(s: Seq<char>)
    requires
        ws_normal(s),
    ensures
        spec_collapse(s) == s,
    decreases s.len(),
{
    if s.len() == 0 {
        assert(spec_collapse(s) =~= s);
    } else if is_space_char(s[0]) {
        assert(s[0] == ' ');
        let k = leading_spaces(s);
        assert(k == 1) by {
            if s.len() > 1 {
                assert(!(s[0] == ' ' && s[1] == ' '));
                assert(!is_space_char(s[1]));
                lemma_leading_spaces_step_stop(s, 1);
            } else {
                lemma_leading_spaces_bound(s);
            }
        }
        lemma_ws_normal_skip(s, 1);
        lemma_collapse_id(s.skip(1));
        assert(spec_collapse(s) =~= s);
    } else {
        lemma_ws_normal_skip(s, 1);
        lemma_collapse_id(s.skip(1));
        assert(spec_collapse(s) =~= s);
    }
}

/// Cutting leaves no marker behind.
proof fn lemma_cut_marker_free(s: Seq<char>)
    ensures
        marker_free(spec_cut_marker(s)),
{
    lemma_find_sub_props(s, note_marker());
    let j = spec_find_sub(s, note_marker());
    if j < 0 {
    } else {
        let out = s.take(j);
        assert forall|i: int| !occurs_at(out, note_marker(), i) by {
            if occurs_at(out, note_marker(), i) {
                assert(out.subrange(i, i + 3) =~= s.subrange(i, i + 3));
                assert(occurs_at(s, note_marker(), i));
            }
        }
    }
}

/// On text without the marker, cutting changes nothing.
proof fn lemma_cut_id(s: Seq<char>)
    requires
        marker_free(s),
    ensures
        spec_cut_marker(s) == s,
{
    lemma_find_sub_props(s, note_marker());
    let j = spec_find_sub(s, note_marker());
    if j >= 0 {
        assert(occurs_at(s, note_marker(), j));
    }
}

/// Cleaned text is in normal form: trimmed, with normal whitespace, and with
/// neither a complete tag nor a note marker.
pub proof fn lemma_clean_normal_form(s: Seq<char>)
    ensures
        tag_free(spec_clean(s)),
        ws_normal(spec_clean(s)),
        marker_free(spec_clean(s)),
        is_trimmed(spec_clean(s)),
{
    let d = spec_decode_text(s);
    let t = spec_strip_tags(d);
    let c = spec_collapse(t);
    let tr = spec_trim(c);
    let m = spec_cut_marker(tr);
    let out = spec_trim(m);
    lemma_strip_tag_free(d);
    lemma_collapse_tag_free(t);
    lemma_collapse_ws_normal(t);
    crate::chars::lemma_leading_spaces_bound(c);
    crate::chars::lemma_trailing_spaces_bound(c);
    if leading_spaces(c) == c.len() {
        assert(tr =~= c.subrange(0, 0));
    }
    lemma_tag_free_subrange(c, if leading_spaces(c) == c.len() { 0 } else { leading_spaces(c) },
        if leading_spaces(c) == c.len() { 0 } else { c.len() - crate::chars::trailing_spaces(c) });
    lemma_ws_normal_subrange(c, if leading_spaces(c) == c.len() { 0 } else { leading_spaces(c) },
        if leading_spaces(c) == c.len() { 0 } else { c.len() - crate::chars::trailing_spaces(c) });
    assert(tag_free(tr) && ws_normal(tr));
    lemma_cut_marker_free(tr);
    lemma_find_sub_props(tr, note_marker());
    let j = spec_find_sub(tr, note_marker());
    if j >= 0 {
        assert(occurs_at(tr, note_marker(), j));
        assert(m =~= tr.subrange(0, j));
        lemma_tag_free_subrange(tr, 0, j);
        lemma_ws_normal_subrange(tr, 0, j);
    } else {
        assert(m == tr);
    }
    assert(tag_free(m) && ws_normal(m) && marker_free(m));
    crate::chars::lemma_leading_spaces_bound(m);
    crate::chars::lemma_trailing_spaces_bound(m);
    if leading_spaces(m) == m.len() {
        assert(out =~= m.subrange(0, 0));
        lemma_tag_free_subrange(m, 0, 0);
        lemma_ws_normal_subrange(m, 0, 0);
        lemma_marker_free_subrange(m, 0, 0);
    } else {
        lemma_tag_free_subrange(m, leading_spaces(m), m.len() - crate::chars::trailing_spaces(m));
        lemma_ws_normal_subrange(m, leading_spaces(m), m.len() - crate::chars::trailing_spaces(m));
        lemma_marker_free_subrange(
            m,
            leading_spaces(m),
            m.len() - crate::chars::trailing_spaces(m),
        );
    }
    lemma_trim_trimmed(m);
}

/// Cleaning is idempotent: a second pass returns the first pass's output
/// unchanged.  The one family of inputs left out is texts whose cleaned form
/// still holds a decodable entity (the first pass can uncover one when the
/// input stacked entities inside entities, as in `&amp;amp;amp;amp;`); on
/// those the second pass decodes further.
pub proof fn lemma_clean_idempotent(s: Seq<char>)
    requires
        std_entity_free(spec_clean(s)),
    ensures
        spec_clean(spec_clean(s)) == spec_clean(s),
{
    let c = spec_clean(s);
    lemma_clean_normal_form(s);
    lemma_std_free_implies_double_free(c);
    lemma_decode_double_id(c);
    lemma_decode_std_id(c);
    assert(spec_decode_text(c) == c);
    lemma_strip_id(c);
    lemma_collapse_id(c);
    lemma_trim_of_trimmed(c);
    lemma_cut_id(c);
}

/// Cleans markup out of free text: decodes entities (double-encoded forms
/// first), strips complete tags, collapses whitespace, trims, and truncates
/// at the note marker.
pub fn clean_html_tags(text: &str) -> (r: String)
    ensures
        r@ == spec_clean(text@),
{
    let raw = str_to_chars(text);
    let finished = clean_chars(&raw);
    crate::chars::chars_to_string(&finished)
}

/// The cleaning pass over a character vector.
pub fn clean_chars(raw: &Vec<char>) -> (r: Vec<char>)
    ensures
        r@ == spec_clean(raw@),
{
    let decoded = decode_text_chars(raw);
    let stripped = strip_tags_chars(&decoded);
    let collapsed = collapse_chars(&stripped);
    let trimmed = trim_chars(&collapsed);
    let cut = cut_marker_chars(&trimmed);
    trim_chars(&cut)
}

} // verus!
