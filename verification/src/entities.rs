//! Markup entity encoding and decoding.
//!
//! The persisted document escapes the five markup characters on write.  On
//! read, text is decoded in two passes: first the double-encoded entities
//! (`&amp;lt;` and friends, produced when an already-escaped document was
//! escaped a second time), then the normal markup entities.  Only the named
//! entities below are decoded; an unknown name or a numeric character
//! reference (`&#65;`) passes through as plain text rather than aborting the
//! parse.  The serializer writes named entities alone, so the round trip
//! never meets a numeric reference.

use vstd::prelude::*;

verus! {

// The decodable entities, as character sequences.
pub open spec fn e_lt() -> Seq<char> {
    seq!['&', 'l', 't', ';']
}

pub open spec fn e_gt() -> Seq<char> {
    seq!['&', 'g', 't', ';']
}

pub open spec fn e_quot() -> Seq<char> {
    seq!['&', 'q', 'u', 'o', 't', ';']
}

pub open spec fn e_apos() -> Seq<char> {
    seq!['&', 'a', 'p', 'o', 's', ';']
}

pub open spec fn e_amp() -> Seq<char> {
    seq!['&', 'a', 'm', 'p', ';']
}

pub open spec fn e_nbsp() -> Seq<char> {
    seq!['&', 'n', 'b', 's', 'p', ';']
}

pub open spec fn e_copy() -> Seq<char> {
    seq!['&', 'c', 'o', 'p', 'y', ';']
}

pub open spec fn e_reg() -> Seq<char> {
    seq!['&', 'r', 'e', 'g', ';']
}

pub open spec fn e_trade() -> Seq<char> {
    seq!['&', 't', 'r', 'a', 'd', 'e', ';']
}

// The double-encoded forms: an escaped ampersand followed by the entity name.
pub open spec fn d_lt() -> Seq<char> {
    seq!['&', 'a', 'm', 'p', ';', 'l', 't', ';']
}

pub open spec fn d_gt() -> Seq<char> {
    seq!['&', 'a', 'm', 'p', ';', 'g', 't', ';']
}

pub open spec fn d_quot() -> Seq<char> {
    seq!['&', 'a', 'm', 'p', ';', 'q', 'u', 'o', 't', ';']
}

pub open spec fn d_apos() -> Seq<char> {
    seq!['&', 'a', 'm', 'p', ';', 'a', 'p', 'o', 's', ';']
}

pub open spec fn d_amp() -> Seq<char> {
    seq!['&', 'a', 'm', 'p', ';', 'a', 'm', 'p', ';']
}

/// `p` occurs in `s` at position `i`.
pub open spec fn occurs_at(s: Seq<char>, p: Seq<char>, i: int) -> bool {
    0 <= i && i + p.len() <= s.len() && s.subrange(i, i + p.len()) == p
}

/// `s` begins with `p`.
pub open spec fn begins(s: Seq<char>, p: Seq<char>) -> bool {
    occurs_at(s, p, 0)
}

/// `s` holds `p` somewhere.
pub open spec fn spec_contains(s: Seq<char>, p: Seq<char>) -> bool {
    exists|i: int| occurs_at(s, p, i)
}

/// One of the nine decodable entities begins at position `i` of `s`.
pub open spec fn std_entity_at(s: Seq<char>, i: int) -> bool {
    ||| occurs_at(s, e_lt(), i)
    ||| occurs_at(s, e_gt(), i)
    ||| occurs_at(s, e_quot(), i)
    ||| occurs_at(s, e_apos(), i)
    ||| occurs_at(s, e_amp(), i)
    ||| occurs_at(s, e_nbsp(), i)
    ||| occurs_at(s, e_copy(), i)
    ||| occurs_at(s, e_reg(), i)
    ||| occurs_at(s, e_trade(), i)
}

/// No decodable entity occurs anywhere in `s`.
pub open spec fn std_entity_free(s: Seq<char>) -> bool {
    forall|i: int| !std_entity_at(s, i)
}

/// One of the five double-encoded entities begins at position `i` of `s`.
pub open spec fn double_entity_at(s: Seq<char>, i: int) -> bool {
    ||| occurs_at(s, d_lt(), i)
    ||| occurs_at(s, d_gt(), i)
    ||| occurs_at(s, d_quot(), i)
    ||| occurs_at(s, d_apos(), i)
    ||| occurs_at(s, d_amp(), i)
}

/// No double-encoded entity occurs anywhere in `s`.
pub open spec fn double_entity_free(s: Seq<char>) -> bool {
    forall|i: int| !double_entity_at(s, i)
}

/// First decoding pass: contract double-encoded entities.
pub open spec fn spec_decode_double(s: Seq<char>) -> Seq<char>
    decreases s.len(),
{
    if s.len() == 0 {
        Seq::empty()
    } else if begins(s, d_lt()) {
        seq!['<'] + spec_decode_double(s.skip(8))
    } else if begins(s, d_gt()) {
        seq!['>'] + spec_decode_double(s.skip(8))
    } else if begins(s, d_quot()) {
        seq!['"'] + spec_decode_double(s.skip(10))
    } else if begins(s, d_apos()) {
        seq!['\''] + spec_decode_double(s.skip(10))
    } else if begins(s, d_amp()) {
        seq!['&'] + spec_decode_double(s.skip(9))
    } else {
        seq![s[0]] + spec_decode_double(s.skip(1))
    }
}

/// Second decoding pass: contract normal markup entities.
pub open spec fn spec_decode_std(s: Seq<char>) -> Seq<char>
    decreases s.len(),
{
    if s.len() == 0 {
        Seq::empty()
    } else if begins(s, e_lt()) {
        seq!['<'] + spec_decode_std(s.skip(4))
    } else if begins(s, e_gt()) {
        seq!['>'] + spec_decode_std(s.skip(4))
    } else if begins(s, e_quot()) {
        seq!['"'] + spec_decode_std(s.skip(6))
    } else if begins(s, e_apos()) {
        seq!['\''] + spec_decode_std(s.skip(6))
    } else if begins(s, e_amp()) {
        seq!['&'] + spec_decode_std(s.skip(5))
    } else if begins(s, e_nbsp()) {
        seq![' '] + spec_decode_std(s.skip(6))
    } else if begins(s, e_copy()) {
        seq!['©'] + spec_decode_std(s.skip(6))
    } else if begins(s, e_reg()) {
        seq!['®'] + spec_decode_std(s.skip(5))
    } else if begins(s, e_trade()) {
        seq!['™'] + spec_decode_std(s.skip(7))
    } else {
        seq![s[0]] + spec_decode_std(s.skip(1))
    }
}

/// Both decoding passes, in the order the codec applies them.
pub open spec fn spec_decode_text(s: Seq<char>) -> Seq<char> {
    spec_decode_std(spec_decode_double(s))
}

/// Escaping: expand the five markup characters into entities.
pub open spec fn spec_escape(s: Seq<char>) -> Seq<char>
    decreases s.len(),
{
    if s.len() == 0 {
        Seq::empty()
    } else {
        let rest = spec_escape(s.skip(1));
        if s[0] == '&' {
            e_amp() + rest
        } else if s[0] == '<' {
            e_lt() + rest
        } else if s[0] == '>' {
            e_gt() + rest
        } else if s[0] == '"' {
            e_quot() + rest
        } else if s[0] == '\'' {
            e_apos() + rest
        } else {
            seq![s[0]] + rest
        }
    }
}

/// The characters that escaping expands.
pub open spec fn is_markup_char(c: char) -> bool {
    c == '&' || c == '<' || c == '>' || c == '"' || c == '\''
}

/// An occurrence inside a suffix is an occurrence in the whole string.
pub proof fn lemma_occurs_skip(s: Seq<char>, k: int, p: Seq<char>, i: int)
    requires
        0 <= k <= s.len(),
        0 <= i,
    ensures
        occurs_at(s.skip(k), p, i) == occurs_at(s, p, k + i),
{
    if i + p.len() <= s.skip(k).len() {
        assert(s.skip(k).subrange(i, i + p.len()) =~= s.subrange(k + i, k + i + p.len()));
    }
}

/// Entity freeness carries over to suffixes.
pub proof fn lemma_std_free_skip(s: Seq<char>, k: int)
    requires
        0 <= k <= s.len(),
        std_entity_free(s),
    ensures
        std_entity_free(s.skip(k)),
{
    assert forall|i: int| !std_entity_at(s.skip(k), i) by {
        if i >= 0 {
            lemma_occurs_skip(s, k, e_lt(), i);
            lemma_occurs_skip(s, k, e_gt(), i);
            lemma_occurs_skip(s, k, e_quot(), i);
            lemma_occurs_skip(s, k, e_apos(), i);
            lemma_occurs_skip(s, k, e_amp(), i);
            lemma_occurs_skip(s, k, e_nbsp(), i);
            lemma_occurs_skip(s, k, e_copy(), i);
            lemma_occurs_skip(s, k, e_reg(), i);
            lemma_occurs_skip(s, k, e_trade(), i);
            assert(!std_entity_at(s, k + i));
        }
    }
}

/// Double-entity freeness carries over to suffixes.
pub proof fn lemma_double_free_skip(s: Seq<char>, k: int)
    requires
        0 <= k <= s.len(),
        double_entity_free(s),
    ensures
        double_entity_free(s.skip(k)),
{
    assert forall|i: int| !double_entity_at(s.skip(k), i) by {
        if i >= 0 {
            lemma_occurs_skip(s, k, d_lt(), i);
            lemma_occurs_skip(s, k, d_gt(), i);
            lemma_occurs_skip(s, k, d_quot(), i);
            lemma_occurs_skip(s, k, d_apos(), i);
            lemma_occurs_skip(s, k, d_amp(), i);
            assert(!double_entity_at(s, k + i));
        }
    }
}

/// Every double-encoded entity starts with an escaped ampersand, so a string
/// without normal entities holds no double-encoded entity either.
pub proof fn lemma_std_free_implies_double_free(s: Seq<char>)
    requires
        std_entity_free(s),
    ensures
        double_entity_free(s),
{
    assert forall|i: int| !double_entity_at(s, i) by {
        if double_entity_at(s, i) {
            assert(occurs_at(s, e_amp(), i)) by {
                if occurs_at(s, d_lt(), i) {
                    assert(s.subrange(i, i + 5) =~= e_amp()) by {
                        assert forall|j: int| 0 <= j < 5 implies s.subrange(i, i + 5)[j]
                            == e_amp()[j] by {
                            assert(s.subrange(i, i + 8)[j] == s[i + j]);
                        }
                    }
                }
                if occurs_at(s, d_gt(), i) {
                    assert(s.subrange(i, i + 5) =~= e_amp()) by {
                        assert forall|j: int| 0 <= j < 5 implies s.subrange(i, i + 5)[j]
                            == e_amp()[j] by {
                            assert(s.subrange(i, i + 8)[j] == s[i + j]);
                        }
                    }
                }
                if occurs_at(s, d_quot(), i) {
                    assert(s.subrange(i, i + 5) =~= e_amp()) by {
                        assert forall|j: int| 0 <= j < 5 implies s.subrange(i, i + 5)[j]
                            == e_amp()[j] by {
                            assert(s.subrange(i, i + 10)[j] == s[i + j]);
                        }
                    }
                }
                if occurs_at(s, d_apos(), i) {
                    assert(s.subrange(i, i + 5) =~= e_amp()) by {
                        assert forall|j: int| 0 <= j < 5 implies s.subrange(i, i + 5)[j]
                            == e_amp()[j] by {
                            assert(s.subrange(i, i + 10)[j] == s[i + j]);
                        }
                    }
                }
                if occurs_at(s, d_amp(), i) {
                    assert(s.subrange(i, i + 5) =~= e_amp()) by {
                        assert forall|j: int| 0 <= j < 5 implies s.subrange(i, i + 5)[j]
                            == e_amp()[j] by {
                            assert(s.subrange(i, i + 9)[j] == s[i + j]);
                        }
                    }
                }
            }
            assert(std_entity_at(s, i));
        }
    }
}

/// On a string with no double-encoded entity, the first pass changes nothing.
pub proof fn lemma_decode_double_id(s: Seq<char>)
    requires
        double_entity_free(s),
    ensures
        spec_decode_double(s) == s,
    decreases s.len(),
{
    if s.len() == 0 {
        assert(spec_decode_double(s) =~= s);
    } else {
        assert(!double_entity_at(s, 0));
        lemma_double_free_skip(s, 1);
        lemma_decode_double_id(s.skip(1));
        assert(spec_decode_double(s) =~= s);
    }
}

/// On a string with no normal entity, the second pass changes nothing.
pub proof fn lemma_decode_std_id(s: Seq<char>)
    requires
        std_entity_free(s),
    ensures
        spec_decode_std(s) == s,
    decreases s.len(),
{
    if s.len() == 0 {
        assert(spec_decode_std(s) =~= s);
    } else {
        assert(!std_entity_at(s, 0));
        lemma_std_free_skip(s, 1);
        lemma_decode_std_id(s.skip(1));
        assert(spec_decode_std(s) =~= s);
    }
}

/// The second decoding pass undoes escaping exactly, on every string.
pub proof fn lemma_decode_std_of_escape(s: Seq<char>)
    ensures
        spec_decode_std(spec_escape(s)) == s,
    decreases s.len(),
{
    if s.len() == 0 {
    } else {
        let rest = s.skip(1);
        lemma_decode_std_of_escape(rest);
        let x = spec_escape(s);
        if s[0] == '&' {
            assert(x =~= e_amp() + spec_escape(rest));
            lemma_begins_char(x, e_lt(), 1);
            lemma_begins_char(x, e_gt(), 1);
            lemma_begins_char(x, e_quot(), 1);
            lemma_begins_char(x, e_apos(), 2);
            assert(begins(x, e_amp())) by {
                assert(x.subrange(0, 5) =~= e_amp());
            }
            assert(x.skip(5) =~= spec_escape(rest));
            assert(spec_decode_std(x) =~= s);
        } else if s[0] == '<' {
            assert(x =~= e_lt() + spec_escape(rest));
            assert(begins(x, e_lt())) by {
                assert(x.subrange(0, 4) =~= e_lt());
            }
            assert(x.skip(4) =~= spec_escape(rest));
            assert(spec_decode_std(x) =~= s);
        } else if s[0] == '>' {
            assert(x =~= e_gt() + spec_escape(rest));
            lemma_begins_char(x, e_lt(), 1);
            assert(begins(x, e_gt())) by {
                assert(x.subrange(0, 4) =~= e_gt());
            }
            assert(x.skip(4) =~= spec_escape(rest));
            assert(spec_decode_std(x) =~= s);
        } else if s[0] == '"' {
            assert(x =~= e_quot() + spec_escape(rest));
            lemma_begins_char(x, e_lt(), 1);
            lemma_begins_char(x, e_gt(), 1);
            assert(begins(x, e_quot())) by {
                assert(x.subrange(0, 6) =~= e_quot());
            }
            assert(x.skip(6) =~= spec_escape(rest));
            assert(spec_decode_std(x) =~= s);
        } else if s[0] == '\'' {
            assert(x =~= e_apos() + spec_escape(rest));
            lemma_begins_char(x, e_lt(), 1);
            lemma_begins_char(x, e_gt(), 1);
            lemma_begins_char(x, e_quot(), 1);
            assert(begins(x, e_apos())) by {
                assert(x.subrange(0, 6) =~= e_apos());
            }
            assert(x.skip(6) =~= spec_escape(rest));
            assert(spec_decode_std(x) =~= s);
        } else {
            assert(x =~= seq![s[0]] + spec_escape(rest));
            lemma_begins_char(x, e_lt(), 0);
            lemma_begins_char(x, e_gt(), 0);
            lemma_begins_char(x, e_quot(), 0);
            lemma_begins_char(x, e_apos(), 0);
            lemma_begins_char(x, e_amp(), 0);
            lemma_begins_char(x, e_nbsp(), 0);
            lemma_begins_char(x, e_copy(), 0);
            lemma_begins_char(x, e_reg(), 0);
            lemma_begins_char(x, e_trade(), 0);
            assert(x.skip(1) =~= spec_escape(rest));
            assert(spec_decode_std(x) =~= s);
        }
    }
}

/// `x` does not begin with `p` when they differ at index `k`.
proof fn lemma_begins_char(x: Seq<char>, p: Seq<char>, k: int)
    requires
        0 <= k < p.len(),
        k < x.len() ==> x[k] != p[k],
    ensures
        !begins(x, p),
{
    if begins(x, p) {
        assert(x.subrange(0, p.len() as int)[k] == p[k]);
    }
}

/// A pattern made of unescaped characters begins an escaped string exactly
/// when it begins the original.
proof fn lemma_escape_begins_plain(t: Seq<char>, p: Seq<char>)
    requires
        forall|j: int| 0 <= j < p.len() ==> !is_markup_char(#[trigger] p[j]),
    ensures
        begins(spec_escape(t), p) == begins(t, p),
    decreases p.len(),
{
    if p.len() == 0 {
        assert(begins(spec_escape(t), p)) by {
            assert(spec_escape(t).subrange(0, 0) =~= p);
        }
        assert(begins(t, p)) by {
            assert(t.subrange(0, 0) =~= p);
        }
    } else if t.len() == 0 {
        assert(spec_escape(t).len() == 0);
        assert(!begins(spec_escape(t), p));
        assert(!begins(t, p));
    } else {
        let x = spec_escape(t);
        if is_markup_char(t[0]) {
            assert(x[0] == '&') by {
                if t[0] == '&' {
                    assert(x =~= e_amp() + spec_escape(t.skip(1)));
                } else if t[0] == '<' {
                    assert(x =~= e_lt() + spec_escape(t.skip(1)));
                } else if t[0] == '>' {
                    assert(x =~= e_gt() + spec_escape(t.skip(1)));
                } else if t[0] == '"' {
                    assert(x =~= e_quot() + spec_escape(t.skip(1)));
                } else {
                    assert(x =~= e_apos() + spec_escape(t.skip(1)));
                }
            }
            assert(!is_markup_char(p[0]));
            lemma_begins_char(x, p, 0);
            lemma_begins_char(t, p, 0);
        } else {
            assert(x =~= seq![t[0]] + spec_escape(t.skip(1)));
            lemma_escape_begins_plain(t.skip(1), p.skip(1));
            assert(forall|j: int| 0 <= j < p.skip(1).len() ==> !is_markup_char(
                #[trigger] p.skip(1)[j],
            ));
            if t[0] == p[0] {
                assert(begins(x, p) == begins(x.skip(1), p.skip(1))) by {
                    lemma_begins_shift(x, p);
                }
                assert(begins(t, p) == begins(t.skip(1), p.skip(1))) by {
                    lemma_begins_shift(t, p);
                }
                assert(x.skip(1) =~= spec_escape(t.skip(1)));
            } else {
                lemma_begins_char(x, p, 0);
                lemma_begins_char(t, p, 0);
            }
        }
    }
}

/// When first characters agree, beginning with `p` reduces to the tails.
proof fn lemma_begins_shift(x: Seq<char>, p: Seq<char>)
    requires
        p.len() > 0,
        x.len() > 0,
        x[0] == p[0],
    ensures
        begins(x, p) == begins(x.skip(1), p.skip(1)),
{
    if begins(x, p) {
        assert(x.skip(1).subrange(0, p.len() - 1) =~= p.skip(1)) by {
            assert forall|j: int| 0 <= j < p.len() - 1 implies x.skip(1).subrange(
                0,
                p.len() - 1,
            )[j] == p.skip(1)[j] by {
                assert(x.subrange(0, p.len() as int)[j + 1] == p[j + 1]);
            }
        }
    }
    if begins(x.skip(1), p.skip(1)) {
        assert(x.subrange(0, p.len() as int) =~= p) by {
            assert forall|j: int| 0 <= j < p.len() implies x.subrange(0, p.len() as int)[j]
                == p[j] by {
                if j > 0 {
                    assert(x.skip(1).subrange(0, p.len() - 1)[j - 1] == p.skip(1)[j - 1]);
                }
            }
        }
    }
}

/// A run of characters other than `&` passes through the first decoding pass
/// unchanged.
proof fn lemma_decode_double_plain_run(x: Seq<char>, k: int)
    requires
        0 <= k <= x.len(),
        forall|j: int| 0 <= j < k ==> x[j] != '&',
    ensures
        spec_decode_double(x) == x.take(k) + spec_decode_double(x.skip(k)),
    decreases k,
{
    if k == 0 {
        assert(x.skip(0) =~= x);
        assert(x.take(0) + spec_decode_double(x) =~= spec_decode_double(x));
    } else {
        lemma_begins_char(x, d_lt(), 0);
        lemma_begins_char(x, d_gt(), 0);
        lemma_begins_char(x, d_quot(), 0);
        lemma_begins_char(x, d_apos(), 0);
        lemma_begins_char(x, d_amp(), 0);
        lemma_decode_double_plain_run(x.skip(1), k - 1);
        assert(x.skip(1).skip(k - 1) =~= x.skip(k));
        assert(x.skip(1).take(k - 1) =~= x.take(k).skip(1));
        assert(spec_decode_double(x) =~= x.take(k) + spec_decode_double(x.skip(k)));
    }
}

/// On an escaped string whose source holds no entity text of its own, the
/// first decoding pass changes nothing.
pub proof fn lemma_decode_double_of_escape(s: Seq<char>)
    requires
        std_entity_free(s),
    ensures
        spec_decode_double(spec_escape(s)) == spec_escape(s),
    decreases s.len(),
{
    if s.len() == 0 {
        assert(spec_decode_double(spec_escape(s)) =~= spec_escape(s));
    } else {
        let rest = s.skip(1);
        lemma_std_free_skip(s, 1);
        lemma_decode_double_of_escape(rest);
        let x = spec_escape(s);
        let xr = spec_escape(rest);
        if s[0] == '&' {
            assert(x =~= e_amp() + xr);
            // None of the five double-encoded forms begins here: that would
            // need the source to begin with an entity of its own.
            assert(!begins(x, d_lt())) by {
                if begins(x, d_lt()) {
                    assert(begins(xr, seq!['l', 't', ';'])) by {
                        assert(xr.subrange(0, 3) =~= seq!['l', 't', ';']) by {
                            assert forall|j: int| 0 <= j < 3 implies xr.subrange(0, 3)[j]
                                == seq!['l', 't', ';'][j] by {
                                assert(x.subrange(0, 8)[j + 5] == d_lt()[j + 5]);
                            }
                        }
                    }
                    lemma_escape_begins_plain(rest, seq!['l', 't', ';']);
                    assert(occurs_at(s, e_lt(), 0)) by {
                        assert(s.subrange(0, 4) =~= e_lt()) by {
                            assert(rest.subrange(0, 3) =~= seq!['l', 't', ';']);
                            assert forall|j: int| 0 <= j < 4 implies s.subrange(0, 4)[j]
                                == e_lt()[j] by {
                                if j > 0 {
                                    assert(rest.subrange(0, 3)[j - 1] == s[j]);
                                }
                            }
                        }
                    }
                    assert(std_entity_at(s, 0));
                }
            }
            assert(!begins(x, d_gt())) by {
                if begins(x, d_gt()) {
                    assert(begins(xr, seq!['g', 't', ';'])) by {
                        assert(xr.subrange(0, 3) =~= seq!['g', 't', ';']) by {
                            assert forall|j: int| 0 <= j < 3 implies xr.subrange(0, 3)[j]
                                == seq!['g', 't', ';'][j] by {
                                assert(x.subrange(0, 8)[j + 5] == d_gt()[j + 5]);
                            }
                        }
                    }
                    lemma_escape_begins_plain(rest, seq!['g', 't', ';']);
                    assert(occurs_at(s, e_gt(), 0)) by {
                        assert(s.subrange(0, 4) =~= e_gt()) by {
                            assert(rest.subrange(0, 3) =~= seq!['g', 't', ';']);
                            assert forall|j: int| 0 <= j < 4 implies s.subrange(0, 4)[j]
                                == e_gt()[j] by {
                                if j > 0 {
                                    assert(rest.subrange(0, 3)[j - 1] == s[j]);
                                }
                            }
                        }
                    }
                    assert(std_entity_at(s, 0));
                }
            }
            assert(!begins(x, d_quot())) by {
                if begins(x, d_quot()) {
                    assert(begins(xr, seq!['q', 'u', 'o', 't', ';'])) by {
                        assert(xr.subrange(0, 5) =~= seq!['q', 'u', 'o', 't', ';']) by {
                            assert forall|j: int| 0 <= j < 5 implies xr.subrange(0, 5)[j]
                                == seq!['q', 'u', 'o', 't', ';'][j] by {
                                assert(x.subrange(0, 10)[j + 5] == d_quot()[j + 5]);
                            }
                        }
                    }
                    lemma_escape_begins_plain(rest, seq!['q', 'u', 'o', 't', ';']);
                    assert(occurs_at(s, e_quot(), 0)) by {
                        assert(s.subrange(0, 6) =~= e_quot()) by {
                            assert(rest.subrange(0, 5) =~= seq!['q', 'u', 'o', 't', ';']);
                            assert forall|j: int| 0 <= j < 6 implies s.subrange(0, 6)[j]
                                == e_quot()[j] by {
                                if j > 0 {
                                    assert(rest.subrange(0, 5)[j - 1] == s[j]);
                                }
                            }
                        }
                    }
                    assert(std_entity_at(s, 0));
                }
            }
            assert(!begins(x, d_apos())) by {
                if begins(x, d_apos()) {
                    assert(begins(xr, seq!['a', 'p', 'o', 's', ';'])) by {
                        assert(xr.subrange(0, 5) =~= seq!['a', 'p', 'o', 's', ';']) by {
                            assert forall|j: int| 0 <= j < 5 implies xr.subrange(0, 5)[j]
                                == seq!['a', 'p', 'o', 's', ';'][j] by {
                                assert(x.subrange(0, 10)[j + 5] == d_apos()[j + 5]);
                            }
                        }
                    }
                    lemma_escape_begins_plain(rest, seq!['a', 'p', 'o', 's', ';']);
                    assert(occurs_at(s, e_apos(), 0)) by {
                        assert(s.subrange(0, 6) =~= e_apos()) by {
                            assert(rest.subrange(0, 5) =~= seq!['a', 'p', 'o', 's', ';']);
                            assert forall|j: int| 0 <= j < 6 implies s.subrange(0, 6)[j]
                                == e_apos()[j] by {
                                if j > 0 {
                                    assert(rest.subrange(0, 5)[j - 1] == s[j]);
                                }
                            }
                        }
                    }
                    assert(std_entity_at(s, 0));
                }
            }
            assert(!begins(x, d_amp())) by {
                if begins(x, d_amp()) {
                    assert(begins(xr, seq!['a', 'm', 'p', ';'])) by {
                        assert(xr.subrange(0, 4) =~= seq!['a', 'm', 'p', ';']) by {
                            assert forall|j: int| 0 <= j < 4 implies xr.subrange(0, 4)[j]
                                == seq!['a', 'm', 'p', ';'][j] by {
                                assert(x.subrange(0, 9)[j + 5] == d_amp()[j + 5]);
                            }
                        }
                    }
                    lemma_escape_begins_plain(rest, seq!['a', 'm', 'p', ';']);
                    assert(occurs_at(s, e_amp(), 0)) by {
                        assert(s.subrange(0, 5) =~= e_amp()) by {
                            assert(rest.subrange(0, 4) =~= seq!['a', 'm', 'p', ';']);
                            assert forall|j: int| 0 <= j < 5 implies s.subrange(0, 5)[j]
                                == e_amp()[j] by {
                                if j > 0 {
                                    assert(rest.subrange(0, 4)[j - 1] == s[j]);
                                }
                            }
                        }
                    }
                    assert(std_entity_at(s, 0));
                }
            }
            assert(spec_decode_double(x) == seq![x[0]] + spec_decode_double(x.skip(1)));
            assert(forall|j: int| 0 <= j < 4 ==> x.skip(1)[j] != '&') by {
                assert(x.skip(1)[0] == 'a');
                assert(x.skip(1)[1] == 'm');
                assert(x.skip(1)[2] == 'p');
                assert(x.skip(1)[3] == ';');
            }
            lemma_decode_double_plain_run(x.skip(1), 4);
            assert(x.skip(1).skip(4) =~= xr);
            assert(spec_decode_double(x) =~= x);
        } else if is_markup_char(s[0]) {
            // The entity written for `<`, `>`, `"` or `'` differs from every
            // double-encoded form by its second or third character.
            if s[0] == '<' {
                assert(x =~= e_lt() + xr);
                lemma_begins_char(x, d_lt(), 2);
                lemma_begins_char(x, d_gt(), 2);
                lemma_begins_char(x, d_quot(), 2);
                lemma_begins_char(x, d_apos(), 2);
                lemma_begins_char(x, d_amp(), 2);
                assert(spec_decode_double(x) == seq![x[0]] + spec_decode_double(x.skip(1)));
                assert(forall|j: int| 0 <= j < 3 ==> x.skip(1)[j] != '&') by {
                    assert(x.skip(1)[0] == 'l');
                    assert(x.skip(1)[1] == 't');
                    assert(x.skip(1)[2] == ';');
                }
                lemma_decode_double_plain_run(x.skip(1), 3);
                assert(x.skip(1).skip(3) =~= xr);
                assert(spec_decode_double(x) =~= x);
            } else if s[0] == '>' {
                assert(x =~= e_gt() + xr);
                lemma_begins_char(x, d_lt(), 2);
                lemma_begins_char(x, d_gt(), 2);
                lemma_begins_char(x, d_quot(), 2);
                lemma_begins_char(x, d_apos(), 2);
                lemma_begins_char(x, d_amp(), 2);
                assert(spec_decode_double(x) == seq![x[0]] + spec_decode_double(x.skip(1)));
                assert(forall|j: int| 0 <= j < 3 ==> x.skip(1)[j] != '&') by {
                    assert(x.skip(1)[0] == 'g');
                    assert(x.skip(1)[1] == 't');
                    assert(x.skip(1)[2] == ';');
                }
                lemma_decode_double_plain_run(x.skip(1), 3);
                assert(x.skip(1).skip(3) =~= xr);
                assert(spec_decode_double(x) =~= x);
            } else if s[0] == '"' {
                assert(x =~= e_quot() + xr);
                lemma_begins_char(x, d_lt(), 2);
                lemma_begins_char(x, d_gt(), 2);
                lemma_begins_char(x, d_quot(), 2);
                lemma_begins_char(x, d_apos(), 2);
                lemma_begins_char(x, d_amp(), 2);
                assert(spec_decode_double(x) == seq![x[0]] + spec_decode_double(x.skip(1)));
                assert(forall|j: int| 0 <= j < 5 ==> x.skip(1)[j] != '&') by {
                    assert(x.skip(1)[0] == 'q');
                    assert(x.skip(1)[1] == 'u');
                    assert(x.skip(1)[2] == 'o');
                    assert(x.skip(1)[3] == 't');
                    assert(x.skip(1)[4] == ';');
                }
                lemma_decode_double_plain_run(x.skip(1), 5);
                assert(x.skip(1).skip(5) =~= xr);
                assert(spec_decode_double(x) =~= x);
            } else {
                assert(s[0] == '\'');
                assert(x =~= e_apos() + xr);
                lemma_begins_char(x, d_lt(), 2);
                lemma_begins_char(x, d_gt(), 2);
                lemma_begins_char(x, d_quot(), 2);
                lemma_begins_char(x, d_apos(), 2);
                lemma_begins_char(x, d_amp(), 2);
                assert(spec_decode_double(x) == seq![x[0]] + spec_decode_double(x.skip(1)));
                assert(forall|j: int| 0 <= j < 5 ==> x.skip(1)[j] != '&') by {
                    assert(x.skip(1)[0] == 'a');
                    assert(x.skip(1)[1] == 'p');
                    assert(x.skip(1)[2] == 'o');
                    assert(x.skip(1)[3] == 's');
                    assert(x.skip(1)[4] == ';');
                }
                lemma_decode_double_plain_run(x.skip(1), 5);
                assert(x.skip(1).skip(5) =~= xr);
                assert(spec_decode_double(x) =~= x);
            }
        } else {
            assert(x =~= seq![s[0]] + xr);
            lemma_begins_char(x, d_lt(), 0);
            lemma_begins_char(x, d_gt(), 0);
            lemma_begins_char(x, d_quot(), 0);
            lemma_begins_char(x, d_apos(), 0);
            lemma_begins_char(x, d_amp(), 0);
            assert(x.skip(1) =~= xr);
            assert(spec_decode_double(x) =~= x);
        }
    }
}

/// Escaping then decoding both passes reproduces any string without entity
/// text of its own: the codec's round trip on escaped fields.
pub proof fn lemma_decode_text_of_escape(s: Seq<char>)
    requires
        std_entity_free(s),
    ensures
        spec_decode_text(spec_escape(s)) == s,
{
    lemma_decode_double_of_escape(s);
    lemma_decode_std_of_escape(s);
}

/// True when `p` occurs in `s` starting at `i` (executable form).
pub fn match_at(s: &Vec<char>, i: usize, p: &Vec<char>) -> (r: bool)
    requires
        i <= s@.len(),
    ensures
        r == occurs_at(s@, p@, i as int),
{
    if s.len() - i < p.len() {
        return false;
    }
    let mut j: usize = 0;
    while j < p.len()
        invariant
            0 <= j <= p@.len(),
            i + p@.len() <= s@.len(),
            s@.len() <= usize::MAX,
            forall|k: int| 0 <= k < j ==> s@[i + k] == p@[k],
        decreases p@.len() - j,
    {
        proof {
            assert(i + j < s@.len());
        }
        if s[i + j] != p[j] {
            assert(!occurs_at(s@, p@, i as int)) by {
                if occurs_at(s@, p@, i as int) {
                    assert(s@.subrange(i as int, i + p@.len())[j as int] == p@[j as int]);
                }
            }
            return false;
        }
        j = j + 1;
    }
    proof {
        assert(s@.subrange(i as int, i + p@.len()) =~= p@);
    }
    true
}

// Executable pattern constructors.
fn pat_e_lt() -> (v: Vec<char>)
    ensures
        v@ == e_lt(),
{
    let v = crate::chars::str_to_chars("&lt;");
    proof {
        reveal_strlit("&lt;");
        assert(v@ =~= e_lt());
    }
    v
}

fn pat_e_gt() -> (v: Vec<char>)
    ensures
        v@ == e_gt(),
{
    let v = crate::chars::str_to_chars("&gt;");
    proof {
        reveal_strlit("&gt;");
        assert(v@ =~= e_gt());
    }
    v
}

fn pat_e_quot() -> (v: Vec<char>)
    ensures
        v@ == e_quot(),
{
    let v = crate::chars::str_to_chars("&quot;");
    proof {
        reveal_strlit("&quot;");
        assert(v@ =~= e_quot());
    }
    v
}

fn pat_e_apos() -> (v: Vec<char>)
    ensures
        v@ == e_apos(),
{
    let v = crate::chars::str_to_chars("&apos;");
    proof {
        reveal_strlit("&apos;");
        assert(v@ =~= e_apos());
    }
    v
}

fn pat_e_amp() -> (v: Vec<char>)
    ensures
        v@ == e_amp(),
{
    let v = crate::chars::str_to_chars("&amp;");
    proof {
        reveal_strlit("&amp;");
        assert(v@ =~= e_amp());
    }
    v
}

fn pat_e_nbsp() -> (v: Vec<char>)
    ensures
        v@ == e_nbsp(),
{
    let v = crate::chars::str_to_chars("&nbsp;");
    proof {
        reveal_strlit("&nbsp;");
        assert(v@ =~= e_nbsp());
    }
    v
}

fn pat_e_copy() -> (v: Vec<char>)
    ensures
        v@ == e_copy(),
{
    let v = crate::chars::str_to_chars("&copy;");
    proof {
        reveal_strlit("&copy;");
        assert(v@ =~= e_copy());
    }
    v
}

fn pat_e_reg() -> (v: Vec<char>)
    ensures
        v@ == e_reg(),
{
    let v = crate::chars::str_to_chars("&reg;");
    proof {
        reveal_strlit("&reg;");
        assert(v@ =~= e_reg());
    }
    v
}

fn pat_e_trade() -> (v: Vec<char>)
    ensures
        v@ == e_trade(),
{
    let v = crate::chars::str_to_chars("&trade;");
    proof {
        reveal_strlit("&trade;");
        assert(v@ =~= e_trade());
    }
    v
}

fn pat_d_lt() -> (v: Vec<char>)
    ensures
        v@ == d_lt(),
{
    let v = crate::chars::str_to_chars("&amp;lt;");
    proof {
        reveal_strlit("&amp;lt;");
        assert(v@ =~= d_lt());
    }
    v
}

fn pat_d_gt() -> (v: Vec<char>)
    ensures
        v@ == d_gt(),
{
    let v = crate::chars::str_to_chars("&amp;gt;");
    proof {
        reveal_strlit("&amp;gt;");
        assert(v@ =~= d_gt());
    }
    v
}

fn pat_d_quot() -> (v: Vec<char>)
    ensures
        v@ == d_quot(),
{
    let v = crate::chars::str_to_chars("&amp;quot;");
    proof {
        reveal_strlit("&amp;quot;");
        assert(v@ =~= d_quot());
    }
    v
}

fn pat_d_apos() -> (v: Vec<char>)
    ensures
        v@ == d_apos(),
{
    let v = crate::chars::str_to_chars("&amp;apos;");
    proof {
        reveal_strlit("&amp;apos;");
        assert(v@ =~= d_apos());
    }
    v
}

fn pat_d_amp() -> (v: Vec<char>)
    ensures
        v@ == d_amp(),
{
    let v = crate::chars::str_to_chars("&amp;amp;");
    proof {
        reveal_strlit("&amp;amp;");
        assert(v@ =~= d_amp());
    }
    v
}

/// First decoding pass over a character vector.
pub fn decode_double_chars(s: &Vec<char>) -> (r: Vec<char>)
    ensures
        r@ == spec_decode_double(s@),
{
    let p_lt = pat_d_lt();
    let p_gt = pat_d_gt();
    let p_quot = pat_d_quot();
    let p_apos = pat_d_apos();
    let p_amp = pat_d_amp();
    let mut out: Vec<char> = Vec::new();
    let mut i: usize = 0;
    proof {
        assert(s@.skip(0) =~= s@);
    }
    while i < s.len()
        invariant
            0 <= i <= s@.len(),
            p_lt@ == d_lt(),
            p_gt@ == d_gt(),
            p_quot@ == d_quot(),
            p_apos@ == d_apos(),
            p_amp@ == d_amp(),
            spec_decode_double(s@) == out@ + spec_decode_double(s@.skip(i as int)),
        decreases s@.len() - i,
    {
        let ghost rem = s@.skip(i as int);
        proof {
            assert(rem.len() > 0);
            assert(forall|p: Seq<char>| occurs_at(s@, p, i as int) == begins(rem, p)) by {
                assert forall|p: Seq<char>| occurs_at(s@, p, i as int) == begins(rem, p) by {
                    if i + p.len() <= s@.len() {
                        assert(s@.subrange(i as int, i + p.len()) =~= rem.subrange(0, p.len() as int));
                    }
                }
            }
        }
        let step: usize;
        if match_at(s, i, &p_lt) {
            out.push('<');
            step = 8;
        } else if match_at(s, i, &p_gt) {
            out.push('>');
            step = 8;
        } else if match_at(s, i, &p_quot) {
            out.push('"');
            step = 10;
        } else if match_at(s, i, &p_apos) {
            out.push('\'');
            step = 10;
        } else if match_at(s, i, &p_amp) {
            out.push('&');
            step = 9;
        } else {
            out.push(s[i]);
            step = 1;
        }
        proof {
            assert(rem.skip(step as int) =~= s@.skip(i + step));
            assert(out@ + spec_decode_double(s@.skip(i + step)) =~= spec_decode_double(s@));
        }
        i = i + step;
    }
    proof {
        assert(s@.skip(i as int) =~= Seq::<char>::empty());
        assert(out@ =~= spec_decode_double(s@));
    }
    out
}

/// Second decoding pass over a character vector.
pub fn decode_std_chars(s: &Vec<char>) -> (r: Vec<char>)
    ensures
        r@ == spec_decode_std(s@),
{
    let p_lt = pat_e_lt();
    let p_gt = pat_e_gt();
    let p_quot = pat_e_quot();
    let p_apos = pat_e_apos();
    let p_amp = pat_e_amp();
    let p_nbsp = pat_e_nbsp();
    let p_copy = pat_e_copy();
    let p_reg = pat_e_reg();
    let p_trade = pat_e_trade();
    let mut out: Vec<char> = Vec::new();
    let mut i: usize = 0;
    proof {
        assert(s@.skip(0) =~= s@);
    }
    while i < s.len()
        invariant
            0 <= i <= s@.len(),
            p_lt@ == e_lt(),
            p_gt@ == e_gt(),
            p_quot@ == e_quot(),
            p_apos@ == e_apos(),
            p_amp@ == e_amp(),
            p_nbsp@ == e_nbsp(),
            p_copy@ == e_copy(),
            p_reg@ == e_reg(),
            p_trade@ == e_trade(),
            spec_decode_std(s@) == out@ + spec_decode_std(s@.skip(i as int)),
        decreases s@.len() - i,
    {
        let ghost rem = s@.skip(i as int);
        proof {
            assert(rem.len() > 0);
            assert(forall|p: Seq<char>| occurs_at(s@, p, i as int) == begins(rem, p)) by {
                assert forall|p: Seq<char>| occurs_at(s@, p, i as int) == begins(rem, p) by {
                    if i + p.len() <= s@.len() {
                        assert(s@.subrange(i as int, i + p.len()) =~= rem.subrange(0, p.len() as int));
                    }
                }
            }
        }
        let step: usize;
        if match_at(s, i, &p_lt) {
            out.push('<');
            step = 4;
        } else if match_at(s, i, &p_gt) {
            out.push('>');
            step = 4;
        } else if match_at(s, i, &p_quot) {
            out.push('"');
            step = 6;
        } else if match_at(s, i, &p_apos) {
            out.push('\'');
            step = 6;
        } else if match_at(s, i, &p_amp) {
            out.push('&');
            step = 5;
        } else if match_at(s, i, &p_nbsp) {
            out.push(' ');
            step = 6;
        } else if match_at(s, i, &p_copy) {
            out.push('©');
            step = 6;
        } else if match_at(s, i, &p_reg) {
            out.push('®');
            step = 5;
        } else if match_at(s, i, &p_trade) {
            out.push('™');
            step = 7;
        } else {
            out.push(s[i]);
            step = 1;
        }
        proof {
            assert(rem.skip(step as int) =~= s@.skip(i + step));
            assert(out@ + spec_decode_std(s@.skip(i + step)) =~= spec_decode_std(s@));
        }
        i = i + step;
    }
    proof {
        assert(s@.skip(i as int) =~= Seq::<char>::empty());
        assert(out@ =~= spec_decode_std(s@));
    }
    out
}

/// Both decoding passes over a character vector.
pub fn decode_text_chars(s: &Vec<char>) -> (r: Vec<char>)
    ensures
        r@ == spec_decode_text(s@),
{
    let once = decode_double_chars(s);
    decode_std_chars(&once)
}

/// Escapes the five markup characters.
pub fn escape_chars(s: &Vec<char>) -> (r: Vec<char>)
    ensures
        r@ == spec_escape(s@),
{
    let mut out: Vec<char> = Vec::new();
    let mut i: usize = 0;
    proof {
        assert(s@.skip(0) =~= s@);
    }
    while i < s.len()
        invariant
            0 <= i <= s@.len(),
            spec_escape(s@) == out@ + spec_escape(s@.skip(i as int)),
        decreases s@.len() - i,
    {
        let ghost rem = s@.skip(i as int);
        let c = s[i];
        proof {
            assert(rem.len() > 0);
            assert(rem[0] == c);
        }
        if c == '&' {
            out.push('&');
            out.push('a');
            out.push('m');
            out.push('p');
            out.push(';');
        } else if c == '<' {
            out.push('&');
            out.push('l');
            out.push('t');
            out.push(';');
        } else if c == '>' {
            out.push('&');
            out.push('g');
            out.push('t');
            out.push(';');
        } else if c == '"' {
            out.push('&');
            out.push('q');
            out.push('u');
            out.push('o');
            out.push('t');
            out.push(';');
        } else if c == '\'' {
            out.push('&');
            out.push('a');
            out.push('p');
            out.push('o');
            out.push('s');
            out.push(';');
        } else {
            out.push(c);
        }
        proof {
            assert(rem.skip(1) =~= s@.skip(i + 1));
            assert(out@ + spec_escape(s@.skip(i + 1)) =~= spec_escape(s@));
        }
        i = i + 1;
    }
    proof {
        assert(s@.skip(i as int) =~= Seq::<char>::empty());
        assert(out@ =~= spec_escape(s@));
    }
    out
}

} // verus!

