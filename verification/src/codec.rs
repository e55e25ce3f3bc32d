//! The entity codec: parsing and serializing the tag-delimited word
//! document.
//!
//! Parsing is a forward scan in two stages: a tokenizer that splits the text
//! into tags, character data sections and text runs, and a builder that folds
//! the tokens into records.  Serializing writes the document back with
//! escaped headwords and character-data-wrapped free text.

use vstd::prelude::*;

use crate::chars::append_chars;
use crate::chars::append_str;
use crate::chars::is_space;
use crate::chars::is_space_char;
use crate::chars::spec_trim;
use crate::chars::str_to_chars;
use crate::chars::trim_chars;
use crate::clean::lemma_find_props;
use crate::clean::lemma_find_sub_props;
use crate::clean::spec_clean;
use crate::clean::spec_find;
use crate::clean::spec_find_sub;
use crate::entities::begins;
use crate::entities::decode_text_chars;
use crate::entities::escape_chars;
use crate::entities::match_at;
use crate::entities::occurs_at;
use crate::entities::spec_decode_text;
use crate::entities::spec_escape;
use crate::word::Example;
use crate::word::ExampleView;
use crate::word::Word;
use crate::word::WordView;

verus! {

/// Why a document could not be decoded.
#[derive(Clone, Copy, Debug, PartialEq, Eq, Structural)]
pub enum CodecError {
    /// The document cannot be tokenized: an unterminated tag, character data
    /// section, instruction, comment or declaration.
    Syntax,
    /// The document's bytes are not valid text.
    Encoding,
}

// ---------------------------------------------------------------------------
// Decimal numbers.
// ---------------------------------------------------------------------------
/// The digit character for a value below ten.
pub open spec fn digit_char(d: int) -> char {
    if d == 0 {
        '0'
    } else if d == 1 {
        '1'
    } else if d == 2 {
        '2'
    } else if d == 3 {
        '3'
    } else if d == 4 {
        '4'
    } else if d == 5 {
        '5'
    } else if d == 6 {
        '6'
    } else if d == 7 {
        '7'
    } else if d == 8 {
        '8'
    } else {
        '9'
    }
}

/// The value of a digit character, or `-1` for any other character.
pub open spec fn digit_val(c: char) -> int {
    if c == '0' {
        0
    } else if c == '1' {
        1
    } else if c == '2' {
        2
    } else if c == '3' {
        3
    } else if c == '4' {
        4
    } else if c == '5' {
        5
    } else if c == '6' {
        6
    } else if c == '7' {
        7
    } else if c == '8' {
        8
    } else if c == '9' {
        9
    } else {
        -1
    }
}

/// Every character of `s` is a decimal digit.
pub open spec fn all_digits(s: Seq<char>) -> bool {
    forall|k: int| 0 <= k < s.len() ==> digit_val(#[trigger] s[k]) >= 0
}

/// The number the digits of `s` denote.
pub open spec fn digits_val(s: Seq<char>) -> int
    decreases s.len(),
{
    if s.len() == 0 {
        0
    } else {
        digits_val(s.drop_last()) * 10 + digit_val(s.last())
    }
}

/// The digits of a claimed number: an optional leading plus sign is allowed
/// and dropped.
pub open spec fn spec_number_digits(s: Seq<char>) -> Seq<char> {
    if s.len() > 0 && s[0] == '+' {
        s.drop_first()
    } else {
        s
    }
}

/// What parsing an unsigned byte from `s` yields: the denoted value when the
/// digits after an optional plus sign are nonempty, all decimal, and small
/// enough.
pub open spec fn spec_parse_u8(s: Seq<char>) -> Option<u8> {
    let d = spec_number_digits(s);
    if d.len() > 0 && all_digits(d) && digits_val(d) <= 255 {
        Some(digits_val(d) as u8)
    } else {
        None
    }
}

/// The decimal rendering of a byte, without leading zeros.
pub open spec fn spec_u8_digits(n: u8) -> Seq<char> {
    if n >= 100 {
        seq![digit_char((n / 100) as int), digit_char(((n / 10) % 10) as int), digit_char((n % 10) as int)]
    } else if n >= 10 {
        seq![digit_char((n / 10) as int), digit_char((n % 10) as int)]
    } else {
        seq![digit_char(n as int)]
    }
}

/// Renders a byte in decimal.
pub fn u8_digits(n: u8) -> (r: Vec<char>)
    ensures
        r@ == spec_u8_digits(n),
{
    let mut r: Vec<char> = Vec::new();
    if n >= 100 {
        r.push(digit_of(n / 100));
        r.push(digit_of((n / 10) % 10));
        r.push(digit_of(n % 10));
        proof {
            assert(r@ =~= spec_u8_digits(n));
        }
    } else if n >= 10 {
        r.push(digit_of(n / 10));
        r.push(digit_of(n % 10));
        proof {
            assert(r@ =~= spec_u8_digits(n));
        }
    } else {
        r.push(digit_of(n));
        proof {
            assert(r@ =~= spec_u8_digits(n));
        }
    }
    r
}

/// The digit character of a value below ten.
fn digit_of(d: u8) -> (c: char)
    requires
        d < 10,
    ensures
        c == digit_char(d as int),
{
    if d == 0 {
        '0'
    } else if d == 1 {
        '1'
    } else if d == 2 {
        '2'
    } else if d == 3 {
        '3'
    } else if d == 4 {
        '4'
    } else if d == 5 {
        '5'
    } else if d == 6 {
        '6'
    } else if d == 7 {
        '7'
    } else if d == 8 {
        '8'
    } else {
        '9'
    }
}

/// The value of a digit character, or none.
fn digit_value(c: char) -> (r: Option<u8>)
    ensures
        match r {
            Some(d) => digit_val(c) == d && d < 10,
            None => digit_val(c) < 0,
        },
{
    if c == '0' {
        Some(0)
    } else if c == '1' {
        Some(1)
    } else if c == '2' {
        Some(2)
    } else if c == '3' {
        Some(3)
    } else if c == '4' {
        Some(4)
    } else if c == '5' {
        Some(5)
    } else if c == '6' {
        Some(6)
    } else if c == '7' {
        Some(7)
    } else if c == '8' {
        Some(8)
    } else if c == '9' {
        Some(9)
    } else {
        None
    }
}

/// Parses an unsigned byte: an optional plus sign, then decimal digits.
pub fn parse_u8_chars(s: &Vec<char>) -> (r: Option<u8>)
    ensures
        r == spec_parse_u8(s@),
{
    let start: usize = if s.len() > 0 && s[0] == '+' {
        1
    } else {
        0
    };
    let ghost d = spec_number_digits(s@);
    proof {
        assert(d =~= s@.skip(start as int));
    }
    if s.len() == start {
        proof {
            assert(d.len() == 0);
        }
        return None;
    }
    // `acc` tracks the value, sticky at 256 once it passes a byte's range.
    let mut acc: u32 = 0;
    let mut i: usize = start;
    while i < s.len()
        invariant
            start <= i <= s@.len(),
            start <= 1,
            d == spec_number_digits(s@),
            d == s@.skip(start as int),
            all_digits(d.take(i - start)),
            acc == if digits_val(d.take(i - start)) <= 255 {
                digits_val(d.take(i - start)) as u32
            } else {
                256u32
            },
            digits_val(d.take(i - start)) >= 0,
        decreases s@.len() - i,
    {
        proof {
            assert(d[i - start] == s@[i as int]);
        }
        match digit_value(s[i]) {
            None => {
                proof {
                    assert(digit_val(d[i - start]) < 0);
                    assert(!all_digits(d));
                }
                return None;
            },
            Some(dg) => {
                let next: u32 = if acc > 255 {
                    256
                } else if acc * 10 + (dg as u32) > 255 {
                    256
                } else {
                    acc * 10 + (dg as u32)
                };
                proof {
                    let t1 = d.take(i - start + 1);
                    assert(t1.drop_last() =~= d.take(i - start));
                    assert(t1.last() == d[i - start]);
                    assert(digits_val(t1) == digits_val(d.take(i - start)) * 10 + dg);
                    assert(all_digits(t1)) by {
                        assert(forall|k: int|
                            0 <= k < i - start ==> digit_val(#[trigger] t1[k]) >= 0 && t1[k]
                                == d.take(i - start)[k]);
                    }
                    if digits_val(d.take(i - start)) > 255 {
                        assert(digits_val(t1) > 255);
                    }
                }
                acc = next;
            },
        }
        i = i + 1;
    }
    proof {
        assert(d.take(i - start) =~= d);
    }
    if acc <= 255 {
        Some(acc as u8)
    } else {
        None
    }
}

/// Printing a byte and parsing the digits gives the byte back.
pub proof fn lemma_u8_digits_roundtrip(n: u8)
    ensures
        spec_parse_u8(spec_u8_digits(n)) == Some(n),
{
    let s = spec_u8_digits(n);
    assert(digits_val(Seq::<char>::empty()) == 0);
    assert(spec_number_digits(s) == s) by {
        if s[0] == '+' {
            assert(digit_val('+') == -1);
            if n >= 100 {
                lemma_digit_roundtrip((n / 100) as int);
            } else if n >= 10 {
                lemma_digit_roundtrip((n / 10) as int);
            } else {
                lemma_digit_roundtrip(n as int);
            }
        }
    }
    if n >= 100 {
        let d2 = (n / 100) as int;
        let d1 = ((n / 10) % 10) as int;
        let d0 = (n % 10) as int;
        lemma_digit_roundtrip(d2);
        lemma_digit_roundtrip(d1);
        lemma_digit_roundtrip(d0);
        let s2 = seq![digit_char(d2)];
        let s1 = seq![digit_char(d2), digit_char(d1)];
        assert(s.drop_last() =~= s1);
        assert(s1.drop_last() =~= s2);
        assert(s2.drop_last() =~= Seq::<char>::empty());
        assert(digits_val(s2) == d2);
        assert(digits_val(s1) == d2 * 10 + d1);
        assert(digits_val(s) == (d2 * 10 + d1) * 10 + d0);
        assert((n / 100) as int * 100 + ((n / 10) % 10) as int * 10 + (n % 10) as int == n)
            by (bit_vector);
        assert(digits_val(s) == n);
    } else if n >= 10 {
        let d1 = (n / 10) as int;
        let d0 = (n % 10) as int;
        lemma_digit_roundtrip(d1);
        lemma_digit_roundtrip(d0);
        let s1 = seq![digit_char(d1)];
        assert(s.drop_last() =~= s1);
        assert(s1.drop_last() =~= Seq::<char>::empty());
        assert(digits_val(s1) == d1);
        assert(digits_val(s) == d1 * 10 + d0);
        assert((n / 10) as int * 10 + (n % 10) as int == n) by (bit_vector);
        assert(digits_val(s) == n);
    } else {
        lemma_digit_roundtrip(n as int);
        assert(s.drop_last() =~= Seq::<char>::empty());
        assert(digits_val(s) == n);
    }
}

/// A digit survives printing and reading.
proof fn lemma_digit_roundtrip(d: int)
    requires
        0 <= d < 10,
    ensures
        digit_val(digit_char(d)) == d,
{
}

// ---------------------------------------------------------------------------
// Tokens.
// ---------------------------------------------------------------------------
/// The model of a token.
#[verifier::ext_equal]
pub enum Tok {
    /// An opening tag with its name.
    Open(Seq<char>),
    /// A closing tag with its name.
    Close(Seq<char>),
    /// A run of text between tags, still encoded.
    Text(Seq<char>),
    /// A character data section, taken verbatim.
    CData(Seq<char>),
}

/// A token of the document.
#[derive(Debug)]
pub enum Token {
    Open(Vec<char>),
    Close(Vec<char>),
    Text(Vec<char>),
    CData(Vec<char>),
}

impl View for Token {
    type V = Tok;

    open spec fn view(&self) -> Tok {
        match self {
            Token::Open(n) => Tok::Open(n@),
            Token::Close(n) => Tok::Close(n@),
            Token::Text(t) => Tok::Text(t@),
            Token::CData(t) => Tok::CData(t@),
        }
    }
}

/// The models of a token list.
pub open spec fn tok_views(ts: Seq<Token>) -> Seq<Tok> {
    ts.map_values(|t: Token| t@)
}

/// The opening of a character data section.
pub open spec fn cdata_open() -> Seq<char> {
    seq!['<', '!', '[', 'C', 'D', 'A', 'T', 'A', '[']
}

/// The closing of a character data section.
pub open spec fn cdata_close() -> Seq<char> {
    seq![']', ']', '>']
}

/// The closing of a processing instruction.
pub open spec fn pi_close() -> Seq<char> {
    seq!['?', '>']
}

/// The opening of a comment.
pub open spec fn comment_open() -> Seq<char> {
    seq!['<', '!', '-', '-']
}

/// The closing of a comment.
pub open spec fn comment_close() -> Seq<char> {
    seq!['-', '-', '>']
}

/// First whitespace position in `s`, or `-1`.
pub open spec fn spec_find_ws(s: Seq<char>) -> int
    decreases s.len(),
{
    if s.len() == 0 {
        -1
    } else if is_space_char(s[0]) {
        0
    } else {
        let r = spec_find_ws(s.drop_first());
        if r < 0 {
            -1
        } else {
            1 + r
        }
    }
}

pub proof fn lemma_find_ws_props(s: Seq<char>)
    ensures
        spec_find_ws(s) < 0 ==> forall|k: int| 0 <= k < s.len() ==> !is_space_char(s[k]),
        spec_find_ws(s) >= 0 ==> 0 <= spec_find_ws(s) < s.len() && is_space_char(s[spec_find_ws(s)])
            && forall|k: int| 0 <= k < spec_find_ws(s) ==> !is_space_char(s[k]),
    decreases s.len(),
{
    if s.len() > 0 && !is_space_char(s[0]) {
        lemma_find_ws_props(s.drop_first());
        let r = spec_find_ws(s.drop_first());
        if r >= 0 {
            assert(s.drop_first()[r] == s[1 + r]);
            assert forall|k: int| 0 <= k < spec_find_ws(s) implies !is_space_char(s[k]) by {
                if k > 0 {
                    assert(s.drop_first()[k - 1] == s[k]);
                }
            }
        } else {
            assert forall|k: int| 0 <= k < s.len() implies !is_space_char(s[k]) by {
                if k > 0 {
                    assert(s.drop_first()[k - 1] == s[k]);
                }
            }
        }
    }
}

/// A tag's name: the content up to its first whitespace.
pub open spec fn tag_name(content: Seq<char>) -> Seq<char> {
    let j = spec_find_ws(content);
    if j < 0 {
        content
    } else {
        content.take(j)
    }
}

/// The token list of a document, or none when a tag, section, instruction,
/// comment or declaration never closes.  Comments and markup declarations
/// such as a document type are skipped, like instructions.  One narrowing: a
/// `>` inside a quoted attribute value ends its tag here, where a full reader
/// would scan past it; the serializer never writes attributes.
pub open spec fn spec_tokenize(s: Seq<char>) -> Option<Seq<Tok>>
    decreases s.len(),
    via spec_tokenize_dec
{
    if s.len() == 0 {
        Some(Seq::empty())
    } else if s[0] == '<' {
        if begins(s, cdata_open()) {
            let body = s.skip(9);
            let j = spec_find_sub(body, cdata_close());
            if j < 0 {
                None
            } else {
                match spec_tokenize(body.skip(j + 3)) {
                    None => None,
                    Some(ts) => Some(seq![Tok::CData(body.take(j))] + ts),
                }
            }
        } else if s.len() >= 2 && s[1] == '?' {
            let body = s.skip(2);
            let j = spec_find_sub(body, pi_close());
            if j < 0 {
                None
            } else {
                spec_tokenize(body.skip(j + 2))
            }
        } else if s.len() >= 2 && s[1] == '!' {
            if begins(s, comment_open()) {
                let body = s.skip(4);
                let j = spec_find_sub(body, comment_close());
                if j < 0 {
                    None
                } else {
                    spec_tokenize(body.skip(j + 3))
                }
            } else {
                let j = spec_find(s, '>');
                if j < 0 {
                    None
                } else {
                    spec_tokenize(s.skip(j + 1))
                }
            }
        } else if s.len() >= 2 && s[1] == '/' {
            let j = spec_find(s, '>');
            if j < 0 {
                None
            } else {
                match spec_tokenize(s.skip(j + 1)) {
                    None => None,
                    Some(ts) => Some(seq![Tok::Close(tag_name(s.subrange(2, j)))] + ts),
                }
            }
        } else {
            let j = spec_find(s, '>');
            if j < 0 {
                None
            } else {
                let content = s.subrange(1, j);
                if content.len() > 0 && content.last() == '/' {
                    spec_tokenize(s.skip(j + 1))
                } else {
                    match spec_tokenize(s.skip(j + 1)) {
                        None => None,
                        Some(ts) => Some(seq![Tok::Open(tag_name(content))] + ts),
                    }
                }
            }
        }
    } else {
        let j = spec_find(s, '<');
        if j < 0 {
            Some(seq![Tok::Text(s)])
        } else {
            match spec_tokenize(s.skip(j)) {
                None => None,
                Some(ts) => Some(seq![Tok::Text(s.take(j))] + ts),
            }
        }
    }
}

#[via_fn]
proof fn spec_tokenize_dec(s: Seq<char>) {
    if s.len() > 0 {
        if s[0] == '<' {
            if begins(s, cdata_open()) {
                lemma_find_sub_props(s.skip(9), cdata_close());
                let j = spec_find_sub(s.skip(9), cdata_close());
                if j >= 0 {
                    assert(occurs_at(s.skip(9), cdata_close(), j));
                }
            } else if s.len() >= 2 && s[1] == '?' {
                lemma_find_sub_props(s.skip(2), pi_close());
                let j = spec_find_sub(s.skip(2), pi_close());
                if j >= 0 {
                    assert(occurs_at(s.skip(2), pi_close(), j));
                }
            } else if s.len() >= 2 && s[1] == '!' && begins(s, comment_open()) {
                lemma_find_sub_props(s.skip(4), comment_close());
                let j = spec_find_sub(s.skip(4), comment_close());
                if j >= 0 {
                    assert(occurs_at(s.skip(4), comment_close(), j));
                }
            } else {
                lemma_find_props(s, '>');
            }
        } else {
            lemma_find_props(s, '<');
            let j = spec_find(s, '<');
            if j >= 0 {
                assert(s[j] == '<');
                assert(j >= 1);
            }
        }
    }
}

/// Copies a slice of a character vector.
pub fn subvec(s: &Vec<char>, a: usize, b: usize) -> (r: Vec<char>)
    requires
        a <= b <= s@.len(),
    ensures
        r@ == s@.subrange(a as int, b as int),
{
    let mut r: Vec<char> = Vec::new();
    let mut i: usize = a;
    while i < b
        invariant
            a <= i <= b <= s@.len(),
            r@ == s@.subrange(a as int, i as int),
        decreases b - i,
    {
        r.push(s[i]);
        proof {
            assert(r@ =~= s@.subrange(a as int, i + 1));
        }
        i = i + 1;
    }
    r
}

/// Finds the next `c` at or after `from`.
pub(crate) fn find_char_from(s: &Vec<char>, from: usize, c: char) -> (r: Option<usize>)
    requires
        from <= s@.len(),
    ensures
        match r {
            Some(j) => from <= j < s@.len() && s@[j as int] == c && forall|k: int|
                from <= k < j ==> s@[k] != c,
            None => forall|k: int| from <= k < s@.len() ==> s@[k] != c,
        },
{
    let mut j: usize = from;
    while j < s.len()
        invariant
            from <= j <= s@.len(),
            forall|k: int| from <= k < j ==> s@[k] != c,
        decreases s@.len() - j,
    {
        if s[j] == c {
            return Some(j);
        }
        j = j + 1;
    }
    None
}

/// The name part of tag content: up to the first whitespace.
fn tag_name_chars(content: &Vec<char>) -> (r: Vec<char>)
    ensures
        r@ == tag_name(content@),
{
    proof {
        lemma_find_ws_props(content@);
    }
    let mut j: usize = 0;
    while j < content.len() && !is_space(content[j])
        invariant
            0 <= j <= content@.len(),
            forall|k: int| 0 <= k < j ==> !is_space_char(content@[k]),
        decreases content@.len() - j,
    {
        j = j + 1;
    }
    proof {
        lemma_find_ws_props(content@);
        let f = spec_find_ws(content@);
        if j < content@.len() {
            assert(is_space_char(content@[j as int]));
            assert(f >= 0);
            if f < j {
                assert(is_space_char(content@[f]));
            }
            assert(f == j);
        } else {
            if f >= 0 {
                assert(!is_space_char(content@[f]));
            }
        }
    }
    if j == content.len() {
        let r = subvec(content, 0, content.len());
        proof {
            assert(r@ =~= tag_name(content@));
        }
        r
    } else {
        let r = subvec(content, 0, j);
        proof {
            assert(r@ =~= tag_name(content@));
        }
        r
    }
}

/// Splits a document into tokens; fails exactly where the model does.
#[verifier::rlimit(100)]
pub fn tokenize(s: &Vec<char>) -> (r: Result<Vec<Token>, CodecError>)
    ensures
        match r {
            Ok(ts) => spec_tokenize(s@) == Some(tok_views(ts@)),
            Err(e) => spec_tokenize(s@) is None && e == CodecError::Syntax,
        },
{
    let cdata_open_pat = cdata_open_chars();
    let cdata_close_pat = cdata_close_chars();
    let pi_close_pat = pi_close_chars();
    let comment_open_pat = comment_open_chars();
    let comment_close_pat = comment_close_chars();
    let mut out: Vec<Token> = Vec::new();
    let mut i: usize = 0;
    proof {
        assert(s@.skip(0) =~= s@);
        assert(tok_views(out@) =~= Seq::<Tok>::empty());
    }
    while i < s.len()
        invariant
            0 <= i <= s@.len(),
            cdata_open_pat@ == cdata_open(),
            cdata_close_pat@ == cdata_close(),
            pi_close_pat@ == pi_close(),
            comment_open_pat@ == comment_open(),
            comment_close_pat@ == comment_close(),
            spec_tokenize(s@) == (match spec_tokenize(s@.skip(i as int)) {
                None => None::<Seq<Tok>>,
                Some(ts) => Some(tok_views(out@) + ts),
            }),
        decreases s@.len() - i,
    {
        let ghost rem = s@.skip(i as int);
        proof {
            assert(rem.len() > 0);
            assert(rem[0] == s@[i as int]);
        }
        if s[i] == '<' {
            if match_at(s, i, &cdata_open_pat) {
                proof {
                    assert(begins(rem, cdata_open())) by {
                        assert(rem.subrange(0, 9) =~= s@.subrange(i as int, i + 9));
                    }
                }
                // A character data section: verbatim until its closing.
                let body_start = i + 9;
                let ghost body = rem.skip(9);
                proof {
                    assert(body =~= s@.skip(body_start as int));
                }
                let mut j: usize = body_start;
                let mut found = false;
                while j <= s.len() - 3 && !found
                    invariant
                        body_start <= j <= s@.len(),
                        cdata_close_pat@ == cdata_close(),
                        body_start <= s@.len(),
                        body == s@.skip(body_start as int),
                        s@.len() >= 9,
                        found ==> j + 3 <= s@.len() && occurs_at(body, cdata_close(), j - body_start)
                            && forall|k: int|
                            0 <= k < j - body_start ==> !occurs_at(body, cdata_close(), k),
                        !found ==> forall|k: int|
                            0 <= k < j - body_start ==> !occurs_at(body, cdata_close(), k),
                    decreases s@.len() - j + (if found {
                        0int
                    } else {
                        1int
                    }),
                {
                    if match_at(s, j, &cdata_close_pat) {
                        found = true;
                        proof {
                            assert(occurs_at(body, cdata_close(), j - body_start)) by {
                                assert(body.subrange(j - body_start, j - body_start + 3) =~= s@
                                    .subrange(j as int, j + 3));
                            }
                        }
                    } else {
                        proof {
                            assert(!occurs_at(body, cdata_close(), j - body_start)) by {
                                if occurs_at(body, cdata_close(), j - body_start) {
                                    assert(body.subrange(j - body_start, j - body_start + 3) =~= s@
                                        .subrange(j as int, j + 3));
                                    assert(occurs_at(s@, cdata_close(), j as int));
                                }
                            }
                        }
                        j = j + 1;
                    }
                }
                proof {
                    lemma_find_sub_props(body, cdata_close());
                }
                if !found {
                    proof {
                        assert(forall|k: int| !occurs_at(body, cdata_close(), k)) by {
                            assert(forall|k: int|
                                j - body_start <= k && occurs_at(body, cdata_close(), k)
                                    ==> k + 3 <= body.len());
                            assert forall|k: int| !occurs_at(body, cdata_close(), k) by {
                                if occurs_at(body, cdata_close(), k) {
                                    assert(k + 3 <= body.len());
                                    assert(body.len() == s@.len() - body_start);
                                    assert(k < j - body_start);
                                }
                            }
                        }
                        assert(spec_find_sub(body, cdata_close()) < 0) by {
                            if spec_find_sub(body, cdata_close()) >= 0 {
                                assert(occurs_at(
                                    body,
                                    cdata_close(),
                                    spec_find_sub(body, cdata_close()),
                                ));
                            }
                        }
                        assert(spec_tokenize(rem) is None);
                        assert(spec_tokenize(s@) is None);
                    }
                    return Err(CodecError::Syntax);
                }
                proof {
                    let f = spec_find_sub(body, cdata_close());
                    assert(f >= 0) by {
                        if f < 0 {
                            assert(!occurs_at(body, cdata_close(), j - body_start));
                        }
                    }
                    assert(f == j - body_start) by {
                        if f < j - body_start {
                            assert(!occurs_at(body, cdata_close(), f));
                        }
                        if f > j - body_start {
                            assert(!occurs_at(body, cdata_close(), j - body_start));
                        }
                    }
                }
                let content = subvec(s, body_start, j);
                proof {
                    assert(content@ =~= body.take(j - body_start));
                }
                out.push(Token::CData(content));
                proof {
                    let f = j - body_start;
                    assert(body.skip(f + 3) =~= s@.skip(j + 3));
                    assert(tok_views(out@) =~= tok_views(out@.drop_last()).push(
                        Tok::CData(body.take(f)),
                    ));
                    assert forall|ts: Seq<Tok>|
                        tok_views(out@.drop_last()) + (seq![Tok::CData(body.take(f))] + ts)
                            =~= tok_views(out@) + ts by {}
                }
                i = j + 3;
            } else if i + 1 < s.len() && s[i + 1] == '?' {
                // A processing instruction: skipped.
                proof {
                    assert(rem.len() >= 2 && rem[1] == '?');
                    assert(!begins(rem, cdata_open())) by {
                        if begins(rem, cdata_open()) {
                            assert(rem.subrange(0, 9)[1] == cdata_open()[1]);
                        }
                    }
                }
                let body_start = i + 2;
                let ghost body = rem.skip(2);
                proof {
                    assert(body =~= s@.skip(body_start as int));
                }
                let mut j: usize = body_start;
                let mut found = false;
                while j <= s.len() - 2 && !found
                    invariant
                        body_start <= j <= s@.len(),
                        pi_close_pat@ == pi_close(),
                        body_start <= s@.len(),
                        body == s@.skip(body_start as int),
                        s@.len() >= 2,
                        found ==> j + 2 <= s@.len() && occurs_at(body, pi_close(), j - body_start)
                            && forall|k: int|
                            0 <= k < j - body_start ==> !occurs_at(body, pi_close(), k),
                        !found ==> forall|k: int|
                            0 <= k < j - body_start ==> !occurs_at(body, pi_close(), k),
                    decreases s@.len() - j + (if found {
                        0int
                    } else {
                        1int
                    }),
                {
                    if match_at(s, j, &pi_close_pat) {
                        found = true;
                        proof {
                            assert(occurs_at(body, pi_close(), j - body_start)) by {
                                assert(body.subrange(j - body_start, j - body_start + 2) =~= s@
                                    .subrange(j as int, j + 2));
                            }
                        }
                    } else {
                        proof {
                            assert(!occurs_at(body, pi_close(), j - body_start)) by {
                                if occurs_at(body, pi_close(), j - body_start) {
                                    assert(body.subrange(j - body_start, j - body_start + 2) =~= s@
                                        .subrange(j as int, j + 2));
                                }
                            }
                        }
                        j = j + 1;
                    }
                }
                proof {
                    lemma_find_sub_props(body, pi_close());
                }
                if !found {
                    proof {
                        assert forall|k: int| !occurs_at(body, pi_close(), k) by {
                            if occurs_at(body, pi_close(), k) {
                                assert(k + 2 <= body.len());
                                assert(k < j - body_start);
                            }
                        }
                        assert(spec_find_sub(body, pi_close()) < 0) by {
                            if spec_find_sub(body, pi_close()) >= 0 {
                                assert(occurs_at(body, pi_close(), spec_find_sub(body, pi_close())));
                            }
                        }
                        assert(spec_tokenize(rem) is None);
                    }
                    return Err(CodecError::Syntax);
                }
                proof {
                    let f = spec_find_sub(body, pi_close());
                    assert(f >= 0) by {
                        if f < 0 {
                            assert(!occurs_at(body, pi_close(), j - body_start));
                        }
                    }
                    assert(f == j - body_start) by {
                        if f < j - body_start {
                            assert(!occurs_at(body, pi_close(), f));
                        }
                        if f > j - body_start {
                            assert(!occurs_at(body, pi_close(), j - body_start));
                        }
                    }
                    assert(body.skip(f + 2) =~= s@.skip(j + 2));
                }
                i = j + 2;
            } else if i + 1 < s.len() && s[i + 1] == '!' {
                // A comment or a markup declaration: skipped.
                proof {
                    assert(rem.len() >= 2 && rem[1] == '!');
                    assert(!begins(rem, cdata_open())) by {
                        if begins(rem, cdata_open()) {
                            assert(occurs_at(s@, cdata_open(), i as int)) by {
                                assert(s@.subrange(i as int, i + 9) =~= rem.subrange(0, 9));
                            }
                            assert(!occurs_at(s@, cdata_open(), i as int));
                        }
                    }
                }
                if match_at(s, i, &comment_open_pat) {
                    proof {
                        assert(begins(rem, comment_open())) by {
                            assert(rem.subrange(0, 4) =~= s@.subrange(i as int, i + 4));
                        }
                    }
                    let body_start = i + 4;
                    let ghost body = rem.skip(4);
                    proof {
                        assert(body =~= s@.skip(body_start as int));
                    }
                    let mut j: usize = body_start;
                    let mut found = false;
                    while j <= s.len() - 3 && !found
                        invariant
                            body_start <= j <= s@.len(),
                            comment_close_pat@ == comment_close(),
                            body_start <= s@.len(),
                            s@.len() >= 4,
                            body == s@.skip(body_start as int),
                            found ==> j + 3 <= s@.len() && occurs_at(
                                body,
                                comment_close(),
                                j - body_start,
                            ) && forall|k: int|
                                0 <= k < j - body_start ==> !occurs_at(body, comment_close(), k),
                            !found ==> forall|k: int|
                                0 <= k < j - body_start ==> !occurs_at(body, comment_close(), k),
                        decreases s@.len() - j + (if found {
                            0int
                        } else {
                            1int
                        }),
                    {
                        if match_at(s, j, &comment_close_pat) {
                            found = true;
                            proof {
                                assert(occurs_at(body, comment_close(), j - body_start)) by {
                                    assert(body.subrange(j - body_start, j - body_start + 3) =~= s@
                                        .subrange(j as int, j + 3));
                                }
                            }
                        } else {
                            proof {
                                assert(!occurs_at(body, comment_close(), j - body_start)) by {
                                    if occurs_at(body, comment_close(), j - body_start) {
                                        assert(body.subrange(j - body_start, j - body_start + 3)
                                            =~= s@.subrange(j as int, j + 3));
                                    }
                                }
                            }
                            j = j + 1;
                        }
                    }
                    proof {
                        lemma_find_sub_props(body, comment_close());
                    }
                    if !found {
                        proof {
                            assert forall|k: int| !occurs_at(body, comment_close(), k) by {
                                if occurs_at(body, comment_close(), k) {
                                    assert(k + 3 <= body.len());
                                    assert(k < j - body_start);
                                }
                            }
                            assert(spec_find_sub(body, comment_close()) < 0) by {
                                if spec_find_sub(body, comment_close()) >= 0 {
                                    assert(occurs_at(
                                        body,
                                        comment_close(),
                                        spec_find_sub(body, comment_close()),
                                    ));
                                }
                            }
                            assert(spec_tokenize(rem) is None);
                        }
                        return Err(CodecError::Syntax);
                    }
                    proof {
                        let f = spec_find_sub(body, comment_close());
                        assert(f >= 0) by {
                            if f < 0 {
                                assert(!occurs_at(body, comment_close(), j - body_start));
                            }
                        }
                        assert(f == j - body_start) by {
                            if f < j - body_start {
                                assert(!occurs_at(body, comment_close(), f));
                            }
                            if f > j - body_start {
                                assert(!occurs_at(body, comment_close(), j - body_start));
                            }
                        }
                        assert(body.skip(f + 3) =~= s@.skip(j + 3));
                    }
                    i = j + 3;
                } else {
                    proof {
                        assert(!begins(rem, comment_open())) by {
                            if begins(rem, comment_open()) {
                                assert(occurs_at(s@, comment_open(), i as int)) by {
                                    assert(s@.subrange(i as int, i + 4) =~= rem.subrange(0, 4));
                                }
                                assert(!occurs_at(s@, comment_open(), i as int));
                            }
                        }
                    }
                    match find_char_from(s, i, '>') {
                        None => {
                            proof {
                                lemma_find_props(rem, '>');
                                assert(spec_find(rem, '>') < 0) by {
                                    if spec_find(rem, '>') >= 0 {
                                        assert(rem[spec_find(rem, '>')] == s@[i + spec_find(
                                            rem,
                                            '>',
                                        )]);
                                    }
                                }
                                assert(spec_tokenize(rem) is None);
                            }
                            return Err(CodecError::Syntax);
                        },
                        Some(j) => {
                            proof {
                                lemma_find_props(rem, '>');
                                assert(rem[j - i] == '>');
                                assert(spec_find(rem, '>') == j - i) by {
                                    let f = spec_find(rem, '>');
                                    if f < 0 {
                                        assert(rem[j - i] != '>');
                                    }
                                    if f < j - i {
                                        assert(s@[i + f] == rem[f]);
                                    }
                                    if f > j - i {
                                        assert(rem[j - i] != '>');
                                    }
                                }
                                assert(rem.skip(j - i + 1) =~= s@.skip(j + 1));
                            }
                            i = j + 1;
                        },
                    }
                }
            } else {
                // An ordinary tag: opening, closing, or self-closing.
                proof {
                    assert(!begins(rem, cdata_open())) by {
                        if begins(rem, cdata_open()) {
                            assert(rem.subrange(0, 9)[1] == cdata_open()[1]);
                            assert(rem.len() >= 9);
                            assert(rem[1] == '!');
                        }
                    }
                    if rem.len() >= 2 {
                        assert(rem[1] == s@[i + 1]);
                    }
                }
                let is_close = i + 1 < s.len() && s[i + 1] == '/';
                match find_char_from(s, i, '>') {
                    None => {
                        proof {
                            lemma_find_props(rem, '>');
                            assert(spec_find(rem, '>') < 0) by {
                                if spec_find(rem, '>') >= 0 {
                                    assert(rem[spec_find(rem, '>')] == '>');
                                    assert(rem[spec_find(rem, '>')] == s@[i + spec_find(rem, '>')]);
                                }
                            }
                            assert(spec_tokenize(rem) is None);
                        }
                        return Err(CodecError::Syntax);
                    },
                    Some(j) => {
                        proof {
                            lemma_find_props(rem, '>');
                            assert(rem[j - i] == '>');
                            assert(spec_find(rem, '>') == j - i) by {
                                let f = spec_find(rem, '>');
                                if f < 0 {
                                    assert(rem[j - i] != '>');
                                }
                                if f < j - i {
                                    assert(s@[i + f] == rem[f]);
                                }
                                if f > j - i {
                                    assert(rem[j - i] != '>');
                                }
                            }
                            assert(rem.skip(j - i + 1) =~= s@.skip(j + 1));
                        }
                        if is_close {
                            let content = subvec(s, i + 2, j);
                            proof {
                                assert(content@ =~= rem.subrange(2, j - i));
                            }
                            let name = tag_name_chars(&content);
                            out.push(Token::Close(name));
                            proof {
                                assert(tok_views(out@) =~= tok_views(out@.drop_last()).push(
                                    Tok::Close(tag_name(rem.subrange(2, j - i))),
                                ));
                                assert forall|ts: Seq<Tok>|
                                    tok_views(out@.drop_last()) + (seq![
                                        Tok::Close(tag_name(rem.subrange(2, j - i))),
                                    ] + ts) =~= tok_views(out@) + ts by {}
                            }
                            i = j + 1;
                        } else {
                            let content = subvec(s, i + 1, j);
                            proof {
                                assert(content@ =~= rem.subrange(1, j - i));
                            }
                            let self_closing = content.len() > 0 && content[content.len() - 1]
                                == '/';
                            if self_closing {
                                // Ignored, as an empty element carries no text.
                                i = j + 1;
                            } else {
                                let name = tag_name_chars(&content);
                                out.push(Token::Open(name));
                                proof {
                                    assert(tok_views(out@) =~= tok_views(out@.drop_last()).push(
                                        Tok::Open(tag_name(rem.subrange(1, j - i))),
                                    ));
                                    assert forall|ts: Seq<Tok>|
                                        tok_views(out@.drop_last()) + (seq![
                                            Tok::Open(tag_name(rem.subrange(1, j - i))),
                                        ] + ts) =~= tok_views(out@) + ts by {}
                                }
                                i = j + 1;
                            }
                        }
                    },
                }
            }
        } else {
            // A text run, up to the next tag.
            match find_char_from(s, i, '<') {
                None => {
                    proof {
                        lemma_find_props(rem, '<');
                        assert(spec_find(rem, '<') < 0) by {
                            if spec_find(rem, '<') >= 0 {
                                assert(rem[spec_find(rem, '<')] == s@[i + spec_find(rem, '<')]);
                            }
                        }
                    }
                    let content = subvec(s, i, s.len());
                    proof {
                        assert(content@ =~= rem);
                    }
                    out.push(Token::Text(content));
                    proof {
                        assert(s@.skip(s@.len() as int) =~= Seq::<char>::empty());
                        assert(tok_views(out@) =~= tok_views(out@.drop_last()).push(Tok::Text(rem)));
                        assert(tok_views(out@.drop_last()) + seq![Tok::Text(rem)] =~= tok_views(
                            out@,
                        ));
                        assert(tok_views(out@) + Seq::<Tok>::empty() =~= tok_views(out@));
                    }
                    i = s.len();
                },
                Some(j) => {
                    proof {
                        lemma_find_props(rem, '<');
                        assert(rem[j - i] == '<');
                        assert(spec_find(rem, '<') == j - i) by {
                            let f = spec_find(rem, '<');
                            if f < 0 {
                                assert(rem[j - i] != '<');
                            }
                            if f < j - i {
                                assert(s@[i + f] == rem[f]);
                            }
                            if f > j - i {
                                assert(rem[j - i] != '<');
                            }
                        }
                        assert(rem.skip(j - i) =~= s@.skip(j as int));
                    }
                    let content = subvec(s, i, j);
                    proof {
                        assert(content@ =~= rem.take(j - i));
                    }
                    out.push(Token::Text(content));
                    proof {
                        assert(tok_views(out@) =~= tok_views(out@.drop_last()).push(
                            Tok::Text(rem.take(j - i)),
                        ));
                        assert forall|ts: Seq<Tok>|
                            tok_views(out@.drop_last()) + (seq![Tok::Text(rem.take(j - i))] + ts)
                                =~= tok_views(out@) + ts by {}
                    }
                    i = j;
                },
            }
        }
    }
    proof {
        assert(s@.skip(i as int) =~= Seq::<char>::empty());
        assert(tok_views(out@) + Seq::<Tok>::empty() =~= tok_views(out@));
    }
    Ok(out)
}

// ---------------------------------------------------------------------------
// Building records out of tokens.
// ---------------------------------------------------------------------------
/// The content fields of a record as the document carries them.
#[verifier::ext_equal]
pub struct Draft {
    pub word: Seq<char>,
    pub trans: Seq<char>,
    pub phonetic: Seq<char>,
    pub tags: Seq<Seq<char>>,
    pub progress: u8,
    pub note: Seq<char>,
    pub examples: Seq<ExampleView>,
}

/// A record just opened: defaults everywhere.
pub open spec fn empty_draft() -> Draft {
    Draft {
        word: Seq::empty(),
        trans: Seq::empty(),
        phonetic: Seq::empty(),
        tags: Seq::empty(),
        progress: 1,
        note: Seq::empty(),
        examples: Seq::empty(),
    }
}

/// The builder's state: the record and example under construction, the text
/// buffer, and the finished records.
#[verifier::ext_equal]
pub struct BuildState {
    pub cur: Option<Draft>,
    pub cur_ex: Option<ExampleView>,
    pub buf: Seq<char>,
    pub out: Seq<Draft>,
}

pub open spec fn init_state() -> BuildState {
    BuildState { cur: None, cur_ex: None, buf: Seq::empty(), out: Seq::empty() }
}

/// An unparsable stage number falls back to one.
pub open spec fn parse_or_one(s: Seq<char>) -> u8 {
    match spec_parse_u8(s) {
        Some(v) => v,
        None => 1,
    }
}

/// How one token advances the builder.
pub open spec fn spec_build_step(st: BuildState, t: Tok) -> BuildState {
    match t {
        Tok::Open(name) => {
            let st1 = BuildState { buf: Seq::empty(), ..st };
            if name == "item"@ {
                BuildState { cur: Some(empty_draft()), ..st1 }
            } else if name == "example"@ {
                BuildState {
                    cur_ex: Some(ExampleView { source: Seq::empty(), trans: Seq::empty() }),
                    ..st1
                }
            } else {
                st1
            }
        },
        Tok::Text(raw) => BuildState { buf: st.buf + spec_decode_text(raw), ..st },
        Tok::CData(c) => BuildState { buf: st.buf + c, ..st },
        Tok::Close(name) => {
            let st1 = if name == "word"@ {
                match st.cur {
                    Some(d) => BuildState { cur: Some(Draft { word: spec_trim(st.buf), ..d }), ..st },
                    None => st,
                }
            } else if name == "trans"@ {
                match st.cur_ex {
                    Some(e) => BuildState {
                        cur_ex: Some(ExampleView { trans: spec_clean(st.buf), ..e }),
                        ..st
                    },
                    None => match st.cur {
                        Some(d) => BuildState {
                            cur: Some(Draft { trans: spec_clean(st.buf), ..d }),
                            ..st
                        },
                        None => st,
                    },
                }
            } else if name == "phonetic"@ {
                match st.cur {
                    Some(d) => BuildState {
                        cur: Some(Draft { phonetic: spec_clean(st.buf), ..d }),
                        ..st
                    },
                    None => st,
                }
            } else if name == "tags"@ {
                match st.cur {
                    Some(d) => BuildState {
                        cur: Some(Draft { tags: seq![spec_trim(st.buf)], ..d }),
                        ..st
                    },
                    None => st,
                }
            } else if name == "progress"@ {
                match st.cur {
                    Some(d) => BuildState {
                        cur: Some(Draft { progress: parse_or_one(spec_trim(st.buf)), ..d }),
                        ..st
                    },
                    None => st,
                }
            } else if name == "note"@ {
                match st.cur {
                    Some(d) => BuildState { cur: Some(Draft { note: spec_clean(st.buf), ..d }), ..st },
                    None => st,
                }
            } else if name == "source"@ {
                match st.cur_ex {
                    Some(e) => BuildState {
                        cur_ex: Some(ExampleView { source: spec_trim(st.buf), ..e }),
                        ..st
                    },
                    None => st,
                }
            } else if name == "example"@ {
                match st.cur_ex {
                    Some(e) => match st.cur {
                        Some(d) => BuildState {
                            cur: Some(Draft { examples: d.examples.push(e), ..d }),
                            cur_ex: None,
                            ..st
                        },
                        None => BuildState { cur_ex: None, ..st },
                    },
                    None => st,
                }
            } else if name == "item"@ {
                match st.cur {
                    Some(d) => BuildState { cur: None, out: st.out.push(d), ..st },
                    None => st,
                }
            } else {
                st
            };
            BuildState { buf: Seq::empty(), ..st1 }
        },
    }
}

/// The builder folded over a token list.
pub open spec fn spec_build_from(st: BuildState, ts: Seq<Tok>) -> BuildState
    decreases ts.len(),
{
    if ts.len() == 0 {
        st
    } else {
        spec_build_from(spec_build_step(st, ts[0]), ts.drop_first())
    }
}

/// Folding one more token steps the builder once.
pub proof fn lemma_build_from_snoc(st: BuildState, ts: Seq<Tok>, t: Tok)
    ensures
        spec_build_from(st, ts.push(t)) == spec_build_step(spec_build_from(st, ts), t),
    decreases ts.len(),
{
    if ts.len() == 0 {
        assert(ts.push(t)[0] == t);
        assert(ts.push(t).drop_first() =~= Seq::<Tok>::empty());
        assert(spec_build_from(st, ts.push(t)) == spec_build_from(
            spec_build_step(st, t),
            Seq::<Tok>::empty(),
        ));
        assert(spec_build_from(spec_build_step(st, t), Seq::<Tok>::empty()) == spec_build_step(
            st,
            t,
        ));
        assert(spec_build_from(st, ts) == st);
    } else {
        assert(ts.push(t)[0] == ts[0]);
        assert(ts.push(t).drop_first() =~= ts.drop_first().push(t));
        lemma_build_from_snoc(spec_build_step(st, ts[0]), ts.drop_first(), t);
        assert(spec_build_from(st, ts.push(t)) == spec_build_from(
            spec_build_step(st, ts[0]),
            ts.drop_first().push(t),
        ));
        assert(spec_build_from(st, ts) == spec_build_from(
            spec_build_step(st, ts[0]),
            ts.drop_first(),
        ));
    }
}

/// What parsing a document yields: the records' content fields, or nothing
/// when the document cannot be tokenized.
pub open spec fn spec_parse(s: Seq<char>) -> Option<Seq<Draft>> {
    match spec_tokenize(s) {
        None => None,
        Some(ts) => Some(spec_build_from(init_state(), ts).out),
    }
}

/// A record carries a draft's content and fresh-record defaults elsewhere.
pub open spec fn word_matches_draft(wv: WordView, d: Draft) -> bool {
    &&& wv.word == d.word
    &&& wv.trans == d.trans
    &&& wv.phonetic == d.phonetic
    &&& wv.tags == d.tags
    &&& wv.progress == d.progress
    &&& wv.note == d.note
    &&& wv.examples == d.examples
    &&& wv.id.len() == 36
    &&& wv.difficulty == 5
    &&& wv.mastery_level == 0
    &&& wv.review_count == 0
    &&& wv.last_review is None
    &&& wv.created_at == wv.updated_at
}

/// Every record matches its draft, in order.
pub open spec fn drafts_match(ds: Seq<Draft>, ws: Seq<WordView>) -> bool {
    ds.len() == ws.len() && forall|k: int| 0 <= k < ds.len() ==> word_matches_draft(
        #[trigger] ws[k],
        ds[k],
    )
}

/// The model of an optional example under construction.
pub open spec fn opt_ex_view(o: Option<Example>) -> Option<ExampleView> {
    match o {
        None => None,
        Some(e) => Some(e@),
    }
}

/// Parses a document into records.  Each record gets a fresh identifier and
/// the moment of the call as its timestamps; everything else comes from the
/// document, with defaults for absent fields.
#[verifier::rlimit(100)]
pub fn parse_xml_content(content: &str) -> (r: Result<Vec<Word>, CodecError>)
    ensures
        ({
            let sp = spec_parse(content@);
            match r {
                Ok(ws) => sp is Some && drafts_match(sp->0, crate::word::word_views(ws@)),
                Err(e) => sp is None && e == CodecError::Syntax,
            }
        }),
{
    let chars = str_to_chars(content);
    let tokens = match tokenize(&chars) {
        Err(e) => {
            return Err(e);
        },
        Ok(ts) => ts,
    };
    let now = crate::external::now_seconds();
    let ghost tv = tok_views(tokens@);
    let mut cur: Option<Word> = None;
    let mut cur_ex: Option<Example> = None;
    let mut buf: Vec<char> = Vec::new();
    let mut out: Vec<Word> = Vec::new();
    let mut i: usize = 0;
    proof {
        assert(tv.take(0) =~= Seq::<Tok>::empty());
        assert(crate::word::word_views(out@) =~= Seq::<WordView>::empty());
    }
    while i < tokens.len()
        invariant
            0 <= i <= tokens@.len(),
            tv == tok_views(tokens@),
            ({
                let st = spec_build_from(init_state(), tv.take(i as int));
                &&& buf@ == st.buf
                &&& opt_ex_view(cur_ex) == st.cur_ex
                &&& (match (cur, st.cur) {
                    (Option::None, Option::None) => true,
                    (Option::Some(w), Option::Some(d)) => word_matches_draft(w@, d),
                    _ => false,
                })
                &&& drafts_match(st.out, crate::word::word_views(out@))
            }),
        decreases tokens@.len() - i,
    {
        let ghost st = spec_build_from(init_state(), tv.take(i as int));
        proof {
            assert(tv.take(i + 1) =~= tv.take(i as int).push(tv[i as int]));
            lemma_build_from_snoc(init_state(), tv.take(i as int), tv[i as int]);
            assert(tokens@[i as int]@ == tv[i as int]);
        }
        match &tokens[i] {
            Token::Open(name) => {
                buf.clear();
                if crate::chars::chars_eq_str(name, "item") {
                    cur = Some(Word::new(String::new(), String::new(), String::new(), now));
                } else if crate::chars::chars_eq_str(name, "example") {
                    cur_ex = Some(Example { source: String::new(), trans: String::new() });
                }
            },
            Token::Text(raw) => {
                let mut dec = decode_text_chars(raw);
                buf.append(&mut dec);
            },
            Token::CData(c) => {
                let mut cc = subvec(c, 0, c.len());
                proof {
                    assert(cc@ =~= c@);
                }
                buf.append(&mut cc);
            },
            Token::Close(name) => {
                if crate::chars::chars_eq_str(name, "word") {
                    let trimmed = trim_chars(&buf);
                    cur = match cur {
                        Some(mut w) => {
                            w.word = crate::chars::chars_to_string(&trimmed);
                            Some(w)
                        },
                        None => None,
                    };
                } else if crate::chars::chars_eq_str(name, "trans") {
                    let cleaned = crate::clean::clean_chars(&buf);
                    let text = crate::chars::chars_to_string(&cleaned);
                    match cur_ex {
                        Some(mut e) => {
                            e.trans = text;
                            cur_ex = Some(e);
                        },
                        None => {
                            cur = match cur {
                                Some(mut w) => {
                                    w.trans = text;
                                    Some(w)
                                },
                                None => None,
                            };
                            cur_ex = None;
                        },
                    }
                } else if crate::chars::chars_eq_str(name, "phonetic") {
                    let cleaned = crate::clean::clean_chars(&buf);
                    cur = match cur {
                        Some(mut w) => {
                            w.phonetic = crate::chars::chars_to_string(&cleaned);
                            Some(w)
                        },
                        None => None,
                    };
                } else if crate::chars::chars_eq_str(name, "tags") {
                    let trimmed = trim_chars(&buf);
                    cur = match cur {
                        Some(mut w) => {
                            let mut tg: Vec<String> = Vec::new();
                            tg.push(crate::chars::chars_to_string(&trimmed));
                            w.tags = tg;
                            proof {
                                assert(w@.tags =~= seq![spec_trim(buf@)]);
                            }
                            Some(w)
                        },
                        None => None,
                    };
                } else if crate::chars::chars_eq_str(name, "progress") {
                    let trimmed = trim_chars(&buf);
                    let value = match parse_u8_chars(&trimmed) {
                        Some(v) => v,
                        None => 1,
                    };
                    cur = match cur {
                        Some(mut w) => {
                            w.progress = value;
                            Some(w)
                        },
                        None => None,
                    };
                } else if crate::chars::chars_eq_str(name, "note") {
                    let cleaned = crate::clean::clean_chars(&buf);
                    cur = match cur {
                        Some(mut w) => {
                            w.note = crate::chars::chars_to_string(&cleaned);
                            Some(w)
                        },
                        None => None,
                    };
                } else if crate::chars::chars_eq_str(name, "source") {
                    let trimmed = trim_chars(&buf);
                    match cur_ex {
                        Some(mut e) => {
                            e.source = crate::chars::chars_to_string(&trimmed);
                            cur_ex = Some(e);
                        },
                        None => {},
                    }
                } else if crate::chars::chars_eq_str(name, "example") {
                    let finished = cur_ex;
                    cur_ex = None;
                    match finished {
                        Some(e) => {
                            cur = match cur {
                                Some(mut w) => {
                                    let ghost oldw = w@;
                                    w.examples.push(e);
                                    proof {
                                        assert(w@.examples =~= oldw.examples.push(e@));
                                        assert(w@ =~= WordView { examples: oldw.examples.push(e@), ..oldw });
                                    }
                                    Some(w)
                                },
                                None => None,
                            };
                        },
                        None => {},
                    }
                } else if crate::chars::chars_eq_str(name, "item") {
                    let finished = cur;
                    cur = None;
                    match finished {
                        Some(w) => {
                            let ghost oldout = crate::word::word_views(out@);
                            out.push(w);
                            proof {
                                assert(crate::word::word_views(out@) =~= oldout.push(w@));
                            }
                        },
                        None => {},
                    }
                }
                buf.clear();
            },
        }
        proof {
            let st1 = spec_build_from(init_state(), tv.take(i + 1));
            assert(st1 == spec_build_step(st, tv[i as int]));
            assert(buf@ =~= st1.buf);
        }
        i = i + 1;
    }
    proof {
        assert(tv.take(i as int) =~= tv);
    }
    Ok(out)
}

// ---------------------------------------------------------------------------
// Serializing records back into a document.
// ---------------------------------------------------------------------------
/// The document's first line and the opening of the word book.
pub open spec fn doc_header() -> Seq<char> {
    "<?xml version=\"1.0\" encoding=\"UTF-8\"?>\n<wordbook>"@
}

/// The closing of the word book and the final newline.
pub open spec fn doc_footer() -> Seq<char> {
    "\n</wordbook>\n"@
}

/// One example block.
pub open spec fn spec_example_chunk(e: ExampleView) -> Seq<char> {
    "\n            <example>\n                <source>"@ + spec_escape(e.source)
        + "</source>\n                <trans><![CDATA["@ + e.trans
        + "]]></trans>\n            </example>"@
}

/// All example blocks of one record.
pub open spec fn spec_examples_chunk(es: Seq<ExampleView>) -> Seq<char>
    decreases es.len(),
{
    if es.len() == 0 {
        Seq::empty()
    } else {
        spec_examples_chunk(es.drop_last()) + spec_example_chunk(es.last())
    }
}

/// One record block: headword escaped, free text wrapped as character data,
/// the tags field and note only when present.
pub open spec fn spec_item_chunk(w: WordView) -> Seq<char> {
    "\n    <item>\n        <word>"@ + spec_escape(w.word) + "</word>\n        <trans><![CDATA["@
        + w.trans + "]]></trans>\n        <phonetic><![CDATA["@ + w.phonetic
        + "]]></phonetic>"@ + (if w.tags.len() > 0 {
        "\n        <tags>"@ + spec_escape(w.tags[0]) + "</tags>"@
    } else {
        Seq::empty()
    }) + "\n        <progress>"@ + spec_u8_digits(w.progress) + "</progress>"@ + (if w.note.len()
        > 0 {
        "\n        <note><![CDATA["@ + w.note + "]]></note>"@
    } else {
        Seq::empty()
    }) + (if w.examples.len() > 0 {
        "\n        <examples>"@ + spec_examples_chunk(w.examples) + "\n        </examples>"@
    } else {
        Seq::empty()
    }) + "\n    </item>"@
}

/// All record blocks.
pub open spec fn spec_items_chunk(ws: Seq<WordView>) -> Seq<char>
    decreases ws.len(),
{
    if ws.len() == 0 {
        Seq::empty()
    } else {
        spec_items_chunk(ws.drop_last()) + spec_item_chunk(ws.last())
    }
}

/// The whole serialized document.
pub open spec fn spec_serialize(ws: Seq<WordView>) -> Seq<char> {
    doc_header() + spec_items_chunk(ws) + doc_footer()
}

/// Appends one example block.
fn append_example(out: &mut Vec<char>, e: &Example)
    ensures
        final(out)@ == old(out)@ + spec_example_chunk(e@),
{
    append_str(out, "\n            <example>\n                <source>");
    let src = str_to_chars(e.source.as_str());
    let srce = escape_chars(&src);
    append_chars(out, &srce);
    append_str(out, "</source>\n                <trans><![CDATA[");
    append_str(out, e.trans.as_str());
    append_str(out, "]]></trans>\n            </example>");
    proof {
        assert(out@ =~= old(out)@ + spec_example_chunk(e@));
    }
}

/// Appends every example block of a record.
fn append_examples(out: &mut Vec<char>, examples: &Vec<Example>)
    ensures
        final(out)@ == old(out)@ + spec_examples_chunk(
            examples@.map_values(|e: Example| e@),
        ),
{
    let ghost evs = examples@.map_values(|e: Example| e@);
    let mut k: usize = 0;
    proof {
        assert(evs.take(0) =~= Seq::<ExampleView>::empty());
        assert(out@ =~= old(out)@ + spec_examples_chunk(evs.take(0)));
    }
    while k < examples.len()
        invariant
            0 <= k <= examples@.len(),
            evs == examples@.map_values(|e: Example| e@),
            out@ == old(out)@ + spec_examples_chunk(evs.take(k as int)),
        decreases examples@.len() - k,
    {
        append_example(out, &examples[k]);
        proof {
            let t1 = evs.take(k + 1);
            assert(t1.drop_last() =~= evs.take(k as int));
            assert(t1.last() == evs[k as int]);
            assert(evs[k as int] == examples@[k as int]@);
            assert(out@ =~= old(out)@ + spec_examples_chunk(t1));
        }
        k = k + 1;
    }
    proof {
        assert(evs.take(k as int) =~= evs);
    }
}

/// Appends a record block's opening: headword, translation, phonetic.
#[verifier::rlimit(100)]
fn append_item_head(out: &mut Vec<char>, w: &Word)
    ensures
        final(out)@ == old(out)@ + ("\n    <item>\n        <word>"@ + spec_escape(w@.word)
            + "</word>\n        <trans><![CDATA["@ + w@.trans
            + "]]></trans>\n        <phonetic><![CDATA["@ + w@.phonetic + "]]></phonetic>"@),
{
    append_str(out, "\n    <item>\n        <word>");
    let hw = str_to_chars(w.word.as_str());
    let escaped = escape_chars(&hw);
    append_chars(out, &escaped);
    append_str(out, "</word>\n        <trans><![CDATA[");
    append_str(out, w.trans.as_str());
    append_str(out, "]]></trans>\n        <phonetic><![CDATA[");
    append_str(out, w.phonetic.as_str());
    append_str(out, "]]></phonetic>");
    proof {
        assert(out@ =~= old(out)@ + ("\n    <item>\n        <word>"@ + spec_escape(w@.word)
            + "</word>\n        <trans><![CDATA["@ + w@.trans
            + "]]></trans>\n        <phonetic><![CDATA["@ + w@.phonetic + "]]></phonetic>"@));
    }
}

/// Appends one record block.
#[verifier::rlimit(100)]
fn append_item(out: &mut Vec<char>, w: &Word)
    ensures
        final(out)@ == old(out)@ + spec_item_chunk(w@),
{
    append_item_head(out, w);
    let ghost after_head = out@;
    if w.tags.len() > 0 {
        append_str(out, "\n        <tags>");
        let tg = str_to_chars(w.tags[0].as_str());
        let tge = escape_chars(&tg);
        append_chars(out, &tge);
        append_str(out, "</tags>");
        proof {
            assert(w@.tags[0] == w.tags@[0]@);
            assert(out@ =~= after_head + ("\n        <tags>"@ + spec_escape(w@.tags[0])
                + "</tags>"@));
        }
    } else {
        proof {
            assert(w@.tags.len() == 0);
            assert(out@ =~= after_head + Seq::<char>::empty());
        }
    }
    let ghost after_tags = out@;
    append_str(out, "\n        <progress>");
    let digits = u8_digits(w.progress);
    append_chars(out, &digits);
    append_str(out, "</progress>");
    proof {
        assert(out@ =~= after_tags + ("\n        <progress>"@ + spec_u8_digits(w@.progress)
            + "</progress>"@));
    }
    let ghost after_progress = out@;
    if w.note.as_str().unicode_len() > 0 {
        append_str(out, "\n        <note><![CDATA[");
        append_str(out, w.note.as_str());
        append_str(out, "]]></note>");
        proof {
            assert(out@ =~= after_progress + ("\n        <note><![CDATA["@ + w@.note
                + "]]></note>"@));
        }
    } else {
        proof {
            assert(w@.note.len() == 0);
            assert(out@ =~= after_progress + Seq::<char>::empty());
        }
    }
    let ghost after_note = out@;
    if w.examples.len() > 0 {
        append_str(out, "\n        <examples>");
        append_examples(out, &w.examples);
        append_str(out, "\n        </examples>");
        proof {
            assert(w@.examples =~= w.examples@.map_values(|e: Example| e@));
            assert(out@ =~= after_note + ("\n        <examples>"@ + spec_examples_chunk(
                w@.examples,
            ) + "\n        </examples>"@));
        }
    } else {
        proof {
            assert(w@.examples.len() == 0);
            assert(out@ =~= after_note + Seq::<char>::empty());
        }
    }
    append_str(out, "\n    </item>");
    proof {
        assert(out@ =~= old(out)@ + spec_item_chunk(w@));
    }
}

/// Serializes records into the document text.
pub fn generate_xml_content(words: &Vec<Word>) -> (r: String)
    ensures
        r@ == spec_serialize(crate::word::word_views(words@)),
{
    let mut out: Vec<char> = Vec::new();
    append_str(&mut out, "<?xml version=\"1.0\" encoding=\"UTF-8\"?>\n<wordbook>");
    proof {
        assert(out@ =~= doc_header());
        assert(crate::word::word_views(words@.take(0)) =~= Seq::<WordView>::empty());
        assert(out@ =~= doc_header() + spec_items_chunk(crate::word::word_views(words@.take(0))));
    }
    let mut i: usize = 0;
    while i < words.len()
        invariant
            0 <= i <= words@.len(),
            out@ == doc_header() + spec_items_chunk(
                crate::word::word_views(words@.take(i as int)),
            ),
        decreases words@.len() - i,
    {
        append_item(&mut out, &words[i]);
        proof {
            let t1 = crate::word::word_views(words@.take(i + 1));
            assert(t1.drop_last() =~= crate::word::word_views(words@.take(i as int)));
            assert(t1.last() == words@[i as int]@);
            assert(out@ =~= doc_header() + spec_items_chunk(t1));
        }
        i = i + 1;
    }
    proof {
        assert(words@.take(i as int) =~= words@);
    }
    append_str(&mut out, "\n</wordbook>\n");
    proof {
        assert(out@ =~= spec_serialize(crate::word::word_views(words@)));
    }
    crate::chars::chars_to_string(&out)
}

fn cdata_open_chars() -> (v: Vec<char>)
    ensures
        v@ == cdata_open(),
{
    let v = str_to_chars("<![CDATA[");
    proof {
        reveal_strlit("<![CDATA[");
        assert(v@ =~= cdata_open());
    }
    v
}

fn cdata_close_chars() -> (v: Vec<char>)
    ensures
        v@ == cdata_close(),
{
    let v = str_to_chars("]]>");
    proof {
        reveal_strlit("]]>");
        assert(v@ =~= cdata_close());
    }
    v
}

fn pi_close_chars() -> (v: Vec<char>)
    ensures
        v@ == pi_close(),
{
    let v = str_to_chars("?>");
    proof {
        reveal_strlit("?>");
        assert(v@ =~= pi_close());
    }
    v
}

fn comment_open_chars() -> (v: Vec<char>)
    ensures
        v@ == comment_open(),
{
    let v = str_to_chars("<!--");
    proof {
        reveal_strlit("<!--");
        assert(v@ =~= comment_open());
    }
    v
}

fn comment_close_chars() -> (v: Vec<char>)
    ensures
        v@ == comment_close(),
{
    let v = str_to_chars("-->");
    proof {
        reveal_strlit("-->");
        assert(v@ =~= comment_close());
    }
    v
}

} // verus!
