//! The codec's round trip: parsing a serialized snapshot reproduces every
//! record's content fields.

use vstd::prelude::*;

use crate::chars::is_space_char;
use crate::chars::is_trimmed;
use crate::chars::lemma_trim_of_trimmed;
use crate::chars::spec_trim;
use crate::clean::lemma_find_props;
use crate::clean::lemma_find_sub_props;
use crate::clean::spec_clean;
use crate::clean::spec_find;
use crate::clean::spec_find_sub;
use crate::codec::cdata_close;
use crate::codec::cdata_open;
use crate::codec::pi_close;
use crate::codec::spec_tokenize;
use crate::codec::tag_name;
use crate::codec::lemma_find_ws_props;
use crate::codec::spec_find_ws;
use crate::codec::Tok;
use crate::entities::begins;
use crate::entities::occurs_at;
use crate::entities::spec_escape;

verus! {

/// Prepends tokens to a tokenizer outcome; an error stays an error.
pub open spec fn opt_concat(ts: Seq<Tok>, o: Option<Seq<Tok>>) -> Option<Seq<Tok>> {
    match o {
        None => None,
        Some(r) => Some(ts + r),
    }
}

/// Prepending token lists one after the other is prepending their
/// concatenation.
proof fn lemma_opt_concat_assoc(a: Seq<Tok>, b: Seq<Tok>, o: Option<Seq<Tok>>)
    ensures
        opt_concat(a, opt_concat(b, o)) == opt_concat(a + b, o),
{
    match o {
        None => {},
        Some(r) => {
            assert(a + (b + r) =~= (a + b) + r);
        },
    }
}

/// A name fit for a tag: nonempty, with no markup, whitespace or dispatch
/// characters.
pub open spec fn plain_name(name: Seq<char>) -> bool {
    name.len() > 0 && forall|k: int|
        0 <= k < name.len() ==> {
            &&& #[trigger] name[k] != '<'
            &&& name[k] != '>'
            &&& name[k] != '/'
            &&& name[k] != '?'
            &&& name[k] != '!'
            &&& !is_space_char(name[k])
        }
}

/// A text run before a tag becomes one text token.
proof fn lemma_tok_text(t: Seq<char>, rest: Seq<char>)
    requires
        t.len() > 0,
        forall|k: int| 0 <= k < t.len() ==> #[trigger] t[k] != '<',
        rest.len() == 0 || rest[0] == '<',
    ensures
        spec_tokenize(t + rest) == opt_concat(seq![Tok::Text(t)], spec_tokenize(rest)),
{
    let s = t + rest;
    assert(s[0] == t[0]);
    lemma_find_props(s, '<');
    let j = spec_find(s, '<');
    if rest.len() == 0 {
        assert(j < 0) by {
            if j >= 0 {
                assert(s[j] == t[j]);
            }
        }
        assert(s =~= t);
        assert(spec_tokenize(rest) == Some(Seq::<Tok>::empty()));
        assert(seq![Tok::Text(t)] + Seq::<Tok>::empty() =~= seq![Tok::Text(t)]);
    } else {
        assert(s[t.len() as int] == rest[0]);
        assert(j == t.len()) by {
            if j < 0 {
                assert(s[t.len() as int] != '<');
            } else {
                if j < t.len() {
                    assert(s[j] == t[j]);
                }
                if j > t.len() {
                    assert(s[t.len() as int] != '<');
                }
            }
        }
        assert(s.take(j) =~= t);
        assert(s.skip(j) =~= rest);
    }
}

/// A plain name has no whitespace, so it is its own tag name.
proof fn lemma_tag_name_plain(name: Seq<char>)
    requires
        plain_name(name),
    ensures
        tag_name(name) == name,
{
    lemma_find_ws_props(name);
    if spec_find_ws(name) >= 0 {
        assert(is_space_char(name[spec_find_ws(name)]));
    }
}

/// An opening tag becomes one opening token.
proof fn lemma_tok_open(name: Seq<char>, rest: Seq<char>)
    requires
        plain_name(name),
    ensures
        spec_tokenize(seq!['<'] + name + seq!['>'] + rest) == opt_concat(
            seq![Tok::Open(name)],
            spec_tokenize(rest),
        ),
{
    let s = seq!['<'] + name + seq!['>'] + rest;
    assert(s[0] == '<');
    assert(s[1] == name[0]);
    assert(!begins(s, cdata_open())) by {
        if begins(s, cdata_open()) {
            assert(s.subrange(0, 9)[1] == cdata_open()[1]);
        }
    }
    assert(s[1] != '?' && s[1] != '!' && s[1] != '/');
    lemma_find_props(s, '>');
    let j = spec_find(s, '>');
    assert(s[name.len() as int + 1] == '>');
    assert(forall|k: int| 1 <= k < name.len() as int + 1 ==> s[k] == name[k - 1]);
    assert(j == name.len() as int + 1) by {
        if j < 0 {
            assert(s[name.len() as int + 1] != '>');
        } else {
            if 0 < j < name.len() as int + 1 {
                assert(s[j] == name[j - 1]);
            }
            if j > name.len() as int + 1 {
                assert(s[name.len() as int + 1] != '>');
            }
        }
    }
    let content = s.subrange(1, j);
    assert(content =~= name);
    assert(content.last() != '/');
    lemma_tag_name_plain(name);
    assert(s.skip(j + 1) =~= rest);
}

/// A closing tag becomes one closing token.
proof fn lemma_tok_close(name: Seq<char>, rest: Seq<char>)
    requires
        plain_name(name),
    ensures
        spec_tokenize(seq!['<', '/'] + name + seq!['>'] + rest) == opt_concat(
            seq![Tok::Close(name)],
            spec_tokenize(rest),
        ),
{
    let s = seq!['<', '/'] + name + seq!['>'] + rest;
    assert(s[0] == '<');
    assert(s[1] == '/');
    assert(!begins(s, cdata_open())) by {
        if begins(s, cdata_open()) {
            assert(s.subrange(0, 9)[1] == cdata_open()[1]);
        }
    }
    lemma_find_props(s, '>');
    let j = spec_find(s, '>');
    assert(s[name.len() as int + 2] == '>');
    assert(forall|k: int| 2 <= k < name.len() as int + 2 ==> s[k] == name[k - 2]);
    assert(j == name.len() as int + 2) by {
        if j < 0 {
            assert(s[name.len() as int + 2] != '>');
        } else {
            if 2 <= j < name.len() as int + 2 {
                assert(s[j] == name[j - 2]);
            }
            if j > name.len() as int + 2 {
                assert(s[name.len() as int + 2] != '>');
            }
        }
    }
    let content = s.subrange(2, j);
    assert(content =~= name);
    lemma_tag_name_plain(name);
    assert(s.skip(j + 1) =~= rest);
}

/// A character data section becomes one verbatim token, provided its payload
/// never closes a section itself.
#[verifier::rlimit(100)]
proof fn lemma_tok_cdata(payload: Seq<char>, rest: Seq<char>)
    requires
        forall|i: int| !occurs_at(payload, cdata_close(), i),
    ensures
        spec_tokenize(cdata_open() + payload + cdata_close() + rest) == opt_concat(
            seq![Tok::CData(payload)],
            spec_tokenize(rest),
        ),
{
    let s = cdata_open() + payload + cdata_close() + rest;
    assert(s[0] == '<');
    assert(begins(s, cdata_open())) by {
        assert(s.subrange(0, 9) =~= cdata_open());
    }
    let body = s.skip(9);
    assert(body =~= payload + cdata_close() + rest);
    lemma_find_sub_props(body, cdata_close());
    let j = spec_find_sub(body, cdata_close());
    assert(occurs_at(body, cdata_close(), payload.len() as int)) by {
        assert(body.subrange(payload.len() as int, payload.len() as int + 3) =~= cdata_close());
    }
    assert forall|k: int| 0 <= k < payload.len() implies !occurs_at(body, cdata_close(), k) by {
        if occurs_at(body, cdata_close(), k) {
            assert(body.subrange(k, k + 3) =~= cdata_close());
            assert(body[k] == ']' && body[k + 1] == ']' && body[k + 2] == '>') by {
                assert(body.subrange(k, k + 3)[0] == body[k]);
                assert(body.subrange(k, k + 3)[1] == body[k + 1]);
                assert(body.subrange(k, k + 3)[2] == body[k + 2]);
            }
            if k + 3 <= payload.len() {
                assert(occurs_at(payload, cdata_close(), k)) by {
                    assert(payload.subrange(k, k + 3) =~= cdata_close()) by {
                        assert(payload.subrange(k, k + 3)[0] == body[k]);
                        assert(payload.subrange(k, k + 3)[1] == body[k + 1]);
                        assert(payload.subrange(k, k + 3)[2] == body[k + 2]);
                    }
                }
            } else if k + 2 == payload.len() {
                // The `>` would have to be the first `]` of the closing.
                assert(body[k + 2] == cdata_close()[0]);
            } else {
                // k + 1 == payload.len(): the `>` falls on the second `]`.
                assert(body[k + 2] == cdata_close()[1]);
            }
        }
    }
    assert(j == payload.len()) by {
        if j < 0 {
            assert(!occurs_at(body, cdata_close(), payload.len() as int));
        } else {
            if j < payload.len() {
                assert(!occurs_at(body, cdata_close(), j));
            }
            if j > payload.len() {
                assert(!occurs_at(body, cdata_close(), payload.len() as int));
            }
        }
    }
    assert(body.take(j) =~= payload);
    assert(body.skip(j + 3) =~= rest);
}

/// A processing instruction with no question mark in its body is skipped.
proof fn lemma_tok_pi(body: Seq<char>, rest: Seq<char>)
    requires
        forall|k: int| 0 <= k < body.len() ==> #[trigger] body[k] != '?',
    ensures
        spec_tokenize(seq!['<', '?'] + body + pi_close() + rest) == spec_tokenize(rest),
{
    let s = seq!['<', '?'] + body + pi_close() + rest;
    assert(s[0] == '<');
    assert(s[1] == '?');
    assert(!begins(s, cdata_open())) by {
        if begins(s, cdata_open()) {
            assert(s.subrange(0, 9)[1] == cdata_open()[1]);
        }
    }
    let pbody = s.skip(2);
    assert(pbody =~= body + pi_close() + rest);
    lemma_find_sub_props(pbody, pi_close());
    let j = spec_find_sub(pbody, pi_close());
    assert(occurs_at(pbody, pi_close(), body.len() as int)) by {
        assert(pbody.subrange(body.len() as int, body.len() as int + 2) =~= pi_close());
    }
    assert forall|k: int| 0 <= k < body.len() implies !occurs_at(pbody, pi_close(), k) by {
        if occurs_at(pbody, pi_close(), k) {
            assert(pbody.subrange(k, k + 2)[0] == pbody[k]);
            assert(pbody[k] == '?');
            assert(pbody[k] == body[k]);
        }
    }
    assert(j == body.len()) by {
        if j < 0 {
            assert(!occurs_at(pbody, pi_close(), body.len() as int));
        } else {
            if j < body.len() {
                assert(!occurs_at(pbody, pi_close(), j));
            }
            if j > body.len() {
                assert(!occurs_at(pbody, pi_close(), body.len() as int));
            }
        }
    }
    assert(pbody.skip(j + 2) =~= rest);
}

// ---------------------------------------------------------------------------
// The pieces a serialized document is made of.
// ---------------------------------------------------------------------------
pub open spec fn nl1() -> Seq<char> {
    seq!['\n']
}

pub open spec fn nl4() -> Seq<char> {
    seq!['\n', ' ', ' ', ' ', ' ']
}

pub open spec fn nl8() -> Seq<char> {
    seq!['\n', ' ', ' ', ' ', ' ', ' ', ' ', ' ', ' ']
}

pub open spec fn nl12() -> Seq<char> {
    seq!['\n', ' ', ' ', ' ', ' ', ' ', ' ', ' ', ' ', ' ', ' ', ' ', ' ']
}

pub open spec fn nl16() -> Seq<char> {
    seq!['\n', ' ', ' ', ' ', ' ', ' ', ' ', ' ', ' ', ' ', ' ', ' ', ' ', ' ', ' ', ' ', ' ']
}

pub open spec fn nm_item() -> Seq<char> {
    seq!['i', 't', 'e', 'm']
}

pub open spec fn nm_word() -> Seq<char> {
    seq!['w', 'o', 'r', 'd']
}

pub open spec fn nm_trans() -> Seq<char> {
    seq!['t', 'r', 'a', 'n', 's']
}

pub open spec fn nm_phonetic() -> Seq<char> {
    seq!['p', 'h', 'o', 'n', 'e', 't', 'i', 'c']
}

pub open spec fn nm_tags() -> Seq<char> {
    seq!['t', 'a', 'g', 's']
}

pub open spec fn nm_progress() -> Seq<char> {
    seq!['p', 'r', 'o', 'g', 'r', 'e', 's', 's']
}

pub open spec fn nm_note() -> Seq<char> {
    seq!['n', 'o', 't', 'e']
}

pub open spec fn nm_source() -> Seq<char> {
    seq!['s', 'o', 'u', 'r', 'c', 'e']
}

pub open spec fn nm_example() -> Seq<char> {
    seq!['e', 'x', 'a', 'm', 'p', 'l', 'e']
}

pub open spec fn nm_examples() -> Seq<char> {
    seq!['e', 'x', 'a', 'm', 'p', 'l', 'e', 's']
}

pub open spec fn nm_wordbook() -> Seq<char> {
    seq!['w', 'o', 'r', 'd', 'b', 'o', 'o', 'k']
}

pub open spec fn t_open(name: Seq<char>) -> Seq<char> {
    seq!['<'] + name + seq!['>']
}

pub open spec fn t_close(name: Seq<char>) -> Seq<char> {
    seq!['<', '/'] + name + seq!['>']
}

// ---------------------------------------------------------------------------
// Compound tokenizer lemmas: one element line at a time.
// ---------------------------------------------------------------------------
/// Text before an opening tag: two tokens.
proof fn lemma_seg_open(t: Seq<char>, name: Seq<char>, rest: Seq<char>)
    requires
        t.len() > 0,
        forall|k: int| 0 <= k < t.len() ==> #[trigger] t[k] != '<',
        plain_name(name),
    ensures
        spec_tokenize(t + t_open(name) + rest) == opt_concat(
            seq![Tok::Text(t), Tok::Open(name)],
            spec_tokenize(rest),
        ),
{
    lemma_tok_open(name, rest);
    assert(t + t_open(name) + rest =~= t + (seq!['<'] + name + seq!['>'] + rest));
    lemma_tok_text(t, seq!['<'] + name + seq!['>'] + rest);
    lemma_opt_concat_assoc(seq![Tok::Text(t)], seq![Tok::Open(name)], spec_tokenize(rest));
    assert(seq![Tok::Text(t)] + seq![Tok::Open(name)] =~= seq![Tok::Text(t), Tok::Open(name)]);
}

/// Text before a closing tag: two tokens.
proof fn lemma_seg_close(t: Seq<char>, name: Seq<char>, rest: Seq<char>)
    requires
        t.len() > 0,
        forall|k: int| 0 <= k < t.len() ==> #[trigger] t[k] != '<',
        plain_name(name),
    ensures
        spec_tokenize(t + t_close(name) + rest) == opt_concat(
            seq![Tok::Text(t), Tok::Close(name)],
            spec_tokenize(rest),
        ),
{
    lemma_tok_close(name, rest);
    assert(t + t_close(name) + rest =~= t + (seq!['<', '/'] + name + seq!['>'] + rest));
    lemma_tok_text(t, seq!['<', '/'] + name + seq!['>'] + rest);
    lemma_opt_concat_assoc(seq![Tok::Text(t)], seq![Tok::Close(name)], spec_tokenize(rest));
    assert(seq![Tok::Text(t)] + seq![Tok::Close(name)] =~= seq![Tok::Text(t), Tok::Close(name)]);
}

/// The tokens of a whole text element line.
pub open spec fn elem_tokens(t: Seq<char>, name: Seq<char>, content: Seq<char>) -> Seq<Tok> {
    seq![Tok::Text(t), Tok::Open(name)] + (if content.len() > 0 {
        seq![Tok::Text(content)]
    } else {
        Seq::empty()
    }) + seq![Tok::Close(name)]
}

/// A whole element line with escaped text content.
proof fn lemma_seg_elem(t: Seq<char>, name: Seq<char>, content: Seq<char>, rest: Seq<char>)
    requires
        t.len() > 0,
        forall|k: int| 0 <= k < t.len() ==> #[trigger] t[k] != '<',
        plain_name(name),
        forall|k: int| 0 <= k < content.len() ==> #[trigger] content[k] != '<',
    ensures
        spec_tokenize(t + t_open(name) + content + t_close(name) + rest) == opt_concat(
            elem_tokens(t, name, content),
            spec_tokenize(rest),
        ),
{
    lemma_tok_close(name, rest);
    let tail1 = seq!['<', '/'] + name + seq!['>'] + rest;
    if content.len() > 0 {
        lemma_tok_text(content, tail1);
        assert(t + t_open(name) + content + t_close(name) + rest =~= t + t_open(name) + (content
            + tail1));
        lemma_seg_open(t, name, content + tail1);
        lemma_opt_concat_assoc(
            seq![Tok::Text(content)],
            seq![Tok::Close(name)],
            spec_tokenize(rest),
        );
        lemma_opt_concat_assoc(
            seq![Tok::Text(t), Tok::Open(name)],
            seq![Tok::Text(content)] + seq![Tok::Close(name)],
            spec_tokenize(rest),
        );
        assert(seq![Tok::Text(t), Tok::Open(name)] + (seq![Tok::Text(content)] + seq![
            Tok::Close(name),
        ]) =~= elem_tokens(t, name, content));
    } else {
        assert(t + t_open(name) + content + t_close(name) + rest =~= t + t_open(name) + tail1);
        lemma_seg_open(t, name, tail1);
        lemma_opt_concat_assoc(
            seq![Tok::Text(t), Tok::Open(name)],
            seq![Tok::Close(name)],
            spec_tokenize(rest),
        );
        assert(seq![Tok::Text(t), Tok::Open(name)] + seq![Tok::Close(name)] =~= elem_tokens(
            t,
            name,
            content,
        ));
    }
}

/// The tokens of a whole character data element line.
pub open spec fn cdata_elem_tokens(t: Seq<char>, name: Seq<char>, payload: Seq<char>) -> Seq<Tok> {
    seq![Tok::Text(t), Tok::Open(name), Tok::CData(payload), Tok::Close(name)]
}

/// A whole element line whose content is a character data section.
proof fn lemma_seg_cdata_elem(t: Seq<char>, name: Seq<char>, payload: Seq<char>, rest: Seq<char>)
    requires
        t.len() > 0,
        forall|k: int| 0 <= k < t.len() ==> #[trigger] t[k] != '<',
        plain_name(name),
        forall|i: int| !occurs_at(payload, cdata_close(), i),
    ensures
        spec_tokenize(
            t + t_open(name) + cdata_open() + payload + cdata_close() + t_close(name) + rest,
        ) == opt_concat(cdata_elem_tokens(t, name, payload), spec_tokenize(rest)),
{
    lemma_tok_close(name, rest);
    let tail1 = seq!['<', '/'] + name + seq!['>'] + rest;
    lemma_tok_cdata(payload, tail1);
    let tail2 = cdata_open() + payload + cdata_close() + tail1;
    assert(t + t_open(name) + cdata_open() + payload + cdata_close() + t_close(name) + rest =~= t
        + t_open(name) + tail2);
    lemma_seg_open(t, name, tail2);
    lemma_opt_concat_assoc(
        seq![Tok::CData(payload)],
        seq![Tok::Close(name)],
        spec_tokenize(rest),
    );
    lemma_opt_concat_assoc(
        seq![Tok::Text(t), Tok::Open(name)],
        seq![Tok::CData(payload)] + seq![Tok::Close(name)],
        spec_tokenize(rest),
    );
    assert(seq![Tok::Text(t), Tok::Open(name)] + (seq![Tok::CData(payload)] + seq![
        Tok::Close(name),
    ]) =~= cdata_elem_tokens(t, name, payload));
}

// ---------------------------------------------------------------------------
// Well-formed records: those the round trip reproduces exactly.
// ---------------------------------------------------------------------------
/// Free text that survives the codec: already clean, and never closing a
/// character data section.
pub open spec fn wf_free_text(t: Seq<char>) -> bool {
    spec_clean(t) == t && forall|i: int| !occurs_at(t, cdata_close(), i)
}

/// An example the round trip reproduces.
pub open spec fn wf_example(e: crate::word::ExampleView) -> bool {
    &&& is_trimmed(e.source)
    &&& crate::entities::std_entity_free(e.source)
    &&& wf_free_text(e.trans)
}

/// A record whose content the round trip reproduces: headword present,
/// trimmed and free of entity text; free text clean; at most one tag.
/// Entity text in an escaped field (a headword holding `&lt;`, say) is
/// exactly the markup that conflicts with the escape scheme: once escaped it
/// reads as a double-encoded entity, which the first decoding pass contracts.
pub open spec fn wf_word_content(w: crate::word::WordView) -> bool {
    &&& w.word.len() > 0
    &&& is_trimmed(w.word)
    &&& crate::entities::std_entity_free(w.word)
    &&& wf_free_text(w.trans)
    &&& wf_free_text(w.phonetic)
    &&& wf_free_text(w.note)
    &&& w.tags.len() <= 1
    &&& (w.tags.len() == 1 ==> is_trimmed(w.tags[0]) && crate::entities::std_entity_free(
        w.tags[0],
    ))
    &&& forall|k: int| 0 <= k < w.examples.len() ==> wf_example(#[trigger] w.examples[k])
}

// ---------------------------------------------------------------------------
// The token list a serialized document splits into.
// ---------------------------------------------------------------------------
pub open spec fn tags_tokens(w: crate::word::WordView) -> Seq<Tok> {
    if w.tags.len() > 0 {
        elem_tokens(nl8(), nm_tags(), spec_escape(w.tags[0]))
    } else {
        Seq::empty()
    }
}

pub open spec fn note_tokens(w: crate::word::WordView) -> Seq<Tok> {
    if w.note.len() > 0 {
        cdata_elem_tokens(nl8(), nm_note(), w.note)
    } else {
        Seq::empty()
    }
}

pub open spec fn exam_tokens(e: crate::word::ExampleView) -> Seq<Tok> {
    seq![Tok::Text(nl12()), Tok::Open(nm_example())] + elem_tokens(
        nl16(),
        nm_source(),
        spec_escape(e.source),
    ) + cdata_elem_tokens(nl16(), nm_trans(), e.trans) + seq![
        Tok::Text(nl12()),
        Tok::Close(nm_example()),
    ]
}

pub open spec fn exams_tokens(es: Seq<crate::word::ExampleView>) -> Seq<Tok>
    decreases es.len(),
{
    if es.len() == 0 {
        Seq::empty()
    } else {
        exams_tokens(es.drop_last()) + exam_tokens(es.last())
    }
}

pub open spec fn examples_tokens(w: crate::word::WordView) -> Seq<Tok> {
    if w.examples.len() > 0 {
        seq![Tok::Text(nl8()), Tok::Open(nm_examples())] + exams_tokens(w.examples) + seq![
            Tok::Text(nl8()),
            Tok::Close(nm_examples()),
        ]
    } else {
        Seq::empty()
    }
}

pub open spec fn item_tokens(w: crate::word::WordView) -> Seq<Tok> {
    seq![Tok::Text(nl4()), Tok::Open(nm_item())] + elem_tokens(
        nl8(),
        nm_word(),
        spec_escape(w.word),
    ) + cdata_elem_tokens(nl8(), nm_trans(), w.trans) + cdata_elem_tokens(
        nl8(),
        nm_phonetic(),
        w.phonetic,
    ) + tags_tokens(w) + elem_tokens(nl8(), nm_progress(), crate::codec::spec_u8_digits(w.progress))
        + note_tokens(w) + examples_tokens(w) + seq![Tok::Text(nl4()), Tok::Close(nm_item())]
}

pub open spec fn items_tokens(ws: Seq<crate::word::WordView>) -> Seq<Tok>
    decreases ws.len(),
{
    if ws.len() == 0 {
        Seq::empty()
    } else {
        items_tokens(ws.drop_last()) + item_tokens(ws.last())
    }
}

/// Every name written by the serializer is a plain tag name.
proof fn lemma_names_plain()
    ensures
        plain_name(nm_item()),
        plain_name(nm_word()),
        plain_name(nm_trans()),
        plain_name(nm_phonetic()),
        plain_name(nm_tags()),
        plain_name(nm_progress()),
        plain_name(nm_note()),
        plain_name(nm_source()),
        plain_name(nm_example()),
        plain_name(nm_examples()),
        plain_name(nm_wordbook()),
{
}

/// The indentation runs hold no tag opener.
proof fn lemma_indents_plain()
    ensures
        forall|k: int| 0 <= k < nl1().len() ==> #[trigger] nl1()[k] != '<',
        forall|k: int| 0 <= k < nl4().len() ==> #[trigger] nl4()[k] != '<',
        forall|k: int| 0 <= k < nl8().len() ==> #[trigger] nl8()[k] != '<',
        forall|k: int| 0 <= k < nl12().len() ==> #[trigger] nl12()[k] != '<',
        forall|k: int| 0 <= k < nl16().len() ==> #[trigger] nl16()[k] != '<',
{
}

// ---------------------------------------------------------------------------
// The serialized chunks, decomposed into the pieces above.
// ---------------------------------------------------------------------------
pub open spec fn elem_str(t: Seq<char>, name: Seq<char>, content: Seq<char>) -> Seq<char> {
    t + t_open(name) + content + t_close(name)
}

pub open spec fn cdata_elem_str(t: Seq<char>, name: Seq<char>, payload: Seq<char>) -> Seq<char> {
    t + t_open(name) + cdata_open() + payload + cdata_close() + t_close(name)
}

pub open spec fn tags_str(w: crate::word::WordView) -> Seq<char> {
    if w.tags.len() > 0 {
        elem_str(nl8(), nm_tags(), spec_escape(w.tags[0]))
    } else {
        Seq::empty()
    }
}

pub open spec fn note_str(w: crate::word::WordView) -> Seq<char> {
    if w.note.len() > 0 {
        cdata_elem_str(nl8(), nm_note(), w.note)
    } else {
        Seq::empty()
    }
}

pub open spec fn exam_str(e: crate::word::ExampleView) -> Seq<char> {
    nl12() + t_open(nm_example()) + elem_str(nl16(), nm_source(), spec_escape(e.source))
        + cdata_elem_str(nl16(), nm_trans(), e.trans) + nl12() + t_close(nm_example())
}

pub open spec fn exams_str(es: Seq<crate::word::ExampleView>) -> Seq<char>
    decreases es.len(),
{
    if es.len() == 0 {
        Seq::empty()
    } else {
        exams_str(es.drop_last()) + exam_str(es.last())
    }
}

pub open spec fn examples_str(w: crate::word::WordView) -> Seq<char> {
    if w.examples.len() > 0 {
        nl8() + t_open(nm_examples()) + exams_str(w.examples) + nl8() + t_close(nm_examples())
    } else {
        Seq::empty()
    }
}

pub open spec fn item_str(w: crate::word::WordView) -> Seq<char> {
    nl4() + t_open(nm_item()) + elem_str(nl8(), nm_word(), spec_escape(w.word)) + cdata_elem_str(
        nl8(),
        nm_trans(),
        w.trans,
    ) + cdata_elem_str(nl8(), nm_phonetic(), w.phonetic) + tags_str(w) + elem_str(
        nl8(),
        nm_progress(),
        crate::codec::spec_u8_digits(w.progress),
    ) + note_str(w) + examples_str(w) + nl4() + t_close(nm_item())
}

/// An example block is its decomposition.
proof fn lemma_example_chunk_decomp(e: crate::word::ExampleView)
    ensures
        crate::codec::spec_example_chunk(e) == exam_str(e),
{
    reveal_strlit("\n            <example>\n                <source>");
    reveal_strlit("</source>\n                <trans><![CDATA[");
    reveal_strlit("]]></trans>\n            </example>");
    assert(crate::codec::spec_example_chunk(e) =~= exam_str(e));
}

/// A record block is its decomposition.
#[verifier::rlimit(100)]
proof fn lemma_item_chunk_decomp(w: crate::word::WordView)
    ensures
        crate::codec::spec_item_chunk(w) == item_str(w),
{
    reveal_strlit("\n    <item>\n        <word>");
    reveal_strlit("</word>\n        <trans><![CDATA[");
    reveal_strlit("]]></trans>\n        <phonetic><![CDATA[");
    reveal_strlit("]]></phonetic>");
    reveal_strlit("\n        <tags>");
    reveal_strlit("</tags>");
    reveal_strlit("\n        <progress>");
    reveal_strlit("</progress>");
    reveal_strlit("\n        <note><![CDATA[");
    reveal_strlit("]]></note>");
    reveal_strlit("\n        <examples>");
    reveal_strlit("\n        </examples>");
    reveal_strlit("\n    </item>");
    lemma_examples_chunk_decomp(w.examples);
    assert("\n    <item>\n        <word>"@ =~= nl4() + t_open(nm_item()) + nl8() + t_open(
        nm_word(),
    ));
    assert("</word>\n        <trans><![CDATA["@ =~= t_close(nm_word()) + nl8() + t_open(nm_trans())
        + cdata_open());
    assert("]]></trans>\n        <phonetic><![CDATA["@ =~= cdata_close() + t_close(nm_trans())
        + nl8() + t_open(nm_phonetic()) + cdata_open());
    assert("]]></phonetic>"@ =~= cdata_close() + t_close(nm_phonetic()));
    assert("\n        <tags>"@ =~= nl8() + t_open(nm_tags()));
    assert("</tags>"@ =~= t_close(nm_tags()));
    assert("\n        <progress>"@ =~= nl8() + t_open(nm_progress()));
    assert("</progress>"@ =~= t_close(nm_progress()));
    assert("\n        <note><![CDATA["@ =~= nl8() + t_open(nm_note()) + cdata_open());
    assert("]]></note>"@ =~= cdata_close() + t_close(nm_note()));
    assert("\n        <examples>"@ =~= nl8() + t_open(nm_examples()));
    assert("\n        </examples>"@ =~= nl8() + t_close(nm_examples()));
    assert("\n    </item>"@ =~= nl4() + t_close(nm_item()));
    assert(crate::codec::spec_item_chunk(w) =~= item_str(w));
}

/// The example list's blocks are their decompositions.
proof fn lemma_examples_chunk_decomp(es: Seq<crate::word::ExampleView>)
    ensures
        crate::codec::spec_examples_chunk(es) == exams_str(es),
    decreases es.len(),
{
    if es.len() > 0 {
        lemma_examples_chunk_decomp(es.drop_last());
        lemma_example_chunk_decomp(es.last());
    }
}

// ---------------------------------------------------------------------------
// Tokenizing a serialized document.
// ---------------------------------------------------------------------------
/// A rendered byte is all digit characters, and there is at least one.
proof fn lemma_u8_digits_are_digits(n: u8)
    ensures
        crate::codec::all_digits(crate::codec::spec_u8_digits(n)),
        crate::codec::spec_u8_digits(n).len() > 0,
        forall|k: int|
            0 <= k < crate::codec::spec_u8_digits(n).len()
                ==> #[trigger] crate::codec::spec_u8_digits(n)[k] != '<'
                && crate::codec::spec_u8_digits(n)[k] != '&' && !is_space_char(
                crate::codec::spec_u8_digits(n)[k],
            ),
{
    let s = crate::codec::spec_u8_digits(n);
    assert forall|k: int| 0 <= k < s.len() implies crate::codec::digit_val(#[trigger] s[k])
        >= 0 by {}
    assert forall|k: int|
        0 <= k < s.len() implies #[trigger] s[k] != '<' && s[k] != '&' && !is_space_char(s[k]) by {
        assert(crate::codec::digit_val(s[k]) >= 0);
    }
}

/// The tags field, if present.
proof fn lemma_tags_part(w: crate::word::WordView, r: Seq<char>)
    ensures
        spec_tokenize(tags_str(w) + r) == opt_concat(tags_tokens(w), spec_tokenize(r)),
{
    if w.tags.len() > 0 {
        lemma_names_plain();
        lemma_indents_plain();
        lemma_escape_no_lt(w.tags[0]);
        lemma_seg_elem(nl8(), nm_tags(), spec_escape(w.tags[0]), r);
        assert(tags_str(w) + r =~= nl8() + t_open(nm_tags()) + spec_escape(w.tags[0]) + t_close(
            nm_tags(),
        ) + r);
    } else {
        assert(tags_str(w) + r =~= r);
        assert(opt_concat(tags_tokens(w), spec_tokenize(r)) == spec_tokenize(r)) by {
            match spec_tokenize(r) {
                None => {},
                Some(ts) => {
                    assert(Seq::<Tok>::empty() + ts =~= ts);
                },
            }
        }
    }
}

/// The note field, if present.
proof fn lemma_note_part(w: crate::word::WordView, r: Seq<char>)
    requires
        forall|i: int| !occurs_at(w.note, cdata_close(), i),
    ensures
        spec_tokenize(note_str(w) + r) == opt_concat(note_tokens(w), spec_tokenize(r)),
{
    if w.note.len() > 0 {
        lemma_names_plain();
        lemma_indents_plain();
        lemma_seg_cdata_elem(nl8(), nm_note(), w.note, r);
        assert(note_str(w) + r =~= nl8() + t_open(nm_note()) + cdata_open() + w.note
            + cdata_close() + t_close(nm_note()) + r);
    } else {
        assert(note_str(w) + r =~= r);
        assert(opt_concat(note_tokens(w), spec_tokenize(r)) == spec_tokenize(r)) by {
            match spec_tokenize(r) {
                None => {},
                Some(ts) => {
                    assert(Seq::<Tok>::empty() + ts =~= ts);
                },
            }
        }
    }
}

/// One example block.
proof fn lemma_exam_part(e: crate::word::ExampleView, r: Seq<char>)
    requires
        forall|i: int| !occurs_at(e.trans, cdata_close(), i),
    ensures
        spec_tokenize(exam_str(e) + r) == opt_concat(exam_tokens(e), spec_tokenize(r)),
{
    lemma_names_plain();
    lemma_indents_plain();
    lemma_escape_no_lt(e.source);
    let r3 = nl12() + t_close(nm_example()) + r;
    lemma_seg_close(nl12(), nm_example(), r);
    let r2 = cdata_elem_str(nl16(), nm_trans(), e.trans) + r3;
    lemma_seg_cdata_elem(nl16(), nm_trans(), e.trans, r3);
    assert(cdata_elem_str(nl16(), nm_trans(), e.trans) + r3 =~= nl16() + t_open(nm_trans())
        + cdata_open() + e.trans + cdata_close() + t_close(nm_trans()) + r3);
    let r1 = elem_str(nl16(), nm_source(), spec_escape(e.source)) + r2;
    lemma_seg_elem(nl16(), nm_source(), spec_escape(e.source), r2);
    assert(elem_str(nl16(), nm_source(), spec_escape(e.source)) + r2 =~= nl16() + t_open(
        nm_source(),
    ) + spec_escape(e.source) + t_close(nm_source()) + r2);
    lemma_seg_open(nl12(), nm_example(), r1);
    assert(exam_str(e) + r =~= nl12() + t_open(nm_example()) + r1);
    // Collapse the token lists.
    lemma_opt_concat_assoc(
        cdata_elem_tokens(nl16(), nm_trans(), e.trans),
        seq![Tok::Text(nl12()), Tok::Close(nm_example())],
        spec_tokenize(r),
    );
    lemma_opt_concat_assoc(
        elem_tokens(nl16(), nm_source(), spec_escape(e.source)),
        cdata_elem_tokens(nl16(), nm_trans(), e.trans) + seq![
            Tok::Text(nl12()),
            Tok::Close(nm_example()),
        ],
        spec_tokenize(r),
    );
    lemma_opt_concat_assoc(
        seq![Tok::Text(nl12()), Tok::Open(nm_example())],
        elem_tokens(nl16(), nm_source(), spec_escape(e.source)) + (cdata_elem_tokens(
            nl16(),
            nm_trans(),
            e.trans,
        ) + seq![Tok::Text(nl12()), Tok::Close(nm_example())]),
        spec_tokenize(r),
    );
    assert(seq![Tok::Text(nl12()), Tok::Open(nm_example())] + (elem_tokens(
        nl16(),
        nm_source(),
        spec_escape(e.source),
    ) + (cdata_elem_tokens(nl16(), nm_trans(), e.trans) + seq![
        Tok::Text(nl12()),
        Tok::Close(nm_example()),
    ])) =~= exam_tokens(e));
}

/// Splitting off the first example.
proof fn lemma_exams_cons(es: Seq<crate::word::ExampleView>)
    requires
        es.len() > 0,
    ensures
        exams_str(es) == exam_str(es[0]) + exams_str(es.drop_first()),
        exams_tokens(es) == exam_tokens(es[0]) + exams_tokens(es.drop_first()),
    decreases es.len(),
{
    if es.len() == 1 {
        assert(es.drop_last() =~= Seq::<crate::word::ExampleView>::empty());
        assert(es.drop_first() =~= Seq::<crate::word::ExampleView>::empty());
        assert(es.last() == es[0]);
        assert(exams_str(es) =~= exam_str(es[0]) + exams_str(es.drop_first()));
        assert(exams_tokens(es) =~= exam_tokens(es[0]) + exams_tokens(es.drop_first()));
    } else {
        lemma_exams_cons(es.drop_last());
        assert(es.drop_last()[0] == es[0]);
        assert(es.drop_last().drop_first() =~= es.drop_first().drop_last());
        assert(es.drop_first().last() == es.last());
        assert(exams_str(es) =~= exam_str(es[0]) + exams_str(es.drop_first()));
        assert(exams_tokens(es) =~= exam_tokens(es[0]) + exams_tokens(es.drop_first()));
    }
}

/// A list of example blocks.
proof fn lemma_exams_part(es: Seq<crate::word::ExampleView>, r: Seq<char>)
    requires
        forall|k: int| 0 <= k < es.len() ==> wf_example(#[trigger] es[k]),
    ensures
        spec_tokenize(exams_str(es) + r) == opt_concat(exams_tokens(es), spec_tokenize(r)),
    decreases es.len(),
{
    if es.len() == 0 {
        assert(exams_str(es) + r =~= r);
        assert(opt_concat(exams_tokens(es), spec_tokenize(r)) == spec_tokenize(r)) by {
            match spec_tokenize(r) {
                None => {},
                Some(ts) => {
                    assert(Seq::<Tok>::empty() + ts =~= ts);
                },
            }
        }
    } else {
        lemma_exams_cons(es);
        assert(forall|k: int|
            0 <= k < es.drop_first().len() ==> wf_example(#[trigger] es.drop_first()[k]));
        lemma_exams_part(es.drop_first(), r);
        lemma_exam_part(es[0], exams_str(es.drop_first()) + r);
        assert(exams_str(es) + r =~= exam_str(es[0]) + (exams_str(es.drop_first()) + r));
        lemma_opt_concat_assoc(
            exam_tokens(es[0]),
            exams_tokens(es.drop_first()),
            spec_tokenize(r),
        );
    }
}

/// The examples field, if present.
proof fn lemma_examples_part(w: crate::word::WordView, r: Seq<char>)
    requires
        forall|k: int| 0 <= k < w.examples.len() ==> wf_example(#[trigger] w.examples[k]),
    ensures
        spec_tokenize(examples_str(w) + r) == opt_concat(examples_tokens(w), spec_tokenize(r)),
{
    if w.examples.len() > 0 {
        lemma_names_plain();
        lemma_indents_plain();
        let r2 = nl8() + t_close(nm_examples()) + r;
        lemma_seg_close(nl8(), nm_examples(), r);
        let r1 = exams_str(w.examples) + r2;
        lemma_exams_part(w.examples, r2);
        lemma_seg_open(nl8(), nm_examples(), r1);
        assert(examples_str(w) + r =~= nl8() + t_open(nm_examples()) + r1);
        lemma_opt_concat_assoc(
            exams_tokens(w.examples),
            seq![Tok::Text(nl8()), Tok::Close(nm_examples())],
            spec_tokenize(r),
        );
        lemma_opt_concat_assoc(
            seq![Tok::Text(nl8()), Tok::Open(nm_examples())],
            exams_tokens(w.examples) + seq![Tok::Text(nl8()), Tok::Close(nm_examples())],
            spec_tokenize(r),
        );
        assert(seq![Tok::Text(nl8()), Tok::Open(nm_examples())] + (exams_tokens(w.examples) + seq![
            Tok::Text(nl8()),
            Tok::Close(nm_examples()),
        ]) =~= examples_tokens(w));
    } else {
        assert(examples_str(w) + r =~= r);
        assert(opt_concat(examples_tokens(w), spec_tokenize(r)) == spec_tokenize(r)) by {
            match spec_tokenize(r) {
                None => {},
                Some(ts) => {
                    assert(Seq::<Tok>::empty() + ts =~= ts);
                },
            }
        }
    }
}

/// The back half of a record block: tags, progress, note, examples, closing.
pub open spec fn item_tail_str(w: crate::word::WordView) -> Seq<char> {
    tags_str(w) + elem_str(nl8(), nm_progress(), crate::codec::spec_u8_digits(w.progress))
        + note_str(w) + examples_str(w) + nl4() + t_close(nm_item())
}

pub open spec fn item_tail_tokens(w: crate::word::WordView) -> Seq<Tok> {
    tags_tokens(w) + elem_tokens(nl8(), nm_progress(), crate::codec::spec_u8_digits(w.progress))
        + note_tokens(w) + examples_tokens(w) + seq![Tok::Text(nl4()), Tok::Close(nm_item())]
}

/// Left-to-right regrouping of a concatenation chain of four pieces and a
/// two-piece closer.
proof fn lemma_chain_tail(
    a: Seq<char>,
    b: Seq<char>,
    c: Seq<char>,
    d: Seq<char>,
    e: Seq<char>,
    f: Seq<char>,
    r: Seq<char>,
)
    ensures
        (a + b + c + d + e + f) + r == a + (b + (c + (d + (e + f + r)))),
{
    assert((a + b + c + d + e + f) + r =~= a + (b + (c + (d + (e + f + r)))));
}

/// Left-to-right regrouping of a two-piece opener and four pieces.
proof fn lemma_chain_head(
    a: Seq<char>,
    b: Seq<char>,
    c: Seq<char>,
    d: Seq<char>,
    e: Seq<char>,
    f: Seq<char>,
    r: Seq<char>,
)
    ensures
        (a + b + c + d + e + f) + r == (a + b + (c + (d + (e + (f + r))))),
{
    assert((a + b + c + d + e + f) + r =~= (a + b + (c + (d + (e + (f + r))))));
}

/// The back half tokenizes into its tokens.
#[verifier::rlimit(100)]
proof fn lemma_item_tail_part(w: crate::word::WordView, rest: Seq<char>)
    requires
        wf_word_content(w),
    ensures
        spec_tokenize(item_tail_str(w) + rest) == opt_concat(
            item_tail_tokens(w),
            spec_tokenize(rest),
        ),
{
    lemma_names_plain();
    lemma_indents_plain();
    lemma_u8_digits_are_digits(w.progress);
    let digits = crate::codec::spec_u8_digits(w.progress);
    lemma_seg_close(nl4(), nm_item(), rest);
    let r7 = nl4() + t_close(nm_item()) + rest;
    lemma_examples_part(w, r7);
    let r6 = examples_str(w) + r7;
    lemma_note_part(w, r6);
    let r5 = note_str(w) + r6;
    lemma_seg_elem(nl8(), nm_progress(), digits, r5);
    let r4 = elem_str(nl8(), nm_progress(), digits) + r5;
    lemma_tags_part(w, r4);
    lemma_chain_tail(
        tags_str(w),
        elem_str(nl8(), nm_progress(), digits),
        note_str(w),
        examples_str(w),
        nl4(),
        t_close(nm_item()),
        rest,
    );
    assert(item_tail_str(w) + rest == tags_str(w) + r4);
    let tk_close = seq![Tok::Text(nl4()), Tok::Close(nm_item())];
    let tk_ex = examples_tokens(w);
    let tk_note = note_tokens(w);
    let tk_prog = elem_tokens(nl8(), nm_progress(), digits);
    let tk_tags = tags_tokens(w);
    let o = spec_tokenize(rest);
    lemma_opt_concat_assoc(tk_ex, tk_close, o);
    lemma_opt_concat_assoc(tk_note, tk_ex + tk_close, o);
    lemma_opt_concat_assoc(tk_prog, tk_note + (tk_ex + tk_close), o);
    lemma_opt_concat_assoc(tk_tags, tk_prog + (tk_note + (tk_ex + tk_close)), o);
    assert(tk_tags + (tk_prog + (tk_note + (tk_ex + tk_close))) =~= item_tail_tokens(w));
}

/// One record block's tokens.
#[verifier::rlimit(100)]
proof fn lemma_item_part(w: crate::word::WordView, rest: Seq<char>)
    requires
        wf_word_content(w),
    ensures
        spec_tokenize(crate::codec::spec_item_chunk(w) + rest) == opt_concat(
            item_tokens(w),
            spec_tokenize(rest),
        ),
{
    lemma_item_chunk_decomp(w);
    lemma_names_plain();
    lemma_indents_plain();
    lemma_escape_no_lt(w.word);
    lemma_item_tail_part(w, rest);
    let r3 = item_tail_str(w) + rest;
    lemma_seg_cdata_elem(nl8(), nm_phonetic(), w.phonetic, r3);
    let r2 = cdata_elem_str(nl8(), nm_phonetic(), w.phonetic) + r3;
    lemma_seg_cdata_elem(nl8(), nm_trans(), w.trans, r2);
    let r1 = cdata_elem_str(nl8(), nm_trans(), w.trans) + r2;
    lemma_seg_elem(nl8(), nm_word(), spec_escape(w.word), r1);
    let r0 = elem_str(nl8(), nm_word(), spec_escape(w.word)) + r1;
    lemma_seg_open(nl4(), nm_item(), r0);
    lemma_chain_head(
        nl4(),
        t_open(nm_item()),
        elem_str(nl8(), nm_word(), spec_escape(w.word)),
        cdata_elem_str(nl8(), nm_trans(), w.trans),
        cdata_elem_str(nl8(), nm_phonetic(), w.phonetic),
        item_tail_str(w),
        rest,
    );
    assert(item_str(w) + rest == nl4() + t_open(nm_item()) + r0);
    let tk_tail = item_tail_tokens(w);
    let tk_phon = cdata_elem_tokens(nl8(), nm_phonetic(), w.phonetic);
    let tk_trans = cdata_elem_tokens(nl8(), nm_trans(), w.trans);
    let tk_word = elem_tokens(nl8(), nm_word(), spec_escape(w.word));
    let tk_open = seq![Tok::Text(nl4()), Tok::Open(nm_item())];
    let o = spec_tokenize(rest);
    lemma_opt_concat_assoc(tk_phon, tk_tail, o);
    lemma_opt_concat_assoc(tk_trans, tk_phon + tk_tail, o);
    lemma_opt_concat_assoc(tk_word, tk_trans + (tk_phon + tk_tail), o);
    lemma_opt_concat_assoc(tk_open, tk_word + (tk_trans + (tk_phon + tk_tail)), o);
    assert(tk_open + (tk_word + (tk_trans + (tk_phon + tk_tail))) =~= item_tokens(w));
}

/// Splitting off the first record block.
proof fn lemma_items_cons(ws: Seq<crate::word::WordView>)
    requires
        ws.len() > 0,
    ensures
        crate::codec::spec_items_chunk(ws) == crate::codec::spec_item_chunk(ws[0])
            + crate::codec::spec_items_chunk(ws.drop_first()),
        items_tokens(ws) == item_tokens(ws[0]) + items_tokens(ws.drop_first()),
    decreases ws.len(),
{
    if ws.len() == 1 {
        assert(ws.drop_last() =~= Seq::<crate::word::WordView>::empty());
        assert(ws.drop_first() =~= Seq::<crate::word::WordView>::empty());
        assert(ws.last() == ws[0]);
        assert(crate::codec::spec_items_chunk(ws) =~= crate::codec::spec_item_chunk(ws[0])
            + crate::codec::spec_items_chunk(ws.drop_first()));
        assert(items_tokens(ws) =~= item_tokens(ws[0]) + items_tokens(ws.drop_first()));
    } else {
        lemma_items_cons(ws.drop_last());
        assert(ws.drop_last()[0] == ws[0]);
        assert(ws.drop_last().drop_first() =~= ws.drop_first().drop_last());
        assert(ws.drop_first().last() == ws.last());
        assert(crate::codec::spec_items_chunk(ws) =~= crate::codec::spec_item_chunk(ws[0])
            + crate::codec::spec_items_chunk(ws.drop_first()));
        assert(items_tokens(ws) =~= item_tokens(ws[0]) + items_tokens(ws.drop_first()));
    }
}

/// All record blocks.
proof fn lemma_items_part(ws: Seq<crate::word::WordView>, r: Seq<char>)
    requires
        forall|k: int| 0 <= k < ws.len() ==> wf_word_content(#[trigger] ws[k]),
    ensures
        spec_tokenize(crate::codec::spec_items_chunk(ws) + r) == opt_concat(
            items_tokens(ws),
            spec_tokenize(r),
        ),
    decreases ws.len(),
{
    if ws.len() == 0 {
        assert(crate::codec::spec_items_chunk(ws) + r =~= r);
        assert(opt_concat(items_tokens(ws), spec_tokenize(r)) == spec_tokenize(r)) by {
            match spec_tokenize(r) {
                None => {},
                Some(ts) => {
                    assert(Seq::<Tok>::empty() + ts =~= ts);
                },
            }
        }
    } else {
        lemma_items_cons(ws);
        assert(forall|k: int|
            0 <= k < ws.drop_first().len() ==> wf_word_content(#[trigger] ws.drop_first()[k]));
        lemma_items_part(ws.drop_first(), r);
        lemma_item_part(ws[0], crate::codec::spec_items_chunk(ws.drop_first()) + r);
        assert(crate::codec::spec_items_chunk(ws) + r =~= crate::codec::spec_item_chunk(ws[0]) + (
        crate::codec::spec_items_chunk(ws.drop_first()) + r));
        lemma_opt_concat_assoc(
            item_tokens(ws[0]),
            items_tokens(ws.drop_first()),
            spec_tokenize(r),
        );
    }
}

/// The declaration body of the document header.
pub open spec fn decl_body() -> Seq<char> {
    seq![
        'x', 'm', 'l', ' ', 'v', 'e', 'r', 's', 'i', 'o', 'n', '=', '"', '1', '.', '0', '"', ' ',
        'e', 'n', 'c', 'o', 'd', 'i', 'n', 'g', '=', '"', 'U', 'T', 'F', '-', '8', '"',
    ]
}

/// The token list of a whole serialized document.
pub open spec fn doc_tokens(ws: Seq<crate::word::WordView>) -> Seq<Tok> {
    seq![Tok::Text(nl1()), Tok::Open(nm_wordbook())] + items_tokens(ws) + seq![
        Tok::Text(nl1()),
        Tok::Close(nm_wordbook()),
        Tok::Text(nl1()),
    ]
}

/// A serialized snapshot always tokenizes, into the expected token list.
#[verifier::rlimit(100)]
pub proof fn lemma_serialize_tokenizes(ws: Seq<crate::word::WordView>)
    requires
        forall|k: int| 0 <= k < ws.len() ==> wf_word_content(#[trigger] ws[k]),
    ensures
        spec_tokenize(crate::codec::spec_serialize(ws)) == Some(doc_tokens(ws)),
{
    lemma_names_plain();
    lemma_indents_plain();
    reveal_strlit("<?xml version=\"1.0\" encoding=\"UTF-8\"?>\n<wordbook>");
    reveal_strlit("\n</wordbook>\n");
    // The footer: a newline, the closing tag, a final newline.
    lemma_tok_text(nl1(), Seq::empty());
    assert(nl1() + Seq::<char>::empty() =~= nl1());
    assert(spec_tokenize(nl1()) == Some(seq![Tok::Text(nl1())])) by {
        assert(opt_concat(seq![Tok::Text(nl1())], Some(Seq::<Tok>::empty())) == Some(
            seq![Tok::Text(nl1())] + Seq::<Tok>::empty(),
        ));
        assert(seq![Tok::Text(nl1())] + Seq::<Tok>::empty() =~= seq![Tok::Text(nl1())]);
    }
    lemma_seg_close(nl1(), nm_wordbook(), nl1());
    let footer = nl1() + t_close(nm_wordbook()) + nl1();
    assert(crate::codec::doc_footer() =~= footer);
    assert(spec_tokenize(footer) == Some(
        seq![Tok::Text(nl1()), Tok::Close(nm_wordbook()), Tok::Text(nl1())],
    )) by {
        assert(seq![Tok::Text(nl1()), Tok::Close(nm_wordbook())] + seq![Tok::Text(nl1())] =~= seq![
            Tok::Text(nl1()),
            Tok::Close(nm_wordbook()),
            Tok::Text(nl1()),
        ]);
    }
    // The record blocks.
    lemma_items_part(ws, footer);
    let r1 = crate::codec::spec_items_chunk(ws) + footer;
    // The word book opening.
    lemma_seg_open(nl1(), nm_wordbook(), r1);
    let r0 = nl1() + t_open(nm_wordbook()) + r1;
    // The declaration.
    lemma_tok_pi(decl_body(), r0);
    assert(crate::codec::spec_serialize(ws) =~= seq!['<', '?'] + decl_body() + pi_close() + r0);
    // Assemble.
    let tks = seq![Tok::Text(nl1()), Tok::Open(nm_wordbook())];
    lemma_opt_concat_assoc(
        tks,
        items_tokens(ws),
        spec_tokenize(footer),
    );
    match spec_tokenize(footer) {
        None => {},
        Some(fts) => {
            assert((tks + items_tokens(ws)) + fts =~= doc_tokens(ws));
        },
    }
}

// ---------------------------------------------------------------------------
// Folding the tokens back into drafts.
// ---------------------------------------------------------------------------
/// The draft a record's content fields make.
pub open spec fn draft_of(w: crate::word::WordView) -> crate::codec::Draft {
    crate::codec::Draft {
        word: w.word,
        trans: w.trans,
        phonetic: w.phonetic,
        tags: w.tags,
        progress: w.progress,
        note: w.note,
        examples: w.examples,
    }
}

/// The drafts of a whole snapshot.
pub open spec fn drafts_of(ws: Seq<crate::word::WordView>) -> Seq<crate::codec::Draft> {
    Seq::new(ws.len(), |i: int| draft_of(ws[i]))
}

use crate::codec::spec_build_from;
use crate::codec::spec_build_step;
use crate::codec::BuildState;
use crate::codec::Draft;

/// Folding a concatenation is folding each part in turn.
proof fn lemma_build_append(st: BuildState, a: Seq<Tok>, b: Seq<Tok>)
    ensures
        spec_build_from(st, a + b) == spec_build_from(spec_build_from(st, a), b),
    decreases a.len(),
{
    if a.len() == 0 {
        assert(a + b =~= b);
    } else {
        assert((a + b)[0] == a[0]);
        assert((a + b).drop_first() =~= a.drop_first() + b);
        lemma_build_append(spec_build_step(st, a[0]), a.drop_first(), b);
    }
}

proof fn lemma_build2(st: BuildState, a: Tok, b: Tok)
    ensures
        spec_build_from(st, seq![a, b]) == spec_build_step(spec_build_step(st, a), b),
{
    assert(seq![a, b][0] == a);
    assert(seq![a, b].drop_first() =~= seq![b]);
    assert(seq![b][0] == b);
    assert(seq![b].drop_first() =~= Seq::<Tok>::empty());
    assert(spec_build_from(spec_build_step(spec_build_step(st, a), b), Seq::<Tok>::empty())
        == spec_build_step(spec_build_step(st, a), b));
    assert(spec_build_from(spec_build_step(st, a), seq![b]) == spec_build_step(
        spec_build_step(st, a),
        b,
    ));
}

proof fn lemma_build3(st: BuildState, a: Tok, b: Tok, c: Tok)
    ensures
        spec_build_from(st, seq![a, b, c]) == spec_build_step(
            spec_build_step(spec_build_step(st, a), b),
            c,
        ),
{
    assert(seq![a, b, c][0] == a);
    assert(seq![a, b, c].drop_first() =~= seq![b, c]);
    lemma_build2(spec_build_step(st, a), b, c);
}

proof fn lemma_build4(st: BuildState, a: Tok, b: Tok, c: Tok, d: Tok)
    ensures
        spec_build_from(st, seq![a, b, c, d]) == spec_build_step(
            spec_build_step(spec_build_step(spec_build_step(st, a), b), c),
            d,
        ),
{
    assert(seq![a, b, c, d][0] == a);
    assert(seq![a, b, c, d].drop_first() =~= seq![b, c, d]);
    lemma_build3(spec_build_step(st, a), b, c, d);
}

/// The serializer's names, pinned to their text and kept apart.
proof fn lemma_name_views()
    ensures
        nm_item() == "item"@,
        nm_word() == "word"@,
        nm_trans() == "trans"@,
        nm_phonetic() == "phonetic"@,
        nm_tags() == "tags"@,
        nm_progress() == "progress"@,
        nm_note() == "note"@,
        nm_source() == "source"@,
        nm_example() == "example"@,
        nm_examples() == "examples"@,
        nm_wordbook() == "wordbook"@,
{
    reveal_strlit("item");
    reveal_strlit("word");
    reveal_strlit("trans");
    reveal_strlit("phonetic");
    reveal_strlit("tags");
    reveal_strlit("progress");
    reveal_strlit("note");
    reveal_strlit("source");
    reveal_strlit("example");
    reveal_strlit("examples");
    reveal_strlit("wordbook");
    assert(nm_item() =~= "item"@);
    assert(nm_word() =~= "word"@);
    assert(nm_trans() =~= "trans"@);
    assert(nm_phonetic() =~= "phonetic"@);
    assert(nm_tags() =~= "tags"@);
    assert(nm_progress() =~= "progress"@);
    assert(nm_note() =~= "note"@);
    assert(nm_source() =~= "source"@);
    assert(nm_example() =~= "example"@);
    assert(nm_examples() =~= "examples"@);
    assert(nm_wordbook() =~= "wordbook"@);
}

/// No two of the serializer's names read alike.
proof fn lemma_names_distinct()
    ensures
        nm_word() != nm_item() && nm_word() != nm_example(),
        nm_trans() != nm_item() && nm_trans() != nm_example() && nm_trans() != nm_word(),
        nm_phonetic() != nm_item() && nm_phonetic() != nm_example() && nm_phonetic() != nm_word()
            && nm_phonetic() != nm_trans(),
        nm_tags() != nm_item() && nm_tags() != nm_example() && nm_tags() != nm_word() && nm_tags()
            != nm_trans() && nm_tags() != nm_phonetic(),
        nm_progress() != nm_item() && nm_progress() != nm_example() && nm_progress() != nm_word()
            && nm_progress() != nm_trans() && nm_progress() != nm_phonetic() && nm_progress()
            != nm_tags(),
        nm_note() != nm_item() && nm_note() != nm_example() && nm_note() != nm_word() && nm_note()
            != nm_trans() && nm_note() != nm_phonetic() && nm_note() != nm_tags() && nm_note()
            != nm_progress(),
        nm_source() != nm_item() && nm_source() != nm_example() && nm_source() != nm_word()
            && nm_source() != nm_trans() && nm_source() != nm_phonetic() && nm_source()
            != nm_tags() && nm_source() != nm_progress() && nm_source() != nm_note(),
        nm_example() != nm_item() && nm_example() != nm_word() && nm_example() != nm_trans()
            && nm_example() != nm_phonetic() && nm_example() != nm_tags() && nm_example()
            != nm_progress() && nm_example() != nm_note() && nm_example() != nm_source(),
        nm_examples() != nm_item() && nm_examples() != nm_example() && nm_examples() != nm_word()
            && nm_examples() != nm_trans() && nm_examples() != nm_phonetic() && nm_examples()
            != nm_tags() && nm_examples() != nm_progress() && nm_examples() != nm_note()
            && nm_examples() != nm_source(),
        nm_wordbook() != nm_item() && nm_wordbook() != nm_example() && nm_wordbook() != nm_word()
            && nm_wordbook() != nm_trans() && nm_wordbook() != nm_phonetic() && nm_wordbook()
            != nm_tags() && nm_wordbook() != nm_progress() && nm_wordbook() != nm_note()
            && nm_wordbook() != nm_source(),
        nm_item() != nm_word() && nm_item() != nm_trans() && nm_item() != nm_phonetic()
            && nm_item() != nm_tags() && nm_item() != nm_progress() && nm_item() != nm_note()
            && nm_item() != nm_source() && nm_item() != nm_example(),
{
    assert(nm_item()[0] == 'i');
    assert(nm_word()[0] == 'w');
    assert(nm_trans()[0] == 't');
    assert(nm_phonetic()[0] == 'p');
    assert(nm_tags()[0] == 't');
    assert(nm_progress()[0] == 'p');
    assert(nm_note()[0] == 'n');
    assert(nm_source()[0] == 's');
    assert(nm_example()[0] == 'e');
    assert(nm_examples()[0] == 'e');
    assert(nm_wordbook()[0] == 'w');
    assert(nm_trans()[1] == 'r');
    assert(nm_tags()[1] == 'a');
    assert(nm_phonetic()[1] == 'h');
    assert(nm_progress()[1] == 'r');
    assert(nm_example()[1] == 'x');
    assert(nm_examples()[1] == 'x');
    assert(nm_wordbook()[1] == 'o');
    assert(nm_word()[1] == 'o');
    assert(nm_word().len() == 4);
    assert(nm_wordbook().len() == 8);
    assert(nm_example().len() == 7);
    assert(nm_examples().len() == 8);
}

/// Text with no ampersand decodes to itself.
proof fn lemma_decode_text_id_no_amp(s: Seq<char>)
    requires
        forall|k: int| 0 <= k < s.len() ==> #[trigger] s[k] != '&',
    ensures
        crate::entities::spec_decode_text(s) == s,
{
    assert forall|i: int| !crate::entities::std_entity_at(s, i) by {
        if crate::entities::std_entity_at(s, i) {
            assert(s[i] == '&') by {
                if occurs_at(s, crate::entities::e_lt(), i) {
                    assert(s.subrange(i, i + 4)[0] == s[i]);
                }
                if occurs_at(s, crate::entities::e_gt(), i) {
                    assert(s.subrange(i, i + 4)[0] == s[i]);
                }
                if occurs_at(s, crate::entities::e_quot(), i) {
                    assert(s.subrange(i, i + 6)[0] == s[i]);
                }
                if occurs_at(s, crate::entities::e_apos(), i) {
                    assert(s.subrange(i, i + 6)[0] == s[i]);
                }
                if occurs_at(s, crate::entities::e_amp(), i) {
                    assert(s.subrange(i, i + 5)[0] == s[i]);
                }
                if occurs_at(s, crate::entities::e_nbsp(), i) {
                    assert(s.subrange(i, i + 6)[0] == s[i]);
                }
                if occurs_at(s, crate::entities::e_copy(), i) {
                    assert(s.subrange(i, i + 6)[0] == s[i]);
                }
                if occurs_at(s, crate::entities::e_reg(), i) {
                    assert(s.subrange(i, i + 5)[0] == s[i]);
                }
                if occurs_at(s, crate::entities::e_trade(), i) {
                    assert(s.subrange(i, i + 7)[0] == s[i]);
                }
            }
        }
    }
    crate::entities::lemma_std_free_implies_double_free(s);
    crate::entities::lemma_decode_double_id(s);
    crate::entities::lemma_decode_std_id(s);
}

/// A state between fields of an open record.
pub open spec fn mid_state(d: Draft, out: Seq<Draft>) -> BuildState {
    BuildState { cur: Some(d), cur_ex: None, buf: Seq::empty(), out: out }
}

/// Folding the headword element writes the decoded, trimmed headword.
proof fn lemma_build_word(st: BuildState, d: Draft, w: crate::word::WordView)
    requires
        st.cur == Some(d),
        st.cur_ex is None,
        crate::entities::std_entity_free(w.word),
        is_trimmed(w.word),
        w.word.len() > 0,
    ensures
        spec_build_from(st, elem_tokens(nl8(), nm_word(), spec_escape(w.word))) == mid_state(
            (Draft { word: w.word, ..d }),
            st.out,
        ),
{
    lemma_name_views();
    lemma_names_distinct();
    lemma_escape_no_lt(w.word);
    crate::entities::lemma_decode_text_of_escape(w.word);
    lemma_trim_of_trimmed(w.word);
    let esc = spec_escape(w.word);
    assert(elem_tokens(nl8(), nm_word(), esc) =~= seq![
        Tok::Text(nl8()),
        Tok::Open(nm_word()),
        Tok::Text(esc),
        Tok::Close(nm_word()),
    ]);
    lemma_build4(st, Tok::Text(nl8()), Tok::Open(nm_word()), Tok::Text(esc), Tok::Close(nm_word()));
    let st1 = spec_build_step(st, Tok::Text(nl8()));
    let st2 = spec_build_step(st1, Tok::Open(nm_word()));
    let st3 = spec_build_step(st2, Tok::Text(esc));
    assert(st3.buf =~= w.word);
    let st4 = spec_build_step(st3, Tok::Close(nm_word()));
    assert(st4 =~= mid_state((Draft { word: w.word, ..d }), st.out));
}

/// Folding a character-data element onto the open record.
proof fn lemma_build_cdata_field(
    st: BuildState,
    d: Draft,
    name: Seq<char>,
    payload: Seq<char>,
    updated: Draft,
)
    requires
        st.cur == Some(d),
        st.cur_ex is None,
        spec_clean(payload) == payload,
        name == nm_trans() || name == nm_phonetic() || name == nm_note(),
        name == nm_trans() ==> updated == (Draft { trans: payload, ..d }),
        name == nm_phonetic() ==> updated == (Draft { phonetic: payload, ..d }),
        name == nm_note() ==> updated == (Draft { note: payload, ..d }),
    ensures
        spec_build_from(st, cdata_elem_tokens(nl8(), name, payload)) == mid_state(updated, st.out),
{
    lemma_name_views();
    lemma_names_distinct();
    lemma_build4(
        st,
        Tok::Text(nl8()),
        Tok::Open(name),
        Tok::CData(payload),
        Tok::Close(name),
    );
    let st1 = spec_build_step(st, Tok::Text(nl8()));
    let st2 = spec_build_step(st1, Tok::Open(name));
    let st3 = spec_build_step(st2, Tok::CData(payload));
    assert(st3.buf =~= payload);
    let st4 = spec_build_step(st3, Tok::Close(name));
    assert(st4 =~= mid_state(updated, st.out));
}

/// Folding the tags element writes the single tag.
proof fn lemma_build_tags(st: BuildState, d: Draft, w: crate::word::WordView)
    requires
        st.cur == Some(d),
        st.cur_ex is None,
        st.buf == Seq::<char>::empty(),
        w.tags.len() <= 1,
        w.tags.len() == 1 ==> is_trimmed(w.tags[0]) && crate::entities::std_entity_free(w.tags[0]),
        d.tags == Seq::<Seq<char>>::empty(),
    ensures
        spec_build_from(st, tags_tokens(w)) == mid_state((Draft { tags: w.tags, ..d }), st.out),
{
    lemma_name_views();
    lemma_names_distinct();
    if w.tags.len() == 0 {
        assert(tags_tokens(w) =~= Seq::<Tok>::empty());
        assert(w.tags =~= d.tags);
        assert(st =~= mid_state((Draft { tags: w.tags, ..d }), st.out));
    } else {
        let tag = w.tags[0];
        lemma_escape_no_lt(tag);
        crate::entities::lemma_decode_text_of_escape(tag);
        lemma_trim_of_trimmed(tag);
        let esc = spec_escape(tag);
        if tag.len() > 0 {
            assert(tags_tokens(w) =~= seq![
                Tok::Text(nl8()),
                Tok::Open(nm_tags()),
                Tok::Text(esc),
                Tok::Close(nm_tags()),
            ]);
            lemma_build4(
                st,
                Tok::Text(nl8()),
                Tok::Open(nm_tags()),
                Tok::Text(esc),
                Tok::Close(nm_tags()),
            );
            let st1 = spec_build_step(st, Tok::Text(nl8()));
            let st2 = spec_build_step(st1, Tok::Open(nm_tags()));
            let st3 = spec_build_step(st2, Tok::Text(esc));
            assert(st3.buf =~= tag);
            let st4 = spec_build_step(st3, Tok::Close(nm_tags()));
            assert(seq![spec_trim(st3.buf)] =~= w.tags);
            assert(st4 =~= mid_state((Draft { tags: w.tags, ..d }), st.out));
        } else {
            assert(esc.len() == 0);
            assert(tags_tokens(w) =~= seq![
                Tok::Text(nl8()),
                Tok::Open(nm_tags()),
                Tok::Close(nm_tags()),
            ]);
            lemma_build3(st, Tok::Text(nl8()), Tok::Open(nm_tags()), Tok::Close(nm_tags()));
            let st1 = spec_build_step(st, Tok::Text(nl8()));
            let st2 = spec_build_step(st1, Tok::Open(nm_tags()));
            let st3 = spec_build_step(st2, Tok::Close(nm_tags()));
            assert(spec_trim(Seq::<char>::empty()) =~= tag);
            assert(seq![spec_trim(st2.buf)] =~= w.tags);
            assert(st3 =~= mid_state((Draft { tags: w.tags, ..d }), st.out));
        }
    }
}

/// Folding the progress element writes the parsed stage back.
proof fn lemma_build_progress(st: BuildState, d: Draft, w: crate::word::WordView)
    requires
        st.cur == Some(d),
        st.cur_ex is None,
    ensures
        spec_build_from(
            st,
            elem_tokens(nl8(), nm_progress(), crate::codec::spec_u8_digits(w.progress)),
        ) == mid_state((Draft { progress: w.progress, ..d }), st.out),
{
    lemma_name_views();
    lemma_names_distinct();
    lemma_u8_digits_are_digits(w.progress);
    let digits = crate::codec::spec_u8_digits(w.progress);
    lemma_decode_text_id_no_amp(digits);
    crate::codec::lemma_u8_digits_roundtrip(w.progress);
    assert(is_trimmed(digits));
    lemma_trim_of_trimmed(digits);
    assert(elem_tokens(nl8(), nm_progress(), digits) =~= seq![
        Tok::Text(nl8()),
        Tok::Open(nm_progress()),
        Tok::Text(digits),
        Tok::Close(nm_progress()),
    ]);
    lemma_build4(
        st,
        Tok::Text(nl8()),
        Tok::Open(nm_progress()),
        Tok::Text(digits),
        Tok::Close(nm_progress()),
    );
    let st1 = spec_build_step(st, Tok::Text(nl8()));
    let st2 = spec_build_step(st1, Tok::Open(nm_progress()));
    let st3 = spec_build_step(st2, Tok::Text(digits));
    assert(st3.buf =~= digits);
    let st4 = spec_build_step(st3, Tok::Close(nm_progress()));
    assert(crate::codec::parse_or_one(spec_trim(st3.buf)) == w.progress);
    assert(st4 =~= mid_state((Draft { progress: w.progress, ..d }), st.out));
}

/// Folding the optional note element.
proof fn lemma_build_note(st: BuildState, d: Draft, w: crate::word::WordView)
    requires
        st.cur == Some(d),
        st.cur_ex is None,
        st.buf == Seq::<char>::empty(),
        spec_clean(w.note) == w.note,
        d.note == Seq::<char>::empty(),
    ensures
        spec_build_from(st, note_tokens(w)) == mid_state((Draft { note: w.note, ..d }), st.out),
{
    if w.note.len() == 0 {
        assert(note_tokens(w) =~= Seq::<Tok>::empty());
        assert(st =~= mid_state((Draft { note: w.note, ..d }), st.out));
    } else {
        lemma_build_cdata_field(st, d, nm_note(), w.note, Draft { note: w.note, ..d });
    }
}

/// Folding one example block appends the example.
#[verifier::rlimit(100)]
proof fn lemma_build_example(st: BuildState, d: Draft, e: crate::word::ExampleView)
    requires
        st.cur == Some(d),
        st.cur_ex is None,
        wf_example(e),
    ensures
        spec_build_from(st, exam_tokens(e)) == mid_state(
            (Draft { examples: d.examples.push(e), ..d }),
            st.out,
        ),
{
    lemma_name_views();
    lemma_names_distinct();
    lemma_escape_no_lt(e.source);
    crate::entities::lemma_decode_text_of_escape(e.source);
    lemma_trim_of_trimmed(e.source);
    let esc = spec_escape(e.source);
    let g1 = seq![Tok::Text(nl12()), Tok::Open(nm_example())];
    let g2 = elem_tokens(nl16(), nm_source(), esc);
    let g3 = cdata_elem_tokens(nl16(), nm_trans(), e.trans);
    let g4 = seq![Tok::Text(nl12()), Tok::Close(nm_example())];
    lemma_build_append(st, g1, g2);
    lemma_build_append(st, g1 + g2, g3);
    lemma_build_append(st, g1 + g2 + g3, g4);
    assert(exam_tokens(e) == g1 + g2 + g3 + g4);
    lemma_build2(st, Tok::Text(nl12()), Tok::Open(nm_example()));
    let sa = spec_build_from(st, g1);
    assert(sa.cur == Some(d) && sa.cur_ex == Some(
        crate::word::ExampleView { source: Seq::empty(), trans: Seq::empty() },
    ) && sa.buf =~= Seq::<char>::empty() && sa.out == st.out);
    // The source element, with or without text.
    let sb = spec_build_from(sa, g2);
    let ex1 = crate::word::ExampleView { source: e.source, trans: Seq::empty() };
    assert(sb.cur == Some(d) && sb.cur_ex == Some(ex1) && sb.buf =~= Seq::<char>::empty()
        && sb.out == st.out) by {
        if e.source.len() > 0 {
            assert(g2 =~= seq![
                Tok::Text(nl16()),
                Tok::Open(nm_source()),
                Tok::Text(esc),
                Tok::Close(nm_source()),
            ]);
            lemma_build4(
                sa,
                Tok::Text(nl16()),
                Tok::Open(nm_source()),
                Tok::Text(esc),
                Tok::Close(nm_source()),
            );
            let t1 = spec_build_step(sa, Tok::Text(nl16()));
            let t2 = spec_build_step(t1, Tok::Open(nm_source()));
            let t3 = spec_build_step(t2, Tok::Text(esc));
            assert(t3.buf =~= e.source);
            let t4 = spec_build_step(t3, Tok::Close(nm_source()));
            assert(t4.cur_ex == Some(ex1));
        } else {
            assert(esc.len() == 0);
            assert(g2 =~= seq![Tok::Text(nl16()), Tok::Open(nm_source()), Tok::Close(nm_source())]);
            lemma_build3(sa, Tok::Text(nl16()), Tok::Open(nm_source()), Tok::Close(nm_source()));
            let t1 = spec_build_step(sa, Tok::Text(nl16()));
            let t2 = spec_build_step(t1, Tok::Open(nm_source()));
            let t3 = spec_build_step(t2, Tok::Close(nm_source()));
            assert(spec_trim(Seq::<char>::empty()) =~= e.source);
            assert(t3.cur_ex == Some(ex1));
        }
    }
    // The example's translation.
    lemma_build4(
        sb,
        Tok::Text(nl16()),
        Tok::Open(nm_trans()),
        Tok::CData(e.trans),
        Tok::Close(nm_trans()),
    );
    let u1 = spec_build_step(sb, Tok::Text(nl16()));
    let u2 = spec_build_step(u1, Tok::Open(nm_trans()));
    let u3 = spec_build_step(u2, Tok::CData(e.trans));
    assert(u3.buf =~= e.trans);
    let u4 = spec_build_step(u3, Tok::Close(nm_trans()));
    let ex2 = crate::word::ExampleView { source: e.source, trans: e.trans };
    assert(ex2 =~= e);
    assert(u4.cur == Some(d) && u4.cur_ex == Some(e) && u4.out == st.out);
    let sc = spec_build_from(sb, g3);
    assert(sc == u4);
    // Closing the example appends it.
    lemma_build2(sc, Tok::Text(nl12()), Tok::Close(nm_example()));
    let v1 = spec_build_step(sc, Tok::Text(nl12()));
    let v2 = spec_build_step(v1, Tok::Close(nm_example()));
    assert(v2 =~= mid_state((Draft { examples: d.examples.push(e), ..d }), st.out));
}

/// Folding a list of example blocks appends them all.
proof fn lemma_build_exams(st: BuildState, d: Draft, es: Seq<crate::word::ExampleView>)
    requires
        st == mid_state(d, st.out),
        forall|k: int| 0 <= k < es.len() ==> wf_example(#[trigger] es[k]),
    ensures
        spec_build_from(st, exams_tokens(es)) == mid_state(
            (Draft { examples: d.examples + es, ..d }),
            st.out,
        ),
    decreases es.len(),
{
    if es.len() == 0 {
        assert(exams_tokens(es) =~= Seq::<Tok>::empty());
        assert(d.examples + es =~= d.examples);
        assert(st =~= mid_state((Draft { examples: d.examples + es, ..d }), st.out));
    } else {
        lemma_exams_cons(es);
        lemma_build_append(st, exam_tokens(es[0]), exams_tokens(es.drop_first()));
        lemma_build_example(st, d, es[0]);
        let d1 = Draft { examples: d.examples.push(es[0]), ..d };
        assert(forall|k: int|
            0 <= k < es.drop_first().len() ==> wf_example(#[trigger] es.drop_first()[k]));
        lemma_build_exams(mid_state(d1, st.out), d1, es.drop_first());
        assert(d1.examples + es.drop_first() =~= d.examples + es);
        assert((Draft { examples: d1.examples + es.drop_first(), ..d1 }) =~= (Draft {
            examples: d.examples + es,
            ..d
        }));
    }
}

/// Folding the optional examples field.
proof fn lemma_build_examples(st: BuildState, d: Draft, w: crate::word::WordView)
    requires
        st == mid_state(d, st.out),
        d.examples == Seq::<crate::word::ExampleView>::empty(),
        forall|k: int| 0 <= k < w.examples.len() ==> wf_example(#[trigger] w.examples[k]),
    ensures
        spec_build_from(st, examples_tokens(w)) == mid_state(
            (Draft { examples: w.examples, ..d }),
            st.out,
        ),
{
    lemma_name_views();
    lemma_names_distinct();
    if w.examples.len() == 0 {
        assert(examples_tokens(w) =~= Seq::<Tok>::empty());
        assert(st =~= mid_state((Draft { examples: w.examples, ..d }), st.out));
    } else {
        let g1 = seq![Tok::Text(nl8()), Tok::Open(nm_examples())];
        let g2 = exams_tokens(w.examples);
        let g3 = seq![Tok::Text(nl8()), Tok::Close(nm_examples())];
        assert(examples_tokens(w) == g1 + g2 + g3);
        lemma_build_append(st, g1, g2);
        lemma_build_append(st, g1 + g2, g3);
        lemma_build2(st, Tok::Text(nl8()), Tok::Open(nm_examples()));
        let sa = spec_build_from(st, g1);
        assert(sa =~= mid_state(d, st.out));
        lemma_build_exams(sa, d, w.examples);
        let d1 = Draft { examples: d.examples + w.examples, ..d };
        let sb = spec_build_from(sa, g2);
        assert(sb == mid_state(d1, st.out));
        lemma_build2(sb, Tok::Text(nl8()), Tok::Close(nm_examples()));
        let v1 = spec_build_step(sb, Tok::Text(nl8()));
        let v2 = spec_build_step(v1, Tok::Close(nm_examples()));
        assert(d.examples + w.examples =~= w.examples);
        assert(v2 =~= mid_state((Draft { examples: w.examples, ..d }), st.out));
    }
}

/// A state between records: nothing under construction.
pub open spec fn gap_state(out: Seq<Draft>) -> BuildState {
    BuildState { cur: None, cur_ex: None, buf: Seq::empty(), out: out }
}

/// Folding one record block appends its draft.
#[verifier::rlimit(100)]
proof fn lemma_build_item(st: BuildState, w: crate::word::WordView)
    requires
        st.cur is None,
        st.cur_ex is None,
        wf_word_content(w),
    ensures
        spec_build_from(st, item_tokens(w)) == gap_state(st.out.push(draft_of(w))),
{
    lemma_name_views();
    lemma_names_distinct();
    let g1 = seq![Tok::Text(nl4()), Tok::Open(nm_item())];
    let g2 = elem_tokens(nl8(), nm_word(), spec_escape(w.word));
    let g3 = cdata_elem_tokens(nl8(), nm_trans(), w.trans);
    let g4 = cdata_elem_tokens(nl8(), nm_phonetic(), w.phonetic);
    let g5 = tags_tokens(w);
    let g6 = elem_tokens(nl8(), nm_progress(), crate::codec::spec_u8_digits(w.progress));
    let g7 = note_tokens(w);
    let g8 = examples_tokens(w);
    let g9 = seq![Tok::Text(nl4()), Tok::Close(nm_item())];
    assert(item_tokens(w) == g1 + g2 + g3 + g4 + g5 + g6 + g7 + g8 + g9);
    lemma_build_append(st, g1, g2);
    lemma_build_append(st, g1 + g2, g3);
    lemma_build_append(st, g1 + g2 + g3, g4);
    lemma_build_append(st, g1 + g2 + g3 + g4, g5);
    lemma_build_append(st, g1 + g2 + g3 + g4 + g5, g6);
    lemma_build_append(st, g1 + g2 + g3 + g4 + g5 + g6, g7);
    lemma_build_append(st, g1 + g2 + g3 + g4 + g5 + g6 + g7, g8);
    lemma_build_append(st, g1 + g2 + g3 + g4 + g5 + g6 + g7 + g8, g9);
    lemma_build2(st, Tok::Text(nl4()), Tok::Open(nm_item()));
    let s1 = spec_build_from(st, g1);
    assert(s1 =~= mid_state(crate::codec::empty_draft(), st.out));
    let d0 = crate::codec::empty_draft();
    lemma_build_word(s1, d0, w);
    let d1 = Draft { word: w.word, ..d0 };
    let s2 = spec_build_from(s1, g2);
    assert(s2 == mid_state(d1, st.out));
    lemma_build_cdata_field(s2, d1, nm_trans(), w.trans, Draft { trans: w.trans, ..d1 });
    let d2 = Draft { trans: w.trans, ..d1 };
    let s3 = spec_build_from(s2, g3);
    assert(s3 == mid_state(d2, st.out));
    lemma_build_cdata_field(s3, d2, nm_phonetic(), w.phonetic, Draft { phonetic: w.phonetic, ..d2 });
    let d3 = Draft { phonetic: w.phonetic, ..d2 };
    let s4 = spec_build_from(s3, g4);
    assert(s4 == mid_state(d3, st.out));
    lemma_build_tags(s4, d3, w);
    let d4 = Draft { tags: w.tags, ..d3 };
    let s5 = spec_build_from(s4, g5);
    assert(s5 == mid_state(d4, st.out));
    lemma_build_progress(s5, d4, w);
    let d5 = Draft { progress: w.progress, ..d4 };
    let s6 = spec_build_from(s5, g6);
    assert(s6 == mid_state(d5, st.out));
    lemma_build_note(s6, d5, w);
    let d6 = Draft { note: w.note, ..d5 };
    let s7 = spec_build_from(s6, g7);
    assert(s7 == mid_state(d6, st.out));
    lemma_build_examples(s7, d6, w);
    let d7 = Draft { examples: w.examples, ..d6 };
    let s8 = spec_build_from(s7, g8);
    assert(s8 == mid_state(d7, st.out));
    lemma_build2(s8, Tok::Text(nl4()), Tok::Close(nm_item()));
    let v1 = spec_build_step(s8, Tok::Text(nl4()));
    let v2 = spec_build_step(v1, Tok::Close(nm_item()));
    assert(d7 =~= draft_of(w));
    assert(v2 =~= gap_state(st.out.push(draft_of(w))));
}

/// Folding all record blocks appends all drafts.
#[verifier::rlimit(100)]
proof fn lemma_build_items(st: BuildState, ws: Seq<crate::word::WordView>)
    requires
        st.cur is None,
        st.cur_ex is None,
        st.buf == Seq::<char>::empty(),
        forall|k: int| 0 <= k < ws.len() ==> wf_word_content(#[trigger] ws[k]),
    ensures
        spec_build_from(st, items_tokens(ws)) == gap_state(st.out + drafts_of(ws)),
    decreases ws.len(),
{
    if ws.len() == 0 {
        assert(items_tokens(ws) =~= Seq::<Tok>::empty());
        assert(st.out + drafts_of(ws) =~= st.out);
        assert(st =~= gap_state(st.out + drafts_of(ws)));
    } else {
        lemma_items_cons(ws);
        lemma_build_append(st, item_tokens(ws[0]), items_tokens(ws.drop_first()));
        lemma_build_item(st, ws[0]);
        assert(forall|k: int|
            0 <= k < ws.drop_first().len() ==> wf_word_content(#[trigger] ws.drop_first()[k]));
        lemma_build_items(gap_state(st.out.push(draft_of(ws[0]))), ws.drop_first());
        assert(st.out.push(draft_of(ws[0])) + drafts_of(ws.drop_first()) =~= st.out + drafts_of(
            ws,
        ));
    }
}

/// The round trip: parsing a serialized snapshot yields exactly the records'
/// content fields, one draft per record, in order.  Identifiers and
/// timestamps are minted fresh on every parse and are not part of the claim.
#[verifier::rlimit(100)]
pub proof fn lemma_parse_of_serialize(ws: Seq<crate::word::WordView>)
    requires
        forall|k: int| 0 <= k < ws.len() ==> wf_word_content(#[trigger] ws[k]),
    ensures
        crate::codec::spec_parse(crate::codec::spec_serialize(ws)) == Some(drafts_of(ws)),
{
    lemma_name_views();
    lemma_names_distinct();
    lemma_serialize_tokenizes(ws);
    let toks = doc_tokens(ws);
    let g1 = seq![Tok::Text(nl1()), Tok::Open(nm_wordbook())];
    let g2 = items_tokens(ws);
    let g3 = seq![Tok::Text(nl1()), Tok::Close(nm_wordbook()), Tok::Text(nl1())];
    assert(toks == g1 + g2 + g3);
    let st0 = crate::codec::init_state();
    lemma_build_append(st0, g1, g2);
    lemma_build_append(st0, g1 + g2, g3);
    lemma_build2(st0, Tok::Text(nl1()), Tok::Open(nm_wordbook()));
    let s1 = spec_build_from(st0, g1);
    assert(s1 =~= gap_state(Seq::<Draft>::empty()));
    lemma_build_items(s1, ws);
    let s2 = spec_build_from(s1, g2);
    assert(s2 == gap_state(Seq::<Draft>::empty() + drafts_of(ws)));
    lemma_build3(
        s2,
        Tok::Text(nl1()),
        Tok::Close(nm_wordbook()),
        Tok::Text(nl1()),
    );
    let v1 = spec_build_step(s2, Tok::Text(nl1()));
    let v2 = spec_build_step(v1, Tok::Close(nm_wordbook()));
    let v3 = spec_build_step(v2, Tok::Text(nl1()));
    assert(v3.out == Seq::<Draft>::empty() + drafts_of(ws));
    assert(Seq::<Draft>::empty() + drafts_of(ws) =~= drafts_of(ws));
    assert(spec_build_from(st0, toks).out == drafts_of(ws));
}

/// Escaped text never holds the character that opens a tag.
proof fn lemma_escape_no_lt(s: Seq<char>)
    ensures
        forall|k: int| 0 <= k < spec_escape(s).len() ==> #[trigger] spec_escape(s)[k] != '<',
        s.len() > 0 ==> spec_escape(s).len() > 0,
    decreases s.len(),
{
    if s.len() > 0 {
        lemma_escape_no_lt(s.skip(1));
        let x = spec_escape(s);
        let xr = spec_escape(s.skip(1));
        if s[0] == '&' {
            assert(x =~= crate::entities::e_amp() + xr);
        } else if s[0] == '<' {
            assert(x =~= crate::entities::e_lt() + xr);
        } else if s[0] == '>' {
            assert(x =~= crate::entities::e_gt() + xr);
        } else if s[0] == '"' {
            assert(x =~= crate::entities::e_quot() + xr);
        } else if s[0] == '\'' {
            assert(x =~= crate::entities::e_apos() + xr);
        } else {
            assert(x =~= seq![s[0]] + xr);
        }
    }
}

} // verus!
