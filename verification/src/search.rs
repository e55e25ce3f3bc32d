//! Case-insensitive search over the corpus, ranked with exact headword
//! matches first and the rest in headword order.

use vstd::prelude::*;

use crate::chars::chars_eq_str;
use crate::chars::lower_of;
use crate::chars::lowercase;
use crate::chars::str_to_chars;
use crate::clean::contains_chars;
use crate::entities::spec_contains;
use crate::word::word_views;
use crate::word::Word;
use crate::word::WordView;

verus! {

/// Whether a record matches a lowered query: the query occurs in the lowered
/// headword, translation, or any example's text.
pub open spec fn spec_search_matches(w: WordView, ql: Seq<char>) -> bool {
    ||| spec_contains(lower_of(w.word), ql)
    ||| spec_contains(lower_of(w.trans), ql)
    ||| exists|k: int|
        0 <= k < w.examples.len() && (spec_contains(lower_of((#[trigger] w.examples[k]).source), ql)
            || spec_contains(lower_of(w.examples[k].trans), ql))
}

/// Every matching record, in corpus order.
pub open spec fn spec_search_matched(vs: Seq<WordView>, ql: Seq<char>) -> Seq<WordView>
    decreases vs.len(),
{
    if vs.len() == 0 {
        Seq::empty()
    } else {
        let rest = spec_search_matched(vs.drop_last(), ql);
        if spec_search_matches(vs.last(), ql) {
            rest.push(vs.last())
        } else {
            rest
        }
    }
}

/// Code-point order on text.
pub open spec fn lex_leq(a: Seq<char>, b: Seq<char>) -> bool
    decreases a.len(),
{
    if a.len() == 0 {
        true
    } else if b.len() == 0 {
        false
    } else if (a[0] as u32) < (b[0] as u32) {
        true
    } else if (a[0] as u32) > (b[0] as u32) {
        false
    } else {
        lex_leq(a.drop_first(), b.drop_first())
    }
}

/// The search order: exact headword matches first, then headword order.
pub open spec fn search_le(a: WordView, b: WordView, ql: Seq<char>) -> bool {
    let ea = lower_of(a.word) == ql;
    let eb = lower_of(b.word) == ql;
    if ea != eb {
        ea
    } else {
        lex_leq(a.word, b.word)
    }
}

/// One of two texts comes first.
proof fn lemma_lex_total(a: Seq<char>, b: Seq<char>)
    ensures
        lex_leq(a, b) || lex_leq(b, a),
    decreases a.len(),
{
    if a.len() > 0 && b.len() > 0 && (a[0] as u32) == (b[0] as u32) {
        lemma_lex_total(a.drop_first(), b.drop_first());
    }
}

/// The text order is transitive.
proof fn lemma_lex_trans(a: Seq<char>, b: Seq<char>, c: Seq<char>)
    requires
        lex_leq(a, b),
        lex_leq(b, c),
    ensures
        lex_leq(a, c),
    decreases a.len(),
{
    if a.len() > 0 && b.len() > 0 && c.len() > 0 {
        if (a[0] as u32) == (b[0] as u32) && (b[0] as u32) == (c[0] as u32) {
            lemma_lex_trans(a.drop_first(), b.drop_first(), c.drop_first());
        }
    }
}

/// One of two records comes first in the search order.
proof fn lemma_search_le_total(a: WordView, b: WordView, ql: Seq<char>)
    ensures
        search_le(a, b, ql) || search_le(b, a, ql),
{
    lemma_lex_total(a.word, b.word);
}

/// The search order is transitive.
proof fn lemma_search_le_trans(a: WordView, b: WordView, c: WordView, ql: Seq<char>)
    requires
        search_le(a, b, ql),
        search_le(b, c, ql),
    ensures
        search_le(a, c, ql),
{
    let ea = lower_of(a.word) == ql;
    let eb = lower_of(b.word) == ql;
    let ec = lower_of(c.word) == ql;
    if ea == eb && eb == ec {
        lemma_lex_trans(a.word, b.word, c.word);
    }
}

/// Whether this record matches the lowered query.
fn matches_search(w: &Word, ql: &Vec<char>) -> (r: bool)
    ensures
        r == spec_search_matches(w@, ql@),
{
    let wl = lowercase(w.word.as_str());
    let wlc = str_to_chars(wl.as_str());
    if contains_chars(&wlc, ql) {
        return true;
    }
    let tl = lowercase(w.trans.as_str());
    let tlc = str_to_chars(tl.as_str());
    if contains_chars(&tlc, ql) {
        return true;
    }
    let mut k: usize = 0;
    while k < w.examples.len()
        invariant
            0 <= k <= w.examples@.len(),
            forall|m: int|
                0 <= m < k ==> !(spec_contains(lower_of((#[trigger] w@.examples[m]).source), ql@)
                    || spec_contains(lower_of(w@.examples[m].trans), ql@)),
        decreases w.examples@.len() - k,
    {
        let sl = lowercase(w.examples[k].source.as_str());
        let slc = str_to_chars(sl.as_str());
        if contains_chars(&slc, ql) {
            proof {
                assert(w@.examples[k as int] == w.examples@[k as int]@);
                assert(0 <= k < w@.examples.len() && spec_contains(
                    lower_of(w@.examples[k as int].source),
                    ql@,
                ));
            }
            return true;
        }
        let el = lowercase(w.examples[k].trans.as_str());
        let elc = str_to_chars(el.as_str());
        if contains_chars(&elc, ql) {
            proof {
                assert(w@.examples[k as int] == w.examples@[k as int]@);
                assert(spec_contains(lower_of(w@.examples[k as int].trans), ql@));
                assert(exists|m: int|
                    0 <= m < w@.examples.len() && (spec_contains(
                        lower_of((#[trigger] w@.examples[m]).source),
                        ql@,
                    ) || spec_contains(lower_of(w@.examples[m].trans), ql@))) by {
                    assert(0 <= (k as int) && (k as int) < w@.examples.len() && (spec_contains(
                        lower_of(w@.examples[k as int].source),
                        ql@,
                    ) || spec_contains(lower_of(w@.examples[k as int].trans), ql@)));
                }
            }
            return true;
        }
        proof {
            assert(w@.examples[k as int] == w.examples@[k as int]@);
        }
        k = k + 1;
    }
    proof {
        if spec_search_matches(w@, ql@) {
            let m = choose|m: int|
                0 <= m < w@.examples.len() && (spec_contains(
                    lower_of((#[trigger] w@.examples[m]).source),
                    ql@,
                ) || spec_contains(lower_of(w@.examples[m].trans), ql@));
            assert(!(spec_contains(lower_of(w@.examples[m].source), ql@) || spec_contains(
                lower_of(w@.examples[m].trans),
                ql@,
            )));
        }
    }
    false
}

/// Whether `a` comes no later than `b` in the search order.
fn search_le_exec(a: &Word, b: &Word, ql: &Vec<char>) -> (r: bool)
    ensures
        r == search_le(a@, b@, ql@),
{
    let al = lowercase(a.word.as_str());
    let ea = chars_eq_str(ql, al.as_str());
    let bl = lowercase(b.word.as_str());
    let eb = chars_eq_str(ql, bl.as_str());
    proof {
        assert(ea == (lower_of(a@.word) == ql@));
        assert(eb == (lower_of(b@.word) == ql@));
    }
    if ea != eb {
        ea
    } else {
        lex_le_exec(a.word.as_str(), b.word.as_str())
    }
}

/// Code-point comparison of two strings.
fn lex_le_exec(a: &str, b: &str) -> (r: bool)
    ensures
        r == lex_leq(a@, b@),
{
    let na = a.unicode_len();
    let nb = b.unicode_len();
    let mut i: usize = 0;
    proof {
        assert(a@.skip(0) =~= a@);
        assert(b@.skip(0) =~= b@);
    }
    while i < na && i < nb
        invariant
            0 <= i,
            i <= na,
            i <= nb,
            na == a@.len(),
            nb == b@.len(),
            forall|k: int| 0 <= k < i ==> a@[k] == b@[k],
            lex_leq(a@, b@) == lex_leq(a@.skip(i as int), b@.skip(i as int)),
        decreases na - i,
    {
        let ca = a.get_char(i);
        let cb = b.get_char(i);
        proof {
            assert(a@.skip(i as int)[0] == ca);
            assert(b@.skip(i as int)[0] == cb);
            assert(a@.skip(i as int).drop_first() =~= a@.skip(i + 1));
            assert(b@.skip(i as int).drop_first() =~= b@.skip(i + 1));
        }
        if (ca as u32) < (cb as u32) {
            proof {
                assert(lex_leq(a@.skip(i as int), b@.skip(i as int)));
            }
            return true;
        }
        if (ca as u32) > (cb as u32) {
            proof {
                assert(!lex_leq(a@.skip(i as int), b@.skip(i as int)));
            }
            return false;
        }
        proof {
            assert(ca == cb) by {
                assert(ca as u32 == cb as u32);
                vstd::utf8::char_u32_cast(ca, ca as u32);
                vstd::utf8::char_u32_cast(cb, cb as u32);
            }
        }
        i = i + 1;
    }
    proof {
        if i == na {
            assert(a@.skip(i as int).len() == 0);
            assert(lex_leq(a@.skip(i as int), b@.skip(i as int)));
        } else {
            assert(b@.skip(i as int).len() == 0);
            assert(a@.skip(i as int).len() > 0);
            assert(!lex_leq(a@.skip(i as int), b@.skip(i as int)));
        }
    }
    na <= nb
}

/// Descending search order over the whole list.
pub open spec fn search_sorted(rv: Seq<WordView>, ql: Seq<char>) -> bool {
    forall|a: int, b: int| 0 <= a < b < rv.len() ==> search_le(rv[a], rv[b], ql)
}

/// Sorts records by the search order (stable insertion sort).
fn sort_for_search(v: &mut Vec<Word>, ql: &Vec<char>)
    ensures
        word_views(final(v)@).to_multiset() == word_views(old(v)@).to_multiset(),
        word_views(final(v)@).len() == word_views(old(v)@).len(),
        search_sorted(word_views(final(v)@), ql@),
{
    let ghost orig = word_views(old(v)@);
    let mut i: usize = 1;
    if v.len() < 2 {
        return ;
    }
    while i < v.len()
        invariant
            1 <= i <= v@.len(),
            word_views(v@).to_multiset() == orig.to_multiset(),
            word_views(v@).len() == orig.len(),
            forall|a: int, b: int|
                0 <= a < b < i ==> search_le(word_views(v@)[a], word_views(v@)[b], ql@),
        decreases v@.len() - i,
    {
        let ghost before = v@;
        let w = v.remove(i);
        proof {
            crate::word::lemma_word_views_remove(before, i as int);
            vstd::seq_lib::to_multiset_remove(word_views(before), i as int);
        }
        let mut j: usize = 0;
        let mut stop = false;
        while j < i && !stop
            invariant
                0 <= j <= i,
                i < before.len(),
                v@ == before.remove(i as int),
                v@.len() == before.len() - 1,
                forall|k: int| 0 <= k < j ==> search_le(word_views(v@)[k], w@, ql@),
                stop ==> j < i && !search_le(word_views(v@)[j as int], w@, ql@),
            decreases i - j + (if stop {
                0int
            } else {
                1int
            }),
        {
            if !search_le_exec(&v[j], &w, ql) {
                stop = true;
            } else {
                j = j + 1;
            }
        }
        let ghost mid = v@;
        v.insert(j, w);
        proof {
            crate::word::lemma_word_views_insert(mid, j as int, w);
            vstd::seq_lib::to_multiset_insert(word_views(mid), j as int, w@);
            broadcast use vstd::multiset::group_multiset_axioms;

            let wb = word_views(before);
            wb.to_multiset_ensures();
            assert(wb[i as int] == w@);
            assert(wb.contains(w@));
            assert(wb.to_multiset().count(w@) > 0);
            assert(wb.to_multiset().remove(w@).insert(w@) =~= wb.to_multiset());
            assert(word_views(v@).to_multiset() =~= orig.to_multiset());
            let nv = word_views(v@);
            let ov = word_views(mid);
            assert forall|a: int, b: int|
                0 <= a < b < i + 1 implies search_le(nv[a], nv[b], ql@) by {
                assert(forall|k: int| 0 <= k < j ==> nv[k] == ov[k]);
                assert(nv[j as int] == w@);
                assert(forall|k: int| j < k <= i ==> nv[k] == ov[k - 1]);
                assert(forall|k: int|
                    0 <= k < before.len() - 1 ==> #[trigger] ov[k] == word_views(before).remove(
                        i as int,
                    )[k]);
                if stop {
                    assert forall|k: int| j <= k < i implies search_le(
                        w@,
                        #[trigger] ov[k],
                        ql@,
                    ) by {
                        lemma_search_le_total(w@, ov[j as int], ql@);
                        if k > j {
                            assert(search_le(ov[j as int], ov[k], ql@));
                            lemma_search_le_trans(w@, ov[j as int], ov[k], ql@);
                        }
                    }
                }
                let wb = word_views(before);
                assert(forall|k: int| 0 <= k < i ==> #[trigger] ov[k] == wb[k]);
                if a < j && b == j {
                } else if a == j && b > j {
                } else if a < j && b > j {
                    assert(ov[a] == wb[a]);
                    assert(ov[b - 1] == wb[b - 1]);
                    assert(search_le(wb[a], wb[b - 1], ql@));
                } else if j < a {
                    assert(ov[a - 1] == wb[a - 1]);
                    assert(ov[b - 1] == wb[b - 1]);
                    assert(search_le(wb[a - 1], wb[b - 1], ql@));
                }
            }
        }
        i = i + 1;
    }
}

/// Searches the corpus: the matching records, ordered with exact headword
/// matches first and the rest by headword, truncated to `limit`.  A match is
/// a record whose lowered headword, translation or example text holds the
/// lowered query.  The result is the first `limit` entries of some ordering
/// of all the matches; records tied in the order may trade places.
pub fn search_words(words: &Vec<Word>, query: &str, limit: u32) -> (r: Vec<Word>)
    ensures
        ({
            let ql = lower_of(query@);
            let matched = spec_search_matched(word_views(words@), ql);
            let n = if (limit as int) <= matched.len() {
                limit as int
            } else {
                matched.len() as int
            };
            &&& word_views(r@).len() == n
            &&& search_sorted(word_views(r@), ql)
            &&& exists|ranked: Seq<WordView>|
                #![auto]
                ranked.to_multiset() == matched.to_multiset() && search_sorted(ranked, ql)
                    && word_views(r@) == ranked.take(n)
        }),
{
    let qls = lowercase(query);
    let ql = str_to_chars(qls.as_str());
    let ghost rv = word_views(words@);
    let mut out: Vec<Word> = Vec::new();
    let mut i: usize = 0;
    proof {
        assert(words@.take(0) =~= Seq::<Word>::empty());
        assert(word_views(out@) =~= spec_search_matched(word_views(words@.take(0)), ql@));
    }
    while i < words.len()
        invariant
            0 <= i <= words@.len(),
            ql@ == lower_of(query@),
            word_views(out@) == spec_search_matched(word_views(words@.take(i as int)), ql@),
        decreases words@.len() - i,
    {
        let keep = matches_search(&words[i], &ql);
        let ghost prev = out@;
        if keep {
            out.push(words[i].clone());
        }
        proof {
            let t1 = word_views(words@.take(i + 1));
            assert(t1.len() == i + 1);
            assert(t1.drop_last() =~= word_views(words@.take(i as int)));
            assert(t1.last() == words@[i as int]@);
            if keep {
                assert(word_views(out@) =~= word_views(prev).push(words@[i as int]@));
            }
        }
        i = i + 1;
    }
    proof {
        assert(words@.take(i as int) =~= words@);
    }
    sort_for_search(&mut out, &ql);
    let ghost ranked = word_views(out@);
    let n: usize = if (limit as u64) <= (out.len() as u64) {
        limit as usize
    } else {
        out.len()
    };
    out.truncate(n);
    proof {
        assert(word_views(out@) =~= ranked.take(n as int));
        assert(ranked.take(n as int).to_multiset() == ranked.take(n as int).to_multiset());
    }
    out
}

} // verus!
