//! The scheduler: priority scoring, recommendation lists, and navigation.
//!
//! Scores follow a spaced-repetition heuristic: low mastery, overdue review,
//! few reviews, long neglect and medium difficulty all raise a record's
//! priority.  The weights of the original heuristic carry one decimal place,
//! so every score here is held in hundredths, which keeps the arithmetic
//! exact.

use vstd::prelude::*;

use crate::chars::str_eq;
use crate::settings::LearningConfig;
use crate::word::spec_is_due;
use crate::word::word_views;
use crate::word::Word;
use crate::word::WordView;
use vstd::seq_lib::to_multiset_insert;
use vstd::seq_lib::to_multiset_remove;

verus! {

// Weights of the scoring heuristic, in tenths (0.4, 50, 0.2, 0.1, 50).
pub const MASTERY_WEIGHT_TENTHS: i64 = 4;

pub const DUE_BONUS_TENTHS: i64 = 500;

pub const REVIEW_COUNT_WEIGHT_TENTHS: i64 = 2;

pub const RECENCY_WEIGHT_PER_HOUR_TENTHS: i64 = 1;

pub const NEVER_REVIEWED_BONUS_TENTHS: i64 = 500;

/// The capped number of hours in the recency term: one week.
pub const RECENCY_CAP_HOURS: i64 = 168;

/// Whole hours between two moments, rounded toward zero as a calendar
/// difference is.
pub open spec fn spec_hours_between(now: i64, last: i64) -> int {
    if now >= last {
        (now - last) / 3600
    } else {
        -((last - now) / 3600)
    }
}

/// The difficulty factor of the heuristic, in tenths: easy words are damped
/// to 0.8, medium kept at 1.0, hard damped to 0.9.
pub open spec fn difficulty_factor_tenths(d: u8) -> int {
    if 1 <= d <= 3 {
        8
    } else if 4 <= d <= 6 {
        10
    } else if 7 <= d <= 10 {
        9
    } else {
        10
    }
}

/// The review count capped at ten: beyond that, more reviews earn nothing.
pub open spec fn capped_reviews(rc: u32) -> int {
    if rc <= 10 {
        rc as int
    } else {
        10
    }
}

/// The priority score of a record at a given moment, in hundredths.
pub open spec fn spec_priority_score(w: WordView, now: i64) -> int {
    let base = MASTERY_WEIGHT_TENTHS * (100 - w.mastery_level) + (if spec_is_due(w, now) {
        DUE_BONUS_TENTHS as int
    } else {
        0
    }) + REVIEW_COUNT_WEIGHT_TENTHS * (10 - capped_reviews(w.review_count)) + (
    match w.last_review {
        None => NEVER_REVIEWED_BONUS_TENTHS as int,
        Some(last) => {
            let h = spec_hours_between(now, last);
            RECENCY_WEIGHT_PER_HOUR_TENTHS * (if h <= RECENCY_CAP_HOURS {
                h
            } else {
                RECENCY_CAP_HOURS as int
            })
        },
    });
    base * difficulty_factor_tenths(w.difficulty)
}

/// The priority score, computed exactly.
pub fn calculate_word_priority_score(w: &Word, now: i64) -> (s: i64)
    ensures
        s == spec_priority_score(w@, now),
{
    let mut base: i128 = 4 * (100 - w.mastery_level as i128);
    if w.is_due_for_review(now) {
        base = base + 500;
    }
    let rc: i128 = if w.review_count <= 10 {
        w.review_count as i128
    } else {
        10
    };
    base = base + 2 * (10 - rc);
    match w.last_review {
        None => {
            base = base + 500;
        },
        Some(last) => {
            let h: i128;
            if now >= last {
                let d: u128 = (now as i128 - last as i128) as u128;
                let q = d / 3600;
                proof {
                    vstd::arithmetic::div_mod::lemma_fundamental_div_mod(d as int, 3600);
                    vstd::arithmetic::div_mod::lemma_mod_bound(d as int, 3600);
                    assert(q <= 5200000000000000);
                }
                h = q as i128;
            } else {
                let d: u128 = (last as i128 - now as i128) as u128;
                let q = d / 3600;
                proof {
                    vstd::arithmetic::div_mod::lemma_fundamental_div_mod(d as int, 3600);
                    vstd::arithmetic::div_mod::lemma_mod_bound(d as int, 3600);
                    assert(q <= 5200000000000000);
                }
                h = -(q as i128);
            }
            proof {
                assert(h == spec_hours_between(now, last));
                assert(-5200000000000000i128 <= h <= 5200000000000000i128);
            }
            base = base + (if h <= 168 {
                h
            } else {
                168
            });
        },
    }
    let f: i128 = if 1 <= w.difficulty && w.difficulty <= 3 {
        8
    } else if 4 <= w.difficulty && w.difficulty <= 6 {
        10
    } else if 7 <= w.difficulty && w.difficulty <= 10 {
        9
    } else {
        10
    };
    proof {
        assert(-6000000000000000i128 <= base <= 6000000000000000i128);
    }
    let s = base * f;
    proof {
        assert(i64::MIN <= base * f <= i64::MAX) by (nonlinear_arith)
            requires
                -6000000000000000i128 <= base <= 6000000000000000i128,
                8 <= f <= 10,
        ;
    }
    s as i64
}

/// Descending order by priority score.
pub open spec fn scores_sorted(rv: Seq<WordView>, now: i64) -> bool {
    forall|a: int, b: int|
        0 <= a < b < rv.len() ==> spec_priority_score(rv[a], now) >= spec_priority_score(
            rv[b],
            now,
        )
}

/// Sorts the records by priority score, highest first (stable insertion
/// sort).
fn sort_words_by_score(v: &mut Vec<Word>, now: i64)
    ensures
        word_views(final(v)@).to_multiset() == word_views(old(v)@).to_multiset(),
        word_views(final(v)@).len() == word_views(old(v)@).len(),
        scores_sorted(word_views(final(v)@), now),
{
    let ghost orig = word_views(old(v)@);
    let mut i: usize = 1;
    if v.len() < 2 {
        return ;
    }
    while i < v.len()
        invariant
            1 <= i <= v@.len(),
            word_views(v@).to_multiset() == orig.to_multiset(),
            word_views(v@).len() == orig.len(),
            forall|a: int, b: int|
                0 <= a < b < i ==> spec_priority_score(word_views(v@)[a], now)
                    >= spec_priority_score(word_views(v@)[b], now),
        decreases v@.len() - i,
    {
        let ghost before = v@;
        let w = v.remove(i);
        proof {
            crate::word::lemma_word_views_remove(before, i as int);
            to_multiset_remove(word_views(before), i as int);
        }
        let sw = calculate_word_priority_score(&w, now);
        let mut j: usize = 0;
        let mut stop = false;
        while j < i && !stop
            invariant
                0 <= j <= i,
                i < before.len(),
                v@ == before.remove(i as int),
                v@.len() == before.len() - 1,
                sw == spec_priority_score(w@, now),
                forall|k: int|
                    0 <= k < j ==> spec_priority_score(word_views(v@)[k], now)
                        >= spec_priority_score(w@, now),
                stop ==> j < i && spec_priority_score(word_views(v@)[j as int], now)
                    < spec_priority_score(w@, now),
            decreases i - j + (if stop {
                0int
            } else {
                1int
            }),
        {
            let sj = calculate_word_priority_score(&v[j], now);
            if sj < sw {
                stop = true;
            } else {
                j = j + 1;
            }
        }
        let ghost mid = v@;
        v.insert(j, w);
        proof {
            crate::word::lemma_word_views_insert(mid, j as int, w);
            to_multiset_insert(word_views(mid), j as int, w@);
            // The multiset is restored: the removed model is reinserted.
            broadcast use vstd::multiset::group_multiset_axioms;

            let wb = word_views(before);
            wb.to_multiset_ensures();
            assert(wb[i as int] == w@);
            assert(wb.contains(w@));
            assert(wb.to_multiset().count(w@) > 0);
            assert(wb.to_multiset().remove(w@).insert(w@) =~= wb.to_multiset());
            assert(word_views(v@).to_multiset() =~= orig.to_multiset());
            // The sorted prefix grew by one.
            let nv = word_views(v@);
            let ov = word_views(mid);
            assert forall|a: int, b: int|
                0 <= a < b < i + 1 implies spec_priority_score(nv[a], now) >= spec_priority_score(
                nv[b],
                now,
            ) by {
                assert(forall|k: int| 0 <= k < j ==> nv[k] == ov[k]);
                assert(nv[j as int] == w@);
                assert(forall|k: int| j < k <= i ==> nv[k] == ov[k - 1]);
                // Elements before the insertion point score at least `sw`;
                // elements after it scored below `sw`, or sit below one that
                // did.
                assert(forall|k: int|
                    j <= k < i ==> spec_priority_score(#[trigger] ov[k], now)
                        < spec_priority_score(w@, now)) by {
                    if stop {
                        assert(forall|k: int|
                            j < k < i ==> spec_priority_score(#[trigger] ov[k], now)
                                <= spec_priority_score(ov[j as int], now)) by {
                            assert(forall|k: int|
                                0 <= k < before.len() - 1 ==> #[trigger] ov[k] == word_views(
                                    before,
                                ).remove(i as int)[k]);
                        }
                    }
                }
            }
        }
        i = i + 1;
    }
}

/// The review mode the scheduler runs in.
#[derive(Clone, Copy, Debug, PartialEq, Eq, Structural)]
pub enum ReviewMode {
    Smart,
    Sequential,
    Random,
}

/// The mode a configuration string names; anything unknown means smart.
pub open spec fn spec_review_mode(s: Seq<char>) -> ReviewMode {
    if s == "sequential"@ {
        ReviewMode::Sequential
    } else if s == "random"@ {
        ReviewMode::Random
    } else {
        ReviewMode::Smart
    }
}

/// Reads the review mode out of its configuration string.
pub fn review_mode_of(s: &str) -> (r: ReviewMode)
    ensures
        r == spec_review_mode(s@),
{
    if str_eq(s, "sequential") {
        ReviewMode::Sequential
    } else if str_eq(s, "random") {
        ReviewMode::Random
    } else {
        ReviewMode::Smart
    }
}

/// The difficulty band the user prefers.
#[derive(Clone, Copy, Debug, PartialEq, Eq, Structural)]
pub enum DifficultyPreference {
    Easy,
    Medium,
    Hard,
    Mixed,
}

/// The preference a configuration string names; anything unknown means mixed.
pub open spec fn spec_difficulty_preference(s: Seq<char>) -> DifficultyPreference {
    if s == "easy"@ {
        DifficultyPreference::Easy
    } else if s == "medium"@ {
        DifficultyPreference::Medium
    } else if s == "hard"@ {
        DifficultyPreference::Hard
    } else {
        DifficultyPreference::Mixed
    }
}

/// Reads the difficulty preference out of its configuration string.
pub fn difficulty_preference_of(s: &str) -> (r: DifficultyPreference)
    ensures
        r == spec_difficulty_preference(s@),
{
    if str_eq(s, "easy") {
        DifficultyPreference::Easy
    } else if str_eq(s, "medium") {
        DifficultyPreference::Medium
    } else if str_eq(s, "hard") {
        DifficultyPreference::Hard
    } else {
        DifficultyPreference::Mixed
    }
}

/// Whether a difficulty value falls in the preferred band.
pub open spec fn pref_keeps(p: DifficultyPreference, d: u8) -> bool {
    match p {
        DifficultyPreference::Easy => d <= 3,
        DifficultyPreference::Medium => 3 <= d <= 7,
        DifficultyPreference::Hard => d >= 7,
        DifficultyPreference::Mixed => true,
    }
}

/// The models of the records in the preferred difficulty band, in order.
pub open spec fn pref_filtered(s: Seq<Word>, p: DifficultyPreference) -> Seq<WordView>
    decreases s.len(),
{
    if s.len() == 0 {
        Seq::empty()
    } else {
        let rest = pref_filtered(s.drop_last(), p);
        if pref_keeps(p, s.last()@.difficulty) {
            rest.push(s.last()@)
        } else {
            rest
        }
    }
}

/// Keeps the records in the preferred difficulty band, in order.
fn filter_by_difficulty(words: &Vec<Word>, p: DifficultyPreference) -> (r: Vec<Word>)
    ensures
        word_views(r@) == pref_filtered(words@, p),
{
    let mut r: Vec<Word> = Vec::new();
    let mut i: usize = 0;
    proof {
        assert(words@.take(0) =~= Seq::<Word>::empty());
        assert(word_views(r@) =~= pref_filtered(words@.take(0), p));
    }
    while i < words.len()
        invariant
            0 <= i <= words@.len(),
            word_views(r@) == pref_filtered(words@.take(i as int), p),
        decreases words@.len() - i,
    {
        let d = words[i].difficulty;
        let keep = match p {
            DifficultyPreference::Easy => d <= 3,
            DifficultyPreference::Medium => 3 <= d && d <= 7,
            DifficultyPreference::Hard => d >= 7,
            DifficultyPreference::Mixed => true,
        };
        let ghost prev = r@;
        if keep {
            r.push(words[i].clone());
        }
        proof {
            let t1 = words@.take(i + 1);
            assert(t1.len() == i + 1);
            assert(t1.drop_last() =~= words@.take(i as int));
            assert(t1.last() == words@[i as int]);
            if keep {
                assert(word_views(r@) =~= word_views(prev).push(words@[i as int]@));
            }
        }
        i = i + 1;
    }
    proof {
        assert(words@.take(i as int) =~= words@);
    }
    r
}

/// The recommendation list: the records in the preferred difficulty band,
/// ordered by the mode — by priority score in smart mode, corpus order in
/// sequential mode, and a fresh shuffle in random mode.
pub fn get_recommended_words(words: &Vec<Word>, config: &LearningConfig, now: i64) -> (r: Vec<
    Word,
>)
    ensures
        ({
            let mode = spec_review_mode(config.review_mode@);
            let pref = spec_difficulty_preference(config.difficulty_preference@);
            &&& word_views(r@).to_multiset() == pref_filtered(words@, pref).to_multiset()
            &&& word_views(r@).len() == pref_filtered(words@, pref).len()
            &&& (mode == ReviewMode::Sequential ==> word_views(r@) == pref_filtered(words@, pref))
            &&& (mode == ReviewMode::Smart ==> scores_sorted(word_views(r@), now))
        }),
{
    let mode = review_mode_of(config.review_mode.as_str());
    let pref = difficulty_preference_of(config.difficulty_preference.as_str());
    let mut filtered = filter_by_difficulty(words, pref);
    match mode {
        ReviewMode::Sequential => {},
        ReviewMode::Smart => {
            sort_words_by_score(&mut filtered, now);
        },
        ReviewMode::Random => {
            crate::external::shuffle_words(&mut filtered);
            proof {
                vstd::seq_lib::to_multiset_len(word_views(filtered@));
            }
        },
    }
    filtered
}

/// First position in the list whose record carries the identifier, or `-1`.
pub open spec fn spec_find_id(rv: Seq<WordView>, id: Seq<char>) -> int
    decreases rv.len(),
{
    if rv.len() == 0 {
        -1
    } else if rv[0].id == id {
        0
    } else {
        let r = spec_find_id(rv.drop_first(), id);
        if r < 0 {
            -1
        } else {
            1 + r
        }
    }
}

pub proof fn lemma_find_id_props(rv: Seq<WordView>, id: Seq<char>)
    ensures
        spec_find_id(rv, id) < 0 ==> forall|k: int| 0 <= k < rv.len() ==> rv[k].id != id,
        spec_find_id(rv, id) >= 0 ==> 0 <= spec_find_id(rv, id) < rv.len() && rv[spec_find_id(
            rv,
            id,
        )].id == id && forall|k: int| 0 <= k < spec_find_id(rv, id) ==> rv[k].id != id,
    decreases rv.len(),
{
    if rv.len() > 0 && rv[0].id != id {
        lemma_find_id_props(rv.drop_first(), id);
        let r = spec_find_id(rv.drop_first(), id);
        if r < 0 {
            assert forall|k: int| 0 <= k < rv.len() implies rv[k].id != id by {
                if k > 0 {
                    assert(rv.drop_first()[k - 1] == rv[k]);
                }
            }
        } else {
            assert(rv.drop_first()[r] == rv[1 + r]);
            assert forall|k: int| 0 <= k < spec_find_id(rv, id) implies rv[k].id != id by {
                if k > 0 {
                    assert(rv.drop_first()[k - 1] == rv[k]);
                }
            }
        }
    }
}

/// Position of an identifier in the list, if it is there.
fn find_id(recommended: &Vec<Word>, id: &str) -> (r: Option<usize>)
    ensures
        ({
            let rv = word_views(recommended@);
            match r {
                Some(k) => spec_find_id(rv, id@) == k,
                None => spec_find_id(rv, id@) < 0,
            }
        }),
{
    let ghost rv = word_views(recommended@);
    proof {
        lemma_find_id_props(rv, id@);
    }
    let mut i: usize = 0;
    while i < recommended.len()
        invariant
            0 <= i <= recommended@.len(),
            rv == word_views(recommended@),
            forall|k: int| 0 <= k < i ==> rv[k].id != id@,
        decreases recommended@.len() - i,
    {
        if str_eq(recommended[i].id.as_str(), id) {
            proof {
                lemma_find_id_props(rv, id@);
                let f = spec_find_id(rv, id@);
                assert(rv[i as int].id == id@);
                if f < 0 {
                    assert(rv[i as int].id != id@);
                }
                if f < i {
                    assert(rv[f].id != id@);
                }
                if f > i {
                    assert(rv[i as int].id != id@);
                }
            }
            return Some(i);
        }
        i = i + 1;
    }
    proof {
        lemma_find_id_props(rv, id@);
        let f = spec_find_id(rv, id@);
        if f >= 0 {
            assert(rv[f].id != id@);
        }
    }
    None
}

/// The record after the current one in the recommendation list, wrapping to
/// the first; the first when no current record is given or it is not listed;
/// nothing when the list is empty.
pub fn get_next_word(recommended: &Vec<Word>, current_id: Option<&str>) -> (r: Option<Word>)
    ensures
        ({
            let rv = word_views(recommended@);
            match r {
                None => rv.len() == 0,
                Some(w) => rv.len() > 0 && w@ == (match current_id {
                    None => rv[0],
                    Some(id) => {
                        let idx = spec_find_id(rv, id@);
                        if idx >= 0 {
                            rv[(idx + 1) % (rv.len() as int)]
                        } else {
                            rv[0]
                        }
                    },
                }),
            }
        }),
{
    if recommended.len() == 0 {
        return None;
    }
    match current_id {
        None => Some(recommended[0].clone()),
        Some(id) => {
            match find_id(recommended, id) {
                Some(k) => {
                    proof {
                        lemma_find_id_props(word_views(recommended@), id@);
                    }
                    let n = (k + 1) % recommended.len();
                    Some(recommended[n].clone())
                },
                None => Some(recommended[0].clone()),
            }
        },
    }
}

/// The record before the current one in the recommendation list, wrapping to
/// the last; the last when no current record is given or it is not listed;
/// nothing when the list is empty.
pub fn get_previous_word(recommended: &Vec<Word>, current_id: Option<&str>) -> (r: Option<Word>)
    ensures
        ({
            let rv = word_views(recommended@);
            match r {
                None => rv.len() == 0,
                Some(w) => rv.len() > 0 && w@ == (match current_id {
                    None => rv[rv.len() - 1],
                    Some(id) => {
                        let idx = spec_find_id(rv, id@);
                        if idx > 0 {
                            rv[idx - 1]
                        } else if idx == 0 {
                            rv[rv.len() - 1]
                        } else {
                            rv[rv.len() - 1]
                        }
                    },
                }),
            }
        }),
{
    if recommended.len() == 0 {
        return None;
    }
    match current_id {
        None => Some(recommended[recommended.len() - 1].clone()),
        Some(id) => {
            match find_id(recommended, id) {
                Some(k) => {
                    proof {
                        lemma_find_id_props(word_views(recommended@), id@);
                    }
                    if k == 0 {
                        Some(recommended[recommended.len() - 1].clone())
                    } else {
                        Some(recommended[k - 1].clone())
                    }
                },
                None => Some(recommended[recommended.len() - 1].clone()),
            }
        },
    }
}

/// The first `daily_goal` records of the recommendation list.
pub fn get_daily_words(recommended: &Vec<Word>, daily_goal: u32) -> (r: Vec<Word>)
    ensures
        ({
            let rv = word_views(recommended@);
            let n = if daily_goal as int <= rv.len() {
                daily_goal as int
            } else {
                rv.len() as int
            };
            word_views(r@) == rv.take(n)
        }),
{
    let n: usize = if (daily_goal as u64) <= (recommended.len() as u64) {
        daily_goal as usize
    } else {
        recommended.len()
    };
    let mut r: Vec<Word> = Vec::new();
    let mut i: usize = 0;
    while i < n
        invariant
            0 <= i <= n <= recommended@.len(),
            r@.len() == i,
            forall|k: int| 0 <= k < i ==> r@[k]@ == recommended@[k]@,
        decreases n - i,
    {
        r.push(recommended[i].clone());
        i = i + 1;
    }
    proof {
        assert(word_views(r@) =~= word_views(recommended@).take(n as int));
    }
    r
}

/// The models of the records due for review, in corpus order.
pub open spec fn due_views(s: Seq<Word>, now: i64) -> Seq<WordView>
    decreases s.len(),
{
    if s.len() == 0 {
        Seq::empty()
    } else {
        let rest = due_views(s.drop_last(), now);
        if spec_is_due(s.last()@, now) {
            rest.push(s.last()@)
        } else {
            rest
        }
    }
}

/// The records due for review at the given moment, in corpus order.
pub fn get_review_words(words: &Vec<Word>, now: i64) -> (r: Vec<Word>)
    ensures
        word_views(r@) == due_views(words@, now),
{
    let mut r: Vec<Word> = Vec::new();
    let mut i: usize = 0;
    proof {
        assert(words@.take(0) =~= Seq::<Word>::empty());
        assert(word_views(r@) =~= due_views(words@.take(0), now));
    }
    while i < words.len()
        invariant
            0 <= i <= words@.len(),
            word_views(r@) == due_views(words@.take(i as int), now),
        decreases words@.len() - i,
    {
        let keep = words[i].is_due_for_review(now);
        let ghost prev = r@;
        if keep {
            r.push(words[i].clone());
        }
        proof {
            let t1 = words@.take(i + 1);
            assert(t1.len() == i + 1);
            assert(t1.drop_last() =~= words@.take(i as int));
            assert(t1.last() == words@[i as int]);
            if keep {
                assert(word_views(r@) =~= word_views(prev).push(words@[i as int]@));
            }
        }
        i = i + 1;
    }
    proof {
        assert(words@.take(i as int) =~= words@);
    }
    r
}

/// Ranking favors low mastery: of two records alike in review history and
/// difficulty, both never reviewed, the one with lower mastery scores no
/// lower.
pub proof fn lemma_low_mastery_ranks_no_lower(a: WordView, b: WordView, now: i64)
    requires
        a.mastery_level <= b.mastery_level,
        a.last_review is None,
        b.last_review is None,
        a.review_count == b.review_count,
        a.difficulty == b.difficulty,
    ensures
        spec_priority_score(a, now) >= spec_priority_score(b, now),
{
    let ba = MASTERY_WEIGHT_TENTHS * (100 - a.mastery_level) + DUE_BONUS_TENTHS as int
        + REVIEW_COUNT_WEIGHT_TENTHS * (10 - capped_reviews(a.review_count))
        + NEVER_REVIEWED_BONUS_TENTHS as int;
    let bb = MASTERY_WEIGHT_TENTHS * (100 - b.mastery_level) + DUE_BONUS_TENTHS as int
        + REVIEW_COUNT_WEIGHT_TENTHS * (10 - capped_reviews(b.review_count))
        + NEVER_REVIEWED_BONUS_TENTHS as int;
    let f = difficulty_factor_tenths(a.difficulty);
    assert(spec_priority_score(a, now) == ba * f);
    assert(spec_priority_score(b, now) == bb * f);
    assert(ba >= bb);
    assert(f > 0);
    assert(ba * f >= bb * f) by (nonlinear_arith)
        requires
            ba >= bb,
            f > 0,
    ;
}

} // verus!
