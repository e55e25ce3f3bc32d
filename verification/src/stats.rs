//! Learning statistics: pure aggregates over the corpus, plus the daily
//! progress and streak counts over the records' local review days.
//!
//! Rates (correct rate, average mastery) are quotients of the integer
//! aggregates here; computing them in floating point is the shell's work.

use vstd::prelude::*;

use crate::word::word_views;
use crate::word::Word;
use crate::word::WordView;

verus! {

/// Integer aggregates of the learning state.
#[derive(Debug)]
pub struct LearningStats {
    pub total_words: u32,
    pub learned_words: u32,
    pub mastered_words: u32,
    pub total_reviews: u64,
    pub correct_reviews: u64,
    pub mastery_sum: u64,
    pub daily_goal: u32,
    pub daily_progress: u32,
    pub streak_days: u32,
    pub total_time_spent: u64,
}

/// How many records were reviewed at least once.
pub open spec fn spec_count_learned(s: Seq<WordView>) -> int
    decreases s.len(),
{
    if s.len() == 0 {
        0
    } else {
        spec_count_learned(s.drop_last()) + if s.last().review_count > 0 {
            1int
        } else {
            0int
        }
    }
}

/// How many records reached mastery of at least eighty.
pub open spec fn spec_count_mastered(s: Seq<WordView>) -> int
    decreases s.len(),
{
    if s.len() == 0 {
        0
    } else {
        spec_count_mastered(s.drop_last()) + if s.last().mastery_level >= 80 {
            1int
        } else {
            0int
        }
    }
}

/// The total review count.
pub open spec fn spec_sum_reviews(s: Seq<WordView>) -> int
    decreases s.len(),
{
    if s.len() == 0 {
        0
    } else {
        spec_sum_reviews(s.drop_last()) + s.last().review_count
    }
}

/// The review count of records whose mastery passed fifty, the stand-in for
/// reviews answered correctly.
pub open spec fn spec_sum_correct(s: Seq<WordView>) -> int
    decreases s.len(),
{
    if s.len() == 0 {
        0
    } else {
        spec_sum_correct(s.drop_last()) + if s.last().mastery_level > 50 {
            s.last().review_count as int
        } else {
            0int
        }
    }
}

/// The sum of all mastery levels.
pub open spec fn spec_sum_mastery(s: Seq<WordView>) -> int
    decreases s.len(),
{
    if s.len() == 0 {
        0
    } else {
        spec_sum_mastery(s.drop_last()) + s.last().mastery_level
    }
}

/// How many review days equal the given day.
pub open spec fn spec_count_on_day(days: Seq<Option<i32>>, today: i32) -> int
    decreases days.len(),
{
    if days.len() == 0 {
        0
    } else {
        spec_count_on_day(days.drop_last(), today) + if days.last() == Some(today) {
            1int
        } else {
            0int
        }
    }
}

/// Whether any review fell on the given day.
pub open spec fn spec_has_day(days: Seq<Option<i32>>, d: int) -> bool {
    exists|k: int|
        0 <= k < days.len() && (#[trigger] days[k]) is Some && days[k]->0 == d
}

/// The streak: consecutive days with review activity, counted back from
/// today, looking at most a year back.
pub open spec fn spec_streak(days: Seq<Option<i32>>, today: int, i: int) -> int
    decreases 365 - i,
{
    if i >= 365 {
        0
    } else if spec_has_day(days, today - i) {
        1 + spec_streak(days, today, i + 1)
    } else {
        0
    }
}

/// The local review day of every record, in corpus order.  A record never
/// reviewed has no day, and so does one whose timestamp lies outside the
/// calendar wrapper's range (far beyond any real clock); which day a
/// timestamp falls on depends on the machine's time zone.
pub fn review_days_of(words: &Vec<Word>) -> (r: Vec<Option<i32>>)
    ensures
        r@.len() == words@.len(),
        forall|k: int| 0 <= k < words@.len() && word_views(words@)[k].last_review is None
            ==> #[trigger] r@[k] is None,
{
    let mut r: Vec<Option<i32>> = Vec::new();
    let mut i: usize = 0;
    while i < words.len()
        invariant
            0 <= i <= words@.len(),
            r@.len() == i,
            forall|k: int| 0 <= k < i && word_views(words@)[k].last_review is None
                ==> #[trigger] r@[k] is None,
        decreases words@.len() - i,
    {
        match words[i].last_review {
            None => r.push(None),
            Some(ts) => {
                if -crate::external::LOCAL_DAY_TS_BOUND <= ts && ts
                    <= crate::external::LOCAL_DAY_TS_BOUND {
                    r.push(crate::external::local_day_of(ts));
                } else {
                    r.push(None);
                }
            },
        }
        i = i + 1;
    }
    r
}

/// The local day of this moment, if the clock can say and reads a moment the
/// calendar wrapper's range covers.
pub fn current_local_day() -> (r: Option<i32>) {
    let now = crate::external::now_seconds();
    if -crate::external::LOCAL_DAY_TS_BOUND <= now && now <= crate::external::LOCAL_DAY_TS_BOUND {
        crate::external::local_day_of(now)
    } else {
        None
    }
}

/// Whether any review fell on the given day.
fn has_day(days: &Vec<Option<i32>>, d: i64) -> (r: bool)
    ensures
        r == spec_has_day(days@, d as int),
{
    let mut k: usize = 0;
    while k < days.len()
        invariant
            0 <= k <= days@.len(),
            forall|m: int| 0 <= m < k ==> !((#[trigger] days@[m]) is Some && days@[m]->0 == d),
        decreases days@.len() - k,
    {
        match days[k] {
            Some(x) => {
                if (x as i64) == d {
                    proof {
                        assert((days@[k as int]) is Some && days@[k as int]->0 == d);
                    }
                    return true;
                }
            },
            None => {},
        }
        k = k + 1;
    }
    proof {
        if spec_has_day(days@, d as int) {
            let m = choose|m: int|
                0 <= m < days@.len() && (#[trigger] days@[m]) is Some && days@[m]->0 == d;
            assert(!(days@[m] is Some && days@[m]->0 == d));
        }
    }
    false
}

/// Counts consecutive days with review activity back from today, at most a
/// year.
pub fn calculate_streak_days(days: &Vec<Option<i32>>, today: i32) -> (r: u32)
    ensures
        r == spec_streak(days@, today as int, 0),
{
    let mut i: u32 = 0;
    while i < 365
        invariant
            0 <= i <= 365,
            spec_streak(days@, today as int, 0) == i + spec_streak(days@, today as int, i as int),
        decreases 365 - i,
    {
        let target: i64 = today as i64 - i as i64;
        if !has_day(days, target) {
            proof {
                assert(spec_streak(days@, today as int, i as int) == 0);
            }
            return i;
        }
        proof {
            assert(spec_streak(days@, today as int, i as int) == 1 + spec_streak(
                days@,
                today as int,
                i + 1,
            ));
        }
        i = i + 1;
    }
    proof {
        assert(spec_streak(days@, today as int, 365) == 0);
    }
    365
}

/// Counts the review days equal to today.
pub fn count_reviewed_on(days: &Vec<Option<i32>>, today: i32) -> (r: u32)
    requires
        days@.len() <= u32::MAX,
    ensures
        r == spec_count_on_day(days@, today),
{
    let mut count: u32 = 0;
    let mut i: usize = 0;
    while i < days.len()
        invariant
            0 <= i <= days@.len(),
            days@.len() <= u32::MAX,
            count == spec_count_on_day(days@.take(i as int), today),
            count <= i,
        decreases days@.len() - i,
    {
        let hit = match days[i] {
            Some(x) => x == today,
            None => false,
        };
        proof {
            let t1 = days@.take(i + 1);
            assert(t1.drop_last() =~= days@.take(i as int));
            assert(t1.last() == days@[i as int]);
        }
        if hit {
            count = count + 1;
        }
        i = i + 1;
    }
    proof {
        assert(days@.take(i as int) =~= days@);
    }
    count
}

/// The aggregates of the whole corpus, with the daily batch's review days and
/// the corpus's review days supplied alongside.  Total time is estimated at
/// thirty seconds per review and saturates at the type's cap.
pub fn calculate_learning_stats(
    words: &Vec<Word>,
    daily_review_days: &Vec<Option<i32>>,
    review_days: &Vec<Option<i32>>,
    daily_goal: u32,
    today: i32,
) -> (r: LearningStats)
    requires
        words@.len() <= u32::MAX,
        daily_review_days@.len() <= u32::MAX,
    ensures
        ({
            let vs = word_views(words@);
            &&& r.total_words == vs.len()
            &&& r.learned_words == spec_count_learned(vs)
            &&& r.mastered_words == spec_count_mastered(vs)
            &&& r.total_reviews == spec_sum_reviews(vs)
            &&& r.correct_reviews == spec_sum_correct(vs)
            &&& r.mastery_sum == spec_sum_mastery(vs)
            &&& r.daily_goal == daily_goal
            &&& r.daily_progress == spec_count_on_day(daily_review_days@, today)
            &&& r.streak_days == spec_streak(review_days@, today as int, 0)
            &&& r.total_time_spent == (if 30 * spec_sum_reviews(vs) <= u64::MAX {
                30 * spec_sum_reviews(vs)
            } else {
                u64::MAX as int
            })
        }),
{
    let ghost vs = word_views(words@);
    let mut learned: u32 = 0;
    let mut mastered: u32 = 0;
    let mut reviews: u64 = 0;
    let mut correct: u64 = 0;
    let mut mastery: u64 = 0;
    let mut i: usize = 0;
    while i < words.len()
        invariant
            0 <= i <= words@.len(),
            vs == word_views(words@),
            words@.len() <= u32::MAX,
            learned == spec_count_learned(vs.take(i as int)),
            mastered == spec_count_mastered(vs.take(i as int)),
            reviews == spec_sum_reviews(vs.take(i as int)),
            correct == spec_sum_correct(vs.take(i as int)),
            mastery == spec_sum_mastery(vs.take(i as int)),
            learned <= i,
            mastered <= i,
            reviews <= (i as int) * 4294967295,
            correct <= (i as int) * 4294967295,
            mastery <= (i as int) * 255,
        decreases words@.len() - i,
    {
        let w = &words[i];
        proof {
            let t1 = vs.take(i + 1);
            assert(t1.drop_last() =~= vs.take(i as int));
            assert(t1.last() == vs[i as int]);
            assert(vs[i as int] == words@[i as int]@);
        }
        if w.review_count > 0 {
            learned = learned + 1;
        }
        if w.mastery_level >= 80 {
            mastered = mastered + 1;
        }
        reviews = reviews + w.review_count as u64;
        if w.mastery_level > 50 {
            correct = correct + w.review_count as u64;
        }
        mastery = mastery + w.mastery_level as u64;
        i = i + 1;
    }
    proof {
        assert(vs.take(i as int) =~= vs);
    }
    let time128: u128 = 30u128 * reviews as u128;
    let total_time: u64 = if time128 <= u64::MAX as u128 {
        time128 as u64
    } else {
        u64::MAX
    };
    let daily_progress = count_reviewed_on(daily_review_days, today);
    let streak = calculate_streak_days(review_days, today);
    LearningStats {
        total_words: words.len() as u32,
        learned_words: learned,
        mastered_words: mastered,
        total_reviews: reviews,
        correct_reviews: correct,
        mastery_sum: mastery,
        daily_goal,
        daily_progress,
        streak_days: streak,
        total_time_spent: total_time,
    }
}

} // verus!
