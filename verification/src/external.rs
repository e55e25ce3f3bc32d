//! Trusted wrappers around the outside crates the library relies on: fresh
//! identifiers, the clock, the local calendar, and shuffling.

use vstd::prelude::*;

use crate::word::word_views;
use crate::word::Word;

verus! {

/// Timestamps the local calendar is asked about stay inside this range:
/// roughly a quarter million years either side of the epoch, far beyond any
/// real clock yet a comfortable margin inside chrono's representable dates,
/// so the offset conversion can never leave them.
pub const LOCAL_DAY_TS_BOUND: i64 = 8_000_000_000_000;

/// Relies on uuid's `Uuid::new_v4` and its `Display` form: a fresh random
/// identifier always renders as 36 characters (hyphenated hexadecimal).
/// Nothing more is promised: the identifier is random.  Aborts only if the
/// operating system's randomness source fails, an environmental failure like
/// running out of memory.
#[verifier::external_body]
pub(crate) fn fresh_id() -> (r: String)
    ensures
        r@.len() == 36,
{
    uuid::Uuid::new_v4().to_string()
}

/// Relies on chrono's `Utc::now` and `DateTime::timestamp`: the current time
/// as whole seconds since the Unix epoch.  Nothing is promised of the value.
/// Aborts only if the machine's clock reads before the epoch, an
/// environmental failure no precondition can exclude.
#[verifier::external_body]
pub(crate) fn now_seconds() -> (r: i64) {
    chrono::Utc::now().timestamp()
}

/// Relies on chrono's `DateTime::from_timestamp`, `Local` and
/// `NaiveDate::num_days_from_ce`: the local civil day holding a Unix
/// timestamp, counted in days from the calendar epoch.  The value depends on
/// the machine's time zone, so nothing is promised of it.  The bound keeps
/// the timestamp far enough inside chrono's range that applying the local
/// offset cannot leave it, which would abort.
#[verifier::external_body]
pub(crate) fn local_day_of(ts: i64) -> (r: Option<i32>)
    requires
        -LOCAL_DAY_TS_BOUND <= ts <= LOCAL_DAY_TS_BOUND,
{
    chrono::DateTime::<chrono::Utc>::from_timestamp(ts, 0).map(
        |t| chrono::Datelike::num_days_from_ce(
            &t.with_timezone(&chrono::Local).date_naive(),
        ),
    )
}

/// Relies on rand's `SliceRandom::shuffle` with the thread generator: an
/// in-place permutation of the slice, uniform over all permutations.  Which
/// permutation comes out is random, so only the multiset of elements is
/// promised.  Aborts only if the operating system's randomness source fails,
/// an environmental failure like running out of memory.
#[verifier::external_body]
pub(crate) fn shuffle_words(v: &mut Vec<Word>)
    ensures
        final(v)@.len() == old(v)@.len(),
        final(v)@.to_multiset() == old(v)@.to_multiset(),
        word_views(final(v)@).to_multiset() == word_views(old(v)@).to_multiset(),
{
    rand::seq::SliceRandom::shuffle(v.as_mut_slice(), &mut rand::rng());
}

} // verus!
