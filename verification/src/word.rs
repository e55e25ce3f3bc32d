//! The vocabulary record, its filter, and the review state model.

use vstd::prelude::*;

use crate::chars::lower_of;
use crate::chars::lowercase;

verus! {

/// An example sentence: source text and its translation.
#[derive(Debug)]
pub struct Example {
    pub source: String,
    pub trans: String,
}

/// Mathematical model of an example.
#[verifier::ext_equal]
pub struct ExampleView {
    pub source: Seq<char>,
    pub trans: Seq<char>,
}

impl View for Example {
    type V = ExampleView;

    open spec fn view(&self) -> ExampleView {
        ExampleView { source: self.source@, trans: self.trans@ }
    }
}

impl Clone for Example {
    fn clone(&self) -> (r: Self)
        ensures
            r == *self,
    {
        Example { source: self.source.clone(), trans: self.trans.clone() }
    }
}

/// One vocabulary entry.  Timestamps count whole seconds since the Unix
/// epoch; `last_review` is `None` until the first review.
#[derive(Debug)]
pub struct Word {
    pub id: String,
    pub word: String,
    pub trans: String,
    pub phonetic: String,
    pub tags: Vec<String>,
    pub progress: u8,
    pub examples: Vec<Example>,
    pub difficulty: u8,
    pub last_review: Option<i64>,
    pub mastery_level: u8,
    pub review_count: u32,
    pub created_at: i64,
    pub updated_at: i64,
    pub note: String,
}

/// Mathematical model of a record.
#[verifier::ext_equal]
pub struct WordView {
    pub id: Seq<char>,
    pub word: Seq<char>,
    pub trans: Seq<char>,
    pub phonetic: Seq<char>,
    pub tags: Seq<Seq<char>>,
    pub progress: u8,
    pub examples: Seq<ExampleView>,
    pub difficulty: u8,
    pub last_review: Option<i64>,
    pub mastery_level: u8,
    pub review_count: u32,
    pub created_at: i64,
    pub updated_at: i64,
    pub note: Seq<char>,
}

impl View for Word {
    type V = WordView;

    open spec fn view(&self) -> WordView {
        WordView {
            id: self.id@,
            word: self.word@,
            trans: self.trans@,
            phonetic: self.phonetic@,
            tags: self.tags@.map_values(|t: String| t@),
            progress: self.progress,
            examples: self.examples@.map_values(|e: Example| e@),
            difficulty: self.difficulty,
            last_review: self.last_review,
            mastery_level: self.mastery_level,
            review_count: self.review_count,
            created_at: self.created_at,
            updated_at: self.updated_at,
            note: self.note@,
        }
    }
}

/// The models of a sequence of records.
pub open spec fn word_views(s: Seq<Word>) -> Seq<WordView> {
    s.map_values(|w: Word| w@)
}

pub proof fn lemma_word_views_remove(s: Seq<Word>, i: int)
    requires
        0 <= i < s.len(),
    ensures
        word_views(s.remove(i)) == word_views(s).remove(i),
{
    assert(word_views(s.remove(i)) =~= word_views(s).remove(i));
}

pub proof fn lemma_word_views_insert(s: Seq<Word>, i: int, w: Word)
    requires
        0 <= i <= s.len(),
    ensures
        word_views(s.insert(i, w)) == word_views(s).insert(i, w@),
{
    assert(word_views(s.insert(i, w)) =~= word_views(s).insert(i, w@));
}

pub proof fn lemma_word_views_push(s: Seq<Word>, w: Word)
    ensures
        word_views(s.push(w)) == word_views(s).push(w@),
{
    assert(word_views(s.push(w)) =~= word_views(s).push(w@));
}

/// Clones every record; the models carry over unchanged.
pub fn clone_words(v: &Vec<Word>) -> (r: Vec<Word>)
    ensures
        word_views(r@) == word_views(v@),
{
    let mut r: Vec<Word> = Vec::new();
    let mut i: usize = 0;
    while i < v.len()
        invariant
            0 <= i <= v@.len(),
            r@.len() == i,
            forall|k: int| 0 <= k < i ==> r@[k]@ == v@[k]@,
        decreases v@.len() - i,
    {
        r.push(v[i].clone());
        i = i + 1;
    }
    proof {
        assert(word_views(r@) =~= word_views(v@));
    }
    r
}

fn clone_strings(v: &Vec<String>) -> (r: Vec<String>)
    ensures
        r@.map_values(|t: String| t@) == v@.map_values(|t: String| t@),
        r@.len() == v@.len(),
{
    let mut r: Vec<String> = Vec::new();
    let mut i: usize = 0;
    while i < v.len()
        invariant
            0 <= i <= v@.len(),
            r@.len() == i,
            forall|k: int| 0 <= k < i ==> r@[k]@ == v@[k]@,
        decreases v@.len() - i,
    {
        r.push(v[i].clone());
        i = i + 1;
    }
    proof {
        assert(r@.map_values(|t: String| t@) =~= v@.map_values(|t: String| t@));
    }
    r
}

fn clone_examples(v: &Vec<Example>) -> (r: Vec<Example>)
    ensures
        r@.map_values(|e: Example| e@) == v@.map_values(|e: Example| e@),
        r@.len() == v@.len(),
{
    let mut r: Vec<Example> = Vec::new();
    let mut i: usize = 0;
    while i < v.len()
        invariant
            0 <= i <= v@.len(),
            r@.len() == i,
            forall|k: int| 0 <= k < i ==> r@[k] == v@[k],
        decreases v@.len() - i,
    {
        r.push(v[i].clone());
        i = i + 1;
    }
    proof {
        assert(r@.map_values(|e: Example| e@) =~= v@.map_values(|e: Example| e@));
    }
    r
}

impl Clone for Word {
    /// The clone carries the same model; the vector fields are fresh
    /// allocations, so only view equality is promised.
    fn clone(&self) -> (r: Self)
        ensures
            r@ == self@,
    {
        let r = Word {
            id: self.id.clone(),
            word: self.word.clone(),
            trans: self.trans.clone(),
            phonetic: self.phonetic.clone(),
            tags: clone_strings(&self.tags),
            progress: self.progress,
            examples: clone_examples(&self.examples),
            difficulty: self.difficulty,
            last_review: self.last_review,
            mastery_level: self.mastery_level,
            review_count: self.review_count,
            created_at: self.created_at,
            updated_at: self.updated_at,
            note: self.note.clone(),
        };
        proof {
            assert(r@ =~= self@);
        }
        r
    }
}

/// The review interval, in hours, that a mastery level earns.
pub open spec fn review_interval_hours(mastery: u8) -> int {
    if mastery <= 20 {
        1
    } else if mastery <= 40 {
        4
    } else if mastery <= 60 {
        12
    } else if mastery <= 80 {
        24
    } else {
        72
    }
}

/// A record is due when it was never reviewed, or when at least the interval
/// earned by its mastery has elapsed since the last review.
pub open spec fn spec_is_due(w: WordView, now: i64) -> bool {
    match w.last_review {
        None => true,
        Some(last) => now - last >= 3600 * review_interval_hours(w.mastery_level),
    }
}

/// The model of one progress update: sets the stage, stamps the review,
/// counts it, and moves mastery up by ten (capped at 100) or down by five
/// (floored at zero).
pub open spec fn spec_update_progress(w: WordView, new_progress: u8, is_correct: bool, now: i64) -> WordView {
    WordView {
        progress: new_progress,
        last_review: Some(now),
        review_count: if w.review_count == u32::MAX {
            w.review_count
        } else {
            (w.review_count + 1) as u32
        },
        mastery_level: if is_correct {
            if w.mastery_level >= 90 {
                100
            } else {
                (w.mastery_level + 10) as u8
            }
        } else {
            if w.mastery_level >= 5 {
                (w.mastery_level - 5) as u8
            } else {
                0
            }
        },
        updated_at: now,
        ..w
    }
}

impl Word {
    /// A fresh record: defaults everywhere, a random identifier, both
    /// timestamps equal to the given moment.
    pub fn new(word: String, trans: String, phonetic: String, now: i64) -> (w: Word)
        ensures
            w@.word == word@,
            w@.trans == trans@,
            w@.phonetic == phonetic@,
            w@.id.len() == 36,
            w@.tags =~= Seq::<Seq<char>>::empty(),
            w@.examples =~= Seq::<ExampleView>::empty(),
            w@.note =~= Seq::<char>::empty(),
            w@.progress == 1,
            w@.difficulty == 5,
            w@.mastery_level == 0,
            w@.review_count == 0,
            w@.last_review is None,
            w@.created_at == now,
            w@.updated_at == now,
    {
        let w = Word {
            id: crate::external::fresh_id(),
            word,
            trans,
            phonetic,
            tags: Vec::new(),
            progress: 1,
            examples: Vec::new(),
            difficulty: 5,
            last_review: None,
            mastery_level: 0,
            review_count: 0,
            created_at: now,
            updated_at: now,
            note: String::new(),
        };
        proof {
            assert(w@.tags =~= Seq::<Seq<char>>::empty());
            assert(w@.examples =~= Seq::<ExampleView>::empty());
        }
        w
    }

    /// Applies one review outcome to the record.
    pub fn update_progress(&mut self, new_progress: u8, is_correct: bool, now: i64)
        ensures
            final(self)@ == spec_update_progress(old(self)@, new_progress, is_correct, now),
    {
        self.progress = new_progress;
        self.last_review = Some(now);
        if self.review_count < u32::MAX {
            self.review_count = self.review_count + 1;
        }
        self.updated_at = now;
        if is_correct {
            if self.mastery_level >= 90 {
                self.mastery_level = 100;
            } else {
                self.mastery_level = self.mastery_level + 10;
            }
        } else {
            if self.mastery_level >= 5 {
                self.mastery_level = self.mastery_level - 5;
            } else {
                self.mastery_level = 0;
            }
        }
        proof {
            assert(final(self)@ =~= spec_update_progress(old(self)@, new_progress, is_correct, now));
        }
    }

    /// Whether the record is due for review at the given moment.
    pub fn is_due_for_review(&self, now: i64) -> (r: bool)
        ensures
            r == spec_is_due(self@, now),
    {
        match self.last_review {
            None => true,
            Some(last) => {
                let diff: i128 = now as i128 - last as i128;
                let hours = interval_hours(self.mastery_level);
                diff >= 3600i128 * hours as i128
            },
        }
    }

    /// The moment the next review falls due, or `None` when the record was
    /// never reviewed.  The bound on `last_review` keeps the sum inside the
    /// timestamp type.
    pub fn get_next_review_time(&self) -> (r: Option<i64>)
        requires
            self@.last_review is Some ==> self@.last_review->0 + 259200 <= i64::MAX,
        ensures
            match r {
                None => self@.last_review is None,
                Some(t) => self@.last_review is Some && t == self@.last_review->0 + 3600
                    * review_interval_hours(self@.mastery_level),
            },
    {
        match self.last_review {
            None => None,
            Some(last) => {
                let hours = interval_hours(self.mastery_level);
                Some(last + 3600 * hours)
            },
        }
    }
}

/// Executable mirror of `review_interval_hours`.
pub fn interval_hours(mastery: u8) -> (r: i64)
    ensures
        r == review_interval_hours(mastery),
        1 <= r <= 72,
{
    if mastery <= 20 {
        1
    } else if mastery <= 40 {
        4
    } else if mastery <= 60 {
        12
    } else if mastery <= 80 {
        24
    } else {
        72
    }
}

/// Mastery sits in its band.
pub open spec fn mastery_bounded(w: WordView) -> bool {
    w.mastery_level <= 100
}

/// One progress update in the abstract: the arguments of a single call.
pub struct UpdateOp {
    pub progress: u8,
    pub is_correct: bool,
    pub now: i64,
}

/// The record after a whole sequence of progress updates.
pub open spec fn apply_updates(w: WordView, ops: Seq<UpdateOp>) -> WordView
    decreases ops.len(),
{
    if ops.len() == 0 {
        w
    } else {
        apply_updates(
            spec_update_progress(w, ops[0].progress, ops[0].is_correct, ops[0].now),
            ops.drop_first(),
        )
    }
}

/// One update keeps mastery within [0, 100] and never lowers the review
/// count.
pub proof fn lemma_update_progress_step(w: WordView, p: u8, c: bool, now: i64)
    requires
        mastery_bounded(w),
    ensures
        mastery_bounded(spec_update_progress(w, p, c, now)),
        spec_update_progress(w, p, c, now).review_count >= w.review_count,
{
}

/// Under any sequence of progress updates, a record whose mastery starts in
/// [0, 100] keeps it there at every step, and its review count never
/// decreases.
pub proof fn lemma_mastery_bounds(w: WordView, ops: Seq<UpdateOp>)
    requires
        mastery_bounded(w),
    ensures
        mastery_bounded(apply_updates(w, ops)),
        apply_updates(w, ops).review_count >= w.review_count,
    decreases ops.len(),
{
    if ops.len() > 0 {
        lemma_update_progress_step(w, ops[0].progress, ops[0].is_correct, ops[0].now);
        lemma_mastery_bounds(
            spec_update_progress(w, ops[0].progress, ops[0].is_correct, ops[0].now),
            ops.drop_first(),
        );
    }
}

/// A predicate over records: which tags, ranges and text to keep.
#[derive(Debug)]
pub struct WordFilter {
    pub tags: Option<Vec<String>>,
    pub difficulty_min: Option<u8>,
    pub difficulty_max: Option<u8>,
    pub mastery_min: Option<u8>,
    pub mastery_max: Option<u8>,
    pub progress_min: Option<u8>,
    pub progress_max: Option<u8>,
    pub search_text: Option<String>,
}

/// Mathematical model of a filter.
#[verifier::ext_equal]
pub struct FilterView {
    pub tags: Option<Seq<Seq<char>>>,
    pub difficulty_min: Option<u8>,
    pub difficulty_max: Option<u8>,
    pub mastery_min: Option<u8>,
    pub mastery_max: Option<u8>,
    pub progress_min: Option<u8>,
    pub progress_max: Option<u8>,
    pub search_text: Option<Seq<char>>,
}

impl View for WordFilter {
    type V = FilterView;

    open spec fn view(&self) -> FilterView {
        FilterView {
            tags: match self.tags {
                None => None,
                Some(ts) => Some(ts@.map_values(|t: String| t@)),
            },
            difficulty_min: self.difficulty_min,
            difficulty_max: self.difficulty_max,
            mastery_min: self.mastery_min,
            mastery_max: self.mastery_max,
            progress_min: self.progress_min,
            progress_max: self.progress_max,
            search_text: match self.search_text {
                None => None,
                Some(ref q) => Some(q@),
            },
        }
    }
}

pub use crate::entities::spec_contains;

/// Whether a record passes a filter: every stated condition must hold.  The
/// text condition compares lower-cased text, so the match is
/// case-insensitive.
pub open spec fn spec_filter_matches(w: WordView, f: FilterView) -> bool {
    &&& match f.tags {
        None => true,
        Some(ts) => exists|i: int| 0 <= i < ts.len() && w.tags.contains(#[trigger] ts[i]),
    }
    &&& match f.difficulty_min {
        None => true,
        Some(m) => w.difficulty >= m,
    }
    &&& match f.difficulty_max {
        None => true,
        Some(m) => w.difficulty <= m,
    }
    &&& match f.mastery_min {
        None => true,
        Some(m) => w.mastery_level >= m,
    }
    &&& match f.mastery_max {
        None => true,
        Some(m) => w.mastery_level <= m,
    }
    &&& match f.progress_min {
        None => true,
        Some(m) => w.progress >= m,
    }
    &&& match f.progress_max {
        None => true,
        Some(m) => w.progress <= m,
    }
    &&& match f.search_text {
        None => true,
        Some(q) => spec_contains(lower_of(w.word), lower_of(q)) || spec_contains(
            lower_of(w.trans),
            lower_of(q),
        ),
    }
}

/// Whether this record passes the filter.
pub fn matches_filter(w: &Word, f: &WordFilter) -> (r: bool)
    ensures
        r == spec_filter_matches(w@, f@),
{
    match f.tags {
        None => {},
        Some(ref ts) => {
            let ghost tsv = ts@.map_values(|t: String| t@);
            let mut found = false;
            let mut i: usize = 0;
            while i < ts.len()
                invariant
                    0 <= i <= ts@.len(),
                    tsv == ts@.map_values(|t: String| t@),
                    found == exists|k: int| 0 <= k < i && w@.tags.contains(#[trigger] tsv[k]),
                decreases ts@.len() - i,
            {
                if !found {
                    let mut j: usize = 0;
                    let mut hit = false;
                    while j < w.tags.len() && !hit
                        invariant
                            0 <= j <= w@.tags.len(),
                            i < ts@.len(),
                            tsv == ts@.map_values(|t: String| t@),
                            hit ==> w@.tags.contains(tsv[i as int]),
                            !hit ==> forall|m: int| 0 <= m < j ==> w@.tags[m] != tsv[i as int],
                        decreases w@.tags.len() - j,
                    {
                        if w.tags[j] == ts[i] {
                            hit = true;
                            proof {
                                assert(w@.tags[j as int] == tsv[i as int]);
                                assert(w@.tags.contains(tsv[i as int]));
                            }
                        }
                        j = j + 1;
                    }
                    proof {
                        if hit {
                            assert(0 <= i < i + 1 && w@.tags.contains(tsv[i as int]));
                        } else {
                            assert(forall|m: int| 0 <= m < w@.tags.len() ==> w@.tags[m]
                                != tsv[i as int]);
                            assert(!w@.tags.contains(tsv[i as int])) by {
                                if w@.tags.contains(tsv[i as int]) {
                                    let m = choose|m: int|
                                        0 <= m < w@.tags.len() && w@.tags[m] == tsv[i as int];
                                    assert(false);
                                }
                            }
                            assert(!(exists|k: int|
                                0 <= k < i + 1 && w@.tags.contains(#[trigger] tsv[k]))) by {
                                if exists|k: int|
                                    0 <= k < i + 1 && w@.tags.contains(#[trigger] tsv[k]) {
                                    let k = choose|k: int|
                                        0 <= k < i + 1 && w@.tags.contains(#[trigger] tsv[k]);
                                    if k < i {
                                        assert(exists|k2: int|
                                            0 <= k2 < i && w@.tags.contains(#[trigger] tsv[k2]));
                                    }
                                }
                            }
                        }
                    }
                    found = hit;
                }
                i = i + 1;
            }
            if !found {
                return false;
            }
        },
    }
    match f.difficulty_min {
        None => {},
        Some(m) => {
            if w.difficulty < m {
                return false;
            }
        },
    }
    match f.difficulty_max {
        None => {},
        Some(m) => {
            if w.difficulty > m {
                return false;
            }
        },
    }
    match f.mastery_min {
        None => {},
        Some(m) => {
            if w.mastery_level < m {
                return false;
            }
        },
    }
    match f.mastery_max {
        None => {},
        Some(m) => {
            if w.mastery_level > m {
                return false;
            }
        },
    }
    match f.progress_min {
        None => {},
        Some(m) => {
            if w.progress < m {
                return false;
            }
        },
    }
    match f.progress_max {
        None => {},
        Some(m) => {
            if w.progress > m {
                return false;
            }
        },
    }
    match f.search_text {
        None => {},
        Some(ref q) => {
            let ql = lowercase(q.as_str());
            let qlc = crate::chars::str_to_chars(ql.as_str());
            let wl = lowercase(w.word.as_str());
            let wlc = crate::chars::str_to_chars(wl.as_str());
            if !crate::clean::contains_chars(&wlc, &qlc) {
                let tl = lowercase(w.trans.as_str());
                let tlc = crate::chars::str_to_chars(tl.as_str());
                if !crate::clean::contains_chars(&tlc, &qlc) {
                    return false;
                }
            }
        },
    }
    true
}

/// The models of the records of `s` that pass the filter, in order.
pub open spec fn filtered_views(s: Seq<Word>, f: FilterView) -> Seq<WordView>
    decreases s.len(),
{
    if s.len() == 0 {
        Seq::empty()
    } else {
        let rest = filtered_views(s.drop_last(), f);
        if spec_filter_matches(s.last()@, f) {
            rest.push(s.last()@)
        } else {
            rest
        }
    }
}

/// The same filtering, expressed over record models.
pub open spec fn filtered_views_of(vs: Seq<WordView>, f: FilterView) -> Seq<WordView>
    decreases vs.len(),
{
    if vs.len() == 0 {
        Seq::empty()
    } else {
        let rest = filtered_views_of(vs.drop_last(), f);
        if spec_filter_matches(vs.last(), f) {
            rest.push(vs.last())
        } else {
            rest
        }
    }
}

/// Filtering records and filtering their models agree.
pub proof fn lemma_filtered_views_of(s: Seq<Word>, f: FilterView)
    ensures
        filtered_views(s, f) == filtered_views_of(word_views(s), f),
    decreases s.len(),
{
    if s.len() > 0 {
        lemma_filtered_views_of(s.drop_last(), f);
        assert(word_views(s).drop_last() =~= word_views(s.drop_last()));
        assert(word_views(s).last() == s.last()@);
        assert(word_views(s).len() == s.len());
    }
}

/// Keeps exactly the records that pass the filter, in their original order.
pub fn apply_filter(words: &Vec<Word>, filter: &WordFilter) -> (r: Vec<Word>)
    ensures
        word_views(r@) == filtered_views(words@, filter@),
{
    let mut r: Vec<Word> = Vec::new();
    let mut i: usize = 0;
    proof {
        assert(word_views(words@.take(0)) =~= Seq::<WordView>::empty());
        assert(word_views(r@) =~= filtered_views(words@.take(0), filter@));
    }
    while i < words.len()
        invariant
            0 <= i <= words@.len(),
            word_views(r@) == filtered_views(words@.take(i as int), filter@),
        decreases words@.len() - i,
    {
        let keep = matches_filter(&words[i], filter);
        let ghost prev = r@;
        if keep {
            r.push(words[i].clone());
        }
        proof {
            let t1 = words@.take(i + 1);
            assert(t1.len() == i + 1);
            assert(t1.drop_last() =~= words@.take(i as int));
            assert(t1.last() == words@[i as int]);
            assert(filtered_views(words@.take(i + 1), filter@) == if spec_filter_matches(
                words@[i as int]@,
                filter@,
            ) {
                filtered_views(words@.take(i as int), filter@).push(words@[i as int]@)
            } else {
                filtered_views(words@.take(i as int), filter@)
            });
            if keep {
                assert(word_views(r@) =~= word_views(prev).push(words@[i as int]@));
            }
        }
        i = i + 1;
    }
    proof {
        assert(words@.take(i as int) =~= words@);
    }
    r
}

} // verus!
