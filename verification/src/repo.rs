//! The word repository: the canonical record collection behind an
//! invalidate-and-reload cache.
//!
//! The repository owns the snapshot; reading the backing file and writing it
//! back are the caller's work.  A cold cache yields nothing until a document
//! is installed; a mutation hands back the serialized document to persist, and
//! the snapshot keeps the change even if that write later fails.

use vstd::prelude::*;

use crate::codec::drafts_match;
use crate::codec::generate_xml_content;
use crate::codec::parse_xml_content;
use crate::codec::spec_parse;
use crate::codec::spec_serialize;
use crate::codec::Draft;
use crate::learning::lemma_find_id_props;
use crate::learning::spec_find_id;
use crate::word::apply_filter;
use crate::word::spec_update_progress;
use crate::word::word_views;
use crate::word::Word;
use crate::word::WordFilter;
use crate::word::WordView;

verus! {

/// Why a repository operation failed.
#[derive(Clone, Copy, Debug, PartialEq, Eq, Structural)]
pub enum RepoError {
    /// The backing store is unreadable or undecodable.
    Load,
    /// The backing store could not be written.
    Persist,
}

/// The record collection with its process-wide cache slot.
pub struct WordRepository {
    warm: bool,
    words: Vec<Word>,
}

impl WordRepository {
    /// The snapshot's models, or nothing while the cache is cold.
    pub closed spec fn cache_views(&self) -> Option<Seq<WordView>> {
        if self.warm {
            Some(word_views(self.words@))
        } else {
            None
        }
    }

    /// Whether a snapshot is held.
    pub closed spec fn is_warm(&self) -> bool {
        self.warm
    }

    /// A repository with a cold cache.
    pub fn new() -> (r: Self)
        ensures
            !r.is_warm(),
    {
        WordRepository { warm: false, words: Vec::new() }
    }

    /// Drops the snapshot; the next read must reload from the backing store.
    pub fn clear_cache(&mut self)
        ensures
            !final(self).is_warm(),
    {
        self.warm = false;
        self.words = Vec::new();
    }

    /// Parses a document and installs its records as the snapshot.  On a
    /// syntax error the repository is left exactly as it was.
    pub fn fill(&mut self, content: &str) -> (r: Result<usize, RepoError>)
        ensures
            ({
                let sp = spec_parse(content@);
                match r {
                    Ok(n) => sp is Some && final(self).is_warm() && drafts_match(
                        sp->0,
                        final(self).cache_views()->0,
                    ) && n == final(self).cache_views()->0.len(),
                    Err(e) => sp is None && e == RepoError::Load && *final(self) == *old(self),
                }
            }),
    {
        match parse_xml_content(content) {
            Ok(ws) => {
                let n = ws.len();
                self.words = ws;
                self.warm = true;
                Ok(n)
            },
            Err(_) => Err(RepoError::Load),
        }
    }

    /// The snapshot, optionally filtered; nothing while the cache is cold.
    /// Filtering never changes the cache.
    pub fn load_words(&self, filter: &Option<WordFilter>) -> (r: Option<Vec<Word>>)
        ensures
            ({
                match r {
                    None => !self.is_warm(),
                    Some(ws) => self.is_warm() && word_views(ws@) == (match filter {
                        None => self.cache_views()->0,
                        Some(f) => crate::word::filtered_views_of(self.cache_views()->0, f@),
                    }),
                }
            }),
    {
        if !self.warm {
            return None;
        }
        match filter {
            None => Some(crate::word::clone_words(&self.words)),
            Some(f) => {
                let r = apply_filter(&self.words, f);
                proof {
                    crate::word::lemma_filtered_views_of(self.words@, f@);
                }
                Some(r)
            },
        }
    }

    /// The record with the given identifier, from the snapshot.
    pub fn get_word_by_id(&self, id: &str) -> (r: Option<Word>)
        requires
            self.is_warm(),
        ensures
            ({
                let rv = self.cache_views()->0;
                let idx = spec_find_id(rv, id@);
                match r {
                    Some(w) => idx >= 0 && w@ == rv[idx],
                    None => idx < 0,
                }
            }),
    {
        proof {
            lemma_find_id_props(word_views(self.words@), id@);
        }
        let mut i: usize = 0;
        while i < self.words.len()
            invariant
                self.is_warm(),
                0 <= i <= self.words@.len(),
                forall|k: int| 0 <= k < i ==> word_views(self.words@)[k].id != id@,
            decreases self.words@.len() - i,
        {
            if crate::chars::str_eq(self.words[i].id.as_str(), id) {
                proof {
                    lemma_find_id_props(word_views(self.words@), id@);
                    let rv = word_views(self.words@);
                    let f = spec_find_id(rv, id@);
                    assert(rv[i as int].id == id@);
                    if f < 0 {
                        assert(rv[i as int].id != id@);
                    }
                    if f < i {
                        assert(rv[f].id != id@);
                    }
                    if f > i {
                        assert(rv[i as int].id != id@);
                    }
                }
                return Some(self.words[i].clone());
            }
            i = i + 1;
        }
        proof {
            lemma_find_id_props(word_views(self.words@), id@);
            let rv = word_views(self.words@);
            let f = spec_find_id(rv, id@);
            if f >= 0 {
                assert(rv[f].id != id@);
            }
        }
        None
    }

    /// Applies a review outcome to the identified record and serializes the
    /// new snapshot for persisting.  A cold cache or an unknown identifier is
    /// a silent no-op, never an error.
    pub fn update_word_progress(&mut self, id: &str, progress: u8, is_correct: bool, now: i64) -> (r:
        Option<String>)
        ensures
            !old(self).is_warm() ==> r is None && *final(self) == *old(self),
            old(self).is_warm() ==> final(self).is_warm() && ({
                let rv = old(self).cache_views()->0;
                let idx = spec_find_id(rv, id@);
                if idx < 0 {
                    r is None && *final(self) == *old(self)
                } else {
                    final(self).cache_views()->0 == rv.update(
                        idx,
                        spec_update_progress(rv[idx], progress, is_correct, now),
                    ) && r is Some && r->0@ == spec_serialize(final(self).cache_views()->0)
                }
            }),
    {
        if !self.warm {
            return None;
        }
        proof {
            lemma_find_id_props(word_views(self.words@), id@);
        }
        let ghost rv = word_views(self.words@);
        let mut i: usize = 0;
        let mut at: Option<usize> = None;
        while i < self.words.len() && at.is_none()
            invariant
                self.is_warm(),
                0 <= i <= self.words@.len(),
                rv == word_views(self.words@),
                match at {
                    None => forall|k: int| 0 <= k < i ==> rv[k].id != id@,
                    Some(j) => j <= i && j < self.words@.len() && rv[j as int].id == id@ && forall|
                        k: int,
                    |
                        0 <= k < j ==> rv[k].id != id@,
                },
            decreases self.words@.len() - i + (if at is None {
                1int
            } else {
                0int
            }),
        {
            if crate::chars::str_eq(self.words[i].id.as_str(), id) {
                at = Some(i);
            } else {
                i = i + 1;
            }
        }
        match at {
            None => {
                proof {
                    let f = spec_find_id(rv, id@);
                    if f >= 0 {
                        assert(rv[f].id != id@);
                    }
                }
                None
            },
            Some(j) => {
                proof {
                    let f = spec_find_id(rv, id@);
                    assert(f >= 0) by {
                        if f < 0 {
                            assert(rv[j as int].id != id@);
                        }
                    }
                    assert(f == j) by {
                        if f < j {
                            assert(rv[f].id != id@);
                        }
                        if f > j {
                            assert(rv[j as int].id != id@);
                        }
                    }
                }
                let ghost before = self.words@;
                let mut w = self.words.remove(j);
                w.update_progress(progress, is_correct, now);
                self.words.insert(j, w);
                proof {
                    assert(self.words@ =~= before.update(
                        j as int,
                        self.words@[j as int],
                    ));
                    assert(word_views(self.words@) =~= rv.update(
                        j as int,
                        spec_update_progress(rv[j as int], progress, is_correct, now),
                    ));
                }
                let doc = generate_xml_content(&self.words);
                Some(doc)
            },
        }
    }

    /// Applies a known-word outcome: stage five, counted as correct.
    pub fn mark_word_known(&mut self, id: &str, now: i64) -> (r: Option<String>)
        ensures
            !old(self).is_warm() ==> r is None && *final(self) == *old(self),
            old(self).is_warm() ==> final(self).is_warm() && ({
                let rv = old(self).cache_views()->0;
                let idx = spec_find_id(rv, id@);
                if idx < 0 {
                    r is None && *final(self) == *old(self)
                } else {
                    final(self).cache_views()->0 == rv.update(
                        idx,
                        spec_update_progress(rv[idx], 5, true, now),
                    ) && r is Some && r->0@ == spec_serialize(final(self).cache_views()->0)
                }
            }),
    {
        self.update_word_progress(id, 5, true, now)
    }

    /// Applies an unknown-word outcome: stage one, counted as incorrect.
    pub fn mark_word_unknown(&mut self, id: &str, now: i64) -> (r: Option<String>)
        ensures
            !old(self).is_warm() ==> r is None && *final(self) == *old(self),
            old(self).is_warm() ==> final(self).is_warm() && ({
                let rv = old(self).cache_views()->0;
                let idx = spec_find_id(rv, id@);
                if idx < 0 {
                    r is None && *final(self) == *old(self)
                } else {
                    final(self).cache_views()->0 == rv.update(
                        idx,
                        spec_update_progress(rv[idx], 1, false, now),
                    ) && r is Some && r->0@ == spec_serialize(final(self).cache_views()->0)
                }
            }),
    {
        self.update_word_progress(id, 1, false, now)
    }
}

/// Where the initial load reads the document from.
#[derive(Clone, Copy, Debug, PartialEq, Eq, Structural)]
pub enum VocabularySource {
    /// A file beside the running executable.
    BesideExecutable,
    /// The resources directory beside the executable.
    ResourcesDir,
    /// A file in the working directory.
    WorkingDir,
    /// The per-user data directory; a fresh empty document is created there
    /// when nothing else matched.
    DataDir,
}

/// The source-resolution order for the initial load: the first existing
/// location wins, and the per-user data directory is the fallback.
pub fn resolve_source(beside_executable: bool, in_resources: bool, in_working_dir: bool) -> (r:
    VocabularySource)
    ensures
        r == (if beside_executable {
            VocabularySource::BesideExecutable
        } else if in_resources {
            VocabularySource::ResourcesDir
        } else if in_working_dir {
            VocabularySource::WorkingDir
        } else {
            VocabularySource::DataDir
        }),
{
    if beside_executable {
        VocabularySource::BesideExecutable
    } else if in_resources {
        VocabularySource::ResourcesDir
    } else if in_working_dir {
        VocabularySource::WorkingDir
    } else {
        VocabularySource::DataDir
    }
}

/// The default empty document, written when no source exists.
pub fn default_document() -> (r: String)
    ensures
        r@ == spec_serialize(Seq::empty()),
{
    let empty: Vec<Word> = Vec::new();
    proof {
        assert(word_views(empty@) =~= Seq::<WordView>::empty());
    }
    generate_xml_content(&empty)
}

/// The content fields two snapshots share when they come from the same
/// document.
pub open spec fn content_eq(a: WordView, b: WordView) -> bool {
    &&& a.word == b.word
    &&& a.trans == b.trans
    &&& a.phonetic == b.phonetic
    &&& a.tags == b.tags
    &&& a.progress == b.progress
    &&& a.note == b.note
    &&& a.examples == b.examples
    &&& a.difficulty == b.difficulty
    &&& a.mastery_level == b.mastery_level
    &&& a.review_count == b.review_count
    &&& a.last_review == b.last_review
}

/// Cache invalidation leaves no trace: two snapshots installed from the same
/// document carry the same content, whatever either repository held before.
/// Only identifiers and timestamps, which are minted fresh on every parse,
/// may differ.
pub proof fn lemma_reload_reads_the_document_alone(ds: Seq<Draft>, v1: Seq<WordView>, v2: Seq<WordView>)
    requires
        drafts_match(ds, v1),
        drafts_match(ds, v2),
    ensures
        v1.len() == v2.len(),
        forall|k: int| 0 <= k < v1.len() ==> content_eq(#[trigger] v1[k], v2[k]),
{
    assert forall|k: int| 0 <= k < v1.len() implies content_eq(#[trigger] v1[k], v2[k]) by {
        assert(crate::codec::word_matches_draft(v1[k], ds[k]));
        assert(crate::codec::word_matches_draft(v2[k], ds[k]));
    }
}

} // verus!
