use wordpony::codec::generate_xml_content;
use wordpony::hotkey::get_default_hotkeys;
use wordpony::hotkey::parse_shortcut;
use wordpony::hotkey::validate_shortcut;
use wordpony::hotkey::HotkeyError;
use wordpony::repo::resolve_source;
use wordpony::repo::RepoError;
use wordpony::repo::VocabularySource;
use wordpony::repo::WordRepository;
use wordpony::search::search_words;
use wordpony::word::Word;

const NOW: i64 = 1_700_000_000;

fn make_word(id: &str, word: &str, trans: &str) -> Word {
    Word {
        id: id.to_owned(),
        word: word.to_owned(),
        trans: trans.to_owned(),
        phonetic: String::new(),
        tags: Vec::new(),
        progress: 1,
        examples: Vec::new(),
        difficulty: 5,
        last_review: None,
        mastery_level: 0,
        review_count: 0,
        created_at: 0,
        updated_at: 0,
        note: String::new(),
    }
}

fn doc_of(pairs: &[(&str, &str)]) -> String {
    let words: Vec<Word> = pairs
        .iter()
        .enumerate()
        .map(|(i, (w, t))| make_word(&format!("id{}", i), w, t))
        .collect();
    generate_xml_content(&words)
}

#[test]
fn cold_cache_yields_nothing_until_filled() {
    let repo = WordRepository::new();
    assert!(repo.load_words(&None).is_none());
}

#[test]
fn fill_installs_the_parsed_snapshot() {
    let mut repo = WordRepository::new();
    let n = repo.fill(&doc_of(&[("alpha", "first"), ("beta", "second")])).unwrap();
    assert_eq!(n, 2);
    let words = repo.load_words(&None).unwrap();
    assert_eq!(words.len(), 2);
    assert_eq!(words[0].word, "alpha");
    assert_eq!(words[1].word, "beta");
}

#[test]
fn fill_rejects_a_broken_document_and_keeps_the_snapshot() {
    let mut repo = WordRepository::new();
    repo.fill(&doc_of(&[("alpha", "first")])).unwrap();
    assert_eq!(repo.fill("<wordbook").unwrap_err(), RepoError::Load);
    let words = repo.load_words(&None).unwrap();
    assert_eq!(words.len(), 1);
    assert_eq!(words[0].word, "alpha");
}

#[test]
fn invalidation_forces_a_fresh_read_of_the_store() {
    let mut repo = WordRepository::new();
    repo.fill(&doc_of(&[("old", "stale")])).unwrap();
    assert_eq!(repo.load_words(&None).unwrap()[0].word, "old");
    // The backing store changes behind the cache; the snapshot still wins.
    let changed = doc_of(&[("new", "fresh")]);
    assert_eq!(repo.load_words(&None).unwrap()[0].word, "old");
    // After invalidation the next load must re-read the store.
    repo.clear_cache();
    assert!(repo.load_words(&None).is_none());
    repo.fill(&changed).unwrap();
    assert_eq!(repo.load_words(&None).unwrap()[0].word, "new");
}

#[test]
fn get_word_by_id_finds_exact_identifiers() {
    let mut repo = WordRepository::new();
    repo.fill(&doc_of(&[("alpha", "first")])).unwrap();
    let words = repo.load_words(&None).unwrap();
    let id = words[0].id.clone();
    assert_eq!(repo.get_word_by_id(&id).unwrap().word, "alpha");
    assert!(repo.get_word_by_id("no-such-id").is_none());
}

#[test]
fn update_progress_mutates_and_serializes_the_snapshot() {
    let mut repo = WordRepository::new();
    repo.fill(&doc_of(&[("alpha", "first")])).unwrap();
    let id = repo.load_words(&None).unwrap()[0].id.clone();
    let doc = repo.update_word_progress(&id, 9, true, NOW).unwrap();
    let after = repo.load_words(&None).unwrap();
    assert_eq!(after[0].progress, 9);
    assert_eq!(after[0].mastery_level, 10);
    assert_eq!(after[0].review_count, 1);
    assert_eq!(after[0].last_review, Some(NOW));
    // The handed-back document carries the new stage.
    assert!(doc.contains("<progress>9</progress>"));
    // An unknown identifier is a silent no-op.
    assert!(repo.update_word_progress("missing", 2, false, NOW).is_none());
    // So is a cold cache.
    let mut cold = WordRepository::new();
    assert!(cold.update_word_progress(&id, 2, false, NOW).is_none());
}

#[test]
fn mark_known_and_unknown_use_the_fixed_stages() {
    let mut repo = WordRepository::new();
    repo.fill(&doc_of(&[("alpha", "first")])).unwrap();
    let id = repo.load_words(&None).unwrap()[0].id.clone();
    repo.mark_word_known(&id, NOW).unwrap();
    let w = repo.get_word_by_id(&id).unwrap();
    assert_eq!((w.progress, w.mastery_level), (5, 10));
    repo.mark_word_unknown(&id, NOW).unwrap();
    let w = repo.get_word_by_id(&id).unwrap();
    assert_eq!((w.progress, w.mastery_level), (1, 5));
}

#[test]
fn source_resolution_takes_the_first_existing_location() {
    assert_eq!(resolve_source(true, true, true), VocabularySource::BesideExecutable);
    assert_eq!(resolve_source(false, true, true), VocabularySource::ResourcesDir);
    assert_eq!(resolve_source(false, false, true), VocabularySource::WorkingDir);
    assert_eq!(resolve_source(false, false, false), VocabularySource::DataDir);
}

#[test]
fn search_is_case_insensitive_over_all_text() {
    let mut a = make_word("a", "Closure", "captured scope");
    a.examples = vec![wordpony::word::Example {
        source: "Closures borrow.".to_owned(),
        trans: "example text".to_owned(),
    }];
    let b = make_word("b", "Heap", "allocation arena");
    let words = vec![a, b];
    let hits = search_words(&words, "CLOSURE", 10);
    assert_eq!(hits.len(), 1);
    assert_eq!(hits[0].id, "a");
    let by_trans = search_words(&words, "Arena", 10);
    assert_eq!(by_trans.len(), 1);
    assert_eq!(by_trans[0].id, "b");
    let by_example = search_words(&words, "borrow", 10);
    assert_eq!(by_example.len(), 1);
    assert_eq!(by_example[0].id, "a");
}

#[test]
fn search_puts_exact_headword_matches_first() {
    let words = vec![
        make_word("a", "pointer arithmetic", "x"),
        make_word("b", "pointer", "y"),
        make_word("c", "dangling pointer", "z"),
    ];
    let hits = search_words(&words, "pointer", 10);
    assert_eq!(hits.len(), 3);
    assert_eq!(hits[0].id, "b");
    // The rest follow in headword order.
    assert_eq!(hits[1].id, "c");
    assert_eq!(hits[2].id, "a");
}

#[test]
fn search_truncates_to_the_limit() {
    let words: Vec<Word> = (0..10)
        .map(|i| make_word(&format!("id{}", i), &format!("term{}", i), "t"))
        .collect();
    assert_eq!(search_words(&words, "term", 4).len(), 4);
    assert_eq!(search_words(&words, "term", 0).len(), 0);
}

#[test]
fn search_ranks_all_matches_before_truncating() {
    // The exact headword match sits late in the corpus; a limit of one must
    // still surface it, because ordering comes before truncation.
    let words = vec![
        make_word("a", "pointer arithmetic", "x"),
        make_word("b", "pointer decay", "y"),
        make_word("c", "pointer", "z"),
    ];
    let hits = search_words(&words, "pointer", 1);
    assert_eq!(hits.len(), 1);
    assert_eq!(hits[0].id, "c");
}

#[test]
fn shortcuts_split_into_modifiers_and_key() {
    let (mods, key) = parse_shortcut("CmdOrCtrl+Shift+W");
    assert_eq!(mods, vec!["CmdOrCtrl".to_owned(), "Shift".to_owned()]);
    assert_eq!(key, "W");
    let (mods, key) = parse_shortcut("Space");
    assert!(mods.is_empty());
    assert_eq!(key, "Space");
}

#[test]
fn shortcut_validation_checks_modifiers_and_key() {
    assert!(validate_shortcut("CmdOrCtrl+Shift+W").is_ok());
    assert!(validate_shortcut("Space").is_ok());
    assert_eq!(validate_shortcut("Foo+X"), Err(HotkeyError::BadModifier));
    assert_eq!(validate_shortcut("Ctrl+"), Err(HotkeyError::EmptyKey));
}

#[test]
fn default_hotkeys_cover_the_five_actions() {
    let hk = get_default_hotkeys();
    assert_eq!(hk.len(), 5);
    assert_eq!(hk[0], ("toggle_window".to_owned(), "CmdOrCtrl+Shift+W".to_owned()));
    assert_eq!(hk[3], ("play_pronunciation".to_owned(), "Space".to_owned()));
}
