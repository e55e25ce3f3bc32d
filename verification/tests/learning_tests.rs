use wordpony::learning::calculate_word_priority_score;
use wordpony::learning::get_daily_words;
use wordpony::learning::get_next_word;
use wordpony::learning::get_previous_word;
use wordpony::learning::get_recommended_words;
use wordpony::learning::get_review_words;
use wordpony::settings::HotkeyConfig;
use wordpony::settings::LearningConfig;
use wordpony::settings::NotificationConfig;
use wordpony::settings::WindowSize;
use wordpony::stats::calculate_learning_stats;
use wordpony::stats::calculate_streak_days;
use wordpony::word::apply_filter;
use wordpony::word::Word;
use wordpony::word::WordFilter;

const HOUR: i64 = 3600;
const DAY: i64 = 24 * HOUR;
const NOW: i64 = 1_700_000_000;

fn make_word(id: &str, word: &str) -> Word {
    Word {
        id: id.to_owned(),
        word: word.to_owned(),
        trans: String::new(),
        phonetic: String::new(),
        tags: Vec::new(),
        progress: 1,
        examples: Vec::new(),
        difficulty: 5,
        last_review: None,
        mastery_level: 0,
        review_count: 0,
        created_at: 0,
        updated_at: 0,
        note: String::new(),
    }
}

fn ids(words: &[Word]) -> Vec<String> {
    words.iter().map(|w| w.id.clone()).collect()
}

#[test]
fn update_progress_moves_mastery_by_ten_and_five() {
    let mut w = make_word("i", "w");
    w.update_progress(5, true, NOW);
    assert_eq!(w.mastery_level, 10);
    assert_eq!(w.review_count, 1);
    assert_eq!(w.progress, 5);
    assert_eq!(w.last_review, Some(NOW));
    assert_eq!(w.updated_at, NOW);
    w.update_progress(5, false, NOW + 1);
    assert_eq!(w.mastery_level, 5);
    assert_eq!(w.review_count, 2);
}

#[test]
fn mastery_stays_inside_its_bounds() {
    let mut w = make_word("i", "w");
    for _ in 0..3 {
        w.update_progress(1, false, NOW);
        assert_eq!(w.mastery_level, 0);
    }
    for k in 0..25 {
        w.update_progress(5, true, NOW + k);
        assert!(w.mastery_level <= 100);
    }
    assert_eq!(w.mastery_level, 100);
    w.update_progress(5, true, NOW);
    assert_eq!(w.mastery_level, 100);
    w.update_progress(5, false, NOW);
    assert_eq!(w.mastery_level, 95);
}

#[test]
fn due_bands_follow_mastery() {
    let mut low = make_word("a", "w");
    low.mastery_level = 15;
    low.last_review = Some(NOW - 2 * HOUR);
    assert!(low.is_due_for_review(NOW));
    low.last_review = Some(NOW - 30 * 60);
    assert!(!low.is_due_for_review(NOW));

    let mut high = make_word("b", "v");
    high.mastery_level = 90;
    high.last_review = Some(NOW - 2 * DAY);
    assert!(!high.is_due_for_review(NOW));
    high.last_review = Some(NOW - 3 * DAY);
    assert!(high.is_due_for_review(NOW));
    // A record never reviewed is always due.
    let fresh = make_word("c", "u");
    assert!(fresh.is_due_for_review(NOW));
}

#[test]
fn next_review_time_adds_the_band_interval() {
    let mut w = make_word("a", "w");
    assert_eq!(w.get_next_review_time(), None);
    w.mastery_level = 15;
    w.last_review = Some(1000);
    assert_eq!(w.get_next_review_time(), Some(1000 + HOUR));
    w.mastery_level = 30;
    assert_eq!(w.get_next_review_time(), Some(1000 + 4 * HOUR));
    w.mastery_level = 50;
    assert_eq!(w.get_next_review_time(), Some(1000 + 12 * HOUR));
    w.mastery_level = 70;
    assert_eq!(w.get_next_review_time(), Some(1000 + DAY));
    w.mastery_level = 90;
    assert_eq!(w.get_next_review_time(), Some(1000 + 3 * DAY));
}

#[test]
fn never_reviewed_word_scores_exactly() {
    // In hundredths: 0.4*(100-0) + 50 (due) + 0.2*10 + 50 (never reviewed)
    // comes to 142.00, times the medium-difficulty factor 1.0.
    let w = make_word("a", "w");
    assert_eq!(calculate_word_priority_score(&w, NOW), 14200);
    // An easy word is damped to 0.8.
    let mut easy = make_word("b", "v");
    easy.difficulty = 2;
    assert_eq!(calculate_word_priority_score(&easy, NOW), 11360);
    // A hard word is damped to 0.9.
    let mut hard = make_word("c", "u");
    hard.difficulty = 9;
    assert_eq!(calculate_word_priority_score(&hard, NOW), 12780);
}

#[test]
fn lower_mastery_ranks_no_lower() {
    let mut a = make_word("a", "w");
    a.mastery_level = 10;
    let mut b = make_word("b", "v");
    b.mastery_level = 90;
    assert!(calculate_word_priority_score(&a, NOW) >= calculate_word_priority_score(&b, NOW));
}

#[test]
fn filter_keeps_exactly_the_band() {
    let mut words = Vec::new();
    for (i, d) in [1u8, 4, 5, 6, 9].iter().enumerate() {
        let mut w = make_word(&format!("id{}", i), &format!("w{}", i));
        w.difficulty = *d;
        words.push(w);
    }
    let filter = WordFilter {
        tags: None,
        difficulty_min: Some(4),
        difficulty_max: Some(6),
        mastery_min: None,
        mastery_max: None,
        progress_min: None,
        progress_max: None,
        search_text: None,
    };
    let kept = apply_filter(&words, &filter);
    let got: Vec<u8> = kept.iter().map(|w| w.difficulty).collect();
    assert_eq!(got, vec![4, 5, 6]);
}

#[test]
fn filter_matches_tags_and_text() {
    let mut a = make_word("a", "Binary");
    a.tags = vec!["cs".to_owned()];
    a.trans = "two-valued".to_owned();
    let b = make_word("b", "other");
    let words = vec![a, b];
    let by_tag = WordFilter {
        tags: Some(vec!["cs".to_owned()]),
        difficulty_min: None,
        difficulty_max: None,
        mastery_min: None,
        mastery_max: None,
        progress_min: None,
        progress_max: None,
        search_text: None,
    };
    assert_eq!(ids(&apply_filter(&words, &by_tag)), vec!["a".to_owned()]);
    let by_text = WordFilter {
        tags: None,
        difficulty_min: None,
        difficulty_max: None,
        mastery_min: None,
        mastery_max: None,
        progress_min: None,
        progress_max: None,
        search_text: Some("BINARY".to_owned()),
    };
    assert_eq!(ids(&apply_filter(&words, &by_text)), vec!["a".to_owned()]);
}

#[test]
fn navigation_wraps_around() {
    let list = vec![make_word("a", "A"), make_word("b", "B"), make_word("c", "C")];
    assert_eq!(get_next_word(&list, Some("c")).unwrap().id, "a");
    assert_eq!(get_next_word(&list, Some("a")).unwrap().id, "b");
    assert_eq!(get_next_word(&list, None).unwrap().id, "a");
    assert_eq!(get_next_word(&list, Some("missing")).unwrap().id, "a");
    assert_eq!(get_previous_word(&list, Some("a")).unwrap().id, "c");
    assert_eq!(get_previous_word(&list, Some("b")).unwrap().id, "a");
    assert_eq!(get_previous_word(&list, None).unwrap().id, "c");
    let empty: Vec<Word> = Vec::new();
    assert!(get_next_word(&empty, None).is_none());
    assert!(get_previous_word(&empty, None).is_none());
}

#[test]
fn smart_mode_sorts_by_score() {
    let mut a = make_word("a", "A");
    a.mastery_level = 90;
    a.last_review = Some(NOW - 10 * DAY);
    let mut b = make_word("b", "B");
    b.mastery_level = 0;
    let mut c = make_word("c", "C");
    c.mastery_level = 40;
    c.last_review = Some(NOW - 10 * DAY);
    let words = vec![a, b, c];
    let config = LearningConfig::default();
    let rec = get_recommended_words(&words, &config, NOW);
    let scores: Vec<i64> = rec.iter().map(|w| calculate_word_priority_score(w, NOW)).collect();
    for pair in scores.windows(2) {
        assert!(pair[0] >= pair[1]);
    }
    assert_eq!(rec.len(), 3);
    assert_eq!(rec[0].id, "b");
}

#[test]
fn sequential_mode_keeps_corpus_order() {
    let words = vec![make_word("a", "A"), make_word("b", "B"), make_word("c", "C")];
    let mut config = LearningConfig::default();
    config.review_mode = "sequential".to_owned();
    assert_eq!(ids(&get_recommended_words(&words, &config, NOW)), vec!["a", "b", "c"]);
}

#[test]
fn random_mode_keeps_the_same_records() {
    let words: Vec<Word> = (0..20).map(|i| make_word(&format!("id{}", i), "w")).collect();
    let mut config = LearningConfig::default();
    config.review_mode = "random".to_owned();
    let rec = get_recommended_words(&words, &config, NOW);
    let mut got = ids(&rec);
    got.sort();
    let mut expect = ids(&words);
    expect.sort();
    assert_eq!(got, expect);
}

#[test]
fn difficulty_preference_filters_the_list() {
    let mut words = Vec::new();
    for (i, d) in [1u8, 3, 5, 7, 10].iter().enumerate() {
        let mut w = make_word(&format!("id{}", i), "w");
        w.difficulty = *d;
        words.push(w);
    }
    let mut config = LearningConfig::default();
    config.review_mode = "sequential".to_owned();
    config.difficulty_preference = "easy".to_owned();
    let easy: Vec<u8> = get_recommended_words(&words, &config, NOW).iter().map(|w| w.difficulty).collect();
    assert_eq!(easy, vec![1, 3]);
    config.difficulty_preference = "medium".to_owned();
    let medium: Vec<u8> = get_recommended_words(&words, &config, NOW).iter().map(|w| w.difficulty).collect();
    assert_eq!(medium, vec![3, 5, 7]);
    config.difficulty_preference = "hard".to_owned();
    let hard: Vec<u8> = get_recommended_words(&words, &config, NOW).iter().map(|w| w.difficulty).collect();
    assert_eq!(hard, vec![7, 10]);
}

#[test]
fn daily_words_take_the_goal_prefix() {
    let words: Vec<Word> = (0..5).map(|i| make_word(&format!("id{}", i), "w")).collect();
    assert_eq!(get_daily_words(&words, 3).len(), 3);
    assert_eq!(get_daily_words(&words, 9).len(), 5);
    assert_eq!(ids(&get_daily_words(&words, 2)), vec!["id0", "id1"]);
}

#[test]
fn review_words_are_the_due_ones() {
    let mut a = make_word("a", "A");
    a.mastery_level = 90;
    a.last_review = Some(NOW - HOUR);
    let b = make_word("b", "B");
    let due = get_review_words(&vec![a, b], NOW);
    assert_eq!(ids(&due), vec!["b"]);
}

#[test]
fn stats_aggregate_the_corpus() {
    let mut a = make_word("a", "A");
    a.mastery_level = 85;
    a.review_count = 4;
    let mut b = make_word("b", "B");
    b.mastery_level = 60;
    b.review_count = 6;
    let c = make_word("c", "C");
    let words = vec![a, b, c];
    let no_days: Vec<Option<i32>> = vec![None, None, None];
    let stats = calculate_learning_stats(&words, &no_days, &no_days, 20, 1000);
    assert_eq!(stats.total_words, 3);
    assert_eq!(stats.learned_words, 2);
    assert_eq!(stats.mastered_words, 1);
    assert_eq!(stats.total_reviews, 10);
    assert_eq!(stats.correct_reviews, 10);
    assert_eq!(stats.mastery_sum, 145);
    assert_eq!(stats.daily_goal, 20);
    assert_eq!(stats.daily_progress, 0);
    assert_eq!(stats.streak_days, 0);
    assert_eq!(stats.total_time_spent, 300);
}

#[test]
fn streak_counts_consecutive_days_back_from_today() {
    let days = vec![Some(100), Some(99), Some(97)];
    assert_eq!(calculate_streak_days(&days, 100), 2);
    assert_eq!(calculate_streak_days(&days, 97), 1);
    // No activity today means no streak.
    assert_eq!(calculate_streak_days(&days, 101), 0);
    let empty: Vec<Option<i32>> = Vec::new();
    assert_eq!(calculate_streak_days(&empty, 100), 0);
}

#[test]
fn defaults_match_the_shipped_configuration() {
    let lc = LearningConfig::default();
    assert_eq!(lc.daily_goal, 20);
    assert_eq!(lc.review_mode, "smart");
    assert_eq!(lc.difficulty_preference, "mixed");
    assert!(lc.auto_next && lc.show_pronunciation && lc.show_examples);
    let ws = WindowSize::default();
    assert_eq!((ws.width, ws.height), (320, 568));
    assert_eq!(ws.ratio_preset, "phone");
    let hk = HotkeyConfig::default();
    assert_eq!(hk.toggle_window, "CmdOrCtrl+Shift+W");
    let nc = NotificationConfig::default();
    assert_eq!(nc.reminder_interval, 60);
}

#[test]
fn window_presets_apply_by_name() {
    let presets = WindowSize::get_preset_sizes();
    assert_eq!(presets.len(), 4);
    assert_eq!(presets[3], ("widescreen", 480, 270));
    let mut ws = WindowSize::default();
    ws.apply_preset("golden");
    assert_eq!((ws.width, ws.height), (400, 250));
    assert_eq!(ws.ratio_preset, "golden");
    ws.apply_preset("unknown");
    assert_eq!((ws.width, ws.height), (400, 250));
}

#[test]
fn word_new_mints_a_fresh_id() {
    let a = Word::new("alpha".to_owned(), "first".to_owned(), String::new(), NOW);
    let b = Word::new("beta".to_owned(), "second".to_owned(), String::new(), NOW);
    assert_eq!(a.id.len(), 36);
    assert_eq!(b.id.len(), 36);
    assert_ne!(a.id, b.id);
    assert_eq!(a.word, "alpha");
    assert_eq!(a.progress, 1);
    assert_eq!(a.difficulty, 5);
    assert_eq!(a.created_at, NOW);
    assert_eq!(a.updated_at, NOW);
}
