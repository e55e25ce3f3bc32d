use wordpony::clean::clean_html_tags;
use wordpony::codec::generate_xml_content;
use wordpony::codec::parse_xml_content;
use wordpony::codec::CodecError;
use wordpony::repo::default_document;
use wordpony::word::Example;
use wordpony::word::Word;

fn make_word(word: &str, trans: &str) -> Word {
    Word {
        id: String::new(),
        word: word.to_owned(),
        trans: trans.to_owned(),
        phonetic: String::new(),
        tags: Vec::new(),
        progress: 1,
        examples: Vec::new(),
        difficulty: 5,
        last_review: None,
        mastery_level: 0,
        review_count: 0,
        created_at: 0,
        updated_at: 0,
        note: String::new(),
    }
}

#[test]
fn default_document_is_the_empty_wordbook() {
    assert_eq!(
        default_document(),
        "<?xml version=\"1.0\" encoding=\"UTF-8\"?>\n<wordbook>\n</wordbook>\n"
    );
}

#[test]
fn empty_document_parses_to_no_records() {
    let words = parse_xml_content(&default_document()).unwrap();
    assert_eq!(words.len(), 0);
}

#[test]
fn round_trip_keeps_every_content_field() {
    let mut w1 = make_word("closure", "a function plus its environment");
    w1.phonetic = "kloh-zher".to_owned();
    w1.note = "common in functional code".to_owned();
    w1.tags = vec!["programming".to_owned()];
    w1.progress = 7;
    w1.examples = vec![Example {
        source: "The closure captures the counter.".to_owned(),
        trans: "the counter lives inside it".to_owned(),
    }];
    let mut w2 = make_word("escape & <markup> \"quoted\"", "kept as text");
    w2.progress = 255;
    let words = vec![w1, w2];
    let doc = generate_xml_content(&words);
    let back = parse_xml_content(&doc).unwrap();
    assert_eq!(back.len(), 2);
    assert_eq!(back[0].word, "closure");
    assert_eq!(back[0].trans, "a function plus its environment");
    assert_eq!(back[0].phonetic, "kloh-zher");
    assert_eq!(back[0].note, "common in functional code");
    assert_eq!(back[0].tags, vec!["programming".to_owned()]);
    assert_eq!(back[0].progress, 7);
    assert_eq!(back[0].examples.len(), 1);
    assert_eq!(back[0].examples[0].source, "The closure captures the counter.");
    assert_eq!(back[0].examples[0].trans, "the counter lives inside it");
    assert_eq!(back[1].word, "escape & <markup> \"quoted\"");
    assert_eq!(back[1].trans, "kept as text");
    assert_eq!(back[1].progress, 255);
    // Identifiers and timestamps are minted fresh on parse.
    assert_eq!(back[0].id.len(), 36);
    assert_eq!(back[0].mastery_level, 0);
    assert_eq!(back[0].review_count, 0);
    assert!(back[0].last_review.is_none());
}

#[test]
fn parsed_records_get_fresh_distinct_ids() {
    let words = vec![make_word("a", "x"), make_word("b", "y")];
    let doc = generate_xml_content(&words);
    let back = parse_xml_content(&doc).unwrap();
    assert_eq!(back[0].id.len(), 36);
    assert_eq!(back[1].id.len(), 36);
    assert_ne!(back[0].id, back[1].id);
}

#[test]
fn unterminated_tag_is_a_syntax_error() {
    assert_eq!(parse_xml_content("<wordbook").unwrap_err(), CodecError::Syntax);
}

#[test]
fn unterminated_cdata_is_a_syntax_error() {
    let doc = "<wordbook><item><trans><![CDATA[oops</trans></item></wordbook>";
    assert_eq!(parse_xml_content(doc).unwrap_err(), CodecError::Syntax);
}

#[test]
fn comments_and_doctype_are_skipped() {
    let doc = "<!DOCTYPE wordbook>\n<wordbook><!-- a note to editors -->\
               <item><word>w</word><!--inline--><trans>t</trans></item></wordbook>";
    let back = parse_xml_content(doc).unwrap();
    assert_eq!(back.len(), 1);
    assert_eq!(back[0].word, "w");
    assert_eq!(back[0].trans, "t");
}

#[test]
fn unterminated_comment_is_a_syntax_error() {
    assert_eq!(parse_xml_content("<wordbook><!-- lost</wordbook>").unwrap_err(), CodecError::Syntax);
    assert_eq!(parse_xml_content("<!DOCTYPE wordbook").unwrap_err(), CodecError::Syntax);
}

#[test]
fn bad_progress_defaults_to_one() {
    let doc = "<wordbook><item><word>w</word><progress>abc</progress></item>\
               <item><word>v</word><progress>300</progress></item>\
               <item><word>u</word><progress>42</progress></item>\
               <item><word>t</word><progress>+7</progress></item>\
               <item><word>s</word><progress>-7</progress></item></wordbook>";
    let back = parse_xml_content(doc).unwrap();
    assert_eq!(back[0].progress, 1);
    assert_eq!(back[1].progress, 1);
    assert_eq!(back[2].progress, 42);
    // A leading plus sign is accepted; a minus sign is not a stage number.
    assert_eq!(back[3].progress, 7);
    assert_eq!(back[4].progress, 1);
}

#[test]
fn missing_fields_fall_back_to_defaults() {
    let doc = "<wordbook><item><word>bare</word></item></wordbook>";
    let back = parse_xml_content(doc).unwrap();
    assert_eq!(back.len(), 1);
    assert_eq!(back[0].word, "bare");
    assert_eq!(back[0].trans, "");
    assert_eq!(back[0].progress, 1);
    assert_eq!(back[0].difficulty, 5);
    assert!(back[0].tags.is_empty());
    assert!(back[0].examples.is_empty());
}

#[test]
fn text_is_decoded_in_two_passes() {
    let doc = "<wordbook><item><word>x</word>\
               <trans>&amp;lt;b&amp;gt;bold&amp;lt;/b&amp;gt; term</trans>\
               </item></wordbook>";
    let back = parse_xml_content(doc).unwrap();
    // The double-encoded tags decode to real tags, which the cleanup strips.
    assert_eq!(back[0].trans, "bold term");
}

#[test]
fn clean_decodes_strips_collapses_and_trims() {
    assert_eq!(clean_html_tags("  <p>a &amp; b</p>\t<br/> c  "), "a & b c");
    assert_eq!(clean_html_tags("&lt;i&gt;x&lt;/i&gt;"), "x");
    assert_eq!(clean_html_tags("one&nbsp;two"), "one two");
    assert_eq!(clean_html_tags("mark &copy; here"), "mark © here");
}

#[test]
fn clean_cuts_at_the_note_marker() {
    assert_eq!(clean_html_tags("primary sense 说明：a long aside"), "primary sense");
}

#[test]
fn clean_collapses_all_whitespace_kinds() {
    assert_eq!(clean_html_tags("a\u{A0}\u{A0}b"), "a b");
    assert_eq!(clean_html_tags("\u{3000}x\u{2003}y\u{000C}"), "x y");
}

#[test]
fn clean_keeps_unmatched_angle_bracket() {
    assert_eq!(clean_html_tags("3 < 4"), "3 < 4");
}

#[test]
fn unknown_and_numeric_references_pass_through() {
    assert_eq!(clean_html_tags("a &bogus; b"), "a &bogus; b");
    assert_eq!(clean_html_tags("code &#65; point"), "code &#65; point");
}

#[test]
fn clean_is_idempotent_on_ordinary_text() {
    let samples = [
        "plain words",
        "  <b>bold</b> &amp; more  ",
        "a &lt;tag&gt; in text 说明：aside",
        "spaced\t\tout\nlines",
        "",
    ];
    for s in samples {
        let once = clean_html_tags(s);
        let twice = clean_html_tags(&once);
        assert_eq!(twice, once);
    }
}

#[test]
fn declaration_and_whitespace_are_skipped() {
    let doc = "<?xml version=\"1.0\"?>\n<wordbook>\n  <item>\n    <word> spaced </word>\n  </item>\n</wordbook>\n";
    let back = parse_xml_content(doc).unwrap();
    assert_eq!(back.len(), 1);
    assert_eq!(back[0].word, "spaced");
}

#[test]
fn self_closing_elements_are_ignored() {
    let doc = "<wordbook><item><word>w</word><extra/></item></wordbook>";
    let back = parse_xml_content(doc).unwrap();
    assert_eq!(back.len(), 1);
    assert_eq!(back[0].word, "w");
}
