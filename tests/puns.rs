use hardly_know_her::lexicon::{Lexicon, LoadError, ER_SOUND};
use hardly_know_her::part_of_speech::PartOfSpeech;

fn lexicon(sounds: &str, tags: &str) -> Lexicon {
    match Lexicon::load(sounds, tags) {
        Ok(l) => l,
        Err(e) => panic!("lexicon did not load: {:?}", e),
    }
}

#[test]
fn fish_has_no_pun() {
    let l = lexicon("fish\t/fɪʃ/", "fish\0N");
    assert_eq!(l.resolve("fish"), None);
}

#[test]
fn slash_before_tab_is_malformed() {
    let r = Lexicon::load("fish/\tfɪʃ/", "fish\0N");
    assert!(matches!(r, Err(LoadError::MissingSlashes { line: 1 })));
}

#[test]
fn hammer_is_gated_by_noun_tag() {
    let l = lexicon("hammer\t/hæmɝ/\nham\t/hæm/", "ham\0N");
    assert_eq!(
        l.find_homophones_after_stripping_suffix("hammer", ER_SOUND),
        vec!["ham".to_string()]
    );
    assert!(!l.qualifies("ham"));
    assert_eq!(l.resolve("hammer"), None);
}

#[test]
fn smother_gives_smith() {
    let l = lexicon("smother\t/smʌðɝ/\nsmith\t/smʌð/", "smith\0t");
    assert_eq!(l.resolve("smother"), Some("smith".to_string()));
}

#[test]
fn uppercase_smother_gives_smith() {
    let l = lexicon("smother\t/smʌðɝ/\nsmith\t/smʌð/", "smith\0t");
    assert_eq!(l.resolve("SMOTHER"), Some("smith".to_string()));
    assert_eq!(l.resolve("SMOTHER"), l.resolve("smother"));
    assert_eq!(l.resolve_normalized("SMOTHER"), None);
}

#[test]
fn smother_with_second_pronunciation() {
    let l = lexicon(
        "smother\t/smʌðɝ/\nsmother\t/smoːðər/\nsmith\t/smʌð/",
        "smith\0t",
    );
    assert_eq!(l.resolve("smother"), Some("smith".to_string()));
}

#[test]
fn non_matching_first_pronunciation_does_not_stop_search() {
    let l = lexicon(
        "smother\t/smoːðər/\nsmother\t/smʌðɝ/\nsmith\t/smʌð/",
        "smith\0t",
    );
    assert_eq!(
        l.find_homophones_after_stripping_suffix("smother", ER_SOUND),
        vec!["smith".to_string()]
    );
    assert_eq!(l.resolve("smother"), Some("smith".to_string()));
}

#[test]
fn resolve_twice_is_the_same() {
    let l = lexicon("smother\t/smʌðɝ/\nsmith\t/smʌð/", "smith\0t");
    let first = l.resolve("smother");
    let second = l.resolve("smother");
    assert_eq!(first, second);
}

#[test]
fn unknown_word_has_no_pun() {
    let l = lexicon("smother\t/smʌðɝ/\nsmith\t/smʌð/", "smith\0t");
    assert_eq!(l.resolve("zebra"), None);
    assert_eq!(l.resolve(""), None);
    assert!(l.find_homophones_after_stripping_suffix("zebra", ER_SOUND).is_empty());
}

#[test]
fn first_qualifying_candidate_wins() {
    let l = lexicon(
        "hammer\t/hæmɝ/\nham\t/hæm/\nhamm\t/hæm/\nhame\t/hæm/",
        "ham\0N\nhamm\0V\nhame\0t",
    );
    assert_eq!(
        l.find_homophones_after_stripping_suffix("hammer", ER_SOUND),
        vec!["ham".to_string(), "hamm".to_string(), "hame".to_string()]
    );
    assert_eq!(l.resolve("hammer"), Some("hamm".to_string()));
}

#[test]
fn candidates_are_not_deduplicated() {
    let l = lexicon(
        "tater\t/teɪtɝ/\ntater\t/teɪtɝ/\ntate\t/teɪt/",
        "tate\0N",
    );
    assert_eq!(
        l.find_homophones_after_stripping_suffix("Tater", ER_SOUND),
        vec!["tate".to_string(), "tate".to_string()]
    );
    assert_eq!(l.resolve("tater"), None);
}

#[test]
fn candidates_follow_pronunciation_order() {
    let l = lexicon(
        "dinner\t/dɪnɝ/\ndinner\t/dɪnɚɝ/\ndin\t/dɪn/\ndinn\t/dɪnɚ/",
        "din\0i\ndinn\0t",
    );
    assert_eq!(
        l.homophones_after_stripping_suffix("dinner", ER_SOUND),
        vec!["din".to_string(), "dinn".to_string()]
    );
    assert_eq!(l.resolve("dinner"), Some("dinn".to_string()));
}

#[test]
fn words_are_lowercased_at_load() {
    let l = lexicon("Smother\t/smʌðɝ/\nSMITH\t/smʌð/", "Smith\0t");
    assert!(l.qualifies("smith"));
    assert!(!l.qualifies("Smith"));
    assert_eq!(l.resolve("smother"), Some("smith".to_string()));
}

#[test]
fn qualifying_tags() {
    let l = lexicon("", "a\0V\nb\0t\nc\0iNpAv\nd\0");
    assert!(l.qualifies("a"));
    assert!(l.qualifies("b"));
    assert!(!l.qualifies("c"));
    assert!(!l.qualifies("d"));
    assert!(!l.qualifies("e"));
}

#[test]
fn later_tag_entry_replaces_earlier() {
    let l = lexicon("", "smith\0t\nsmith\0N");
    assert!(!l.qualifies("smith"));
}

#[test]
fn trailing_newline_is_accepted() {
    let l = lexicon("smother\t/smʌðɝ/\nsmith\t/smʌð/\n", "smith\0t\n");
    assert_eq!(l.resolve("smother"), Some("smith".to_string()));
}

#[test]
fn empty_texts_load() {
    let l = lexicon("", "");
    assert_eq!(l.resolve("smother"), None);
}

#[test]
fn missing_tab_is_reported() {
    let r = Lexicon::load("smith\t/smʌð/\nsmother /smʌðɝ/", "");
    assert!(matches!(r, Err(LoadError::MissingTab { line: 2 })));
}

#[test]
fn empty_inner_line_is_reported() {
    let r = Lexicon::load("smith\t/smʌð/\n\nham\t/hæm/", "");
    assert!(matches!(r, Err(LoadError::MissingTab { line: 2 })));
}

#[test]
fn missing_slashes_are_reported() {
    assert!(matches!(
        Lexicon::load("smith\tsmʌð", ""),
        Err(LoadError::MissingSlashes { line: 1 })
    ));
    assert!(matches!(
        Lexicon::load("smith\t/", ""),
        Err(LoadError::MissingSlashes { line: 1 })
    ));
    assert!(matches!(
        Lexicon::load("a\t/a/\nsmith\t/smʌð", ""),
        Err(LoadError::MissingSlashes { line: 2 })
    ));
}

#[test]
fn missing_delimiter_is_reported() {
    let r = Lexicon::load("", "smith\0t\nham N");
    assert!(matches!(r, Err(LoadError::MissingDelimiter { line: 2 })));
}

#[test]
fn unknown_code_is_reported() {
    let r = Lexicon::load("", "smith\0t\nHam\0NxZ");
    match r {
        Err(LoadError::UnknownCode { line, word, code }) => {
            assert_eq!(line, 2);
            assert_eq!(word, "Ham".to_string());
            assert_eq!(code, 'x');
        }
        other => panic!("unexpected: {:?}", other.err()),
    }
}

#[test]
fn pronunciation_errors_come_before_tag_errors() {
    let r = Lexicon::load("smith", "ham\0x");
    assert!(matches!(r, Err(LoadError::MissingTab { line: 1 })));
}

#[test]
fn tab_after_the_first_stays_in_the_pronunciation() {
    let l = lexicon("a\t/b\tcɝ/\nx\t/b\tc/", "x\0t");
    assert_eq!(l.resolve("a"), Some("x".to_string()));
}

#[test]
fn codes_decode() {
    let table = [
        ('N', PartOfSpeech::Noun),
        ('p', PartOfSpeech::Plural),
        ('h', PartOfSpeech::NounPhrase),
        ('V', PartOfSpeech::VerbUsuParticiple),
        ('t', PartOfSpeech::VerbTransitive),
        ('i', PartOfSpeech::VerbIntransitive),
        ('A', PartOfSpeech::Adjective),
        ('v', PartOfSpeech::Adverb),
        ('C', PartOfSpeech::Conjunction),
        ('P', PartOfSpeech::Preposition),
        ('!', PartOfSpeech::Interjection),
        ('r', PartOfSpeech::Pronoun),
        ('D', PartOfSpeech::DefiniteArticle),
        ('I', PartOfSpeech::IndefiniteArticle),
        ('o', PartOfSpeech::Nominative),
        ('e', PartOfSpeech::E),
    ];
    for (c, p) in table {
        assert_eq!(PartOfSpeech::from_code(c), Some(p));
    }
    assert_eq!(PartOfSpeech::from_code('x'), None);
    assert_eq!(PartOfSpeech::from_code('T'), None);
}
