use rhyme_finder::dictionary::{TemplateError, TemplateErrorKind, WordCollector};
use rhyme_finder::query::{split_by_plus, string2word, theme_groups, MeanStrThemes, QueryError};
use rhyme_finder::word::Word;

fn templates() -> Vec<String> {
    vec![
        "с+сло'в+о;а;у".to_string(),
        "с+сла'в+а;ы;е".to_string(),
        "г+лома'+ть;ю;ешь".to_string(),
        "п+но'в+ый;ого".to_string(),
    ]
}

fn collector() -> WordCollector {
    WordCollector::new(&templates()).unwrap()
}

#[test]
fn builds_groups_in_order() {
    let wc = collector();
    assert_eq!(wc.words_len(), 11);
    assert_eq!(wc.groups_len(), 4);
    let g = wc.group_at(2);
    assert_eq!(g.start_index, 6);
    assert_eq!(g.len, 3);
    assert_eq!(g.speech_part, "г");
    assert_eq!(g.range(), 6..9);
    assert_eq!(wc.word_at(7).src(), "ломаю");
    assert_eq!(wc.word_at(10).src(), "нового");
}

#[test]
fn adjective_like_forms_read_genitive_with_v() {
    let wc = collector();
    let w = wc.get_word("нового").unwrap();
    let expected = Word::new("но'вого", true);
    assert_eq!(w.phones(), expected.phones());
    assert_ne!(w.phones(), Word::new("но'вого", false).phones());
}

#[test]
fn template_errors() {
    assert_eq!(
        WordCollector::new(&vec!["с".to_string()]).err(),
        Some(TemplateError { group: 0, kind: TemplateErrorKind::MissingEndings })
    );
    assert_eq!(
        WordCollector::new(&vec!["с+сло'в+о".to_string(), "с+сло'в+1а".to_string()]).err(),
        Some(TemplateError { group: 1, kind: TemplateErrorKind::MissingStem })
    );
    assert_eq!(
        WordCollector::new(&vec!["с+слов+о".to_string()]).err(),
        Some(TemplateError { group: 0, kind: TemplateErrorKind::InvalidWord })
    );
}

#[test]
fn digit_selects_stem() {
    let wc = WordCollector::new(&vec!["п+но'в+нов+ый;1а'я".to_string()]).unwrap();
    assert_eq!(wc.word_at(0).src(), "новый");
    assert_eq!(wc.word_at(1).src(), "новая");
    assert_eq!(wc.word_at(1).get_primary_stress(), (0, 1));
}

#[test]
fn lookups() {
    let wc = collector();
    assert_eq!(wc.get_index("слава"), Some(3));
    assert_eq!(wc.get_index("слово"), Some(0));
    assert_eq!(wc.get_index("кот"), None);
    assert_eq!(wc.get_forms("ломаешь"), Some(2));
    assert_eq!(wc.get_forms_by_word_index(10), Some(3));
    assert_eq!(wc.get_forms_by_word_index(11), None);
    assert_eq!(wc.get_speech_part("славе").map(|s| s.as_str()), Some("с"));
    assert!(wc.get_speech_part("кот").is_none());
}

#[test]
fn lookup_gives_last_form_of_a_text() {
    let wc = WordCollector::new(&vec!["с+сло'в+о".to_string(), "с+сло'в+о;а".to_string()]).unwrap();
    assert_eq!(wc.get_index("слово"), Some(1));
    assert_eq!(wc.get_forms("слово"), Some(1));
}

#[test]
fn lookup_round_trip() {
    let wc = collector();
    for i in 0..wc.words_len() {
        let src = wc.word_at(i).src().replace('\'', "").replace('`', "");
        let found = wc.get_word(&src).unwrap();
        assert_eq!(found.src(), &src);
    }
}

#[test]
fn stress_index_selects() {
    let wc = collector();
    let q = Word::new("сла'ва", false);
    assert_eq!(
        wc.words_with_same_stresses(&q),
        vec![false, false, false, true, true, true, false, true, true, false, false]
    );
    let p = Word::new_abstract("!+");
    assert_eq!(
        wc.words_with_same_stresses(&p),
        vec![true, true, true, true, true, true, false, true, true, true, false]
    );
}

#[test]
fn query_words() {
    let wc = collector();
    let w = string2word(&wc, &"слово".to_string()).unwrap();
    assert_eq!(w.src(), "слово");
    assert_eq!(w.get_primary_stress(), (1, 1));
    assert_eq!(w.phones(), wc.word_at(0).phones());
    let w = string2word(&wc, &"СЛОВО".to_string()).unwrap();
    assert_eq!(w.phones(), wc.word_at(0).phones());
    let w = string2word(&wc, &"сло'во".to_string()).unwrap();
    assert_eq!(w.get_vowel_count(), 2);
    assert!(!w.only_stress_structure());
    let p = string2word(&wc, &"!+".to_string()).unwrap();
    assert!(p.only_stress_structure());
    assert_eq!(p.get_vowel_count(), 2);
}

#[test]
fn query_errors() {
    let wc = collector();
    let e = |s: &str| string2word(&wc, &s.to_string()).err();
    assert_eq!(e("абв"), Some(QueryError::NotFound));
    assert_eq!(e(""), Some(QueryError::NotFound));
    assert_eq!(e("'а"), Some(QueryError::StressAtStart));
    assert_eq!(e("с'лово"), Some(QueryError::StressNotAfterVowel));
    assert_eq!(e("сло'во+"), Some(QueryError::MixedPattern));
    assert_eq!(e("сло'во1"), Some(QueryError::UnknownChar('1')));
    assert_eq!(e("сло'во'"), Some(QueryError::NotAWord));
}

#[test]
fn theme_words() {
    let wc = collector();
    let strs = vec!["слово".to_string(), "слава".to_string()];
    assert_eq!(theme_groups(&wc, &strs), Ok(vec![0, 1]));
    let strs = vec!["слово".to_string(), "кот".to_string(), "пёс".to_string()];
    assert_eq!(theme_groups(&wc, &strs), Err(vec!["кот".to_string(), "пёс".to_string()]));
    assert_eq!(theme_groups(&wc, &vec![]), Err(vec![]));
}

#[test]
fn themes_by_name() {
    let themes = MeanStrThemes {
        str_themes: vec![
            ("Love".to_string(), vec!["слово".to_string()]),
            ("Art".to_string(), vec!["слава".to_string(), "слово".to_string()]),
        ],
    };
    assert_eq!(themes.get("Art"), Some(&vec!["слава".to_string(), "слово".to_string()]));
    assert_eq!(themes.get("Sea"), None);
}

#[test]
fn splitting_categories() {
    assert_eq!(split_by_plus(None), Vec::<String>::new());
    assert_eq!(split_by_plus(Some("с+г".to_string())), vec!["с".to_string(), "г".to_string()]);
    assert_eq!(split_by_plus(Some("".to_string())), vec!["".to_string()]);
    assert_eq!(split_by_plus(Some("мс-п+".to_string())), vec!["мс-п".to_string(), "".to_string()]);
}
