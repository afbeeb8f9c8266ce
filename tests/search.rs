use rhyme_finder::dictionary::WordCollector;
use rhyme_finder::metric::{measure_plan, speech_part_match, stress_match, SpeechPartMatch, StressMatch};
use rhyme_finder::phoneme::{find_u8, Accent, Consonant, Phonable, Vowel};
use rhyme_finder::query::string2word;
use rhyme_finder::ranking::{Scored, TopNHeap};
use rhyme_finder::word::Word;

fn collector() -> WordCollector {
    WordCollector::new(&vec![
        "с+сло'в+о;а;у".to_string(),
        "с+сла'в+а;ы;е".to_string(),
        "г+лома'+ть;ю;ешь".to_string(),
        "п+но'в+ый;ого".to_string(),
    ])
    .unwrap()
}

fn scores() -> Vec<(u64, u64)> {
    vec![(5, 50), (3, 30), (4, 40), (1, 10), (2, 20), (1, 15), (9, 90), (8, 80), (7, 70), (6, 60), (6, 65)]
}

fn s(key: u64, group: usize, word: usize) -> Scored {
    Scored { key, group, word }
}

#[test]
fn ranks_best_member_of_each_group() {
    let wc = collector();
    let q = Word::new("сло'во", false);
    let r = wc.find_best(&q, &vec![], false, &scores(), 100);
    assert_eq!(r, vec![s(10, 1, 3), s(30, 0, 1), s(60, 3, 9), s(70, 2, 8)]);
}

#[test]
fn top_n_bounds() {
    let wc = collector();
    let q = Word::new("сло'во", false);
    assert_eq!(wc.find_best(&q, &vec![], false, &scores(), 0), vec![]);
    assert_eq!(wc.find_best(&q, &vec![], false, &scores(), 2), vec![s(10, 1, 3), s(30, 0, 1)]);
    assert_eq!(wc.find_best(&q, &vec![], false, &scores(), 4).len(), 4);
    assert_eq!(wc.find_best(&q, &vec![], false, &scores(), 5).len(), 4);
}

#[test]
fn repeated_search_is_identical() {
    let wc = collector();
    let q = Word::new("сла'ва", false);
    for n in 0..6 {
        let a = wc.find_best(&q, &vec!["п".to_string()], true, &scores(), n);
        let b = wc.find_best(&q, &vec!["п".to_string()], true, &scores(), n);
        assert_eq!(a, b);
    }
}

#[test]
fn excluded_categories_never_ranked() {
    let wc = collector();
    let q = Word::new("сло'во", false);
    let r = wc.find_best(&q, &vec!["г".to_string()], false, &scores(), 100);
    assert_eq!(r, vec![s(10, 1, 3), s(30, 0, 1), s(60, 3, 9)]);
    for x in &r {
        assert_ne!(wc.group_at(x.group).speech_part, "г");
    }
}

#[test]
fn stress_restriction_filters_members() {
    let wc = collector();
    let q = Word::new("сла'ва", false);
    let r = wc.find_best(&q, &vec![], true, &scores(), 100);
    assert_eq!(r, vec![s(10, 1, 3), s(70, 2, 8)]);
}

#[test]
fn equal_keys_go_to_earlier_group() {
    let wc = collector();
    let q = Word::new("сло'во", false);
    let sc = vec![(1, 7), (1, 7), (1, 7), (1, 7), (1, 7), (1, 7), (1, 3), (1, 3), (1, 3), (1, 7), (1, 7)];
    let r = wc.find_best(&q, &vec![], false, &sc, 3);
    assert_eq!(r, vec![s(3, 2, 6), s(7, 0, 0), s(7, 1, 3)]);
}

#[test]
fn bounded_selection() {
    let mut h = TopNHeap::new(2);
    h.push(s(5, 0, 0));
    h.push(s(3, 1, 1));
    h.push(s(4, 2, 2));
    h.push(s(9, 3, 3));
    assert_eq!(h.into_sorted_vec(), vec![s(3, 1, 1), s(4, 2, 2)]);
    let mut h = TopNHeap::new(0);
    h.push(s(1, 0, 0));
    assert_eq!(h.into_sorted_vec(), vec![]);
}

#[test]
fn self_lookup_then_plan() {
    let wc = collector();
    let w = string2word(&wc, &"слово".to_string()).unwrap();
    let d = wc.word_at(0);
    let p = measure_plan(&w, d);
    assert!(!p.swapped);
    assert!(!p.pattern_mode);
    assert!(!p.cons_end_differs);
    assert_eq!(p.vowel_count_diff, 0);
    assert_eq!(p.stress_matches, vec![StressMatch::Unstressed, StressMatch::Strict]);
    assert_eq!(p.cluster_lengths, vec![(0, 0), (1, 1), (2, 2)]);
}

#[test]
fn plan_reorders_by_vowel_count() {
    let a = Word::new("сло'во", false);
    let b = Word::new("лома'ешь", false);
    let forward = measure_plan(&a, &b);
    let backward = measure_plan(&b, &a);
    assert!(!forward.swapped);
    assert!(backward.swapped);
    assert_eq!(forward.shorter_vowel_count, 2);
    assert_eq!(forward.vowel_count_diff, 1);
    assert_eq!(forward.vowel_pairs, backward.vowel_pairs);
    assert_eq!(forward.stress_matches, backward.stress_matches);
    assert_eq!(forward.cluster_lengths, backward.cluster_lengths);
    assert_eq!(forward.cons_end_differs, backward.cons_end_differs);
    assert!(forward.cons_end_differs);
    assert_eq!(forward.vowel_count_diff, backward.vowel_count_diff);
    let (x, y) = Word::get_sorted_by_sylls(&b, &a);
    assert_eq!(x.src(), "слово");
    assert_eq!(y.src(), "ломаешь");
}

#[test]
fn pattern_needs_same_vowel_count() {
    let p = Word::new_abstract("!+");
    let two = Word::new("сло'во", false);
    let three = Word::new("лома'ешь", false);
    let a = measure_plan(&p, &two);
    assert!(a.pattern_mode);
    assert!(!a.syllable_mismatch);
    assert_eq!(a.stress_matches, vec![StressMatch::Unstressed, StressMatch::Strict]);
    let b = measure_plan(&p, &three);
    assert!(b.pattern_mode);
    assert!(b.syllable_mismatch);
}

#[test]
fn stress_classes() {
    let (n, p, s) = (Accent::NoAccent, Accent::Primary, Accent::Secondary);
    assert_eq!(stress_match(n, n), StressMatch::Unstressed);
    assert_eq!(stress_match(n, p), StressMatch::BadRhythm);
    assert_eq!(stress_match(p, n), StressMatch::BadRhythm);
    assert_eq!(stress_match(s, n), StressMatch::Loose);
    assert_eq!(stress_match(s, s), StressMatch::Loose);
    assert_eq!(stress_match(p, s), StressMatch::Strict);
    assert_eq!(stress_match(p, p), StressMatch::Strict);
}

#[test]
fn word_views() {
    let w = Word::new("лома'ешь", false);
    assert_eq!(w.get_vowel_count(), 3);
    assert_eq!(w.get_phones_count(), 7);
    assert!(w.has_cons_end());
    assert_eq!(w.get_primary_stress(), (0, 1));
    assert_eq!(w.get_all_stresses(), vec![(0, 1)]);
    let v: Vec<u8> = w.vowels_from_end().iter().map(|v| v.letter).collect();
    assert_eq!(v, vec![2, 0, 0]);
    let e = Word::new("Енёня`яя", false);
    assert_eq!(e.get_all_stresses(), vec![(0, 2), (1, 3)]);
    assert_eq!(e.get_stresses(), (1, Some(2)));
    assert!(Word::try_new("слово", false).is_none());
    assert!(Word::try_new("сло'во", false).is_some());
    assert!(Word::try_new("с лово", false).is_none());
}

#[test]
fn phone_classes() {
    assert!(Vowel::contains_char(&'ы'));
    assert!(!Vowel::contains_char(&'р'));
    assert!(Consonant::contains_char(&'й'));
    assert!(!Consonant::contains_char(&'а'));
    assert_eq!(find_u8('у', &['а', 'о', 'э', 'и', 'ы', 'у', '!', '+']), 5);
    assert_eq!(find_u8('р', &['р', 'л', 'р']), 0);
}

#[test]
fn speech_part_bonus() {
    assert_eq!(speech_part_match(None, "г"), SpeechPartMatch::Unknown);
    assert_eq!(speech_part_match(Some("г"), "г"), SpeechPartMatch::Verb);
    assert_eq!(speech_part_match(Some("с"), "с"), SpeechPartMatch::Noun);
    assert_eq!(speech_part_match(Some("п"), "п"), SpeechPartMatch::Adjective);
    assert_eq!(speech_part_match(Some("н"), "н"), SpeechPartMatch::Adverb);
    assert_eq!(speech_part_match(Some("г"), "с"), SpeechPartMatch::Other);
    assert_eq!(speech_part_match(Some("мс"), "мс"), SpeechPartMatch::Other);
    assert_eq!(speech_part_match(Some("ч"), "ч"), SpeechPartMatch::Other);
}
