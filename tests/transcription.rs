use rhyme_finder::transcription::transcript;
use rhyme_finder::word::Word;
use std::time::Instant;

#[test]
fn j_replace_check() {
    assert_eq!(transcript("а'+", false), "а'+");
    assert_eq!(transcript("Я", false), "йа");
    assert_eq!(transcript("Митя Ляпин", false), "м^ит^а л^апин");
    assert_eq!(transcript("Митя Льяпин", false), "м^ит^а л^йапин");
    assert_eq!(transcript("Енёня`яя", false), "йэн^о'н^а`йайа");
    assert_eq!(transcript("миньо'н", false), "м^ин^йо'н");
    assert_eq!(transcript("бабузжка", false), "п*ап*ус*шка");
    assert_eq!(transcript("гро'б", false), "к*ро'п");
    assert_eq!(transcript("до'ждь", false), "т*о'шт^");
    assert_eq!(transcript("его", true), "йэф*о");
    assert_eq!(transcript("кроманьо'нец", false), "краман^йо'н^этс");
    assert_eq!(transcript("Ёжик", false), "йо'ш*ик");
}

#[test]
fn testing() {
    let current = Instant::now();
    transcript("кроманьонец", false);
    transcript("Енёня`яя", false);
    println!("Transcripted\t in {:#?} seconds", current.elapsed());
    println!("{}", std::mem::size_of::<rhyme_finder::phoneme::Vowel>());
    println!("{}", std::mem::size_of::<rhyme_finder::phoneme::Consonant>());
}

#[test]
fn transcript_is_repeatable() {
    for w in ["кроманьо'нец", "Енёня`яя", "до'ждь", "", "его"] {
        assert_eq!(transcript(w, false), transcript(w, false));
        assert_eq!(transcript(w, true), transcript(w, true));
    }
}

#[test]
fn transcript_empty_and_adjective_ending() {
    assert_eq!(transcript("", false), "");
    assert_eq!(transcript("но'вого", true), "но'ф*аф*о");
    assert_eq!(transcript("но'вого", false), "но'ф*ак*о");
    assert_eq!(transcript("си'него", true), "с^и'н^эф*о");
}

#[test]
fn transcript_letters_and_devoicing() {
    assert_eq!(transcript("щу'ка", false), "ш^у'ка");
    assert_eq!(transcript("подъе'зд", false), "пат*йэ'ст");
    assert_eq!(transcript("ло'дка", false), "ло'тка");
    assert_eq!(transcript("ца'рь", false), "тса'р^");
}

#[test]
fn check_stress() {
    assert_eq!(Word::new("ещё", false).get_stresses().0, 1);
    assert_eq!(Word::new("лома'ть", false).get_stresses().0, 1);
    assert_eq!(Word::new("ско'лько", false).get_stresses().0, 0);
}

#[test]
fn check_consonant_iterator() {
    let w = Word::new("ныро'д", false);
    let mut iter = w.splitted_consonants_rev().into_iter();
    assert_eq!(iter.next(), Some((4, 1)));
    assert_eq!(iter.next(), Some((2, 1)));
    assert_eq!(iter.next(), Some((0, 1)));
    assert_eq!(iter.next(), None);
    let w = Word::new("узлы", false);
    let mut iter = w.splitted_consonants_rev().into_iter();
    assert_eq!(iter.next(), Some((4, 0)));
    assert_eq!(iter.next(), Some((1, 2)));
    assert_eq!(iter.next(), Some((0, 0)));
    assert_eq!(iter.next(), None);
}
