use vstd::prelude::*;

verus! {

/// Stress carried by a vowel.
#[derive(Debug, Clone, Copy, PartialEq, Eq, Structural)]
pub enum Accent {
    NoAccent,
    Primary,
    Secondary,
}

/// Index of the "any stressed vowel" pattern letter among the vowel classes.
pub const ANY_STRESSED: u8 = 6;

/// Index of the "any vowel" pattern letter among the vowel classes.
pub const ANY_VOWEL: u8 = 7;

/// Index of the glide consonant `й` among the consonant classes.
pub const GLIDE: u8 = 12;

/// A vowel: its class (an index into `а о э и ы у ! +`) and its stress.
#[derive(Debug, Clone, Copy, PartialEq, Eq, Structural)]
pub struct Vowel {
    pub letter: u8,
    pub accent: Accent,
}

/// A consonant: its class (an index into `р л н м п т к с х ш ч ф й`), voicing and palatalization.
#[derive(Debug, Clone, Copy, PartialEq, Eq, Structural)]
pub struct Consonant {
    pub letter: u8,
    pub voiced: bool,
    pub palatalized: bool,
}

/// One sound of a transcribed word.
#[derive(Debug, Clone, Copy, PartialEq, Eq, Structural)]
pub enum Phone {
    Vowel(Vowel),
    Consonant(Consonant),
}

/// The vowel class of a transcription letter, if it is a vowel letter.
pub open spec fn vowel_class(c: char) -> Option<u8> {
    if c == 'а' {
        Some(0u8)
    } else if c == 'о' {
        Some(1u8)
    } else if c == 'э' {
        Some(2u8)
    } else if c == 'и' {
        Some(3u8)
    } else if c == 'ы' {
        Some(4u8)
    } else if c == 'у' {
        Some(5u8)
    } else if c == '!' {
        Some(6u8)
    } else if c == '+' {
        Some(7u8)
    } else {
        None
    }
}

/// The consonant class of a transcription letter, if it is a consonant letter.
pub open spec fn consonant_class(c: char) -> Option<u8> {
    if c == 'р' {
        Some(0u8)
    } else if c == 'л' {
        Some(1u8)
    } else if c == 'н' {
        Some(2u8)
    } else if c == 'м' {
        Some(3u8)
    } else if c == 'п' {
        Some(4u8)
    } else if c == 'т' {
        Some(5u8)
    } else if c == 'к' {
        Some(6u8)
    } else if c == 'с' {
        Some(7u8)
    } else if c == 'х' {
        Some(8u8)
    } else if c == 'ш' {
        Some(9u8)
    } else if c == 'ч' {
        Some(10u8)
    } else if c == 'ф' {
        Some(11u8)
    } else if c == 'й' {
        Some(12u8)
    } else {
        None
    }
}

/// The vowel class of `c`, or `None` where `c` is no vowel letter.
pub fn vowel_class_of(c: char) -> (r: Option<u8>)
    ensures
        r == vowel_class(c),
{
    match c {
        'а' => Some(0),
        'о' => Some(1),
        'э' => Some(2),
        'и' => Some(3),
        'ы' => Some(4),
        'у' => Some(5),
        '!' => Some(6),
        '+' => Some(7),
        _ => None,
    }
}

/// The consonant class of `c`, or `None` where `c` is no consonant letter.
pub fn consonant_class_of(c: char) -> (r: Option<u8>)
    ensures
        r == consonant_class(c),
{
    match c {
        'р' => Some(0),
        'л' => Some(1),
        'н' => Some(2),
        'м' => Some(3),
        'п' => Some(4),
        'т' => Some(5),
        'к' => Some(6),
        'с' => Some(7),
        'х' => Some(8),
        'ш' => Some(9),
        'ч' => Some(10),
        'ф' => Some(11),
        'й' => Some(12),
        _ => None,
    }
}

/// A kind of phone that a transcription letter may stand for.
pub trait Phonable {
    spec fn spec_contains_char(c: char) -> bool;

    /// Whether `c` is a letter of this kind of phone.
    fn contains_char(c: &char) -> (r: bool)
        ensures
            r == Self::spec_contains_char(*c),
    ;
}

impl Phonable for Vowel {
    open spec fn spec_contains_char(c: char) -> bool {
        vowel_class(c) is Some
    }

    fn contains_char(c: &char) -> (r: bool) {
        vowel_class_of(*c).is_some()
    }
}

impl Phonable for Consonant {
    open spec fn spec_contains_char(c: char) -> bool {
        consonant_class(c) is Some
    }

    fn contains_char(c: &char) -> (r: bool) {
        consonant_class_of(*c).is_some()
    }
}

impl Vowel {
    /// The stress of this vowel.
    pub fn accent(&self) -> (r: Accent)
        ensures
            r == self.accent,
    {
        self.accent
    }

    /// Whether this vowel is one of the pattern letters (`!` or `+`).
    pub open spec fn spec_is_pattern(&self) -> bool {
        self.letter == ANY_STRESSED || self.letter == ANY_VOWEL
    }

    /// Whether this vowel is one of the pattern letters (`!` or `+`).
    pub fn is_pattern(&self) -> (r: bool)
        ensures
            r == self.spec_is_pattern(),
    {
        self.letter == ANY_STRESSED || self.letter == ANY_VOWEL
    }
}

/// Position of the first occurrence of `elem` in `array`.
pub fn find_u8(elem: char, array: &[char]) -> (r: u8)
    requires
        array@.len() <= 256,
        array@.contains(elem),
    ensures
        (r as int) < array@.len(),
        array@[r as int] == elem,
        forall|j: int| 0 <= j < r ==> array@[j] != elem,
{
    let mut i: usize = 0;
    while i < array.len()
        invariant
            i <= array@.len() <= 256,
            array@.contains(elem),
            forall|j: int| 0 <= j < i ==> array@[j] != elem,
        decreases array@.len() - i,
    {
        if array[i] == elem {
            return i as u8;
        }
        i = i + 1;
    }
    proof {
        let k = choose|k: int| 0 <= k < array@.len() && array@[k] == elem;
        assert(array@[k] != elem);
    }
    0
}

} // verus!
