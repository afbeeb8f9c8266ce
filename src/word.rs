//! Words as sequences of phones, built from transcribed text or from stress patterns.
use vstd::prelude::*;
use vstd::pervasive::unreached;
use crate::phoneme::{Accent, Consonant, Phone, Vowel, vowel_class, consonant_class, vowel_class_of, consonant_class_of, ANY_STRESSED, ANY_VOWEL};
use crate::text::{is_stress_mark, lower_of, lowercase, chars_of, string_of, strip_marks, strip_stress, has_no_marks, lemma_strip_leaves_no_marks};
use crate::transcription::{transcription, transcribe_chars};

verus! {

/// The phone that a transcription letter starts, if it is a letter.
pub open spec fn letter_phone(c: char) -> Option<Phone> {
    if vowel_class(c) is Some {
        Some(Phone::Vowel(Vowel { letter: vowel_class(c)->0, accent: Accent::NoAccent }))
    } else if consonant_class(c) is Some {
        Some(
            Phone::Consonant(
                Consonant { letter: consonant_class(c)->0, voiced: false, palatalized: false },
            ),
        )
    } else {
        None
    }
}

/// The phone `p` with the mark `c` applied, if `c` is a mark that `p` can carry.
pub open spec fn apply_mark(p: Phone, c: char) -> Option<Phone> {
    match p {
        Phone::Vowel(v) => if c == '\'' {
            Some(Phone::Vowel(Vowel { accent: Accent::Primary, ..v }))
        } else if c == '`' {
            Some(Phone::Vowel(Vowel { accent: Accent::Secondary, ..v }))
        } else {
            None
        },
        Phone::Consonant(k) => if c == '*' {
            Some(Phone::Consonant(Consonant { voiced: true, ..k }))
        } else if c == '^' {
            Some(Phone::Consonant(Consonant { palatalized: true, ..k }))
        } else {
            None
        },
    }
}

/// The phones of a transcription: each letter starts a phone and each mark after it
/// modifies that phone. `None` where a mark comes first, or fits no phone, or a character
/// is neither letter nor mark.
pub open spec fn parse_phones(t: Seq<char>) -> Option<Seq<Phone>>
    decreases t.len(),
{
    if t.len() == 0 {
        Some(Seq::<Phone>::empty())
    } else {
        match parse_phones(t.drop_last()) {
            None => None,
            Some(ps) => match letter_phone(t.last()) {
                Some(p) => Some(ps.push(p)),
                None => if ps.len() == 0 {
                    None
                } else {
                    match apply_mark(ps.last(), t.last()) {
                        Some(q) => Some(ps.update(ps.len() - 1, q)),
                        None => None,
                    }
                },
            },
        }
    }
}

/// The vowels among the phones, in order.
pub open spec fn vowels_of(p: Seq<Phone>) -> Seq<Vowel>
    decreases p.len(),
{
    if p.len() == 0 {
        Seq::<Vowel>::empty()
    } else {
        let r = vowels_of(p.drop_last());
        match p.last() {
            Phone::Vowel(v) => r.push(v),
            Phone::Consonant(_) => r,
        }
    }
}

/// The positions of the vowels among the phones, in increasing order.
pub open spec fn vowel_positions(p: Seq<Phone>) -> Seq<int>
    decreases p.len(),
{
    if p.len() == 0 {
        Seq::<int>::empty()
    } else {
        let r = vowel_positions(p.drop_last());
        match p.last() {
            Phone::Vowel(_) => r.push(p.len() - 1),
            Phone::Consonant(_) => r,
        }
    }
}

/// How many of the vowels carry the primary stress.
pub open spec fn primary_count(vs: Seq<Vowel>) -> nat
    decreases vs.len(),
{
    if vs.len() == 0 {
        0
    } else {
        primary_count(vs.drop_last()) + if vs.last().accent == Accent::Primary {
            1nat
        } else {
            0nat
        }
    }
}

/// Whether `t` parses into at least one phone.
pub open spec fn is_phone_transcription(t: Seq<char>) -> bool {
    &&& parse_phones(t) is Some
    &&& parse_phones(t)->0.len() > 0
}

/// Whether `t` transcribes a real word: it parses into phones and exactly one vowel has the
/// primary stress.
pub open spec fn is_word_transcription(t: Seq<char>) -> bool {
    &&& parse_phones(t) is Some
    &&& primary_count(vowels_of(parse_phones(t)->0)) == 1
}

/// The consonant cluster before vowel number `j` (or after the last vowel, for `j` equal to
/// the vowel count): its first position and its length.
pub open spec fn cluster(p: Seq<Phone>, j: int) -> (usize, usize) {
    let pos = vowel_positions(p);
    let start = if j == 0 {
        0
    } else {
        pos[j - 1] + 1
    };
    let end = if j == pos.len() {
        p.len() as int
    } else {
        pos[j]
    };
    (start as usize, (end - start) as usize)
}

/// The consonant clusters from the end of the word to its start: the one after the last
/// vowel first, the one before the first vowel last.
pub open spec fn clusters_from_end(p: Seq<Phone>) -> Seq<(usize, usize)> {
    let m = vowel_positions(p).len();
    Seq::new(m + 1, |k: int| cluster(p, m - k))
}

/// The stressed vowels (primary or secondary), counted from the end: class and place.
pub open spec fn stresses_from_end(vr: Seq<Vowel>) -> Seq<(u8, usize)>
    decreases vr.len(),
{
    if vr.len() == 0 {
        Seq::<(u8, usize)>::empty()
    } else {
        let r = stresses_from_end(vr.drop_last());
        if vr.last().accent != Accent::NoAccent {
            r.push((vr.last().letter, (vr.len() - 1) as usize))
        } else {
            r
        }
    }
}

/// The phone of a stress pattern letter.
pub open spec fn pattern_vowel(c: char) -> Vowel {
    if c == '!' {
        Vowel { letter: ANY_STRESSED, accent: Accent::Primary }
    } else {
        Vowel { letter: ANY_VOWEL, accent: Accent::NoAccent }
    }
}

/// Every vowel class is one of the eight.
pub open spec fn classes_bounded(vs: Seq<Vowel>) -> bool {
    forall|k: int| 0 <= k < vs.len() ==> (#[trigger] vs[k]).letter < 8
}

/// The vowels of parsed phones have one of the eight classes.
proof fn lemma_parsed_classes_bounded(t: Seq<char>)
    requires
        parse_phones(t) is Some,
    ensures
        classes_bounded(vowels_of(parse_phones(t)->0)),
    decreases t.len(),
{
    if t.len() > 0 {
        lemma_parsed_classes_bounded(t.drop_last());
        let ps = parse_phones(t.drop_last())->0;
        let vs = vowels_of(ps);
        match letter_phone(t.last()) {
            Some(p) => {
                assert(ps.push(p).drop_last() =~= ps);
            },
            None => {
                let q = apply_mark(ps.last(), t.last())->0;
                let u = ps.update(ps.len() - 1, q);
                assert(u.drop_last() =~= ps.drop_last());
                let vd = vowels_of(ps.drop_last());
                assert(forall|k: int| 0 <= k < vd.len() ==> vd[k] == vs[k]);
            },
        }
    }
}

/// Whether `c` is a stress pattern letter: `!` a stressed vowel, `+` any vowel.
pub open spec fn is_pattern_char(c: char) -> bool {
    c == '!' || c == '+'
}

/// A word: its phones from left to right, the number of its vowels, the text it was
/// built from without stress marks, and whether it is a bare stress pattern. Words of the
/// dictionary and those of [`Word::try_new`] have exactly one primary stress; [`Word::new`]
/// takes the stresses as the text gives them.
#[derive(Debug)]
pub struct Word {
    pub(crate) phones: Vec<Phone>,
    pub(crate) vowel_count: usize,
    pub(crate) src: String,
    pub(crate) only_stress_structure: bool,
}

impl Word {
    #[verifier::type_invariant]
    pub(crate) closed spec fn inv(&self) -> bool {
        &&& self.phones@.len() > 0
        &&& self.vowel_count == vowels_of(self.phones@).len()
        &&& classes_bounded(vowels_of(self.phones@))
        &&& has_no_marks(self.src@)
    }

    /// The phones from left to right.
    pub closed spec fn spec_phones(&self) -> Seq<Phone> {
        self.phones@
    }

    /// The text the word was built from, without stress marks.
    pub closed spec fn spec_src(&self) -> Seq<char> {
        self.src@
    }

    /// Whether the word is a bare stress pattern.
    pub closed spec fn spec_abstract(&self) -> bool {
        self.only_stress_structure
    }

    /// The vowels from left to right.
    pub open spec fn spec_vowels(&self) -> Seq<Vowel> {
        vowels_of(self.spec_phones())
    }

    /// The number of vowels.
    pub open spec fn spec_vowel_count(&self) -> nat {
        self.spec_vowels().len()
    }

    /// The word that the text `w` transcribes to; `is_adj` marks adjective-like words.
    /// The transcription must parse into phones; its stresses are taken as they are given.
    /// See [`Word::try_new`] for a word with exactly one primary stress.
    pub fn new(w: &str, is_adj: bool) -> (r: Word)
        requires
            is_phone_transcription(transcription(lower_of(w@), is_adj)),
        ensures
            r.spec_phones() == parse_phones(transcription(lower_of(w@), is_adj))->0,
            r.spec_src() == strip_marks(w@),
            !r.spec_abstract(),
    {
        let lw = lowercase(w);
        let cs = chars_of(lw.as_str());
        let t = transcribe_chars(&cs, is_adj);
        let src = string_of(&strip_stress(&chars_of(w)));
        proof {
            lemma_strip_leaves_no_marks(w@);
        }
        match Self::build(src, &t) {
            Some(word) => word,
            None => unreached(),
        }
    }

    /// The word that the text `w` transcribes to, or `None` where the transcription has a
    /// character that is neither a phone letter nor a mark that fits the phone before it,
    /// or does not have exactly one vowel with the primary stress.
    pub fn try_new(w: &str, is_adj: bool) -> (r: Option<Word>)
        ensures
            r is Some <==> is_word_transcription(transcription(lower_of(w@), is_adj)),
            r matches Some(x) ==> {
                &&& x.spec_phones() == parse_phones(transcription(lower_of(w@), is_adj))->0
                &&& x.spec_src() == strip_marks(w@)
                &&& !x.spec_abstract()
                &&& primary_count(x.spec_vowels()) == 1
            },
    {
        let lw = lowercase(w);
        let cs = chars_of(lw.as_str());
        let t = transcribe_chars(&cs, is_adj);
        if Self::is_valid_transcription(&t) {
            proof {
                lemma_primary_le_vowels(vowels_of(parse_phones(t@)->0));
                lemma_vowels_le_phones(parse_phones(t@)->0);
            }
            Some(Self::new(w, is_adj))
        } else {
            None
        }
    }

    /// Whether the transcription `t` is that of a real word.
    pub fn is_valid_transcription(t: &Vec<char>) -> (r: bool)
        ensures
            r == is_word_transcription(t@),
    {
        match parse_transcription(t) {
            Some(ps) => count_primary(&ps) == 1,
            None => false,
        }
    }

    /// Builds the word of the transcription `t`, with `src` (free of stress marks) as its
    /// display text, where `t` parses into phones.
    fn build(src: String, t: &Vec<char>) -> (r: Option<Word>)
        requires
            has_no_marks(src@),
        ensures
            r is Some <==> is_phone_transcription(t@),
            r matches Some(x) ==> {
                &&& x.spec_phones() == parse_phones(t@)->0
                &&& x.spec_src() == src@
                &&& !x.spec_abstract()
            },
    {
        match parse_transcription(t) {
            Some(phones) => {
                if phones.len() == 0 {
                    return None;
                }
                proof {
                    lemma_parsed_classes_bounded(t@);
                }
                let vowel_count = count_vowels(&phones);
                Some(Word { phones, vowel_count, src, only_stress_structure: false })
            },
            None => None,
        }
    }

    /// Builds the word of the transcription `t`, with `src` (free of stress marks) as its
    /// display text, where `t` parses into phones with exactly one primary stress.
    pub(crate) fn from_transcription(src: String, t: &Vec<char>) -> (r: Option<Word>)
        requires
            has_no_marks(src@),
        ensures
            r is Some <==> is_word_transcription(t@),
            r matches Some(x) ==> {
                &&& x.spec_phones() == parse_phones(t@)->0
                &&& x.spec_src() == src@
                &&& !x.spec_abstract()
                &&& primary_count(x.spec_vowels()) == 1
            },
    {
        if !Self::is_valid_transcription(t) {
            return None;
        }
        proof {
            lemma_primary_le_vowels(vowels_of(parse_phones(t@)->0));
            lemma_vowels_le_phones(parse_phones(t@)->0);
        }
        Self::build(src, t)
    }

    /// The number of vowels.
    pub fn get_vowel_count(&self) -> (r: usize)
        ensures
            r == self.spec_vowel_count(),
    {
        proof {
            use_type_invariant(self);
        }
        self.vowel_count
    }

    /// The number of phones.
    pub fn get_phones_count(&self) -> (r: usize)
        ensures
            r == self.spec_phones().len(),
    {
        self.phones.len()
    }

    /// The phones from left to right.
    pub fn phones(&self) -> (r: &Vec<Phone>)
        ensures
            r@ == self.spec_phones(),
    {
        &self.phones
    }

    /// The text the word was built from, without stress marks.
    pub fn src(&self) -> (r: &String)
        ensures
            r@ == self.spec_src(),
            has_no_marks(r@),
    {
        proof {
            use_type_invariant(self);
        }
        &self.src
    }

    /// Whether the word is a bare stress pattern, whose consonants do not count.
    pub fn only_stress_structure(&self) -> (r: bool)
        ensures
            r == self.spec_abstract(),
    {
        self.only_stress_structure
    }

    /// A copy of the word.
    pub fn duplicate(&self) -> (r: Word)
        ensures
            r.spec_phones() == self.spec_phones(),
            r.spec_src() == self.spec_src(),
            r.spec_abstract() == self.spec_abstract(),
    {
        proof {
            use_type_invariant(self);
        }
        let mut phones: Vec<Phone> = Vec::new();
        let mut i: usize = 0;
        while i < self.phones.len()
            invariant
                i <= self.phones@.len(),
                phones@ == self.phones@.subrange(0, i as int),
            decreases self.phones@.len() - i,
        {
            phones.push(self.phones[i]);
            i = i + 1;
            assert(phones@ =~= self.phones@.subrange(0, i as int));
        }
        assert(phones@ =~= self.phones@);
        Word {
            phones,
            vowel_count: self.vowel_count,
            src: self.src.clone(),
            only_stress_structure: self.only_stress_structure,
        }
    }

    /// The word of a stress pattern: `!` is a stressed vowel, `+` any vowel; it has no
    /// consonants.
    pub fn new_abstract(w: &str) -> (r: Word)
        requires
            w@.len() > 0,
            forall|i: int| 0 <= i < w@.len() ==> is_pattern_char(#[trigger] w@[i]),
        ensures
            r.spec_phones() == Seq::new(w@.len(), |i: int| Phone::Vowel(pattern_vowel(w@[i]))),
            r.spec_src() == w@,
            r.spec_abstract(),
    {
        let cs = chars_of(w);
        let mut phones: Vec<Phone> = Vec::new();
        let mut i: usize = 0;
        while i < cs.len()
            invariant
                cs@ == w@,
                i <= cs@.len(),
                phones@ == Seq::new(i as nat, |j: int| Phone::Vowel(pattern_vowel(w@[j]))),
                vowels_of(phones@) == Seq::new(i as nat, |j: int| pattern_vowel(w@[j])),
            decreases cs@.len() - i,
        {
            let v = if cs[i] == '!' {
                Vowel { letter: ANY_STRESSED, accent: Accent::Primary }
            } else {
                Vowel { letter: ANY_VOWEL, accent: Accent::NoAccent }
            };
            let ghost before = phones@;
            phones.push(Phone::Vowel(v));
            proof {
                assert(phones@.drop_last() =~= before);
            }
            i = i + 1;
            assert(phones@ =~= Seq::new(i as nat, |j: int| Phone::Vowel(pattern_vowel(w@[j]))));
            assert(vowels_of(phones@) =~= Seq::new(i as nat, |j: int| pattern_vowel(w@[j])));
        }
        let vowel_count = phones.len();
        let src = string_of(&cs);
        assert(has_no_marks(src@)) by {
            assert forall|k: int| 0 <= k < src@.len() implies !is_stress_mark(#[trigger] src@[k]) by {
                assert(is_pattern_char(w@[k]));
            }
        }
        Word { phones, vowel_count, src, only_stress_structure: true }
    }

    /// Whether the word ends in a consonant.
    pub fn has_cons_end(&self) -> (r: bool)
        ensures
            r == (self.spec_phones().last() is Consonant),
    {
        proof {
            use_type_invariant(self);
        }
        let n = self.phones.len();
        match self.phones[n - 1] {
            Phone::Consonant(_) => true,
            Phone::Vowel(_) => false,
        }
    }

    /// The vowels from left to right.
    pub fn vowels(&self) -> (r: Vec<Vowel>)
        ensures
            r@ == self.spec_vowels(),
    {
        let mut out: Vec<Vowel> = Vec::new();
        let mut i: usize = 0;
        while i < self.phones.len()
            invariant
                i <= self.phones@.len(),
                out@ == vowels_of(self.phones@.subrange(0, i as int)),
            decreases self.phones@.len() - i,
        {
            proof {
                let t = self.phones@.subrange(0, i as int + 1);
                assert(t.drop_last() =~= self.phones@.subrange(0, i as int));
            }
            match self.phones[i] {
                Phone::Vowel(v) => out.push(v),
                Phone::Consonant(_) => {},
            }
            i = i + 1;
        }
        assert(self.phones@.subrange(0, self.phones@.len() as int) =~= self.phones@);
        out
    }

    /// The vowels from the end of the word to its start.
    pub fn vowels_from_end(&self) -> (r: Vec<Vowel>)
        ensures
            r@ == self.spec_vowels().reverse(),
    {
        let vs = self.vowels();
        let mut out: Vec<Vowel> = Vec::new();
        let mut k: usize = 0;
        while k < vs.len()
            invariant
                k <= vs@.len(),
                out@ == vs@.reverse().subrange(0, k as int),
            decreases vs@.len() - k,
        {
            out.push(vs[vs.len() - 1 - k]);
            k = k + 1;
            assert(out@ =~= vs@.reverse().subrange(0, k as int));
        }
        assert(out@ =~= vs@.reverse());
        out
    }
}

impl Word {
    /// Whether the word has a vowel with the primary stress (every real word has one).
    pub open spec fn has_primary(&self) -> bool {
        primary_count(self.spec_vowels()) >= 1
    }

    /// The consonant clusters from the end of the word: the first position and the length of
    /// the run after the last vowel, then of each run before a vowel, going left; the run
    /// before the first vowel comes last. A run may be empty.
    pub fn splitted_consonants_rev(&self) -> (r: Vec<(usize, usize)>)
        ensures
            r@ == clusters_from_end(self.spec_phones()),
    {
        let n = self.phones.len();
        let mut pos: Vec<usize> = Vec::new();
        let mut i: usize = 0;
        while i < n
            invariant
                n == self.phones@.len(),
                i <= n,
                pos@.len() == vowel_positions(self.phones@.subrange(0, i as int)).len(),
                forall|k: int|
                    0 <= k < pos@.len() ==> pos@[k] as int == #[trigger] vowel_positions(
                        self.phones@.subrange(0, i as int),
                    )[k],
                forall|k: int| 0 <= k < pos@.len() ==> #[trigger] pos@[k] < i,
                forall|a: int, b: int| 0 <= a < b < pos@.len() ==> pos@[a] < pos@[b],
            decreases n - i,
        {
            proof {
                let t = self.phones@.subrange(0, i as int + 1);
                assert(t.drop_last() =~= self.phones@.subrange(0, i as int));
            }
            if let Phone::Vowel(_) = self.phones[i] {
                pos.push(i);
            }
            i = i + 1;
        }
        assert(self.phones@.subrange(0, n as int) =~= self.phones@);
        let ghost vp = vowel_positions(self.phones@);
        let m = pos.len();
        let mut out: Vec<(usize, usize)> = Vec::new();
        let mut k: usize = 0;
        while k < m
            invariant
                n == self.phones@.len(),
                m == pos@.len() == vp.len(),
                vp == vowel_positions(self.phones@),
                forall|q: int| 0 <= q < m ==> pos@[q] as int == #[trigger] vp[q],
                forall|q: int| 0 <= q < m ==> #[trigger] pos@[q] < n,
                forall|a: int, b: int| 0 <= a < b < m ==> pos@[a] < pos@[b],
                k <= m,
                out@ == clusters_from_end(self.phones@).subrange(0, k as int),
            decreases m - k,
        {
            let j = m - k;
            let start: usize = pos[j - 1] + 1;
            let end: usize = if j == m {
                n
            } else {
                pos[j]
            };
            proof {
                if j < m {
                    assert(pos@[j - 1] < pos@[j as int]);
                }
            }
            out.push((start, end - start));
            k = k + 1;
            assert(out@ =~= clusters_from_end(self.phones@).subrange(0, k as int));
        }
        let first_end: usize = if m == 0 {
            n
        } else {
            pos[0]
        };
        out.push((0, first_end));
        assert(out@ =~= clusters_from_end(self.phones@));
        out
    }

    /// The two words ordered by vowel count: the one with fewer vowels first, `one` first
    /// where the counts are equal.
    pub fn get_sorted_by_sylls<'a>(one: &'a Word, other: &'a Word) -> (r: (&'a Word, &'a Word))
        ensures
            one.spec_vowel_count() > other.spec_vowel_count() ==> r == (other, one),
            one.spec_vowel_count() <= other.spec_vowel_count() ==> r == (one, other),
            r.0.spec_vowel_count() <= r.1.spec_vowel_count(),
    {
        if one.get_vowel_count() > other.get_vowel_count() {
            (other, one)
        } else {
            (one, other)
        }
    }

    /// The places of the stresses, counting vowels from the start: that of the primary stress
    /// (the last one, if several), and that of the last secondary stress if there is one.
    pub fn get_stresses(&self) -> (r: (usize, Option<usize>))
        requires
            self.has_primary(),
        ensures
            (r.0 as int) < self.spec_vowel_count(),
            self.spec_vowels()[r.0 as int].accent == Accent::Primary,
            forall|j: int|
                r.0 < j < self.spec_vowel_count() ==> (#[trigger] self.spec_vowels()[j]).accent
                    != Accent::Primary,
            match r.1 {
                Some(s) => {
                    &&& (s as int) < self.spec_vowel_count()
                    &&& self.spec_vowels()[s as int].accent == Accent::Secondary
                    &&& forall|j: int|
                        s < j < self.spec_vowel_count() ==> (#[trigger] self.spec_vowels()[j]).accent
                            != Accent::Secondary
                },
                None => forall|j: int|
                    0 <= j < self.spec_vowel_count() ==> (#[trigger] self.spec_vowels()[j]).accent
                        != Accent::Secondary,
            },
    {
        proof {
            use_type_invariant(self);
            lemma_primary_exists(self.spec_vowels());
        }
        let vs = self.vowels();
        let mut primary: Option<usize> = None;
        let mut secondary: Option<usize> = None;
        let mut i: usize = 0;
        while i < vs.len()
            invariant
                vs@ == self.spec_vowels(),
                i <= vs@.len(),
                match primary {
                    Some(p) => p < i && vs@[p as int].accent == Accent::Primary && forall|j: int|
                        p < j < i ==> (#[trigger] vs@[j]).accent != Accent::Primary,
                    None => forall|j: int| 0 <= j < i ==> (#[trigger] vs@[j]).accent != Accent::Primary,
                },
                match secondary {
                    Some(p) => p < i && vs@[p as int].accent == Accent::Secondary && forall|j: int|
                        p < j < i ==> (#[trigger] vs@[j]).accent != Accent::Secondary,
                    None => forall|j: int|
                        0 <= j < i ==> (#[trigger] vs@[j]).accent != Accent::Secondary,
                },
            decreases vs@.len() - i,
        {
            match vs[i].accent {
                Accent::Primary => primary = Some(i),
                Accent::Secondary => secondary = Some(i),
                Accent::NoAccent => {},
            }
            i = i + 1;
        }
        match primary {
            Some(p) => (p, secondary),
            None => {
                proof {
                    let k = choose|k: int|
                        0 <= k < self.spec_vowel_count() && (#[trigger] self.spec_vowels()[k]).accent
                            == Accent::Primary;
                    assert(vs@[k].accent != Accent::Primary);
                }
                unreached()
            },
        }
    }

    /// The class of the vowel with the primary stress and its place counted from the end
    /// (the one nearest the end, if several).
    pub fn get_primary_stress(&self) -> (r: (u8, usize))
        requires
            self.has_primary(),
        ensures
            (r.1 as int) < self.spec_vowel_count(),
            self.spec_vowels().reverse()[r.1 as int].accent == Accent::Primary,
            self.spec_vowels().reverse()[r.1 as int].letter == r.0,
            r.0 < 8,
            forall|j: int|
                0 <= j < r.1 ==> (#[trigger] self.spec_vowels().reverse()[j]).accent
                    != Accent::Primary,
    {
        proof {
            use_type_invariant(self);
            lemma_primary_exists(self.spec_vowels());
        }
        let vr = self.vowels_from_end();
        let mut i: usize = 0;
        while i < vr.len()
            invariant
                vr@ == self.spec_vowels().reverse(),
                i <= vr@.len(),
                forall|j: int| 0 <= j < i ==> (#[trigger] vr@[j]).accent != Accent::Primary,
            decreases vr@.len() - i,
        {
            if vr[i].accent == Accent::Primary {
                proof {
                    use_type_invariant(self);
                    let k = self.spec_vowel_count() - 1 - i;
                    assert(vr@[i as int] == self.spec_vowels()[k]);
                }
                return (vr[i].letter, i);
            }
            i = i + 1;
        }
        proof {
            let k = choose|k: int|
                0 <= k < self.spec_vowel_count() && (#[trigger] self.spec_vowels()[k]).accent
                    == Accent::Primary;
            let q = self.spec_vowel_count() - 1 - k;
            assert(vr@[q] == self.spec_vowels()[k]);
        }
        unreached()
    }

    /// Every stressed vowel (primary or secondary) with its place counted from the end,
    /// nearest the end first.
    pub fn get_all_stresses(&self) -> (r: Vec<(u8, usize)>)
        ensures
            r@ == stresses_from_end(self.spec_vowels().reverse()),
    {
        let vr = self.vowels_from_end();
        let mut out: Vec<(u8, usize)> = Vec::new();
        let mut i: usize = 0;
        while i < vr.len()
            invariant
                i <= vr@.len(),
                out@ == stresses_from_end(vr@.subrange(0, i as int)),
            decreases vr@.len() - i,
        {
            proof {
                let t = vr@.subrange(0, i as int + 1);
                assert(t.drop_last() =~= vr@.subrange(0, i as int));
            }
            if vr[i].accent != Accent::NoAccent {
                out.push((vr[i].letter, i));
            }
            i = i + 1;
        }
        assert(vr@.subrange(0, vr@.len() as int) =~= vr@);
        out
    }
}

/// Where some vowel carries the primary stress, one can be named.
proof fn lemma_primary_exists(vs: Seq<Vowel>)
    requires
        primary_count(vs) >= 1,
    ensures
        exists|k: int| 0 <= k < vs.len() && (#[trigger] vs[k]).accent == Accent::Primary,
    decreases vs.len(),
{
    if vs.last().accent != Accent::Primary {
        lemma_primary_exists(vs.drop_last());
        let k = choose|k: int|
            0 <= k < vs.drop_last().len() && (#[trigger] vs.drop_last()[k]).accent
                == Accent::Primary;
        assert(vs[k] == vs.drop_last()[k]);
    } else {
        assert(vs[vs.len() - 1].accent == Accent::Primary);
    }
}

/// Parses a transcription into phones.
pub fn parse_transcription(t: &Vec<char>) -> (r: Option<Vec<Phone>>)
    ensures
        r matches Some(ps) ==> parse_phones(t@) == Some(ps@),
        r is None ==> parse_phones(t@) is None,
{
    let mut phones: Vec<Phone> = Vec::new();
    let mut i: usize = 0;
    while i < t.len()
        invariant
            i <= t@.len(),
            parse_phones(t@.subrange(0, i as int)) == Some(phones@),
        decreases t@.len() - i,
    {
        let c = t[i];
        proof {
            let s = t@.subrange(0, i as int + 1);
            assert(s.drop_last() =~= t@.subrange(0, i as int));
            assert(s.last() == c);
        }
        let vc = vowel_class_of(c);
        let cc = consonant_class_of(c);
        if let Some(k) = vc {
            phones.push(Phone::Vowel(Vowel { letter: k, accent: Accent::NoAccent }));
        } else if let Some(k) = cc {
            phones.push(
                Phone::Consonant(Consonant { letter: k, voiced: false, palatalized: false }),
            );
        } else {
            let n = phones.len();
            if n == 0 {
                proof {
                    lemma_parse_none_extends(t@, i as int + 1);
                }
                return None;
            }
            let marked = match phones[n - 1] {
                Phone::Vowel(v) => if c == '\'' {
                    Some(Phone::Vowel(Vowel { accent: Accent::Primary, ..v }))
                } else if c == '`' {
                    Some(Phone::Vowel(Vowel { accent: Accent::Secondary, ..v }))
                } else {
                    None
                },
                Phone::Consonant(k) => if c == '*' {
                    Some(Phone::Consonant(Consonant { voiced: true, ..k }))
                } else if c == '^' {
                    Some(Phone::Consonant(Consonant { palatalized: true, ..k }))
                } else {
                    None
                },
            };
            match marked {
                Some(q) => {
                    phones.set(n - 1, q);
                },
                None => {
                    proof {
                        lemma_parse_none_extends(t@, i as int + 1);
                    }
                    return None;
                },
            }
        }
        i = i + 1;
    }
    assert(t@.subrange(0, t@.len() as int) =~= t@);
    Some(phones)
}

/// A transcription whose start does not parse does not parse.
proof fn lemma_parse_none_extends(t: Seq<char>, k: int)
    requires
        0 <= k <= t.len(),
        parse_phones(t.subrange(0, k)) is None,
    ensures
        parse_phones(t) is None,
    decreases t.len() - k,
{
    if k < t.len() {
        let s = t.subrange(0, k + 1);
        assert(s.drop_last() =~= t.subrange(0, k));
        lemma_parse_none_extends(t, k + 1);
    } else {
        assert(t.subrange(0, k) =~= t);
    }
}

/// There are no more vowels than phones.
proof fn lemma_vowels_le_phones(p: Seq<Phone>)
    ensures
        vowels_of(p).len() <= p.len(),
    decreases p.len(),
{
    if p.len() > 0 {
        lemma_vowels_le_phones(p.drop_last());
    }
}

/// No more vowels carry the primary stress than there are vowels.
proof fn lemma_primary_le_vowels(vs: Seq<Vowel>)
    ensures
        primary_count(vs) <= vs.len(),
    decreases vs.len(),
{
    if vs.len() > 0 {
        lemma_primary_le_vowels(vs.drop_last());
    }
}

/// The number of vowels among the phones.
fn count_vowels(p: &Vec<Phone>) -> (r: usize)
    ensures
        r == vowels_of(p@).len(),
{
    let mut n: usize = 0;
    let mut i: usize = 0;
    while i < p.len()
        invariant
            i <= p@.len(),
            n == vowels_of(p@.subrange(0, i as int)).len(),
            n <= i,
        decreases p@.len() - i,
    {
        proof {
            let t = p@.subrange(0, i as int + 1);
            assert(t.drop_last() =~= p@.subrange(0, i as int));
        }
        if let Phone::Vowel(_) = p[i] {
            n = n + 1;
        }
        i = i + 1;
    }
    assert(p@.subrange(0, p@.len() as int) =~= p@);
    n
}

/// The number of vowels with the primary stress among the phones.
fn count_primary(p: &Vec<Phone>) -> (r: usize)
    ensures
        r == primary_count(vowels_of(p@)),
{
    let mut n: usize = 0;
    let mut i: usize = 0;
    while i < p.len()
        invariant
            i <= p@.len(),
            n == primary_count(vowels_of(p@.subrange(0, i as int))),
            n <= i,
        decreases p@.len() - i,
    {
        proof {
            let t = p@.subrange(0, i as int + 1);
            assert(t.drop_last() =~= p@.subrange(0, i as int));
        }
        if let Phone::Vowel(v) = p[i] {
            proof {
                let vs = vowels_of(p@.subrange(0, i as int));
                assert(vs.push(v).drop_last() =~= vs);
            }
            if v.accent == Accent::Primary {
                n = n + 1;
            }
        }
        i = i + 1;
    }
    assert(p@.subrange(0, p@.len() as int) =~= p@);
    n
}

} // verus!
