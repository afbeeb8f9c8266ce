//! Turning what a user types into a query word, and reference words into lexemes.
use vstd::prelude::*;
use crate::dictionary::WordCollector;
use crate::phoneme::Phone;
use crate::text::{chars_equal, lower_of, lowercase, chars_of, split_on, split_string, strip_marks, is_stress_mark};
use crate::transcription::transcription;
use crate::word::{Word, parse_phones, is_word_transcription, is_pattern_char, pattern_vowel};

verus! {

/// Why a query cannot be made into a word.
#[derive(Debug, Clone, Copy, PartialEq, Eq, Structural)]
pub enum QueryError {
    /// Written without a stress mark and not in the dictionary.
    NotFound,
    /// A stress mark stands first.
    StressAtStart,
    /// A stress mark does not follow a vowel.
    StressNotAfterVowel,
    /// A stress pattern letter (`+` or `!`) among real letters.
    MixedPattern,
    /// A character that is neither a letter nor a mark.
    UnknownChar(char),
    /// The text does not make a word with exactly one primary stress.
    NotAWord,
}

/// Lowercase Russian letters.
pub open spec fn is_query_letter(c: char) -> bool {
    (0x430 <= (c as u32) && (c as u32) <= 0x44f) || c == 'ё'
}

/// Vowel letters, after which a stress mark may stand.
pub open spec fn is_query_vowel(c: char) -> bool {
    c == 'а' || c == 'о' || c == 'э' || c == 'и' || c == 'ы' || c == 'у' || c == 'е' || c == 'ё'
        || c == 'ю' || c == 'я'
}

/// What is wrong with the character at `i` of a stressed query, if anything.
pub open spec fn char_error(l: Seq<char>, i: int) -> Option<QueryError> {
    let c = l[i];
    if is_query_letter(c) {
        None
    } else if is_stress_mark(c) {
        if i == 0 {
            Some(QueryError::StressAtStart)
        } else if !is_query_vowel(l[i - 1]) {
            Some(QueryError::StressNotAfterVowel)
        } else {
            None
        }
    } else if is_pattern_char(c) {
        Some(QueryError::MixedPattern)
    } else {
        Some(QueryError::UnknownChar(c))
    }
}

/// The first thing wrong with a stressed query from position `i` on.
pub open spec fn validation_error(l: Seq<char>, i: int) -> Option<QueryError>
    decreases l.len() - i,
{
    if i >= l.len() || i < 0 {
        None
    } else {
        match char_error(l, i) {
            Some(e) => Some(e),
            None => validation_error(l, i + 1),
        }
    }
}

/// Whether a query is a bare stress pattern.
pub open spec fn is_pattern_query(s: Seq<char>) -> bool {
    &&& s.len() > 0
    &&& forall|k: int| 0 <= k < s.len() ==> is_pattern_char(#[trigger] s[k])
}

/// Whether a lowercase query is to be looked up (it gives no stress and no pattern).
pub open spec fn is_lookup_query(l: Seq<char>) -> bool {
    !l.contains('\'') && !l.contains('!')
}

/// Whether `c` occurs in `v`.
fn contains_char(v: &Vec<char>, c: char) -> (r: bool)
    ensures
        r == v@.contains(c),
{
    let mut i: usize = 0;
    while i < v.len()
        invariant
            i <= v@.len(),
            forall|k: int| 0 <= k < i ==> v@[k] != c,
        decreases v@.len() - i,
    {
        if v[i] == c {
            assert(v@[i as int] == c);
            return true;
        }
        i = i + 1;
    }
    false
}

/// Whether every character is a stress pattern letter.
fn all_pattern(v: &Vec<char>) -> (r: bool)
    ensures
        r == forall|k: int| 0 <= k < v@.len() ==> is_pattern_char(#[trigger] v@[k]),
{
    let mut i: usize = 0;
    while i < v.len()
        invariant
            i <= v@.len(),
            forall|k: int| 0 <= k < i ==> is_pattern_char(#[trigger] v@[k]),
        decreases v@.len() - i,
    {
        if v[i] != '+' && v[i] != '!' {
            assert(!is_pattern_char(v@[i as int]));
            return false;
        }
        i = i + 1;
    }
    true
}

fn is_query_vowel_exec(c: char) -> (r: bool)
    ensures
        r == is_query_vowel(c),
{
    c == 'а' || c == 'о' || c == 'э' || c == 'и' || c == 'ы' || c == 'у' || c == 'е' || c == 'ё'
        || c == 'ю' || c == 'я'
}

/// The first thing wrong with a stressed query.
fn first_invalid(l: &Vec<char>) -> (r: Option<QueryError>)
    ensures
        r == validation_error(l@, 0),
{
    let mut i: usize = 0;
    while i < l.len()
        invariant
            i <= l@.len(),
            validation_error(l@, 0) == validation_error(l@, i as int),
        decreases l@.len() - i,
    {
        let c = l[i];
        let code = c as u32;
        if (0x430 <= code && code <= 0x44f) || c == 'ё' {
        } else if c == '\'' || c == '`' {
            if i == 0 {
                return Some(QueryError::StressAtStart);
            } else if !is_query_vowel_exec(l[i - 1]) {
                return Some(QueryError::StressNotAfterVowel);
            }
        } else if c == '+' || c == '!' {
            return Some(QueryError::MixedPattern);
        } else {
            return Some(QueryError::UnknownChar(c));
        }
        i = i + 1;
    }
    None
}

/// The query word for what a user typed. A bare stress pattern (`+` any vowel, `!` a stressed
/// vowel) gives a pattern word. Otherwise the text is read in lower case: without `'` or `!`
/// it is looked up in the dictionary, which gives its stress; with them it is checked
/// character by character and made into a word.
pub fn string2word(wc: &WordCollector, to_find: &String) -> (r: Result<Word, QueryError>)
    requires
        wc.wf(),
    ensures
        is_pattern_query(to_find@) ==> r is Ok,
        is_pattern_query(to_find@) ==> (r matches Ok(w) ==> {
            &&& w.spec_abstract()
            &&& w.spec_src() == to_find@
            &&& w.spec_phones() == Seq::new(
                to_find@.len(),
                |i: int| Phone::Vowel(pattern_vowel(to_find@[i])),
            )
        }),
        !is_pattern_query(to_find@) && is_lookup_query(lower_of(to_find@)) ==> {
            let l = lower_of(to_find@);
            &&& r is Ok <==> wc.spec_lookup().contains_key(l)
            &&& r matches Ok(w) ==> {
                let d = wc.spec_words()[wc.spec_lookup()[l] as int];
                &&& w.spec_phones() == d.spec_phones()
                &&& w.spec_src() == d.spec_src()
                &&& w.spec_abstract() == d.spec_abstract()
            }
            &&& r matches Err(e) ==> e == QueryError::NotFound
        },
        !is_pattern_query(to_find@) && !is_lookup_query(lower_of(to_find@)) ==> {
            let l = lower_of(to_find@);
            match validation_error(l, 0) {
                Some(e) => r == Err::<Word, QueryError>(e),
                None => {
                    &&& r is Ok <==> is_word_transcription(transcription(lower_of(l), false))
                    &&& r matches Ok(w) ==> {
                        &&& w.spec_phones() == parse_phones(transcription(lower_of(l), false))->0
                        &&& w.spec_src() == strip_marks(l)
                        &&& !w.spec_abstract()
                    }
                    &&& r matches Err(e) ==> e == QueryError::NotAWord
                },
            }
        },
{
    let cs = chars_of(to_find.as_str());
    if cs.len() > 0 && all_pattern(&cs) {
        return Ok(Word::new_abstract(to_find.as_str()));
    }
    let lw = lowercase(to_find.as_str());
    let lc = chars_of(lw.as_str());
    if !contains_char(&lc, '\'') && !contains_char(&lc, '!') {
        match wc.get_word(lw.as_str()) {
            Some(w) => Ok(w.duplicate()),
            None => Err(QueryError::NotFound),
        }
    } else {
        match first_invalid(&lc) {
            Some(e) => Err(e),
            None => match Word::try_new(lw.as_str(), false) {
                Some(w) => Ok(w),
                None => Err(QueryError::NotAWord),
            },
        }
    }
}

/// The categories listed in `rps`, separated by `+`; none where `rps` is `None`.
pub fn split_by_plus(rps: Option<String>) -> (r: Vec<String>)
    ensures
        rps is None ==> r@.len() == 0,
        rps matches Some(s) ==> {
            &&& r@.len() == split_on(s@, '+').len()
            &&& forall|k: int| 0 <= k < r@.len() ==> #[trigger] r@[k]@ == split_on(s@, '+')[k]
        },
{
    match rps {
        None => Vec::new(),
        Some(s) => split_string(s.as_str(), '+'),
    }
}

/// The reference words that the dictionary does not know, in order.
pub open spec fn unknown_words(wc: WordCollector, strs: Seq<String>) -> Seq<Seq<char>>
    decreases strs.len(),
{
    if strs.len() == 0 {
        Seq::<Seq<char>>::empty()
    } else {
        let r = unknown_words(wc, strs.drop_last());
        if wc.spec_lookup().contains_key(strs.last()@) {
            r
        } else {
            r.push(strs.last()@)
        }
    }
}

/// The lexemes of the reference words of a theme, whose meaning vectors make its semantic
/// field. Fails with every word that the dictionary does not know, or with none where no
/// word is given.
pub fn theme_groups(wc: &WordCollector, strs: &Vec<String>) -> (r: Result<Vec<usize>, Vec<String>>)
    requires
        wc.wf(),
    ensures
        r is Ok <==> strs@.len() > 0 && forall|k: int|
            0 <= k < strs@.len() ==> wc.spec_lookup().contains_key(#[trigger] strs@[k]@),
        r matches Ok(gs) ==> {
            &&& gs@.len() == strs@.len()
            &&& forall|k: int|
                0 <= k < gs@.len() ==> #[trigger] gs@[k] == wc.spec_group_of()[wc.spec_lookup()[strs@[k]@] as int]
        },
        r matches Err(fs) ==> {
            &&& fs@.len() == unknown_words(*wc, strs@).len()
            &&& forall|k: int| 0 <= k < fs@.len() ==> #[trigger] fs@[k]@ == unknown_words(*wc, strs@)[k]
        },
{
    let mut found: Vec<usize> = Vec::new();
    let mut failed: Vec<String> = Vec::new();
    let mut i: usize = 0;
    while i < strs.len()
        invariant
            wc.wf(),
            i <= strs@.len(),
            found@.len() <= i,
            failed@.len() == 0 ==> found@.len() == i,
            failed@.len() == 0 ==> forall|k: int|
                0 <= k < i ==> wc.spec_lookup().contains_key(#[trigger] strs@[k]@),
            failed@.len() == 0 ==> forall|k: int|
                0 <= k < i ==> #[trigger] found@[k] == wc.spec_group_of()[wc.spec_lookup()[strs@[k]@] as int],
            failed@.len() == unknown_words(*wc, strs@.subrange(0, i as int)).len(),
            forall|k: int|
                0 <= k < failed@.len() ==> #[trigger] failed@[k]@ == unknown_words(
                    *wc,
                    strs@.subrange(0, i as int),
                )[k],
            failed@.len() > 0 ==> exists|k: int|
                0 <= k < i && !wc.spec_lookup().contains_key(#[trigger] strs@[k]@),
        decreases strs@.len() - i,
    {
        proof {
            let t = strs@.subrange(0, i as int + 1);
            assert(t.drop_last() =~= strs@.subrange(0, i as int));
            assert(t.last() == strs@[i as int]);
        }
        match wc.get_forms(strs[i].as_str()) {
            Some(g) => {
                found.push(g);
            },
            None => {
                failed.push(strs[i].clone());
            },
        }
        i = i + 1;
    }
    assert(strs@.subrange(0, strs@.len() as int) =~= strs@);
    if failed.len() > 0 || strs.len() == 0 {
        Err(failed)
    } else {
        Ok(found)
    }
}

/// Named themes: each a name and its reference words.
pub struct MeanStrThemes {
    pub str_themes: Vec<(String, Vec<String>)>,
}

impl MeanStrThemes {
    /// The reference words of the theme named `key` (the first of that name).
    pub fn get(&self, key: &str) -> (r: Option<&Vec<String>>)
        ensures
            match r {
                Some(v) => exists|k: int|
                    0 <= k < self.str_themes@.len() && (#[trigger] self.str_themes@[k]).0@ == key@
                        && *v == self.str_themes@[k].1 && forall|j: int|
                        0 <= j < k ==> (#[trigger] self.str_themes@[j]).0@ != key@,
                None => forall|k: int|
                    0 <= k < self.str_themes@.len() ==> (#[trigger] self.str_themes@[k]).0@ != key@,
            },
    {
        let kc = chars_of(key);
        let mut i: usize = 0;
        while i < self.str_themes.len()
            invariant
                kc@ == key@,
                i <= self.str_themes@.len(),
                forall|j: int| 0 <= j < i ==> (#[trigger] self.str_themes@[j]).0@ != key@,
            decreases self.str_themes@.len() - i,
        {
            if chars_equal(&chars_of(self.str_themes[i].0.as_str()), &kc) {
                return Some(&self.str_themes[i].1);
            }
            i = i + 1;
        }
        None
    }
}

} // verus!
