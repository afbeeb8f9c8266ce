//! The dictionary index: every inflected form as a word, grouped by lexeme, with a lookup by
//! surface text and a lookup by the place and class of the primary stress.
use vstd::prelude::*;
use vstd::hash_map::StringHashMap;
use crate::phoneme::{Accent, ANY_STRESSED};
use crate::text::{has_no_marks, lemma_strip_leaves_no_marks, lemma_strip_no_marks, lower_of, lowercase, chars_of, string_of, strip_marks, strip_stress, split_on, split_chars, lemma_split_nonempty};
use crate::transcription::{transcription, transcribe_chars};
use crate::word::{Word, parse_phones, is_word_transcription, stresses_from_end};

verus! {

/// Whether `c` is an ASCII decimal digit.
pub open spec fn is_digit(c: char) -> bool {
    48 <= (c as u32) && (c as u32) <= 57
}

/// The value of a decimal digit.
pub open spec fn digit_value(c: char) -> int {
    (c as u32) - 48
}

/// The pieces of an inflection template: the category, the stems, the endings.
pub open spec fn template_parts(t: Seq<char>) -> Seq<Seq<char>> {
    split_on(t, '+')
}

/// The grammatical category of an inflection template.
pub open spec fn template_category(t: Seq<char>) -> Seq<char> {
    template_parts(t)[0]
}

/// The endings of an inflection template.
pub open spec fn template_endings(t: Seq<char>) -> Seq<Seq<char>> {
    split_on(template_parts(t).last(), ';')
}

/// The text of the form with ending `e`: an ending that starts with a digit takes the stem of
/// that number (without the digit), any other the first stem. `None` where that stem is missing.
pub open spec fn form_text(parts: Seq<Seq<char>>, e: Seq<char>) -> Option<Seq<char>> {
    let stems = parts.len() - 2;
    if e.len() > 0 && is_digit(e[0]) {
        if digit_value(e[0]) < stems {
            Some(parts[1 + digit_value(e[0])] + e.drop_first())
        } else {
            None
        }
    } else if stems >= 1 {
        Some(parts[1] + e)
    } else {
        None
    }
}

/// The text of form number `k` of an inflection template.
pub open spec fn template_form(t: Seq<char>, k: int) -> Option<Seq<char>> {
    form_text(template_parts(t), template_endings(t)[k])
}

/// Categories whose forms are read as adjectives (the genitive `-ого` with `в`).
pub open spec fn is_adjective_like(c: Seq<char>) -> bool {
    c == seq!['п'] || c == seq!['м', 'с'] || c == seq!['м', 'с', '-', 'п'] || c == seq!['г']
        || c == seq!['ч', 'и', 'с', 'л', '-', 'п']
}

/// Whether the text `f` is a real word.
pub open spec fn form_is_word(f: Seq<char>, adj: bool) -> bool {
    is_word_transcription(transcription(lower_of(f), adj))
}

/// Whether form number `k` of the template is a real word.
pub open spec fn template_form_ok(t: Seq<char>, k: int) -> bool {
    &&& template_form(t, k) is Some
    &&& form_is_word(template_form(t, k)->0, is_adjective_like(template_category(t)))
}

/// Whether every form of the template is a real word.
pub open spec fn template_ok(t: Seq<char>) -> bool {
    &&& template_parts(t).len() >= 2
    &&& forall|k: int| 0 <= k < template_endings(t).len() ==> template_form_ok(t, k)
}

/// Whether the primary stress nearest the end of `w` is on a vowel of class `l`, at place `p`
/// counted from the end.
pub open spec fn is_primary_key(w: Word, l: u8, p: int) -> bool {
    let vr = w.spec_vowels().reverse();
    &&& 0 <= p < vr.len()
    &&& vr[p].accent == Accent::Primary
    &&& vr[p].letter == l
    &&& forall|j: int| 0 <= j < p ==> (#[trigger] vr[j]).accent != Accent::Primary
}

/// Whether a stress `(l, p)` of a query selects the word `w`: the class `!` selects any class.
pub open spec fn stress_selects(w: Word, l: u8, p: int) -> bool {
    if l == ANY_STRESSED {
        exists|l2: u8| l2 < 8 && is_primary_key(w, l2, p)
    } else {
        is_primary_key(w, l, p)
    }
}

/// Whether any of the stresses `qs` of a query selects the word `w`.
pub open spec fn matches_stresses(w: Word, qs: Seq<(u8, usize)>) -> bool {
    exists|k: int| 0 <= k < qs.len() && stress_selects(w, (#[trigger] qs[k]).0, qs[k].1 as int)
}

/// Whether `w` is the word of the text `f`.
pub open spec fn word_of_form(w: Word, f: Seq<char>, adj: bool) -> bool {
    &&& w.spec_phones() == parse_phones(transcription(lower_of(f), adj))->0
    &&& w.spec_src() == strip_marks(f)
    &&& !w.spec_abstract()
    &&& w.has_primary()
}

/// The character sequences of a sequence of character vectors.
pub open spec fn char_views(v: Seq<Vec<char>>) -> Seq<Seq<char>> {
    v.map_values(|x: Vec<char>| x@)
}

/// Whether the runs `gs` cover the indices `0..n` in order, each non-empty and contiguous,
/// and `group_of` gives the run of each index.
pub open spec fn runs_wf(gs: Seq<WordForms>, group_of: Seq<usize>, n: nat) -> bool {
    &&& group_of.len() == n
    &&& gs.len() == 0 ==> n == 0
    &&& gs.len() > 0 ==> gs[0].start_index == 0
    &&& gs.len() > 0 ==> gs.last().start_index + gs.last().len == n
    &&& forall|g: int|
        0 <= g < gs.len() ==> (#[trigger] gs[g]).len >= 1 && gs[g].start_index + gs[g].len <= n
    &&& forall|g: int|
        0 <= g < gs.len() - 1 ==> #[trigger] gs[g + 1].start_index == gs[g].start_index
            + gs[g].len
    &&& forall|i: int|
        0 <= i < n ==> {
            let g = #[trigger] group_of[i] as int;
            &&& 0 <= g < gs.len()
            &&& gs[g].start_index <= i < gs[g].start_index + gs[g].len
        }
}

/// Whether the words and lexemes are those of the inflection templates `ts`, in order.
pub open spec fn loaded_from(
    words: Seq<Word>,
    gs: Seq<WordForms>,
    ts: Seq<String>,
) -> bool {
    &&& gs.len() == ts.len()
    &&& forall|g: int|
        0 <= g < gs.len() ==> {
            &&& (#[trigger] gs[g]).len == template_endings(ts[g]@).len()
            &&& gs[g].speech_part@ == template_category(ts[g]@)
        }
    &&& forall|g: int, k: int|
        0 <= g < gs.len() && 0 <= k < gs[g].len ==> word_of_form(
            #[trigger] words[gs[g].start_index + k],
            template_form(ts[g]@, k)->0,
            is_adjective_like(template_category(ts[g]@)),
        )
}

/// What is wrong with an inflection template.
#[derive(Debug, Clone, Copy, PartialEq, Eq, Structural)]
pub enum TemplateErrorKind {
    /// It has no `+` between the category and the endings.
    MissingEndings,
    /// An ending asks for a stem that the template does not have.
    MissingStem,
    /// A form is not a real word (a foreign character, or not exactly one primary stress).
    InvalidWord,
}

/// An inflection template that cannot be read, and why.
#[derive(Debug, Clone, Copy, PartialEq, Eq, Structural)]
pub struct TemplateError {
    pub group: usize,
    pub kind: TemplateErrorKind,
}

/// A lexeme: the run of word indices of its forms and its grammatical category.
#[derive(Debug)]
pub struct WordForms {
    pub start_index: usize,
    pub len: usize,
    pub speech_part: String,
}

/// Whether `c` is a category whose forms are read as adjectives.
fn is_adjective_like_exec(c: &Vec<char>) -> (r: bool)
    ensures
        r == is_adjective_like(c@),
{
    let n = c.len();
    let r = if n == 1 {
        c[0] == 'п' || c[0] == 'г'
    } else if n == 2 {
        c[0] == 'м' && c[1] == 'с'
    } else if n == 4 {
        c[0] == 'м' && c[1] == 'с' && c[2] == '-' && c[3] == 'п'
    } else if n == 6 {
        c[0] == 'ч' && c[1] == 'и' && c[2] == 'с' && c[3] == 'л' && c[4] == '-' && c[5] == 'п'
    } else {
        false
    };
    proof {
        if r {
            if n == 1 {
                if c[0] == 'п' {
                    assert(c@ =~= seq!['п']);
                } else {
                    assert(c@ =~= seq!['г']);
                }
            } else if n == 2 {
                assert(c@ =~= seq!['м', 'с']);
            } else if n == 4 {
                assert(c@ =~= seq!['м', 'с', '-', 'п']);
            } else {
                assert(c@ =~= seq!['ч', 'и', 'с', 'л', '-', 'п']);
            }
        } else {
            assert(c@ != seq!['п']) by {
                if n == 1 {
                    assert(seq!['п'][0] == 'п');
                }
            }
            assert(c@ != seq!['г']) by {
                if n == 1 {
                    assert(seq!['г'][0] == 'г');
                }
            }
            assert(c@ != seq!['м', 'с']) by {
                if n == 2 {
                    assert(seq!['м', 'с'][0] == 'м');
                }
            }
            assert(c@ != seq!['м', 'с', '-', 'п']) by {
                if n == 4 {
                    assert(seq!['м', 'с', '-', 'п'][3] == 'п');
                }
            }
            assert(c@ != seq!['ч', 'и', 'с', 'л', '-', 'п']) by {
                if n == 6 {
                    assert(seq!['ч', 'и', 'с', 'л', '-', 'п'][5] == 'п');
                }
            }
        }
    }
    r
}

/// `a` followed by `b` from position `from` on.
fn concat_from(a: &Vec<char>, b: &Vec<char>, from: usize) -> (r: Vec<char>)
    requires
        from <= b@.len(),
    ensures
        r@ == a@ + b@.subrange(from as int, b@.len() as int),
{
    let mut out = a.clone();
    assert(out@ == a@);
    let mut i: usize = from;
    while i < b.len()
        invariant
            from <= i <= b@.len(),
            out@ == a@ + b@.subrange(from as int, i as int),
        decreases b@.len() - i,
    {
        out.push(b[i]);
        i = i + 1;
        assert(out@ =~= a@ + b@.subrange(from as int, i as int));
    }
    out
}

/// The text of the form with ending `e` of a template cut into `parts`.
fn form_text_exec(parts: &Vec<Vec<char>>, e: &Vec<char>) -> (r: Option<Vec<char>>)
    requires
        parts@.len() >= 2,
    ensures
        r matches Some(f) ==> form_text(char_views(parts@), e@) == Some(f@),
        r is None ==> form_text(char_views(parts@), e@) is None,
{
    let ghost ps = char_views(parts@);
    let stems = parts.len() - 2;
    if e.len() > 0 && (e[0] as u32) >= 48 && (e[0] as u32) <= 57 {
        let d = (e[0] as u32 - 48) as usize;
        if d < stems {
            let f = concat_from(&parts[1 + d], e, 1);
            assert(e@.subrange(1, e@.len() as int) =~= e@.drop_first());
            assert(ps[1 + d as int] == parts@[1 + d as int]@);
            Some(f)
        } else {
            None
        }
    } else if stems >= 1 {
        let f = concat_from(&parts[1], e, 0);
        assert(e@.subrange(0, e@.len() as int) =~= e@);
        assert(ps[1] == parts@[1]@);
        Some(f)
    } else {
        None
    }
}

/// The word of the text `f`, or `None` where it is not a real word.
fn build_word(f: &Vec<char>, adj: bool) -> (r: Option<Word>)
    ensures
        r is Some <==> form_is_word(f@, adj),
        r matches Some(w) ==> word_of_form(w, f@, adj),
{
    let text = string_of(f);
    let lw = lowercase(text.as_str());
    let cs = chars_of(lw.as_str());
    let t = transcribe_chars(&cs, adj);
    let src = string_of(&strip_stress(f));
    proof {
        lemma_strip_leaves_no_marks(f@);
    }
    Word::from_transcription(src, &t)
}

/// Reads one inflection template: its category, whether its forms are adjective-like,
/// and the words of its forms in order.
fn read_template(t: &String) -> (r: Result<(Vec<char>, bool, Vec<Word>), TemplateErrorKind>)
    ensures
        r is Ok <==> template_ok(t@),
        r matches Ok((c, adj, ws)) ==> {
            &&& c@ == template_category(t@)
            &&& adj == is_adjective_like(c@)
            &&& ws@.len() == template_endings(t@).len()
            &&& forall|k: int|
                0 <= k < ws@.len() ==> word_of_form(
                    #[trigger] ws@[k],
                    template_form(t@, k)->0,
                    adj,
                )
        },
        r matches Err(kind) ==> {
            &&& kind == TemplateErrorKind::MissingEndings ==> template_parts(t@).len() < 2
            &&& kind == TemplateErrorKind::MissingStem ==> exists|k: int|
                0 <= k < template_endings(t@).len() && #[trigger] template_form(t@, k) is None
            &&& kind == TemplateErrorKind::InvalidWord ==> exists|k: int|
                0 <= k < template_endings(t@).len() && !#[trigger] template_form_ok(t@, k)
        },
{
    let tc = chars_of(t.as_str());
    let parts = split_chars(&tc, '+');
    proof {
        assert(char_views(parts@) =~= template_parts(t@));
    }
    if parts.len() < 2 {
        return Err(TemplateErrorKind::MissingEndings);
    }
    let category = parts[0].clone();
    assert(category@ == char_views(parts@)[0]);
    let adj = is_adjective_like_exec(&category);
    let endings = split_chars(&parts[parts.len() - 1], ';');
    assert(char_views(parts@).last() == parts@[parts@.len() - 1]@);
    let ghost es = template_endings(t@);
    let mut ws: Vec<Word> = Vec::new();
    let mut k: usize = 0;
    while k < endings.len()
        invariant
            parts@.len() >= 2,
            char_views(parts@) == template_parts(t@),
            category@ == template_category(t@),
            adj == is_adjective_like(category@),
            es == template_endings(t@),
            endings@.len() == es.len(),
            forall|j: int| 0 <= j < endings@.len() ==> #[trigger] endings@[j]@ == es[j],
            k <= endings@.len(),
            ws@.len() == k,
            forall|j: int| 0 <= j < k ==> template_form_ok(t@, j),
            forall|j: int|
                0 <= j < k ==> word_of_form(#[trigger] ws@[j], template_form(t@, j)->0, adj),
        decreases endings@.len() - k,
    {
        proof {
            assert(char_views(parts@).last() == parts@[parts@.len() - 1]@);
            assert(template_form(t@, k as int) == form_text(char_views(parts@), endings@[k as int]@));
        }
        match form_text_exec(&parts, &endings[k]) {
            None => {
                assert(!template_form_ok(t@, k as int));
                return Err(TemplateErrorKind::MissingStem);
            },
            Some(f) => {
                match build_word(&f, adj) {
                    None => {
                        assert(!template_form_ok(t@, k as int));
                        return Err(TemplateErrorKind::InvalidWord);
                    },
                    Some(w) => {
                        ws.push(w);
                    },
                }
            },
        }
        k = k + 1;
    }
    Ok((category, adj, ws))
}

impl WordForms {
    /// The word indices of the forms.
    pub fn range(&self) -> (r: std::ops::Range<usize>)
        requires
            self.start_index + self.len <= usize::MAX,
        ensures
            r.start == self.start_index,
            r.end == self.start_index + self.len,
    {
        self.start_index..self.start_index + self.len
    }
}

/// The dictionary: all forms as words, their lexemes in load order, and the lookups.
pub struct WordCollector {
    words: Vec<Word>,
    word_form_groups: Vec<WordForms>,
    string2index: StringHashMap<usize>,
    index2group_index: Vec<usize>,
    stress_indexing: Vec<Vec<Vec<usize>>>,
    keys: Ghost<Seq<(u8, usize)>>,
}

impl WordCollector {
    /// The forms as words.
    pub closed spec fn spec_words(&self) -> Seq<Word> {
        self.words@
    }

    /// The lexemes.
    pub closed spec fn spec_groups(&self) -> Seq<WordForms> {
        self.word_form_groups@
    }

    /// The lexeme of each word.
    pub closed spec fn spec_group_of(&self) -> Seq<usize> {
        self.index2group_index@
    }

    /// The word index that the surface text lookup gives for a text.
    pub closed spec fn spec_lookup(&self) -> Map<Seq<char>, usize> {
        self.string2index@
    }

    /// The word indices with primary stress of class `l` at place `p` from the end.
    pub closed spec fn spec_bucket(&self, p: int, l: int) -> Seq<usize> {
        self.stress_indexing@[p]@[l]@
    }

    /// Whether the lexemes cover the words in order, each a non-empty contiguous run.
    pub open spec fn groups_wf(&self) -> bool {
        runs_wf(self.spec_groups(), self.spec_group_of(), self.spec_words().len())
    }

    /// Whether the surface text lookup gives, for the text of any word, the last word with
    /// that text, and nothing for other texts.
    pub open spec fn lookup_wf(&self) -> bool {
        lookup_facts(self.spec_lookup(), self.spec_words())
    }

    /// A well-formed dictionary has its lexemes in order.
    pub proof fn lemma_groups_wf(&self)
        requires
            self.wf(),
        ensures
            self.groups_wf(),
            self.spec_groups().len() <= usize::MAX,
            self.spec_words().len() <= usize::MAX,
    {
        assert(self.word_form_groups.len() == self.word_form_groups@.len());
        assert(self.words.len() == self.words@.len());
    }

    /// The well-formedness of the dictionary.
    pub closed spec fn wf(&self) -> bool {
        &&& self.groups_wf()
        &&& self.lookup_wf()
        &&& forall|i: int| 0 <= i < self.words@.len() ==> (#[trigger] self.words@[i]).has_primary()
        &&& index_facts(self.stress_indexing@, self.keys@, self.words@)
    }
}

/// Whether the map `m` gives, for the text of any word, the last word with that text, and
/// nothing for other texts.
pub open spec fn lookup_facts(m: Map<Seq<char>, usize>, words: Seq<Word>) -> bool {
    &&& forall|s: Seq<char>|
        #[trigger] m.contains_key(s) ==> {
            let j = m[s] as int;
            &&& 0 <= j < words.len()
            &&& words[j].spec_src() == s
        }
    &&& forall|i: int|
        0 <= i < words.len() ==> {
            let s = (#[trigger] words[i]).spec_src();
            &&& m.contains_key(s)
            &&& m[s] >= i
            &&& has_no_marks(s)
        }
}

/// Whether `idx[p][l]` lists exactly the words whose primary stress nearest the end has
/// class `l` at place `p`, and `keys` gives that class and place for each word.
pub open spec fn index_facts(
    idx: Seq<Vec<Vec<usize>>>,
    keys: Seq<(u8, usize)>,
    words: Seq<Word>,
) -> bool {
    &&& keys.len() == words.len()
    &&& forall|p: int| 0 <= p < idx.len() ==> (#[trigger] idx[p])@.len() == 8
    &&& forall|p: int, l: int, q: int|
        0 <= p < idx.len() && 0 <= l < 8 && 0 <= q < idx[p]@[l]@.len() ==> {
            let i = #[trigger] idx[p]@[l]@[q] as int;
            &&& 0 <= i < words.len()
            &&& is_primary_key(words[i], l as u8, p)
        }
    &&& forall|i: int|
        0 <= i < words.len() ==> {
            let key = #[trigger] keys[i];
            &&& key.0 < 8
            &&& is_primary_key(words[i], key.0, key.1 as int)
            &&& (key.1 as int) < idx.len()
            &&& idx[key.1 as int]@[key.0 as int]@.contains(i as usize)
        }
}

/// Adds word `i` to the bucket `(p, l)` of the stress index.
fn add_to_index(idx: &mut Vec<Vec<Vec<usize>>>, p: usize, l: usize, i: usize)
    requires
        p < old(idx)@.len(),
        l < 8,
        old(idx)@[p as int]@.len() == 8,
    ensures
        final(idx)@.len() == old(idx)@.len(),
        forall|other: int| 0 <= other < old(idx)@.len() && other != p ==> #[trigger] final(idx)@[other] == old(idx)@[other],
        final(idx)@[p as int]@.len() == 8,
        forall|l2: int|
            0 <= l2 < 8 && l2 != l ==> #[trigger] final(idx)@[p as int]@[l2] == old(idx)@[p as int]@[l2],
        final(idx)@[p as int]@[l as int]@ == old(idx)@[p as int]@[l as int]@.push(i),
{
    let mut place = idx.remove(p);
    let mut bucket = place.remove(l);
    bucket.push(i);
    place.insert(l, bucket);
    idx.insert(p, place);
}

/// Eight empty buckets, one for each vowel class.
fn empty_place() -> (r: Vec<Vec<usize>>)
    ensures
        r@.len() == 8,
        forall|l: int| 0 <= l < 8 ==> (#[trigger] r@[l])@.len() == 0,
{
    let mut r: Vec<Vec<usize>> = Vec::new();
    let mut k: usize = 0;
    while k < 8
        invariant
            k <= 8,
            r@.len() == k,
            forall|l: int| 0 <= l < k ==> (#[trigger] r@[l])@.len() == 0,
        decreases 8 - k,
    {
        r.push(Vec::new());
        k = k + 1;
    }
    r
}

/// The stress index of the words: word `i` in the bucket of the class and place of its primary
/// stress nearest the end.
fn build_stress_index(words: &Vec<Word>) -> (r: (Vec<Vec<Vec<usize>>>, Ghost<Seq<(u8, usize)>>))
    requires
        forall|i: int| 0 <= i < words@.len() ==> (#[trigger] words@[i]).has_primary(),
    ensures
        index_facts(r.0@, r.1@, words@),
{
    let mut idx: Vec<Vec<Vec<usize>>> = Vec::new();
    let ghost mut keys: Seq<(u8, usize)> = Seq::empty();
    let mut i: usize = 0;
    while i < words.len()
        invariant
            i <= words@.len(),
            forall|j: int| 0 <= j < words@.len() ==> (#[trigger] words@[j]).has_primary(),
            index_facts(idx@, keys, words@.subrange(0, i as int)),
        decreases words@.len() - i,
    {
        let ghost ws = words@.subrange(0, i as int);
        let ghost ws2 = words@.subrange(0, i as int + 1);
        assert(forall|j: int| 0 <= j < i ==> ws2[j] == #[trigger] ws[j]);
        let (l, p) = words[i].get_primary_stress();
        while idx.len() <= p
            invariant
                index_facts(idx@, keys, ws),
            decreases p + 1 - idx@.len(),
        {
            idx.push(empty_place());
        }
        let ghost old_idx = idx@;
        add_to_index(&mut idx, p, l as usize, i);
        proof {
            keys = keys.push((l, p));
            assert forall|pp: int, ll: int, q: int|
                0 <= pp < idx@.len() && 0 <= ll < 8 && 0 <= q < idx@[pp]@[ll]@.len() implies {
                let m = #[trigger] idx@[pp]@[ll]@[q] as int;
                &&& 0 <= m < ws2.len()
                &&& is_primary_key(ws2[m], ll as u8, pp)
            } by {
                if pp == p && ll == l {
                    if q < old_idx[pp]@[ll]@.len() {
                        assert(idx@[pp]@[ll]@[q] == old_idx[pp]@[ll]@[q]);
                    }
                } else if pp == p {
                    assert(idx@[pp]@[ll] == old_idx[pp]@[ll]);
                } else {
                    assert(idx@[pp] == old_idx[pp]);
                }
            }
            assert forall|j: int| 0 <= j < ws2.len() implies {
                let key = #[trigger] keys[j];
                &&& key.0 < 8
                &&& is_primary_key(ws2[j], key.0, key.1 as int)
                &&& (key.1 as int) < idx@.len()
                &&& idx@[key.1 as int]@[key.0 as int]@.contains(j as usize)
            } by {
                if j < i {
                    let key = keys[j];
                    let b0 = old_idx[key.1 as int]@[key.0 as int]@;
                    let q = choose|q: int| 0 <= q < b0.len() && b0[q] == j as usize;
                    if key.1 == p && key.0 == l {
                        assert(idx@[key.1 as int]@[key.0 as int]@[q] == j as usize);
                    } else if key.1 == p {
                        assert(idx@[key.1 as int]@[key.0 as int] == old_idx[key.1 as int]@[key.0 as int]);
                    } else {
                        assert(idx@[key.1 as int] == old_idx[key.1 as int]);
                    }
                } else {
                    let b = idx@[p as int]@[l as int]@;
                    assert(b[b.len() - 1] == i);
                }
            }
        }
        i = i + 1;
    }
    assert(words@.subrange(0, words@.len() as int) =~= words@);
    (idx, Ghost(keys))
}

/// The surface text lookup of the words: each text to the last word with that text.
fn build_lookup(words: &Vec<Word>) -> (r: StringHashMap<usize>)
    ensures
        lookup_facts(r@, words@),
{
    let mut m: StringHashMap<usize> = StringHashMap::new();
    let mut i: usize = 0;
    while i < words.len()
        invariant
            i <= words@.len(),
            lookup_facts(m@, words@.subrange(0, i as int)),
        decreases words@.len() - i,
    {
        let ghost ws = words@.subrange(0, i as int);
        let ghost ws2 = words@.subrange(0, i as int + 1);
        assert(forall|j: int| 0 <= j < i ==> ws2[j] == #[trigger] ws[j]);
        let key = words[i].src().clone();
        let ghost m0 = m@;
        m.insert(key, i);
        proof {
            assert forall|j: int| 0 <= j < ws2.len() implies {
                let s = (#[trigger] ws2[j]).spec_src();
                &&& m@.contains_key(s)
                &&& m@[s] >= j
                &&& has_no_marks(s)
            } by {
                if j < i {
                    let s = ws[j].spec_src();
                    if s != ws2[i as int].spec_src() {
                        assert(m@[s] == m0[s]);
                    }
                }
            }
        }
        i = i + 1;
    }
    assert(words@.subrange(0, words@.len() as int) =~= words@);
    m
}

/// Reads every inflection template, in order: the words of all forms, the lexemes as runs of
/// word indices, and the lexeme of each word.
fn load_groups(templates: &Vec<String>) -> (r: Result<(Vec<Word>, Vec<WordForms>, Vec<usize>), TemplateError>)
    ensures
        r is Ok <==> forall|g: int| 0 <= g < templates@.len() ==> template_ok(#[trigger] templates@[g]@),
        r matches Ok((ws, gs, go)) ==> {
            &&& runs_wf(gs@, go@, ws@.len())
            &&& loaded_from(ws@, gs@, templates@)
            &&& forall|i: int| 0 <= i < ws@.len() ==> (#[trigger] ws@[i]).has_primary()
        },
        r matches Err(e) ==> template_error(templates@, e),
{
    let mut words: Vec<Word> = Vec::new();
    let mut groups: Vec<WordForms> = Vec::new();
    let mut group_of: Vec<usize> = Vec::new();
    let mut g: usize = 0;
    while g < templates.len()
        invariant
            g <= templates@.len(),
            groups@.len() == g,
            forall|h: int| 0 <= h < g ==> template_ok(#[trigger] templates@[h]@),
            runs_wf(groups@, group_of@, words@.len()),
            loaded_from(words@, groups@, templates@.subrange(0, g as int)),
            forall|i: int| 0 <= i < words@.len() ==> (#[trigger] words@[i]).has_primary(),
        decreases templates@.len() - g,
    {
        match read_template(&templates[g]) {
            Err(kind) => {
                return Err(TemplateError { group: g, kind });
            },
            Ok((category, adj, mut ws)) => {
                let ghost ws0 = ws@;
                let ghost words0 = words@;
                let ghost go0 = group_of@;
                let start = words.len();
                let count = ws.len();
                let mut moved: usize = 0;
                while ws.len() > 0
                    invariant
                        moved <= count == ws0.len(),
                        ws@ == ws0.subrange(moved as int, count as int),
                        words@ == words0 + ws0.subrange(0, moved as int),
                        group_of@ == go0 + Seq::new(moved as nat, |j: int| g),
                        start == words0.len(),
                        forall|i: int| 0 <= i < ws0.len() ==> (#[trigger] ws0[i]).has_primary(),
                        forall|i: int| 0 <= i < words0.len() ==> (#[trigger] words0[i]).has_primary(),
                    decreases ws@.len(),
                {
                    let w = ws.remove(0);
                    words.push(w);
                    group_of.push(g);
                    moved = moved + 1;
                    assert(ws@ =~= ws0.subrange(moved as int, count as int));
                    assert(words@ =~= words0 + ws0.subrange(0, moved as int));
                    assert(group_of@ =~= go0 + Seq::new(moved as nat, |j: int| g));
                }
                assert(ws0.subrange(0, count as int) =~= ws0);
                let ghost groups0 = groups@;
                groups.push(WordForms { start_index: start, len: count, speech_part: string_of(&category) });
                proof {
                    lemma_split_nonempty(template_parts(templates@[g as int]@).last(), ';');
                    let ts = templates@.subrange(0, g as int);
                    let ts2 = templates@.subrange(0, g as int + 1);
                    assert(forall|h: int| 0 <= h < g ==> ts2[h] == #[trigger] ts[h]);
                    assert(forall|h: int| 0 <= h < g ==> groups@[h] == #[trigger] groups0[h]);
                    assert(forall|i: int| 0 <= i < words0.len() ==> words@[i] == #[trigger] words0[i]);
                    assert forall|h: int, k: int|
                        0 <= h < groups@.len() && 0 <= k < groups@[h].len implies word_of_form(
                            #[trigger] words@[groups@[h].start_index + k],
                            template_form(ts2[h]@, k)->0,
                            is_adjective_like(template_category(ts2[h]@)),
                        ) by {
                        if h < g {
                            assert(words@[groups@[h].start_index + k] == words0[groups0[h].start_index + k]);
                        } else {
                            assert(words@[start + k] == ws0[k]);
                        }
                    }
                    assert forall|i: int| 0 <= i < words@.len() implies {
                        let h = #[trigger] group_of@[i] as int;
                        &&& 0 <= h < groups@.len()
                        &&& groups@[h].start_index <= i < groups@[h].start_index + groups@[h].len
                    } by {
                        if i < words0.len() {
                            assert(group_of@[i] == go0[i]);
                        }
                    }
                    assert forall|i: int| 0 <= i < words@.len() implies (#[trigger] words@[i]).has_primary() by {
                        if i >= words0.len() {
                            assert(words@[i] == ws0[i - words0.len()]);
                        }
                    }
                }
            },
        }
        g = g + 1;
    }
    assert(templates@.subrange(0, templates@.len() as int) =~= templates@);
    Ok((words, groups, group_of))
}

/// Whether `e` names the first inflection template of `ts` that cannot be read, and why.
pub open spec fn template_error(ts: Seq<String>, e: TemplateError) -> bool {
    let t = ts[e.group as int]@;
    &&& (e.group as int) < ts.len()
    &&& !template_ok(t)
    &&& forall|h: int| 0 <= h < e.group ==> template_ok(#[trigger] ts[h]@)
    &&& e.kind == TemplateErrorKind::MissingEndings ==> template_parts(t).len() < 2
    &&& e.kind == TemplateErrorKind::MissingStem ==> exists|k: int|
        0 <= k < template_endings(t).len() && #[trigger] template_form(t, k) is None
    &&& e.kind == TemplateErrorKind::InvalidWord ==> exists|k: int|
        0 <= k < template_endings(t).len() && !#[trigger] template_form_ok(t, k)
}

impl WordCollector {
    /// Builds the dictionary from one inflection template per lexeme, in load order (a
    /// lexeme's place is its frequency rank). A template reads
    /// `category+stem+stem+...+ending;ending;...`; an ending that starts with a digit takes
    /// the stem of that number, any other the first stem. Fails on the first template that
    /// cannot be read.
    pub fn new(templates: &Vec<String>) -> (r: Result<WordCollector, TemplateError>)
        ensures
            r is Ok <==> forall|g: int| 0 <= g < templates@.len() ==> template_ok(#[trigger] templates@[g]@),
            r matches Ok(wc) ==> wc.wf() && loaded_from(wc.spec_words(), wc.spec_groups(), templates@),
            r matches Err(e) ==> template_error(templates@, e),
    {
        let (words, word_form_groups, index2group_index) = match load_groups(templates) {
            Ok(x) => x,
            Err(e) => {
                return Err(e);
            },
        };
        let string2index = build_lookup(&words);
        let (stress_indexing, keys) = build_stress_index(&words);
        Ok(WordCollector { words, word_form_groups, string2index, index2group_index, stress_indexing, keys })
    }
}

impl WordCollector {
    /// The number of words.
    pub fn words_len(&self) -> (r: usize)
        ensures
            r == self.spec_words().len(),
    {
        self.words.len()
    }

    /// The number of lexemes.
    pub fn groups_len(&self) -> (r: usize)
        ensures
            r == self.spec_groups().len(),
    {
        self.word_form_groups.len()
    }

    /// The word at index `i`.
    pub fn word_at(&self, i: usize) -> (r: &Word)
        requires
            i < self.spec_words().len(),
        ensures
            *r == self.spec_words()[i as int],
    {
        &self.words[i]
    }

    /// The lexeme at index `g`.
    pub fn group_at(&self, g: usize) -> (r: &WordForms)
        requires
            g < self.spec_groups().len(),
        ensures
            *r == self.spec_groups()[g as int],
    {
        &self.word_form_groups[g]
    }

    /// The index of the word whose text (without stress marks) is `not_stressed`: the last
    /// such word; `None` where there is none.
    pub fn get_index(&self, not_stressed: &str) -> (r: Option<usize>)
        requires
            self.wf(),
        ensures
            match r {
                Some(j) => {
                    &&& (j as int) < self.spec_words().len()
                    &&& self.spec_words()[j as int].spec_src() == not_stressed@
                    &&& forall|i: int|
                        j < i < self.spec_words().len() ==> (#[trigger] self.spec_words()[i]).spec_src()
                            != not_stressed@
                },
                None => forall|i: int|
                    0 <= i < self.spec_words().len() ==> (#[trigger] self.spec_words()[i]).spec_src()
                        != not_stressed@,
            },
            r == (if self.spec_lookup().contains_key(not_stressed@) {
                Some(self.spec_lookup()[not_stressed@])
            } else {
                None
            }),
    {
        match self.string2index.get(not_stressed) {
            Some(j) => Some(*j),
            None => None,
        }
    }

    /// The lexeme of the word at `index`; `None` where there is no such word.
    pub fn get_forms_by_word_index(&self, index: usize) -> (r: Option<usize>)
        requires
            self.wf(),
        ensures
            r is Some <==> (index as int) < self.spec_words().len(),
            r matches Some(g) ==> {
                &&& g == self.spec_group_of()[index as int]
                &&& (g as int) < self.spec_groups().len()
                &&& self.spec_groups()[g as int].start_index <= index
                &&& index < self.spec_groups()[g as int].start_index + self.spec_groups()[g as int].len
            },
    {
        if index < self.index2group_index.len() {
            Some(self.index2group_index[index])
        } else {
            None
        }
    }

    /// The word whose text (without stress marks) is `not_stressed` (see [`WordCollector::get_index`]).
    pub fn get_word(&self, not_stressed: &str) -> (r: Option<&Word>)
        requires
            self.wf(),
        ensures
            r is Some <==> self.spec_lookup().contains_key(not_stressed@),
            r matches Some(w) ==> *w == self.spec_words()[self.spec_lookup()[not_stressed@] as int],
            match r {
                Some(w) => exists|j: int|
                    0 <= j < self.spec_words().len() && *w == #[trigger] self.spec_words()[j]
                        && w.spec_src() == not_stressed@,
                None => forall|i: int|
                    0 <= i < self.spec_words().len() ==> (#[trigger] self.spec_words()[i]).spec_src()
                        != not_stressed@,
            },
    {
        match self.get_index(not_stressed) {
            Some(j) => Some(&self.words[j]),
            None => None,
        }
    }

    /// The lexeme of the word whose text (without stress marks) is `not_stressed`.
    pub fn get_forms(&self, not_stressed: &str) -> (r: Option<usize>)
        requires
            self.wf(),
        ensures
            match r {
                Some(g) => exists|j: int|
                    0 <= j < self.spec_words().len() && self.spec_words()[j].spec_src()
                        == not_stressed@ && g == #[trigger] self.spec_group_of()[j],
                None => forall|i: int|
                    0 <= i < self.spec_words().len() ==> (#[trigger] self.spec_words()[i]).spec_src()
                        != not_stressed@,
            },
            r matches Some(g) ==> (g as int) < self.spec_groups().len(),
            r == (if self.spec_lookup().contains_key(not_stressed@) {
                Some(self.spec_group_of()[self.spec_lookup()[not_stressed@] as int])
            } else {
                None
            }),
    {
        match self.get_index(not_stressed) {
            Some(j) => self.get_forms_by_word_index(j),
            None => None,
        }
    }

    /// The grammatical category of the lexeme of the word whose text is `not_stressed`.
    pub fn get_speech_part(&self, not_stressed: &str) -> (r: Option<&String>)
        requires
            self.wf(),
        ensures
            match r {
                Some(c) => exists|j: int|
                    0 <= j < self.spec_words().len() && self.spec_words()[j].spec_src()
                        == not_stressed@ && *c == self.spec_groups()[
                        #[trigger] self.spec_group_of()[j] as int].speech_part,
                None => forall|i: int|
                    0 <= i < self.spec_words().len() ==> (#[trigger] self.spec_words()[i]).spec_src()
                        != not_stressed@,
            },
    {
        match self.get_forms(not_stressed) {
            Some(g) => Some(&self.word_form_groups[g].speech_part),
            None => None,
        }
    }
}

/// A word has one primary stress nearest its end.
pub proof fn lemma_primary_key_unique(w: Word, la: u8, pa: int, lb: u8, pb: int)
    requires
        is_primary_key(w, la, pa),
        is_primary_key(w, lb, pb),
    ensures
        la == lb,
        pa == pb,
{
    let vr = w.spec_vowels().reverse();
    if pa < pb {
        assert(vr[pa].accent != Accent::Primary);
    }
    if pb < pa {
        assert(vr[pb].accent != Accent::Primary);
    }
}

/// Whether `i` is listed in `bucket`.
pub open spec fn listed(bucket: Seq<usize>, i: int) -> bool {
    exists|w: int| 0 <= w < bucket.len() && bucket[w] as int == i
}

/// Sets `mask[i]` for every `i` in `bucket`.
fn mark_bucket(mask: &mut Vec<bool>, bucket: &Vec<usize>)
    requires
        forall|q: int| 0 <= q < bucket@.len() ==> (#[trigger] bucket@[q] as int) < old(mask)@.len(),
    ensures
        final(mask)@.len() == old(mask)@.len(),
        forall|i: int|
            0 <= i < old(mask)@.len() ==> #[trigger] final(mask)@[i] == (old(mask)@[i] || listed(
                bucket@,
                i,
            )),
{
    let ghost m0 = mask@;
    let mut q: usize = 0;
    while q < bucket.len()
        invariant
            q <= bucket@.len(),
            mask@.len() == m0.len(),
            forall|q2: int| 0 <= q2 < bucket@.len() ==> (#[trigger] bucket@[q2] as int) < m0.len(),
            forall|i: int|
                0 <= i < m0.len() ==> #[trigger] mask@[i] == (m0[i] || listed(
                    bucket@.subrange(0, q as int),
                    i,
                )),
        decreases bucket@.len() - q,
    {
        mask.set(bucket[q], true);
        proof {
            assert forall|i: int| 0 <= i < m0.len() implies #[trigger] mask@[i] == (m0[i]
                || listed(bucket@.subrange(0, q as int + 1), i)) by {
                let s0 = bucket@.subrange(0, q as int);
                let s1 = bucket@.subrange(0, q as int + 1);
                if listed(s0, i) {
                    let w = choose|w: int| 0 <= w < s0.len() && s0[w] as int == i;
                    assert(s1[w] as int == i);
                }
                if listed(s1, i) && !listed(s0, i) {
                    let w = choose|w: int| 0 <= w < s1.len() && s1[w] as int == i;
                    if w < q {
                        assert(s0[w] as int == i);
                    }
                }
                if i == bucket@[q as int] as int {
                    assert(s1[q as int] as int == i);
                }
            }
        }
        q = q + 1;
    }
    assert(bucket@.subrange(0, bucket@.len() as int) =~= bucket@);
}

impl WordCollector {
    /// Which words the stress pattern of `word` admits: `r[i]` holds where some stress of
    /// `word` (class and place from the end) is the primary stress of word `i` nearest its
    /// end, a stress of class `!` standing for any class.
    pub fn words_with_same_stresses(&self, word: &Word) -> (r: Vec<bool>)
        requires
            self.wf(),
        ensures
            r@.len() == self.spec_words().len(),
            forall|i: int|
                0 <= i < self.spec_words().len() ==> #[trigger] r@[i] == matches_stresses(
                    self.spec_words()[i],
                    stresses_from_end(word.spec_vowels().reverse()),
                ),
    {
        let qs = word.get_all_stresses();
        let n = self.words.len();
        let mut mask: Vec<bool> = Vec::new();
        while mask.len() < n
            invariant
                mask@.len() <= n,
                forall|i: int| 0 <= i < mask@.len() ==> !#[trigger] mask@[i],
            decreases n - mask@.len(),
        {
            mask.push(false);
        }
        let ghost words = self.words@;
        let mut k: usize = 0;
        while k < qs.len()
            invariant
                self.wf(),
                words == self.words@,
                n == words.len(),
                mask@.len() == n,
                k <= qs@.len(),
                forall|i: int|
                    0 <= i < n ==> #[trigger] mask@[i] == exists|k2: int|
                        0 <= k2 < k && stress_selects(words[i], (#[trigger] qs@[k2]).0, qs@[k2].1 as int),
            decreases qs@.len() - k,
        {
            let (l, p) = qs[k];
            let ghost m0 = mask@;
            if p < self.stress_indexing.len() {
                if l == ANY_STRESSED {
                    let mut l2: usize = 0;
                    while l2 < 8
                        invariant
                            self.wf(),
                            words == self.words@,
                            n == words.len(),
                            mask@.len() == n,
                            p < self.stress_indexing@.len(),
                            l2 <= 8,
                            forall|i: int|
                                0 <= i < n ==> #[trigger] mask@[i] == (m0[i] || exists|l3: u8|
                                    l3 < l2 && is_primary_key(words[i], l3, p as int)),
                        decreases 8 - l2,
                    {
                        let ghost m1 = mask@;
                        mark_bucket(&mut mask, &self.stress_indexing[p][l2]);
                        proof {
                            assert forall|i: int| 0 <= i < n implies #[trigger] mask@[i] == (m0[i]
                                || exists|l3: u8| l3 < l2 + 1 && is_primary_key(words[i], l3, p as int)) by {
                                let b = self.spec_bucket(p as int, l2 as int);
                                if listed(b, i) {
                                    let q = choose|q: int| 0 <= q < b.len() && b[q] as int == i;
                                    assert(b[q] as int == i);
                                    assert(is_primary_key(words[i], l2 as u8, p as int));
                                }
                                if exists|l3: u8| l3 < l2 + 1 && is_primary_key(words[i], l3, p as int) {
                                    let l3 = choose|l3: u8| l3 < l2 + 1 && is_primary_key(words[i], l3, p as int);
                                    if l3 == l2 {
                                        let key = self.keys@[i];
                                        lemma_primary_key_unique(words[i], l3, p as int, key.0, key.1 as int);
                                        let q = choose|q: int| 0 <= q < b.len() && b[q] == i as usize;
                                        assert(b[q] as int == i);
                                    }
                                }
                            }
                        }
                        l2 = l2 + 1;
                    }
                } else if l < 8 {
                    mark_bucket(&mut mask, &self.stress_indexing[p][l as usize]);
                    proof {
                        assert forall|i: int| 0 <= i < n implies #[trigger] mask@[i] == (m0[i]
                            || is_primary_key(words[i], l, p as int)) by {
                            let b = self.spec_bucket(p as int, l as int);
                            if listed(b, i) {
                                let q = choose|q: int| 0 <= q < b.len() && b[q] as int == i;
                                assert(b[q] as int == i);
                            }
                            if is_primary_key(words[i], l, p as int) {
                                let key = self.keys@[i];
                                lemma_primary_key_unique(words[i], l, p as int, key.0, key.1 as int);
                                let q = choose|q: int| 0 <= q < b.len() && b[q] == i as usize;
                                assert(b[q] as int == i);
                            }
                        }
                    }
                } else {
                    proof {
                        assert forall|i: int| 0 <= i < n implies !is_primary_key(words[i], l, p as int) by {
                            if is_primary_key(words[i], l, p as int) {
                                let key = self.keys@[i];
                                lemma_primary_key_unique(words[i], l, p as int, key.0, key.1 as int);
                            }
                        }
                    }
                }
            } else {
                proof {
                    assert forall|i: int, l3: u8| 0 <= i < n implies !is_primary_key(words[i], l3, p as int) by {
                        if is_primary_key(words[i], l3, p as int) {
                            let key = self.keys@[i];
                            lemma_primary_key_unique(words[i], l3, p as int, key.0, key.1 as int);
                        }
                    }
                }
            }
            proof {
                assert forall|i: int| 0 <= i < n implies #[trigger] mask@[i] == exists|k2: int|
                    0 <= k2 < k + 1 && stress_selects(words[i], (#[trigger] qs@[k2]).0, qs@[k2].1 as int) by {
                    if stress_selects(words[i], l, p as int) {
                        assert(qs@[k as int] == (l, p));
                    }
                    if exists|k2: int| 0 <= k2 < k + 1 && stress_selects(words[i], (#[trigger] qs@[k2]).0, qs@[k2].1 as int) {
                        let k2 = choose|k2: int| 0 <= k2 < k + 1 && stress_selects(words[i], (#[trigger] qs@[k2]).0, qs@[k2].1 as int);
                        if k2 < k {
                            assert(m0[i]);
                        }
                    }
                }
            }
            k = k + 1;
        }
        mask
    }
}

/// Looking up the text of any word of the dictionary, with stress marks stripped, finds a
/// word with that very text.
pub proof fn lemma_lookup_round_trip(wc: &WordCollector, i: int)
    requires
        wc.wf(),
        0 <= i < wc.spec_words().len(),
    ensures
        ({
            let s = strip_marks(wc.spec_words()[i].spec_src());
            &&& wc.spec_lookup().contains_key(s)
            &&& wc.spec_words()[wc.spec_lookup()[s] as int].spec_src() == s
        }),
{
    let w = wc.spec_words()[i];
    lemma_strip_no_marks(w.spec_src());
}

} // verus!
