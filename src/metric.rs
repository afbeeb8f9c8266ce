//! The discrete side of the distance between two words: which word is the reference, how
//! their vowels and consonant clusters line up from the end, and how each pair of aligned
//! vowels is scored by stress. The real-valued weights are applied by the caller.
use vstd::prelude::*;
use crate::phoneme::{Accent, Vowel};
use crate::word::{Word, clusters_from_end};
use crate::text::chars_of;

verus! {

/// How a pair of aligned vowels is scored, by their stresses.
#[derive(Debug, Clone, Copy, PartialEq, Eq, Structural)]
pub enum StressMatch {
    /// Both unstressed: phonetic distance at full weight.
    Unstressed,
    /// Exactly one has the primary stress and the other none: the fixed bad-rhythm penalty.
    BadRhythm,
    /// A secondary stress against a secondary stress or none: the loose multiplier.
    Loose,
    /// Primary against primary or secondary: the strict multiplier (or nothing in index mode).
    Strict,
}

/// The scoring class of two stresses.
pub open spec fn spec_stress_match(a: Accent, b: Accent) -> StressMatch {
    match (a, b) {
        (Accent::NoAccent, Accent::NoAccent) => StressMatch::Unstressed,
        (Accent::NoAccent, Accent::Primary) | (Accent::Primary, Accent::NoAccent) => StressMatch::BadRhythm,
        (Accent::NoAccent, Accent::Secondary)
        | (Accent::Secondary, Accent::NoAccent)
        | (Accent::Secondary, Accent::Secondary) => StressMatch::Loose,
        _ => StressMatch::Strict,
    }
}

/// The scoring class of two stresses.
pub fn stress_match(a: Accent, b: Accent) -> (r: StressMatch)
    ensures
        r == spec_stress_match(a, b),
{
    match (a, b) {
        (Accent::NoAccent, Accent::NoAccent) => StressMatch::Unstressed,
        (Accent::NoAccent, Accent::Primary) | (Accent::Primary, Accent::NoAccent) => StressMatch::BadRhythm,
        (Accent::NoAccent, Accent::Secondary)
        | (Accent::Secondary, Accent::NoAccent)
        | (Accent::Secondary, Accent::Secondary) => StressMatch::Loose,
        _ => StressMatch::Strict,
    }
}

/// The two words ordered by vowel count, the one with fewer vowels first (`a` first on a tie).
pub open spec fn sorted_pair(a: Word, b: Word) -> (Word, Word) {
    if a.spec_vowel_count() > b.spec_vowel_count() {
        (b, a)
    } else {
        (a, b)
    }
}

/// The vowels of two words paired from the end, as far as the shorter reaches.
pub open spec fn aligned_vowels(x: Seq<Vowel>, y: Seq<Vowel>) -> Seq<(Vowel, Vowel)> {
    let n = if x.len() <= y.len() {
        x.len()
    } else {
        y.len()
    };
    Seq::new(n, |k: int| (x.reverse()[k], y.reverse()[k]))
}

/// The lengths of the consonant clusters of two words paired from the end.
pub open spec fn aligned_cluster_lengths(
    x: Seq<(usize, usize)>,
    y: Seq<(usize, usize)>,
) -> Seq<(usize, usize)> {
    let n = if x.len() <= y.len() {
        x.len()
    } else {
        y.len()
    };
    Seq::new(n, |k: int| (x[k].1, y[k].1))
}

/// The discrete plan of a distance measurement between two words.
#[derive(Debug)]
pub struct MeasurePlan {
    /// The second argument has fewer vowels and is the reference.
    pub swapped: bool,
    /// One of the words is a bare stress pattern: only vowels are compared.
    pub pattern_mode: bool,
    /// A pattern is compared with a word of another vowel count: the misc term is the sentinel.
    pub syllable_mismatch: bool,
    /// Exactly one of the words ends in a consonant.
    pub cons_end_differs: bool,
    /// How many more vowels the longer word has.
    pub vowel_count_diff: usize,
    /// The vowel count of the reference word.
    pub shorter_vowel_count: usize,
    /// Vowels paired from the end: the reference's first in each pair.
    pub vowel_pairs: Vec<(Vowel, Vowel)>,
    /// The scoring class of each pair of `vowel_pairs`.
    pub stress_matches: Vec<StressMatch>,
    /// Consonant cluster lengths paired from the end: the reference's first in each pair.
    pub cluster_lengths: Vec<(usize, usize)>,
}

/// Every fact of a plan for the words `first` (the reference) and `second`.
pub open spec fn plan_of(p: MeasurePlan, first: Word, second: Word) -> bool {
    let pairs = aligned_vowels(first.spec_vowels(), second.spec_vowels());
    &&& p.pattern_mode == (first.spec_abstract() || second.spec_abstract())
    &&& p.syllable_mismatch == (p.pattern_mode && first.spec_vowel_count()
        != second.spec_vowel_count())
    &&& p.cons_end_differs == ((first.spec_phones().last() is Consonant) != (
    second.spec_phones().last() is Consonant))
    &&& p.vowel_count_diff == second.spec_vowel_count() - first.spec_vowel_count()
    &&& p.shorter_vowel_count == first.spec_vowel_count()
    &&& p.vowel_pairs@ == pairs
    &&& p.stress_matches@ == Seq::new(
        pairs.len(),
        |k: int| spec_stress_match(pairs[k].0.accent, pairs[k].1.accent),
    )
    &&& p.cluster_lengths@ == aligned_cluster_lengths(
        clusters_from_end(first.spec_phones()),
        clusters_from_end(second.spec_phones()),
    )
}

/// The plan of measuring the distance between `a` and `b`. The word with fewer vowels is
/// the reference, whichever argument it is: every field but `swapped` depends on the
/// ordered pair alone.
pub fn measure_plan(a: &Word, b: &Word) -> (r: MeasurePlan)
    ensures
        r.swapped == (a.spec_vowel_count() > b.spec_vowel_count()),
        plan_of(r, sorted_pair(*a, *b).0, sorted_pair(*a, *b).1),
{
    let (first, second) = Word::get_sorted_by_sylls(a, b);
    let swapped = a.get_vowel_count() > b.get_vowel_count();
    let pattern_mode = first.only_stress_structure() || second.only_stress_structure();
    let n1 = first.get_vowel_count();
    let n2 = second.get_vowel_count();
    let syllable_mismatch = pattern_mode && n1 != n2;
    let cons_end_differs = first.has_cons_end() != second.has_cons_end();
    let v1 = first.vowels_from_end();
    let v2 = second.vowels_from_end();
    let ghost pairs = aligned_vowels(first.spec_vowels(), second.spec_vowels());
    let mut vowel_pairs: Vec<(Vowel, Vowel)> = Vec::new();
    let mut stress_matches: Vec<StressMatch> = Vec::new();
    let mut k: usize = 0;
    while k < n1
        invariant
            n1 == first.spec_vowel_count() == v1@.len(),
            n2 == second.spec_vowel_count() == v2@.len(),
            n1 <= n2,
            v1@ == first.spec_vowels().reverse(),
            v2@ == second.spec_vowels().reverse(),
            pairs == aligned_vowels(first.spec_vowels(), second.spec_vowels()),
            pairs.len() == n1,
            k <= n1,
            vowel_pairs@ == pairs.subrange(0, k as int),
            stress_matches@ == Seq::new(
                k as nat,
                |q: int| spec_stress_match(pairs[q].0.accent, pairs[q].1.accent),
            ),
        decreases n1 - k,
    {
        let x = v1[k];
        let y = v2[k];
        vowel_pairs.push((x, y));
        stress_matches.push(stress_match(x.accent, y.accent));
        k = k + 1;
        assert(vowel_pairs@ =~= pairs.subrange(0, k as int));
        assert(stress_matches@ =~= Seq::new(
            k as nat,
            |q: int| spec_stress_match(pairs[q].0.accent, pairs[q].1.accent),
        ));
    }
    assert(vowel_pairs@ =~= pairs);
    let c1 = first.splitted_consonants_rev();
    let c2 = second.splitted_consonants_rev();
    let ghost lens = aligned_cluster_lengths(c1@, c2@);
    let m = if c1.len() <= c2.len() {
        c1.len()
    } else {
        c2.len()
    };
    let mut cluster_lengths: Vec<(usize, usize)> = Vec::new();
    let mut j: usize = 0;
    while j < m
        invariant
            m <= c1@.len(),
            m <= c2@.len(),
            lens == aligned_cluster_lengths(c1@, c2@),
            lens.len() == m,
            j <= m,
            cluster_lengths@ == lens.subrange(0, j as int),
        decreases m - j,
    {
        cluster_lengths.push((c1[j].1, c2[j].1));
        j = j + 1;
        assert(cluster_lengths@ =~= lens.subrange(0, j as int));
    }
    assert(cluster_lengths@ =~= lens);
    MeasurePlan {
        swapped,
        pattern_mode,
        syllable_mismatch,
        cons_end_differs,
        vowel_count_diff: n2 - n1,
        shorter_vowel_count: n1,
        vowel_pairs,
        stress_matches,
        cluster_lengths,
    }
}

/// The reference of a measurement has no more vowels than the other word, and where the
/// vowel counts differ the ordered pair is the same whichever way the words are given.
pub proof fn lemma_reference_is_shorter(a: Word, b: Word)
    ensures
        sorted_pair(a, b).0.spec_vowel_count() <= sorted_pair(a, b).1.spec_vowel_count(),
        a.spec_vowel_count() != b.spec_vowel_count() ==> sorted_pair(a, b) == sorted_pair(b, a),
{
}

/// A stress pattern matches only words of its own vowel count: against any other, the plan
/// marks the syllable mismatch; against one of the same count, it does not.
pub proof fn lemma_pattern_needs_same_count(p: MeasurePlan, a: Word, b: Word)
    requires
        a.spec_abstract(),
        plan_of(p, sorted_pair(a, b).0, sorted_pair(a, b).1),
    ensures
        p.pattern_mode,
        p.syllable_mismatch <==> a.spec_vowel_count() != b.spec_vowel_count(),
{
}

/// A word measured against itself lines up with itself exactly: no consonant-end or length
/// difference, no syllable mismatch, equal vowels and cluster lengths in every aligned pair,
/// and never a bad rhythm.
pub proof fn lemma_plan_of_self(p: MeasurePlan, w: Word)
    requires
        plan_of(p, w, w),
    ensures
        !p.cons_end_differs,
        !p.syllable_mismatch,
        p.vowel_count_diff == 0,
        forall|k: int| 0 <= k < p.vowel_pairs@.len() ==> (#[trigger] p.vowel_pairs@[k]).0 == p.vowel_pairs@[k].1,
        forall|k: int| 0 <= k < p.stress_matches@.len() ==> #[trigger] p.stress_matches@[k] != StressMatch::BadRhythm,
        forall|k: int| 0 <= k < p.cluster_lengths@.len() ==> (#[trigger] p.cluster_lengths@[k]).0 == p.cluster_lengths@[k].1,
{
    let pairs = aligned_vowels(w.spec_vowels(), w.spec_vowels());
    assert forall|k: int| 0 <= k < p.stress_matches@.len() implies #[trigger] p.stress_matches@[k]
        != StressMatch::BadRhythm by {
        assert(pairs[k].0 == pairs[k].1);
    }
}

/// Which part-of-speech bonus applies between a query and a candidate.
#[derive(Debug, Clone, Copy, PartialEq, Eq, Structural)]
pub enum SpeechPartMatch {
    /// The query's category is unknown: no term at all.
    Unknown,
    /// Both are verbs (`г`).
    Verb,
    /// Both are nouns (`с`).
    Noun,
    /// Both are adjectives (`п`).
    Adjective,
    /// Both are adverbs (`н`).
    Adverb,
    /// Any other pair: a term of zero.
    Other,
}

/// The part-of-speech bonus between a query of category `query` and a candidate of category
/// `candidate`.
pub open spec fn spec_speech_part_match(query: Option<Seq<char>>, candidate: Seq<char>) -> SpeechPartMatch {
    match query {
        None => SpeechPartMatch::Unknown,
        Some(q) => if q != candidate {
            SpeechPartMatch::Other
        } else if q == seq!['г'] {
            SpeechPartMatch::Verb
        } else if q == seq!['с'] {
            SpeechPartMatch::Noun
        } else if q == seq!['п'] {
            SpeechPartMatch::Adjective
        } else if q == seq!['н'] {
            SpeechPartMatch::Adverb
        } else {
            SpeechPartMatch::Other
        },
    }
}

/// The one-letter category that `c` is, if it is one.
fn single_letter(c: &str) -> (r: Option<char>)
    ensures
        r matches Some(x) ==> c@ == seq![x],
        r is None ==> c@.len() != 1,
{
    let cs = chars_of(c);
    if cs.len() == 1 {
        assert(cs@ =~= seq![cs@[0]]);
        Some(cs[0])
    } else {
        None
    }
}

/// The part-of-speech bonus between a query of category `to_find_sp` (if known) and a
/// candidate of category `my_sp`: one of the four closed classes where both are the same.
pub fn speech_part_match(to_find_sp: Option<&str>, my_sp: &str) -> (r: SpeechPartMatch)
    ensures
        r == spec_speech_part_match(
            match to_find_sp {
                Some(q) => Some(q@),
                None => None,
            },
            my_sp@,
        ),
{
    match to_find_sp {
        None => SpeechPartMatch::Unknown,
        Some(q) => {
            let a = single_letter(q);
            let b = single_letter(my_sp);
            match (a, b) {
                (Some(x), Some(y)) => {
                    if x != y {
                        assert(q@[0] != my_sp@[0]);
                        SpeechPartMatch::Other
                    } else if x == 'г' {
                        SpeechPartMatch::Verb
                    } else if x == 'с' {
                        SpeechPartMatch::Noun
                    } else if x == 'п' {
                        SpeechPartMatch::Adjective
                    } else if x == 'н' {
                        SpeechPartMatch::Adverb
                    } else {
                        proof {
                            assert(q@ != seq!['г']) by {
                                if q@ == seq!['г'] {
                                    assert(q@[0] == seq!['г'][0]);
                                }
                            }
                            assert(q@ != seq!['с']) by {
                                if q@ == seq!['с'] {
                                    assert(q@[0] == seq!['с'][0]);
                                }
                            }
                            assert(q@ != seq!['п']) by {
                                if q@ == seq!['п'] {
                                    assert(q@[0] == seq!['п'][0]);
                                }
                            }
                            assert(q@ != seq!['н']) by {
                                if q@ == seq!['н'] {
                                    assert(q@[0] == seq!['н'][0]);
                                }
                            }
                        }
                        SpeechPartMatch::Other
                    }
                },
                _ => {
                    proof {
                        assert(seq!['г'].len() == 1);
                        assert(seq!['с'].len() == 1);
                        assert(seq!['п'].len() == 1);
                        assert(seq!['н'].len() == 1);
                        if q@ == my_sp@ {
                            assert(q@.len() != 1);
                        }
                    }
                    SpeechPartMatch::Other
                },
            }
        },
    }
}

} // verus!
