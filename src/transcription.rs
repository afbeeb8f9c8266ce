//! Orthographic text to phoneme letters, after the rules of Russian pronunciation.
//!
//! The output is a string of phoneme letters with marks: `*` after a voiced consonant,
//! `^` after a palatalized one, `'` and `` ` `` after a vowel with primary or secondary stress.
use vstd::prelude::*;
use crate::text::{lower_of, lowercase, chars_of, string_of, is_stress_mark};

verus! {

/// Soft vowel letters, read as a glide or a palatalization before a hard vowel.
pub open spec fn is_j_vowel(c: char) -> bool {
    c == 'е' || c == 'ё' || c == 'ю' || c == 'я'
}

/// The hard vowel that a soft vowel letter stands for.
pub open spec fn j_hard(c: char) -> char {
    if c == 'ё' {
        'о'
    } else if c == 'е' {
        'э'
    } else if c == 'ю' {
        'у'
    } else {
        'а'
    }
}

/// Letters after which a soft vowel starts with a glide (a stress mark means a vowel precedes).
pub open spec fn is_j_marker(c: char) -> bool {
    c == 'а' || c == 'о' || c == 'э' || c == 'и' || c == 'ы' || c == 'у' || c == 'ь' || c == 'ъ'
        || c == '\'' || c == '`'
}

/// Consonants that `и` palatalizes.
pub open spec fn is_softable(c: char) -> bool {
    c == 'с' || c == 'х' || c == 'ф' || c == 'к' || c == 'т' || c == 'п' || c == 'р' || c == 'л'
        || c == 'н' || c == 'м'
}

/// Voiceless obstruents, before which a voiced consonant loses its voice.
pub open spec fn is_devoicing(c: char) -> bool {
    c == 'п' || c == 'ф' || c == 'к' || c == 'т' || c == 'ш' || c == 'с'
}

/// The genitive ending `-ого`/`-его` of adjective-like words is read with `в`.
pub open spec fn adj_genitive(w: Seq<char>) -> Seq<char> {
    let n = w.len();
    if n >= 3 && w[n - 2] == 'г' && w[n - 1] == 'о' && (w[n - 3] == 'е' || w[n - 3] == 'о') {
        w.update(n - 2, 'в')
    } else {
        w
    }
}

/// A soft vowel at the start of the word becomes a glide and a hard vowel.
pub open spec fn iotate_start(w: Seq<char>) -> Seq<char> {
    if w.len() > 0 && is_j_vowel(w[0]) {
        let w1 = if w[0] == 'ё' {
            w.insert(1, '\'')
        } else {
            w
        };
        w1.update(0, j_hard(w[0])).insert(0, 'й')
    } else {
        w
    }
}

/// The iotation pass over the letters `i..n` of the text, `off` letters having been inserted
/// before the current one. A soft vowel becomes its hard vowel (with a primary stress mark
/// after `ё`), preceded by `й` where the character before it in the text as rewritten so far is
/// a vowel, a sign or a stress mark, and by `^` elsewhere. An `о` gets a `й` before it where the
/// character at its original place minus one, in the text as rewritten so far, is `ь`.
pub open spec fn iotate_scan(w: Seq<char>, i: int, n: int, off: int) -> Seq<char>
    decreases n - i,
{
    if i >= n {
        w
    } else {
        let ind = i + off;
        let c = w[ind];
        if is_j_vowel(c) {
            let w1 = w.update(ind, j_hard(c));
            let w2 = if c == 'ё' {
                w1.insert(ind + 1, '\'')
            } else {
                w1
            };
            let off2 = if c == 'ё' {
                off + 2
            } else {
                off + 1
            };
            let mark = if is_j_marker(w2[ind - 1]) {
                'й'
            } else {
                '^'
            };
            iotate_scan(w2.insert(ind, mark), i + 1, n, off2)
        } else if c == 'о' && w[i - 1] == 'ь' {
            iotate_scan(w.insert(ind, 'й'), i + 1, n, off + 1)
        } else {
            iotate_scan(w, i + 1, n, off)
        }
    }
}

/// Iotation: soft vowels become a glide or a palatalization mark and a hard vowel.
pub open spec fn iotate(w: Seq<char>) -> Seq<char> {
    let w0 = iotate_start(w);
    iotate_scan(w0, 1, w0.len() as int, 0)
}

/// The softening pass over the letters `i..n` of the text, `off` marks having been inserted
/// before the current one. Where the current letter is `и` and the character at its original
/// place minus one, in the text as rewritten so far, is a softable consonant, a `^` is inserted
/// at the current letter's original place.
pub open spec fn soften_scan(w: Seq<char>, i: int, n: int, off: int) -> Seq<char>
    decreases n - i,
{
    if i >= n {
        w
    } else if w[i + off] == 'и' && is_softable(w[i - 1]) {
        soften_scan(w.insert(i, '^'), i + 1, n, off + 1)
    } else {
        soften_scan(w, i + 1, n, off)
    }
}

/// Softening: `и` after a softable consonant brings a palatalization mark.
pub open spec fn soften(w: Seq<char>) -> Seq<char> {
    soften_scan(w, 1, w.len() as int, 0)
}

/// What one letter is written as in phoneme letters.
pub open spec fn letter_sound(c: char) -> Seq<char> {
    if c == 'б' {
        seq!['п', '*']
    } else if c == 'в' {
        seq!['ф', '*']
    } else if c == 'г' {
        seq!['к', '*']
    } else if c == 'д' {
        seq!['т', '*']
    } else if c == 'ж' {
        seq!['ш', '*']
    } else if c == 'з' {
        seq!['с', '*']
    } else if c == 'ц' {
        seq!['т', 'с']
    } else if c == 'щ' {
        seq!['ш', '^']
    } else if c == 'ь' {
        seq!['^']
    } else if c == 'ъ' {
        Seq::<char>::empty()
    } else {
        seq![c]
    }
}

/// Every letter replaced by its phoneme letters.
pub open spec fn replace_letters(w: Seq<char>) -> Seq<char>
    decreases w.len(),
{
    if w.len() == 0 {
        w
    } else {
        replace_letters(w.drop_last()) + letter_sound(w.last())
    }
}

/// Position of the voice mark of the consonant that ends just before `pos`.
pub open spec fn voice_mark_before(w: Seq<char>, pos: int) -> Option<int> {
    if pos <= 0 {
        None
    } else if w[pos - 1] == '*' {
        Some(pos - 1)
    } else if pos >= 2 && w[pos - 1] == '^' && w[pos - 2] == '*' {
        Some(pos - 2)
    } else {
        None
    }
}

/// Whether the consonant at `pos` carries a voice mark (not counted on the last two places).
pub open spec fn voiced_at(w: Seq<char>, pos: int) -> bool {
    if pos >= w.len() - 2 {
        false
    } else if w[pos + 1] == '*' {
        true
    } else {
        pos <= w.len() - 3 && w[pos + 1] == '^' && w[pos + 2] == '*'
    }
}

/// A voiced consonant at the end of the word loses its voice.
pub open spec fn devoice_final(w: Seq<char>) -> Seq<char> {
    match voice_mark_before(w, w.len() as int) {
        Some(p) => w.remove(p),
        None => w,
    }
}

/// The devoicing pass at position `ind`, with `steps` letters left to look at: a voiceless
/// obstruent that carries no voice mark itself removes the voice mark of the consonant just
/// before it.
pub open spec fn devoice_scan(w: Seq<char>, ind: int, steps: nat) -> Seq<char>
    decreases steps,
{
    if steps == 0 {
        w
    } else if is_devoicing(w[ind]) && !voiced_at(w, ind) && voice_mark_before(w, ind) is Some {
        devoice_scan(w.remove(voice_mark_before(w, ind)->0), ind, (steps - 1) as nat)
    } else {
        devoice_scan(w, ind + 1, (steps - 1) as nat)
    }
}

/// Regressive devoicing: a voiced consonant before a voiceless obstruent, or at the end,
/// loses its voice mark.
pub open spec fn devoice(w: Seq<char>) -> Seq<char> {
    let w0 = devoice_final(w);
    if w0.len() == 0 {
        w0
    } else {
        devoice_scan(w0, 1, (w0.len() - 1) as nat)
    }
}

/// Vowel reduction: `о` not followed by a stress mark is read as `а`.
pub open spec fn reduce_o(w: Seq<char>) -> Seq<char> {
    Seq::new(
        w.len(),
        |i: int|
            if i + 1 < w.len() && w[i] == 'о' && !is_stress_mark(w[i + 1]) {
                'а'
            } else {
                w[i]
            },
    )
}

/// The phoneme letters of the lowercase word `w`.
pub open spec fn transcription(w: Seq<char>, is_adj: bool) -> Seq<char> {
    let w0 = if is_adj {
        adj_genitive(w)
    } else {
        w
    };
    reduce_o(devoice(replace_letters(soften(iotate(w0)))))
}

fn is_j_vowel_exec(c: char) -> (r: bool)
    ensures
        r == is_j_vowel(c),
{
    c == 'е' || c == 'ё' || c == 'ю' || c == 'я'
}

fn j_hard_exec(c: char) -> (r: char)
    ensures
        r == j_hard(c),
{
    if c == 'ё' {
        'о'
    } else if c == 'е' {
        'э'
    } else if c == 'ю' {
        'у'
    } else {
        'а'
    }
}

fn is_j_marker_exec(c: char) -> (r: bool)
    ensures
        r == is_j_marker(c),
{
    c == 'а' || c == 'о' || c == 'э' || c == 'и' || c == 'ы' || c == 'у' || c == 'ь' || c == 'ъ'
        || c == '\'' || c == '`'
}

fn is_softable_exec(c: char) -> (r: bool)
    ensures
        r == is_softable(c),
{
    c == 'с' || c == 'х' || c == 'ф' || c == 'к' || c == 'т' || c == 'п' || c == 'р' || c == 'л'
        || c == 'н' || c == 'м'
}

fn is_devoicing_exec(c: char) -> (r: bool)
    ensures
        r == is_devoicing(c),
{
    c == 'п' || c == 'ф' || c == 'к' || c == 'т' || c == 'ш' || c == 'с'
}

/// Reads `г` as `в` in the genitive ending of an adjective-like word.
fn replace_g_in_adj(w: &mut Vec<char>)
    ensures
        final(w)@ == adj_genitive(old(w)@),
{
    let n = w.len();
    if n >= 3 && w[n - 2] == 'г' && w[n - 1] == 'о' && (w[n - 3] == 'е' || w[n - 3] == 'о') {
        w.set(n - 2, 'в');
    }
}

/// Expands the soft vowels into a glide or a palatalization mark and a hard vowel.
fn j_replace(w: &mut Vec<char>)
    ensures
        final(w)@ == iotate(old(w)@),
{
    if w.len() > 0 && is_j_vowel_exec(w[0]) {
        let c = w[0];
        if c == 'ё' {
            w.insert(1, '\'');
        }
        w.set(0, j_hard_exec(c));
        w.insert(0, 'й');
    }
    let ghost w0 = w@;
    assert(w0 == iotate_start(old(w)@));
    let n = w.len();
    let mut i: usize = 1;
    while i < n
        invariant
            n == w0.len(),
            1 <= i,
            w@.len() >= n,
            iotate_scan(w@, i as int, n as int, w@.len() - n) == iotate_scan(w0, 1, n as int, 0),
        decreases n - i,
    {
        let offset = w.len() - n;
        let ind = i + offset;
        let val = w[ind];
        if is_j_vowel_exec(val) {
            w.set(ind, j_hard_exec(val));
            if val == 'ё' {
                w.insert(ind + 1, '\'');
            }
            if is_j_marker_exec(w[ind - 1]) {
                w.insert(ind, 'й');
            } else {
                w.insert(ind, '^');
            }
        } else if val == 'о' && w[i - 1] == 'ь' {
            w.insert(ind, 'й');
        }
        i = i + 1;
    }
}

/// Puts a palatalization mark before `и` after a softable consonant.
fn i_soften(w: &mut Vec<char>)
    ensures
        final(w)@ == soften(old(w)@),
{
    let ghost w0 = w@;
    let n = w.len();
    let mut i: usize = 1;
    while i < n
        invariant
            n == w0.len(),
            1 <= i,
            w@.len() >= n,
            soften_scan(w@, i as int, n as int, w@.len() - n) == soften_scan(w0, 1, n as int, 0),
        decreases n - i,
    {
        let offset = w.len() - n;
        let ind = i + offset;
        if w[ind] == 'и' && is_softable_exec(w[i - 1]) {
            w.insert(i, '^');
        }
        i = i + 1;
    }
}

/// Appends the phoneme letters of one letter.
fn push_letter_sound(out: &mut Vec<char>, c: char)
    ensures
        final(out)@ == old(out)@ + letter_sound(c),
{
    match c {
        'б' => {
            out.push('п');
            out.push('*');
        },
        'в' => {
            out.push('ф');
            out.push('*');
        },
        'г' => {
            out.push('к');
            out.push('*');
        },
        'д' => {
            out.push('т');
            out.push('*');
        },
        'ж' => {
            out.push('ш');
            out.push('*');
        },
        'з' => {
            out.push('с');
            out.push('*');
        },
        'ц' => {
            out.push('т');
            out.push('с');
        },
        'щ' => {
            out.push('ш');
            out.push('^');
        },
        'ь' => {
            out.push('^');
        },
        'ъ' => {},
        _ => {
            out.push(c);
        },
    }
    assert(final(out)@ =~= old(out)@ + letter_sound(c));
}

/// Replaces every letter by its phoneme letters.
fn letter_replace(w: &Vec<char>) -> (r: Vec<char>)
    ensures
        r@ == replace_letters(w@),
{
    let mut out: Vec<char> = Vec::new();
    let mut i: usize = 0;
    while i < w.len()
        invariant
            i <= w@.len(),
            out@ == replace_letters(w@.subrange(0, i as int)),
        decreases w@.len() - i,
    {
        let c = w[i];
        proof {
            let t = w@.subrange(0, i as int + 1);
            assert(t.drop_last() =~= w@.subrange(0, i as int));
            assert(t.last() == c);
        }
        push_letter_sound(&mut out, c);
        i = i + 1;
    }
    assert(w@.subrange(0, w@.len() as int) =~= w@);
    out
}

/// Where the voice mark of the consonant ending just before `pos` stands.
fn check_previous_voice(w: &Vec<char>, pos: usize) -> (r: Option<usize>)
    requires
        pos <= w@.len(),
    ensures
        r == (match voice_mark_before(w@, pos as int) {
            Some(p) => Some(p as usize),
            None => None,
        }),
{
    if pos == 0 {
        return None;
    }
    if w[pos - 1] == '*' {
        Some(pos - 1)
    } else if pos >= 2 && w[pos - 1] == '^' && w[pos - 2] == '*' {
        Some(pos - 2)
    } else {
        None
    }
}

/// Whether the consonant at `pos` carries a voice mark.
fn is_voiced(w: &Vec<char>, pos: usize) -> (r: bool)
    requires
        pos < w@.len(),
    ensures
        r == voiced_at(w@, pos as int),
{
    if w.len() < 2 || pos >= w.len() - 2 {
        return false;
    }
    if w[pos + 1] == '*' {
        true
    } else {
        pos + 3 <= w.len() && w[pos + 1] == '^' && w[pos + 2] == '*'
    }
}

/// Removes the voice marks that regressive and final devoicing take away.
fn remove_voice(w: &mut Vec<char>)
    ensures
        final(w)@ == devoice(old(w)@),
{
    let n0 = w.len();
    if let Some(pos) = check_previous_voice(w, n0) {
        w.remove(pos);
    }
    let ghost w0 = w@;
    assert(w0 == devoice_final(old(w)@));
    if w.len() == 0 {
        return;
    }
    let mut ind: usize = 1;
    let mut steps: usize = w.len() - 1;
    while steps > 0
        invariant
            1 <= ind,
            w@.len() == ind + steps,
            w@.len() <= w0.len(),
            1 <= w0.len() <= usize::MAX,
            devoice_scan(w@, ind as int, steps as nat) == devoice_scan(w0, 1, (w0.len() - 1) as nat),
        decreases steps,
    {
        let val = w[ind];
        let mut removed = false;
        if is_devoicing_exec(val) && !is_voiced(w, ind) {
            if let Some(pos) = check_previous_voice(w, ind) {
                w.remove(pos);
                removed = true;
            }
        }
        if !removed {
            ind = ind + 1;
        }
        steps = steps - 1;
    }
}

/// Reduces every unstressed `о` to `а`.
fn replace_oa(w: &mut Vec<char>)
    ensures
        final(w)@ == reduce_o(old(w)@),
{
    let ghost w0 = w@;
    let n = w.len();
    let mut i: usize = 0;
    while i + 1 < n
        invariant
            n == w0.len(),
            w@.len() == n,
            i <= n,
            n > 0 ==> i < n,
            forall|j: int| 0 <= j < i ==> #[trigger] w@[j] == reduce_o(w0)[j],
            forall|j: int| i <= j < n ==> #[trigger] w@[j] == w0[j],
        decreases n - i,
    {
        if w[i] == 'о' && !(w[i + 1] == '\'' || w[i + 1] == '`') {
            w.set(i, 'а');
        }
        i = i + 1;
    }
    assert(w@ =~= reduce_o(w0));
}

/// The phoneme letters of the lowercase word `w` (see [`transcript`]).
pub fn transcribe_chars(w: &Vec<char>, is_adj: bool) -> (r: Vec<char>)
    ensures
        r@ == transcription(w@, is_adj),
{
    let mut v = w.clone();
    assert(v@ == w@);
    if is_adj {
        replace_g_in_adj(&mut v);
    }
    j_replace(&mut v);
    i_soften(&mut v);
    let mut v = letter_replace(&v);
    remove_voice(&mut v);
    replace_oa(&mut v);
    v
}

/// The phoneme letters of `w`, read in lower case: `is_adj` marks adjective-like words,
/// whose genitive ending is read irregularly.
pub fn transcript(w: &str, is_adj: bool) -> (r: String)
    ensures
        r@ == transcription(lower_of(w@), is_adj),
{
    let lw = lowercase(w);
    let cs = chars_of(lw.as_str());
    let t = transcribe_chars(&cs, is_adj);
    string_of(&t)
}

/// Transcription is a pure function of the text and the adjective flag: equal texts give
/// equal phoneme strings, on every call (and [`transcript`], which has no precondition,
/// returns it for every text).
pub proof fn lemma_transcription_deterministic(a: Seq<char>, b: Seq<char>, is_adj: bool)
    requires
        a == b,
    ensures
        transcription(lower_of(a), is_adj) == transcription(lower_of(b), is_adj),
{
}

} // verus!
