//! Bounded selection of the best candidates: at most `top_n` kept at any time, handed out
//! in ascending order of their keys.
use vstd::prelude::*;
use crate::dictionary::{WordCollector, WordForms, matches_stresses, runs_wf};
use crate::word::{Word, stresses_from_end};

verus! {

/// A scored candidate: `key` encodes its distance (smaller is better, in the order of the
/// distances), `group` is its lexeme and `word` the form chosen for it.
#[derive(Debug, Clone, Copy, PartialEq, Eq, Structural)]
pub struct Scored {
    pub key: u64,
    pub group: usize,
    pub word: usize,
}

/// The ranking order: by key, then by lexeme (the more frequent first).
pub open spec fn before(a: Scored, b: Scored) -> bool {
    a.key < b.key || (a.key == b.key && a.group < b.group)
}

/// Whether `a` ranks before `b`.
pub fn ranks_before(a: &Scored, b: &Scored) -> (r: bool)
    ensures
        r == before(*a, *b),
{
    a.key < b.key || (a.key == b.key && a.group < b.group)
}

/// Whether `s` is in strictly ascending ranking order.
pub open spec fn ascending(s: Seq<Scored>) -> bool {
    forall|i: int, j: int| 0 <= i < j < s.len() ==> before(#[trigger] s[i], #[trigger] s[j])
}

/// Whether no two of `s` share a lexeme.
pub open spec fn distinct_groups(s: Seq<Scored>) -> bool {
    forall|i: int, j: int| 0 <= i < j < s.len() ==> (#[trigger] s[i]).group != (#[trigger] s[j]).group
}

/// The smaller of two numbers.
pub open spec fn min_nat(a: nat, b: nat) -> nat {
    if a <= b {
        a
    } else {
        b
    }
}

/// Whether `r` is the selection of the `n` best of `cands`: ascending, drawn from `cands`,
/// `n` long or all of them, every candidate left out ranking after every one kept, and none
/// left out where there are no more than `n`.
pub open spec fn is_top_selection(cands: Seq<Scored>, n: nat, r: Seq<Scored>) -> bool {
    &&& ascending(r)
    &&& r.len() == min_nat(n, cands.len())
    &&& forall|k: int| 0 <= k < r.len() ==> cands.contains(#[trigger] r[k])
    &&& forall|x: Scored|
        #[trigger] cands.contains(x) && !r.contains(x) ==> forall|k: int|
            0 <= k < r.len() ==> before(#[trigger] r[k], x)
    &&& cands.len() <= n ==> forall|x: Scored| #[trigger] cands.contains(x) ==> r.contains(x)
}

/// Keeps the best `top_n` of what is pushed into it.
pub struct TopNHeap {
    top_n: usize,
    items: Vec<Scored>,
    pushed: Ghost<Seq<Scored>>,
}

impl TopNHeap {
    /// Everything pushed so far.
    pub closed spec fn spec_pushed(&self) -> Seq<Scored> {
        self.pushed@
    }

    /// The bound it was made with.
    pub closed spec fn spec_top_n(&self) -> nat {
        self.top_n as nat
    }

    /// What it holds is the selection of the best of what was pushed.
    pub closed spec fn wf(&self) -> bool {
        &&& is_top_selection(self.pushed@, self.top_n as nat, self.items@)
        &&& distinct_groups(self.pushed@)
    }

    /// An empty selection of at most `top_n`.
    pub fn new(top_n: usize) -> (r: TopNHeap)
        ensures
            r.wf(),
            r.spec_pushed() == Seq::<Scored>::empty(),
            r.spec_top_n() == top_n,
    {
        TopNHeap { top_n, items: Vec::new(), pushed: Ghost(Seq::empty()) }
    }

    /// Offers `res`: it is kept while fewer than `top_n` are held, or where it ranks before
    /// the worst one held, which then leaves.
    pub fn push(&mut self, res: Scored)
        requires
            old(self).wf(),
            forall|k: int|
                0 <= k < old(self).spec_pushed().len() ==> (#[trigger] old(self).spec_pushed()[k]).group
                    != res.group,
        ensures
            final(self).wf(),
            final(self).spec_pushed() == old(self).spec_pushed().push(res),
            final(self).spec_top_n() == old(self).spec_top_n(),
    {
        let ghost old_pushed = self.pushed@;
        let ghost i0 = self.items@;
        let ghost new_pushed = old_pushed.push(res);
        proof {
            assert forall|k: int| 0 <= k < old_pushed.len() implies (#[trigger] old_pushed[k]).group != res.group by {
                assert(old(self).spec_pushed()[k] == old_pushed[k]);
            }
            assert forall|i: int, j: int| 0 <= i < j < new_pushed.len() implies (#[trigger] new_pushed[i]).group
                != (#[trigger] new_pushed[j]).group by {
                if j == old_pushed.len() {
                    assert(new_pushed[i] == old_pushed[i]);
                } else {
                    assert(new_pushed[i] == old_pushed[i] && new_pushed[j] == old_pushed[j]);
                }
            }
            assert forall|y: Scored| i0.contains(y) implies old_pushed.contains(y) by {
                let m = choose|m: int| 0 <= m < i0.len() && i0[m] == y;
                assert(old_pushed.contains(i0[m]));
            }
            assert forall|y: Scored| i0.contains(y) implies y.group != res.group by {
                assert(old_pushed.contains(y));
                let q = choose|q: int| 0 <= q < old_pushed.len() && old_pushed[q] == y;
                assert(old_pushed[q].group != res.group);
            }
            assert forall|x: Scored| #[trigger] new_pushed.contains(x) <==> (old_pushed.contains(x) || x == res) by {
                lemma_push_contains(old_pushed, res, x);
            }
        }
        let n = self.items.len();
        if n < self.top_n {
            proof {
                assert forall|k: int| 0 <= k < i0.len() implies (#[trigger] i0[k]).group != res.group by {
                    assert(i0.contains(i0[k]));
                }
            }
            insert_sorted(&mut self.items, res);
            self.pushed = Ghost(new_pushed);
            proof {
                let it = self.items@;
                assert forall|k: int| 0 <= k < it.len() implies new_pushed.contains(#[trigger] it[k]) by {
                    assert(it.contains(it[k]));
                }
                assert forall|x: Scored| #[trigger] new_pushed.contains(x) implies it.contains(x) by {
                    if x != res {
                        assert(old_pushed.contains(x));
                    }
                }
            }
        } else if n > 0 && ranks_before(&res, &self.items[n - 1]) {
            let worst = self.items.pop().unwrap();
            let ghost i1 = self.items@;
            proof {
                assert(i0 =~= i1.push(worst));
                assert forall|y: Scored| #[trigger] i0.contains(y) <==> (i1.contains(y) || y == worst) by {
                    lemma_push_contains(i1, worst, y);
                }
                assert(ascending(i1)) by {
                    assert forall|a: int, b: int| 0 <= a < b < i1.len() implies before(
                        #[trigger] i1[a],
                        #[trigger] i1[b],
                    ) by {
                        assert(i1[a] == i0[a] && i1[b] == i0[b]);
                    }
                }
                assert forall|k: int| 0 <= k < i1.len() implies (#[trigger] i1[k]).group != res.group by {
                    assert(i1[k] == i0[k]);
                    assert(i0.contains(i0[k]));
                }
                assert forall|k: int| 0 <= k < i1.len() implies before(#[trigger] i1[k], worst) by {
                    assert(i1[k] == i0[k]);
                }
            }
            insert_sorted(&mut self.items, res);
            self.pushed = Ghost(new_pushed);
            proof {
                let it = self.items@;
                assert forall|k: int| 0 <= k < it.len() implies new_pushed.contains(#[trigger] it[k]) by {
                    assert(it.contains(it[k]));
                    if it[k] != res {
                        assert(i1.contains(it[k]));
                        assert(i0.contains(it[k]));
                    }
                }
                assert forall|x: Scored| #[trigger] new_pushed.contains(x) && !it.contains(x) implies forall|k: int|
                    0 <= k < it.len() ==> before(#[trigger] it[k], x) by {
                    assert(old_pushed.contains(x));
                    assert(!i1.contains(x));
                    if x != worst {
                        assert(!i0.contains(x));
                        assert(before(i0[n - 1], x));
                    }
                    assert forall|k: int| 0 <= k < it.len() implies before(#[trigger] it[k], x) by {
                        assert(it.contains(it[k]));
                        if it[k] != res {
                            let m = choose|m: int| 0 <= m < i1.len() && i1[m] == it[k];
                            assert(before(i1[m], worst));
                            if x != worst {
                                assert(i0[m] == i1[m]);
                                assert(i0.contains(x) == false);
                            }
                        }
                    }
                }
            }
        } else {
            self.pushed = Ghost(new_pushed);
            proof {
                assert forall|k: int| 0 <= k < i0.len() implies new_pushed.contains(#[trigger] i0[k]) by {
                    assert(old_pushed.contains(i0[k]));
                }
                if n > 0 {
                    assert(i0.contains(i0[n - 1]));
                    assert(before(i0[n - 1], res));
                }
                assert forall|x: Scored| #[trigger] new_pushed.contains(x) && !i0.contains(x) implies forall|k: int|
                    0 <= k < i0.len() ==> before(#[trigger] i0[k], x) by {
                    if x != res {
                        assert(old_pushed.contains(x));
                    } else {
                        assert forall|k: int| 0 <= k < i0.len() implies before(#[trigger] i0[k], x) by {
                            if k < n - 1 {
                                assert(before(i0[k], i0[n - 1]));
                            }
                        }
                    }
                }
            }
        }
    }

    /// What it holds, best first.
    pub fn into_sorted_vec(self) -> (r: Vec<Scored>)
        requires
            self.wf(),
        ensures
            is_top_selection(self.spec_pushed(), self.spec_top_n(), r@),
    {
        self.items
    }
}

/// What a sequence with one more element at the end holds.
proof fn lemma_push_contains(s: Seq<Scored>, y: Scored, x: Scored)
    ensures
        s.push(y).contains(x) <==> (s.contains(x) || x == y),
{
    if s.push(y).contains(x) {
        let q = choose|q: int| 0 <= q < s.len() + 1 && s.push(y)[q] == x;
        if q < s.len() {
            assert(s[q] == x);
        }
    }
    if s.contains(x) {
        let q = choose|q: int| 0 <= q < s.len() && s[q] == x;
        assert(s.push(y)[q] == x);
    }
    if x == y {
        assert(s.push(y)[s.len() as int] == x);
    }
}

/// Inserts `x` into the ascending `v` before the first element that it ranks before.
fn insert_sorted(v: &mut Vec<Scored>, x: Scored)
    requires
        ascending(old(v)@),
        forall|k: int| 0 <= k < old(v)@.len() ==> (#[trigger] old(v)@[k]).group != x.group,
    ensures
        ascending(final(v)@),
        final(v)@.len() == old(v)@.len() + 1,
        final(v)@.contains(x),
        forall|y: Scored| #[trigger] final(v)@.contains(y) <==> (old(v)@.contains(y) || y == x),
{
    let ghost v0 = v@;
    let mut j: usize = 0;
    while j < v.len() && !ranks_before(&x, &v[j])
        invariant
            v@ == v0,
            j <= v@.len(),
            forall|k: int| 0 <= k < j ==> before(#[trigger] v0[k], x),
            forall|k: int| 0 <= k < v0.len() ==> (#[trigger] v0[k]).group != x.group,
        decreases v@.len() - j,
    {
        assert(v0[j as int].group != x.group);
        j = j + 1;
    }
    v.insert(j, x);
    proof {
        let v1 = v@;
        assert(v1 == v0.insert(j as int, x));
        assert forall|a: int, b: int| 0 <= a < b < v1.len() implies before(#[trigger] v1[a], #[trigger] v1[b]) by {
            if b < j {
            } else if b == j {
            } else if a < j {
                assert(v1[b] == v0[b - 1]);
                assert(before(v0[a], x));
                if j < v0.len() {
                    assert(before(x, v0[j as int]));
                    if b - 1 > j {
                        assert(before(v0[j as int], v0[b - 1]));
                    }
                }
            } else if a == j {
                assert(before(x, v0[j as int]));
                if b - 1 > j {
                    assert(before(v0[j as int], v0[b - 1]));
                }
            } else {
                assert(v1[a] == v0[a - 1]);
                assert(v1[b] == v0[b - 1]);
            }
        }
        assert(v1[j as int] == x);
        assert forall|y: Scored| #[trigger] v1.contains(y) <==> (v0.contains(y) || y == x) by {
            if v1.contains(y) {
                let m = choose|m: int| 0 <= m < v1.len() && v1[m] == y;
                if m < j {
                    assert(v0[m] == y);
                } else if m > j {
                    assert(v0[m - 1] == y);
                }
            }
            if v0.contains(y) {
                let m = choose|m: int| 0 <= m < v0.len() && v0[m] == y;
                if m < j {
                    assert(v1[m] == y);
                } else {
                    assert(v1[m + 1] == y);
                }
            }
        }
    }
}

/// Whether the category `c` is one of `excluded`.
pub open spec fn excluded_category(excluded: Seq<String>, c: Seq<char>) -> bool {
    exists|k: int| 0 <= k < excluded.len() && (#[trigger] excluded[k])@ == c
}

/// The first word index in `start..end` that `allowed` admits with the smallest core key
/// (`scores[i].0`); `None` where it admits none.
pub open spec fn best_member(
    scores: Seq<(u64, u64)>,
    allowed: spec_fn(int) -> bool,
    start: int,
    end: int,
) -> Option<int>
    decreases end - start,
{
    if end <= start {
        None
    } else {
        let prev = best_member(scores, allowed, start, end - 1);
        if !allowed(end - 1) {
            prev
        } else {
            match prev {
                None => Some(end - 1),
                Some(j) => if scores[end - 1].0 < scores[j].0 {
                    Some(end - 1)
                } else {
                    Some(j)
                },
            }
        }
    }
}

/// The best member lies in the range searched.
proof fn lemma_best_member_range(scores: Seq<(u64, u64)>, allowed: spec_fn(int) -> bool, start: int, end: int)
    ensures
        best_member(scores, allowed, start, end) matches Some(j) ==> start <= j < end,
    decreases end - start,
{
    if end > start {
        lemma_best_member_range(scores, allowed, start, end - 1);
    }
}

/// The candidates of the first `g` lexemes, in order: one for each lexeme whose category is
/// not excluded and which has an admitted form, that form being its best member, ranked by
/// its total key (`scores[i].1`).
pub open spec fn candidates(
    groups: Seq<WordForms>,
    excluded: Seq<String>,
    allowed: spec_fn(int) -> bool,
    scores: Seq<(u64, u64)>,
    g: int,
) -> Seq<Scored>
    decreases g,
{
    if g <= 0 {
        Seq::<Scored>::empty()
    } else {
        let prev = candidates(groups, excluded, allowed, scores, g - 1);
        let grp = groups[g - 1];
        if excluded_category(excluded, grp.speech_part@) {
            prev
        } else {
            match best_member(scores, allowed, grp.start_index as int, grp.start_index + grp.len) {
                Some(i) => prev.push(Scored { key: scores[i].1, group: (g - 1) as usize, word: i as usize }),
                None => prev,
            }
        }
    }
}

/// The words that a search admits: all, or where `restrict` holds, those that the stress
/// pattern of the query selects.
pub open spec fn admitted(wc: WordCollector, query: Word, restrict: bool) -> spec_fn(int) -> bool {
    |i: int| !restrict || matches_stresses(wc.spec_words()[i], stresses_from_end(query.spec_vowels().reverse()))
}

/// The candidates of a search in the dictionary `wc`.
pub open spec fn search_candidates(
    wc: WordCollector,
    query: Word,
    excluded: Seq<String>,
    restrict: bool,
    scores: Seq<(u64, u64)>,
) -> Seq<Scored> {
    candidates(wc.spec_groups(), excluded, admitted(wc, query, restrict), scores, wc.spec_groups().len() as int)
}

/// Every candidate of the first `g` lexemes stands for an earlier lexeme than `g`, in increasing
/// order, not excluded, by its best member and that member's total key.
pub proof fn lemma_candidates_facts(
    groups: Seq<WordForms>,
    excluded: Seq<String>,
    allowed: spec_fn(int) -> bool,
    scores: Seq<(u64, u64)>,
    g: int,
)
    requires
        0 <= g <= groups.len() <= usize::MAX,
        forall|h: int| 0 <= h < groups.len() ==> (#[trigger] groups[h]).start_index + groups[h].len <= usize::MAX,
    ensures
        ({
            let c = candidates(groups, excluded, allowed, scores, g);
            &&& forall|k: int| 0 <= k < c.len() ==> (#[trigger] c[k]).group < g
            &&& forall|a: int, b: int| 0 <= a < b < c.len() ==> (#[trigger] c[a]).group < (#[trigger] c[b]).group
            &&& forall|k: int|
                0 <= k < c.len() ==> {
                    let grp = groups[(#[trigger] c[k]).group as int];
                    &&& !excluded_category(excluded, grp.speech_part@)
                    &&& best_member(scores, allowed, grp.start_index as int, grp.start_index + grp.len)
                        == Some(c[k].word as int)
                    &&& c[k].key == scores[c[k].word as int].1
                }
        }),
    decreases g,
{
    if g > 0 {
        lemma_candidates_facts(groups, excluded, allowed, scores, g - 1);
        let prev = candidates(groups, excluded, allowed, scores, g - 1);
        let c = candidates(groups, excluded, allowed, scores, g);
        assert(c.len() == prev.len() || c.len() == prev.len() + 1);
        assert forall|k: int| 0 <= k < prev.len() implies c[k] == prev[k] by {
        }
        if c.len() == prev.len() + 1 {
            let grp = groups[g - 1];
            lemma_best_member_range(scores, allowed, grp.start_index as int, grp.start_index + grp.len);
            let last = c[prev.len() as int];
            assert(last.group == g - 1);
            assert forall|a: int, b: int| 0 <= a < b < c.len() implies (#[trigger] c[a]).group < (#[trigger] c[b]).group by {
                if b == prev.len() {
                    assert(c[a] == prev[a]);
                } else {
                    assert(c[a] == prev[a] && c[b] == prev[b]);
                }
            }
            assert forall|k: int| 0 <= k < c.len() implies (#[trigger] c[k]).group < g by {
                if k < prev.len() {
                    assert(c[k] == prev[k]);
                }
            }
        } else {
            assert(c =~= prev);
        }
    }
}

/// No two candidates of the first `g` lexemes share a lexeme.
pub proof fn lemma_candidates_distinct(
    groups: Seq<WordForms>,
    excluded: Seq<String>,
    allowed: spec_fn(int) -> bool,
    scores: Seq<(u64, u64)>,
    g: int,
)
    requires
        0 <= g <= groups.len() <= usize::MAX,
        forall|h: int| 0 <= h < groups.len() ==> (#[trigger] groups[h]).start_index + groups[h].len <= usize::MAX,
    ensures
        distinct_groups(candidates(groups, excluded, allowed, scores, g)),
{
    lemma_candidates_facts(groups, excluded, allowed, scores, g);
}

/// A selection of the best is unique: two selections of the `n` best of the same candidates,
/// no two of which share a lexeme, are equal.
pub proof fn lemma_top_selection_unique(cands: Seq<Scored>, n: nat, r1: Seq<Scored>, r2: Seq<Scored>)
    requires
        distinct_groups(cands),
        is_top_selection(cands, n, r1),
        is_top_selection(cands, n, r2),
    ensures
        r1 == r2,
{
    assert forall|k: int| 0 <= k < r1.len() implies r1[k] == r2[k] by {
        lemma_top_selection_prefix(cands, n, r1, r2, k);
    }
    assert(r1 =~= r2);
}

/// Two selections of the best agree up to place `k`.
proof fn lemma_top_selection_prefix(cands: Seq<Scored>, n: nat, r1: Seq<Scored>, r2: Seq<Scored>, k: int)
    requires
        distinct_groups(cands),
        is_top_selection(cands, n, r1),
        is_top_selection(cands, n, r2),
        0 <= k < r1.len(),
    ensures
        r1[k] == r2[k],
    decreases k,
{
    assert forall|i: int| 0 <= i < k implies r1[i] == r2[i] by {
        lemma_top_selection_prefix(cands, n, r1, r2, i);
    }
    let a = r1[k];
    let b = r2[k];
    assert(cands.contains(a));
    assert(cands.contains(b));
    if a != b {
        let ia = choose|q: int| 0 <= q < cands.len() && cands[q] == a;
        let ib = choose|q: int| 0 <= q < cands.len() && cands[q] == b;
        if ia != ib {
            if ia < ib {
                assert(cands[ia].group != cands[ib].group);
            } else {
                assert(cands[ib].group != cands[ia].group);
            }
        }
        assert(a.group != b.group || a.key != b.key);
        if before(a, b) {
            lemma_first_difference(r1, r2, k);
        } else {
            assert(before(b, a));
            lemma_first_difference(r2, r1, k);
        }
    }
}

/// Where two selections of the best agree before place `k`, the one with the better element
/// at `k` would hold an element that the other lacks and ranks after all of it: impossible.
proof fn lemma_first_difference(r1: Seq<Scored>, r2: Seq<Scored>, k: int)
    requires
        ascending(r1),
        ascending(r2),
        0 <= k < r1.len(),
        k < r2.len(),
        forall|i: int| 0 <= i < k ==> r1[i] == r2[i],
    ensures
        !(before(r1[k], r2[k]) && (r2.contains(r1[k]) || forall|q: int|
            0 <= q < r2.len() ==> before(#[trigger] r2[q], r1[k]))),
{
    let a = r1[k];
    if !before(r1[k], r2[k]) {
    } else if r2.contains(a) {
        let j = choose|j: int| 0 <= j < r2.len() && r2[j] == a;
        if j < k {
            assert(r1[j] == a);
            assert(before(r1[j], r1[k]));
        } else if j > k {
            assert(before(r2[k], r2[j]));
        }
    } else {
        assert(!before(r2[k], a));
    }
}

impl WordCollector {
    /// The `top_n` best candidates of a search for `to_find`, best first. Each lexeme whose
    /// category is not in `ignore` gives one candidate: its form with the smallest core key
    /// (`scores[i].0`, the first such form), among all its forms or, where `restrict` holds,
    /// among those that the stress pattern of `to_find` selects; the candidate is ranked by
    /// that form's total key (`scores[i].1`), ties going to the earlier lexeme.
    pub fn find_best(
        &self,
        to_find: &Word,
        ignore: &Vec<String>,
        restrict: bool,
        scores: &Vec<(u64, u64)>,
        top_n: usize,
    ) -> (r: Vec<Scored>)
        requires
            self.wf(),
            scores@.len() == self.spec_words().len(),
        ensures
            is_top_selection(
                search_candidates(*self, *to_find, ignore@, restrict, scores@),
                top_n as nat,
                r@,
            ),
    {
        let allowed = self.words_with_same_stresses(to_find);
        let ghost adm = admitted(*self, *to_find, restrict);
        let ghost groups = self.spec_groups();
        let mut heap = TopNHeap::new(top_n);
        let ng = self.groups_len();
        proof {
            self.lemma_groups_wf();
        }
        let mut g: usize = 0;
        while g < ng
            invariant
                self.wf(),
                runs_wf(self.spec_groups(), self.spec_group_of(), self.spec_words().len()),
                groups == self.spec_groups(),
                ng == groups.len(),
                g <= ng,
                self.spec_words().len() <= usize::MAX,
                scores@.len() == self.spec_words().len(),
                allowed@.len() == self.spec_words().len(),
                forall|i: int| 0 <= i < allowed@.len() ==> (#[trigger] allowed@[i]) == matches_stresses(
                    self.spec_words()[i],
                    stresses_from_end(to_find.spec_vowels().reverse()),
                ),
                adm == admitted(*self, *to_find, restrict),
                heap.wf(),
                heap.spec_top_n() == top_n,
                heap.spec_pushed() == candidates(groups, ignore@, adm, scores@, g as int),
            decreases ng - g,
        {
            let grp = self.group_at(g);
            proof {
                lemma_candidates_facts(groups, ignore@, adm, scores@, g as int);
            }
            let mut excluded = false;
            let mut k: usize = 0;
            while k < ignore.len()
                invariant
                    k <= ignore@.len(),
                    excluded == exists|j: int| 0 <= j < k && (#[trigger] ignore@[j])@ == grp.speech_part@,
                decreases ignore@.len() - k,
            {
                if ignore[k] == grp.speech_part {
                    excluded = true;
                }
                k = k + 1;
            }
            if !excluded {
                assert(grp.start_index + grp.len <= self.spec_words().len()) by {
                    assert(*grp == groups[g as int]);
                }
                let start = grp.start_index;
                let end = grp.start_index + grp.len;
                let mut best: Option<usize> = None;
                let mut i: usize = start;
                while i < end
                    invariant
                        start <= i <= end,
                        end as int == start + grp.len,
                        (end as int) <= scores@.len(),
                        scores@.len() == allowed@.len() == self.spec_words().len(),
                        forall|q: int| 0 <= q < allowed@.len() ==> (#[trigger] allowed@[q]) == matches_stresses(
                            self.spec_words()[q],
                            stresses_from_end(to_find.spec_vowels().reverse()),
                        ),
                        adm == admitted(*self, *to_find, restrict),
                        best matches Some(b) ==> start <= b < i,
                        match best {
                            Some(b) => best_member(scores@, adm, start as int, i as int) == Some(b as int),
                            None => best_member(scores@, adm, start as int, i as int) is None,
                        },
                    decreases end - i,
                {
                    if !restrict || allowed[i] {
                        match best {
                            None => {
                                best = Some(i);
                            },
                            Some(b) => {
                                if scores[i].0 < scores[b].0 {
                                    best = Some(i);
                                }
                            },
                        }
                    }
                    i = i + 1;
                }
                if let Some(b) = best {
                    proof {
                        assert forall|q: int| 0 <= q < heap.spec_pushed().len() implies (#[trigger] heap.spec_pushed()[q]).group != g by {
                        }
                    }
                    heap.push(Scored { key: scores[b].1, group: g, word: b });
                }
            }
            g = g + 1;
        }
        heap.into_sorted_vec()
    }
}

/// A search gives the same ranking every time: any two results that meet the contract of
/// [`WordCollector::find_best`] for the same arguments are equal.
pub proof fn lemma_find_best_deterministic(
    wc: WordCollector,
    query: Word,
    excluded: Seq<String>,
    restrict: bool,
    scores: Seq<(u64, u64)>,
    top_n: nat,
    r1: Seq<Scored>,
    r2: Seq<Scored>,
)
    requires
        wc.wf(),
        is_top_selection(search_candidates(wc, query, excluded, restrict, scores), top_n, r1),
        is_top_selection(search_candidates(wc, query, excluded, restrict, scores), top_n, r2),
    ensures
        r1 == r2,
{
    let groups = wc.spec_groups();
    wc.lemma_groups_wf();
    lemma_candidates_distinct(groups, excluded, admitted(wc, query, restrict), scores, groups.len() as int);
    lemma_top_selection_unique(search_candidates(wc, query, excluded, restrict, scores), top_n, r1, r2);
}

/// A search never ranks a lexeme of an excluded category.
pub proof fn lemma_excluded_never_ranked(
    wc: WordCollector,
    query: Word,
    excluded: Seq<String>,
    restrict: bool,
    scores: Seq<(u64, u64)>,
    top_n: nat,
    r: Seq<Scored>,
)
    requires
        wc.wf(),
        is_top_selection(search_candidates(wc, query, excluded, restrict, scores), top_n, r),
    ensures
        forall|k: int|
            0 <= k < r.len() ==> !excluded_category(
                excluded,
                wc.spec_groups()[(#[trigger] r[k]).group as int].speech_part@,
            ),
{
    let groups = wc.spec_groups();
    let c = search_candidates(wc, query, excluded, restrict, scores);
    wc.lemma_groups_wf();
    lemma_candidates_facts(groups, excluded, admitted(wc, query, restrict), scores, groups.len() as int);
    assert forall|k: int| 0 <= k < r.len() implies !excluded_category(
        excluded,
        groups[(#[trigger] r[k]).group as int].speech_part@,
    ) by {
        assert(c.contains(r[k]));
        let q = choose|q: int| 0 <= q < c.len() && c[q] == r[k];
        assert(c[q] == r[k]);
    }
}

/// Asking for none gives none; asking for at least as many as there are candidates gives all
/// of them, best first.
pub proof fn lemma_top_n_bounds(cands: Seq<Scored>, n: nat, r: Seq<Scored>)
    requires
        is_top_selection(cands, n, r),
    ensures
        n == 0 ==> r.len() == 0,
        n >= cands.len() ==> r.len() == cands.len() && ascending(r),
        n >= cands.len() ==> forall|x: Scored| #[trigger] cands.contains(x) ==> r.contains(x),
{
}

} // verus!
