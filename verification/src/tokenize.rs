//! Tokenizing free-text result lines: each line becomes the set of
//! canonical tokens of its fragments; fragments that fail validation
//! (digits, punctuation) are silently dropped — untrusted free text is
//! tokenized best-effort, never rejected.

use vstd::prelude::*;
use crate::seps::SepKind;
use crate::split::{split_by, split_fragments};
use crate::token::{Token, canon_of, valid_canon};
use crate::tokenmap::{TokenMap, lemma_assoc_index, lemma_assoc_push, lemma_assoc_update};

verus! {

/// Whether some token of `ts` has canonical text `x`.
pub open spec fn has_view(ts: Seq<Token>, x: Seq<char>) -> bool {
    exists|i: int| 0 <= i < ts.len() && ts[i]@ == x
}

/// A set of distinct tokens, such as the tokens of one result line.
#[derive(Debug)]
pub struct TokenSet {
    pub tokens: Vec<Token>,
}

impl View for TokenSet {
    type V = Set<Seq<char>>;

    open spec fn view(&self) -> Set<Seq<char>> {
        Set::new(|x: Seq<char>| has_view(self.tokens@, x))
    }
}

impl TokenSet {
    /// No two tokens share a canonical text, and each is well formed.
    pub open spec fn wf(&self) -> bool {
        &&& forall|i: int, j: int|
            0 <= i < j < self.tokens@.len() ==> self.tokens@[i]@ != self.tokens@[j]@
        &&& forall|i: int| 0 <= i < self.tokens@.len() ==> self.tokens@[i].wf()
    }

    pub fn empty() -> (r: TokenSet)
        ensures
            r.wf(),
            r@ == Set::<Seq<char>>::empty(),
            r.tokens@.len() == 0,
    {
        let r = TokenSet { tokens: Vec::new() };
        proof {
            assert(r@ =~= Set::<Seq<char>>::empty());
        }
        r
    }

    pub fn contains(&self, t: &Token) -> (r: bool)
        ensures
            r == self@.contains(t@),
    {
        let n = self.tokens.len();
        let mut i: usize = 0;
        while i < n
            invariant
                n == self.tokens@.len(),
                i <= n,
                forall|j: int| 0 <= j < i ==> self.tokens@[j]@ != t@,
            decreases n - i,
        {
            if self.tokens[i].eq_token(t) {
                return true;
            }
            i = i + 1;
        }
        false
    }

    /// Adds a token to the set; a token already present is left alone.
    pub fn insert(&mut self, t: Token)
        requires
            old(self).wf(),
            t.wf(),
        ensures
            final(self).wf(),
            final(self)@ == old(self)@.insert(t@),
    {
        if !self.contains(&t) {
            self.push_new(t);
        } else {
            proof {
                assert(self@ =~= old(self)@.insert(t@));
            }
        }
    }

    /// Adds a token that is not yet in the set.
    pub fn push_new(&mut self, t: Token)
        requires
            old(self).wf(),
            t.wf(),
            !old(self)@.contains(t@),
        ensures
            final(self).wf(),
            final(self)@ == old(self)@.insert(t@),
            final(self).tokens@ == old(self).tokens@.push(t),
    {
        proof {
            assert(!has_view(old(self).tokens@, t@));
        }
        self.tokens.push(t);
        proof {
            assert forall|x: Seq<char>| self@.contains(x) <==> old(self)@.insert(t@).contains(x) by {
                if has_view(self.tokens@, x) {
                    let i = choose|i: int| 0 <= i < self.tokens@.len() && self.tokens@[i]@ == x;
                    if i < self.tokens@.len() - 1 {
                        assert(old(self).tokens@[i]@ == x);
                    }
                }
                if has_view(old(self).tokens@, x) {
                    let i = choose|i: int|
                        0 <= i < old(self).tokens@.len() && old(self).tokens@[i]@ == x;
                    assert(self.tokens@[i]@ == x);
                }
                if x == t@ {
                    assert(self.tokens@[self.tokens@.len() - 1]@ == x);
                }
            }
            assert(self@ =~= old(self)@.insert(t@));
        }
    }
}

/// The canonical tokens of the first `j` fragments of `line`.
pub open spec fn prefix_line_tokens(line: Seq<char>, j: int) -> Set<Seq<char>> {
    Set::new(
        |t: Seq<char>|
            exists|q: int|
                {
                    &&& 0 <= q < j
                    &&& q < split_by(line, SepKind::Any).len()
                    &&& valid_canon(canon_of(split_by(line, SepKind::Any)[q]))
                    &&& canon_of(split_by(line, SepKind::Any)[q]) == t
                },
    )
}

/// The set of canonical tokens of a result line: one fragment between any
/// separators per candidate, keeping only the valid ones.
pub open spec fn line_tokens(line: Seq<char>) -> Set<Seq<char>> {
    prefix_line_tokens(line, split_by(line, SepKind::Any).len() as int)
}

/// Tokenizes one free-text result line.
pub fn tokenize_result_line(line: &str) -> (r: TokenSet)
    ensures
        r.wf(),
        r@ == line_tokens(line@),
{
    let frags = split_fragments(line, SepKind::Any);
    let mut r = TokenSet::empty();
    let nf = frags.len();
    proof {
        assert(r@ =~= prefix_line_tokens(line@, 0));
    }
    let mut j: usize = 0;
    while j < nf
        invariant
            frags.deep_view() == split_by(line@, SepKind::Any),
            nf == frags@.len(),
            j <= nf,
            r.wf(),
            r@ == prefix_line_tokens(line@, j as int),
        decreases nf - j,
    {
        let ghost frag_view = split_by(line@, SepKind::Any)[j as int];
        proof {
            assert(frags.deep_view()[j as int] == frags@[j as int]@);
        }
        match Token::new_or_error(frags[j].as_str()) {
            Ok(t) => {
                assert(t@ == canon_of(frag_view));
                if !r.contains(&t) {
                    let ghost tv = t@;
                    r.push_new(t);
                    proof {
                        assert forall|x: Seq<char>|
                            prefix_line_tokens(line@, j + 1).contains(x)
                                <==> prefix_line_tokens(line@, j as int).insert(tv).contains(
                                x,
                            ) by {
                            if prefix_line_tokens(line@, j + 1).contains(x) {
                                let q = choose|q: int|
                                    {
                                        &&& 0 <= q < j + 1
                                        &&& q < split_by(line@, SepKind::Any).len()
                                        &&& valid_canon(canon_of(split_by(line@, SepKind::Any)[q]))
                                        &&& canon_of(split_by(line@, SepKind::Any)[q]) == x
                                    };
                                if q < j {
                                    assert(prefix_line_tokens(line@, j as int).contains(x));
                                }
                            }
                        }
                        assert(prefix_line_tokens(line@, j + 1) =~= prefix_line_tokens(
                            line@,
                            j as int,
                        ).insert(tv));
                    }
                } else {
                    proof {
                        assert forall|x: Seq<char>|
                            prefix_line_tokens(line@, j + 1).contains(x) <==> prefix_line_tokens(
                                line@,
                                j as int,
                            ).contains(x) by {
                            if prefix_line_tokens(line@, j + 1).contains(x) {
                                let q = choose|q: int|
                                    {
                                        &&& 0 <= q < j + 1
                                        &&& q < split_by(line@, SepKind::Any).len()
                                        &&& valid_canon(canon_of(split_by(line@, SepKind::Any)[q]))
                                        &&& canon_of(split_by(line@, SepKind::Any)[q]) == x
                                    };
                                if q == j {
                                    assert(x == t@);
                                    assert(prefix_line_tokens(line@, j as int).contains(x));
                                }
                            }
                        }
                        assert(prefix_line_tokens(line@, j + 1) =~= prefix_line_tokens(
                            line@,
                            j as int,
                        ));
                    }
                }
            },
            Err(_) => {
                proof {
                    assert(!valid_canon(canon_of(frag_view)));
                    assert forall|x: Seq<char>|
                        prefix_line_tokens(line@, j + 1).contains(x) <==> prefix_line_tokens(
                            line@,
                            j as int,
                        ).contains(x) by {
                        if prefix_line_tokens(line@, j + 1).contains(x) {
                            let q = choose|q: int|
                                {
                                    &&& 0 <= q < j + 1
                                    &&& q < split_by(line@, SepKind::Any).len()
                                    &&& valid_canon(canon_of(split_by(line@, SepKind::Any)[q]))
                                    &&& canon_of(split_by(line@, SepKind::Any)[q]) == x
                                };
                            assert(q != j);
                        }
                    }
                    assert(prefix_line_tokens(line@, j + 1) =~= prefix_line_tokens(
                        line@,
                        j as int,
                    ));
                }
            },
        }
        j = j + 1;
    }
    r
}

/// The token sets that a list of tokenized lines stands for.
pub open spec fn token_set_views(v: Seq<TokenSet>) -> Seq<Set<Seq<char>>> {
    v.map_values(|ts: TokenSet| ts@)
}

/// In how many of the given sets `t` occurs: the number of result lines
/// containing the token, not the number of raw occurrences.
pub open spec fn occ_count(sets: Seq<Set<Seq<char>>>, t: Seq<char>) -> nat
    decreases sets.len(),
{
    if sets.len() == 0 {
        0
    } else {
        occ_count(sets.drop_last(), t) + (if sets.last().contains(t) {
            1nat
        } else {
            0nat
        })
    }
}

pub proof fn lemma_occ_zero(sets: Seq<Set<Seq<char>>>, t: Seq<char>)
    requires
        forall|i: int| 0 <= i < sets.len() ==> !sets[i].contains(t),
    ensures
        occ_count(sets, t) == 0,
    decreases sets.len(),
{
    if sets.len() > 0 {
        assert forall|i: int| 0 <= i < sets.drop_last().len() implies !sets.drop_last()[i].contains(
            t,
        ) by {
            assert(sets.drop_last()[i] == sets[i]);
        }
        lemma_occ_zero(sets.drop_last(), t);
        assert(!sets[sets.len() - 1].contains(t));
    }
}

pub proof fn lemma_occ_bound(sets: Seq<Set<Seq<char>>>, t: Seq<char>)
    ensures
        occ_count(sets, t) <= sets.len(),
    decreases sets.len(),
{
    if sets.len() > 0 {
        lemma_occ_bound(sets.drop_last(), t);
    }
}

pub proof fn lemma_occ_step(sets: Seq<Set<Seq<char>>>, i: int, t: Seq<char>)
    requires
        0 <= i < sets.len(),
    ensures
        occ_count(sets.subrange(0, i + 1), t) == occ_count(sets.subrange(0, i), t) + (
        if sets[i].contains(t) {
            1nat
        } else {
            0nat
        }),
{
    assert(sets.subrange(0, i + 1).drop_last() =~= sets.subrange(0, i));
    assert(sets.subrange(0, i + 1).last() == sets[i]);
}

pub proof fn lemma_has_view_step(ts: Seq<Token>, j: int, t: Seq<char>)
    requires
        0 <= j < ts.len(),
    ensures
        has_view(ts.subrange(0, j + 1), t) <==> (has_view(ts.subrange(0, j), t) || ts[j]@ == t),
{
    let pre = ts.subrange(0, j);
    let pre1 = ts.subrange(0, j + 1);
    if has_view(pre1, t) {
        let q = choose|q: int| 0 <= q < pre1.len() && pre1[q]@ == t;
        if q < j {
            assert(pre[q]@ == t);
        } else {
            assert(ts[j]@ == t);
        }
    }
    if has_view(pre, t) {
        let q = choose|q: int| 0 <= q < pre.len() && pre[q]@ == t;
        assert(pre1[q]@ == t);
    }
    if ts[j]@ == t {
        assert(pre1[j]@ == t);
    }
}

/// Counts, for every token of the tokenized result corpus, the number of
/// lines containing it.
pub fn count_result_tokens(results_as_tokens: &Vec<TokenSet>) -> (r: TokenMap<usize>)
    requires
        forall|i: int| 0 <= i < results_as_tokens@.len() ==> results_as_tokens@[i].wf(),
    ensures
        r.wf_keys(),
        forall|p: int| 0 <= p < r.entries@.len() ==> (#[trigger] r.entries@[p]).0.wf(),
        forall|t: Seq<char>|
            r.map().contains_key(t) <==> exists|i: int|
                0 <= i < results_as_tokens@.len() && results_as_tokens@[i]@.contains(t),
        forall|t: Seq<char>|
            r.map().contains_key(t) ==> r.map()[t] == occ_count(
                token_set_views(results_as_tokens@),
                t,
            ),
{
    let ghost sv = token_set_views(results_as_tokens@);
    let n = results_as_tokens.len();
    let mut r = TokenMap::<usize>::empty();
    let mut i: usize = 0;
    while i < n
        invariant
            n == results_as_tokens@.len(),
            forall|p: int| 0 <= p < n ==> results_as_tokens@[p].wf(),
            sv == token_set_views(results_as_tokens@),
            sv.len() == n,
            i <= n,
            r.wf_keys(),
            forall|p: int| 0 <= p < r.entries@.len() ==> (#[trigger] r.entries@[p]).0.wf(),
            forall|p: int| 0 <= p < r.entries@.len() ==> (#[trigger] r.entries@[p]).1 <= i,
            forall|t: Seq<char>|
                r.map().contains_key(t) <==> exists|li: int| 0 <= li < i && sv[li].contains(t),
            forall|t: Seq<char>|
                r.map().contains_key(t) ==> r.map()[t] == occ_count(
                    sv.subrange(0, i as int),
                    t,
                ),
        decreases n - i,
    {
        let ts = &results_as_tokens[i];
        let m = ts.tokens.len();
        proof {
            assert(sv[i as int] == results_as_tokens@[i as int]@);
        }
        let mut j: usize = 0;
        while j < m
            invariant
                n == results_as_tokens@.len(),
                i < n,
                sv == token_set_views(results_as_tokens@),
                sv.len() == n,
                ts == &results_as_tokens@[i as int],
                ts.wf(),
                sv[i as int] == ts@,
                m == ts.tokens@.len(),
                j <= m,
                r.wf_keys(),
                forall|p: int| 0 <= p < r.entries@.len() ==> (#[trigger] r.entries@[p]).0.wf(),
                forall|p: int| 0 <= p < r.entries@.len() ==> (#[trigger] r.entries@[p]).1 <= i + 1,
                forall|t: Seq<char>|
                    r.map().contains_key(t) <==> ((exists|li: int| 0 <= li < i && sv[li].contains(t))
                        || has_view(ts.tokens@.subrange(0, j as int), t)),
                forall|t: Seq<char>|
                    r.map().contains_key(t) ==> r.map()[t] == occ_count(sv.subrange(0, i as int), t)
                        + (if has_view(ts.tokens@.subrange(0, j as int), t) {
                        1nat
                    } else {
                        0nat
                    }),
            decreases m - j,
        {
            let t = &ts.tokens[j];
            let ghost w = t@;
            proof {
                // the current token is new within this line
                if has_view(ts.tokens@.subrange(0, j as int), w) {
                    let q = choose|q: int|
                        0 <= q < j && ts.tokens@.subrange(0, j as int)[q]@ == w;
                    assert(ts.tokens@[q]@ == ts.tokens@[j as int]@);
                    assert(false);
                }
                lemma_has_view_step(ts.tokens@, j as int, w);
            }
            let ghost old_entries = r.entries@;
            let ghost old_map = r.map();
            match r.position(t) {
                Some(p) => {
                    proof {
                        lemma_assoc_index(old_entries, p as int);
                        lemma_occ_bound(sv.subrange(0, i as int), w);
                    }
                    let c = r.entries[p].1;
                    r.entries[p].1 = c + 1;
                    proof {
                        assert(r.entries@ =~= old_entries.update(
                            p as int,
                            (old_entries[p as int].0, (c + 1) as usize),
                        ));
                        lemma_assoc_update(
                            old_entries,
                            p as int,
                            (old_entries[p as int].0, (c + 1) as usize),
                        );
                        assert(r.map() == old_map.insert(w, (c + 1) as usize));
                    }
                },
                None => {
                    let tdup = t.duplicate();
                    r.entries.push((tdup, 1));
                    proof {
                        assert(r.entries@ =~= old_entries.push((tdup, 1usize)));
                        lemma_assoc_push(old_entries, (tdup, 1usize));
                        assert(r.map() == old_map.insert(w, 1usize));
                        crate::tokenmap::lemma_assoc_contains(old_entries, w);
                        assert(!old_map.contains_key(w));
                        assert forall|li: int|
                            0 <= li < sv.subrange(0, i as int).len() implies !sv.subrange(
                            0,
                            i as int,
                        )[li].contains(w) by {
                            assert(sv.subrange(0, i as int)[li] == sv[li]);
                        }
                        lemma_occ_zero(sv.subrange(0, i as int), w);
                    }
                },
            }
            proof {
                assert forall|t2: Seq<char>|
                    r.map().contains_key(t2) <==> ((exists|li: int|
                        0 <= li < i && sv[li].contains(t2)) || has_view(
                        ts.tokens@.subrange(0, j + 1),
                        t2,
                    )) by {
                    lemma_has_view_step(ts.tokens@, j as int, t2);
                    if t2 != w {
                        assert(r.map().contains_key(t2) == old_map.contains_key(t2));
                        assert(r.map().contains_key(t2) ==> r.map()[t2] == old_map[t2]);
                    }
                }
                assert forall|t2: Seq<char>| r.map().contains_key(t2) implies r.map()[t2]
                    == occ_count(sv.subrange(0, i as int), t2) + (if has_view(
                    ts.tokens@.subrange(0, j + 1),
                    t2,
                ) {
                    1nat
                } else {
                    0nat
                }) by {
                    lemma_has_view_step(ts.tokens@, j as int, t2);
                    if t2 != w {
                        assert(r.map()[t2] == old_map[t2]);
                    }
                }
            }
            j = j + 1;
        }
        proof {
            assert(ts.tokens@.subrange(0, m as int) =~= ts.tokens@);
            assert forall|t2: Seq<char>|
                has_view(ts.tokens@, t2) == sv[i as int].contains(t2) by {}
            assert forall|t2: Seq<char>|
                r.map().contains_key(t2) <==> exists|li: int|
                    0 <= li < i + 1 && sv[li].contains(t2) by {
                if r.map().contains_key(t2) {
                    if exists|li: int| 0 <= li < i && sv[li].contains(t2) {
                        let li = choose|li: int| 0 <= li < i && sv[li].contains(t2);
                        assert(0 <= li < i + 1 && sv[li].contains(t2));
                    } else {
                        assert(sv[i as int].contains(t2));
                    }
                }
                if exists|li: int| 0 <= li < i + 1 && sv[li].contains(t2) {
                    let li = choose|li: int| 0 <= li < i + 1 && sv[li].contains(t2);
                    if li < i {
                        assert(exists|li2: int| 0 <= li2 < i && sv[li2].contains(t2));
                    } else {
                        assert(has_view(ts.tokens@, t2));
                    }
                }
            }
            assert forall|t2: Seq<char>| r.map().contains_key(t2) implies r.map()[t2] == occ_count(
                sv.subrange(0, (i + 1) as int),
                t2,
            ) by {
                lemma_occ_step(sv, i as int, t2);
            }
        }
        i = i + 1;
    }
    proof {
        assert(sv.subrange(0, n as int) =~= sv);
        assert forall|t: Seq<char>|
            r.map().contains_key(t) <==> exists|ii: int|
                0 <= ii < results_as_tokens@.len() && results_as_tokens@[ii]@.contains(t) by {
            if r.map().contains_key(t) {
                let li = choose|li: int| 0 <= li < n && sv[li].contains(t);
                assert(results_as_tokens@[li]@.contains(t));
            }
            if exists|ii: int|
                0 <= ii < results_as_tokens@.len() && results_as_tokens@[ii]@.contains(t) {
                let ii = choose|ii: int|
                    0 <= ii < results_as_tokens@.len() && results_as_tokens@[ii]@.contains(t);
                assert(sv[ii].contains(t));
                assert(0 <= ii < n && sv[ii].contains(t));
            }
        }
    }
    r
}

/// Tokenizes every result line of the corpus.
pub fn tokenize_race_results(result_lines: &Vec<String>) -> (r: Vec<TokenSet>)
    ensures
        r@.len() == result_lines@.len(),
        forall|i: int|
            0 <= i < r@.len() ==> r@[i].wf() && r@[i]@ == line_tokens(result_lines@[i]@),
{
    let n = result_lines.len();
    let mut r: Vec<TokenSet> = Vec::new();
    let mut i: usize = 0;
    while i < n
        invariant
            n == result_lines@.len(),
            i <= n,
            r@.len() == i,
            forall|p: int|
                0 <= p < i ==> r@[p].wf() && r@[p]@ == line_tokens(result_lines@[p]@),
        decreases n - i,
    {
        let ts = tokenize_result_line(result_lines[i].as_str());
        r.push(ts);
        i = i + 1;
    }
    r
}

} // verus!
