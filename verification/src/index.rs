//! The roster: person records built from roster lines, and the inverted
//! index from tokens to the people carrying them. Retrieval for a result
//! line is the union of the index entries of the line's tokens, so a
//! person is found exactly when it shares an indexed token with the line.

use vstd::prelude::*;
use vstd::string::StringExecFns;
use crate::error::MatchError;
use crate::seps::SepKind;
use crate::split::{split_by, split_fragments};
use crate::token::Token;
use crate::tokenize::{TokenSet, has_view, lemma_has_view_step};
use crate::tokenmap::{TokenMap, lemma_assoc_contains, lemma_assoc_index, lemma_assoc_push,
    lemma_assoc_update};
use crate::nickname::NicknameIndex;
use crate::dist::{Dist, dist_matches, dists_match, extract_dist_list, phrase_err_at, phrase_ok,
    phrase_segs};

verus! {

/// One roster member: distributions for the name segments (first and last
/// name together) and for the city segments, plus a stable id — the
/// member's position in the roster.
#[derive(Debug)]
pub struct Person {
    pub name_dist_list: Vec<Dist>,
    pub city_dist_list: Vec<Dist>,
    pub id: usize,
}

/// Every token mentioned by any distribution of the list.
pub open spec fn dist_tokens(ds: Seq<Dist>) -> Set<Seq<char>> {
    Set::new(
        |t: Seq<char>|
            exists|di: int| 0 <= di < ds.len() && (#[trigger] ds[di]).token_set().contains(t),
    )
}

impl Person {
    pub open spec fn name_tokens(&self) -> Set<Seq<char>> {
        dist_tokens(self.name_dist_list@)
    }

    pub open spec fn city_tokens(&self) -> Set<Seq<char>> {
        dist_tokens(self.city_dist_list@)
    }
}

/// The inverted index: token to the ids of the people indexed under it.
#[derive(Debug)]
pub struct TokenToPersonList {
    pub table: TokenMap<Vec<usize>>,
}

impl View for TokenToPersonList {
    type V = Map<Seq<char>, Seq<usize>>;

    open spec fn view(&self) -> Map<Seq<char>, Seq<usize>> {
        self.table.map()
    }
}

/// Whether the index lists person `id` under token `t`.
pub open spec fn has_person(m: Map<Seq<char>, Seq<usize>>, t: Seq<char>, id: usize) -> bool {
    m.contains_key(t) && m[t].contains(id)
}

/// `new` records exactly the entries of `old` plus person `id` under
/// every token of `s`.
pub open spec fn indexes_add(
    new: Map<Seq<char>, Seq<usize>>,
    old: Map<Seq<char>, Seq<usize>>,
    id: usize,
    s: Set<Seq<char>>,
) -> bool {
    forall|t: Seq<char>, pid: usize|
        has_person(new, t, pid) <==> (has_person(old, t, pid) || (pid == id && s.contains(t)))
}

/// Every key of the index lists at least one person: no entry is ever
/// created empty.
pub open spec fn index_keys_live(m: Map<Seq<char>, Seq<usize>>) -> bool {
    forall|t: Seq<char>| #[trigger] m.contains_key(t) ==> exists|id: usize| has_person(m, t, id)
}

/// `new` has exactly the keys of `old` plus `k`.
pub open spec fn adds_index_key(
    new: Map<Seq<char>, Seq<usize>>,
    old: Map<Seq<char>, Seq<usize>>,
    k: Seq<char>,
) -> bool {
    forall|t: Seq<char>| #[trigger] new.contains_key(t) <==> (old.contains_key(t) || t == k)
}

impl TokenToPersonList {
    pub open spec fn wf(&self) -> bool {
        &&& self.table.wf_keys()
        &&& forall|p: int|
            0 <= p < self.table.entries@.len() ==> (#[trigger] self.table.entries@[p]).0.wf()
    }

    pub fn empty() -> (r: TokenToPersonList)
        ensures
            r.wf(),
            r@ == Map::<Seq<char>, Seq<usize>>::empty(),
            forall|t: Seq<char>, pid: usize| !has_person(r@, t, pid),
    {
        TokenToPersonList { table: TokenMap::empty() }
    }

    /// The ids listed under `t`, when the index has the token.
    pub fn get(&self, t: &Token) -> (r: Option<&Vec<usize>>)
        requires
            self.wf(),
        ensures
            match r {
                Some(v) => self@.contains_key(t@) && v@ == self@[t@],
                None => !self@.contains_key(t@),
            },
    {
        self.table.get(t)
    }
}

/// Appends person `id` to the candidate list of `token`.
pub fn insert_into_map(token_to_person_list: &mut TokenToPersonList, token: &Token, id: usize)
    requires
        old(token_to_person_list).wf(),
        token.wf(),
    ensures
        final(token_to_person_list).wf(),
        indexes_add(
            final(token_to_person_list)@,
            old(token_to_person_list)@,
            id,
            Set::<Seq<char>>::empty().insert(token@),
        ),
        adds_index_key(final(token_to_person_list)@, old(token_to_person_list)@, token@),
        has_person(final(token_to_person_list)@, token@, id),
{
    let ghost old_entries = token_to_person_list.table.entries@;
    let ghost old_map = token_to_person_list.table.map();
    let ghost s = Set::<Seq<char>>::empty().insert(token@);
    match token_to_person_list.table.position(token) {
        Some(p) => {
            proof {
                lemma_assoc_index(old_entries, p as int);
            }
            let ghost old_vec = token_to_person_list.table.entries@[p as int].1;
            token_to_person_list.table.entries[p].1.push(id);
            proof {
                let new_pair = (old_entries[p as int].0, token_to_person_list.table.entries@[p
                    as int].1);
                assert(token_to_person_list.table.entries@ =~= old_entries.update(
                    p as int,
                    new_pair,
                ));
                assert(new_pair.1@ =~= old_vec@.push(id));
                lemma_assoc_update(old_entries, p as int, new_pair);
                assert(token_to_person_list.table.map() == old_map.insert(token@, old_vec@.push(id)));
                assert(indexes_add(token_to_person_list.table.map(), old_map, id, s)) by {
                    assert forall|t: Seq<char>, pid: usize|
                        has_person(token_to_person_list.table.map(), t, pid) <==> (has_person(
                            old_map,
                            t,
                            pid,
                        ) || (pid == id && s.contains(t))) by {
                        if t == token@ {
                            assert(token_to_person_list.table.map()[t] == old_vec@.push(id));
                            if old_vec@.push(id).contains(pid) {
                                let q = choose|q: int|
                                    0 <= q < old_vec@.push(id).len() && old_vec@.push(id)[q] == pid;
                                if q < old_vec@.len() {
                                    assert(old_vec@[q] == pid);
                                }
                            }
                            if old_vec@.contains(pid) {
                                let q = choose|q: int| 0 <= q < old_vec@.len() && old_vec@[q] == pid;
                                assert(old_vec@.push(id)[q] == pid);
                            }
                            if pid == id {
                                assert(old_vec@.push(id)[old_vec@.len() as int] == id);
                            }
                        } else {
                            assert(token_to_person_list.table.map().contains_key(t)
                                == old_map.contains_key(t));
                            assert(token_to_person_list.table.map().contains_key(t)
                                ==> token_to_person_list.table.map()[t] == old_map[t]);
                        }
                    }
                }
                assert(adds_index_key(token_to_person_list.table.map(), old_map, token@)) by {
                    assert forall|t: Seq<char>|
                        token_to_person_list.table.map().contains_key(t) <==> (
                        old_map.contains_key(t) || t == token@) by {
                        assert(token_to_person_list.table.map() == old_map.insert(
                            token@,
                            old_vec@.push(id),
                        ));
                        if t == token@ {
                            assert(old_map.contains_key(token@));
                        }
                    }
                }
                assert(has_person(token_to_person_list.table.map(), token@, id)) by {
                    assert(token_to_person_list.table.map()[token@] == old_vec@.push(id));
                    assert(old_vec@.push(id)[old_vec@.len() as int] == id);
                }
            }
        },
        None => {
            proof {
                lemma_assoc_contains(old_entries, token@);
            }
            let kd = token.duplicate();
            let vv: Vec<usize> = vec![id];
            token_to_person_list.table.entries.push((kd, vv));
            proof {
                let new_pair = (kd, vv);
                assert(token_to_person_list.table.entries@ =~= old_entries.push(new_pair));
                lemma_assoc_push(old_entries, new_pair);
                assert(token_to_person_list.table.map() == old_map.insert(token@, vv@));
                assert(indexes_add(token_to_person_list.table.map(), old_map, id, s)) by {
                    assert forall|t: Seq<char>, pid: usize|
                        has_person(token_to_person_list.table.map(), t, pid) <==> (has_person(
                            old_map,
                            t,
                            pid,
                        ) || (pid == id && s.contains(t))) by {
                        if t == token@ {
                            assert(!old_map.contains_key(t));
                            assert(token_to_person_list.table.map()[t] == vv@);
                            if vv@.contains(pid) {
                                let q = choose|q: int| 0 <= q < vv@.len() && vv@[q] == pid;
                                assert(q == 0);
                            }
                            if pid == id {
                                assert(vv@[0] == pid);
                            }
                        } else {
                            assert(token_to_person_list.table.map().contains_key(t)
                                == old_map.contains_key(t));
                            assert(token_to_person_list.table.map().contains_key(t)
                                ==> token_to_person_list.table.map()[t] == old_map[t]);
                        }
                    }
                }
                assert(adds_index_key(token_to_person_list.table.map(), old_map, token@)) by {
                    assert forall|t: Seq<char>|
                        token_to_person_list.table.map().contains_key(t) <==> (
                        old_map.contains_key(t) || t == token@) by {
                        assert(token_to_person_list.table.map() == old_map.insert(token@, vv@));
                    }
                }
                assert(has_person(token_to_person_list.table.map(), token@, id)) by {
                    assert(token_to_person_list.table.map()[token@] == vv@);
                    assert(vv@[0] == id);
                }
            }
        },
    }
}

/// The tokens of the first `di` distributions, plus the given extra set,
/// stop words removed throughout.
spec fn dist_tokens_pre(ds: Seq<Dist>, di: int, extra: Set<Seq<char>>, stop: Set<Seq<char>>) -> Set<
    Seq<char>,
> {
    Set::new(
        |t: Seq<char>|
            ((exists|d: int| 0 <= d < di && (#[trigger] ds[d]).token_set().contains(t))
                || extra.contains(t)) && !stop.contains(t),
    )
}

/// Indexes every non-stop-word token of the given distributions under
/// person `id`.
fn index_dist_tokens(
    ix: &mut TokenToPersonList,
    dists: &Vec<Dist>,
    stop_words: &TokenSet,
    id: usize,
)
    requires
        old(ix).wf(),
        index_keys_live(old(ix)@),
        forall|di: int| 0 <= di < dists@.len() ==> (#[trigger] dists@[di]).wf(),
    ensures
        final(ix).wf(),
        index_keys_live(final(ix)@),
        indexes_add(
            final(ix)@,
            old(ix)@,
            id,
            dist_tokens(dists@).difference(stop_words@),
        ),
{
    let ghost old_map = ix@;
    let ghost stop = stop_words@;
    let nd = dists.len();
    let mut di: usize = 0;
    proof {
        assert(indexes_add(ix@, old_map, id, dist_tokens_pre(dists@, 0, Set::empty(), stop))) by {
            assert forall|t: Seq<char>, pid: usize|
                has_person(ix@, t, pid) <==> (has_person(old_map, t, pid) || (pid == id
                    && dist_tokens_pre(dists@, 0, Set::empty(), stop).contains(t))) by {
                if dist_tokens_pre(dists@, 0, Set::empty(), stop).contains(t) {
                    let d = choose|d: int|
                        0 <= d < 0 && (#[trigger] dists@[d]).token_set().contains(t);
                }
            }
        }
    }
    while di < nd
        invariant
            nd == dists@.len(),
            di <= nd,
            forall|d: int| 0 <= d < nd ==> (#[trigger] dists@[d]).wf(),
            stop == stop_words@,
            ix.wf(),
            index_keys_live(ix@),
            indexes_add(ix@, old_map, id, dist_tokens_pre(dists@, di as int, Set::empty(), stop)),
        decreases nd - di,
    {
        let d = &dists[di];
        // main tokens of this distribution
        let nm = d.main.len();
        let mut j: usize = 0;
        proof {
            assert(d.main@.subrange(0, 0) =~= Seq::<Token>::empty());
            assert(Set::new(|t: Seq<char>| has_view(Seq::<Token>::empty(), t)) =~= Set::<
                Seq<char>,
            >::empty()) by {
                assert forall|t: Seq<char>| !has_view(Seq::<Token>::empty(), t) by {
                    if has_view(Seq::<Token>::empty(), t) {
                        let q = choose|q: int| 0 <= q < 0 && Seq::<Token>::empty()[q]@ == t;
                    }
                }
            }
            assert(dist_tokens_pre(
                dists@,
                di as int,
                Set::new(|t: Seq<char>| has_view(d.main@.subrange(0, 0), t)),
                stop,
            ) =~= dist_tokens_pre(dists@, di as int, Set::empty(), stop));
        }
        while j < nm
            invariant
                nd == dists@.len(),
                di < nd,
                d == &dists@[di as int],
                forall|d2: int| 0 <= d2 < nd ==> (#[trigger] dists@[d2]).wf(),
                stop == stop_words@,
                nm == d.main@.len(),
                j <= nm,
                ix.wf(),
                index_keys_live(ix@),
                indexes_add(
                    ix@,
                    old_map,
                    id,
                    dist_tokens_pre(
                        dists@,
                        di as int,
                        Set::new(|t: Seq<char>| has_view(d.main@.subrange(0, j as int), t)),
                        stop,
                    ),
                ),
            decreases nm - j,
        {
            let t = &d.main[j];
            let ghost tv = t@;
            let ghost pre_map = ix@;
            let ghost s_pre = dist_tokens_pre(
                dists@,
                di as int,
                Set::new(|x: Seq<char>| has_view(d.main@.subrange(0, j as int), x)),
                stop,
            );
            let ghost s_post = dist_tokens_pre(
                dists@,
                di as int,
                Set::new(|x: Seq<char>| has_view(d.main@.subrange(0, j + 1), x)),
                stop,
            );
            if !stop_words.contains(t) {
                insert_into_map(ix, t, id);
            }
            proof {
                assert(index_keys_live(ix@)) by {
                    assert forall|t2: Seq<char>| #[trigger] ix@.contains_key(t2) implies exists|
                        id2: usize,
                    | has_person(ix@, t2, id2) by {
                        if !stop.contains(tv) && t2 == tv {
                            assert(has_person(ix@, tv, id));
                        } else {
                            assert(pre_map.contains_key(t2));
                            let id2 = choose|id2: usize| has_person(pre_map, t2, id2);
                            assert(has_person(ix@, t2, id2));
                        }
                    }
                }
                assert(indexes_add(ix@, old_map, id, s_post)) by {
                    assert forall|t2: Seq<char>, pid: usize|
                        has_person(ix@, t2, pid) <==> (has_person(old_map, t2, pid) || (pid == id
                            && s_post.contains(t2))) by {
                        lemma_has_view_step(d.main@, j as int, t2);
                        if !stop.contains(tv) {
                            assert(has_person(ix@, t2, pid) <==> (has_person(pre_map, t2, pid) || (
                            pid == id && Set::<Seq<char>>::empty().insert(tv).contains(t2))));
                        }
                    }
                }
            }
            j = j + 1;
        }
        // nickname tokens of this distribution
        let nn = d.nicknames.len();
        let mut q: usize = 0;
        proof {
            assert(d.main@.subrange(0, nm as int) =~= d.main@);
            assert(d.nicknames@.subrange(0, 0) =~= Seq::<Token>::empty());
            assert(dist_tokens_pre(
                dists@,
                di as int,
                Set::new(
                    |t: Seq<char>|
                        has_view(d.main@, t) || has_view(d.nicknames@.subrange(0, 0), t),
                ),
                stop,
            ) =~= dist_tokens_pre(
                dists@,
                di as int,
                Set::new(|t: Seq<char>| has_view(d.main@.subrange(0, nm as int), t)),
                stop,
            )) by {
                assert forall|t: Seq<char>| !has_view(d.nicknames@.subrange(0, 0), t) by {
                    if has_view(d.nicknames@.subrange(0, 0), t) {
                        let w = choose|w: int|
                            0 <= w < 0 && d.nicknames@.subrange(0, 0)[w]@ == t;
                    }
                }
            }
        }
        while q < nn
            invariant
                nd == dists@.len(),
                di < nd,
                d == &dists@[di as int],
                forall|d2: int| 0 <= d2 < nd ==> (#[trigger] dists@[d2]).wf(),
                stop == stop_words@,
                nn == d.nicknames@.len(),
                q <= nn,
                ix.wf(),
                index_keys_live(ix@),
                indexes_add(
                    ix@,
                    old_map,
                    id,
                    dist_tokens_pre(
                        dists@,
                        di as int,
                        Set::new(
                            |t: Seq<char>|
                                has_view(d.main@, t) || has_view(
                                    d.nicknames@.subrange(0, q as int),
                                    t,
                                ),
                        ),
                        stop,
                    ),
                ),
            decreases nn - q,
        {
            let t = &d.nicknames[q];
            let ghost tv = t@;
            let ghost pre_map = ix@;
            let ghost s_post = dist_tokens_pre(
                dists@,
                di as int,
                Set::new(
                    |x: Seq<char>|
                        has_view(d.main@, x) || has_view(d.nicknames@.subrange(0, q + 1), x),
                ),
                stop,
            );
            if !stop_words.contains(t) {
                insert_into_map(ix, t, id);
            }
            proof {
                assert(index_keys_live(ix@)) by {
                    assert forall|t2: Seq<char>| #[trigger] ix@.contains_key(t2) implies exists|
                        id2: usize,
                    | has_person(ix@, t2, id2) by {
                        if !stop.contains(tv) && t2 == tv {
                            assert(has_person(ix@, tv, id));
                        } else {
                            assert(pre_map.contains_key(t2));
                            let id2 = choose|id2: usize| has_person(pre_map, t2, id2);
                            assert(has_person(ix@, t2, id2));
                        }
                    }
                }
                assert(indexes_add(ix@, old_map, id, s_post)) by {
                    assert forall|t2: Seq<char>, pid: usize|
                        has_person(ix@, t2, pid) <==> (has_person(old_map, t2, pid) || (pid == id
                            && s_post.contains(t2))) by {
                        lemma_has_view_step(d.nicknames@, q as int, t2);
                        if !stop.contains(tv) {
                            assert(has_person(ix@, t2, pid) <==> (has_person(pre_map, t2, pid) || (
                            pid == id && Set::<Seq<char>>::empty().insert(tv).contains(t2))));
                        }
                    }
                }
            }
            q = q + 1;
        }
        proof {
            assert(d.nicknames@.subrange(0, nn as int) =~= d.nicknames@);
            assert(dist_tokens_pre(dists@, di + 1, Set::empty(), stop) =~= dist_tokens_pre(
                dists@,
                di as int,
                Set::new(
                    |t: Seq<char>| has_view(d.main@, t) || has_view(d.nicknames@, t),
                ),
                stop,
            )) by {
                assert forall|t: Seq<char>|
                    #![trigger dist_tokens_pre(dists@, di + 1, Set::empty(), stop).contains(t)]
                    dist_tokens_pre(dists@, di + 1, Set::empty(), stop).contains(t)
                        <==> dist_tokens_pre(
                        dists@,
                        di as int,
                        Set::new(
                            |x: Seq<char>| has_view(d.main@, x) || has_view(d.nicknames@, x),
                        ),
                        stop,
                    ).contains(t) by {
                    if !stop.contains(t) {
                        if exists|d2: int|
                            0 <= d2 < di + 1 && (#[trigger] dists@[d2]).token_set().contains(t) {
                            let d2 = choose|d2: int|
                                0 <= d2 < di + 1 && (#[trigger] dists@[d2]).token_set().contains(t);
                            if d2 < di {
                                assert(dist_tokens_pre(dists@, di as int, Set::empty(), stop)
                                    .contains(t));
                            } else {
                                assert(dists@[di as int].token_set().contains(t));
                            }
                        }
                        if dists@[di as int].token_set().contains(t) {
                            assert(exists|d2: int|
                                0 <= d2 < di + 1 && (#[trigger] dists@[d2]).token_set().contains(
                                    t,
                                )) by {
                                assert(dists@[di as int].token_set().contains(t));
                            }
                        }
                        if exists|d2: int|
                            0 <= d2 < di && (#[trigger] dists@[d2]).token_set().contains(t) {
                            let d2 = choose|d2: int|
                                0 <= d2 < di && (#[trigger] dists@[d2]).token_set().contains(t);
                            assert(0 <= d2 < di + 1 && dists@[d2].token_set().contains(t));
                        }
                    }
                }
            }
        }
        di = di + 1;
    }
    proof {
        assert(dist_tokens_pre(dists@, nd as int, Set::empty(), stop) =~= dist_tokens(
            dists@,
        ).difference(stop_words@));
    }
}

/// The tab- or comma-separated fields of a roster line.
pub open spec fn roster_fields(line: Seq<char>) -> Seq<Seq<char>> {
    split_by(line, SepKind::CommaTab)
}

/// First and last name joined by a space: the phrase the name
/// distributions are built from.
pub open spec fn name_phrase(line: Seq<char>) -> Seq<char> {
    roster_fields(line)[0] + seq![' '] + roster_fields(line)[1]
}

/// The city field, or the empty phrase when city matching is off.
pub open spec fn city_phrase(line: Seq<char>, include_city: bool) -> Seq<char> {
    if include_city {
        roster_fields(line)[2]
    } else {
        Seq::empty()
    }
}

/// A roster line is acceptable when it has exactly three fields and both
/// phrases pass validation.
pub open spec fn roster_line_ok(line: Seq<char>, include_city: bool) -> bool {
    &&& roster_fields(line).len() == 3
    &&& phrase_ok(name_phrase(line))
    &&& phrase_ok(city_phrase(line, include_city))
}

/// `p` is the person record of roster line `line` with id `id`: name
/// distributions under the nickname table, city distributions under the
/// empty one.
pub open spec fn person_matches(
    p: Person,
    line: Seq<char>,
    include_city: bool,
    id: usize,
    m: Map<Seq<char>, Seq<Token>>,
) -> bool {
    &&& p.id == id
    &&& dists_match(p.name_dist_list@, name_phrase(line), m)
    &&& dists_match(p.city_dist_list@, city_phrase(line, include_city), Map::empty())
}

/// Line `i` is the first bad roster line and produced the error.
pub open spec fn roster_err_at(
    lines: Seq<Seq<char>>,
    i: int,
    include_city: bool,
    e: MatchError,
) -> bool {
    &&& 0 <= i < lines.len()
    &&& !roster_line_ok(lines[i], include_city)
    &&& forall|p: int| 0 <= p < i ==> roster_line_ok(#[trigger] lines[p], include_city)
    &&& match e {
        MatchError::MalformedRosterLine(l) => l@ == lines[i] && roster_fields(lines[i]).len() != 3,
        MatchError::InvalidToken(_) => roster_fields(lines[i]).len() == 3 && ((exists|si: int|
            phrase_err_at(name_phrase(lines[i]), si, e)) || (phrase_ok(name_phrase(lines[i]))
            && exists|si: int| phrase_err_at(city_phrase(lines[i], include_city), si, e))),
        _ => false,
    }
}

/// The index lists person `pid` under `t` exactly when `t` is a
/// non-stop-word name token or a non-stop-word city token of that person.
pub open spec fn index_complete(
    m: Map<Seq<char>, Seq<usize>>,
    persons: Seq<Person>,
    name_stop_words: Set<Seq<char>>,
    city_stop_words: Set<Seq<char>>,
) -> bool {
    forall|t: Seq<char>, pid: usize|
        #![trigger has_person(m, t, pid)]
        has_person(m, t, pid) <==> (0 <= pid < persons.len() && ((persons[pid as int].name_tokens()
            .contains(t) && !name_stop_words.contains(t)) || (persons[pid as int].city_tokens()
            .contains(t) && !city_stop_words.contains(t))))
}

/// Builds one `Person` per roster line and the inverted index over all
/// their non-stop-word tokens. A malformed line aborts the whole pass:
/// the index would otherwise be silently incomplete.
pub fn index_person_list(
    member_lines: &Vec<String>,
    name_stop_words: &TokenSet,
    city_stop_words: &TokenSet,
    include_city: bool,
    name_to_nickname_set: &NicknameIndex,
) -> (r: Result<(Vec<Person>, TokenToPersonList), MatchError>)
    requires
        name_to_nickname_set.wf(),
    ensures
        r is Ok <==> (forall|i: int|
            0 <= i < member_lines@.len() ==> roster_line_ok(
                #[trigger] member_lines.deep_view()[i],
                include_city,
            )),
        r matches Ok(pr) ==> {
            &&& pr.0@.len() == member_lines@.len()
            &&& forall|i: int|
                0 <= i < pr.0@.len() ==> person_matches(
                    #[trigger] pr.0@[i],
                    member_lines.deep_view()[i],
                    include_city,
                    i as usize,
                    name_to_nickname_set@,
                )
            &&& pr.1.wf()
            &&& index_keys_live(pr.1@)
            &&& index_complete(pr.1@, pr.0@, name_stop_words@, city_stop_words@)
        },
        r matches Err(e) ==> exists|i: int|
            roster_err_at(member_lines.deep_view(), i, include_city, e),
{
    let ghost lv = member_lines.deep_view();
    let ghost m = name_to_nickname_set@;
    let empty_nick = NicknameIndex::empty();
    let n = member_lines.len();
    let mut persons: Vec<Person> = Vec::new();
    let mut ix = TokenToPersonList::empty();
    proof {
        assert(index_complete(ix@, persons@, name_stop_words@, city_stop_words@));
    }
    let mut i: usize = 0;
    while i < n
        invariant
            name_to_nickname_set.wf(),
            m == name_to_nickname_set@,
            empty_nick.wf(),
            empty_nick@ == Map::<Seq<char>, Seq<Token>>::empty(),
            lv == member_lines.deep_view(),
            n == lv.len(),
            n == member_lines@.len(),
            i <= n,
            persons@.len() == i,
            forall|p: int| 0 <= p < i ==> roster_line_ok(#[trigger] lv[p], include_city),
            forall|p: int|
                0 <= p < i ==> person_matches(
                    #[trigger] persons@[p],
                    lv[p],
                    include_city,
                    p as usize,
                    m,
                ),
            ix.wf(),
            index_keys_live(ix@),
            index_complete(ix@, persons@, name_stop_words@, city_stop_words@),
        decreases n - i,
    {
        proof {
            assert(lv[i as int] == member_lines@[i as int]@);
        }
        let fields = split_fragments(member_lines[i].as_str(), SepKind::CommaTab);
        proof {
            assert(fields.deep_view() == roster_fields(lv[i as int]));
        }
        if fields.len() != 3 {
            let e = MatchError::MalformedRosterLine(member_lines[i].clone());
            proof {
                assert(roster_err_at(lv, i as int, include_city, e));
            }
            return Err(e);
        }
        proof {
            assert(fields.deep_view()[0] == fields@[0]@);
            assert(fields.deep_view()[1] == fields@[1]@);
            assert(fields.deep_view()[2] == fields@[2]@);
        }
        let name = fields[0].clone().concat(" ").concat(fields[1].as_str());
        proof {
            reveal_strlit(" ");
            assert(" "@ =~= seq![' ']);
            assert(name@ == name_phrase(lv[i as int]));
        }
        let name_dist_list = match extract_dist_list(name.as_str(), name_to_nickname_set) {
            Ok(ds) => ds,
            Err(e) => {
                proof {
                    assert(roster_err_at(lv, i as int, include_city, e));
                }
                return Err(e);
            },
        };
        let city_result = if include_city {
            extract_dist_list(fields[2].as_str(), &empty_nick)
        } else {
            let r = extract_dist_list("", &empty_nick);
            proof {
                reveal_strlit("");
                assert(""@ =~= Seq::<char>::empty());
            }
            r
        };
        let ghost cp = city_phrase(lv[i as int], include_city);
        let city_dist_list = match city_result {
            Ok(ds) => ds,
            Err(e) => {
                proof {
                    assert(roster_err_at(lv, i as int, include_city, e));
                }
                return Err(e);
            },
        };
        let person = Person { name_dist_list, city_dist_list, id: i };
        proof {
            assert(person_matches(person, lv[i as int], include_city, i as usize, m));
            assert forall|di: int|
                0 <= di < person.name_dist_list@.len() implies (
            #[trigger] person.name_dist_list@[di]).wf() by {
                assert(dist_matches(
                    person.name_dist_list@[di],
                    phrase_segs(name_phrase(lv[i as int]))[di],
                    m,
                ));
            }
            assert forall|di: int|
                0 <= di < person.city_dist_list@.len() implies (
            #[trigger] person.city_dist_list@[di]).wf() by {
                assert(dist_matches(
                    person.city_dist_list@[di],
                    phrase_segs(cp)[di],
                    Map::empty(),
                ));
            }
        }
        let ghost ix0 = ix@;
        index_dist_tokens(&mut ix, &person.name_dist_list, name_stop_words, i);
        let ghost ix1 = ix@;
        index_dist_tokens(&mut ix, &person.city_dist_list, city_stop_words, i);
        let ghost ix2 = ix@;
        persons.push(person);
        proof {
            assert(persons@ =~= persons@.subrange(0, i as int).push(person));
            assert(persons@[i as int] == person);
            assert forall|p: int|
                0 <= p < i + 1 implies person_matches(
                #[trigger] persons@[p],
                lv[p],
                include_city,
                p as usize,
                m,
            ) by {
                if p < i {
                    assert(persons@[p] == persons@.subrange(0, i as int)[p]);
                }
            }
            assert(index_complete(ix@, persons@, name_stop_words@, city_stop_words@)) by {
                assert forall|t: Seq<char>, pid: usize|
                    #![trigger has_person(ix2, t, pid)]
                    has_person(ix2, t, pid) <==> (0 <= pid < persons@.len() && ((persons@[pid
                        as int].name_tokens().contains(t) && !name_stop_words@.contains(t)) || (
                    persons@[pid as int].city_tokens().contains(t) && !city_stop_words@.contains(
                        t,
                    )))) by {
                    assert(has_person(ix2, t, pid) <==> (has_person(ix1, t, pid) || (pid == i
                        && dist_tokens(person.city_dist_list@).difference(
                        city_stop_words@,
                    ).contains(t))));
                    assert(has_person(ix1, t, pid) <==> (has_person(ix0, t, pid) || (pid == i
                        && dist_tokens(person.name_dist_list@).difference(
                        name_stop_words@,
                    ).contains(t))));
                    if pid == i {
                        assert(persons@[pid as int] == person);
                        assert(!(0 <= pid < persons@.len() - 1));
                    } else {
                        if 0 <= pid < persons@.len() {
                            assert(persons@[pid as int] == persons@.subrange(0, i as int)[pid as int]);
                        }
                    }
                }
            }
        }
        i = i + 1;
    }
    Ok((persons, ix))
}

pub open spec fn strictly_sorted(s: Seq<usize>) -> bool {
    forall|a: int, b: int| 0 <= a < b < s.len() ==> s[a] < s[b]
}

/// `new` holds the members of `old` and `x`, and nothing else.
pub open spec fn set_insert_rel(new: Seq<usize>, old: Seq<usize>, x: usize) -> bool {
    forall|y: usize| new.contains(y) <==> (old.contains(y) || y == x)
}

fn insert_sorted(v: &mut Vec<usize>, x: usize)
    requires
        strictly_sorted(old(v)@),
    ensures
        strictly_sorted(final(v)@),
        set_insert_rel(final(v)@, old(v)@, x),
{
    let n = v.len();
    let mut i: usize = 0;
    while i < n && v[i] < x
        invariant
            n == v@.len(),
            i <= n,
            v@ == old(v)@,
            forall|a: int| 0 <= a < i ==> v@[a] < x,
        decreases n - i,
    {
        i = i + 1;
    }
    if i < n && v[i] == x {
        proof {
            assert(v@[i as int] == x);
            assert(set_insert_rel(v@, old(v)@, x)) by {
                assert forall|y: usize| v@.contains(y) <==> (old(v)@.contains(y) || y == x) by {
                    if y == x {
                        assert(v@.contains(x));
                    }
                    assert(v@ == old(v)@);
                }
            }
        }
    } else {
        let ghost old_v = v@;
        v.insert(i, x);
        proof {
            assert(v@ =~= old_v.subrange(0, i as int) + seq![x] + old_v.subrange(
                i as int,
                old_v.len() as int,
            ));
            assert(strictly_sorted(v@)) by {
                assert forall|a: int, b: int| 0 <= a < b < v@.len() implies v@[a] < v@[b] by {
                    if b < i {
                        assert(v@[a] == old_v[a] && v@[b] == old_v[b]);
                    } else if a < i && b == i {
                        assert(v@[a] == old_v[a] && v@[b] == x);
                    } else if a < i && b > i {
                        assert(v@[a] == old_v[a] && v@[b] == old_v[b - 1]);
                        if a < b - 1 {
                            assert(old_v[a] < old_v[b - 1]);
                        }
                    } else if a == i && b > i {
                        assert(v@[a] == x && v@[b] == old_v[b - 1]);
                        assert(i < n ==> old_v[i as int] > x);
                        if b - 1 > i {
                            assert(old_v[i as int] < old_v[b - 1]);
                        }
                    } else {
                        assert(v@[a] == old_v[a - 1] && v@[b] == old_v[b - 1]);
                    }
                }
            }
            assert(set_insert_rel(v@, old_v, x)) by {
                assert forall|y: usize| v@.contains(y) <==> (old_v.contains(y) || y == x) by {
                    if v@.contains(y) {
                        let k = choose|k: int| 0 <= k < v@.len() && v@[k] == y;
                        if k < i {
                            assert(old_v[k] == y);
                        } else if k == i {
                        } else {
                            assert(old_v[k - 1] == y);
                        }
                    }
                    if old_v.contains(y) {
                        let k = choose|k: int| 0 <= k < old_v.len() && old_v[k] == y;
                        if k < i {
                            assert(v@[k] == y);
                        } else {
                            assert(v@[k + 1] == y);
                        }
                    }
                    if y == x {
                        assert(v@[i as int] == y);
                    }
                }
            }
        }
    }
}

/// The candidates found so far: people listed under one of the first `ti`
/// line tokens, plus those in `extra`.
spec fn cands_match(
    r: Seq<usize>,
    ts: Seq<Token>,
    ti: int,
    extra: Seq<usize>,
    m: Map<Seq<char>, Seq<usize>>,
) -> bool {
    forall|id: usize|
        r.contains(id) <==> ((exists|k: int| 0 <= k < ti && has_person(m, (#[trigger] ts[k])@, id))
            || extra.contains(id))
}

/// The people sharing at least one indexed token with the result line, as
/// a strictly ascending list of ids.
pub fn find_candidate_ids(
    result_tokens: &TokenSet,
    token_to_person_list: &TokenToPersonList,
) -> (r: Vec<usize>)
    requires
        token_to_person_list.wf(),
    ensures
        strictly_sorted(r@),
        forall|id: usize|
            r@.contains(id) <==> (exists|t: Seq<char>|
                result_tokens@.contains(t) && has_person(token_to_person_list@, t, id)),
{
    let ghost m = token_to_person_list@;
    let nt = result_tokens.tokens.len();
    let mut r: Vec<usize> = Vec::new();
    let mut ti: usize = 0;
    proof {
        assert(cands_match(r@, result_tokens.tokens@, 0, Seq::<usize>::empty(), m)) by {
            assert forall|id: usize|
                r@.contains(id) <==> ((exists|k: int|
                    0 <= k < 0 && has_person(m, (#[trigger] result_tokens.tokens@[k])@, id))
                    || Seq::<usize>::empty().contains(id)) by {
                if Seq::<usize>::empty().contains(id) {
                    let w = choose|w: int| 0 <= w < 0 && Seq::<usize>::empty()[w] == id;
                }
                if exists|k: int|
                    0 <= k < 0 && has_person(m, (#[trigger] result_tokens.tokens@[k])@, id) {
                    let w = choose|k: int|
                        0 <= k < 0 && has_person(m, (#[trigger] result_tokens.tokens@[k])@, id);
                }
            }
        }
    }
    while ti < nt
        invariant
            token_to_person_list.wf(),
            m == token_to_person_list@,
            nt == result_tokens.tokens@.len(),
            ti <= nt,
            strictly_sorted(r@),
            cands_match(r@, result_tokens.tokens@, ti as int, Seq::<usize>::empty(), m),
        decreases nt - ti,
    {
        let t = &result_tokens.tokens[ti];
        let ghost tv = t@;
        match token_to_person_list.get(t) {
            Some(ids) => {
                let ghost idsv = ids@;
                let ni = ids.len();
                let mut qi: usize = 0;
                proof {
                    assert(idsv.subrange(0, 0) =~= Seq::<usize>::empty());
                }
                while qi < ni
                    invariant
                        token_to_person_list.wf(),
                        m == token_to_person_list@,
                        nt == result_tokens.tokens@.len(),
                        ti < nt,
                        tv == result_tokens.tokens@[ti as int]@,
                        m.contains_key(tv),
                        idsv == m[tv],
                        ids@ == idsv,
                        ni == idsv.len(),
                        qi <= ni,
                        strictly_sorted(r@),
                        cands_match(
                            r@,
                            result_tokens.tokens@,
                            ti as int,
                            idsv.subrange(0, qi as int),
                            m,
                        ),
                    decreases ni - qi,
                {
                    let ghost old_r = r@;
                    insert_sorted(&mut r, ids[qi]);
                    proof {
                        assert(idsv.subrange(0, qi + 1) =~= idsv.subrange(0, qi as int).push(
                            idsv[qi as int],
                        ));
                        assert(cands_match(
                            r@,
                            result_tokens.tokens@,
                            ti as int,
                            idsv.subrange(0, qi + 1),
                            m,
                        )) by {
                            assert forall|id: usize|
                                r@.contains(id) <==> ((exists|k: int|
                                    0 <= k < ti && has_person(
                                        m,
                                        (#[trigger] result_tokens.tokens@[k])@,
                                        id,
                                    )) || idsv.subrange(0, qi + 1).contains(id)) by {
                                let pre = idsv.subrange(0, qi as int);
                                let pre1 = idsv.subrange(0, qi + 1);
                                if pre1.contains(id) {
                                    let w = choose|w: int| 0 <= w < pre1.len() && pre1[w] == id;
                                    if w < qi {
                                        assert(pre[w] == id);
                                    } else {
                                        assert(id == idsv[qi as int]);
                                    }
                                }
                                if pre.contains(id) {
                                    let w = choose|w: int| 0 <= w < pre.len() && pre[w] == id;
                                    assert(pre1[w] == id);
                                }
                                if id == idsv[qi as int] {
                                    assert(pre1[qi as int] == id);
                                }
                            }
                        }
                    }
                    qi = qi + 1;
                }
                proof {
                    assert(idsv.subrange(0, ni as int) =~= idsv);
                    assert(cands_match(
                        r@,
                        result_tokens.tokens@,
                        ti + 1,
                        Seq::<usize>::empty(),
                        m,
                    )) by {
                        assert forall|id: usize|
                            r@.contains(id) <==> ((exists|k: int|
                                0 <= k < ti + 1 && has_person(
                                    m,
                                    (#[trigger] result_tokens.tokens@[k])@,
                                    id,
                                )) || Seq::<usize>::empty().contains(id)) by {
                            if Seq::<usize>::empty().contains(id) {
                                let w = choose|w: int| 0 <= w < 0 && Seq::<usize>::empty()[w] == id;
                            }
                            if r@.contains(id) {
                                if exists|k: int|
                                    0 <= k < ti && has_person(
                                        m,
                                        (#[trigger] result_tokens.tokens@[k])@,
                                        id,
                                    ) {
                                    let k = choose|k: int|
                                        0 <= k < ti && has_person(
                                            m,
                                            (#[trigger] result_tokens.tokens@[k])@,
                                            id,
                                        );
                                    assert(0 <= k < ti + 1 && has_person(
                                        m,
                                        result_tokens.tokens@[k]@,
                                        id,
                                    ));
                                } else {
                                    assert(idsv.contains(id));
                                    assert(has_person(m, result_tokens.tokens@[ti as int]@, id));
                                }
                            }
                            if exists|k: int|
                                0 <= k < ti + 1 && has_person(
                                    m,
                                    (#[trigger] result_tokens.tokens@[k])@,
                                    id,
                                ) {
                                let k = choose|k: int|
                                    0 <= k < ti + 1 && has_person(
                                        m,
                                        (#[trigger] result_tokens.tokens@[k])@,
                                        id,
                                    );
                                if k < ti {
                                    assert(exists|k2: int|
                                        0 <= k2 < ti && has_person(
                                            m,
                                            (#[trigger] result_tokens.tokens@[k2])@,
                                            id,
                                        ));
                                } else {
                                    assert(m[tv].contains(id));
                                }
                            }
                        }
                    }
                }
            },
            None => {
                proof {
                    assert(cands_match(
                        r@,
                        result_tokens.tokens@,
                        ti + 1,
                        Seq::<usize>::empty(),
                        m,
                    )) by {
                        assert forall|id: usize|
                            r@.contains(id) <==> ((exists|k: int|
                                0 <= k < ti + 1 && has_person(
                                    m,
                                    (#[trigger] result_tokens.tokens@[k])@,
                                    id,
                                )) || Seq::<usize>::empty().contains(id)) by {
                            if Seq::<usize>::empty().contains(id) {
                                let w = choose|w: int| 0 <= w < 0 && Seq::<usize>::empty()[w] == id;
                            }
                            if exists|k: int|
                                0 <= k < ti + 1 && has_person(
                                    m,
                                    (#[trigger] result_tokens.tokens@[k])@,
                                    id,
                                ) {
                                let k = choose|k: int|
                                    0 <= k < ti + 1 && has_person(
                                        m,
                                        (#[trigger] result_tokens.tokens@[k])@,
                                        id,
                                    );
                                if k == ti {
                                    assert(!m.contains_key(tv));
                                    assert(false);
                                } else {
                                    assert(exists|k2: int|
                                        0 <= k2 < ti && has_person(
                                            m,
                                            (#[trigger] result_tokens.tokens@[k2])@,
                                            id,
                                        ));
                                }
                            }
                            if exists|k: int|
                                0 <= k < ti && has_person(
                                    m,
                                    (#[trigger] result_tokens.tokens@[k])@,
                                    id,
                                ) {
                                let k = choose|k: int|
                                    0 <= k < ti && has_person(
                                        m,
                                        (#[trigger] result_tokens.tokens@[k])@,
                                        id,
                                    );
                                assert(0 <= k < ti + 1 && has_person(
                                    m,
                                    result_tokens.tokens@[k]@,
                                    id,
                                ));
                            }
                        }
                    }
                }
            },
        }
        ti = ti + 1;
    }
    proof {
        assert forall|id: usize|
            r@.contains(id) <==> (exists|t: Seq<char>|
                result_tokens@.contains(t) && has_person(m, t, id)) by {
            if r@.contains(id) {
                let k = choose|k: int|
                    0 <= k < nt && has_person(m, (#[trigger] result_tokens.tokens@[k])@, id);
                assert(result_tokens@.contains(result_tokens.tokens@[k]@));
            }
            if exists|t: Seq<char>| result_tokens@.contains(t) && has_person(m, t, id) {
                let t = choose|t: Seq<char>|
                    result_tokens@.contains(t) && has_person(m, t, id);
                let k = choose|k: int|
                    0 <= k < result_tokens.tokens@.len() && result_tokens.tokens@[k]@ == t;
                assert(has_person(m, result_tokens.tokens@[k]@, id));
            }
        }
    }
    r
}

/// The number of result lines the scoring prior is computed from: the
/// caller's override when one is given, else the corpus size.
pub fn results_count(
    override_results_count: Option<usize>,
    results_as_tokens: &Vec<TokenSet>,
) -> (r: usize)
    ensures
        r == match override_results_count {
            Some(c) => c,
            None => results_as_tokens@.len() as usize,
        },
{
    match override_results_count {
        Some(c) => c,
        None => results_as_tokens.len(),
    }
}

/// A member that shares no indexed token with a result line is never
/// among the line's candidates; in particular a member whose tokens are
/// all stop words, or whose city words never occur in the corpus line,
/// can only be retrieved through some other token of its own.
pub proof fn lemma_unshared_member_not_candidate(
    cands: Seq<usize>,
    line_tokens: Set<Seq<char>>,
    m: Map<Seq<char>, Seq<usize>>,
    id: usize,
)
    requires
        forall|pid: usize|
            cands.contains(pid) <==> (exists|t: Seq<char>|
                line_tokens.contains(t) && has_person(m, t, pid)),
        forall|t: Seq<char>| line_tokens.contains(t) ==> !has_person(m, t, id),
    ensures
        !cands.contains(id),
{
    if cands.contains(id) {
        let t = choose|t: Seq<char>| line_tokens.contains(t) && has_person(m, t, id);
        assert(!has_person(m, t, id));
    }
}

/// Retrieval is exactly the union of the index entries of a line's
/// tokens: a member is a candidate for a result line precisely when some
/// token of the line is a non-stop-word name or city token of that
/// member — never a full roster scan, never a missed sharer.
pub proof fn lemma_candidate_iff_shared_token(
    cands: Seq<usize>,
    line_tokens: Set<Seq<char>>,
    m: Map<Seq<char>, Seq<usize>>,
    persons: Seq<Person>,
    name_stop_words: Set<Seq<char>>,
    city_stop_words: Set<Seq<char>>,
    id: usize,
)
    requires
        forall|pid: usize|
            cands.contains(pid) <==> (exists|t: Seq<char>|
                line_tokens.contains(t) && has_person(m, t, pid)),
        index_complete(m, persons, name_stop_words, city_stop_words),
    ensures
        cands.contains(id) <==> (0 <= id < persons.len() && exists|t: Seq<char>|
            line_tokens.contains(t) && ((persons[id as int].name_tokens().contains(t)
                && !name_stop_words.contains(t)) || (persons[id as int].city_tokens().contains(t)
                && !city_stop_words.contains(t)))),
{
    if cands.contains(id) {
        let t = choose|t: Seq<char>| line_tokens.contains(t) && has_person(m, t, id);
        assert(0 <= id < persons.len());
        assert(line_tokens.contains(t) && ((persons[id as int].name_tokens().contains(t)
            && !name_stop_words.contains(t)) || (persons[id as int].city_tokens().contains(t)
            && !city_stop_words.contains(t))));
    }
    if 0 <= id < persons.len() && exists|t: Seq<char>|
        line_tokens.contains(t) && ((persons[id as int].name_tokens().contains(t)
            && !name_stop_words.contains(t)) || (persons[id as int].city_tokens().contains(t)
            && !city_stop_words.contains(t))) {
        let t = choose|t: Seq<char>|
            line_tokens.contains(t) && ((persons[id as int].name_tokens().contains(t)
                && !name_stop_words.contains(t)) || (persons[id as int].city_tokens().contains(
                t,
            ) && !city_stop_words.contains(t)));
        assert(has_person(m, t, id));
    }
}

/// A token that is a stop word both as a name and as a city is excluded
/// from the index entirely: no person is listed under it.
pub proof fn lemma_stop_word_not_indexed(
    m: Map<Seq<char>, Seq<usize>>,
    persons: Seq<Person>,
    name_stop_words: Set<Seq<char>>,
    city_stop_words: Set<Seq<char>>,
    t: Seq<char>,
    id: usize,
)
    requires
        index_complete(m, persons, name_stop_words, city_stop_words),
        name_stop_words.contains(t),
        city_stop_words.contains(t),
    ensures
        !has_person(m, t, id),
{
}

} // verus!
