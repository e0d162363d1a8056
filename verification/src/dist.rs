//! Token distributions: one `Dist` per name or city segment, holding the
//! segment's own alternative tokens (split on `/` and `&`) and the
//! nickname tokens reachable from them. How much rightness weight each
//! token carries is the scoring layer's concern; the sets themselves are
//! built and specified here.

use vstd::prelude::*;
use crate::error::MatchError;
use crate::seps::SepKind;
use crate::split::{split_by, split_fragments};
use crate::token::{Token, canon_of, valid_canon};
use crate::tokenize::{has_view, lemma_has_view_step};
use crate::nickname::{NicknameIndex, nick_has, tokens_wf};

verus! {

/// The canonical texts of the non-empty fragments of a segment: its main
/// alternative tokens.
pub open spec fn main_of(seg: Seq<char>) -> Set<Seq<char>> {
    Set::new(
        |t: Seq<char>|
            exists|j: int|
                0 <= j < split_by(seg, SepKind::SlashAmp).len() && (#[trigger] split_by(
                    seg,
                    SepKind::SlashAmp,
                )[j]).len() > 0 && canon_of(split_by(seg, SepKind::SlashAmp)[j]) == t,
    )
}

/// The nickname tokens of a segment: aliases of some main token, that are
/// not themselves main tokens.
pub open spec fn nicks_of(seg: Seq<char>, m: Map<Seq<char>, Seq<Token>>) -> Set<Seq<char>> {
    Set::new(
        |t: Seq<char>|
            !main_of(seg).contains(t) && exists|a: Seq<char>|
                main_of(seg).contains(a) && nick_has(m, a, t),
    )
}

/// A segment is acceptable when each of its non-empty fragments
/// canonicalizes to a valid token.
pub open spec fn seg_ok(seg: Seq<char>) -> bool {
    forall|j: int|
        0 <= j < split_by(seg, SepKind::SlashAmp).len() && (#[trigger] split_by(
            seg,
            SepKind::SlashAmp,
        )[j]).len() > 0 ==> valid_canon(canon_of(split_by(seg, SepKind::SlashAmp)[j]))
}

/// The error a bad segment produces: the canonical form of some non-empty
/// invalid fragment.
pub open spec fn seg_err(seg: Seq<char>, e: MatchError) -> bool {
    e matches MatchError::InvalidToken(c) && exists|j: int|
        0 <= j < split_by(seg, SepKind::SlashAmp).len() && (#[trigger] split_by(
            seg,
            SepKind::SlashAmp,
        )[j]).len() > 0 && !valid_canon(canon_of(split_by(seg, SepKind::SlashAmp)[j])) && c@
        == canon_of(split_by(seg, SepKind::SlashAmp)[j])
}

/// One name or city segment as a weighted-set skeleton: the main
/// alternative tokens and the nickname tokens, disjoint from each other.
#[derive(Debug)]
pub struct Dist {
    pub main: Vec<Token>,
    pub nicknames: Vec<Token>,
}

impl Dist {
    pub open spec fn main_set(&self) -> Set<Seq<char>> {
        Set::new(|x: Seq<char>| has_view(self.main@, x))
    }

    pub open spec fn nick_set(&self) -> Set<Seq<char>> {
        Set::new(|x: Seq<char>| has_view(self.nicknames@, x))
    }

    /// Every token the distribution mentions.
    pub open spec fn token_set(&self) -> Set<Seq<char>> {
        self.main_set().union(self.nick_set())
    }

    pub open spec fn wf(&self) -> bool {
        &&& tokens_wf(self.main@)
        &&& tokens_wf(self.nicknames@)
        &&& forall|x: Seq<char>| !(self.main_set().contains(x) && self.nick_set().contains(x))
    }
}

/// `d` is the distribution skeleton of segment `seg` under nickname
/// table `m`.
pub open spec fn dist_matches(d: Dist, seg: Seq<char>, m: Map<Seq<char>, Seq<Token>>) -> bool {
    &&& d.wf()
    &&& d.main_set() == main_of(seg)
    &&& d.nick_set() == nicks_of(seg, m)
}

/// The main tokens contributed by the first `j` fragments.
spec fn main_of_pre(seg: Seq<char>, j: int) -> Set<Seq<char>> {
    Set::new(
        |t: Seq<char>|
            exists|q: int|
                0 <= q < j && q < split_by(seg, SepKind::SlashAmp).len() && (#[trigger] split_by(
                    seg,
                    SepKind::SlashAmp,
                )[q]).len() > 0 && canon_of(split_by(seg, SepKind::SlashAmp)[q]) == t,
    )
}

/// Aliases of one of the first `p` main tokens.
spec fn alias_of_pre(m: Map<Seq<char>, Seq<Token>>, mains: Seq<Token>, p: int, x: Seq<char>) -> bool {
    exists|ai: int| 0 <= ai < p && nick_has(m, (#[trigger] mains[ai])@, x)
}

/// The nickname vector built so far records exactly the aliases of the
/// first `p` main tokens plus those in `extra`, always excluding main
/// tokens themselves.
spec fn nicks_partial(
    nick: Seq<Token>,
    m: Map<Seq<char>, Seq<Token>>,
    mains: Seq<Token>,
    p: int,
    extra: Seq<Token>,
) -> bool {
    forall|x: Seq<char>|
        has_view(nick, x) <==> (!has_view(mains, x) && (alias_of_pre(m, mains, p, x) || has_view(
            extra,
            x,
        )))
}

fn vec_has_token(v: &Vec<Token>, t: &Token) -> (r: bool)
    ensures
        r == has_view(v@, t@),
{
    let n = v.len();
    let mut i: usize = 0;
    while i < n
        invariant
            n == v@.len(),
            i <= n,
            forall|j: int| 0 <= j < i ==> v@[j]@ != t@,
        decreases n - i,
    {
        if v[i].eq_token(t) {
            return true;
        }
        i = i + 1;
    }
    proof {
        if has_view(v@, t@) {
            let q = choose|q: int| 0 <= q < v@.len() && v@[q]@ == t@;
            assert(false);
        }
    }
    false
}

/// Builds the distribution skeleton of one segment: the `/`- or
/// `&`-separated alternatives become the main tokens, and aliases of main
/// tokens that are not main tokens themselves become the nickname tokens.
pub fn split_token(name_or_city: &str, token_to_nickname_set: &NicknameIndex) -> (r: Result<
    Dist,
    MatchError,
>)
    requires
        token_to_nickname_set.wf(),
    ensures
        r is Ok <==> seg_ok(name_or_city@),
        r matches Ok(d) ==> dist_matches(d, name_or_city@, token_to_nickname_set@),
        r matches Err(e) ==> seg_err(name_or_city@, e),
{
    let ghost m = token_to_nickname_set@;
    let frags = split_fragments(name_or_city, SepKind::SlashAmp);
    let nf = frags.len();
    let mut main: Vec<Token> = Vec::new();
    let mut j: usize = 0;
    proof {
        assert forall|x: Seq<char>| has_view(main@, x) <==> main_of_pre(name_or_city@, 0).contains(
            x,
        ) by {
            if has_view(main@, x) {
                let q = choose|q: int| 0 <= q < main@.len() && main@[q]@ == x;
            }
        }
    }
    while j < nf
        invariant
            frags.deep_view() == split_by(name_or_city@, SepKind::SlashAmp),
            nf == frags@.len(),
            j <= nf,
            tokens_wf(main@),
            forall|x: Seq<char>|
                has_view(main@, x) <==> main_of_pre(name_or_city@, j as int).contains(x),
        decreases nf - j,
    {
        let ghost fv = split_by(name_or_city@, SepKind::SlashAmp)[j as int];
        proof {
            assert(frags.deep_view()[j as int] == frags@[j as int]@);
        }
        if !frags[j].as_str().is_empty() {
            match Token::new_or_error(frags[j].as_str()) {
                Ok(t) => {
                    let ghost tv = t@;
                    let ghost old_main = main@;
                    let dup = vec_has_token(&main, &t);
                    if !dup {
                        main.push(t);
                        proof {
                            assert(main@ =~= old_main.push(t));
                            assert forall|i1: int, i2: int|
                                0 <= i1 < i2 < main@.len() implies main@[i1]@ != main@[i2]@ by {
                                if i2 < old_main.len() {
                                    assert(old_main[i1]@ != old_main[i2]@);
                                } else {
                                    if main@[i1]@ == tv {
                                        assert(old_main[i1]@ == tv);
                                        assert(has_view(old_main, tv));
                                    }
                                }
                            }
                        }
                    }
                    proof {
                        assert forall|x: Seq<char>|
                            has_view(main@, x) <==> (has_view(old_main, x) || x == tv) by {
                            if !dup {
                                if has_view(main@, x) {
                                    let w = choose|w: int|
                                        0 <= w < main@.len() && main@[w]@ == x;
                                    if w < old_main.len() {
                                        assert(old_main[w]@ == x);
                                    }
                                }
                                if has_view(old_main, x) {
                                    let w = choose|w: int|
                                        0 <= w < old_main.len() && old_main[w]@ == x;
                                    assert(main@[w]@ == x);
                                }
                                if x == tv {
                                    assert(main@[old_main.len() as int]@ == tv);
                                }
                            } else {
                                if x == tv {
                                    assert(has_view(old_main, tv));
                                }
                            }
                        }
                        assert forall|x: Seq<char>|
                            has_view(main@, x) <==> main_of_pre(name_or_city@, j + 1).contains(
                            x,
                        ) by {
                            if has_view(main@, x) {
                                if x != tv {
                                    assert(has_view(old_main, x));
                                    assert(main_of_pre(name_or_city@, j as int).contains(x));
                                    let q = choose|q: int|
                                        0 <= q < j && q < split_by(
                                            name_or_city@,
                                            SepKind::SlashAmp,
                                        ).len() && (#[trigger] split_by(
                                            name_or_city@,
                                            SepKind::SlashAmp,
                                        )[q]).len() > 0 && canon_of(
                                            split_by(name_or_city@, SepKind::SlashAmp)[q],
                                        ) == x;
                                    assert(main_of_pre(name_or_city@, j + 1).contains(x));
                                } else {
                                    assert(fv.len() > 0 && canon_of(fv) == x);
                                    assert(main_of_pre(name_or_city@, j + 1).contains(x));
                                }
                            }
                            if main_of_pre(name_or_city@, j + 1).contains(x) {
                                let q = choose|q: int|
                                    0 <= q < j + 1 && q < split_by(
                                        name_or_city@,
                                        SepKind::SlashAmp,
                                    ).len() && (#[trigger] split_by(
                                        name_or_city@,
                                        SepKind::SlashAmp,
                                    )[q]).len() > 0 && canon_of(
                                        split_by(name_or_city@, SepKind::SlashAmp)[q],
                                    ) == x;
                                if q < j {
                                    assert(main_of_pre(name_or_city@, j as int).contains(x));
                                    assert(has_view(old_main, x));
                                    assert(has_view(main@, x));
                                } else {
                                    assert(x == tv);
                                    assert(has_view(main@, x));
                                }
                            }
                        }
                    }
                },
                Err(e) => {
                    proof {
                        assert(fv.len() > 0);
                        assert(!valid_canon(canon_of(fv)));
                        assert(seg_err(name_or_city@, e));
                    }
                    return Err(e);
                },
            }
        } else {
            proof {
                assert(fv.len() == 0);
                assert forall|x: Seq<char>|
                    has_view(main@, x) <==> main_of_pre(name_or_city@, j + 1).contains(x) by {
                    if main_of_pre(name_or_city@, j + 1).contains(x) {
                        let q = choose|q: int|
                            0 <= q < j + 1 && q < split_by(name_or_city@, SepKind::SlashAmp).len()
                                && (#[trigger] split_by(name_or_city@, SepKind::SlashAmp)[q]).len()
                                > 0 && canon_of(split_by(name_or_city@, SepKind::SlashAmp)[q]) == x;
                        assert(q != j);
                        assert(main_of_pre(name_or_city@, j as int).contains(x));
                    }
                    if has_view(main@, x) {
                        assert(main_of_pre(name_or_city@, j as int).contains(x));
                        let q = choose|q: int|
                            0 <= q < j && q < split_by(name_or_city@, SepKind::SlashAmp).len() && (
                            #[trigger] split_by(name_or_city@, SepKind::SlashAmp)[q]).len() > 0
                                && canon_of(split_by(name_or_city@, SepKind::SlashAmp)[q]) == x;
                    }
                }
            }
        }
        j = j + 1;
    }
    proof {
        // all fragments seen: every non-empty fragment parsed, so the
        // segment is acceptable and the main set is complete
        assert forall|q: int|
            0 <= q < split_by(name_or_city@, SepKind::SlashAmp).len() && (#[trigger] split_by(
                name_or_city@,
                SepKind::SlashAmp,
            )[q]).len() > 0 implies valid_canon(
            canon_of(split_by(name_or_city@, SepKind::SlashAmp)[q]),
        ) by {
            assert(main_of_pre(name_or_city@, nf as int).contains(
                canon_of(split_by(name_or_city@, SepKind::SlashAmp)[q]),
            ));
            assert(has_view(main@, canon_of(split_by(name_or_city@, SepKind::SlashAmp)[q])));
            let w = choose|w: int|
                0 <= w < main@.len() && main@[w]@ == canon_of(
                    split_by(name_or_city@, SepKind::SlashAmp)[q],
                );
            assert(main@[w].wf());
        }
        assert(main_of(name_or_city@) =~= main_of_pre(name_or_city@, nf as int));
    }
    // gather nicknames of the main tokens
    let np = main.len();
    let mut nicknames: Vec<Token> = Vec::new();
    let mut p: usize = 0;
    proof {
        assert(nicks_partial(nicknames@, m, main@, 0, Seq::<Token>::empty())) by {
            assert forall|x: Seq<char>|
                has_view(nicknames@, x) <==> (!has_view(main@, x) && (alias_of_pre(m, main@, 0, x)
                    || has_view(Seq::<Token>::empty(), x))) by {
                if has_view(nicknames@, x) {
                    let q = choose|q: int| 0 <= q < nicknames@.len() && nicknames@[q]@ == x;
                }
                if alias_of_pre(m, main@, 0, x) {
                    let ai = choose|ai: int| 0 <= ai < 0 && nick_has(m, (#[trigger] main@[ai])@, x);
                }
                if has_view(Seq::<Token>::empty(), x) {
                    let q = choose|q: int| 0 <= q < 0 && Seq::<Token>::empty()[q]@ == x;
                }
            }
        }
    }
    while p < np
        invariant
            token_to_nickname_set.wf(),
            m == token_to_nickname_set@,
            np == main@.len(),
            p <= np,
            tokens_wf(main@),
            tokens_wf(nicknames@),
            nicks_partial(nicknames@, m, main@, p as int, Seq::<Token>::empty()),
        decreases np - p,
    {
        let ghost mv = main@[p as int]@;
        match token_to_nickname_set.nicknames_of(&main[p]) {
            Some(aliases) => {
                let ghost avec = m[mv];
                let na = aliases.len();
                let mut q: usize = 0;
                proof {
                    assert(avec.subrange(0, 0) =~= Seq::<Token>::empty());
                }
                while q < na
                    invariant
                        token_to_nickname_set.wf(),
                        m == token_to_nickname_set@,
                        np == main@.len(),
                        p < np,
                        mv == main@[p as int]@,
                        m.contains_key(mv),
                        avec == m[mv],
                        aliases@ == avec,
                        na == avec.len(),
                        q <= na,
                        tokens_wf(main@),
                        tokens_wf(nicknames@),
                        nicks_partial(nicknames@, m, main@, p as int, avec.subrange(0, q as int)),
                    decreases na - q,
                {
                    let a = &aliases[q];
                    let ghost av = a@;
                    let in_main = vec_has_token(&main, a);
                    let in_nick = vec_has_token(&nicknames, a);
                    let ghost old_nick = nicknames@;
                    if !in_main && !in_nick {
                        nicknames.push(a.duplicate());
                        proof {
                            assert(nicknames@ =~= old_nick.push(nicknames@[old_nick.len() as int]));
                            assert(nicknames@[old_nick.len() as int]@ == av);
                            assert forall|i1: int, i2: int|
                                0 <= i1 < i2 < nicknames@.len() implies nicknames@[i1]@
                                != nicknames@[i2]@ by {
                                if i2 < old_nick.len() {
                                    assert(old_nick[i1]@ != old_nick[i2]@);
                                } else {
                                    if nicknames@[i1]@ == av {
                                        assert(has_view(old_nick, av));
                                    }
                                }
                            }
                            assert forall|i1: int|
                                0 <= i1 < nicknames@.len() implies nicknames@[i1].wf() by {
                                if i1 < old_nick.len() {
                                    assert(old_nick[i1].wf());
                                } else {
                                    assert(token_to_nickname_set.wf());
                                    assert(a.wf()) by {
                                        let ghost es = token_to_nickname_set.table.entries@;
                                        crate::tokenmap::lemma_assoc_contains(es, mv);
                                        let ei = choose|ei: int|
                                            0 <= ei < es.len() && es[ei].0@ == mv;
                                        crate::tokenmap::lemma_assoc_index(es, ei);
                                        assert(es[ei].1@ == avec);
                                        assert(tokens_wf(es[ei].1@));
                                        assert(avec[q as int].wf());
                                    }
                                }
                            }
                        }
                    }
                    proof {
                        lemma_has_view_step(avec, q as int, av);
                        assert(nicks_partial(nicknames@, m, main@, p as int, avec.subrange(0, q + 1)))
                            by {
                            assert forall|x: Seq<char>|
                                has_view(nicknames@, x) <==> (!has_view(main@, x) && (alias_of_pre(
                                    m,
                                    main@,
                                    p as int,
                                    x,
                                ) || has_view(avec.subrange(0, q + 1), x))) by {
                                lemma_has_view_step(avec, q as int, x);
                                if x == av {
                                } else {
                                    assert(has_view(nicknames@, x) == has_view(old_nick, x)) by {
                                        if has_view(nicknames@, x) {
                                            let w = choose|w: int|
                                                0 <= w < nicknames@.len() && nicknames@[w]@ == x;
                                            if w < old_nick.len() {
                                                assert(old_nick[w]@ == x);
                                            }
                                        }
                                        if has_view(old_nick, x) {
                                            let w = choose|w: int|
                                                0 <= w < old_nick.len() && old_nick[w]@ == x;
                                            assert(nicknames@[w]@ == x);
                                        }
                                    }
                                }
                            }
                        }
                    }
                    q = q + 1;
                }
                proof {
                    assert(avec.subrange(0, na as int) =~= avec);
                    assert(nicks_partial(nicknames@, m, main@, p + 1, Seq::<Token>::empty())) by {
                        assert forall|x: Seq<char>|
                            has_view(nicknames@, x) <==> (!has_view(main@, x) && (alias_of_pre(
                                m,
                                main@,
                                p + 1,
                                x,
                            ) || has_view(Seq::<Token>::empty(), x))) by {
                            if has_view(Seq::<Token>::empty(), x) {
                                let w = choose|w: int| 0 <= w < 0 && Seq::<Token>::empty()[w]@ == x;
                            }
                            if alias_of_pre(m, main@, p + 1, x) {
                                let ai = choose|ai: int|
                                    0 <= ai < p + 1 && nick_has(m, (#[trigger] main@[ai])@, x);
                                if ai < p {
                                    assert(alias_of_pre(m, main@, p as int, x));
                                } else {
                                    assert(has_view(avec, x));
                                }
                            }
                            if alias_of_pre(m, main@, p as int, x) {
                                let ai = choose|ai: int|
                                    0 <= ai < p && nick_has(m, (#[trigger] main@[ai])@, x);
                                assert(alias_of_pre(m, main@, p + 1, x));
                            }
                            if has_view(avec, x) {
                                assert(nick_has(m, main@[p as int]@, x));
                                assert(alias_of_pre(m, main@, p + 1, x));
                            }
                        }
                    }
                }
            },
            None => {
                proof {
                    assert(nicks_partial(nicknames@, m, main@, p + 1, Seq::<Token>::empty())) by {
                        assert forall|x: Seq<char>|
                            has_view(nicknames@, x) <==> (!has_view(main@, x) && (alias_of_pre(
                                m,
                                main@,
                                p + 1,
                                x,
                            ) || has_view(Seq::<Token>::empty(), x))) by {
                            if alias_of_pre(m, main@, p + 1, x) {
                                let ai = choose|ai: int|
                                    0 <= ai < p + 1 && nick_has(m, (#[trigger] main@[ai])@, x);
                                if ai < p {
                                    assert(alias_of_pre(m, main@, p as int, x));
                                } else {
                                    assert(!m.contains_key(mv));
                                    assert(false);
                                }
                            }
                            if alias_of_pre(m, main@, p as int, x) {
                                let ai = choose|ai: int|
                                    0 <= ai < p && nick_has(m, (#[trigger] main@[ai])@, x);
                                assert(alias_of_pre(m, main@, p + 1, x));
                            }
                        }
                    }
                }
            },
        }
        p = p + 1;
    }
    let d = Dist { main, nicknames };
    proof {
        assert(d.main_set() =~= main_of(name_or_city@));
        assert(d.nick_set() =~= nicks_of(name_or_city@, m)) by {
            assert forall|x: Seq<char>|
                d.nick_set().contains(x) <==> nicks_of(name_or_city@, m).contains(x) by {
                assert(has_view(d.nicknames@, x) <==> (!has_view(d.main@, x) && (alias_of_pre(
                    m,
                    d.main@,
                    np as int,
                    x,
                ) || has_view(Seq::<Token>::empty(), x))));
                if has_view(Seq::<Token>::empty(), x) {
                    let w = choose|w: int| 0 <= w < 0 && Seq::<Token>::empty()[w]@ == x;
                }
                if alias_of_pre(m, d.main@, np as int, x) {
                    let ai = choose|ai: int|
                        0 <= ai < np && nick_has(m, (#[trigger] d.main@[ai])@, x);
                    assert(d.main_set().contains(d.main@[ai]@));
                }
                if nicks_of(name_or_city@, m).contains(x) {
                    let a = choose|a: Seq<char>|
                        main_of(name_or_city@).contains(a) && nick_has(m, a, x);
                    assert(has_view(d.main@, a));
                    let ai = choose|ai: int| 0 <= ai < d.main@.len() && d.main@[ai]@ == a;
                    assert(nick_has(m, d.main@[ai]@, x));
                }
            }
        }
        assert(d.wf());
    }
    Ok(d)
}

/// The whitespace- or dash-separated segments of a name or city phrase.
pub open spec fn phrase_segs(phrase: Seq<char>) -> Seq<Seq<char>> {
    split_by(phrase, SepKind::WsDash)
}

pub open spec fn phrase_ok(phrase: Seq<char>) -> bool {
    forall|si: int|
        0 <= si < phrase_segs(phrase).len() ==> seg_ok(#[trigger] phrase_segs(phrase)[si])
}

/// `ds` holds one matching distribution per segment of the phrase.
pub open spec fn dists_match(ds: Seq<Dist>, phrase: Seq<char>, m: Map<Seq<char>, Seq<Token>>) -> bool {
    &&& ds.len() == phrase_segs(phrase).len()
    &&& forall|si: int|
        0 <= si < ds.len() ==> dist_matches(#[trigger] ds[si], phrase_segs(phrase)[si], m)
}

/// Segment `si` is the first bad segment and produced the error.
pub open spec fn phrase_err_at(phrase: Seq<char>, si: int, e: MatchError) -> bool {
    &&& 0 <= si < phrase_segs(phrase).len()
    &&& !seg_ok(phrase_segs(phrase)[si])
    &&& forall|p: int| 0 <= p < si ==> seg_ok(#[trigger] phrase_segs(phrase)[p])
    &&& seg_err(phrase_segs(phrase)[si], e)
}

/// Builds one distribution per segment of a name or city phrase; a
/// malformed segment aborts the whole roster pass.
pub fn extract_dist_list(name_or_city_phrase: &str, token_to_nickname_set: &NicknameIndex) -> (r:
    Result<Vec<Dist>, MatchError>)
    requires
        token_to_nickname_set.wf(),
    ensures
        r is Ok <==> phrase_ok(name_or_city_phrase@),
        r matches Ok(ds) ==> dists_match(ds@, name_or_city_phrase@, token_to_nickname_set@),
        r matches Err(e) ==> exists|si: int| phrase_err_at(name_or_city_phrase@, si, e),
{
    let segs = split_fragments(name_or_city_phrase, SepKind::WsDash);
    let ns = segs.len();
    let mut ds: Vec<Dist> = Vec::new();
    let mut si: usize = 0;
    while si < ns
        invariant
            token_to_nickname_set.wf(),
            segs.deep_view() == phrase_segs(name_or_city_phrase@),
            ns == segs@.len(),
            si <= ns,
            ds@.len() == si,
            forall|p: int| 0 <= p < si ==> seg_ok(#[trigger] phrase_segs(name_or_city_phrase@)[p]),
            forall|p: int|
                0 <= p < si ==> dist_matches(
                    #[trigger] ds@[p],
                    phrase_segs(name_or_city_phrase@)[p],
                    token_to_nickname_set@,
                ),
        decreases ns - si,
    {
        proof {
            assert(segs.deep_view()[si as int] == segs@[si as int]@);
        }
        match split_token(segs[si].as_str(), token_to_nickname_set) {
            Ok(d) => {
                ds.push(d);
            },
            Err(e) => {
                proof {
                    assert(phrase_err_at(name_or_city_phrase@, si as int, e));
                }
                return Err(e);
            },
        }
        si = si + 1;
    }
    Ok(ds)
}

} // verus!
