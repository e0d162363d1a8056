//! The nickname index: a symmetric alias relation over tokens, built from
//! a table of lines `Left1[/Left2...]<sep>Right1[/Right2...]`. Every token
//! of the left side is linked with every token of the right side, in both
//! directions.

use vstd::prelude::*;
use crate::error::MatchError;
use crate::seps::SepKind;
use crate::split::{split_by, split_fragments};
use crate::token::{Token, canon_of, valid_canon};
use crate::tokenize::{has_view, lemma_has_view_step};
use crate::tokenmap::{TokenMap, lemma_assoc_contains, lemma_assoc_index, lemma_assoc_push,
    lemma_assoc_update};

verus! {

/// Whether `b` is recorded as an alias of `a` in the table.
pub open spec fn nick_has(m: Map<Seq<char>, Seq<Token>>, a: Seq<char>, b: Seq<char>) -> bool {
    m.contains_key(a) && has_view(m[a], b)
}

/// Whether some fragment of a table side has canonical text `t`.
pub open spec fn side_has(side: Seq<char>, t: Seq<char>) -> bool {
    exists|j: int|
        0 <= j < split_by(side, SepKind::SlashAmp).len() && canon_of(
            split_by(side, SepKind::SlashAmp)[j],
        ) == t
}

/// A nickname line is well formed when it has exactly two sides and every
/// fragment of both sides canonicalizes to a valid token.
pub open spec fn nick_line_wf(line: Seq<char>) -> bool {
    &&& split_by(line, SepKind::CommaTab).len() == 2
    &&& forall|s: int, j: int|
        0 <= s < 2 && 0 <= j < split_by(
            split_by(line, SepKind::CommaTab)[s],
            SepKind::SlashAmp,
        ).len() ==> valid_canon(
            canon_of(split_by(split_by(line, SepKind::CommaTab)[s], SepKind::SlashAmp)[j]),
        )
}

/// Whether one table line links `a` and `b` (in either direction).
pub open spec fn line_links(line: Seq<char>, a: Seq<char>, b: Seq<char>) -> bool {
    let sides = split_by(line, SepKind::CommaTab);
    sides.len() == 2 && ((side_has(sides[0], a) && side_has(sides[1], b)) || (side_has(
        sides[0],
        b,
    ) && side_has(sides[1], a)))
}

/// Whether some table line links `a` and `b`.
pub open spec fn lines_link(lines: Seq<Seq<char>>, a: Seq<char>, b: Seq<char>) -> bool {
    exists|i: int| 0 <= i < lines.len() && line_links(lines[i], a, b)
}

pub open spec fn tokens_wf(ts: Seq<Token>) -> bool {
    &&& forall|i: int, j: int| 0 <= i < j < ts.len() ==> ts[i]@ != ts[j]@
    &&& forall|i: int| 0 <= i < ts.len() ==> ts[i].wf()
}

/// Token to the set of its aliases.
#[derive(Debug)]
pub struct NicknameIndex {
    pub table: TokenMap<Vec<Token>>,
}

impl View for NicknameIndex {
    type V = Map<Seq<char>, Seq<Token>>;

    open spec fn view(&self) -> Map<Seq<char>, Seq<Token>> {
        self.table.map()
    }
}

impl NicknameIndex {
    pub open spec fn wf(&self) -> bool {
        &&& self.table.wf_keys()
        &&& forall|p: int|
            0 <= p < self.table.entries@.len() ==> (#[trigger] self.table.entries@[p]).0.wf()
        &&& forall|p: int|
            0 <= p < self.table.entries@.len() ==> tokens_wf(
                (#[trigger] self.table.entries@[p]).1@,
            )
    }

    pub fn empty() -> (r: NicknameIndex)
        ensures
            r.wf(),
            r@ == Map::<Seq<char>, Seq<Token>>::empty(),
            forall|x: Seq<char>, y: Seq<char>| !nick_has(r@, x, y),
    {
        NicknameIndex { table: TokenMap::empty() }
    }

    /// The aliases of `t`, when the table has any.
    pub fn nicknames_of(&self, t: &Token) -> (r: Option<&Vec<Token>>)
        requires
            self.wf(),
        ensures
            match r {
                Some(v) => self@.contains_key(t@) && v@ == self@[t@],
                None => !self@.contains_key(t@),
            },
    {
        self.table.get(t)
    }
}

/// Every key of the table records at least one alias: no entry is ever
/// created empty.
pub open spec fn keys_live(m: Map<Seq<char>, Seq<Token>>) -> bool {
    forall|a: Seq<char>| #[trigger] m.contains_key(a) ==> exists|b: Seq<char>| nick_has(m, a, b)
}

/// `new` has exactly the keys of `old` plus `k`.
pub open spec fn adds_key(
    new: Map<Seq<char>, Seq<Token>>,
    old: Map<Seq<char>, Seq<Token>>,
    k: Seq<char>,
) -> bool {
    forall|a: Seq<char>| #[trigger] new.contains_key(a) <==> (old.contains_key(a) || a == k)
}

/// `new` has exactly the keys of `old` plus `x` and `y`.
pub open spec fn adds_keys2(
    new: Map<Seq<char>, Seq<Token>>,
    old: Map<Seq<char>, Seq<Token>>,
    x: Seq<char>,
    y: Seq<char>,
) -> bool {
    forall|a: Seq<char>| #[trigger] new.contains_key(a) <==> (old.contains_key(a) || a == x || a == y)
}

/// `new` records exactly the alias pairs of `old` plus the one pair
/// `(a, b)`.
pub open spec fn adds_edge(
    new: Map<Seq<char>, Seq<Token>>,
    old: Map<Seq<char>, Seq<Token>>,
    a: Seq<char>,
    b: Seq<char>,
) -> bool {
    forall|x: Seq<char>, y: Seq<char>|
        nick_has(new, x, y) <==> (nick_has(old, x, y) || (x == a && y == b))
}

/// `new` records exactly the alias pairs of `old` plus `(a, b)` in both
/// directions.
pub open spec fn adds_sym_edge(
    new: Map<Seq<char>, Seq<Token>>,
    old: Map<Seq<char>, Seq<Token>>,
    a: Seq<char>,
    b: Seq<char>,
) -> bool {
    forall|x: Seq<char>, y: Seq<char>|
        nick_has(new, x, y) <==> (nick_has(old, x, y) || (x == a && y == b) || (x == b && y
            == a))
}

proof fn lemma_has_view_push(ts: Seq<Token>, t: Token, x: Seq<char>)
    ensures
        has_view(ts.push(t), x) <==> (has_view(ts, x) || t@ == x),
{
    if has_view(ts.push(t), x) {
        let q = choose|q: int| 0 <= q < ts.push(t).len() && ts.push(t)[q]@ == x;
        if q < ts.len() {
            assert(ts[q]@ == x);
        }
    }
    if has_view(ts, x) {
        let q = choose|q: int| 0 <= q < ts.len() && ts[q]@ == x;
        assert(ts.push(t)[q]@ == x);
    }
    if t@ == x {
        assert(ts.push(t)[ts.len() as int]@ == x);
    }
}

/// Records `val` as an alias of `key` (one direction only).
fn insert_one(ix: &mut NicknameIndex, key: &Token, val: &Token)
    requires
        old(ix).wf(),
        key.wf(),
        val.wf(),
    ensures
        final(ix).wf(),
        adds_edge(final(ix)@, old(ix)@, key@, val@),
        adds_key(final(ix)@, old(ix)@, key@),
        nick_has(final(ix)@, key@, val@),
{
    let ghost old_entries = ix.table.entries@;
    let ghost old_map = ix.table.map();
    match ix.table.position(key) {
        Some(p) => {
            proof {
                lemma_assoc_index(old_entries, p as int);
            }
            // is the alias already recorded?
            let ghost old_vec = ix.table.entries@[p as int].1;
            let n = ix.table.entries[p].1.len();
            let mut q: usize = 0;
            let mut present = false;
            while q < n
                invariant
                    p < ix.table.entries@.len(),
                    ix.table.entries@ == old_entries,
                    n == ix.table.entries@[p as int].1@.len(),
                    q <= n,
                    present <==> has_view(ix.table.entries@[p as int].1@.subrange(0, q as int), val@),
                decreases n - q,
            {
                let ghost pre = ix.table.entries@[p as int].1@.subrange(0, q as int);
                proof {
                    assert(ix.table.entries@[p as int].1@.subrange(0, (q + 1) as int) =~= pre.push(
                        ix.table.entries@[p as int].1@[q as int],
                    ));
                    lemma_has_view_push(pre, ix.table.entries@[p as int].1@[q as int], val@);
                }
                if ix.table.entries[p].1[q].eq_token(val) {
                    present = true;
                }
                q = q + 1;
            }
            proof {
                assert(ix.table.entries@[p as int].1@.subrange(0, n as int) =~= ix.table.entries@[p
                    as int].1@);
            }
            if !present {
                let vd = val.duplicate();
                ix.table.entries[p].1.push(vd);
                proof {
                    let new_pair = (old_entries[p as int].0, ix.table.entries@[p as int].1);
                    assert(ix.table.entries@ =~= old_entries.update(p as int, new_pair));
                    assert(new_pair.1@ =~= old_vec@.push(vd));
                    lemma_assoc_update(old_entries, p as int, new_pair);
                    assert(ix.table.map() == old_map.insert(key@, old_vec@.push(vd)));
                    assert forall|i: int, j: int|
                        0 <= i < j < new_pair.1@.len() implies new_pair.1@[i]@ != new_pair.1@[j]@ by {
                        if j < old_vec@.len() {
                            assert(old_vec@[i]@ != old_vec@[j]@);
                        } else {
                            assert(!has_view(old_vec@, val@));
                            if new_pair.1@[i]@ == val@ {
                                assert(has_view(old_vec@, val@));
                            }
                        }
                    }
                    assert(adds_edge(ix.table.map(), old_map, key@, val@)) by {
                        assert forall|x: Seq<char>, y: Seq<char>|
                            nick_has(ix.table.map(), x, y) <==> (nick_has(old_map, x, y) || (x
                                == key@ && y == val@)) by {
                            lemma_has_view_push(old_vec@, vd, y);
                            if x == key@ {
                                assert(ix.table.map()[x] == old_vec@.push(vd));
                                assert(old_map.contains_key(x));
                            } else {
                                assert(ix.table.map().contains_key(x) == old_map.contains_key(x));
                                assert(ix.table.map().contains_key(x) ==> ix.table.map()[x]
                                    == old_map[x]);
                            }
                        }
                    }
                    assert(adds_key(ix.table.map(), old_map, key@)) by {
                        assert forall|a: Seq<char>|
                            ix.table.map().contains_key(a) <==> (old_map.contains_key(a) || a
                                == key@) by {
                            assert(ix.table.map() == old_map.insert(key@, old_vec@.push(vd)));
                        }
                    }
                    assert(nick_has(ix.table.map(), key@, val@)) by {
                        lemma_has_view_push(old_vec@, vd, val@);
                        assert(ix.table.map()[key@] == old_vec@.push(vd));
                    }
                }
            } else {
                proof {
                    assert(has_view(old_vec@, val@));
                    assert(adds_edge(ix.table.map(), old_map, key@, val@)) by {
                        assert forall|x: Seq<char>, y: Seq<char>|
                            nick_has(ix.table.map(), x, y) <==> (nick_has(old_map, x, y) || (x
                                == key@ && y == val@)) by {
                            if x == key@ && y == val@ {
                                assert(nick_has(old_map, x, y));
                            }
                        }
                    }
                    assert(adds_key(ix.table.map(), old_map, key@)) by {
                        assert forall|a: Seq<char>|
                            ix.table.map().contains_key(a) <==> (old_map.contains_key(a) || a
                                == key@) by {
                            assert(ix.table.map() == old_map);
                            if a == key@ {
                                assert(old_map.contains_key(key@));
                            }
                        }
                    }
                    assert(nick_has(ix.table.map(), key@, val@)) by {
                        assert(ix.table.map()[key@] == old_vec@);
                    }
                }
            }
        },
        None => {
            proof {
                lemma_assoc_contains(old_entries, key@);
            }
            let kd = key.duplicate();
            let vd = val.duplicate();
            let vv: Vec<Token> = vec![vd];
            ix.table.entries.push((kd, vv));
            proof {
                let new_pair = (kd, vv);
                assert(ix.table.entries@ =~= old_entries.push(new_pair));
                lemma_assoc_push(old_entries, new_pair);
                assert(ix.table.map() == old_map.insert(key@, vv@));
                assert(vv@[0] == vd);
                assert(adds_edge(ix.table.map(), old_map, key@, val@)) by {
                    assert forall|x: Seq<char>, y: Seq<char>|
                        nick_has(ix.table.map(), x, y) <==> (nick_has(old_map, x, y) || (x == key@
                            && y == val@)) by {
                        if x == key@ {
                            assert(!old_map.contains_key(x));
                            assert(ix.table.map()[x] == vv@);
                            if has_view(vv@, y) {
                                let q = choose|q: int| 0 <= q < vv@.len() && vv@[q]@ == y;
                                assert(q == 0);
                                assert(y == val@);
                            }
                            if y == val@ {
                                assert(vv@[0]@ == y);
                            }
                        } else {
                            assert(ix.table.map().contains_key(x) == old_map.contains_key(x));
                            assert(ix.table.map().contains_key(x) ==> ix.table.map()[x]
                                == old_map[x]);
                        }
                    }
                }
                assert(adds_key(ix.table.map(), old_map, key@)) by {
                    assert forall|a: Seq<char>|
                        ix.table.map().contains_key(a) <==> (old_map.contains_key(a) || a
                            == key@) by {
                        assert(ix.table.map() == old_map.insert(key@, vv@));
                    }
                }
                assert(nick_has(ix.table.map(), key@, val@)) by {
                    assert(ix.table.map()[key@] == vv@);
                    assert(vv@[0]@ == val@);
                }
            }
        },
    }
}

/// Both ordered pairs made of one left-side and one right-side token.
pub open spec fn pair_link(ls: Seq<Token>, rs: Seq<Token>, x: Seq<char>, y: Seq<char>) -> bool {
    (has_view(ls, x) && has_view(rs, y)) || (has_view(ls, y) && has_view(rs, x))
}

/// The table records exactly the pairs that `lines` link.
pub open spec fn index_matches(m: Map<Seq<char>, Seq<Token>>, lines: Seq<Seq<char>>) -> bool {
    forall|a: Seq<char>, b: Seq<char>| nick_has(m, a, b) <==> lines_link(lines, a, b)
}

/// The table records the pairs of `lines` plus those of one partly
/// processed line: all pairs over `(ls, rs)`.
pub open spec fn index_matches_partial(
    m: Map<Seq<char>, Seq<Token>>,
    lines: Seq<Seq<char>>,
    ls: Seq<Token>,
    rs: Seq<Token>,
) -> bool {
    forall|a: Seq<char>, b: Seq<char>|
        nick_has(m, a, b) <==> (lines_link(lines, a, b) || pair_link(ls, rs, a, b))
}

/// As `index_matches_partial`, with one left token still being crossed
/// with a prefix of the right side.
pub open spec fn index_matches_partial2(
    m: Map<Seq<char>, Seq<Token>>,
    lines: Seq<Seq<char>>,
    ls: Seq<Token>,
    rs: Seq<Token>,
    l: Token,
    rs_pre: Seq<Token>,
) -> bool {
    forall|a: Seq<char>, b: Seq<char>|
        nick_has(m, a, b) <==> (lines_link(lines, a, b) || pair_link(ls, rs, a, b) || pair_link(
            seq![l],
            rs_pre,
            a,
            b,
        ))
}

proof fn lemma_has_view_single(l: Token, x: Seq<char>)
    ensures
        has_view(seq![l], x) <==> l@ == x,
{
    if has_view(seq![l], x) {
        let q = choose|q: int| 0 <= q < seq![l].len() && seq![l][q]@ == x;
        assert(q == 0);
    }
    if l@ == x {
        assert(seq![l][0]@ == x);
    }
}

/// When each token of `ts` carries the canonical text of the matching
/// fragment of `side`, membership in `ts` is membership in the side.
proof fn lemma_side_correspond(ts: Seq<Token>, side: Seq<char>)
    requires
        ts.len() == split_by(side, SepKind::SlashAmp).len(),
        forall|j: int|
            0 <= j < ts.len() ==> ts[j]@ == canon_of(split_by(side, SepKind::SlashAmp)[j]),
    ensures
        forall|x: Seq<char>| has_view(ts, x) <==> side_has(side, x),
{
    assert forall|x: Seq<char>| has_view(ts, x) <==> side_has(side, x) by {
        if has_view(ts, x) {
            let q = choose|q: int| 0 <= q < ts.len() && ts[q]@ == x;
            assert(canon_of(split_by(side, SepKind::SlashAmp)[q]) == x);
        }
        if side_has(side, x) {
            let j = choose|j: int|
                0 <= j < split_by(side, SepKind::SlashAmp).len() && canon_of(
                    split_by(side, SepKind::SlashAmp)[j],
                ) == x;
            assert(ts[j]@ == x);
        }
    }
}

proof fn lemma_lines_link_step(lines: Seq<Seq<char>>, i: int)
    requires
        0 <= i < lines.len(),
    ensures
        forall|a: Seq<char>, b: Seq<char>|
            lines_link(lines.subrange(0, i + 1), a, b) <==> (lines_link(
                lines.subrange(0, i),
                a,
                b,
            ) || line_links(lines[i], a, b)),
{
    let pre = lines.subrange(0, i);
    let pre1 = lines.subrange(0, i + 1);
    assert forall|a: Seq<char>, b: Seq<char>|
        lines_link(pre1, a, b) <==> (lines_link(pre, a, b) || line_links(lines[i], a, b)) by {
        if lines_link(pre1, a, b) {
            let q = choose|q: int| 0 <= q < pre1.len() && line_links(pre1[q], a, b);
            if q < i {
                assert(line_links(pre[q], a, b));
            } else {
                assert(line_links(lines[i], a, b));
            }
        }
        if lines_link(pre, a, b) {
            let q = choose|q: int| 0 <= q < pre.len() && line_links(pre[q], a, b);
            assert(line_links(pre1[q], a, b));
        }
        if line_links(lines[i], a, b) {
            assert(line_links(pre1[i], a, b));
        }
    }
}

/// Parses one side of a nickname line: every `/`- or `&`-separated
/// fragment must canonicalize to a valid token.
fn parse_side(side: &str) -> (r: Result<Vec<Token>, MatchError>)
    ensures
        r is Ok <==> (forall|j: int|
            0 <= j < split_by(side@, SepKind::SlashAmp).len() ==> valid_canon(
                canon_of(#[trigger] split_by(side@, SepKind::SlashAmp)[j]),
            )),
        r matches Ok(ts) ==> ts@.len() == split_by(side@, SepKind::SlashAmp).len() && (forall|
            j: int,
        |
            0 <= j < ts@.len() ==> (#[trigger] ts@[j])@ == canon_of(
                split_by(side@, SepKind::SlashAmp)[j],
            ) && ts@[j].wf()),
        r matches Err(e) ==> e matches MatchError::InvalidToken(c) && (exists|j: int|
            0 <= j < split_by(side@, SepKind::SlashAmp).len() && !valid_canon(
                canon_of(#[trigger] split_by(side@, SepKind::SlashAmp)[j]),
            ) && c@ == canon_of(split_by(side@, SepKind::SlashAmp)[j])),
{
    let frags = split_fragments(side, SepKind::SlashAmp);
    let nf = frags.len();
    let mut ts: Vec<Token> = Vec::new();
    let mut j: usize = 0;
    while j < nf
        invariant
            frags.deep_view() == split_by(side@, SepKind::SlashAmp),
            nf == frags@.len(),
            j <= nf,
            ts@.len() == j,
            forall|q: int|
                0 <= q < j ==> (#[trigger] ts@[q])@ == canon_of(
                    split_by(side@, SepKind::SlashAmp)[q],
                ) && ts@[q].wf(),
        decreases nf - j,
    {
        proof {
            assert(frags.deep_view()[j as int] == frags@[j as int]@);
        }
        match Token::new_or_error(frags[j].as_str()) {
            Ok(t) => {
                ts.push(t);
            },
            Err(e) => {
                proof {
                    assert(!valid_canon(canon_of(split_by(side@, SepKind::SlashAmp)[j as int])));
                }
                return Err(e);
            },
        }
        j = j + 1;
    }
    proof {
        assert forall|q: int|
            0 <= q < split_by(side@, SepKind::SlashAmp).len() implies valid_canon(
            canon_of(#[trigger] split_by(side@, SepKind::SlashAmp)[q]),
        ) by {
            assert(ts@[q]@ == canon_of(split_by(side@, SepKind::SlashAmp)[q]));
            assert(ts@[q].wf());
        }
    }
    Ok(ts)
}

/// Records `a` and `b` as aliases of each other.
fn add_edge(ix: &mut NicknameIndex, a: &Token, b: &Token)
    requires
        old(ix).wf(),
        a.wf(),
        b.wf(),
    ensures
        final(ix).wf(),
        adds_sym_edge(final(ix)@, old(ix)@, a@, b@),
        adds_keys2(final(ix)@, old(ix)@, a@, b@),
        nick_has(final(ix)@, a@, b@),
        nick_has(final(ix)@, b@, a@),
{
    let ghost m0 = ix.table.map();
    insert_one(ix, a, b);
    let ghost m1 = ix.table.map();
    insert_one(ix, b, a);
    let ghost m2 = ix.table.map();
    proof {
        assert(adds_sym_edge(m2, m0, a@, b@)) by {
            assert forall|x: Seq<char>, y: Seq<char>|
                nick_has(m2, x, y) <==> (nick_has(m0, x, y) || (x == a@ && y == b@) || (x == b@ && y
                    == a@)) by {
                assert(nick_has(m2, x, y) <==> (nick_has(m1, x, y) || (x == b@ && y == a@)));
                assert(nick_has(m1, x, y) <==> (nick_has(m0, x, y) || (x == a@ && y == b@)));
            }
        }
        assert(adds_keys2(m2, m0, a@, b@)) by {
            assert forall|k: Seq<char>|
                m2.contains_key(k) <==> (m0.contains_key(k) || k == a@ || k == b@) by {
                assert(m2.contains_key(k) <==> (m1.contains_key(k) || k == b@));
                assert(m1.contains_key(k) <==> (m0.contains_key(k) || k == a@));
            }
        }
        assert(nick_has(m2, a@, b@)) by {
            assert(nick_has(m1, a@, b@));
            assert(nick_has(m2, a@, b@) <==> (nick_has(m1, a@, b@) || (a@ == b@ && b@ == a@)));
        }
    }
}

/// What the table builder reports when line `i` is the first bad line.
pub open spec fn nick_err_at(lines: Seq<Seq<char>>, i: int, e: MatchError) -> bool {
    &&& 0 <= i < lines.len()
    &&& !nick_line_wf(lines[i])
    &&& forall|p: int| 0 <= p < i ==> nick_line_wf(#[trigger] lines[p])
    &&& match e {
        MatchError::MalformedNicknameLine(l) => l@ == lines[i] && split_by(
            lines[i],
            SepKind::CommaTab,
        ).len() != 2,
        MatchError::InvalidToken(c) => {
            &&& split_by(lines[i], SepKind::CommaTab).len() == 2
            &&& exists|s: int, j: int|
                0 <= s < 2 && 0 <= j < split_by(
                    split_by(lines[i], SepKind::CommaTab)[s],
                    SepKind::SlashAmp,
                ).len() && !valid_canon(
                    canon_of(
                        #[trigger] split_by(
                            split_by(lines[i], SepKind::CommaTab)[s],
                            SepKind::SlashAmp,
                        )[j],
                    ),
                ) && c@ == canon_of(
                    split_by(split_by(lines[i], SepKind::CommaTab)[s], SepKind::SlashAmp)[j],
                )
        },
        _ => false,
    }
}

/// Builds the symmetric nickname index from the table lines: each line
/// links every token of its left side with every token of its right side,
/// in both directions. The first malformed line aborts the build.
pub fn extract_name_to_nicknames_set(nickname_lines: &Vec<String>) -> (r: Result<
    NicknameIndex,
    MatchError,
>)
    ensures
        r is Ok <==> (forall|i: int|
            0 <= i < nickname_lines@.len() ==> nick_line_wf(#[trigger] nickname_lines.deep_view()[i])),
        r matches Ok(ix) ==> ix.wf() && index_matches(ix@, nickname_lines.deep_view())
            && keys_live(ix@),
        r matches Err(e) ==> exists|i: int| nick_err_at(nickname_lines.deep_view(), i, e),
{
    let ghost lv = nickname_lines.deep_view();
    let n = nickname_lines.len();
    let mut ix = NicknameIndex::empty();
    proof {
        assert(lv.subrange(0, 0) =~= Seq::<Seq<char>>::empty());
        assert(index_matches(ix@, lv.subrange(0, 0))) by {
            assert forall|a: Seq<char>, b: Seq<char>|
                nick_has(ix@, a, b) <==> lines_link(lv.subrange(0, 0), a, b) by {
                if lines_link(lv.subrange(0, 0), a, b) {
                    let q = choose|q: int|
                        0 <= q < lv.subrange(0, 0).len() && line_links(lv.subrange(0, 0)[q], a, b);
                }
            }
        }
    }
    let mut i: usize = 0;
    while i < n
        invariant
            lv == nickname_lines.deep_view(),
            n == lv.len(),
            n == nickname_lines@.len(),
            i <= n,
            ix.wf(),
            keys_live(ix@),
            forall|p: int| 0 <= p < i ==> nick_line_wf(#[trigger] lv[p]),
            index_matches(ix@, lv.subrange(0, i as int)),
        decreases n - i,
    {
        proof {
            assert(lv[i as int] == nickname_lines@[i as int]@);
        }
        let sides = split_fragments(nickname_lines[i].as_str(), SepKind::CommaTab);
        proof {
            assert(sides.deep_view() == split_by(lv[i as int], SepKind::CommaTab));
        }
        if sides.len() != 2 {
            let e = MatchError::MalformedNicknameLine(nickname_lines[i].clone());
            proof {
                assert(nick_err_at(lv, i as int, e));
            }
            return Err(e);
        }
        proof {
            assert(sides.deep_view()[0] == sides@[0]@);
            assert(sides.deep_view()[1] == sides@[1]@);
        }
        let lefts = match parse_side(sides[0].as_str()) {
            Ok(v) => v,
            Err(e) => {
                proof {
                    assert(!nick_line_wf(lv[i as int])) by {
                        let j = choose|j: int|
                            0 <= j < split_by(sides@[0]@, SepKind::SlashAmp).len() && !valid_canon(
                                canon_of(#[trigger] split_by(sides@[0]@, SepKind::SlashAmp)[j]),
                            ) && (e matches MatchError::InvalidToken(c) && c@ == canon_of(
                                split_by(sides@[0]@, SepKind::SlashAmp)[j],
                            ));
                    }
                    assert(nick_err_at(lv, i as int, e)) by {
                        let j = choose|j: int|
                            0 <= j < split_by(sides@[0]@, SepKind::SlashAmp).len() && !valid_canon(
                                canon_of(#[trigger] split_by(sides@[0]@, SepKind::SlashAmp)[j]),
                            ) && (e matches MatchError::InvalidToken(c) && c@ == canon_of(
                                split_by(sides@[0]@, SepKind::SlashAmp)[j],
                            ));
                        assert(0 <= 0 < 2 && 0 <= j < split_by(
                            split_by(lv[i as int], SepKind::CommaTab)[0],
                            SepKind::SlashAmp,
                        ).len());
                    }
                }
                return Err(e);
            },
        };
        let rights = match parse_side(sides[1].as_str()) {
            Ok(v) => v,
            Err(e) => {
                proof {
                    assert(!nick_line_wf(lv[i as int])) by {
                        let j = choose|j: int|
                            0 <= j < split_by(sides@[1]@, SepKind::SlashAmp).len() && !valid_canon(
                                canon_of(#[trigger] split_by(sides@[1]@, SepKind::SlashAmp)[j]),
                            ) && (e matches MatchError::InvalidToken(c) && c@ == canon_of(
                                split_by(sides@[1]@, SepKind::SlashAmp)[j],
                            ));
                    }
                    assert(nick_err_at(lv, i as int, e)) by {
                        let j = choose|j: int|
                            0 <= j < split_by(sides@[1]@, SepKind::SlashAmp).len() && !valid_canon(
                                canon_of(#[trigger] split_by(sides@[1]@, SepKind::SlashAmp)[j]),
                            ) && (e matches MatchError::InvalidToken(c) && c@ == canon_of(
                                split_by(sides@[1]@, SepKind::SlashAmp)[j],
                            ));
                        assert(0 <= 1 < 2 && 0 <= j < split_by(
                            split_by(lv[i as int], SepKind::CommaTab)[1],
                            SepKind::SlashAmp,
                        ).len());
                    }
                }
                return Err(e);
            },
        };
        proof {
            assert(nick_line_wf(lv[i as int])) by {
                assert forall|s: int, j: int|
                    0 <= s < 2 && 0 <= j < split_by(
                        split_by(lv[i as int], SepKind::CommaTab)[s],
                        SepKind::SlashAmp,
                    ).len() implies valid_canon(
                    canon_of(
                        split_by(split_by(lv[i as int], SepKind::CommaTab)[s], SepKind::SlashAmp)[j],
                    ),
                ) by {
                    if s == 0 {
                        assert(valid_canon(
                            canon_of(#[trigger] split_by(sides@[0]@, SepKind::SlashAmp)[j]),
                        ));
                    } else {
                        assert(valid_canon(
                            canon_of(#[trigger] split_by(sides@[1]@, SepKind::SlashAmp)[j]),
                        ));
                    }
                }
            }
            lemma_side_correspond(lefts@, sides@[0]@);
            lemma_side_correspond(rights@, sides@[1]@);
        }
        let np = lefts.len();
        let nq = rights.len();
        proof {
            assert(lefts@.subrange(0, 0) =~= Seq::<Token>::empty());
            assert(index_matches_partial(ix@, lv.subrange(0, i as int), lefts@.subrange(0, 0), rights@))
                by {
                assert forall|a: Seq<char>, b: Seq<char>|
                    nick_has(ix@, a, b) <==> (lines_link(lv.subrange(0, i as int), a, b)
                        || pair_link(Seq::<Token>::empty(), rights@, a, b)) by {
                    if pair_link(Seq::<Token>::empty(), rights@, a, b) {
                        if has_view(Seq::<Token>::empty(), a) {
                            let q = choose|q: int| 0 <= q < 0 && Seq::<Token>::empty()[q]@ == a;
                        }
                        if has_view(Seq::<Token>::empty(), b) {
                            let q = choose|q: int| 0 <= q < 0 && Seq::<Token>::empty()[q]@ == b;
                        }
                    }
                }
            }
        }
        let mut p: usize = 0;
        while p < np
            invariant
                np == lefts@.len(),
                nq == rights@.len(),
                p <= np,
                ix.wf(),
                keys_live(ix@),
                forall|q: int| 0 <= q < np ==> (#[trigger] lefts@[q]).wf(),
                forall|q: int| 0 <= q < nq ==> (#[trigger] rights@[q]).wf(),
                index_matches_partial(
                    ix@,
                    lv.subrange(0, i as int),
                    lefts@.subrange(0, p as int),
                    rights@,
                ),
            decreases np - p,
        {
            let ghost lpre = lefts@.subrange(0, p as int);
            let ghost lcur = lefts@[p as int];
            proof {
                assert(rights@.subrange(0, 0) =~= Seq::<Token>::empty());
                assert(index_matches_partial2(
                    ix@,
                    lv.subrange(0, i as int),
                    lpre,
                    rights@,
                    lcur,
                    rights@.subrange(0, 0),
                )) by {
                    assert forall|a: Seq<char>, b: Seq<char>|
                        nick_has(ix@, a, b) <==> (lines_link(lv.subrange(0, i as int), a, b)
                            || pair_link(lpre, rights@, a, b) || pair_link(
                            seq![lcur],
                            Seq::<Token>::empty(),
                            a,
                            b,
                        )) by {
                        if pair_link(seq![lcur], Seq::<Token>::empty(), a, b) {
                            if has_view(Seq::<Token>::empty(), a) {
                                let q = choose|q: int| 0 <= q < 0 && Seq::<Token>::empty()[q]@ == a;
                            }
                            if has_view(Seq::<Token>::empty(), b) {
                                let q = choose|q: int| 0 <= q < 0 && Seq::<Token>::empty()[q]@ == b;
                            }
                        }
                    }
                }
            }
            let mut q: usize = 0;
            while q < nq
                invariant
                    np == lefts@.len(),
                    nq == rights@.len(),
                    p < np,
                    q <= nq,
                    ix.wf(),
                    keys_live(ix@),
                    lpre == lefts@.subrange(0, p as int),
                    lcur == lefts@[p as int],
                    forall|q2: int| 0 <= q2 < np ==> (#[trigger] lefts@[q2]).wf(),
                    forall|q2: int| 0 <= q2 < nq ==> (#[trigger] rights@[q2]).wf(),
                    index_matches_partial2(
                        ix@,
                        lv.subrange(0, i as int),
                        lpre,
                        rights@,
                        lcur,
                        rights@.subrange(0, q as int),
                    ),
                decreases nq - q,
            {
                let ghost m0 = ix@;
                add_edge(&mut ix, &lefts[p], &rights[q]);
                proof {
                    assert(keys_live(ix@)) by {
                        assert forall|a2: Seq<char>| #[trigger] ix@.contains_key(a2) implies exists|
                            b2: Seq<char>,
                        | nick_has(ix@, a2, b2) by {
                            if a2 == lcur@ {
                                assert(nick_has(ix@, lcur@, rights@[q as int]@));
                            } else if a2 == rights@[q as int]@ {
                                assert(nick_has(ix@, rights@[q as int]@, lcur@));
                            } else {
                                assert(m0.contains_key(a2));
                                let b2 = choose|b2: Seq<char>| nick_has(m0, a2, b2);
                                assert(nick_has(ix@, a2, b2));
                            }
                        }
                    }
                    let rpre = rights@.subrange(0, q as int);
                    let rpre1 = rights@.subrange(0, q + 1);
                    lemma_has_view_step(rights@, q as int, rights@[q as int]@);
                    assert(index_matches_partial2(
                        ix@,
                        lv.subrange(0, i as int),
                        lpre,
                        rights@,
                        lcur,
                        rpre1,
                    )) by {
                        assert forall|a: Seq<char>, b: Seq<char>|
                            nick_has(ix@, a, b) <==> (lines_link(lv.subrange(0, i as int), a, b)
                                || pair_link(lpre, rights@, a, b) || pair_link(
                                seq![lcur],
                                rpre1,
                                a,
                                b,
                            )) by {
                            lemma_has_view_single(lcur, a);
                            lemma_has_view_single(lcur, b);
                            lemma_has_view_step(rights@, q as int, a);
                            lemma_has_view_step(rights@, q as int, b);
                            assert(nick_has(ix@, a, b) <==> (nick_has(m0, a, b) || (a == lcur@ && b
                                == rights@[q as int]@) || (a == rights@[q as int]@ && b == lcur@)));
                        }
                    }
                }
                q = q + 1;
            }
            proof {
                assert(rights@.subrange(0, nq as int) =~= rights@);
                assert(lefts@.subrange(0, p + 1) =~= lpre.push(lcur));
                assert(index_matches_partial(
                    ix@,
                    lv.subrange(0, i as int),
                    lefts@.subrange(0, p + 1),
                    rights@,
                )) by {
                    assert forall|a: Seq<char>, b: Seq<char>|
                        nick_has(ix@, a, b) <==> (lines_link(lv.subrange(0, i as int), a, b)
                            || pair_link(lefts@.subrange(0, p + 1), rights@, a, b)) by {
                        lemma_has_view_push(lpre, lcur, a);
                        lemma_has_view_push(lpre, lcur, b);
                        lemma_has_view_single(lcur, a);
                        lemma_has_view_single(lcur, b);
                    }
                }
            }
            p = p + 1;
        }
        proof {
            assert(lefts@.subrange(0, np as int) =~= lefts@);
            lemma_lines_link_step(lv, i as int);
            assert(index_matches(ix@, lv.subrange(0, i + 1))) by {
                assert forall|a: Seq<char>, b: Seq<char>|
                    nick_has(ix@, a, b) <==> lines_link(lv.subrange(0, i + 1), a, b) by {
                    assert(nick_has(ix@, a, b) <==> (lines_link(lv.subrange(0, i as int), a, b)
                        || pair_link(lefts@, rights@, a, b)));
                    assert(pair_link(lefts@, rights@, a, b) <==> line_links(lv[i as int], a, b)) by {
                        assert(has_view(lefts@, a) <==> side_has(sides@[0]@, a));
                        assert(has_view(lefts@, b) <==> side_has(sides@[0]@, b));
                        assert(has_view(rights@, a) <==> side_has(sides@[1]@, a));
                        assert(has_view(rights@, b) <==> side_has(sides@[1]@, b));
                        assert(split_by(lv[i as int], SepKind::CommaTab)[0] == sides@[0]@);
                        assert(split_by(lv[i as int], SepKind::CommaTab)[1] == sides@[1]@);
                    }
                }
            }
        }
        i = i + 1;
    }
    proof {
        assert(lv.subrange(0, n as int) =~= lv);
    }
    Ok(ix)
}

/// The nickname relation is symmetric: in an index built from any table,
/// `b` is an alias of `a` exactly when `a` is an alias of `b`.
pub proof fn lemma_nickname_symmetry(
    m: Map<Seq<char>, Seq<Token>>,
    lines: Seq<Seq<char>>,
    a: Seq<char>,
    b: Seq<char>,
)
    requires
        index_matches(m, lines),
    ensures
        nick_has(m, a, b) <==> nick_has(m, b, a),
{
    assert(lines_link(lines, a, b) <==> lines_link(lines, b, a)) by {
        if lines_link(lines, a, b) {
            let q = choose|q: int| 0 <= q < lines.len() && line_links(lines[q], a, b);
            assert(line_links(lines[q], b, a));
        }
        if lines_link(lines, b, a) {
            let q = choose|q: int| 0 <= q < lines.len() && line_links(lines[q], b, a);
            assert(line_links(lines[q], a, b));
        }
    }
}

} // verus!
