//! Splitting a line into fragments on a family of separator characters,
//! the way `str::split` does: `n` separators give `n + 1` fragments, empty
//! fragments included.

use vstd::prelude::*;
use vstd::string::{StrSliceExecFns, StringExecFns};
use crate::seps::{SepKind, sep_spec, is_sep};

verus! {

/// The fragments of `cur + s` when `cur` is the partial fragment read so
/// far and `s` is the text still to scan.
pub open spec fn split_rec(s: Seq<char>, k: SepKind, cur: Seq<char>) -> Seq<Seq<char>>
    decreases s.len(),
{
    if s.len() == 0 {
        seq![cur]
    } else if sep_spec(k, s[0]) {
        seq![cur] + split_rec(s.drop_first(), k, Seq::empty())
    } else {
        split_rec(s.drop_first(), k, cur.push(s[0]))
    }
}

/// The fragments of `s` between separators of kind `k`, in order.
pub open spec fn split_by(s: Seq<char>, k: SepKind) -> Seq<Seq<char>> {
    split_rec(s, k, Seq::empty())
}

/// Cuts `s` on the separators of kind `k`.
pub fn split_fragments(s: &str, k: SepKind) -> (r: Vec<String>)
    ensures
        r.deep_view() == split_by(s@, k),
        r.len() >= 1,
{
    let n = s.unicode_len();
    let mut r: Vec<String> = Vec::new();
    let mut start: usize = 0;
    let mut i: usize = 0;
    proof {
        assert(s@.subrange(0, n as int) =~= s@);
        assert(s@.subrange(0, 0) =~= Seq::<char>::empty());
        assert(r.deep_view() =~~= Seq::<Seq<char>>::empty());
        assert(r.deep_view() + split_rec(s@, k, Seq::empty()) =~~= split_rec(s@, k, Seq::empty()));
    }
    while i < n
        invariant
            n == s@.len(),
            start <= i <= n,
            split_by(s@, k) == r.deep_view() + split_rec(
                s@.subrange(i as int, n as int),
                k,
                s@.subrange(start as int, i as int),
            ),
        decreases n - i,
    {
        let ghost rem = s@.subrange(i as int, n as int);
        let ghost cur = s@.subrange(start as int, i as int);
        let c = s.get_char(i);
        proof {
            assert(rem[0] == s@[i as int]);
            assert(rem.drop_first() =~= s@.subrange((i + 1) as int, n as int));
        }
        if is_sep(k, c) {
            let frag = s.substring_char(start, i);
            let frag_string = String::from_str(frag);
            let ghost old_dv = r.deep_view();
            r.push(frag_string);
            proof {
                assert(r.deep_view() =~~= old_dv.push(cur));
                assert(seq![cur] + split_rec(rem.drop_first(), k, Seq::empty())
                    =~~= old_dv.push(cur).skip(old_dv.len() as int) + split_rec(
                    rem.drop_first(),
                    k,
                    Seq::empty(),
                ));
                assert(old_dv + (seq![cur] + split_rec(rem.drop_first(), k, Seq::empty()))
                    =~~= old_dv.push(cur) + split_rec(rem.drop_first(), k, Seq::empty()));
                assert(s@.subrange((i + 1) as int, (i + 1) as int) =~= Seq::<char>::empty());
            }
            start = i + 1;
        } else {
            proof {
                assert(cur.push(s@[i as int]) =~= s@.subrange(start as int, (i + 1) as int));
            }
        }
        i = i + 1;
    }
    proof {
        assert(s@.subrange(n as int, n as int) =~= Seq::<char>::empty());
    }
    let frag = s.substring_char(start, n);
    let frag_string = String::from_str(frag);
    let ghost old_dv = r.deep_view();
    let ghost cur = s@.subrange(start as int, n as int);
    r.push(frag_string);
    proof {
        assert(r.deep_view() =~~= old_dv.push(cur));
        assert(old_dv + seq![cur] =~~= old_dv.push(cur));
    }
    r
}

} // verus!
