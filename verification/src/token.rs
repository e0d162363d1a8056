//! Canonical tokens: every string entering the matcher (roster fields,
//! nickname-table entries, words of a result line) is uppercased, stripped
//! of `.` and `'`, and must then be non-empty and purely alphabetic.

use vstd::prelude::*;
use vstd::pervasive::unreached;
use vstd::string::StrSliceExecFns;
use crate::error::MatchError;

verus! {

/// What `str::to_uppercase` returns for a given character sequence; the
/// result is a function of the characters alone.
pub uninterp spec fn upper_of(s: Seq<char>) -> Seq<char>;

/// Relies on str::to_uppercase: the Unicode uppercase of a string depends
/// on its characters alone.
#[verifier::external_body]
fn to_upper(s: &str) -> (r: String)
    ensures
        r@ == upper_of(s@),
{
    s.to_uppercase()
}

/// Relies on String's FromIterator<char> implementation: collecting
/// characters yields the string of exactly those characters.
#[verifier::external_body]
fn chars_to_string(v: &Vec<char>) -> (r: String)
    ensures
        r@ == v@,
{
    v.iter().collect()
}

/// Characters that canonicalization keeps; `.` and `'` are dropped.
pub open spec fn keeps_char(c: char) -> bool {
    c != '.' && c != '\''
}

/// The subsequence of `s` whose characters canonicalization keeps.
pub open spec fn strip_marks(s: Seq<char>) -> Seq<char>
    decreases s.len(),
{
    if s.len() == 0 {
        Seq::empty()
    } else if keeps_char(s.last()) {
        strip_marks(s.drop_last()).push(s.last())
    } else {
        strip_marks(s.drop_last())
    }
}

/// The canonical form of a raw field: uppercased, then `.` and `'` removed.
pub open spec fn canon_of(s: Seq<char>) -> Seq<char> {
    strip_marks(upper_of(s))
}

pub open spec fn is_ascii_alpha(c: char) -> bool {
    (('A' as u32) <= (c as u32) && (c as u32) <= ('Z' as u32)) || (('a' as u32) <= (c as u32)
        && (c as u32) <= ('z' as u32))
}

pub open spec fn all_alpha(s: Seq<char>) -> bool {
    forall|i: int| 0 <= i < s.len() ==> is_ascii_alpha(s[i])
}

/// A canonical form makes a token when it is non-empty and purely
/// alphabetic.
pub open spec fn valid_canon(s: Seq<char>) -> bool {
    s.len() > 0 && all_alpha(s)
}

fn strip_exec(u: &str) -> (v: Vec<char>)
    ensures
        v@ == strip_marks(u@),
{
    let n = u.unicode_len();
    let mut v: Vec<char> = Vec::new();
    let mut i: usize = 0;
    while i < n
        invariant
            n == u@.len(),
            i <= n,
            v@ == strip_marks(u@.subrange(0, i as int)),
        decreases n - i,
    {
        let c = u.get_char(i);
        proof {
            let pre = u@.subrange(0, (i + 1) as int);
            assert(pre.drop_last() =~= u@.subrange(0, i as int));
            assert(pre.last() == u@[i as int]);
        }
        if c != '.' && c != '\'' {
            v.push(c);
        }
        i = i + 1;
    }
    proof {
        assert(u@.subrange(0, n as int) =~= u@);
    }
    v
}

fn check_alpha(v: &Vec<char>) -> (r: bool)
    ensures
        r == all_alpha(v@),
{
    let n = v.len();
    let mut i: usize = 0;
    while i < n
        invariant
            n == v@.len(),
            i <= n,
            forall|j: int| 0 <= j < i ==> is_ascii_alpha(v@[j]),
        decreases n - i,
    {
        let c = v[i];
        let cu = c as u32;
        if !((cu >= 'A' as u32 && cu <= 'Z' as u32) || (cu >= 'a' as u32 && cu <= 'z' as u32)) {
            assert(!is_ascii_alpha(v@[i as int]));
            return false;
        }
        i = i + 1;
    }
    true
}

/// An immutable canonical string: uppercase, with `.` and `'` stripped,
/// non-empty and purely alphabetic. The atomic unit of all matching.
#[derive(Debug)]
pub struct Token {
    text: String,
}

impl View for Token {
    type V = Seq<char>;

    closed spec fn view(&self) -> Seq<char> {
        self.text@
    }
}

impl Token {
    /// Every token holds a valid canonical form.
    pub open spec fn wf(&self) -> bool {
        valid_canon(self@)
    }

    /// Uppercases `s` and removes `.` and `'`; rejects the result when it
    /// is empty or contains a character outside ASCII letters.
    pub fn to_canonical(s: &str) -> (r: Result<String, MatchError>)
        ensures
            r is Ok <==> valid_canon(canon_of(s@)),
            r matches Ok(c) ==> c@ == canon_of(s@),
            r matches Err(e) ==> e matches MatchError::InvalidToken(c) && c@ == canon_of(s@),
    {
        let u = to_upper(s);
        let stripped = strip_exec(u.as_str());
        let canon = chars_to_string(&stripped);
        if stripped.len() == 0 {
            Err(MatchError::InvalidToken(canon))
        } else if !check_alpha(&stripped) {
            Err(MatchError::InvalidToken(canon))
        } else {
            Ok(canon)
        }
    }

    /// Builds the token for `s`; the caller must already know that the
    /// canonical form of `s` is valid.
    pub fn new(s: &str) -> (t: Token)
        requires
            valid_canon(canon_of(s@)),
        ensures
            t@ == canon_of(s@),
            t.wf(),
    {
        match Token::to_canonical(s) {
            Ok(c) => Token { text: c },
            Err(_) => unreached(),
        }
    }

    /// Builds the token for `s`, or reports the invalid canonical form.
    pub fn new_or_error(s: &str) -> (r: Result<Token, MatchError>)
        ensures
            r is Ok <==> valid_canon(canon_of(s@)),
            r matches Ok(t) ==> t@ == canon_of(s@) && t.wf(),
            r matches Err(e) ==> e matches MatchError::InvalidToken(c) && c@ == canon_of(s@),
    {
        match Token::to_canonical(s) {
            Ok(_) => Ok(Token::new(s)),
            Err(e) => Err(e),
        }
    }

    /// The canonical text of the token.
    pub fn as_str(&self) -> (r: &str)
        ensures
            r@ == self@,
    {
        self.text.as_str()
    }

    pub fn eq_token(&self, other: &Token) -> (r: bool)
        ensures
            r == (self@ == other@),
    {
        self.text == other.text
    }

    /// A copy of the token with the same canonical text.
    pub fn duplicate(&self) -> (r: Token)
        ensures
            r@ == self@,
    {
        Token { text: self.text.clone() }
    }
}

} // verus!
