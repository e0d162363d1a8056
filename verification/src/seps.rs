//! The separator characters that cut roster fields, alternative spellings
//! and free-text result lines into fragments.

use vstd::prelude::*;

verus! {

/// Which family of separator characters a split cuts on.
#[derive(Clone, Copy, Debug)]
pub enum SepKind {
    /// `,` and tab: field separators of roster and nickname lines.
    CommaTab,
    /// `/` and `&`: separators of alternative spellings within one segment.
    SlashAmp,
    /// Whitespace and `-`: separators of the segments of a phrase.
    WsDash,
    /// Any of the above: used when tokenizing free-text result lines.
    Any,
}

/// Whether `c` has the Unicode `White_Space` property, a function of the
/// character alone.
pub uninterp spec fn white_space(c: char) -> bool;

/// Relies on char::is_whitespace: returns whether the character has the
/// Unicode `White_Space` property.
#[verifier::external_body]
fn char_is_whitespace(c: char) -> (r: bool)
    ensures
        r == white_space(c),
{
    c.is_whitespace()
}

pub open spec fn comma_or_tab(c: char) -> bool {
    c == ',' || c == '\t'
}

pub open spec fn slash_or_ampersand(c: char) -> bool {
    c == '/' || c == '&'
}

pub open spec fn whitespace_or_dash(c: char) -> bool {
    white_space(c) || c == '-'
}

pub open spec fn any_separator(c: char) -> bool {
    comma_or_tab(c) || slash_or_ampersand(c) || whitespace_or_dash(c)
}

pub fn is_comma_or_tab(c: char) -> (r: bool)
    ensures
        r == comma_or_tab(c),
{
    c == ',' || c == '\t'
}

pub fn is_slash_or_ampersand(c: char) -> (r: bool)
    ensures
        r == slash_or_ampersand(c),
{
    c == '/' || c == '&'
}

pub fn is_whitespace_or_dash(c: char) -> (r: bool)
    ensures
        r == whitespace_or_dash(c),
{
    char_is_whitespace(c) || c == '-'
}

pub fn is_any_separator(c: char) -> (r: bool)
    ensures
        r == any_separator(c),
{
    is_comma_or_tab(c) || is_slash_or_ampersand(c) || is_whitespace_or_dash(c)
}

/// The separator predicate that a `SepKind` stands for.
pub open spec fn sep_spec(k: SepKind, c: char) -> bool {
    match k {
        SepKind::CommaTab => comma_or_tab(c),
        SepKind::SlashAmp => slash_or_ampersand(c),
        SepKind::WsDash => whitespace_or_dash(c),
        SepKind::Any => any_separator(c),
    }
}

pub fn is_sep(k: SepKind, c: char) -> (r: bool)
    ensures
        r == sep_spec(k, c),
{
    match k {
        SepKind::CommaTab => is_comma_or_tab(c),
        SepKind::SlashAmp => is_slash_or_ampersand(c),
        SepKind::WsDash => is_whitespace_or_dash(c),
        SepKind::Any => is_any_separator(c),
    }
}

} // verus!
