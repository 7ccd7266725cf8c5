//! Coordinate pairs as text: two tokens with one separator character
//! between them, such as `1000x750` or `-1.25,0.32`.

use std::str::FromStr;
use vstd::prelude::*;
use vstd::string::StrSliceExecFns;

verus! {

/// `i` is where `s` is cut in two: the first place at which `separator`
/// stands, with text before it and text after it.
pub open spec fn cut_at(s: Seq<char>, separator: char, i: int) -> bool {
    &&& 0 < i < s.len() - 1
    &&& s[i] == separator
    &&& forall|k: int| 0 <= k < i ==> s[k] != separator
}

/// Cuts `s` at the first `separator`. There is no pair where `s` holds no
/// separator, or where nothing stands before the first one or after it.
pub fn split_pair<'a>(s: &'a str, separator: char) -> (sides: Option<(&'a str, &'a str)>)
    ensures
        match sides {
            Some((left, right)) => exists|i: int|
                #[trigger] cut_at(s@, separator, i) && left@ == s@.subrange(0, i) && right@
                    == s@.subrange(i + 1, s@.len() as int),
            None => forall|i: int| !cut_at(s@, separator, i),
        },
{
    let len: usize = s.unicode_len();
    let mut at: usize = 0;
    let mut found: bool = false;
    for c in walk: s.chars()
        invariant
            len == s@.len(),
            walk.seq() == s@,
            !found ==> at == walk.index(),
            found ==> at < len && s@[at as int] == separator,
            forall|k: int| 0 <= k < at ==> s@[k] != separator,
    {
        if !found {
            if c == separator {
                found = true;
            } else {
                at += 1;
            }
        }
    }
    if !found || at == 0 || at + 1 == len {
        assert forall|i: int| !cut_at(s@, separator, i) by {
            if cut_at(s@, separator, i) {
                assert(found && i == at);
            }
        }
        return None;
    }
    let left: &str = s.substring_char(0, at);
    let right: &str = s.substring_char(at + 1, len);
    assert(cut_at(s@, separator, at as int));
    Some((left, right))
}

/// `T::from_str` of std. What it makes of a text is for the type to say, so
/// nothing is claimed of the result.
#[verifier::external_body]
fn parse_token<T: FromStr>(text: &str) -> (value: Option<T>) {
    T::from_str(text).ok()
}

/// The pair of two parsed tokens: there is one where both tokens parsed.
pub fn pair_of<T>(left: Option<T>, right: Option<T>) -> (pair: Option<(T, T)>)
    ensures
        pair == match (left, right) {
            (Some(l), Some(r)) => Some((l, r)),
            _ => None::<(T, T)>,
        },
{
    match (left, right) {
        (Some(l), Some(r)) => Some((l, r)),
        _ => None,
    }
}

/// Parses `s` as a coordinate pair: the text before the first `separator`
/// and the text after it, each read as a `T`. There is no pair where `s`
/// cannot be cut, or where one of the two sides is no `T`.
pub fn parse_pair<T: FromStr>(s: &str, separator: char) -> (pair: Option<(T, T)>)
    ensures
        (forall|i: int| !cut_at(s@, separator, i)) ==> pair is None,
{
    match split_pair(s, separator) {
        None => None,
        Some((left, right)) => pair_of(parse_token::<T>(left), parse_token::<T>(right)),
    }
}

} // verus!
