//! Calls into std and the `regex` crate that Verus takes on trust, and the
//! spec functions their contracts are stated in.

use regex::Regex;
use vstd::prelude::*;

verus! {

/// Length of the title delimiter that starts at `i`: a tab, or four spaces
/// (the regex `\t|    `), else 0.
pub open spec fn delim_len(s: Seq<char>, i: int) -> int {
    if 0 <= i < s.len() && s[i] == '\t' {
        1
    } else if 0 <= i && i + 4 <= s.len() && s[i] == ' ' && s[i + 1] == ' ' && s[i + 2] == ' '
        && s[i + 3] == ' ' {
        4
    } else {
        0
    }
}

/// The pieces of `s` between delimiters, scanning from `i` with the current
/// piece begun at `start`; matches never overlap and are taken leftmost first.
pub open spec fn delim_split_from(s: Seq<char>, start: int, i: int) -> Seq<Seq<char>>
    decreases s.len() - i,
{
    if i >= s.len() {
        seq![s.subrange(start, s.len() as int)]
    } else if delim_len(s, i) > 0 {
        seq![s.subrange(start, i)].add(delim_split_from(s, i + delim_len(s, i), i + delim_len(s, i)))
    } else {
        delim_split_from(s, start, i + 1)
    }
}

/// The pieces of `s` between runs of a tab or four spaces, empty pieces
/// included.
pub open spec fn delim_split(s: Seq<char>) -> Seq<Seq<char>> {
    delim_split_from(s, 0, 0)
}

/// Relies on `str::chars`: it yields the characters of the string in order.
#[verifier::external_body]
pub(crate) fn chars_of(s: &str) -> (r: Vec<char>)
    ensures
        r@ == s@,
{
    s.chars().collect()
}

/// Relies on `String::push`: it appends one character.
#[verifier::external_body]
pub(crate) fn push_char(s: &mut String, c: char)
    ensures
        final(s)@ == old(s)@.push(c),
{
    s.push(c)
}

/// Relies on `regex::Regex::new`, which accepts the pattern `\t|    `, and on
/// `Regex::split`, which yields the text between successive non-overlapping
/// leftmost-first matches, empty pieces and the final remainder included.
#[verifier::external_body]
pub(crate) fn split_title(t: &Vec<char>) -> (r: Vec<Vec<char>>)
    ensures
        r@.len() == delim_split(t@).len(),
        forall|k: int| 0 <= k < r@.len() ==> (#[trigger] r@[k])@ == delim_split(t@)[k],
{
    let s: String = t.iter().collect();
    let re = Regex::new(r"\t|    ").unwrap();
    re.split(&s).map(|p| p.chars().collect()).collect()
}

} // verus!
