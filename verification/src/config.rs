//! Settings from the environment and the command line.

use vstd::prelude::*;
use vstd::string::*;
use crate::text;

verus! {

/// What a setting says, as a number no larger than `max`; `default` if it is missing or
/// says something else.
pub open spec fn setting(value: Option<&str>, max: nat, default: nat) -> nat {
    match value {
        Some(v) => match text::number(v@, max) {
            Some(x) => x,
            None => default,
        },
        None => default,
    }
}

/// Reads a setting that is a `usize`.
pub fn usize_setting(value: Option<&str>, default: usize) -> (x: usize)
    ensures
        x == setting(value, usize::MAX as nat, default as nat),
{
    match value {
        Some(v) => match text::parse_number(text::chars_of(v).as_slice(), usize::MAX as u64) {
            Some(x) => x as usize,
            None => default,
        },
        None => default,
    }
}

/// Reads a setting that is a port.
pub fn port_setting(value: Option<&str>, default: u16) -> (x: u16)
    ensures
        x == setting(value, u16::MAX as nat, default as nat),
{
    match value {
        Some(v) => match text::parse_number(text::chars_of(v).as_slice(), u16::MAX as u64) {
            Some(x) => x as u16,
            None => default,
        },
        None => default,
    }
}

/// The numbers among the pieces of a list; pieces that are none are left out.
pub open spec fn numbers(p: Seq<Seq<char>>) -> Seq<nat>
    decreases p.len(),
{
    if p.len() == 0 {
        Seq::empty()
    } else {
        match text::number(p.last(), usize::MAX as nat) {
            Some(x) => numbers(p.drop_last()).push(x),
            None => numbers(p.drop_last()),
        }
    }
}

/// Reads a comma-separated list of numbers.
pub fn number_list(s: &str) -> (xs: Vec<usize>)
    ensures
        xs@.map_values(|x: usize| x as nat) == numbers(text::split(s@, ',')),
{
    let chars = text::chars_of(s);
    let parts = text::pieces(chars.as_slice(), ',');
    let ghost p = text::split(s@, ',');
    let mut xs: Vec<usize> = Vec::new();
    for i in 0..parts.len()
        invariant
            chars@ == s@,
            p == text::split(s@, ','),
            parts.len() == p.len(),
            forall|j: int|
                #![trigger parts[j]]
                0 <= j < parts.len() ==> parts[j].0 <= parts[j].1 <= chars.len() && s@.subrange(
                    parts[j].0 as int,
                    parts[j].1 as int,
                ) == p[j],
            xs@.map_values(|x: usize| x as nat) =~= numbers(p.take(i as int)),
    {
        let (a, b) = parts[i];
        let piece = vstd::slice::slice_subrange(chars.as_slice(), a, b);
        assert(p.take(i + 1).drop_last() =~= p.take(i as int));
        if let Some(x) = text::parse_number(piece, usize::MAX as u64) {
            xs.push(x as usize);
        }
    }
    assert(p.take(p.len() as int) =~= p);
    xs
}

/// Reads a comma-separated list of names, each without white space around it.
pub fn name_list(s: &str) -> (names: Vec<String>)
    ensures
        names.len() == text::split(s@, ',').len(),
        forall|j: int|
            0 <= j < names.len() ==> (#[trigger] names[j])@ == text::trimmed(
                text::split(s@, ',')[j],
            ),
{
    let chars = text::chars_of(s);
    let parts = text::pieces(chars.as_slice(), ',');
    let mut names: Vec<String> = Vec::new();
    for i in 0..parts.len()
        invariant
            chars@ == s@,
            parts.len() == text::split(s@, ',').len(),
            forall|j: int|
                #![trigger parts[j]]
                0 <= j < parts.len() ==> parts[j].0 <= parts[j].1 <= chars.len() && s@.subrange(
                    parts[j].0 as int,
                    parts[j].1 as int,
                ) == text::split(s@, ',')[j],
            names.len() == i,
            forall|j: int|
                0 <= j < names.len() ==> (#[trigger] names[j])@ == text::trimmed(
                    text::split(s@, ',')[j],
                ),
    {
        let (a, b) = parts[i];
        let stop = text::end_of(chars.as_slice(), a, b);
        let begin = text::start_of(chars.as_slice(), a, stop);
        names.push(s.substring_char(begin, stop).to_owned());
    }
    names
}

/// A setting that is missing or no number has its default, any other has its number.
pub proof fn settings_are_numbers_or_defaults(v: &str, max: nat, default: nat)
    ensures
        setting(None, max, default) == default,
        text::number(v@, max) is None ==> setting(Some(v), max, default) == default,
        text::number(v@, max) matches Some(n) ==> setting(Some(v), max, default) == n,
{
}

/// Every piece of a list that is a number is read as that number, in order; every other piece is
/// passed over.
pub proof fn lists_keep_their_numbers(p: Seq<Seq<char>>, piece: Seq<char>)
    ensures
        numbers(Seq::empty()) == Seq::<nat>::empty(),
        text::number(piece, usize::MAX as nat) matches Some(n) ==> numbers(p.push(piece))
            == numbers(p).push(n),
        text::number(piece, usize::MAX as nat) is None ==> numbers(p.push(piece)) == numbers(p),
{
    assert(p.push(piece).drop_last() =~= p);
}

} // verus!
