//! The position that playback starts from, as the operator writes it:
//! `SET[/SET_REP].EXERCISE`, each a number counted from one.

use crate::text::{
    collect_chars, find_first, parse_u16, parse_u16_span, split_once, Span,
};
use vstd::prelude::*;

verus! {

/// Why a text is no start position.
#[derive(Debug, Clone, Copy, PartialEq, Eq, Hash, Structural)]
pub enum PositionError {
    /// The text holds no dot, so it names no exercise.
    MissingExercise,
    /// One of the parts of the text is no number of 16 bits.
    BadNumber,
}

/// The number that `s` writes, taken down by one but never below zero.
pub open spec fn index_of(s: Seq<char>) -> Option<u16> {
    match parse_u16(s) {
        Some(number) => Some(
            if number > 0 {
                (number - 1) as u16
            } else {
                0
            },
        ),
        None => None,
    }
}

/// The position that `text` writes: section, pass and exercise, each counted
/// from zero. The section stands before the dot and the exercise behind it;
/// the pass follows the section behind a slash, and is the first where
/// there is no slash.
pub open spec fn position_of(text: Seq<char>) -> Result<(u16, u16, u16), PositionError> {
    match split_once(text, '.') {
        None => Err(PositionError::MissingExercise),
        Some((set, exercise)) => {
            let (section, repetition) = match split_once(set, '/') {
                Some((section, pass)) => (index_of(section), index_of(pass)),
                None => (index_of(set), Some(0u16)),
            };
            match (section, repetition, index_of(exercise)) {
                (Some(s), Some(r), Some(e)) => Ok((s, r, e)),
                _ => Err(PositionError::BadNumber),
            }
        },
    }
}

/// The number that the span writes, taken down by one but never below zero.
fn index_at(chars: &Vec<char>, span: Span) -> (index: Option<u16>)
    requires
        span.within(chars@),
    ensures
        index == index_of(span.of(chars@)),
{
    match parse_u16_span(chars, span) {
        Some(number) => Some(
            if number > 0 {
                number - 1
            } else {
                0
            },
        ),
        None => None,
    }
}

/// The start position that `s` writes, or why it writes none.
pub fn parse_from(s: &str) -> (position: Result<(u16, u16, u16), PositionError>)
    ensures
        position == position_of(s@),
{
    let chars = collect_chars(s);
    let ghost text = chars@;
    let whole = Span { start: 0, end: chars.len() };
    assert(whole.of(text) =~= text);
    let dot = match find_first(&chars, whole, '.') {
        Some(dot) => dot,
        None => {
            return Err(PositionError::MissingExercise);
        },
    };
    let set = Span { start: 0, end: dot };
    let exercise = Span { start: dot + 1, end: chars.len() };
    proof {
        assert(set.of(text) =~= text.take(dot as int));
        assert(exercise.of(text) =~= text.skip(dot + 1));
    }
    let (section, repetition) = match find_first(&chars, set, '/') {
        Some(slash) => {
            let section = Span { start: 0, end: slash };
            let pass = Span { start: slash + 1, end: dot };
            proof {
                assert(section.of(text) =~= set.of(text).take(slash as int));
                assert(pass.of(text) =~= set.of(text).skip(slash + 1));
            }
            (index_at(&chars, section), index_at(&chars, pass))
        },
        None => (index_at(&chars, set), Some(0u16)),
    };
    match (section, repetition, index_at(&chars, exercise)) {
        (Some(s), Some(r), Some(e)) => Ok((s, r, e)),
        _ => Err(PositionError::BadNumber),
    }
}

} // verus!
