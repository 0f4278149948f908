//! The workout grammar and its parser.
//!
//! A workout is written line by line; blank lines count nowhere, and white
//! space before a line's first word is ignored:
//!
//! ```text
//! Workout <name>
//! Set [<name>] [x<reps>]
//! Exercise <name> <MM:SS>["]
//! Exercise <name> x<reps>
//! Rest <MM:SS>
//! Set rest <MM:SS>
//! ```
//!
//! The spec functions of this module say what a text means; [`load_workout`]
//! computes it.

use crate::model::{
    elements_model, sections_model, ElementModel, ExcerciseAmout, SetModel, Workout, WorkoutModel,
    WorkoutSet, WorkoutSetElement,
};
use crate::text::{
    collect_chars, content_line_spans, content_lines, digit_of, digit_value, find_first,
    find_last, is_digit, parse_u16, parse_u16_span, rsplit_once, skip_whitespace, span_is,
    spans_of, split_once, strip_prefix, strip_prefix_span, trim_start, Span,
};
use vstd::prelude::*;

verus! {

/// Why a text is no workout.
#[derive(Debug, Clone, Copy, PartialEq, Eq, Hash, Structural)]
pub enum ParseError {
    /// The first line does not name the workout.
    MissingWorkoutName,
    /// A line that should open a section does not begin with `Set`.
    ExpectedSet,
    /// An exercise line holds a name and nothing after it.
    MissingAmount,
    /// The repetition count of an exercise is no number of 16 bits.
    BadReps,
    /// A duration of five characters or more is not `MM:SS`.
    BadDuration,
    /// A duration is shorter than the five characters of `MM:SS`.
    MalformedDurationToken,
}

/// The seconds that a duration token stands for. Its first five characters
/// count: two digits of minutes, a colon, two digits of seconds.
pub open spec fn duration_of(token: Seq<char>) -> Result<u32, ParseError> {
    if token.len() < 5 {
        Err(ParseError::MalformedDurationToken)
    } else if is_digit(token[0]) && is_digit(token[1]) && token[2] == ':' && is_digit(token[3])
        && is_digit(token[4]) {
        Ok(
            ((digit_value(token[0]) * 10 + digit_value(token[1])) * 60 + digit_value(token[3])
                * 10 + digit_value(token[4])) as u32,
        )
    } else {
        Err(ParseError::BadDuration)
    }
}

/// The amount that the last word of an exercise line stands for: `x` and a
/// count, or a duration, which a double quote at the end gives a midpoint
/// cue.
pub open spec fn amount_of(token: Seq<char>) -> Result<ExcerciseAmout, ParseError> {
    if token.len() > 0 && token[0] == 'x' {
        match parse_u16(token.skip(1)) {
            Some(count) => Ok(ExcerciseAmout::Reps(count)),
            None => Err(ParseError::BadReps),
        }
    } else {
        match duration_of(token) {
            Ok(duration) => Ok(
                ExcerciseAmout::Time { duration, midbeep: token.len() > 0 && token.last() == '"' },
            ),
            Err(e) => Err(e),
        }
    }
}

/// What a line is where an element of a section may stand.
pub enum ElementLine {
    /// The line is this element.
    Element(ElementModel),
    /// The line begins as an element does and is none.
    Invalid(ParseError),
    /// The line is no element: the list of elements ends before it.
    Other,
}

/// What `line` is where an element of a section may stand.
pub open spec fn element_of(line: Seq<char>) -> ElementLine {
    match split_once(trim_start(line), ' ') {
        None => ElementLine::Other,
        Some((word, rest)) => {
            if word == "Exercise"@ {
                match rsplit_once(rest, ' ') {
                    None => ElementLine::Invalid(ParseError::MissingAmount),
                    Some((name, token)) => match amount_of(token) {
                        Ok(amount) => ElementLine::Element(ElementModel::Exercise { name, amount }),
                        Err(e) => ElementLine::Invalid(e),
                    },
                }
            } else if word == "Rest"@ {
                match duration_of(rest) {
                    Ok(duration) => ElementLine::Element(ElementModel::Rest { duration }),
                    Err(e) => ElementLine::Invalid(e),
                }
            } else {
                ElementLine::Other
            }
        },
    }
}

/// What `line` is where the rest of a section may stand: `None` where it
/// does not begin as such a rest does, else the rest that it gives. A line
/// that begins as a rest and holds no duration gives no rest.
pub open spec fn set_rest_of(line: Seq<char>) -> Option<Option<u32>> {
    match strip_prefix(trim_start(line), "Set rest "@) {
        Some(token) => match duration_of(token) {
            Ok(duration) => Some(Some(duration)),
            Err(_) => Some(None),
        },
        None => None,
    }
}

/// The number of passes that the last word of a section's first line
/// stands for: `x` and a count of at least one.
pub open spec fn pass_count_of(token: Seq<char>) -> Option<u16> {
    match strip_prefix(token, seq!['x']) {
        Some(digits) => match parse_u16(digits) {
            Some(reps) => if reps >= 1 {
                Some(reps)
            } else {
                None
            },
            None => None,
        },
        None => None,
    }
}

/// The name and the number of passes that a section's first line gives
/// after its `Set`. Where the last word is a pass count, what stands before
/// it is the name; else all of it is the name, and there is one pass.
pub open spec fn set_header_of(rest: Seq<char>) -> (Option<Seq<char>>, u16) {
    let rest = trim_start(rest);
    if rest.len() == 0 {
        (None, 1)
    } else {
        match rsplit_once(rest, ' ') {
            Some((name, token)) => match pass_count_of(token) {
                Some(reps) => (Some(name), reps),
                None => (Some(rest), 1),
            },
            None => (Some(rest), 1),
        }
    }
}

/// The elements that stand in `lines` from line `at` on, and the line that
/// follows them.
pub open spec fn elements_from(lines: Seq<Seq<char>>, at: int) -> Result<
    (Seq<ElementModel>, int),
    ParseError,
>
    decreases lines.len() - at,
{
    if at < 0 || at >= lines.len() {
        Ok((Seq::empty(), at))
    } else {
        match element_of(lines[at]) {
            ElementLine::Other => Ok((Seq::empty(), at)),
            ElementLine::Invalid(e) => Err(e),
            ElementLine::Element(element) => match elements_from(lines, at + 1) {
                Ok((rest, after)) => Ok((seq![element] + rest, after)),
                Err(e) => Err(e),
            },
        }
    }
}

/// The section that begins in line `at` of `lines`, and the line that
/// follows it. A line behind the elements that begins as the rest of the
/// section belongs to the section, with or without a duration.
pub open spec fn section_at(lines: Seq<Seq<char>>, at: int) -> Result<(SetModel, int), ParseError>
    recommends
        0 <= at < lines.len(),
{
    match strip_prefix(trim_start(lines[at]), "Set"@) {
        None => Err(ParseError::ExpectedSet),
        Some(rest) => {
            let (name, reps) = set_header_of(rest);
            match elements_from(lines, at + 1) {
                Err(e) => Err(e),
                Ok((parts, after)) => {
                    let found = if after < lines.len() {
                        set_rest_of(lines[after])
                    } else {
                        None
                    };
                    match found {
                        Some(set_rest) => Ok(
                            (SetModel { name, parts, reps, set_rest }, after + 1),
                        ),
                        None => Ok((SetModel { name, parts, reps, set_rest: None }, after)),
                    }
                },
            }
        },
    }
}

/// The sections that stand in `lines` from line `at` on.
pub open spec fn sections_from(lines: Seq<Seq<char>>, at: int) -> Result<Seq<SetModel>, ParseError>
    decreases lines.len() - at,
{
    if at < 0 || at >= lines.len() {
        Ok(Seq::empty())
    } else {
        match section_at(lines, at) {
            Err(e) => Err(e),
            Ok((set, next)) => {
                proof {
                    lemma_section_advances(lines, at);
                }
                match sections_from(lines, next) {
                    Ok(rest) => Ok(seq![set] + rest),
                    Err(e) => Err(e),
                }
            },
        }
    }
}

/// Whether reading sections from line `from` on comes to begin a section in
/// line `at`.
pub open spec fn section_begins_at(lines: Seq<Seq<char>>, from: int, at: int) -> bool
    recommends
        0 <= from <= at < lines.len(),
    decreases at - from,
{
    if from >= at {
        from == at
    } else {
        match section_at(lines, from) {
            Ok((_, next)) => if from < next <= at {
                section_begins_at(lines, next, at)
            } else {
                false
            },
            Err(_) => false,
        }
    }
}

/// The workout that the lines `lines` write down, none of them blank: its
/// name in the first, its sections in the others.
pub open spec fn workout_in(lines: Seq<Seq<char>>) -> Result<WorkoutModel, ParseError> {
    if lines.len() == 0 {
        Err(ParseError::MissingWorkoutName)
    } else {
        match strip_prefix(trim_start(lines[0]), "Workout "@) {
            None => Err(ParseError::MissingWorkoutName),
            Some(name) => match sections_from(lines, 1) {
                Ok(sections) => Ok(WorkoutModel { name, sections }),
                Err(e) => Err(e),
            },
        }
    }
}

/// The workout that `text` writes down.
pub open spec fn workout_of(text: Seq<char>) -> Result<WorkoutModel, ParseError> {
    workout_in(content_lines(text))
}

/// The elements of a section end at or behind the line they begin in, and
/// within the text.
pub proof fn lemma_elements_advance(lines: Seq<Seq<char>>, at: int)
    requires
        0 <= at <= lines.len(),
    ensures
        elements_from(lines, at) matches Ok((_, after)) ==> at <= after <= lines.len(),
    decreases lines.len() - at,
{
    if at < lines.len() {
        lemma_elements_advance(lines, at + 1);
    }
}

/// A section ends behind the line it begins in, and within the text.
pub proof fn lemma_section_advances(lines: Seq<Seq<char>>, at: int)
    requires
        0 <= at < lines.len(),
    ensures
        section_at(lines, at) matches Ok((_, next)) ==> at < next <= lines.len(),
{
    lemma_elements_advance(lines, at + 1);
}

/// A duration token of fewer than five characters stands for nothing,
/// whatever it holds.
pub proof fn lemma_short_duration_is_malformed(token: Seq<char>)
    requires
        token.len() < 5,
    ensures
        duration_of(token) == Err::<u32, _>(ParseError::MalformedDurationToken),
{
}

/// A duration never exceeds 99 minutes and 99 seconds.
pub proof fn lemma_duration_is_bounded(token: Seq<char>)
    ensures
        duration_of(token) matches Ok(seconds) ==> seconds <= 99 * 60 + 99,
{
}

/// A line that begins as the rest of a section and holds no duration gives
/// the section no rest and is taken with the section: nothing of it is left
/// for what follows.
pub proof fn lemma_set_rest_without_duration_is_no_rest(lines: Seq<Seq<char>>, at: int)
    requires
        0 <= at < lines.len(),
        section_at(lines, at) is Ok,
        ({
            let after = elements_from(lines, at + 1)->Ok_0.1;
            &&& after < lines.len()
            &&& strip_prefix(trim_start(lines[after]), "Set rest "@) matches Some(token)
            &&& duration_of(token) is Err
        }),
    ensures
        section_at(lines, at)->Ok_0.0.set_rest is None,
        section_at(lines, at)->Ok_0.1 == elements_from(lines, at + 1)->Ok_0.1 + 1,
{
}

/// A section that no line gives a rest has none: its elements reach the end
/// of the text, or the line behind them does not begin as a rest does.
pub proof fn lemma_set_rest_absent_is_no_rest(lines: Seq<Seq<char>>, at: int)
    requires
        0 <= at < lines.len(),
        section_at(lines, at) is Ok,
        ({
            let after = elements_from(lines, at + 1)->Ok_0.1;
            after >= lines.len() || strip_prefix(trim_start(lines[after]), "Set rest "@) is None
        }),
    ensures
        section_at(lines, at)->Ok_0.0.set_rest is None,
        section_at(lines, at)->Ok_0.1 == elements_from(lines, at + 1)->Ok_0.1,
{
}

/// The elements that are read from a line on depend on that line and on
/// those that follow it, and on nothing else: two texts that hold the same
/// lines from a place on give the same elements there, and end them as far
/// behind that place.
pub proof fn lemma_elements_depend_on_what_follows(
    a: Seq<Seq<char>>,
    i: int,
    b: Seq<Seq<char>>,
    j: int,
)
    requires
        0 <= i <= a.len(),
        0 <= j <= b.len(),
        a.skip(i) == b.skip(j),
    ensures
        match (elements_from(a, i), elements_from(b, j)) {
            (Ok((left, after)), Ok((right, behind))) => left == right && after - i == behind - j,
            (Err(e), Err(f)) => e == f,
            _ => false,
        },
    decreases a.len() - i,
{
    assert(a.len() - i == b.len() - j) by {
        assert(a.skip(i).len() == b.skip(j).len());
    }
    if i < a.len() {
        assert(a[i] == b[j]) by {
            assert(a.skip(i)[0] == b.skip(j)[0]);
        }
        assert(a.skip(i + 1) == b.skip(j + 1)) by {
            assert(a.skip(i + 1) =~= a.skip(i).skip(1));
            assert(b.skip(j + 1) =~= b.skip(j).skip(1));
        }
        lemma_elements_depend_on_what_follows(a, i + 1, b, j + 1);
    }
}

/// The section that is read from a line on depends on that line and on
/// those that follow it, and on nothing else.
pub proof fn lemma_section_depends_on_what_follows(
    a: Seq<Seq<char>>,
    i: int,
    b: Seq<Seq<char>>,
    j: int,
)
    requires
        0 <= i < a.len(),
        0 <= j < b.len(),
        a.skip(i) == b.skip(j),
    ensures
        match (section_at(a, i), section_at(b, j)) {
            (Ok((left, next)), Ok((right, then))) => left == right && next - i == then - j,
            (Err(e), Err(f)) => e == f,
            _ => false,
        },
{
    assert(a.len() - i == b.len() - j) by {
        assert(a.skip(i).len() == b.skip(j).len());
    }
    assert(a[i] == b[j]) by {
        assert(a.skip(i)[0] == b.skip(j)[0]);
    }
    assert(a.skip(i + 1) == b.skip(j + 1)) by {
        assert(a.skip(i + 1) =~= a.skip(i).skip(1));
        assert(b.skip(j + 1) =~= b.skip(j).skip(1));
    }
    lemma_elements_depend_on_what_follows(a, i + 1, b, j + 1);
    lemma_elements_advance(a, i + 1);
    lemma_elements_advance(b, j + 1);
    match (elements_from(a, i + 1), elements_from(b, j + 1)) {
        (Ok((_, after)), Ok((_, behind))) => {
            if after < a.len() {
                assert(a[after] == b[behind]) by {
                    assert(a.skip(i)[after - i] == b.skip(j)[behind - j]);
                }
            }
        },
        _ => {},
    }
}

/// The sections that are read from a line on depend on that line and on
/// those that follow it, and on nothing else.
pub proof fn lemma_sections_depend_on_what_follows(
    a: Seq<Seq<char>>,
    i: int,
    b: Seq<Seq<char>>,
    j: int,
)
    requires
        0 <= i <= a.len(),
        0 <= j <= b.len(),
        a.skip(i) == b.skip(j),
    ensures
        sections_from(a, i) == sections_from(b, j),
    decreases a.len() - i,
{
    assert(a.len() - i == b.len() - j) by {
        assert(a.skip(i).len() == b.skip(j).len());
    }
    if i < a.len() {
        lemma_section_depends_on_what_follows(a, i, b, j);
        lemma_section_advances(a, i);
        lemma_section_advances(b, j);
        match (section_at(a, i), section_at(b, j)) {
            (Ok((_, next)), Ok((_, then))) => {
                assert(a.skip(next) == b.skip(then)) by {
                    assert(a.skip(next) =~= a.skip(i).skip(next - i));
                    assert(b.skip(then) =~= b.skip(j).skip(then - j));
                }
                lemma_sections_depend_on_what_follows(a, next, b, then);
            },
            _ => {},
        }
    }
}

/// Elements that end at a line are read alike from every text that holds
/// the same lines up to that line and no element in it.
pub proof fn lemma_elements_end_alike(
    a: Seq<Seq<char>>,
    b: Seq<Seq<char>>,
    at: int,
    end: int,
)
    requires
        0 <= at <= end,
        end <= a.len(),
        end <= b.len(),
        elements_from(a, at) matches Ok((_, after)) && after == end,
        forall|i: int| at <= i < end ==> a[i] == b[i],
        end < b.len() ==> element_of(b[end]) is Other,
    ensures
        elements_from(b, at) == elements_from(a, at),
    decreases end - at,
{
    if at < a.len() {
        lemma_elements_advance(a, at + 1);
    }
    if at < end {
        assert(a[at] == b[at]);
        lemma_elements_end_alike(a, b, at + 1, end);
    }
}

/// A line that begins as the rest of a section and holds no duration
/// leaves no trace: where no element and no rest follows it, the text reads
/// from its section on as it reads without the line.
pub proof fn lemma_set_rest_without_duration_leaves_no_trace(lines: Seq<Seq<char>>, at: int)
    requires
        0 <= at < lines.len(),
        section_at(lines, at) is Ok,
        ({
            let line = elements_from(lines, at + 1)->Ok_0.1;
            &&& line < lines.len()
            &&& set_rest_of(lines[line]) == Some(None::<u32>)
            &&& line + 1 < lines.len() ==> element_of(lines[line + 1]) is Other && set_rest_of(
                lines[line + 1],
            ) is None
        }),
    ensures
        ({
            let line = elements_from(lines, at + 1)->Ok_0.1;
            let without = lines.remove(line);
            &&& section_at(without, at) is Ok
            &&& section_at(without, at)->Ok_0.0 == section_at(lines, at)->Ok_0.0
            &&& section_at(without, at)->Ok_0.1 + 1 == section_at(lines, at)->Ok_0.1
            &&& sections_from(without, at) == sections_from(lines, at)
        }),
{
    let line = elements_from(lines, at + 1)->Ok_0.1;
    let without = lines.remove(line);
    lemma_elements_advance(lines, at + 1);
    assert(without.len() == lines.len() - 1);
    assert forall|i: int| 0 <= i < line implies without[i] == lines[i] by {}
    assert forall|i: int| line <= i < without.len() implies without[i] == lines[i + 1] by {}
    lemma_elements_end_alike(lines, without, at + 1, line);
    assert(without.skip(line) =~= lines.skip(line + 1));
    lemma_sections_depend_on_what_follows(without, line, lines, line + 1);
    lemma_section_advances(lines, at);
    lemma_section_advances(without, at);
}

/// Where the elements of a section end before the end of the text, the
/// line that they end at is no element.
pub proof fn lemma_elements_end_at_no_element(lines: Seq<Seq<char>>, at: int)
    requires
        0 <= at <= lines.len(),
    ensures
        elements_from(lines, at) matches Ok((_, after)) ==> after >= lines.len() || element_of(
            lines[after],
        ) is Other,
    decreases lines.len() - at,
{
    if at < lines.len() {
        lemma_elements_end_at_no_element(lines, at + 1);
    }
}

/// A section is read from its own lines: two texts that hold the same lines
/// up to a line behind the section give the same section.
pub proof fn lemma_section_is_read_from_its_lines(
    a: Seq<Seq<char>>,
    b: Seq<Seq<char>>,
    at: int,
    bound: int,
)
    requires
        0 <= at,
        bound <= a.len(),
        bound <= b.len(),
        forall|i: int| 0 <= i < bound ==> a[i] == b[i],
        section_at(a, at) matches Ok((_, next)) && next < bound,
    ensures
        section_at(b, at) == section_at(a, at),
{
    lemma_elements_advance(a, at + 1);
    lemma_elements_end_at_no_element(a, at + 1);
    let after = elements_from(a, at + 1)->Ok_0.1;
    assert(a[at] == b[at]);
    assert(a[after] == b[after]);
    lemma_elements_end_alike(a, b, at + 1, after);
}

/// A line that begins as the rest of a section and holds no duration
/// leaves no trace in the sections of the text: where no element and no
/// rest follows it, the sections read as they read without the line.
pub proof fn lemma_sections_read_alike_without_the_line(
    lines: Seq<Seq<char>>,
    from: int,
    at: int,
)
    requires
        0 <= from <= at < lines.len(),
        section_begins_at(lines, from, at),
        section_at(lines, at) is Ok,
        ({
            let line = elements_from(lines, at + 1)->Ok_0.1;
            &&& line < lines.len()
            &&& set_rest_of(lines[line]) == Some(None::<u32>)
            &&& line + 1 < lines.len() ==> element_of(lines[line + 1]) is Other && set_rest_of(
                lines[line + 1],
            ) is None
        }),
    ensures
        sections_from(lines.remove(elements_from(lines, at + 1)->Ok_0.1), from) == sections_from(
            lines,
            from,
        ),
    decreases at - from,
{
    let line = elements_from(lines, at + 1)->Ok_0.1;
    let without = lines.remove(line);
    lemma_elements_advance(lines, at + 1);
    if from == at {
        lemma_set_rest_without_duration_leaves_no_trace(lines, at);
    } else {
        let next = section_at(lines, from)->Ok_0.1;
        lemma_section_advances(lines, from);
        assert(next <= at) by {
            if next > at {
                assert(!section_begins_at(lines, next, at));
            }
        }
        assert forall|i: int| 0 <= i < line implies lines[i] == without[i] by {}
        lemma_section_is_read_from_its_lines(lines, without, from, line);
        lemma_sections_read_alike_without_the_line(lines, next, at);
    }
}

/// A line that begins as the rest of a section and holds no duration
/// leaves no trace in the workout: where no element and no rest follows
/// it, the workout is the one that the text writes down without the line.
pub proof fn lemma_workout_reads_alike_without_the_line(lines: Seq<Seq<char>>, at: int)
    requires
        1 <= at < lines.len(),
        section_begins_at(lines, 1, at),
        section_at(lines, at) is Ok,
        ({
            let line = elements_from(lines, at + 1)->Ok_0.1;
            &&& line < lines.len()
            &&& set_rest_of(lines[line]) == Some(None::<u32>)
            &&& line + 1 < lines.len() ==> element_of(lines[line + 1]) is Other && set_rest_of(
                lines[line + 1],
            ) is None
        }),
    ensures
        workout_in(lines.remove(elements_from(lines, at + 1)->Ok_0.1)) == workout_in(lines),
{
    let line = elements_from(lines, at + 1)->Ok_0.1;
    lemma_elements_advance(lines, at + 1);
    lemma_sections_read_alike_without_the_line(lines, 1, at);
    assert(lines.remove(line)[0] == lines[0]);
}

/// Every section that is read is gone through at least once.
pub proof fn lemma_section_has_a_pass(lines: Seq<Seq<char>>, at: int)
    requires
        0 <= at < lines.len(),
    ensures
        section_at(lines, at) matches Ok((set, _)) ==> set.wf(),
{
}

/// Every section among those that are read is gone through at least once.
pub proof fn lemma_sections_have_a_pass(lines: Seq<Seq<char>>, at: int)
    requires
        0 <= at,
    ensures
        sections_from(lines, at) matches Ok(sections) ==> forall|i: int|
            0 <= i < sections.len() ==> (#[trigger] sections[i]).wf(),
    decreases lines.len() - at,
{
    if at < lines.len() {
        match section_at(lines, at) {
            Ok((set, next)) => {
                lemma_section_advances(lines, at);
                lemma_section_has_a_pass(lines, at);
                lemma_sections_have_a_pass(lines, next);
            },
            Err(_) => {},
        }
    }
}

/// Every workout that is read is one that can be played.
pub proof fn lemma_workout_is_well_formed(text: Seq<char>)
    ensures
        workout_of(text) matches Ok(workout) ==> workout.wf(),
{
    lemma_sections_have_a_pass(content_lines(text), 1);
}

/// `elements` before what `rest` holds, where it holds elements.
pub open spec fn elements_then(
    elements: Seq<ElementModel>,
    rest: Result<(Seq<ElementModel>, int), ParseError>,
) -> Result<(Seq<ElementModel>, int), ParseError> {
    match rest {
        Ok((more, after)) => Ok((elements + more, after)),
        Err(e) => Err(e),
    }
}

/// `sections` before what `rest` holds, where it holds sections.
pub open spec fn sections_then(
    sections: Seq<SetModel>,
    rest: Result<Seq<SetModel>, ParseError>,
) -> Result<Seq<SetModel>, ParseError> {
    match rest {
        Ok(more) => Ok(sections + more),
        Err(e) => Err(e),
    }
}

/// What a line is where an element of a section may stand.
pub enum ParsedLine<'a> {
    Element(WorkoutSetElement<'a>),
    Invalid(ParseError),
    Other,
}

impl<'a> View for ParsedLine<'a> {
    type V = ElementLine;

    open spec fn view(&self) -> ElementLine {
        match *self {
            ParsedLine::Element(element) => ElementLine::Element(element@),
            ParsedLine::Invalid(e) => ElementLine::Invalid(e),
            ParsedLine::Other => ElementLine::Other,
        }
    }
}

/// The seconds that the duration token in `span` stands for.
pub(crate) fn duration_at(chars: &Vec<char>, span: Span) -> (duration: Result<u32, ParseError>)
    requires
        span.within(chars@),
    ensures
        duration == duration_of(span.of(chars@)),
{
    if span.end - span.start < 5 {
        return Err(ParseError::MalformedDurationToken);
    }
    let at: usize = span.start;
    let ghost token = span.of(chars@);
    proof {
        assert(token[0] == chars@[at as int]);
        assert(token[1] == chars@[at + 1]);
        assert(token[2] == chars@[at + 2]);
        assert(token[3] == chars@[at + 3]);
        assert(token[4] == chars@[at + 4]);
    }
    let colon: bool = chars[at + 2] == ':';
    match (digit_of(chars[at]), digit_of(chars[at + 1]), digit_of(chars[at + 3]), digit_of(
        chars[at + 4],
    )) {
        (Some(m1), Some(m0), Some(s1), Some(s0)) => {
            if colon {
                let minutes: u32 = m1 as u32 * 10 + m0 as u32;
                let seconds: u32 = s1 as u32 * 10 + s0 as u32;
                Ok(minutes * 60 + seconds)
            } else {
                Err(ParseError::BadDuration)
            }
        },
        _ => Err(ParseError::BadDuration),
    }
}

/// The seconds that a duration token stands for: `MM:SS`, with anything
/// behind its fifth character left unread.
pub fn parse_duration(token: &str) -> (duration: Result<u32, ParseError>)
    ensures
        duration == duration_of(token@),
{
    let chars = collect_chars(token);
    let span = Span { start: 0, end: chars.len() };
    proof {
        assert(span.of(chars@) =~= token@);
    }
    duration_at(&chars, span)
}

/// The amount that the token in `span` stands for.
pub(crate) fn amount_at(chars: &Vec<char>, span: Span) -> (amount: Result<ExcerciseAmout, ParseError>)
    requires
        span.within(chars@),
    ensures
        amount == amount_of(span.of(chars@)),
{
    let ghost token = span.of(chars@);
    if span.start < span.end && chars[span.start] == 'x' {
        let digits = Span { start: span.start + 1, end: span.end };
        proof {
            assert(digits.of(chars@) =~= token.skip(1));
        }
        match parse_u16_span(chars, digits) {
            Some(count) => Ok(ExcerciseAmout::Reps(count)),
            None => Err(ParseError::BadReps),
        }
    } else {
        match duration_at(chars, span) {
            Ok(duration) => {
                let midbeep: bool = chars[span.end - 1] == '"';
                proof {
                    assert(token.last() == chars@[span.end - 1]);
                }
                Ok(ExcerciseAmout::Time { duration, midbeep })
            },
            Err(e) => Err(e),
        }
    }
}

/// What the line in `line` is where an element of a section may stand.
pub(crate) fn element_at<'a>(source: &'a str, chars: &Vec<char>, line: Span) -> (parsed: ParsedLine<'a>)
    requires
        chars@ == source@,
        line.within(chars@),
    ensures
        parsed@ == element_of(line.of(chars@)),
{
    let ghost text = chars@;
    let trimmed = skip_whitespace(chars, line);
    let ghost t = trimmed.of(text);
    let space = match find_first(chars, trimmed, ' ') {
        Some(space) => space,
        None => {
            return ParsedLine::Other;
        },
    };
    let word = Span { start: trimmed.start, end: space };
    let rest = Span { start: space + 1, end: trimmed.end };
    let ghost r = rest.of(text);
    proof {
        assert(word.of(text) =~= t.take(space - trimmed.start));
        assert(r =~= t.skip(space - trimmed.start + 1));
    }
    if span_is(chars, word, "Exercise") {
        let last = match find_last(chars, rest, ' ') {
            Some(last) => last,
            None => {
                return ParsedLine::Invalid(ParseError::MissingAmount);
            },
        };
        let name = Span { start: rest.start, end: last };
        let token = Span { start: last + 1, end: rest.end };
        proof {
            assert(name.of(text) =~= r.take(last - rest.start));
            assert(token.of(text) =~= r.skip(last - rest.start + 1));
        }
        match amount_at(chars, token) {
            Ok(amount) => ParsedLine::Element(
                WorkoutSetElement::Excercise {
                    name: source.substring_char(name.start, name.end),
                    amount,
                },
            ),
            Err(e) => ParsedLine::Invalid(e),
        }
    } else if span_is(chars, word, "Rest") {
        match duration_at(chars, rest) {
            Ok(duration) => ParsedLine::Element(WorkoutSetElement::Rest { duration }),
            Err(e) => ParsedLine::Invalid(e),
        }
    } else {
        ParsedLine::Other
    }
}

/// What the line in `line` is where the rest of a section may stand.
pub(crate) fn set_rest_at(chars: &Vec<char>, line: Span) -> (rest: Option<Option<u32>>)
    requires
        line.within(chars@),
    ensures
        rest == set_rest_of(line.of(chars@)),
{
    let trimmed = skip_whitespace(chars, line);
    match strip_prefix_span(chars, trimmed, "Set rest ") {
        Some(token) => match duration_at(chars, token) {
            Ok(duration) => Some(Some(duration)),
            Err(_) => Some(None),
        },
        None => None,
    }
}

/// The name and the number of passes that `rest` gives, the part of a
/// section's first line that follows its `Set`.
pub(crate) fn set_header_at<'a>(source: &'a str, chars: &Vec<char>, rest: Span) -> (header: (
    Option<&'a str>,
    u16,
))
    requires
        chars@ == source@,
        rest.within(chars@),
    ensures
        match header.0 {
            Some(name) => set_header_of(rest.of(chars@)).0 == Some(name@),
            None => set_header_of(rest.of(chars@)).0 is None,
        },
        header.1 == set_header_of(rest.of(chars@)).1,
{
    let ghost text = chars@;
    let trimmed = skip_whitespace(chars, rest);
    let ghost t = trimmed.of(text);
    if trimmed.start == trimmed.end {
        return (None, 1);
    }
    let whole = source.substring_char(trimmed.start, trimmed.end);
    let last = match find_last(chars, trimmed, ' ') {
        Some(last) => last,
        None => {
            return (Some(whole), 1);
        },
    };
    let name = Span { start: trimmed.start, end: last };
    let token = Span { start: last + 1, end: trimmed.end };
    proof {
        assert(name.of(text) =~= t.take(last - trimmed.start));
        assert(token.of(text) =~= t.skip(last - trimmed.start + 1));
    }
    if token.start < token.end && chars[token.start] == 'x' {
        let digits = Span { start: token.start + 1, end: token.end };
        proof {
            let tok = token.of(text);
            assert(tok[0] == 'x');
            assert(tok.subrange(0, 1) =~= seq!['x']);
            assert(digits.of(text) =~= tok.skip(1));
        }
        match parse_u16_span(chars, digits) {
            Some(reps) => if reps >= 1 {
                (Some(source.substring_char(name.start, name.end)), reps)
            } else {
                (Some(whole), 1)
            },
            None => (Some(whole), 1),
        }
    } else {
        proof {
            let tok = token.of(text);
            if seq!['x'].is_prefix_of(tok) {
                assert(tok.subrange(0, 1)[0] == tok[0]);
                assert(seq!['x'][0] == 'x');
            }
        }
        (Some(whole), 1)
    }
}

/// The section that begins in line `at`, and the line that follows it.
pub(crate) fn section_from<'a>(source: &'a str, chars: &Vec<char>, lines: &Vec<Span>, at: usize) -> (section:
    Result<(WorkoutSet<'a>, usize), ParseError>)
    requires
        chars@ == source@,
        at < lines.len(),
        forall|i: int| 0 <= i < lines.len() ==> (#[trigger] lines[i]).within(chars@),
    ensures
        match section {
            Ok((set, next)) => at < next <= lines.len() && section_at(
                spans_of(lines@, chars@),
                at as int,
            ) == Ok::<_, ParseError>((set@, next as int)),
            Err(e) => section_at(spans_of(lines@, chars@), at as int) == Err::<(SetModel, int), _>(
                e,
            ),
        },
{
    let ghost text = chars@;
    let ghost ls = spans_of(lines@, text);
    let first = skip_whitespace(chars, lines[at]);
    let rest = match strip_prefix_span(chars, first, "Set") {
        Some(rest) => rest,
        None => {
            return Err(ParseError::ExpectedSet);
        },
    };
    let (name, reps) = set_header_at(source, chars, rest);
    let mut parts: Vec<WorkoutSetElement<'a>> = Vec::new();
    let mut l: usize = at + 1;
    let mut open: bool = true;
    proof {
        assert(elements_model(parts@) + elements_from(ls, l as int)->Ok_0.0 =~= elements_from(
            ls,
            l as int,
        )->Ok_0.0);
    }
    while open && l < lines.len()
        invariant
            chars@ == source@,
            text == chars@,
            ls == spans_of(lines@, text),
            at < l <= lines.len(),
            strip_prefix(trim_start(ls[at as int]), "Set"@) is Some,
            forall|i: int| 0 <= i < lines.len() ==> (#[trigger] lines[i]).within(chars@),
            elements_from(ls, at + 1) == elements_then(
                elements_model(parts@),
                elements_from(ls, l as int),
            ),
            !open ==> elements_from(ls, l as int) == Ok::<_, ParseError>(
                (Seq::<ElementModel>::empty(), l as int),
            ),
        decreases lines.len() - l, open as int,
    {
        let ghost before = elements_model(parts@);
        match element_at(source, chars, lines[l]) {
            ParsedLine::Element(element) => {
                parts.push(element);
                proof {
                    assert(elements_model(parts@) =~= before + seq![element@]);
                    match elements_from(ls, l + 1) {
                        Ok((more, after)) => {
                            assert(elements_model(parts@) + more =~= before + (seq![element@]
                                + more));
                        },
                        Err(_) => {},
                    }
                }
                l += 1;
            },
            ParsedLine::Invalid(e) => {
                return Err(e);
            },
            ParsedLine::Other => {
                open = false;
            },
        }
    }
    proof {
        assert(elements_model(parts@) + Seq::<ElementModel>::empty() =~= elements_model(parts@));
    }
    let found = if l < lines.len() {
        set_rest_at(chars, lines[l])
    } else {
        None
    };
    match found {
        Some(set_rest) => Ok((WorkoutSet { name, parts, reps, set_rest }, l + 1)),
        None => Ok((WorkoutSet { name, parts, reps, set_rest: None }, l)),
    }
}

/// The workout that `source` writes down, or why it writes down none.
pub fn load_workout<'a>(source: &'a str) -> (workout: Result<Workout<'a>, ParseError>)
    ensures
        match workout {
            Ok(w) => workout_of(source@) == Ok::<_, ParseError>(w@),
            Err(e) => workout_of(source@) == Err::<WorkoutModel, _>(e),
        },
        workout matches Ok(w) ==> w@.wf(),
{
    proof {
        lemma_workout_is_well_formed(source@);
    }
    let chars = collect_chars(source);
    let lines = content_line_spans(&chars);
    let ghost text = chars@;
    let ghost ls = content_lines(text);
    if lines.len() == 0 {
        return Err(ParseError::MissingWorkoutName);
    }
    let first = skip_whitespace(&chars, lines[0]);
    let name = match strip_prefix_span(&chars, first, "Workout ") {
        Some(name) => name,
        None => {
            return Err(ParseError::MissingWorkoutName);
        },
    };
    let mut sections: Vec<WorkoutSet<'a>> = Vec::new();
    let mut l: usize = 1;
    proof {
        match sections_from(ls, 1) {
            Ok(all) => {
                assert(sections_model(sections@) + all =~= all);
            },
            Err(_) => {},
        }
    }
    while l < lines.len()
        invariant
            chars@ == source@,
            text == chars@,
            ls == spans_of(lines@, text),
            1 <= l <= lines.len(),
            ls == content_lines(source@),
            strip_prefix(trim_start(ls[0]), "Workout "@) is Some,
            forall|i: int| 0 <= i < lines.len() ==> (#[trigger] lines[i]).within(chars@),
            sections_from(ls, 1) == sections_then(
                sections_model(sections@),
                sections_from(ls, l as int),
            ),
        decreases lines.len() - l,
    {
        let ghost before = sections_model(sections@);
        match section_from(source, &chars, &lines, l) {
            Ok((set, next)) => {
                sections.push(set);
                proof {
                    assert(sections_model(sections@) =~= before + seq![set@]);
                    match sections_from(ls, next as int) {
                        Ok(more) => {
                            assert(sections_model(sections@) + more =~= before + (seq![set@]
                                + more));
                        },
                        Err(_) => {},
                    }
                }
                l = next;
            },
            Err(e) => {
                return Err(e);
            },
        }
    }
    proof {
        assert(sections_model(sections@) + Seq::<SetModel>::empty() =~= sections_model(
            sections@,
        ));
    }
    Ok(Workout { sections, name: source.substring_char(name.start, name.end) })
}

} // verus!
