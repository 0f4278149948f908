//! The script of a workout: what is said, sounded and waited for when it
//! is played, and in which order.
//!
//! The script is a sequence of [`Action`]s. [`script`] says what that
//! sequence is for a workout and a position to start from; [`verdict`] says
//! how playback ends.

use crate::model::{
    elements_model, BeepLevel, ElementModel, ExcerciseAmout, SetModel, WorkoutModel,
    WorkoutSetElement,
};
use vstd::prelude::*;

verus! {

/// The seconds of silence between the two cues that open a pass and its
/// first element.
pub const PRE_SECTION_WAIT: u32 = 2;

/// The seconds before the end of a rest at which its end is announced.
pub const REST_END_WARNING: u32 = 5;

/// The seconds between the last element and the closing cues.
pub const CLOSING_WAIT: u32 = 2;

/// Why playback stops before the workout is over.
#[derive(Debug, Clone, Copy, PartialEq, Eq, Hash, Structural)]
pub enum PlaybackError {
    /// The position to start from does not lie in the workout.
    StartPositionOutOfBounds,
}

/// Something to tell the operator. Sections and elements are given by their
/// place in the workout, counted from zero.
#[derive(Debug, Clone, Copy, PartialEq, Eq, Structural)]
pub enum Notice {
    /// Playback begins.
    Beginning,
    /// Playback begins at this position, not at the start.
    ResumingAt { section: usize, repetition: u16, exercise: u16 },
    /// A section begins.
    SectionStarted { section: usize },
    /// A pass through a section begins that is not its first.
    RepetitionStarted { section: usize, repetition: u16 },
    /// An element begins.
    ElementStarted { section: usize, element: usize },
    /// Half of a timed exercise is over.
    Midpoint,
    /// The exercise that follows the rest that has begun.
    NextUp { section: usize, element: usize },
    /// The rest between two passes through a section begins.
    SetRest { section: usize },
    /// A rest ends in this many seconds.
    RestEnding { seconds_left: u32 },
    /// The workout is over.
    Completed,
}

/// One step of playback, for the caller to perform.
#[derive(Debug, Clone, Copy, PartialEq, Eq, Structural)]
pub enum Action {
    /// Tell the operator.
    Say(Notice),
    /// Sound a cue.
    Beep(BeepLevel),
    /// Let this much time pass.
    Sleep { millis: u64 },
    /// Wait until the operator confirms.
    AwaitConfirmation,
}

/// A rest of `total` seconds. A rest longer than the warning window is
/// announced, in words and by a cue, when the window is left of it; a
/// shorter one passes in silence.
pub open spec fn rest_script(total: u32) -> Seq<Action> {
    if total > REST_END_WARNING {
        seq![
            Action::Sleep { millis: ((total - REST_END_WARNING) * 1000) as u64 },
            Action::Say(Notice::RestEnding { seconds_left: REST_END_WARNING }),
            Action::Beep(BeepLevel::Mid),
            Action::Sleep { millis: (REST_END_WARNING * 1000) as u64 },
        ]
    } else {
        seq![Action::Sleep { millis: (total * 1000) as u64 }]
    }
}

/// A timed exercise: a cue at its start and at its end, and between them
/// its duration, with a notice and a cue in the middle where it asks for
/// one.
pub open spec fn timed_script(duration: u32, midbeep: bool) -> Seq<Action> {
    if midbeep {
        seq![
            Action::Beep(BeepLevel::High),
            Action::Sleep { millis: (duration * 500) as u64 },
            Action::Say(Notice::Midpoint),
            Action::Beep(BeepLevel::Mid),
            Action::Sleep { millis: (duration * 500) as u64 },
            Action::Beep(BeepLevel::Low),
        ]
    } else {
        seq![
            Action::Beep(BeepLevel::High),
            Action::Sleep { millis: (duration * 1000) as u64 },
            Action::Beep(BeepLevel::Low),
        ]
    }
}

/// The notice of the exercise that follows element `element`, where an
/// exercise follows it.
pub open spec fn next_up_script(parts: Seq<ElementModel>, section: int, element: int) -> Seq<
    Action,
> {
    if element + 1 < parts.len() && parts[element + 1] is Exercise {
        seq![
            Action::Say(
                Notice::NextUp { section: section as usize, element: (element + 1) as usize },
            ),
        ]
    } else {
        Seq::empty()
    }
}

/// Element `element` of a section: its notice, and then the exercise or
/// the rest that it is.
pub open spec fn element_script(parts: Seq<ElementModel>, section: int, element: int) -> Seq<
    Action,
>
    recommends
        0 <= element < parts.len(),
{
    seq![
        Action::Say(
            Notice::ElementStarted { section: section as usize, element: element as usize },
        ),
    ] + match parts[element] {
        ElementModel::Exercise { amount: ExcerciseAmout::Time { duration, midbeep }, .. } => {
            timed_script(duration, midbeep)
        },
        ElementModel::Exercise { amount: ExcerciseAmout::Reps(_), .. } => {
            seq![Action::Beep(BeepLevel::High), Action::AwaitConfirmation]
        },
        ElementModel::Rest { duration } => {
            next_up_script(parts, section, element) + rest_script(duration)
        },
    }
}

/// The elements of a section from element `from` on, one after another.
pub open spec fn elements_script(parts: Seq<ElementModel>, section: int, from: int) -> Seq<Action>
    decreases parts.len() - from,
{
    if from < 0 || from >= parts.len() {
        Seq::empty()
    } else {
        element_script(parts, section, from) + elements_script(parts, section, from + 1)
    }
}

/// What opens a pass: its number where it is not the first, two cues, and
/// a short silence.
pub open spec fn repetition_start(section: int, repetition: int) -> Seq<Action> {
    let count = if repetition > 0 {
        seq![
            Action::Say(
                Notice::RepetitionStarted {
                    section: section as usize,
                    repetition: repetition as u16,
                },
            ),
        ]
    } else {
        Seq::empty()
    };
    count + seq![
        Action::Beep(BeepLevel::Mid),
        Action::Beep(BeepLevel::Mid),
        Action::Sleep { millis: (PRE_SECTION_WAIT * 1000) as u64 },
    ]
}

/// The seconds of a rest between passes that are left when the silence that
/// opens the next pass is taken off.
pub open spec fn set_rest_left(rest: u32) -> u32 {
    if rest > PRE_SECTION_WAIT {
        (rest - PRE_SECTION_WAIT) as u32
    } else {
        0
    }
}

/// What closes a pass: the rest of the section, where it has one and
/// another pass follows.
pub open spec fn repetition_end(set: SetModel, section: int, repetition: int) -> Seq<Action> {
    match set.set_rest {
        Some(rest) => if repetition + 1 < set.reps {
            seq![Action::Say(Notice::SetRest { section: section as usize })] + rest_script(
                set_rest_left(rest),
            )
        } else {
            Seq::empty()
        },
        None => Seq::empty(),
    }
}

/// One pass through a section, from element `first_element` on.
pub open spec fn repetition_script(
    set: SetModel,
    section: int,
    repetition: int,
    first_element: int,
) -> Seq<Action> {
    repetition_start(section, repetition) + elements_script(set.parts, section, first_element)
        + repetition_end(set, section, repetition)
}

/// The passes through a section from pass `from` on. The first of them
/// begins at element `first_element`, the others at the section's first.
pub open spec fn repetitions_script(
    set: SetModel,
    section: int,
    from: int,
    first_element: int,
) -> Seq<Action>
    decreases set.reps - from,
{
    if from < 0 || from >= set.reps {
        Seq::empty()
    } else {
        repetition_script(set, section, from, first_element) + repetitions_script(
            set,
            section,
            from + 1,
            0,
        )
    }
}

/// A section: its notice, and its passes from pass `first_repetition` on.
pub open spec fn section_script(
    set: SetModel,
    section: int,
    first_repetition: int,
    first_element: int,
) -> Seq<Action> {
    seq![Action::Say(Notice::SectionStarted { section: section as usize })] + repetitions_script(
        set,
        section,
        first_repetition,
        first_element,
    )
}

/// The sections from section `from` on, each from its beginning.
pub open spec fn sections_script(sections: Seq<SetModel>, from: int) -> Seq<Action>
    decreases sections.len() - from,
{
    if from < 0 || from >= sections.len() {
        Seq::empty()
    } else {
        section_script(sections[from], from, 0, 0) + sections_script(sections, from + 1)
    }
}

/// What opens playback: its notice, and three cues from high to low.
pub open spec fn opening_script() -> Seq<Action> {
    seq![
        Action::Say(Notice::Beginning),
        Action::Beep(BeepLevel::High),
        Action::Beep(BeepLevel::Mid),
        Action::Beep(BeepLevel::Low),
    ]
}

/// What closes playback: its notice, a short silence, and three cues from
/// low to high.
pub open spec fn closing_script() -> Seq<Action> {
    seq![
        Action::Say(Notice::Completed),
        Action::Sleep { millis: (CLOSING_WAIT * 1000) as u64 },
        Action::Beep(BeepLevel::Low),
        Action::Beep(BeepLevel::Mid),
        Action::Beep(BeepLevel::High),
    ]
}

/// The number of exercises among `parts`.
pub open spec fn exercise_count(parts: Seq<ElementModel>) -> nat
    decreases parts.len(),
{
    if parts.len() == 0 {
        0
    } else {
        exercise_count(parts.drop_last()) + if parts.last() is Exercise {
            1nat
        } else {
            0nat
        }
    }
}

/// Whether element `index` of `parts` is its exercise number `number`,
/// counted from zero: it is an exercise, and `number` exercises stand
/// before it.
pub open spec fn is_exercise_number(parts: Seq<ElementModel>, number: nat, index: int) -> bool {
    &&& 0 <= index < parts.len()
    &&& parts[index] is Exercise
    &&& exercise_count(parts.take(index)) == number
}

/// The place among `parts` of its exercise number `number`.
pub open spec fn exercise_index(parts: Seq<ElementModel>, number: nat) -> int
    recommends
        number < exercise_count(parts),
{
    choose|index: int| is_exercise_number(parts, number, index)
}

/// Whether playback starts at the beginning: the position of a start is
/// section 0, pass 0, exercise 0.
pub open spec fn from_beginning(start: (u16, u16, u16)) -> bool {
    start.0 == 0 && start.1 == 0 && start.2 == 0
}

/// Whether the position `start` lies in `workout`: its section among the
/// sections, its pass among that section's passes, its exercise among that
/// section's exercises.
pub open spec fn start_in_bounds(workout: WorkoutModel, start: (u16, u16, u16)) -> bool {
    &&& start.0 < workout.sections.len()
    &&& start.1 < workout.sections[start.0 as int].reps
    &&& start.2 < exercise_count(workout.sections[start.0 as int].parts)
}

/// How playback of `workout` from `start` ends. A start at the beginning
/// is taken as it is; any other position must lie in the workout.
pub open spec fn verdict(workout: WorkoutModel, start: (u16, u16, u16)) -> Result<
    (),
    PlaybackError,
> {
    if from_beginning(start) || start_in_bounds(workout, start) {
        Ok(())
    } else {
        Err(PlaybackError::StartPositionOutOfBounds)
    }
}

/// Playback of `workout` from its beginning.
pub open spec fn full_script(workout: WorkoutModel) -> Seq<Action> {
    opening_script() + sections_script(workout.sections, 0) + closing_script()
}

/// Playback of `workout` from the position `start`, which lies in it: the
/// section of the position from its pass and exercise on, and every
/// section behind it from its beginning.
pub open spec fn resumed_script(workout: WorkoutModel, start: (u16, u16, u16)) -> Seq<Action>
    recommends
        start_in_bounds(workout, start),
{
    let set = workout.sections[start.0 as int];
    opening_script() + seq![
        Action::Say(
            Notice::ResumingAt {
                section: start.0 as usize,
                repetition: start.1,
                exercise: start.2,
            },
        ),
    ] + section_script(
        set,
        start.0 as int,
        start.1 as int,
        exercise_index(set.parts, start.2 as nat),
    ) + sections_script(workout.sections, start.0 + 1) + closing_script()
}

/// The actions that playback of `workout` from `start` consists of, up to
/// its end or to its failure.
pub open spec fn script(workout: WorkoutModel, start: (u16, u16, u16)) -> Seq<Action> {
    if from_beginning(start) {
        full_script(workout)
    } else if start_in_bounds(workout, start) {
        resumed_script(workout, start)
    } else {
        opening_script()
    }
}

/// The milliseconds that `action` takes where it is a sleep.
pub open spec fn sleep_of(action: Action) -> nat {
    match action {
        Action::Sleep { millis } => millis as nat,
        _ => 0,
    }
}

/// One where `action` is a cue of `level`, else zero.
pub open spec fn beep_of(action: Action, level: BeepLevel) -> nat {
    if action == Action::Beep(level) {
        1
    } else {
        0
    }
}

/// The milliseconds that the sleeps among `actions` take together.
pub open spec fn sleep_millis(actions: Seq<Action>) -> nat
    decreases actions.len(),
{
    if actions.len() == 0 {
        0
    } else {
        sleep_millis(actions.drop_last()) + sleep_of(actions.last())
    }
}

/// The number of cues of `level` among `actions`.
pub open spec fn beep_count(actions: Seq<Action>, level: BeepLevel) -> nat
    decreases actions.len(),
{
    if actions.len() == 0 {
        0
    } else {
        beep_count(actions.drop_last(), level) + beep_of(actions.last(), level)
    }
}

/// The sleeps and the cues of a single action are its own.
pub proof fn lemma_tally_of_one(actions: Seq<Action>, level: BeepLevel)
    requires
        actions.len() == 1,
    ensures
        sleep_millis(actions) == sleep_of(actions[0]),
        beep_count(actions, level) == beep_of(actions[0], level),
{
    reveal_with_fuel(sleep_millis, 2);
    reveal_with_fuel(beep_count, 2);
    assert(actions.drop_last() =~= Seq::<Action>::empty());
}

/// The sleeps and the cues of four actions are those of each, taken
/// together.
pub proof fn lemma_tally_of_four(actions: Seq<Action>, level: BeepLevel)
    requires
        actions.len() == 4,
    ensures
        sleep_millis(actions) == sleep_of(actions[0]) + sleep_of(actions[1]) + sleep_of(
            actions[2],
        ) + sleep_of(actions[3]),
        beep_count(actions, level) == beep_of(actions[0], level) + beep_of(actions[1], level)
            + beep_of(actions[2], level) + beep_of(actions[3], level),
{
    let three = actions.drop_last();
    let two = three.drop_last();
    let one = two.drop_last();
    lemma_tally_of_one(one, level);
    assert(one[0] == actions[0]);
    assert(two.last() == actions[1]);
    assert(three.last() == actions[2]);
    assert(sleep_millis(two) == sleep_millis(one) + sleep_of(two.last()));
    assert(sleep_millis(three) == sleep_millis(two) + sleep_of(three.last()));
    assert(sleep_millis(actions) == sleep_millis(three) + sleep_of(actions.last()));
    assert(beep_count(two, level) == beep_count(one, level) + beep_of(two.last(), level));
    assert(beep_count(three, level) == beep_count(two, level) + beep_of(three.last(), level));
    assert(beep_count(actions, level) == beep_count(three, level) + beep_of(
        actions.last(),
        level,
    ));
}

/// The exercises among a prefix of `parts` are no more than those among
/// the whole.
pub proof fn lemma_exercise_count_prefix(parts: Seq<ElementModel>, n: int)
    requires
        0 <= n <= parts.len(),
    ensures
        exercise_count(parts.take(n)) <= exercise_count(parts),
    decreases parts.len() - n,
{
    if n == parts.len() {
        assert(parts.take(n) =~= parts);
    } else {
        lemma_exercise_count_prefix(parts, n + 1);
        assert(parts.take(n + 1).drop_last() =~= parts.take(n));
    }
}

/// An exercise of `parts` has one place: the element that is exercise
/// number `number` is the one that [`exercise_index`] gives.
pub proof fn lemma_exercise_index(parts: Seq<ElementModel>, number: nat, index: int)
    requires
        is_exercise_number(parts, number, index),
    ensures
        exercise_index(parts, number) == index,
        number < exercise_count(parts),
{
    let other = exercise_index(parts, number);
    assert(is_exercise_number(parts, number, other));
    assert(parts.take(index + 1).drop_last() =~= parts.take(index));
    lemma_exercise_count_prefix(parts, index + 1);
    if other < index {
        assert(parts.take(other + 1).drop_last() =~= parts.take(other));
        assert(parts.take(index).take(other + 1) =~= parts.take(other + 1));
        lemma_exercise_count_prefix(parts.take(index), other + 1);
    } else if index < other {
        assert(parts.take(other).take(index + 1) =~= parts.take(index + 1));
        lemma_exercise_count_prefix(parts.take(other), index + 1);
    }
}

/// Where `parts` holds more than `number` exercises, one of its elements
/// is exercise number `number`, and [`exercise_index`] gives its place.
pub proof fn lemma_exercise_exists(parts: Seq<ElementModel>, number: nat)
    requires
        number < exercise_count(parts),
    ensures
        is_exercise_number(parts, number, exercise_index(parts, number)),
    decreases parts.len(),
{
    let shorter = parts.drop_last();
    let last = parts.len() - 1;
    if number < exercise_count(shorter) {
        lemma_exercise_exists(shorter, number);
        let index = exercise_index(shorter, number);
        assert(shorter.take(index) =~= parts.take(index));
        assert(is_exercise_number(parts, number, index));
    } else {
        assert(parts.take(last) =~= shorter);
        assert(is_exercise_number(parts, number, last));
    }
}

/// A start at the beginning always succeeds and plays the whole workout,
/// whatever the workout holds.
pub proof fn lemma_start_at_the_beginning(workout: WorkoutModel)
    ensures
        verdict(workout, (0, 0, 0)) is Ok,
        script(workout, (0, 0, 0)) == full_script(workout),
{
}

/// A start at a position of its own that does not lie in the workout
/// fails, when playback has been opened and before anything else happens.
/// A position behind the last exercise of its section is such a position.
pub proof fn lemma_start_out_of_bounds(workout: WorkoutModel, start: (u16, u16, u16))
    requires
        !from_beginning(start),
        start.0 >= workout.sections.len() || start.1 >= workout.sections[start.0 as int].reps
            || start.2 >= exercise_count(workout.sections[start.0 as int].parts),
    ensures
        verdict(workout, start) == Err::<(), _>(PlaybackError::StartPositionOutOfBounds),
        script(workout, start) == opening_script(),
{
}

/// A start at a position that lies in the workout succeeds. Playback is
/// opened and the position announced. The first pass that is played is
/// the pass of the position, from the exercise of the position on; what
/// stands before that exercise is left out of this pass only. Every later
/// pass and every later section is played from its beginning.
pub proof fn lemma_start_in_bounds(workout: WorkoutModel, start: (u16, u16, u16))
    requires
        !from_beginning(start),
        start_in_bounds(workout, start),
    ensures
        verdict(workout, start) is Ok,
        ({
            let set = workout.sections[start.0 as int];
            let first = exercise_index(set.parts, start.2 as nat);
            &&& 0 <= first < set.parts.len()
            &&& set.parts[first] is Exercise
            &&& exercise_count(set.parts.take(first)) == start.2
            &&& script(workout, start) == opening_script() + seq![
                Action::Say(
                    Notice::ResumingAt {
                        section: start.0 as usize,
                        repetition: start.1,
                        exercise: start.2,
                    },
                ),
                Action::Say(Notice::SectionStarted { section: start.0 as usize }),
            ] + repetition_script(set, start.0 as int, start.1 as int, first) + repetitions_script(
                set,
                start.0 as int,
                start.1 + 1,
                0,
            ) + sections_script(workout.sections, start.0 + 1) + closing_script()
        }),
{
    let set = workout.sections[start.0 as int];
    let first = exercise_index(set.parts, start.2 as nat);
    lemma_exercise_exists(set.parts, start.2 as nat);
    let section = start.0 as int;
    let pass = start.1 as int;
    let announced = seq![
        Action::Say(
            Notice::ResumingAt {
                section: start.0 as usize,
                repetition: start.1,
                exercise: start.2,
            },
        ),
    ];
    let entered = seq![Action::Say(Notice::SectionStarted { section: start.0 as usize })];
    let this_pass = repetition_script(set, section, pass, first);
    let later = repetitions_script(set, section, pass + 1, 0);
    let behind = sections_script(workout.sections, section + 1);
    assert(repetitions_script(set, section, pass, first) == this_pass + later);
    assert(section_script(set, section, pass, first) == entered + (this_pass + later));
    assert(opening_script() + announced + (entered + (this_pass + later)) + behind
        + closing_script() =~= opening_script() + seq![announced[0], entered[0]] + this_pass
        + later + behind + closing_script());
}

/// Playback always begins with the opening notice and cues. Playback that
/// succeeds ends with the closing notice and cues; playback that fails
/// ends when it has been opened.
pub proof fn lemma_script_opens_and_closes(workout: WorkoutModel, start: (u16, u16, u16))
    ensures
        opening_script().is_prefix_of(script(workout, start)),
        verdict(workout, start) is Ok ==> closing_script().is_suffix_of(script(workout, start)),
        verdict(workout, start) is Err ==> script(workout, start) == opening_script(),
{
    let whole = script(workout, start);
    let opening = opening_script();
    let closing = closing_script();
    if from_beginning(start) {
        let middle = sections_script(workout.sections, 0);
        assert(whole == opening + middle + closing);
        assert(whole.subrange(0, opening.len() as int) =~= opening);
        assert(whole.subrange(whole.len() - closing.len(), whole.len() as int) =~= closing);
    } else if start_in_bounds(workout, start) {
        let set = workout.sections[start.0 as int];
        let middle = seq![
            Action::Say(
                Notice::ResumingAt {
                    section: start.0 as usize,
                    repetition: start.1,
                    exercise: start.2,
                },
            ),
        ] + section_script(
            set,
            start.0 as int,
            start.1 as int,
            exercise_index(set.parts, start.2 as nat),
        ) + sections_script(workout.sections, start.0 + 1);
        assert(whole =~= opening + middle + closing);
        assert(whole.subrange(0, opening.len() as int) =~= opening);
        assert(whole.subrange(whole.len() - closing.len(), whole.len() as int) =~= closing);
    } else {
        assert(whole.subrange(0, opening.len() as int) =~= opening);
    }
}

/// A rest takes the time that it was given, with or without its warning.
pub proof fn lemma_rest_takes_its_time(total: u32)
    ensures
        sleep_millis(rest_script(total)) == total * 1000,
{
    if total > REST_END_WARNING {
        lemma_tally_of_four(rest_script(total), BeepLevel::Mid);
    } else {
        lemma_tally_of_one(rest_script(total), BeepLevel::Mid);
    }
}

/// A rest that is no longer than the warning window is one sleep and no
/// cue. A longer rest sounds one cue, of the middle level, when the window
/// is left of it.
pub proof fn lemma_rest_warns_once(total: u32)
    ensures
        total <= REST_END_WARNING ==> rest_script(total) == seq![
            Action::Sleep { millis: (total * 1000) as u64 },
        ],
        total <= REST_END_WARNING ==> forall|level: BeepLevel|
            beep_count(rest_script(total), level) == 0,
        total > REST_END_WARNING ==> beep_count(rest_script(total), BeepLevel::Mid) == 1,
        total > REST_END_WARNING ==> rest_script(total)[2] == Action::Beep(BeepLevel::Mid),
        total > REST_END_WARNING ==> sleep_millis(rest_script(total).skip(3)) == REST_END_WARNING
            * 1000,
{
    let rest = rest_script(total);
    if total > REST_END_WARNING {
        lemma_tally_of_four(rest, BeepLevel::Mid);
        lemma_tally_of_one(rest.skip(3), BeepLevel::Mid);
    } else {
        assert forall|level: BeepLevel| beep_count(rest, level) == 0 by {
            lemma_tally_of_one(rest, level);
        }
    }
}

/// The cues of a rest of `total` seconds.
pub fn rest_with_warning(total: u32) -> (actions: Vec<Action>)
    ensures
        actions@ == rest_script(total),
{
    let mut actions: Vec<Action> = Vec::new();
    push_rest(&mut actions, total);
    proof {
        assert(Seq::<Action>::empty() + rest_script(total) =~= rest_script(total));
    }
    actions
}

/// Adds the cues of a rest of `total` seconds to `actions`.
pub(crate) fn push_rest(actions: &mut Vec<Action>, total: u32)
    ensures
        final(actions)@ == old(actions)@ + rest_script(total),
{
    if total > REST_END_WARNING {
        actions.push(Action::Sleep { millis: (total - REST_END_WARNING) as u64 * 1000 });
        actions.push(Action::Say(Notice::RestEnding { seconds_left: REST_END_WARNING }));
        actions.push(Action::Beep(BeepLevel::Mid));
        actions.push(Action::Sleep { millis: REST_END_WARNING as u64 * 1000 });
    } else {
        actions.push(Action::Sleep { millis: total as u64 * 1000 });
    }
    proof {
        assert(actions@ =~= old(actions)@ + rest_script(total));
    }
}

/// Adds the cues of a timed exercise to `actions`.
fn push_timed(actions: &mut Vec<Action>, duration: u32, midbeep: bool)
    ensures
        final(actions)@ == old(actions)@ + timed_script(duration, midbeep),
{
    actions.push(Action::Beep(BeepLevel::High));
    if midbeep {
        actions.push(Action::Sleep { millis: duration as u64 * 500 });
        actions.push(Action::Say(Notice::Midpoint));
        actions.push(Action::Beep(BeepLevel::Mid));
        actions.push(Action::Sleep { millis: duration as u64 * 500 });
    } else {
        actions.push(Action::Sleep { millis: duration as u64 * 1000 });
    }
    actions.push(Action::Beep(BeepLevel::Low));
    proof {
        assert(actions@ =~= old(actions)@ + timed_script(duration, midbeep));
    }
}

/// The cues of element `element` of a section.
pub(crate) fn element_cues(parts: &Vec<WorkoutSetElement>, section: usize, element: usize) -> (actions:
    Vec<Action>)
    requires
        element < parts.len(),
    ensures
        actions@ == element_script(elements_model(parts@), section as int, element as int),
{
    let ghost model = elements_model(parts@);
    let mut actions: Vec<Action> = Vec::new();
    actions.push(Action::Say(Notice::ElementStarted { section, element }));
    let ghost head = actions@;
    match &parts[element] {
        WorkoutSetElement::Excercise { amount, .. } => match amount {
            ExcerciseAmout::Time { duration, midbeep } => {
                push_timed(&mut actions, *duration, *midbeep);
            },
            ExcerciseAmout::Reps(_) => {
                actions.push(Action::Beep(BeepLevel::High));
                actions.push(Action::AwaitConfirmation);
                proof {
                    assert(actions@ =~= head + seq![
                        Action::Beep(BeepLevel::High),
                        Action::AwaitConfirmation,
                    ]);
                }
            },
        },
        WorkoutSetElement::Rest { duration } => {
            if element + 1 < parts.len() && parts[element + 1].is_exercise() {
                actions.push(Action::Say(Notice::NextUp { section, element: element + 1 }));
            }
            let ghost announced = actions@;
            proof {
                assert(announced =~= head + next_up_script(model, section as int, element as int));
            }
            push_rest(&mut actions, *duration);
            proof {
                assert(actions@ =~= head + (next_up_script(model, section as int, element as int)
                    + rest_script(*duration)));
            }
        },
    }
    actions
}

/// The place among `parts` of its exercise number `number`, counted from
/// zero, or `None` where `parts` holds no more than `number` exercises.
pub fn find_exercise(parts: &Vec<WorkoutSetElement>, number: u16) -> (place: Option<usize>)
    ensures
        match place {
            Some(index) => is_exercise_number(elements_model(parts@), number as nat, index as int)
                && index == exercise_index(elements_model(parts@), number as nat) && number
                < exercise_count(elements_model(parts@)),
            None => exercise_count(elements_model(parts@)) <= number,
        },
{
    let ghost model = elements_model(parts@);
    let mut seen: u16 = 0;
    let mut i: usize = 0;
    while i < parts.len()
        invariant
            model == elements_model(parts@),
            i <= parts.len(),
            seen == exercise_count(model.take(i as int)),
            seen <= number,
        decreases parts.len() - i,
    {
        proof {
            assert(model.take(i + 1).drop_last() =~= model.take(i as int));
        }
        if parts[i].is_exercise() {
            if seen == number {
                proof {
                    lemma_exercise_index(model, number as nat, i as int);
                }
                return Some(i);
            }
            seen += 1;
        }
        i += 1;
    }
    proof {
        assert(model.take(i as int) =~= model);
    }
    None
}

} // verus!
