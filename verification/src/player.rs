//! The player: a state machine that hands out the script of a workout one
//! action at a time.
//!
//! The caller performs each action (prints, beeps, sleeps, waits for the
//! operator) and asks for the next, until the player reports the end.

use crate::model::{BeepLevel, Workout, WorkoutModel};
use crate::script::{
    closing_script, element_cues, element_script, elements_script, exercise_index, find_exercise,
    from_beginning, opening_script, push_rest, repetition_end, repetition_start,
    repetitions_script, resumed_script, script, section_script, sections_script,
    start_in_bounds, verdict, Action, Notice, PlaybackError, CLOSING_WAIT, PRE_SECTION_WAIT,
};
use vstd::prelude::*;

verus! {

/// Where playback stands between two batches of actions.
#[derive(Clone, Copy)]
enum Stage {
    /// Nothing has happened yet.
    Opening,
    /// Playback has been opened and is to start at a position of its own.
    Resume,
    /// Before a section, or behind the last.
    Section { section: usize, repetition: u16, element: usize },
    /// Before a pass through a section, or behind its last.
    Repetition { section: usize, repetition: u16, element: usize },
    /// Before an element of a pass, or behind its last.
    Element { section: usize, repetition: u16, element: usize },
    /// The workout is over.
    Finished,
    /// Playback could not start where it was to start.
    Failed,
}

/// What one call of [`Player::next`] hands out.
#[derive(Debug, Clone, Copy, PartialEq, Eq, Structural)]
pub enum Step {
    /// The next action to perform.
    Perform(Action),
    /// The workout is over: nothing is left to perform.
    Finished,
    /// Playback stops here, for this reason.
    Failed(PlaybackError),
}

/// The actions that follow when playback stands at `stage`.
spec fn stage_script(stage: Stage, workout: WorkoutModel, start: (u16, u16, u16)) -> Seq<Action> {
    match stage {
        Stage::Opening => script(workout, start),
        Stage::Resume => if start_in_bounds(workout, start) {
            let set = workout.sections[start.0 as int];
            seq![
                Action::Say(
                    Notice::ResumingAt {
                        section: start.0 as usize,
                        repetition: start.1,
                        exercise: start.2,
                    },
                ),
            ] + section_script(
                set,
                start.0 as int,
                start.1 as int,
                exercise_index(set.parts, start.2 as nat),
            ) + sections_script(workout.sections, start.0 + 1) + closing_script()
        } else {
            Seq::empty()
        },
        Stage::Section { section, repetition, element } => if section < workout.sections.len() {
            section_script(
                workout.sections[section as int],
                section as int,
                repetition as int,
                element as int,
            ) + sections_script(workout.sections, section + 1) + closing_script()
        } else {
            closing_script()
        },
        Stage::Repetition { section, repetition, element } => repetitions_script(
            workout.sections[section as int],
            section as int,
            repetition as int,
            element as int,
        ) + sections_script(workout.sections, section + 1) + closing_script(),
        Stage::Element { section, repetition, element } => {
            let set = workout.sections[section as int];
            elements_script(set.parts, section as int, element as int) + repetition_end(
                set,
                section as int,
                repetition as int,
            ) + repetitions_script(set, section as int, repetition + 1, 0) + sections_script(
                workout.sections,
                section + 1,
            ) + closing_script()
        },
        Stage::Finished => Seq::empty(),
        Stage::Failed => Seq::empty(),
    }
}

/// Whether `stage` is a place in `workout`.
spec fn stage_fits(stage: Stage, workout: WorkoutModel, start: (u16, u16, u16)) -> bool {
    match stage {
        Stage::Opening => true,
        Stage::Resume => !from_beginning(start),
        Stage::Section { section, repetition, element } => {
            &&& section <= workout.sections.len()
            &&& section < workout.sections.len() ==> {
                &&& repetition <= workout.sections[section as int].reps
                &&& element <= workout.sections[section as int].parts.len()
            }
        },
        Stage::Repetition { section, repetition, element } => {
            &&& section < workout.sections.len()
            &&& repetition <= workout.sections[section as int].reps
            &&& element <= workout.sections[section as int].parts.len()
        },
        Stage::Element { section, repetition, element } => {
            &&& section < workout.sections.len()
            &&& repetition < workout.sections[section as int].reps
            &&& element <= workout.sections[section as int].parts.len()
        },
        Stage::Finished => true,
        Stage::Failed => true,
    }
}

/// How playback ends that stands at `stage`.
spec fn stage_ending(stage: Stage, workout: WorkoutModel, start: (u16, u16, u16)) -> Result<
    (),
    PlaybackError,
> {
    match stage {
        Stage::Opening => verdict(workout, start),
        Stage::Resume => verdict(workout, start),
        Stage::Failed => Err(PlaybackError::StartPositionOutOfBounds),
        _ => Ok(()),
    }
}

/// How far `stage` is from the end of playback: each move from a stage to
/// the next brings these three numbers down, the first before the second
/// before the third.
spec fn stage_rank(stage: Stage, workout: WorkoutModel) -> (int, int, int) {
    let sections = workout.sections;
    match stage {
        Stage::Opening => (sections.len() as int + 3, 0, 0),
        Stage::Resume => (sections.len() as int + 2, 0, 0),
        Stage::Section { section, .. } => if section < sections.len() {
            (sections.len() - section + 1, sections[section as int].reps + 2, 0)
        } else {
            (1, 0, 0)
        },
        Stage::Repetition { section, repetition, .. } => (
            sections.len() - section + 1,
            sections[section as int].reps - repetition + 1,
            sections[section as int].parts.len() as int + 2,
        ),
        Stage::Element { section, repetition, element } => (
            sections.len() - section + 1,
            sections[section as int].reps - repetition + 1,
            sections[section as int].parts.len() - element + 1,
        ),
        Stage::Finished => (0, 0, 0),
        Stage::Failed => (0, 0, 0),
    }
}

/// Whether the rank `after` lies below the rank `before`.
spec fn rank_below(after: (int, int, int), before: (int, int, int)) -> bool {
    &&& after.0 >= 0
    &&& after.1 >= 0
    &&& after.2 >= 0
    &&& {
        ||| after.0 < before.0
        ||| after.0 == before.0 && after.1 < before.1
        ||| after.0 == before.0 && after.1 == before.1 && after.2 < before.2
    }
}

/// Whether playback moves from `stage` to `next` by way of the actions
/// `batch`: what follows `stage` is `batch` and then what follows `next`.
spec fn moves(
    stage: Stage,
    batch: Seq<Action>,
    next: Stage,
    workout: WorkoutModel,
    start: (u16, u16, u16),
) -> bool {
    &&& stage_script(stage, workout, start) == batch + stage_script(next, workout, start)
    &&& stage_fits(next, workout, start)
    &&& stage_ending(next, workout, start) == stage_ending(stage, workout, start)
    &&& rank_below(stage_rank(next, workout), stage_rank(stage, workout))
}

/// Playback from the beginning moves from its opening to the first
/// section.
proof fn lemma_open_from_beginning(workout: WorkoutModel, start: (u16, u16, u16))
    requires
        from_beginning(start),
    ensures
        moves(
            Stage::Opening,
            opening_script(),
            Stage::Section { section: 0, repetition: 0, element: 0 },
            workout,
            start,
        ),
{
    let next = Stage::Section { section: 0, repetition: 0, element: 0 };
    let sections = workout.sections;
    let tail = stage_script(next, workout, start);
    if 0 < sections.len() {
        assert(sections_script(sections, 0) == section_script(sections[0], 0, 0, 0)
            + sections_script(sections, 1));
        assert(sections_script(sections, 0) + closing_script() =~= tail);
    } else {
        assert(sections_script(sections, 0) + closing_script() =~= tail);
    }
    assert(opening_script() + sections_script(sections, 0) + closing_script() =~= opening_script()
        + (sections_script(sections, 0) + closing_script()));
}

/// Playback from a position of its own moves from its opening to the
/// search for that position.
proof fn lemma_open_to_resume(workout: WorkoutModel, start: (u16, u16, u16))
    requires
        !from_beginning(start),
    ensures
        moves(Stage::Opening, opening_script(), Stage::Resume, workout, start),
{
    let tail = stage_script(Stage::Resume, workout, start);
    if start_in_bounds(workout, start) {
        assert(resumed_script(workout, start) =~= opening_script() + tail);
    } else {
        assert(opening_script() =~= opening_script() + tail);
    }
}

/// A position that lies in the workout is announced, and playback moves to
/// its section.
proof fn lemma_resume_found(
    workout: WorkoutModel,
    start: (u16, u16, u16),
    batch: Seq<Action>,
    element: usize,
)
    requires
        !from_beginning(start),
        start_in_bounds(workout, start),
        element == exercise_index(workout.sections[start.0 as int].parts, start.2 as nat),
        element < workout.sections[start.0 as int].parts.len(),
        batch == seq![
            Action::Say(
                Notice::ResumingAt {
                    section: start.0 as usize,
                    repetition: start.1,
                    exercise: start.2,
                },
            ),
        ],
    ensures
        moves(
            Stage::Resume,
            batch,
            Stage::Section { section: start.0 as usize, repetition: start.1, element },
            workout,
            start,
        ),
{
    let next = Stage::Section { section: start.0 as usize, repetition: start.1, element };
    let set = workout.sections[start.0 as int];
    let tail = stage_script(next, workout, start);
    let played = section_script(set, start.0 as int, start.1 as int, element as int);
    let behind = sections_script(workout.sections, start.0 + 1);
    assert(tail == played + behind + closing_script());
    assert(stage_script(Stage::Resume, workout, start) == batch + played + behind
        + closing_script());
    assert(batch + played + behind + closing_script() =~= batch + (played + behind
        + closing_script()));
}

/// A position that does not lie in the workout ends playback.
proof fn lemma_resume_lost(workout: WorkoutModel, start: (u16, u16, u16))
    requires
        !from_beginning(start),
        !start_in_bounds(workout, start),
    ensures
        moves(Stage::Resume, Seq::empty(), Stage::Failed, workout, start),
{
    assert(Seq::<Action>::empty() =~= Seq::<Action>::empty() + Seq::<Action>::empty());
}

/// A section opens with its notice, and playback moves to its first pass.
proof fn lemma_section_opens(
    workout: WorkoutModel,
    start: (u16, u16, u16),
    section: usize,
    repetition: u16,
    element: usize,
)
    requires
        stage_fits(Stage::Section { section, repetition, element }, workout, start),
        section < workout.sections.len(),
    ensures
        moves(
            Stage::Section { section, repetition, element },
            seq![Action::Say(Notice::SectionStarted { section })],
            Stage::Repetition { section, repetition, element },
            workout,
            start,
        ),
{
    let set = workout.sections[section as int];
    let head = seq![Action::Say(Notice::SectionStarted { section })];
    let passes = repetitions_script(set, section as int, repetition as int, element as int);
    let behind = sections_script(workout.sections, section + 1);
    assert(section_script(set, section as int, repetition as int, element as int) == head
        + passes);
    assert(head + passes + behind + closing_script() =~= head + (passes + behind
        + closing_script()));
}

/// Behind the last section playback closes.
proof fn lemma_sections_over(
    workout: WorkoutModel,
    start: (u16, u16, u16),
    section: usize,
    repetition: u16,
    element: usize,
)
    requires
        section >= workout.sections.len(),
    ensures
        moves(
            Stage::Section { section, repetition, element },
            closing_script(),
            Stage::Finished,
            workout,
            start,
        ),
{
    assert(closing_script() =~= closing_script() + Seq::<Action>::empty());
}

/// A pass opens, and playback moves to its first element.
proof fn lemma_repetition_opens(
    workout: WorkoutModel,
    start: (u16, u16, u16),
    section: usize,
    repetition: u16,
    element: usize,
)
    requires
        stage_fits(Stage::Repetition { section, repetition, element }, workout, start),
        repetition < workout.sections[section as int].reps,
    ensures
        moves(
            Stage::Repetition { section, repetition, element },
            repetition_start(section as int, repetition as int),
            Stage::Element { section, repetition, element },
            workout,
            start,
        ),
{
    let set = workout.sections[section as int];
    let head = repetition_start(section as int, repetition as int);
    let elements = elements_script(set.parts, section as int, element as int);
    let end = repetition_end(set, section as int, repetition as int);
    let later = repetitions_script(set, section as int, repetition + 1, 0);
    let behind = sections_script(workout.sections, section + 1);
    assert(repetitions_script(set, section as int, repetition as int, element as int) == head
        + elements + end + later);
    assert(head + elements + end + later + behind + closing_script() =~= head + (elements + end
        + later + behind + closing_script()));
}

/// Behind the last pass of a section playback moves to the next section.
proof fn lemma_repetitions_over(
    workout: WorkoutModel,
    start: (u16, u16, u16),
    section: usize,
    repetition: u16,
    element: usize,
)
    requires
        stage_fits(Stage::Repetition { section, repetition, element }, workout, start),
        repetition >= workout.sections[section as int].reps,
        section < usize::MAX,
    ensures
        moves(
            Stage::Repetition { section, repetition, element },
            Seq::empty(),
            Stage::Section { section: (section + 1) as usize, repetition: 0, element: 0 },
            workout,
            start,
        ),
{
    let sections = workout.sections;
    let set = sections[section as int];
    let next = Stage::Section { section: (section + 1) as usize, repetition: 0, element: 0 };
    let tail = stage_script(next, workout, start);
    let behind = sections_script(sections, section + 1);
    assert(repetitions_script(set, section as int, repetition as int, element as int)
        =~= Seq::<Action>::empty());
    if section + 1 < sections.len() {
        assert(behind == section_script(sections[section + 1], section + 1, 0, 0)
            + sections_script(sections, section + 2));
        assert(behind + closing_script() =~= tail);
    } else {
        assert(behind + closing_script() =~= tail);
    }
    assert(Seq::<Action>::empty() + behind + closing_script() =~= Seq::<Action>::empty() + (behind
        + closing_script()));
}

/// An element is played, and playback moves to the next.
proof fn lemma_element_plays(
    workout: WorkoutModel,
    start: (u16, u16, u16),
    section: usize,
    repetition: u16,
    element: usize,
)
    requires
        stage_fits(Stage::Element { section, repetition, element }, workout, start),
        element < workout.sections[section as int].parts.len(),
        element < usize::MAX,
    ensures
        moves(
            Stage::Element { section, repetition, element },
            element_script(workout.sections[section as int].parts, section as int, element as int),
            Stage::Element { section, repetition, element: (element + 1) as usize },
            workout,
            start,
        ),
{
    let set = workout.sections[section as int];
    let head = element_script(set.parts, section as int, element as int);
    let others = elements_script(set.parts, section as int, element + 1);
    let end = repetition_end(set, section as int, repetition as int);
    let later = repetitions_script(set, section as int, repetition + 1, 0);
    let behind = sections_script(workout.sections, section + 1);
    assert(elements_script(set.parts, section as int, element as int) == head + others);
    assert(head + others + end + later + behind + closing_script() =~= head + (others + end
        + later + behind + closing_script()));
}

/// Behind the last element of a pass the pass closes, and playback moves
/// to the next pass.
proof fn lemma_elements_over(
    workout: WorkoutModel,
    start: (u16, u16, u16),
    section: usize,
    repetition: u16,
    element: usize,
)
    requires
        stage_fits(Stage::Element { section, repetition, element }, workout, start),
        element >= workout.sections[section as int].parts.len(),
    ensures
        moves(
            Stage::Element { section, repetition, element },
            repetition_end(workout.sections[section as int], section as int, repetition as int),
            Stage::Repetition { section, repetition: (repetition + 1) as u16, element: 0 },
            workout,
            start,
        ),
{
    let set = workout.sections[section as int];
    let end = repetition_end(set, section as int, repetition as int);
    let later = repetitions_script(set, section as int, repetition + 1, 0);
    let behind = sections_script(workout.sections, section + 1);
    assert(elements_script(set.parts, section as int, element as int) =~= Seq::<Action>::empty());
    assert(Seq::<Action>::empty() + end + later + behind + closing_script() =~= end + (later
        + behind + closing_script()));
}

/// Opens playback.
fn leave_opening(workout: &Workout, start: (u16, u16, u16)) -> (moved: (Vec<Action>, Stage))
    ensures
        moves(Stage::Opening, moved.0@, moved.1, workout@, start),
{
    let mut batch: Vec<Action> = Vec::new();
    batch.push(Action::Say(Notice::Beginning));
    batch.push(Action::Beep(BeepLevel::High));
    batch.push(Action::Beep(BeepLevel::Mid));
    batch.push(Action::Beep(BeepLevel::Low));
    assert(batch@ =~= opening_script());
    if start.0 == 0 && start.1 == 0 && start.2 == 0 {
        proof {
            lemma_open_from_beginning(workout@, start);
        }
        (batch, Stage::Section { section: 0, repetition: 0, element: 0 })
    } else {
        proof {
            lemma_open_to_resume(workout@, start);
        }
        (batch, Stage::Resume)
    }
}

/// Finds the position that playback is to start from, or fails.
fn leave_resume(workout: &Workout, start: (u16, u16, u16)) -> (moved: (Vec<Action>, Stage))
    requires
        !from_beginning(start),
    ensures
        moves(Stage::Resume, moved.0@, moved.1, workout@, start),
{
    let mut batch: Vec<Action> = Vec::new();
    let section: usize = start.0 as usize;
    let place = if section < workout.sections.len() && start.1 < workout.sections[section].reps {
        find_exercise(&workout.sections[section].parts, start.2)
    } else {
        None
    };
    match place {
        Some(element) => {
            batch.push(
                Action::Say(
                    Notice::ResumingAt { section, repetition: start.1, exercise: start.2 },
                ),
            );
            proof {
                assert(batch@ =~= seq![
                    Action::Say(
                        Notice::ResumingAt { section, repetition: start.1, exercise: start.2 },
                    ),
                ]);
                lemma_resume_found(workout@, start, batch@, element);
            }
            (batch, Stage::Section { section, repetition: start.1, element })
        },
        None => {
            proof {
                assert(batch@ =~= Seq::<Action>::empty());
                lemma_resume_lost(workout@, start);
            }
            (batch, Stage::Failed)
        },
    }
}

/// Opens a section, or closes playback behind the last.
fn leave_section(
    workout: &Workout,
    start: (u16, u16, u16),
    section: usize,
    repetition: u16,
    element: usize,
) -> (moved: (Vec<Action>, Stage))
    requires
        stage_fits(Stage::Section { section, repetition, element }, workout@, start),
    ensures
        moves(
            Stage::Section { section, repetition, element },
            moved.0@,
            moved.1,
            workout@,
            start,
        ),
{
    let mut batch: Vec<Action> = Vec::new();
    if section < workout.sections.len() {
        batch.push(Action::Say(Notice::SectionStarted { section }));
        proof {
            assert(batch@ =~= seq![Action::Say(Notice::SectionStarted { section })]);
            lemma_section_opens(workout@, start, section, repetition, element);
        }
        (batch, Stage::Repetition { section, repetition, element })
    } else {
        batch.push(Action::Say(Notice::Completed));
        batch.push(Action::Sleep { millis: CLOSING_WAIT as u64 * 1000 });
        batch.push(Action::Beep(BeepLevel::Low));
        batch.push(Action::Beep(BeepLevel::Mid));
        batch.push(Action::Beep(BeepLevel::High));
        proof {
            assert(batch@ =~= closing_script());
            lemma_sections_over(workout@, start, section, repetition, element);
        }
        (batch, Stage::Finished)
    }
}

/// Opens a pass through a section, or leaves the section behind its last.
fn leave_repetition(
    workout: &Workout,
    start: (u16, u16, u16),
    section: usize,
    repetition: u16,
    element: usize,
) -> (moved: (Vec<Action>, Stage))
    requires
        stage_fits(Stage::Repetition { section, repetition, element }, workout@, start),
    ensures
        moves(
            Stage::Repetition { section, repetition, element },
            moved.0@,
            moved.1,
            workout@,
            start,
        ),
{
    assert(section < workout.sections.len());
    let mut batch: Vec<Action> = Vec::new();
    if repetition < workout.sections[section].reps {
        if repetition > 0 {
            batch.push(Action::Say(Notice::RepetitionStarted { section, repetition }));
        }
        batch.push(Action::Beep(BeepLevel::Mid));
        batch.push(Action::Beep(BeepLevel::Mid));
        batch.push(Action::Sleep { millis: PRE_SECTION_WAIT as u64 * 1000 });
        proof {
            assert(batch@ =~= repetition_start(section as int, repetition as int));
            lemma_repetition_opens(workout@, start, section, repetition, element);
        }
        (batch, Stage::Element { section, repetition, element })
    } else {
        proof {
            assert(batch@ =~= Seq::<Action>::empty());
            lemma_repetitions_over(workout@, start, section, repetition, element);
        }
        (batch, Stage::Section { section: section + 1, repetition: 0, element: 0 })
    }
}

/// Plays an element of a pass, or closes the pass behind its last.
fn leave_element(
    workout: &Workout,
    start: (u16, u16, u16),
    section: usize,
    repetition: u16,
    element: usize,
) -> (moved: (Vec<Action>, Stage))
    requires
        stage_fits(Stage::Element { section, repetition, element }, workout@, start),
    ensures
        moves(
            Stage::Element { section, repetition, element },
            moved.0@,
            moved.1,
            workout@,
            start,
        ),
{
    assert(section < workout.sections.len());
    let current = &workout.sections[section];
    assert(current@ == workout@.sections[section as int]);
    if element < current.parts.len() {
        let batch = element_cues(&current.parts, section, element);
        proof {
            lemma_element_plays(workout@, start, section, repetition, element);
        }
        (batch, Stage::Element { section, repetition, element: element + 1 })
    } else {
        let mut batch: Vec<Action> = Vec::new();
        match current.set_rest {
            Some(rest) => {
                if repetition + 1 < current.reps {
                    batch.push(Action::Say(Notice::SetRest { section }));
                    let left: u32 = if rest > PRE_SECTION_WAIT {
                        rest - PRE_SECTION_WAIT
                    } else {
                        0
                    };
                    push_rest(&mut batch, left);
                }
            },
            None => {},
        }
        proof {
            assert(batch@ =~= repetition_end(current@, section as int, repetition as int));
            lemma_elements_over(workout@, start, section, repetition, element);
        }
        (batch, Stage::Repetition { section, repetition: repetition + 1, element: 0 })
    }
}

/// Playback of one workout: it hands out the actions of the workout's
/// script, one with each call of [`Player::next`].
pub struct Player<'w, 'a> {
    workout: &'w Workout<'a>,
    start: (u16, u16, u16),
    stage: Stage,
    pending: Vec<Action>,
    taken: usize,
}

impl<'w, 'a> Player<'w, 'a> {
    /// The workout that is played.
    pub closed spec fn workout(&self) -> WorkoutModel {
        self.workout@
    }

    /// The position that playback was to start from.
    pub closed spec fn start(&self) -> (u16, u16, u16) {
        self.start
    }

    /// Whether the player's state is one that playback can be in.
    pub closed spec fn wf(&self) -> bool {
        &&& self.taken <= self.pending.len()
        &&& stage_fits(self.stage, self.workout@, self.start)
    }

    /// The actions that are still to be handed out, in order.
    pub closed spec fn remaining(&self) -> Seq<Action> {
        self.pending@.skip(self.taken as int) + stage_script(
            self.stage,
            self.workout@,
            self.start,
        )
    }

    /// How playback ends when all that remains has been handed out.
    pub closed spec fn ending(&self) -> Result<(), PlaybackError> {
        stage_ending(self.stage, self.workout@, self.start)
    }

    /// A player of `workout` that starts at the position `start`: section,
    /// pass and exercise, each counted from zero.
    pub fn new(workout: &'w Workout<'a>, start: (u16, u16, u16)) -> (player: Self)
        ensures
            player.wf(),
            player.workout() == workout@,
            player.start() == start,
            player.remaining() == script(workout@, start),
            player.ending() == verdict(workout@, start),
    {
        let player = Player { workout, start, stage: Stage::Opening, pending: Vec::new(), taken: 0 };
        proof {
            assert(player.pending@.skip(0) + script(workout@, start) =~= script(workout@, start));
        }
        player
    }

    /// Moves from a stage to the next and takes up the actions that lie
    /// between the two.
    fn advance(&mut self)
        requires
            old(self).wf(),
            old(self).taken == old(self).pending.len(),
            !(old(self).stage is Finished),
            !(old(self).stage is Failed),
        ensures
            final(self).wf(),
            final(self).workout == old(self).workout,
            final(self).start == old(self).start,
            final(self).remaining() == old(self).remaining(),
            final(self).ending() == old(self).ending(),
            final(self).taken == 0,
            rank_below(
                stage_rank(final(self).stage, old(self).workout@),
                stage_rank(old(self).stage, old(self).workout@),
            ),
    {
        proof {
            assert(self.pending@.skip(self.taken as int) =~= Seq::<Action>::empty());
            assert(self.remaining() =~= stage_script(self.stage, self.workout@, self.start));
        }
        let (batch, next) = match self.stage {
            Stage::Opening => leave_opening(self.workout, self.start),
            Stage::Resume => leave_resume(self.workout, self.start),
            Stage::Section { section, repetition, element } => leave_section(
                self.workout,
                self.start,
                section,
                repetition,
                element,
            ),
            Stage::Repetition { section, repetition, element } => leave_repetition(
                self.workout,
                self.start,
                section,
                repetition,
                element,
            ),
            Stage::Element { section, repetition, element } => leave_element(
                self.workout,
                self.start,
                section,
                repetition,
                element,
            ),
            Stage::Finished => (Vec::new(), Stage::Finished),
            Stage::Failed => (Vec::new(), Stage::Failed),
        };
        self.stage = next;
        self.pending = batch;
        self.taken = 0;
        proof {
            assert(self.pending@.skip(0) =~= self.pending@);
        }
    }

    /// The next action of the script, or how playback has ended. Once the
    /// end is reached, every further call reports it again.
    pub fn next(&mut self) -> (step: Step)
        requires
            old(self).wf(),
        ensures
            final(self).wf(),
            final(self).workout() == old(self).workout(),
            final(self).start() == old(self).start(),
            final(self).ending() == old(self).ending(),
            match step {
                Step::Perform(action) => {
                    &&& old(self).remaining().len() > 0
                    &&& action == old(self).remaining()[0]
                    &&& final(self).remaining() == old(self).remaining().skip(1)
                },
                Step::Finished => {
                    &&& old(self).remaining().len() == 0
                    &&& final(self).remaining().len() == 0
                    &&& old(self).ending() is Ok
                },
                Step::Failed(e) => {
                    &&& old(self).remaining().len() == 0
                    &&& final(self).remaining().len() == 0
                    &&& old(self).ending() == Err::<(), _>(e)
                },
            },
    {
        while self.taken == self.pending.len() && !self.at_end()
            invariant
                self.wf(),
                self.workout == old(self).workout,
                self.start == old(self).start,
                self.remaining() == old(self).remaining(),
                self.ending() == old(self).ending(),
            decreases
                    stage_rank(self.stage, self.workout@).0,
                    stage_rank(self.stage, self.workout@).1,
                    stage_rank(self.stage, self.workout@).2,
        {
            self.advance();
        }
        if self.taken < self.pending.len() {
            let action = self.pending[self.taken];
            proof {
                let rest = stage_script(self.stage, self.workout@, self.start);
                assert((self.pending@.skip(self.taken as int) + rest).skip(1)
                    =~= self.pending@.skip(self.taken + 1) + rest);
            }
            self.taken += 1;
            Step::Perform(action)
        } else {
            proof {
                assert(self.pending@.skip(self.taken as int) =~= Seq::<Action>::empty());
            }
            match self.stage {
                Stage::Failed => Step::Failed(PlaybackError::StartPositionOutOfBounds),
                _ => Step::Finished,
            }
        }
    }

    /// Whether playback stands at its end, with or without success.
    fn at_end(&self) -> (yes: bool)
        ensures
            yes == (self.stage is Finished || self.stage is Failed),
    {
        match self.stage {
            Stage::Finished => true,
            Stage::Failed => true,
            _ => false,
        }
    }
}

} // verus!
