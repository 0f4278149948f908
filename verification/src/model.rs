//! The workout model: sections, their elements, cue levels, and the length
//! estimate.
//!
//! Every executable type has a mathematical model (its view), over which the
//! contracts of the crate are stated. Durations are whole seconds.

use vstd::prelude::*;

verus! {

/// How urgent an audible cue is. Each level has its own pitch.
#[derive(Debug, Clone, Copy, PartialEq, Eq, Hash, Structural)]
pub enum BeepLevel {
    High,
    Mid,
    Low,
}

impl BeepLevel {
    /// The pitch of the level, in hertz.
    pub open spec fn frequency(self) -> nat {
        match self {
            BeepLevel::High => 750,
            BeepLevel::Mid => 600,
            BeepLevel::Low => 450,
        }
    }

    /// The pitch of the level, in whole hertz.
    pub fn get_frequency(&self) -> (hz: u32)
        ensures
            hz == self.frequency(),
    {
        match self {
            BeepLevel::High => 750,
            BeepLevel::Mid => 600,
            BeepLevel::Low => 450,
        }
    }
}

/// How much of an exercise is to be done: a timed hold, with or without a cue
/// at its midpoint, or a count of repetitions that the operator confirms.
#[derive(Debug, Clone, Copy, PartialEq, Eq, Structural)]
pub enum ExcerciseAmout {
    Time { duration: u32, midbeep: bool },
    Reps(u16),
}

impl ExcerciseAmout {
    /// The seconds that the clock runs for this amount: a repetition count is
    /// untimed.
    pub open spec fn seconds(self) -> nat {
        match self {
            ExcerciseAmout::Time { duration, .. } => duration as nat,
            ExcerciseAmout::Reps(_) => 0,
        }
    }
}

/// One element of a section: an exercise or a rest.
#[derive(Debug, Clone, Copy, PartialEq, Eq)]
pub enum WorkoutSetElement<'a> {
    Excercise { name: &'a str, amount: ExcerciseAmout },
    Rest { duration: u32 },
}

/// The model of a [`WorkoutSetElement`].
pub enum ElementModel {
    Exercise { name: Seq<char>, amount: ExcerciseAmout },
    Rest { duration: u32 },
}

impl ElementModel {
    /// The seconds that the element adds to one pass through its section.
    pub open spec fn seconds(self) -> nat {
        match self {
            ElementModel::Exercise { amount, .. } => amount.seconds(),
            ElementModel::Rest { duration } => duration as nat,
        }
    }
}

impl<'a> View for WorkoutSetElement<'a> {
    type V = ElementModel;

    open spec fn view(&self) -> ElementModel {
        match *self {
            WorkoutSetElement::Excercise { name, amount } => ElementModel::Exercise {
                name: name@,
                amount,
            },
            WorkoutSetElement::Rest { duration } => ElementModel::Rest { duration },
        }
    }
}

impl<'a> WorkoutSetElement<'a> {
    /// The seconds that the element adds to one pass through its section.
    pub fn seconds(&self) -> (secs: u32)
        ensures
            secs == self@.seconds(),
    {
        match self {
            WorkoutSetElement::Excercise { amount, .. } => match amount {
                ExcerciseAmout::Time { duration, .. } => *duration,
                ExcerciseAmout::Reps(_) => 0,
            },
            WorkoutSetElement::Rest { duration } => *duration,
        }
    }

    /// Whether the element is an exercise.
    pub fn is_exercise(&self) -> (yes: bool)
        ensures
            yes == (self@ is Exercise),
    {
        match self {
            WorkoutSetElement::Excercise { .. } => true,
            WorkoutSetElement::Rest { .. } => false,
        }
    }
}

/// The models of the elements of `parts`, in order.
pub open spec fn elements_model(parts: Seq<WorkoutSetElement>) -> Seq<ElementModel> {
    Seq::new(parts.len(), |i: int| parts[i]@)
}

/// The seconds of one pass through `parts`.
pub open spec fn total_seconds(parts: Seq<ElementModel>) -> nat
    decreases parts.len(),
{
    if parts.len() == 0 {
        0
    } else {
        total_seconds(parts.drop_last()) + parts.last().seconds()
    }
}

/// A section: a block of elements that is gone through `reps` times, at
/// least once, with `set_rest` seconds between two passes.
#[derive(Debug, PartialEq, Eq)]
pub struct WorkoutSet<'a> {
    pub name: Option<&'a str>,
    pub parts: Vec<WorkoutSetElement<'a>>,
    pub reps: u16,
    pub set_rest: Option<u32>,
}

/// The model of a [`WorkoutSet`].
pub struct SetModel {
    pub name: Option<Seq<char>>,
    pub parts: Seq<ElementModel>,
    pub reps: u16,
    pub set_rest: Option<u32>,
}

impl SetModel {
    /// The rest between two passes, zero where the section has none.
    pub open spec fn rest_seconds(self) -> nat {
        match self.set_rest {
            Some(rest) => rest as nat,
            None => 0,
        }
    }

    /// Whether the section is one that can be played: it is gone through at
    /// least once.
    pub open spec fn wf(self) -> bool {
        self.reps >= 1
    }

    /// The estimated seconds of the section: the rest once between each two
    /// passes, and the parts once for each pass.
    pub open spec fn seconds(self) -> nat
        recommends
            self.wf(),
    {
        (self.rest_seconds() * (self.reps - 1) + total_seconds(self.parts) * self.reps) as nat
    }
}

impl<'a> View for WorkoutSet<'a> {
    type V = SetModel;

    open spec fn view(&self) -> SetModel {
        SetModel {
            name: match self.name {
                Some(name) => Some(name@),
                None => None,
            },
            parts: elements_model(self.parts@),
            reps: self.reps,
            set_rest: self.set_rest,
        }
    }
}

/// The models of `sections`, in order.
pub open spec fn sections_model(sections: Seq<WorkoutSet>) -> Seq<SetModel> {
    Seq::new(sections.len(), |i: int| sections[i]@)
}

/// The estimated seconds of `sections`, one after another.
pub open spec fn sections_seconds(sections: Seq<SetModel>) -> nat
    decreases sections.len(),
{
    if sections.len() == 0 {
        0
    } else {
        sections_seconds(sections.drop_last()) + sections.last().seconds()
    }
}

/// A named sequence of sections.
#[derive(Debug, PartialEq, Eq)]
pub struct Workout<'a> {
    pub sections: Vec<WorkoutSet<'a>>,
    pub name: &'a str,
}

/// The model of a [`Workout`].
pub struct WorkoutModel {
    pub name: Seq<char>,
    pub sections: Seq<SetModel>,
}

impl WorkoutModel {
    /// Whether every section of the workout is one that can be played.
    pub open spec fn wf(self) -> bool {
        forall|i: int| 0 <= i < self.sections.len() ==> (#[trigger] self.sections[i]).wf()
    }

    /// The estimated length of the workout in seconds: the sum over its
    /// sections.
    pub open spec fn length(self) -> nat
        recommends
            self.wf(),
    {
        sections_seconds(self.sections)
    }
}

impl<'a> View for Workout<'a> {
    type V = WorkoutModel;

    open spec fn view(&self) -> WorkoutModel {
        WorkoutModel { name: self.name@, sections: sections_model(self.sections@) }
    }
}

/// The seconds of a prefix of `parts` never exceed those of the whole.
pub proof fn lemma_total_seconds_prefix(parts: Seq<ElementModel>, n: int)
    requires
        0 <= n <= parts.len(),
    ensures
        total_seconds(parts.take(n)) <= total_seconds(parts),
    decreases parts.len() - n,
{
    if n == parts.len() {
        assert(parts.take(n) =~= parts);
    } else {
        lemma_total_seconds_prefix(parts, n + 1);
        assert(parts.take(n + 1).drop_last() =~= parts.take(n));
    }
}

/// The seconds of a prefix of `sections` never exceed those of the whole.
pub proof fn lemma_sections_seconds_prefix(sections: Seq<SetModel>, n: int)
    requires
        0 <= n <= sections.len(),
    ensures
        sections_seconds(sections.take(n)) <= sections_seconds(sections),
    decreases sections.len() - n,
{
    if n == sections.len() {
        assert(sections.take(n) =~= sections);
    } else {
        lemma_sections_seconds_prefix(sections, n + 1);
        assert(sections.take(n + 1).drop_last() =~= sections.take(n));
    }
}

/// A section that is gone through once takes the time of its parts, whatever
/// its rest between passes.
pub proof fn lemma_single_pass_ignores_rest(set: SetModel)
    requires
        set.reps == 1,
    ensures
        set.seconds() == total_seconds(set.parts),
{
    assert(set.rest_seconds() * 0 == 0) by (nonlinear_arith);
    assert(total_seconds(set.parts) * 1 == total_seconds(set.parts)) by (nonlinear_arith);
}

/// A section without parts takes its rest once between each two passes.
pub proof fn lemma_rest_only_section(set: SetModel)
    requires
        set.wf(),
        set.parts.len() == 0,
    ensures
        set.seconds() == set.rest_seconds() * (set.reps - 1),
{
    assert(0 * (set.reps as int) == 0) by (nonlinear_arith);
    assert(set.rest_seconds() * (set.reps - 1) >= 0) by (nonlinear_arith)
        requires
            set.reps >= 1,
    ;
}

impl SetModel {
    /// The name that a section is shown under: its own, or a placeholder
    /// where it has none.
    pub open spec fn display_name(self) -> Seq<char> {
        match self.name {
            Some(name) => name,
            None => "[UNKNOWN]"@,
        }
    }

    /// The number of passes that is shown with a section: none where the
    /// section is gone through once.
    pub open spec fn display_reps(self) -> Option<u16> {
        if self.reps > 1 {
            Some(self.reps)
        } else {
            None
        }
    }
}

impl<'a> WorkoutSet<'a> {
    /// The name that the section is shown under.
    pub fn display_name(&self) -> (name: &'a str)
        ensures
            name@ == self@.display_name(),
    {
        match self.name {
            Some(name) => name,
            None => "[UNKNOWN]",
        }
    }

    /// The number of passes that is shown with the section.
    pub fn display_reps(&self) -> (reps: Option<u16>)
        ensures
            reps == self@.display_reps(),
    {
        if self.reps > 1 {
            Some(self.reps)
        } else {
            None
        }
    }

    /// The seconds of one pass through the parts, or `None` where they do not
    /// fit in 64 bits.
    fn checked_parts_seconds(&self) -> (secs: Option<u64>)
        ensures
            match secs {
                Some(s) => s == total_seconds(self@.parts),
                None => total_seconds(self@.parts) > u64::MAX,
            },
    {
        let ghost parts = self@.parts;
        let mut sum: u64 = 0;
        let mut i: usize = 0;
        while i < self.parts.len()
            invariant
                i <= self.parts.len(),
                parts == self@.parts,
                sum == total_seconds(parts.take(i as int)),
            decreases self.parts.len() - i,
        {
            let secs: u32 = self.parts[i].seconds();
            proof {
                assert(parts.take(i + 1).drop_last() =~= parts.take(i as int));
                lemma_total_seconds_prefix(parts, i + 1);
            }
            match sum.checked_add(secs as u64) {
                Some(next) => {
                    sum = next;
                },
                None => {
                    return None;
                },
            }
            i += 1;
        }
        proof {
            assert(parts.take(i as int) =~= parts);
        }
        Some(sum)
    }

    /// Whether the section is one that can be played.
    pub fn is_valid(&self) -> (yes: bool)
        ensures
            yes == self@.wf(),
    {
        self.reps >= 1
    }

    /// The estimated seconds of the section, or `None` where they do not fit
    /// in 64 bits.
    pub fn checked_length(&self) -> (secs: Option<u64>)
        requires
            self@.wf(),
        ensures
            match secs {
                Some(s) => s == self@.seconds(),
                None => self@.seconds() > u64::MAX,
            },
    {
        let reps: u64 = self.reps as u64;
        let rest: u64 = match self.set_rest {
            Some(r) => r as u64,
            None => 0,
        };
        let ghost once: int = total_seconds(self@.parts) as int;
        let ghost gap: int = self@.rest_seconds() as int;
        let ghost gaps: int = self.reps - 1;
        assert(0 <= gap * gaps <= 0xffff_ffff * 0xffff) by (nonlinear_arith)
            requires
                0 <= gap <= 0xffff_ffff,
                0 <= gaps <= 0xffff,
        ;
        assert(once * (reps as int) >= 0) by (nonlinear_arith)
            requires
                reps >= 1,
                once >= 0,
        ;
        let rests_secs: u64 = rest * (reps - 1);
        let parts_secs = match self.checked_parts_seconds() {
            Some(p) => p,
            None => {
                assert(once * (reps as int) >= once) by (nonlinear_arith)
                    requires
                        reps >= 1,
                        once >= 0,
                ;
                return None;
            },
        };
        let passes_secs = match parts_secs.checked_mul(reps) {
            Some(p) => p,
            None => {
                return None;
            },
        };
        rests_secs.checked_add(passes_secs)
    }
}

impl<'a> Workout<'a> {
    /// Whether every section of the workout is one that can be played.
    pub fn is_valid(&self) -> (yes: bool)
        ensures
            yes == self@.wf(),
    {
        let mut i: usize = 0;
        while i < self.sections.len()
            invariant
                i <= self.sections.len(),
                forall|j: int| 0 <= j < i ==> (#[trigger] self@.sections[j]).wf(),
            decreases self.sections.len() - i,
        {
            if !self.sections[i].is_valid() {
                assert(!self@.sections[i as int].wf());
                return false;
            }
            i += 1;
        }
        true
    }

    /// The estimated length of the workout in seconds, or `None` where it
    /// does not fit in 64 bits.
    pub fn checked_length(&self) -> (secs: Option<u64>)
        requires
            self@.wf(),
        ensures
            match secs {
                Some(s) => s == self@.length(),
                None => self@.length() > u64::MAX,
            },
    {
        let ghost sections = self@.sections;
        let mut sum: u64 = 0;
        let mut i: usize = 0;
        while i < self.sections.len()
            invariant
                i <= self.sections.len(),
                self@.wf(),
                sections == self@.sections,
                sum == sections_seconds(sections.take(i as int)),
            decreases self.sections.len() - i,
        {
            proof {
                assert(sections.take(i + 1).drop_last() =~= sections.take(i as int));
                lemma_sections_seconds_prefix(sections, i + 1);
            }
            assert(self.sections[i as int]@ == self@.sections[i as int]);
            let secs = match self.sections[i].checked_length() {
                Some(s) => s,
                None => {
                    return None;
                },
            };
            match sum.checked_add(secs) {
                Some(next) => {
                    sum = next;
                },
                None => {
                    return None;
                },
            }
            i += 1;
        }
        proof {
            assert(sections.take(i as int) =~= sections);
        }
        Some(sum)
    }

    /// The estimated length of the workout in seconds.
    pub fn length(&self) -> (secs: u64)
        requires
            self@.wf(),
            self@.length() <= u64::MAX,
        ensures
            secs == self@.length(),
    {
        self.checked_length().unwrap()
    }
}

} // verus!
