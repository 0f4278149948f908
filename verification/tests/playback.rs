use workout_timer::{
    load_workout, rest_with_warning, Action, BeepLevel, Notice, PlaybackError, Player, Step,
    Workout,
};

const HIGH: Action = Action::Beep(BeepLevel::High);
const MID: Action = Action::Beep(BeepLevel::Mid);
const LOW: Action = Action::Beep(BeepLevel::Low);

fn sleep(millis: u64) -> Action {
    Action::Sleep { millis }
}

fn say(notice: Notice) -> Action {
    Action::Say(notice)
}

fn section(section: usize) -> Action {
    say(Notice::SectionStarted { section })
}

fn element(section: usize, element: usize) -> Action {
    say(Notice::ElementStarted { section, element })
}

fn opening() -> Vec<Action> {
    vec![say(Notice::Beginning), HIGH, MID, LOW]
}

fn pass_start() -> Vec<Action> {
    vec![MID, MID, sleep(2000)]
}

fn closing() -> Vec<Action> {
    vec![say(Notice::Completed), sleep(2000), LOW, MID, HIGH]
}

fn play(workout: &Workout, start: (u16, u16, u16)) -> (Vec<Action>, Step) {
    let mut player = Player::new(workout, start);
    let mut actions = Vec::new();
    loop {
        match player.next() {
            Step::Perform(action) => actions.push(action),
            end => {
                assert_eq!(player.next(), end);
                return (actions, end);
            }
        }
    }
}

fn joined(parts: &[Vec<Action>]) -> Vec<Action> {
    parts.iter().flatten().copied().collect()
}

#[test]
fn short_rest_passes_in_silence() {
    assert_eq!(rest_with_warning(3), vec![sleep(3000)]);
    assert_eq!(rest_with_warning(0), vec![sleep(0)]);
    assert_eq!(rest_with_warning(5), vec![sleep(5000)]);
}

#[test]
fn long_rest_is_announced_before_its_end() {
    let warning = say(Notice::RestEnding { seconds_left: 5 });
    assert_eq!(rest_with_warning(20), vec![sleep(15000), warning, MID, sleep(5000)]);
    assert_eq!(rest_with_warning(6), vec![sleep(1000), warning, MID, sleep(5000)]);
    assert_eq!(
        rest_with_warning(u32::MAX),
        vec![sleep(4_294_967_290_000), warning, MID, sleep(5000)]
    );
}

#[test]
fn workout_without_sections_opens_and_closes() {
    let workout = load_workout("Workout W").unwrap();
    let (actions, end) = play(&workout, (0, 0, 0));
    assert_eq!(actions, joined(&[opening(), closing()]));
    assert_eq!(end, Step::Finished);
}

#[test]
fn elements_are_played_in_order() {
    let text = "Workout W\nSet A\nExercise Plank 00:15\"\nRest 00:20\nExercise Push x10\nRest 00:03\nExercise Hold 00:07\n";
    let workout = load_workout(text).unwrap();
    let (actions, end) = play(&workout, (0, 0, 0));
    let expected = joined(&[
        opening(),
        vec![section(0)],
        pass_start(),
        vec![element(0, 0), HIGH, sleep(7500), say(Notice::Midpoint), MID, sleep(7500), LOW],
        vec![
            element(0, 1),
            say(Notice::NextUp { section: 0, element: 2 }),
            sleep(15000),
            say(Notice::RestEnding { seconds_left: 5 }),
            MID,
            sleep(5000),
        ],
        vec![element(0, 2), HIGH, Action::AwaitConfirmation],
        vec![element(0, 3), say(Notice::NextUp { section: 0, element: 4 }), sleep(3000)],
        vec![element(0, 4), HIGH, sleep(7000), LOW],
        closing(),
    ]);
    assert_eq!(actions, expected);
    assert_eq!(end, Step::Finished);
}

#[test]
fn rest_before_a_rest_or_at_the_end_names_no_exercise() {
    let workout = load_workout("Workout W\nSet A\nRest 00:01\nRest 00:02\n").unwrap();
    let (actions, _) = play(&workout, (0, 0, 0));
    let expected = joined(&[
        opening(),
        vec![section(0)],
        pass_start(),
        vec![element(0, 0), sleep(1000), element(0, 1), sleep(2000)],
        closing(),
    ]);
    assert_eq!(actions, expected);
}

#[test]
fn passes_are_counted_and_parted_by_the_set_rest() {
    let workout = load_workout("Workout W\nSet A x3\nExercise Push x5\nSet rest 00:10\n").unwrap();
    let (actions, end) = play(&workout, (0, 0, 0));
    let push = vec![element(0, 0), HIGH, Action::AwaitConfirmation];
    let set_rest = vec![
        say(Notice::SetRest { section: 0 }),
        sleep(3000),
        say(Notice::RestEnding { seconds_left: 5 }),
        MID,
        sleep(5000),
    ];
    let expected = joined(&[
        opening(),
        vec![section(0)],
        pass_start(),
        push.clone(),
        set_rest.clone(),
        vec![say(Notice::RepetitionStarted { section: 0, repetition: 1 })],
        pass_start(),
        push.clone(),
        set_rest,
        vec![say(Notice::RepetitionStarted { section: 0, repetition: 2 })],
        pass_start(),
        push,
        closing(),
    ]);
    assert_eq!(actions, expected);
    assert_eq!(end, Step::Finished);
}

#[test]
fn set_rest_gives_up_the_silence_that_opens_the_next_pass() {
    for (written, left) in [("00:00", 0), ("00:01", 0), ("00:02", 0), ("00:03", 1000), ("00:07", 5000)]
    {
        let text = format!("Workout W\nSet A x2\nSet rest {written}\n");
        let workout = load_workout(&text).unwrap();
        let (actions, _) = play(&workout, (0, 0, 0));
        let expected = joined(&[
            opening(),
            vec![section(0)],
            pass_start(),
            vec![say(Notice::SetRest { section: 0 }), sleep(left)],
            vec![say(Notice::RepetitionStarted { section: 0, repetition: 1 })],
            pass_start(),
            closing(),
        ]);
        assert_eq!(actions, expected);
    }
}

#[test]
fn sections_follow_one_another() {
    let workout =
        load_workout("Workout W\nSet A\nExercise Run 00:01\nSet B\nSet C\nExercise Run 00:02\n")
            .unwrap();
    let (actions, _) = play(&workout, (0, 0, 0));
    let expected = joined(&[
        opening(),
        vec![section(0)],
        pass_start(),
        vec![element(0, 0), HIGH, sleep(1000), LOW],
        vec![section(1)],
        pass_start(),
        vec![section(2)],
        pass_start(),
        vec![element(2, 0), HIGH, sleep(2000), LOW],
        closing(),
    ]);
    assert_eq!(actions, expected);
}

#[test]
fn set_rest_line_without_a_duration_is_not_played() {
    let with = load_workout("Workout W\nSet A x2\nRest 00:10\nSet rest ab:cd\n").unwrap();
    let without = load_workout("Workout W\nSet A x2\nRest 00:10\n").unwrap();
    let pass = vec![
        element(0, 0),
        sleep(5000),
        say(Notice::RestEnding { seconds_left: 5 }),
        MID,
        sleep(5000),
    ];
    let expected = joined(&[
        opening(),
        vec![section(0)],
        pass_start(),
        pass.clone(),
        vec![say(Notice::RepetitionStarted { section: 0, repetition: 1 })],
        pass_start(),
        pass,
        closing(),
    ]);
    assert_eq!(play(&with, (0, 0, 0)).0, expected);
    assert_eq!(play(&without, (0, 0, 0)).0, expected);
}

#[test]
fn start_at_the_beginning_plays_everything() {
    let workout = load_workout("Workout W\nSet A x2\nRest 00:01\nExercise Run 00:02\n").unwrap();
    let (actions, end) = play(&workout, (0, 0, 0));
    let pass = vec![
        element(0, 0),
        say(Notice::NextUp { section: 0, element: 1 }),
        sleep(1000),
        element(0, 1),
        HIGH,
        sleep(2000),
        LOW,
    ];
    let expected = joined(&[
        opening(),
        vec![section(0)],
        pass_start(),
        pass.clone(),
        vec![say(Notice::RepetitionStarted { section: 0, repetition: 1 })],
        pass_start(),
        pass,
        closing(),
    ]);
    assert_eq!(actions, expected);
    assert_eq!(end, Step::Finished);
}

#[test]
fn start_at_the_beginning_needs_no_exercise() {
    let workout = load_workout("Workout W\nSet A\nRest 00:01\n").unwrap();
    let (actions, end) = play(&workout, (0, 0, 0));
    let expected = joined(&[
        opening(),
        vec![section(0)],
        pass_start(),
        vec![element(0, 0), sleep(1000)],
        closing(),
    ]);
    assert_eq!(actions, expected);
    assert_eq!(end, Step::Finished);
}

fn three_sections() -> &'static str {
    "Workout W\nSet A x2\nExercise One x1\nSet B x3\nRest 00:01\nExercise Two x2\nRest 00:02\nExercise Three x3\nSet rest 00:04\nSet C\nExercise Four x4\n"
}

#[test]
fn start_at_the_last_exercise_skips_what_stands_before_it() {
    let workout = load_workout(three_sections()).unwrap();
    let (actions, end) = play(&workout, (1, 1, 1));
    let two = vec![element(1, 1), HIGH, Action::AwaitConfirmation];
    let rest_two = vec![element(1, 2), say(Notice::NextUp { section: 1, element: 3 }), sleep(2000)];
    let three = vec![element(1, 3), HIGH, Action::AwaitConfirmation];
    let expected = joined(&[
        opening(),
        vec![say(Notice::ResumingAt { section: 1, repetition: 1, exercise: 1 })],
        vec![section(1)],
        vec![say(Notice::RepetitionStarted { section: 1, repetition: 1 })],
        pass_start(),
        three.clone(),
        vec![say(Notice::SetRest { section: 1 }), sleep(2000)],
        vec![say(Notice::RepetitionStarted { section: 1, repetition: 2 })],
        pass_start(),
        vec![element(1, 0), say(Notice::NextUp { section: 1, element: 1 }), sleep(1000)],
        two,
        rest_two,
        three,
        vec![section(2)],
        pass_start(),
        vec![element(2, 0), HIGH, Action::AwaitConfirmation],
        closing(),
    ]);
    assert_eq!(actions, expected);
    assert_eq!(end, Step::Finished);
}

#[test]
fn start_at_the_first_exercise_of_a_section_skips_the_rest_before_it() {
    let workout = load_workout(three_sections()).unwrap();
    let (actions, end) = play(&workout, (1, 0, 0));
    assert_eq!(
        actions[..9],
        joined(&[
            opening(),
            vec![say(Notice::ResumingAt { section: 1, repetition: 0, exercise: 0 })],
            vec![section(1)],
            pass_start(),
        ])[..]
    );
    assert_eq!(actions[9], element(1, 1));
    assert_eq!(end, Step::Finished);
}

#[test]
fn start_in_a_later_pass_of_the_first_section() {
    let workout = load_workout(three_sections()).unwrap();
    let (actions, end) = play(&workout, (0, 1, 0));
    assert_eq!(
        actions[..12],
        joined(&[
            opening(),
            vec![say(Notice::ResumingAt { section: 0, repetition: 1, exercise: 0 })],
            vec![section(0)],
            vec![say(Notice::RepetitionStarted { section: 0, repetition: 1 })],
            pass_start(),
            vec![element(0, 0)],
            vec![HIGH],
        ])[..]
    );
    assert_eq!(actions[12], Action::AwaitConfirmation);
    assert_eq!(actions[13], section(1));
    assert_eq!(end, Step::Finished);
}

#[test]
fn start_behind_the_last_exercise_fails() {
    let workout = load_workout(three_sections()).unwrap();
    for start in [(1, 0, 2), (1, 2, 2), (0, 0, 1), (2, 0, 1), (1, 1, u16::MAX)] {
        let (actions, end) = play(&workout, start);
        assert_eq!(actions, opening());
        assert_eq!(end, Step::Failed(PlaybackError::StartPositionOutOfBounds));
    }
}

#[test]
fn start_behind_the_last_pass_fails() {
    let workout = load_workout(three_sections()).unwrap();
    for start in [(0, 2, 0), (1, 3, 0), (2, 1, 0), (1, u16::MAX, 1)] {
        let (actions, end) = play(&workout, start);
        assert_eq!(actions, opening());
        assert_eq!(end, Step::Failed(PlaybackError::StartPositionOutOfBounds));
    }
}

#[test]
fn start_behind_the_last_section_fails() {
    let workout = load_workout(three_sections()).unwrap();
    for start in [(3, 0, 0), (u16::MAX, 0, 0)] {
        let (actions, end) = play(&workout, start);
        assert_eq!(actions, opening());
        assert_eq!(end, Step::Failed(PlaybackError::StartPositionOutOfBounds));
    }
    let empty = load_workout("Workout W").unwrap();
    let (actions, end) = play(&empty, (0, 0, 1));
    assert_eq!(actions, opening());
    assert_eq!(end, Step::Failed(PlaybackError::StartPositionOutOfBounds));
}

#[test]
fn start_in_a_section_without_exercises_fails() {
    let workout = load_workout("Workout W\nSet A\nRest 00:01\nSet B\nRest 00:01\n").unwrap();
    let (actions, end) = play(&workout, (1, 0, 0));
    assert_eq!(actions, opening());
    assert_eq!(end, Step::Failed(PlaybackError::StartPositionOutOfBounds));
}

#[test]
fn every_valid_start_ends_well() {
    let workout = load_workout(three_sections()).unwrap();
    for start in [(0, 0, 0), (0, 1, 0), (1, 0, 0), (1, 0, 1), (1, 1, 0), (1, 2, 1), (2, 0, 0)] {
        let (actions, end) = play(&workout, start);
        assert_eq!(end, Step::Finished);
        assert_eq!(actions[actions.len() - 5..], closing()[..]);
    }
}
