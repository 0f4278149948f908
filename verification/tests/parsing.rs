use workout_timer::{
    load_workout, parse_duration, ExcerciseAmout, ParseError, Workout, WorkoutSet,
    WorkoutSetElement,
};

fn exercise(name: &str, amount: ExcerciseAmout) -> WorkoutSetElement<'_> {
    WorkoutSetElement::Excercise { name, amount }
}

#[test]
fn parses_one_section_with_a_counted_exercise() {
    let workout = load_workout("Workout W\nSet\nExercise Push x10\n").unwrap();
    assert_eq!(workout.name, "W");
    assert_eq!(workout.sections.len(), 1);
    let set = &workout.sections[0];
    assert_eq!(set.name, None);
    assert_eq!(set.reps, 1);
    assert_eq!(set.set_rest, None);
    assert_eq!(set.parts, vec![exercise("Push", ExcerciseAmout::Reps(10))]);
}

#[test]
fn duration_token_gives_seconds() {
    assert_eq!(parse_duration("01:30"), Ok(90));
    assert_eq!(parse_duration("00:05"), Ok(5));
    assert_eq!(parse_duration("00:00"), Ok(0));
    assert_eq!(parse_duration("99:99"), Ok(6039));
    assert_eq!(parse_duration("10:75"), Ok(675));
}

#[test]
fn duration_token_reads_its_first_five_characters() {
    assert_eq!(parse_duration("01:30\""), Ok(90));
    assert_eq!(parse_duration("01:30 and more"), Ok(90));
}

#[test]
fn short_duration_token_is_malformed() {
    assert_eq!(parse_duration(""), Err(ParseError::MalformedDurationToken));
    assert_eq!(parse_duration("1:30"), Err(ParseError::MalformedDurationToken));
    assert_eq!(parse_duration("0130"), Err(ParseError::MalformedDurationToken));
    assert_eq!(parse_duration("é:30"), Err(ParseError::MalformedDurationToken));
}

#[test]
fn duration_token_that_is_not_minutes_and_seconds_is_bad() {
    assert_eq!(parse_duration("ab:cd"), Err(ParseError::BadDuration));
    assert_eq!(parse_duration("01-30"), Err(ParseError::BadDuration));
    assert_eq!(parse_duration("+1:30"), Err(ParseError::BadDuration));
    assert_eq!(parse_duration("01:3x"), Err(ParseError::BadDuration));
    assert_eq!(parse_duration("é1:30"), Err(ParseError::BadDuration));
    assert_eq!(parse_duration("٠١:٣٠"), Err(ParseError::BadDuration));
}

#[test]
fn quote_behind_a_duration_asks_for_the_midpoint_cue() {
    let with = load_workout("Workout W\nSet\nExercise Plank 01:00\"").unwrap();
    assert_eq!(
        with.sections[0].parts,
        vec![exercise("Plank", ExcerciseAmout::Time { duration: 60, midbeep: true })]
    );
    let without = load_workout("Workout W\nSet\nExercise Plank 01:00").unwrap();
    assert_eq!(
        without.sections[0].parts,
        vec![exercise("Plank", ExcerciseAmout::Time { duration: 60, midbeep: false })]
    );
}

#[test]
fn set_rest_is_read_behind_the_elements() {
    let workout =
        load_workout("Workout W\nSet Core x3\nExercise Plank 00:30\nSet rest 00:10\n").unwrap();
    assert_eq!(workout.sections.len(), 1);
    assert_eq!(workout.sections[0].name, Some("Core"));
    assert_eq!(workout.sections[0].reps, 3);
    assert_eq!(workout.sections[0].set_rest, Some(10));
}

#[test]
fn set_rest_without_a_duration_is_no_rest() {
    let absent = load_workout("Workout W\nSet Core x3\nExercise Plank 00:30\n").unwrap();
    assert_eq!(absent.sections.len(), 1);
    assert_eq!(absent.sections[0].set_rest, None);
    for line in ["Set rest 1:0", "Set rest ab:cd", "Set rest ", "Set rest 00-10", "  Set rest x"] {
        let text = format!("Workout W\nSet Core x3\nExercise Plank 00:30\n{line}\n");
        let malformed = load_workout(&text).unwrap();
        assert_eq!(malformed.sections.len(), 1);
        assert_eq!(malformed.sections[0].set_rest, None);
        assert_eq!(malformed, absent);
    }
}

#[test]
fn set_rest_line_without_a_duration_leaves_no_trace() {
    let with = load_workout("Workout W\nSet A x2\nRest 00:10\nSet rest ab:cd\n").unwrap();
    let without = load_workout("Workout W\nSet A x2\nRest 00:10\n").unwrap();
    assert_eq!(with, without);
    assert_eq!(
        with,
        Workout {
            name: "W",
            sections: vec![WorkoutSet {
                name: Some("A"),
                parts: vec![WorkoutSetElement::Rest { duration: 10 }],
                reps: 2,
                set_rest: None,
            }],
        }
    );
}

#[test]
fn section_follows_a_set_rest_line_without_a_duration() {
    let with =
        load_workout("Workout W\nSet A x2\nRest 00:10\nSet rest 1:0\nSet B\nRest 00:01\n").unwrap();
    let without = load_workout("Workout W\nSet A x2\nRest 00:10\nSet B\nRest 00:01\n").unwrap();
    assert_eq!(with, without);
    assert_eq!(with.sections.len(), 2);
    assert_eq!(with.sections[1].name, Some("B"));
}

#[test]
fn only_one_line_is_the_rest_of_a_section() {
    assert_eq!(
        load_workout("Workout W\nSet A\nSet rest 1:0\nRest 00:10\n"),
        Err(ParseError::ExpectedSet)
    );
    let twice = load_workout("Workout W\nSet A\nSet rest 00:10\nSet rest 00:20\n").unwrap();
    assert_eq!(twice.sections.len(), 2);
    assert_eq!(twice.sections[0].set_rest, Some(10));
    assert_eq!(
        twice.sections[1],
        WorkoutSet { name: Some("rest 00:20"), parts: vec![], reps: 1, set_rest: None }
    );
}

#[test]
fn set_rest_needs_its_space() {
    let workout = load_workout("Workout W\nSet A\nSet rest\n").unwrap();
    assert_eq!(workout.sections.len(), 2);
    assert_eq!(workout.sections[0].set_rest, None);
    assert_eq!(workout.sections[1].name, Some("rest"));
}

#[test]
fn section_header_gives_name_and_passes() {
    let text = "Workout W\nSet Legs x3\nSet Legs day\nSet x4\nSet\nSet Arms x\nSetup x2\nSet  A  x+7\n";
    let workout = load_workout(text).unwrap();
    let headers: Vec<(Option<&str>, u16)> =
        workout.sections.iter().map(|s| (s.name, s.reps)).collect();
    assert_eq!(
        headers,
        vec![
            (Some("Legs"), 3),
            (Some("Legs day"), 1),
            (Some("x4"), 1),
            (None, 1),
            (Some("Arms x"), 1),
            (Some("up"), 2),
            (Some("A "), 7),
        ]
    );
}

#[test]
fn count_of_no_passes_belongs_to_the_name() {
    let workout = load_workout("Workout W\nSet Legs x0\nExercise Squat x5\nSet Arms x00\nSet Core x+0\n")
        .unwrap();
    let headers: Vec<(Option<&str>, u16)> =
        workout.sections.iter().map(|s| (s.name, s.reps)).collect();
    assert_eq!(
        headers,
        vec![(Some("Legs x0"), 1), (Some("Arms x00"), 1), (Some("Core x+0"), 1)]
    );
}

#[test]
fn every_section_has_a_pass() {
    let text = "Workout W\nSet\nSet A\nSet B x0\nSet C x1\nSet D x65535\nSet E x65536\nSet x0\n";
    let workout = load_workout(text).unwrap();
    assert_eq!(workout.sections.len(), 7);
    assert!(workout.is_valid());
    for set in &workout.sections {
        assert!(set.reps >= 1);
        assert!(set.is_valid());
    }
}

#[test]
fn pass_count_beyond_sixteen_bits_belongs_to_the_name() {
    let workout = load_workout("Workout W\nSet Legs x65535\nSet Arms x65536\n").unwrap();
    assert_eq!(workout.sections[0].name, Some("Legs"));
    assert_eq!(workout.sections[0].reps, 65535);
    assert_eq!(workout.sections[1].name, Some("Arms x65536"));
    assert_eq!(workout.sections[1].reps, 1);
}

#[test]
fn blank_lines_and_indentation_do_not_count() {
    let text = "\n  \n\tWorkout Morning run\n\n   Set Warm up x2\n      Exercise Jumping jacks 00:45\"\n\n      Rest 00:15\n   Set rest 00:20\n\n\u{3000}Set\n\u{2003}Exercise Push ups x12\n \n";
    let workout = load_workout(text).unwrap();
    assert_eq!(
        workout,
        Workout {
            name: "Morning run",
            sections: vec![
                WorkoutSet {
                    name: Some("Warm up"),
                    reps: 2,
                    parts: vec![
                        exercise(
                            "Jumping jacks",
                            ExcerciseAmout::Time { duration: 45, midbeep: true }
                        ),
                        WorkoutSetElement::Rest { duration: 15 },
                    ],
                    set_rest: Some(20),
                },
                WorkoutSet {
                    name: None,
                    reps: 1,
                    parts: vec![exercise("Push ups", ExcerciseAmout::Reps(12))],
                    set_rest: None,
                },
            ],
        }
    );
}

#[test]
fn line_may_end_in_carriage_return_and_line_feed() {
    let workout = load_workout("Workout W\r\nSet A x2\r\nRest 00:07\r\n\r\nSet B").unwrap();
    assert_eq!(workout.name, "W");
    assert_eq!(workout.sections.len(), 2);
    assert_eq!(workout.sections[0].name, Some("A"));
    assert_eq!(workout.sections[0].reps, 2);
    assert_eq!(workout.sections[0].parts, vec![WorkoutSetElement::Rest { duration: 7 }]);
    assert_eq!(workout.sections[1].name, Some("B"));
}

#[test]
fn last_line_without_line_feed_keeps_its_carriage_return() {
    let workout = load_workout("Workout W\nSet B\r").unwrap();
    assert_eq!(workout.sections[0].name, Some("B\r"));
}

#[test]
fn names_may_hold_any_characters() {
    let workout =
        load_workout("Workout Übung für zwei\nSet Rücken x2\nExercise Brücke – lang 00:30\n")
            .unwrap();
    assert_eq!(workout.name, "Übung für zwei");
    assert_eq!(workout.sections[0].name, Some("Rücken"));
    assert_eq!(
        workout.sections[0].parts,
        vec![exercise("Brücke – lang", ExcerciseAmout::Time { duration: 30, midbeep: false })]
    );
}

#[test]
fn workout_without_sections_is_read() {
    let workout = load_workout("Workout Nothing").unwrap();
    assert_eq!(workout.name, "Nothing");
    assert!(workout.sections.is_empty());
    let unnamed = load_workout("Workout ").unwrap();
    assert_eq!(unnamed.name, "");
}

#[test]
fn text_without_a_workout_line_has_no_name() {
    assert_eq!(load_workout(""), Err(ParseError::MissingWorkoutName));
    assert_eq!(load_workout("\n \n"), Err(ParseError::MissingWorkoutName));
    assert_eq!(load_workout("Set A\n"), Err(ParseError::MissingWorkoutName));
    assert_eq!(load_workout("Workout"), Err(ParseError::MissingWorkoutName));
    assert_eq!(load_workout("workout W"), Err(ParseError::MissingWorkoutName));
}

#[test]
fn line_that_opens_no_section_is_refused() {
    assert_eq!(load_workout("Workout W\nExercise Push x10\n"), Err(ParseError::ExpectedSet));
    assert_eq!(
        load_workout("Workout W\nSet\nExercise Push x10\nCooldown\n"),
        Err(ParseError::ExpectedSet)
    );
    assert_eq!(load_workout("Workout W\nset A\n"), Err(ParseError::ExpectedSet));
}

#[test]
fn exercise_without_an_amount_is_refused() {
    assert_eq!(load_workout("Workout W\nSet\nExercise Plank\n"), Err(ParseError::MissingAmount));
}

#[test]
fn exercise_with_a_bad_count_is_refused() {
    assert_eq!(load_workout("Workout W\nSet\nExercise Push xten\n"), Err(ParseError::BadReps));
    assert_eq!(load_workout("Workout W\nSet\nExercise Push x\n"), Err(ParseError::BadReps));
    assert_eq!(load_workout("Workout W\nSet\nExercise Push x65536\n"), Err(ParseError::BadReps));
    assert_eq!(load_workout("Workout W\nSet\nExercise Push x-1\n"), Err(ParseError::BadReps));
}

#[test]
fn element_with_a_bad_duration_is_refused() {
    assert_eq!(load_workout("Workout W\nSet\nExercise Plank ab:cd\n"), Err(ParseError::BadDuration));
    assert_eq!(load_workout("Workout W\nSet\nRest 00.30\n"), Err(ParseError::BadDuration));
}

#[test]
fn element_with_a_short_duration_is_refused() {
    assert_eq!(
        load_workout("Workout W\nSet\nExercise Plank 1:00\n"),
        Err(ParseError::MalformedDurationToken)
    );
    assert_eq!(load_workout("Workout W\nSet\nRest 30\n"), Err(ParseError::MalformedDurationToken));
    assert_eq!(
        load_workout("Workout W\nSet\nExercise Plank 01:00 \n"),
        Err(ParseError::MalformedDurationToken)
    );
}

#[test]
fn first_fault_in_the_text_wins() {
    assert_eq!(
        load_workout("Workout W\nSet\nRest 1\nExercise Push xten\n"),
        Err(ParseError::MalformedDurationToken)
    );
    assert_eq!(
        load_workout("Workout W\nSet\nExercise Push xten\nRest 1\n"),
        Err(ParseError::BadReps)
    );
}

#[test]
fn word_that_is_no_element_ends_the_elements() {
    let workout = load_workout("Workout W\nSet A\nRest 00:10\nSet B\nExercise Sit x3\n").unwrap();
    assert_eq!(workout.sections.len(), 2);
    assert_eq!(workout.sections[0].parts, vec![WorkoutSetElement::Rest { duration: 10 }]);
    assert_eq!(workout.sections[1].parts, vec![exercise("Sit", ExcerciseAmout::Reps(3))]);
}

#[test]
fn counted_exercise_accepts_what_a_number_may_look_like() {
    let workout =
        load_workout("Workout W\nSet\nExercise Push up x+10\nExercise Pull x007\nExercise Sit x0\n")
            .unwrap();
    assert_eq!(
        workout.sections[0].parts,
        vec![
            exercise("Push up", ExcerciseAmout::Reps(10)),
            exercise("Pull", ExcerciseAmout::Reps(7)),
            exercise("Sit", ExcerciseAmout::Reps(0)),
        ]
    );
}
