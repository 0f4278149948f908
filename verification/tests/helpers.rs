use workout_timer::text::{collect_chars, digit_of, is_space};
use workout_timer::{find_exercise, ExcerciseAmout, WorkoutSetElement};

#[test]
fn white_space_is_what_unicode_calls_so() {
    for c in [
        ' ', '\t', '\n', '\u{b}', '\u{c}', '\r', '\u{85}', '\u{a0}', '\u{1680}', '\u{2000}',
        '\u{2005}', '\u{200a}', '\u{2028}', '\u{2029}', '\u{202f}', '\u{205f}', '\u{3000}',
    ] {
        assert!(is_space(c));
    }
    for c in ['a', '0', '_', '\u{8}', '\u{e}', '\u{1f}', '\u{200b}', '\u{2060}', '\u{feff}', '\0'] {
        assert!(!is_space(c));
    }
}

#[test]
fn white_space_agrees_with_the_standard_library() {
    for code in 0..=0x3100u32 {
        if let Some(c) = char::from_u32(code) {
            assert_eq!(is_space(c), c.is_whitespace());
        }
    }
}

#[test]
fn digits_have_their_value() {
    for (value, c) in ('0'..='9').enumerate() {
        assert_eq!(digit_of(c), Some(value as u8));
    }
    for c in ['/', ':', 'a', ' ', '+', '-', '٣', '３'] {
        assert_eq!(digit_of(c), None);
    }
}

#[test]
fn characters_are_collected_in_order() {
    assert_eq!(collect_chars(""), Vec::<char>::new());
    assert_eq!(collect_chars("aé–z"), vec!['a', 'é', '–', 'z']);
}

#[test]
fn exercises_are_found_by_their_number() {
    let push = WorkoutSetElement::Excercise { name: "Push", amount: ExcerciseAmout::Reps(3) };
    let hold = WorkoutSetElement::Excercise {
        name: "Hold",
        amount: ExcerciseAmout::Time { duration: 9, midbeep: false },
    };
    let rest = WorkoutSetElement::Rest { duration: 4 };
    let parts = vec![rest, push, rest, rest, hold, push, rest];
    assert_eq!(find_exercise(&parts, 0), Some(1));
    assert_eq!(find_exercise(&parts, 1), Some(4));
    assert_eq!(find_exercise(&parts, 2), Some(5));
    assert_eq!(find_exercise(&parts, 3), None);
    assert_eq!(find_exercise(&parts, u16::MAX), None);
    assert_eq!(find_exercise(&vec![], 0), None);
    assert_eq!(find_exercise(&vec![rest, rest], 0), None);
}
