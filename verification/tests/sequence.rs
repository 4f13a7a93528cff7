use subtext::sequence::Sequence;

#[test]
fn can_be_completed() {
    let mut sequence = Sequence::new(&['H', 'e', 'l', 'l', 'o'], None);

    assert!(
        sequence.is_complete() == false,
        "Sequence should not be complete"
    );

    "Hello".chars().for_each(|state| {
        sequence.go_to(&state);
    });

    assert!(sequence.is_complete(), "Sequence should be complete")
}

#[test]
fn cannot_complete_without_reset() {
    let mut sequence = Sequence::new(&['H', 'e', 'l', 'l', 'o'], Some(' '));

    assert!(
        sequence.is_complete() == false,
        "Sequence should not be complete"
    );

    "HelixHello".chars().for_each(|state| {
        sequence.go_to(&state);
    });

    assert!(
        sequence.is_complete() == false,
        "Sequence should not be complete"
    );
}

#[test]
fn can_be_completed_after_reset() {
    let mut sequence = Sequence::new(&['H', 'e', 'l', 'l', 'o'], Some(' '));

    assert!(
        sequence.is_complete() == false,
        "Sequence should not be complete"
    );

    "Helix".chars().for_each(|state| {
        sequence.go_to(&state);
    });

    assert!(
        sequence.is_complete() == false,
        "Sequence should not be complete"
    );

    sequence.go_to(&' ');

    "Hello".chars().for_each(|state| {
        sequence.go_to(&state);
    });

    assert!(sequence.is_complete(), "Sequence should be complete");
}

#[test]
fn can_detect_sequence_without_a_reset() {
    let mut sequence = Sequence::new(&['#', '#'], None);

    assert!(
        sequence.is_complete() == false,
        "Sequence should not be complete"
    );

    "Hello##".chars().for_each(|state| {
        sequence.go_to(&state);
    });

    assert!(sequence.is_complete(), "Sequence should be complete");
}

#[test]
fn sequence_can_be_completed() {
    let states: Vec<char> = "Hello".chars().collect();
    let mut sequence = Sequence::new(&states, Some(' '));

    assert!(
        sequence.is_complete() == false,
        "Sequence should not be complete"
    );

    "Hello".chars().for_each(|state| {
        sequence.go_to(&state);
    });

    assert!(sequence.is_complete(), "Sequence should be complete")
}

#[test]
fn sequence_cannot_complete_without_reset() {
    let states: Vec<char> = "Hello".chars().collect();
    let mut sequence = Sequence::new(&states, Some(' '));

    assert!(
        sequence.is_complete() == false,
        "Sequence should not be complete"
    );

    "HelixHello".chars().for_each(|state| {
        sequence.go_to(&state);
    });

    assert!(
        sequence.is_complete() == false,
        "Sequence should not be complete"
    );
}

#[test]
fn sequence_can_be_completed_after_reset() {
    let states: Vec<char> = "Hello".chars().collect();
    let mut sequence = Sequence::new(&states, Some(' '));

    assert!(
        sequence.is_complete() == false,
        "Sequence should not be complete"
    );

    "Helix".chars().for_each(|state| {
        sequence.go_to(&state);
    });

    assert!(
        sequence.is_complete() == false,
        "Sequence should not be complete"
    );

    sequence.go_to(&' ');

    "Hello".chars().for_each(|state| {
        sequence.go_to(&state);
    });

    assert!(sequence.is_complete(), "Sequence should be complete");
}

#[test]
fn a_matcher_completes_once_at_the_last_character() {
    let mut sequence = Sequence::new(&['H', 'e', 'l', 'l', 'o'], Some(' '));
    let mut completed_at = Vec::new();

    for (index, state) in "Helix Hello".chars().enumerate() {
        sequence.go_to(&state);
        if sequence.is_complete() {
            completed_at.push(index);
        }
    }

    assert_eq!(completed_at, vec![10]);
}

#[test]
fn a_matcher_without_its_reset_never_completes() {
    let mut sequence = Sequence::new(&['H', 'e', 'l', 'l', 'o'], Some(' '));

    for state in "HelixHello".chars() {
        sequence.go_to(&state);
        assert!(!sequence.is_complete());
    }
}

#[test]
fn a_matcher_reports_each_advance() {
    let mut sequence = Sequence::new(&['a', 'b'], None);

    assert_eq!(sequence.len(), 2);
    assert!(sequence.can_advance());
    assert!(sequence.go_to(&'a'));
    assert!(sequence.can_advance());
    assert!(sequence.go_to(&'b'));
    assert!(sequence.is_complete());
    // A complete matcher starts over and lets the next character pass.
    assert!(!sequence.go_to(&'a'));
    assert!(!sequence.is_complete());
    assert!(sequence.go_to(&'a'));
    assert!(!sequence.go_to(&'x'));
    assert!(sequence.can_advance());
}

#[test]
fn a_stuck_matcher_waits_for_its_reset() {
    let mut sequence = Sequence::new(&['a', 'b'], Some(' '));

    assert!(!sequence.go_to(&'x'));
    assert!(!sequence.can_advance());
    assert!(!sequence.go_to(&'a'));
    assert!(!sequence.go_to(&' '));
    assert!(sequence.can_advance());
    assert!(sequence.go_to(&'a'));
    assert!(sequence.go_to(&'b'));
    assert!(sequence.is_complete());
}
