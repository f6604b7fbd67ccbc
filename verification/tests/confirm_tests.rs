use seqstamp::confirm::{is_affirmative, is_affirmative_token};

#[test]
fn affirmative_answers() {
    assert!(is_affirmative("y"));
    assert!(is_affirmative("yes"));
    assert!(is_affirmative("YES"));
    assert!(is_affirmative("Yes"));
    assert!(is_affirmative("  y  "));
    assert!(is_affirmative(" Y \n"));
    assert!(is_affirmative("yes\n"));
}

#[test]
fn declining_answers() {
    assert!(!is_affirmative(""));
    assert!(!is_affirmative("\n"));
    assert!(!is_affirmative("n"));
    assert!(!is_affirmative("no"));
    assert!(!is_affirmative("yeah"));
    assert!(!is_affirmative("yess"));
    assert!(!is_affirmative("y es"));
    assert!(!is_affirmative("oui"));
}

#[test]
fn token_must_already_be_normalized() {
    assert!(is_affirmative_token("y"));
    assert!(is_affirmative_token("yes"));
    assert!(!is_affirmative_token("Y"));
    assert!(!is_affirmative_token(" yes"));
}
