use workpool::collections::convert_to_pig_latin;
use workpool::collections::mode;

#[test]
fn single_mode() {
    assert_eq!(vec![1], mode(&vec![1, 1, 0]));
}

#[test]
fn multiple_modes() {
    assert_eq!(vec![0, 1], mode(&vec![1, 1, 0, 0]));
}

#[test]
fn mode_of_empty_list_is_empty() {
    assert_eq!(Vec::<i32>::new(), mode(&vec![]));
}

#[test]
fn mode_sorts_negative_values() {
    assert_eq!(vec![-3, 2], mode(&vec![2, -3, -3, 2, 5]));
}

#[test]
fn pig_latin_starts_with_consonant() {
    let mut word = String::from("first");
    convert_to_pig_latin(&mut word);
    assert_eq!(String::from("irst-fay"), word);
}

#[test]
fn pig_latin_starts_with_vowel() {
    let mut word = String::from("apple");
    convert_to_pig_latin(&mut word);
    assert_eq!(String::from("apple-hay"), word);
}

#[test]
fn pig_latin_leaves_other_words_alone() {
    let mut word = String::from("42nd");
    convert_to_pig_latin(&mut word);
    assert_eq!(String::from("42nd"), word);
    let mut empty = String::new();
    convert_to_pig_latin(&mut empty);
    assert_eq!(String::new(), empty);
}
