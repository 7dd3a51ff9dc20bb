use word_ladder::adjacency::{get_word_position, is_one_letter_different, position_of_word};

fn dict(words: &[&str]) -> Vec<String> {
    words.iter().map(|w| w.to_string()).collect()
}

#[test]
fn one_letter_apart_is_adjacent() {
    assert!(is_one_letter_different(&"cat".to_string(), &"cot".to_string()));
    assert!(is_one_letter_different(&"monk".to_string(), &"mock".to_string()));
    assert!(is_one_letter_different(&"perk".to_string(), &"perl".to_string()));
}

#[test]
fn equal_words_are_not_adjacent() {
    assert!(!is_one_letter_different(&"cat".to_string(), &"cat".to_string()));
    assert!(!is_one_letter_different(&"".to_string(), &"".to_string()));
}

#[test]
fn two_letters_apart_is_not_adjacent() {
    assert!(!is_one_letter_different(&"cat".to_string(), &"dog".to_string()));
    assert!(!is_one_letter_different(&"pock".to_string(), &"perk".to_string()));
}

#[test]
fn unequal_lengths_are_not_adjacent() {
    assert!(!is_one_letter_different(&"cat".to_string(), &"cart".to_string()));
    assert!(!is_one_letter_different(&"monk".to_string(), &"mon".to_string()));
    assert!(!is_one_letter_different(&"".to_string(), &"a".to_string()));
}

#[test]
fn adjacency_is_symmetric_on_samples() {
    let words = ["cat", "cot", "cog", "dog", "monk", "mock", "pock", "pork", "perk", "perl"];
    for a in words.iter() {
        for b in words.iter() {
            let ab = is_one_letter_different(&a.to_string(), &b.to_string());
            let ba = is_one_letter_different(&b.to_string(), &a.to_string());
            assert_eq!(ab, ba, "asymmetric for {} / {}", a, b);
        }
    }
}

#[test]
fn word_position_is_first_match() {
    let d = dict(&["cat", "cot", "cat", "dog"]);
    assert_eq!(get_word_position(&d, &"cat".to_string()), 0);
    assert_eq!(get_word_position(&d, &"cot".to_string()), 1);
    assert_eq!(get_word_position(&d, &"dog".to_string()), 3);
}

#[test]
fn position_of_missing_word_is_none() {
    let d = dict(&["cat", "cot"]);
    assert_eq!(position_of_word(&d, &"dog".to_string()), None);
    assert_eq!(position_of_word(&d, &"cot".to_string()), Some(1));
    assert_eq!(position_of_word(&Vec::new(), &"cat".to_string()), None);
}
