use lau_information_theory::kraft::lengthen_longest_code;

#[test]
fn test_lengthen_longest_code_last_maximum() {
    let mut lengths = vec![3, 1, 3, 2];
    lengthen_longest_code(&mut lengths);
    assert_eq!(lengths, vec![3, 1, 4, 2]);
}

#[test]
fn test_lengthen_longest_code_single_maximum() {
    let mut lengths = vec![5, 1, 3];
    lengthen_longest_code(&mut lengths);
    assert_eq!(lengths, vec![6, 1, 3]);
}

#[test]
fn test_lengthen_longest_code_empty() {
    let mut lengths: Vec<usize> = vec![];
    lengthen_longest_code(&mut lengths);
    assert!(lengths.is_empty());
}

#[test]
fn test_lengthen_repeatedly_grows_same_code() {
    // Once lengthened, the last longest code stays the unique longest one.
    let mut lengths = vec![1usize, 1, 1];
    lengthen_longest_code(&mut lengths);
    assert_eq!(lengths, vec![1, 1, 2]);
    lengthen_longest_code(&mut lengths);
    assert_eq!(lengths, vec![1, 1, 3]);
}
