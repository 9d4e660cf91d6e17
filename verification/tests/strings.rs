use complib_rs::string::palindrome::palindrome_radiuses;
use complib_rs::string::z::z_algorithm;

fn palindrome_radiuses_naive<T: PartialEq>(s: &[T]) -> Vec<usize> {
    let mut rs = vec![0; s.len()];
    for i in 0..s.len() {
        rs[i] = (0..std::cmp::min(i + 1, s.len() - i))
            .take_while(|x| s[i - x] == s[i + x])
            .last()
            .unwrap();
    }
    rs
}

#[test]
fn palindrome_test_longest_palindrome() {
    let cases = [
        ("abaaababa", vec![0, 1, 0, 3, 0, 1, 2, 1, 0]),
        (
            "$a$b$c$b$c$b$a$",
            vec![0, 1, 0, 1, 0, 3, 0, 7, 0, 3, 0, 1, 0, 1, 0],
        ),
        ("mississippi", vec![0, 0, 0, 0, 3, 0, 0, 0, 0, 0, 0]),
        (
            "abaaababaabaaababaabaaababaaaabbbbaaa",
            vec![
                0, 1, 0, 3, 0, 1, 3, 1, 0, 0, 2, 0, 3, 0, 1, 3, 1, 0, 0, 2, 0, 3, 0, 1, 4, 1,
                0, 1, 1, 0, 0, 1, 1, 0, 0, 1, 0,
            ],
        ),
    ];
    for (s, lengths) in cases {
        let chars: Vec<char> = s.chars().collect();
        let actual_naive = palindrome_radiuses_naive(&chars);
        let actual = palindrome_radiuses(&chars);
        assert_eq!(lengths, actual_naive);
        assert_eq!(lengths, actual);
    }
}

fn z_algorithm_naive<T: PartialEq>(s: &[T]) -> Vec<usize> {
    let mut lengths = vec![0; s.len()];
    for i in 0..s.len() {
        lengths[i] = (0..s.len() - i).take_while(|&x| s[x] == s[i + x]).count()
    }
    lengths
}

#[test]
fn z_test_longest_palindrome() {
    let cases = [(
        "aabbccaabbccdd",
        vec![14, 1, 0, 0, 0, 0, 6, 1, 0, 0, 0, 0, 0, 0],
    ),
    ("ababacaca", vec![9, 0, 3, 0, 1, 0, 1, 0, 1]),
    ("aaaaaaaaa", vec![9, 8, 7, 6, 5, 4, 3, 2, 1]),
    ("ccaaacabccaabcbcacbbbbbacaccccbbcacbacccccbbbacaabaabacacbbccccbaaacabbbbacbabbcbcbbcaabbacccacabcac",
    vec![100, 1, 0, 0, 0, 1, 0, 0, 4, 1, 0, 0, 0, 1, 0, 1, 0, 1, 0, 0, 0, 0, 0, 0, 1, 0, 2, 2, 2, 1, 0, 0, 1, 0, 1, 0, 0, 2, 2, 2, 2, 1, 0, 0, 0, 0, 1, 0, 0, 0, 0, 0, 0, 0, 1, 0, 1, 0, 0, 2, 2, 2, 1, 0, 0, 0, 0, 1, 0, 0, 0, 0, 0, 0, 1, 0, 0, 0, 0, 1, 0, 1, 0, 0, 1, 0, 0, 0, 0, 0, 2, 3, 1, 0, 1, 0, 0, 1, 0, 1])
    ];
    for (s, lcps) in cases {
        let chars: Vec<char> = s.chars().collect();
        let actual_naive = z_algorithm_naive(&chars);
        let actual = z_algorithm(&chars);
        assert_eq!(lcps, actual_naive);
        assert_eq!(lcps, actual);
    }
}

#[test]
fn test_strings_empty_and_single() {
    let empty: Vec<char> = vec![];
    assert_eq!(z_algorithm(&empty), Vec::<usize>::new());
    assert_eq!(palindrome_radiuses(&empty), Vec::<usize>::new());
    let one: Vec<char> = vec!['x'];
    assert_eq!(z_algorithm(&one), vec![1]);
    assert_eq!(palindrome_radiuses(&one), vec![0]);
}
