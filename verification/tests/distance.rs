use pythia_kernels::distance::levenshtein;

fn dist(a: &str, b: &str) -> usize {
    levenshtein(a.to_string(), b.to_string())
}

const WORDS: [&str; 10] =
    ["", "a", "b", "ab", "ba", "kitten", "sitting", "flaw", "lawn", "grüße"];

#[test]
fn kitten_to_sitting_takes_three_edits() {
    assert_eq!(dist("kitten", "sitting"), 3);
}

#[test]
fn known_distances() {
    assert_eq!(dist("flaw", "lawn"), 2);
    assert_eq!(dist("saturday", "sunday"), 3);
    assert_eq!(dist("intention", "execution"), 5);
    assert_eq!(dist("abc", "abc"), 0);
    assert_eq!(dist("abc", "abd"), 1);
    assert_eq!(dist("abc", "abcd"), 1);
    assert_eq!(dist("abcd", "abc"), 1);
    assert_eq!(dist("abc", "xyz"), 3);
    assert_eq!(dist("ab", "ba"), 2);
}

#[test]
fn one_edit_of_each_kind_costs_one() {
    assert_eq!(dist("cat", "cart"), 1);
    assert_eq!(dist("cart", "cat"), 1);
    assert_eq!(dist("cat", "cut"), 1);
    assert_eq!(dist("cat", "scat"), 1);
    assert_eq!(dist("cat", "at"), 1);
}

#[test]
fn distance_to_itself_is_zero() {
    for s in WORDS {
        assert_eq!(dist(s, s), 0, "{s:?}");
    }
    assert_eq!(dist("日本語のテキスト", "日本語のテキスト"), 0);
}

#[test]
fn distance_is_symmetric() {
    for a in WORDS {
        for b in WORDS {
            assert_eq!(dist(a, b), dist(b, a), "{a:?} {b:?}");
        }
    }
}

#[test]
fn distance_obeys_the_triangle_inequality() {
    for a in WORDS {
        for b in WORDS {
            for c in WORDS {
                assert!(dist(a, c) <= dist(a, b) + dist(b, c), "{a:?} {b:?} {c:?}");
            }
        }
    }
}

#[test]
fn distance_from_empty_is_the_length_in_characters() {
    assert_eq!(dist("", ""), 0);
    assert_eq!(dist("", "abc"), 3);
    assert_eq!(dist("abc", ""), 3);
    for s in WORDS {
        assert_eq!(dist("", s), s.chars().count(), "{s:?}");
        assert_eq!(dist(s, ""), s.chars().count(), "{s:?}");
    }
}

#[test]
fn characters_count_not_bytes() {
    assert_eq!("é".len(), 2);
    assert_eq!(dist("é", "e"), 1);
    assert_eq!(dist("", "grüße"), 5);
    assert_eq!(dist("日本語", ""), 3);
    assert_eq!(dist("日本語", "日本"), 1);
    assert_eq!(dist("naïve", "naive"), 1);
    assert_eq!(dist("🙂🙃", "🙃🙂"), 2);
}

#[test]
fn distance_is_bounded_by_the_lengths() {
    for a in WORDS {
        for b in WORDS {
            let (m, n) = (a.chars().count(), b.chars().count());
            let d = dist(a, b);
            assert!(d <= m.max(n), "{a:?} {b:?}");
            assert!(d >= m.abs_diff(n), "{a:?} {b:?}");
        }
    }
}

#[test]
fn long_strings() {
    let a = "ab".repeat(500);
    let b = "ba".repeat(500);
    assert_eq!(levenshtein(a.clone(), a.clone()), 0);
    assert_eq!(levenshtein(a.clone(), b), 2);
    assert_eq!(levenshtein(a, String::new()), 1000);
}
