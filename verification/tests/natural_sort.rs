use std::cmp::Ordering;

use minedesign::natural_sort::{compare_digit_runs, fold_char, natural_cmp, take_digit_run};

#[test]
fn bench_numbers_sort_numerically() {
    assert_eq!(natural_cmp("Bench 2", "Bench 10"), Ordering::Less);
    assert_eq!(natural_cmp("Bench 10", "Bench 2"), Ordering::Greater);
}

#[test]
fn case_is_ignored_until_a_tie() {
    assert_eq!(natural_cmp("apple", "Banana"), Ordering::Less);
    assert_eq!(natural_cmp("Apple", "apple"), Ordering::Less);
    assert_eq!(natural_cmp("apple", "Apple"), Ordering::Greater);
}

#[test]
fn leading_zeros_tie_then_plain_order_decides() {
    assert_eq!(natural_cmp("01", "1"), Ordering::Less);
    assert_eq!(natural_cmp("1", "01"), Ordering::Greater);
    assert_eq!(natural_cmp("a01b", "a1c"), Ordering::Less);
}

#[test]
fn equal_only_for_identical_strings() {
    assert_eq!(natural_cmp("DH-007", "DH-007"), Ordering::Equal);
    assert_eq!(natural_cmp("", ""), Ordering::Equal);
    assert_ne!(natural_cmp("dh-7", "DH-7"), Ordering::Equal);
}

#[test]
fn shorter_prefix_sorts_first() {
    assert_eq!(natural_cmp("", "a"), Ordering::Less);
    assert_eq!(natural_cmp("Pit", "Pit 1"), Ordering::Less);
    assert_eq!(natural_cmp("Pit 1", "Pit"), Ordering::Greater);
}

#[test]
fn long_digit_runs_do_not_overflow() {
    let a = "x99999999999999999999999999999999";
    let b = "x100000000000000000000000000000000";
    assert_eq!(natural_cmp(a, b), Ordering::Less);
}

#[test]
fn digits_against_letters_compare_as_characters() {
    assert_eq!(natural_cmp("1", "a"), Ordering::Less);
    assert_eq!(natural_cmp("-", "1"), Ordering::Less);
}

#[test]
fn sorting_with_natural_order() {
    let mut names = vec!["DH10", "dh2", "DH1", "Dh02"];
    names.sort_by(|a, b| natural_cmp(a, b));
    assert_eq!(names, vec!["DH1", "Dh02", "dh2", "DH10"]);
}

#[test]
fn fold_char_lowercases_ascii_only() {
    assert_eq!(fold_char('A'), 'a');
    assert_eq!(fold_char('Z'), 'z');
    assert_eq!(fold_char('z'), 'z');
    assert_eq!(fold_char('7'), '7');
    assert_eq!(fold_char('Ä'), 'Ä');
}

#[test]
fn take_digit_run_stops_at_first_non_digit() {
    let chars: Vec<char> = "ab123c4".chars().collect();
    assert_eq!(take_digit_run(&chars, 2), vec!['1', '2', '3']);
    assert_eq!(take_digit_run(&chars, 0), Vec::<char>::new());
    assert_eq!(take_digit_run(&chars, 6), vec!['4']);
    assert_eq!(take_digit_run(&chars, 7), Vec::<char>::new());
}

#[test]
fn compare_digit_runs_is_numeric() {
    let run = |s: &str| s.chars().collect::<Vec<char>>();
    assert_eq!(compare_digit_runs(&run("007"), &run("7")), Ordering::Equal);
    assert_eq!(compare_digit_runs(&run("9"), &run("10")), Ordering::Less);
    assert_eq!(compare_digit_runs(&run("20"), &run("19")), Ordering::Greater);
    assert_eq!(compare_digit_runs(&run("000"), &run("")), Ordering::Equal);
}

#[test]
fn natural_order_is_transitive_on_samples() {
    let samples = ["a", "A", "a1", "a01", "a2", "a10", "b", "1", "01", "10", "-", "z9z", "Z10"];
    for x in samples {
        for y in samples {
            assert_eq!(natural_cmp(x, y), natural_cmp(y, x).reverse());
            for z in samples {
                if natural_cmp(x, y) == Ordering::Less && natural_cmp(y, z) == Ordering::Less {
                    assert_eq!(natural_cmp(x, z), Ordering::Less);
                }
            }
        }
    }
}
