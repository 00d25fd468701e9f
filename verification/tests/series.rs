use spam_stats::calendar::Date;
use spam_stats::order::Key;
use spam_stats::series::{bin_by, bin_keys, count_key, dense_counts_between, key_bounds};
use spam_stats::statistics::IntoBins;

#[test]
fn key_bounds_of_nothing() {
    assert_eq!(key_bounds(&vec![]), None);
}

#[test]
fn key_bounds_of_one_key() {
    assert_eq!(key_bounds(&vec![-4]), Some((-4, -4)));
}

#[test]
fn key_bounds_of_many_keys() {
    assert_eq!(key_bounds(&vec![3, -1, 7, 0, 7, -1]), Some((-1, 7)));
    assert_eq!(key_bounds(&vec![i32::MAX, i32::MIN]), Some((i32::MIN, i32::MAX)));
}

#[test]
fn count_key_counts_occurrences() {
    let keys = vec![1, 2, 1, 3, 1];
    assert_eq!(count_key(&keys, 1), 3);
    assert_eq!(count_key(&keys, 2), 1);
    assert_eq!(count_key(&keys, 4), 0);
    assert_eq!(count_key(&vec![], 4), 0);
}

#[test]
fn dense_counts_fill_gaps_with_zero() {
    let keys = vec![5, 2, 2];
    assert_eq!(dense_counts_between(&keys, 2, 5), vec![(2, 2), (3, 0), (4, 0), (5, 1)]);
}

#[test]
fn dense_counts_ignore_keys_outside_the_range() {
    let keys = vec![0, 1, 2, 3, 3, 9];
    assert_eq!(dense_counts_between(&keys, 1, 3), vec![(1, 1), (2, 1), (3, 2)]);
    assert_eq!(dense_counts_between(&keys, 4, 4), vec![(4, 0)]);
}

#[test]
fn dense_counts_of_negative_keys() {
    let keys = vec![-2, -2, 0];
    assert_eq!(dense_counts_between(&keys, -3, 1), vec![(-3, 0), (-2, 2), (-1, 0), (0, 1), (1, 0)]);
}

#[test]
fn bin_keys_sorts_and_counts() {
    assert_eq!(bin_keys(&vec![3, 1, 3, 2, 3, 1]), vec![(1, 2), (2, 1), (3, 3)]);
}

#[test]
fn bin_keys_fills_no_gaps() {
    assert_eq!(bin_keys(&vec![10, -10, 10]), vec![(-10, 1), (10, 2)]);
}

#[test]
fn bin_keys_of_nothing() {
    assert_eq!(bin_keys(&vec![]), vec![]);
}

#[test]
fn into_bins_of_a_vector() {
    assert_eq!(vec![2, 2, 1].into_bins(), vec![(1, 1), (2, 2)]);
    assert_eq!(Vec::<i32>::new().into_bins(), vec![]);
}

#[test]
fn bin_by_groups_keys_of_any_ordered_kind() {
    assert_eq!(bin_by(vec![3usize, 1, 3, 0]), vec![(0, 1), (1, 1), (3, 2)]);
    assert_eq!(bin_by(vec![-1i32, -1, -5]), vec![(-5, 1), (-1, 2)]);
    let (monday, friday) = (Date { days: 738_887 }, Date { days: 738_891 });
    assert_eq!(bin_by(vec![friday, monday, friday, friday]), vec![(monday, 1), (friday, 3)]);
    assert_eq!(bin_by(Vec::<usize>::new()), vec![]);
}

#[test]
fn into_bins_of_dates() {
    let (first, second) = (Date { days: 10 }, Date { days: 11 });
    assert_eq!(vec![second, first, second].into_bins(), vec![(first, 1), (second, 2)]);
}

fn labels(texts: &[&str]) -> Vec<String> {
    texts.iter().map(|text| text.to_string()).collect()
}

#[test]
fn into_bins_of_category_labels() {
    let actions = labels(&["reject", "no action", "greylist", "no action", "reject", "no action"]);
    assert_eq!(
        actions.into_bins(),
        vec![("greylist".to_string(), 1), ("no action".to_string(), 3), ("reject".to_string(), 2)]
    );
    assert_eq!(Vec::<String>::new().into_bins(), vec![]);
}

#[test]
fn bin_by_sorts_labels_as_the_dictionary_does() {
    let texts = ["b", "", "ab", "a", "abc", "B", "a", "\u{e9}t\u{e9}", "z", "ab", "\u{1f600}", "a b"];
    let mut expected: Vec<String> = labels(&texts);
    expected.sort();
    expected.dedup();
    let bins = bin_by(labels(&texts));
    let keys: Vec<String> = bins.iter().map(|(key, _)| key.clone()).collect();
    assert_eq!(keys, expected);
    for (key, count) in bins {
        assert_eq!(count, texts.iter().filter(|text| **text == key).count());
    }
}

#[test]
fn labels_precede_in_dictionary_order() {
    let before = |a: &str, b: &str| a.to_string().precedes(&b.to_string());
    assert!(before("", "a"));
    assert!(!before("", ""));
    assert!(!before("a", ""));
    assert!(before("a", "ab"));
    assert!(!before("ab", "a"));
    assert!(before("ab", "b"));
    assert!(!before("b", "ab"));
    assert!(!before("same", "same"));
    assert!(before("Z", "a"));
    assert!(before("z", "\u{e9}"));
    assert!(before("\u{e9}", "\u{1f600}"));
    assert!(3i32.precedes(&4));
    assert!(!4usize.precedes(&4));
    assert!(Date { days: -1 }.precedes(&Date { days: 0 }));
}
