use elastic_hash::slots::find_end;
use elastic_hash::Error;

fn row() -> Vec<Option<(&'static str, u32)>> {
    vec![None, Some(("a", 1)), Some(("b", 2)), None]
}

#[test]
fn lookup_ends_at_the_first_bucket_with_the_key() {
    assert_eq!(find_end(&row(), &vec![1, 2, 0], &"b", false), Some(1));
    assert_eq!(find_end(&row(), &vec![2, 2, 2], &"b", false), Some(0));
    assert_eq!(find_end(&row(), &vec![1, 0, 3, 2], &"b", false), Some(3));
}

#[test]
fn lookup_passes_over_empty_buckets() {
    assert_eq!(find_end(&row(), &vec![0, 3, 0, 1], &"a", false), Some(3));
    assert_eq!(find_end(&row(), &vec![0, 3, 0], &"a", false), None);
}

#[test]
fn insertion_ends_at_the_first_empty_bucket_or_the_key() {
    assert_eq!(find_end(&row(), &vec![1, 2, 3, 0], &"c", true), Some(2));
    assert_eq!(find_end(&row(), &vec![1, 2, 1, 0], &"b", true), Some(1));
    assert_eq!(find_end(&row(), &vec![0, 2], &"b", true), Some(0));
}

#[test]
fn walk_over_other_keys_does_not_end() {
    assert_eq!(find_end(&row(), &vec![1, 2, 2, 1], &"c", true), None);
    assert_eq!(find_end(&row(), &vec![1, 2, 2, 1], &"c", false), None);
    assert_eq!(find_end(&row(), &vec![], &"a", true), None);
}

#[test]
fn probe_beyond_the_row_is_passed_over() {
    assert_eq!(find_end(&row(), &vec![4, 9, 3], &"c", true), Some(2));
    assert_eq!(find_end(&row(), &vec![4, 9], &"a", true), None);
    assert_eq!(find_end(&row(), &vec![7, 1], &"a", false), Some(1));
}

#[test]
fn errors_can_be_told_apart() {
    assert_ne!(Error::KeyAlreadyInserted, Error::TableFull);
    assert_eq!(format!("{:?}", Error::KeyAlreadyInserted), "KeyAlreadyInserted");
    assert_eq!(format!("{:?}", Error::TableFull), "TableFull");
}
