use oma_apt::util::cmp_versions;
use std::cmp::Ordering;

#[test]
fn plain_versions_order_numerically() {
    assert_eq!(cmp_versions("5.0", "6.0"), Ordering::Less);
    assert_eq!(cmp_versions("6.0", "5.0"), Ordering::Greater);
    assert_eq!(cmp_versions("1.10", "1.9"), Ordering::Greater);
}

#[test]
fn revisions_compare_after_upstream() {
    assert_eq!(cmp_versions("1.0-1", "1.0-2"), Ordering::Less);
    assert_eq!(cmp_versions("1.0-10", "1.0-9"), Ordering::Greater);
    assert_eq!(cmp_versions("1.1-1", "1.0-9"), Ordering::Greater);
}

#[test]
fn tilde_sorts_before_everything() {
    assert_eq!(cmp_versions("1.0~rc1", "1.0"), Ordering::Less);
    assert_eq!(cmp_versions("1.0~~", "1.0~"), Ordering::Less);
    assert_eq!(cmp_versions("1.0~", "1.0"), Ordering::Less);
}

#[test]
fn letters_sort_before_other_symbols() {
    assert_eq!(cmp_versions("1.0a", "1.0+"), Ordering::Less);
    assert_eq!(cmp_versions("1.0", "1.0a"), Ordering::Less);
    assert_eq!(cmp_versions("1.0a", "1.0b"), Ordering::Less);
}

#[test]
fn epoch_outweighs_the_rest() {
    assert_eq!(cmp_versions("1:0.1", "9.9"), Ordering::Greater);
    assert_eq!(cmp_versions("0:1.0", "1.0"), Ordering::Equal);
    assert_eq!(cmp_versions("2:1.0", "10:1.0"), Ordering::Less);
}

#[test]
fn equal_readings_of_one_version() {
    assert_eq!(cmp_versions("1.0", "1.0"), Ordering::Equal);
    assert_eq!(cmp_versions("1.0", "1.00"), Ordering::Equal);
    assert_eq!(cmp_versions("1.0", "1.0-0"), Ordering::Equal);
    assert_eq!(cmp_versions("", ""), Ordering::Equal);
}

#[test]
fn comparison_reverses_with_its_arguments() {
    let versions = ["1.0", "1.0~rc1", "1:0.5", "2.0-1", "2.0-1.1", "1.0a", "0.9+b1", ""];
    for a in versions {
        assert_eq!(cmp_versions(a, a), Ordering::Equal);
        for b in versions {
            assert_eq!(cmp_versions(a, b), cmp_versions(b, a).reverse());
        }
    }
}

#[test]
fn last_dash_starts_the_revision() {
    assert_eq!(cmp_versions("1.0-beta-2", "1.0-beta-10"), Ordering::Less);
    assert_eq!(cmp_versions("1.0-beta-2", "1.0-2"), Ordering::Greater);
}

#[test]
fn empty_revision_sorts_below_zero() {
    assert_eq!(cmp_versions("1.0-", "1.0"), Ordering::Less);
    assert_eq!(cmp_versions("1.0-", "1.0-0"), Ordering::Less);
    assert_eq!(cmp_versions("1.0-", "1.0-~"), Ordering::Greater);
    assert_eq!(cmp_versions("1.0", "1.0-0"), Ordering::Equal);
}

#[test]
fn zero_epoch_is_no_epoch() {
    assert_eq!(cmp_versions("00:1.0", "1.0"), Ordering::Equal);
    assert_eq!(cmp_versions("01:1.0", "1:1.0"), Ordering::Equal);
    assert_eq!(cmp_versions("0~:1.0", "1.0"), Ordering::Less);
}
