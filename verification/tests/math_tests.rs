use remove_duplicates::math::{mcd, mcm};

#[test]
fn test_mcd_basic() {
    assert_eq!(mcd(12, 8), 4);
    assert_eq!(mcd(54, 24), 6);
    assert_eq!(mcd(48, 18), 6);
}

#[test]
fn test_mcd_with_zero() {
    assert_eq!(mcd(0, 5), 5);
    assert_eq!(mcd(10, 0), 10);
}

#[test]
fn test_mcd_same_number() {
    assert_eq!(mcd(7, 7), 7);
    assert_eq!(mcd(0, 0), 0);
}

#[test]
fn test_mcd_coprime() {
    assert_eq!(mcd(13, 7), 1);
    assert_eq!(mcd(17, 19), 1);
}

#[test]
fn test_mcm_basic() {
    assert_eq!(mcm(4, 6), 12);
    assert_eq!(mcm(8, 12), 24);
    assert_eq!(mcm(5, 7), 35);
}

#[test]
fn test_mcm_with_common_divisor() {
    assert_eq!(mcm(12, 18), 36);
    assert_eq!(mcm(15, 25), 75);
}

#[test]
fn test_mcm_same_number() {
    assert_eq!(mcm(7, 7), 7);
}

#[test]
fn test_mcm_with_one() {
    assert_eq!(mcm(1, 5), 5);
    assert_eq!(mcm(10, 1), 10);
}

#[test]
fn test_mcm_with_zero_argument() {
    assert_eq!(mcm(0, 5), 0);
    assert_eq!(mcm(5, 0), 0);
}
