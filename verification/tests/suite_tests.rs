use dbfs::consistency::run_elle_jepsen_tests;
use dbfs::selftest::{run_all_tests, run_basic_tests, run_dbfs_tests};

#[test]
fn basic_suite_passes() {
    assert_eq!(run_basic_tests(), (5, 5));
}

#[test]
fn full_suite_passes() {
    assert_eq!(run_all_tests(), (13, 13));
}

#[test]
fn consistency_suite_passes() {
    assert_eq!(run_elle_jepsen_tests(), (10, 10));
}

#[test]
fn every_suite_passes() {
    assert_eq!(run_dbfs_tests(), (28, 28));
}
