use tsdb_engine::lsm::names::{
    count_sst_files, find_max_seq, is_sst_file, list_sst_files, sst_name,
};

fn bytes(names: &[&str]) -> Vec<Vec<u8>> {
    names.iter().map(|name| name.as_bytes().to_vec()).collect()
}

#[test]
fn names_have_at_least_six_digits() {
    assert_eq!(sst_name(0), b"000000.sst".to_vec());
    assert_eq!(sst_name(1), b"000001.sst".to_vec());
    assert_eq!(sst_name(123_456), b"123456.sst".to_vec());
    assert_eq!(sst_name(1_234_567), b"1234567.sst".to_vec());
    assert_eq!(sst_name(u64::MAX), b"18446744073709551615.sst".to_vec());
}

#[test]
fn highest_number_is_found() {
    assert_eq!(find_max_seq(&bytes(&[])), 0);
    assert_eq!(find_max_seq(&bytes(&["wal.bin", "000002.sst", "000010.sst", "9.sst"])), 10);
    assert_eq!(find_max_seq(&bytes(&["+7.sst", "-9.sst", "8 .sst", ".sst", "+.sst", "x9.sst"])), 7);
    assert_eq!(find_max_seq(&bytes(&["000042.ss", "sst", "000042.sst.bak"])), 0);
    assert_eq!(find_max_seq(&bytes(&["18446744073709551615.sst"])), u64::MAX);
    assert_eq!(find_max_seq(&bytes(&["18446744073709551616.sst", "5.sst"])), 5);
    assert_eq!(find_max_seq(&bytes(&["000000000000000000000000000003.sst"])), 3);
}

#[test]
fn numbers_come_back_from_names() {
    for seq in [0, 1, 9, 10, 999_999, 1_000_000, u64::MAX] {
        assert_eq!(find_max_seq(&vec![sst_name(seq)]), seq);
    }
}

#[test]
fn tables_are_told_by_their_suffix() {
    assert!(is_sst_file(b"000001.sst"));
    assert!(is_sst_file(b"a.sst"));
    assert!(is_sst_file(b"..sst"));
    assert!(!is_sst_file(b".sst"));
    assert!(!is_sst_file(b"sst"));
    assert!(!is_sst_file(b"000001.SST"));
    assert!(!is_sst_file(b"wal.bin"));
}

#[test]
fn tables_are_listed_in_order_of_their_numbers() {
    let names = bytes(&["000010.sst", "wal.bin", "000002.sst", ".sst", "11.sst", "000009.sst"]);
    assert_eq!(count_sst_files(&names), 4);
    assert_eq!(
        list_sst_files(names),
        bytes(&["000002.sst", "000009.sst", "000010.sst", "11.sst"])
    );
}

#[test]
fn names_without_a_number_are_listed_in_order_of_their_bytes() {
    let names = bytes(&["b.sst", "000001.sst", "-1.sst", "0x.sst", "000002.sst", "5x.sst", "6.sst"]);
    assert_eq!(
        list_sst_files(names),
        bytes(&["-1.sst", "000001.sst", "000002.sst", "0x.sst", "5x.sst", "6.sst", "b.sst"])
    );
}

#[test]
fn numbers_keep_the_places_of_their_names() {
    let names = bytes(&["1000000.sst", "5x.sst", "999999.sst", "b.sst", "2.sst", "000002.sst"]);
    // By their bytes: 000002, 1000000, 2, 5x, 999999, b.
    assert_eq!(
        list_sst_files(names),
        bytes(&["000002.sst", "2.sst", "999999.sst", "5x.sst", "1000000.sst", "b.sst"])
    );
    let names = bytes(&["18446744073709551616.sst", "3.sst", "10.sst"]);
    assert_eq!(
        list_sst_files(names),
        bytes(&["3.sst", "18446744073709551616.sst", "10.sst"])
    );
}

#[test]
fn order_of_the_directory_does_not_matter() {
    let names: Vec<Vec<u8>> = (0..50).map(|i| sst_name(i * 7 % 50)).collect();
    let listed: Vec<Vec<u8>> = (0..50).map(sst_name).collect();
    assert_eq!(list_sst_files(names), listed);
}

#[test]
fn seventh_digit_keeps_the_order() {
    let names = vec![sst_name(1_000_000), sst_name(u64::MAX), sst_name(999_999)];
    assert_eq!(
        list_sst_files(names),
        vec![sst_name(999_999), sst_name(1_000_000), sst_name(u64::MAX)]
    );
}
