use key_value_store::names::{
    data_path, idx_path, join, parse_segment_name, to_decimal, walk_dir, DATA_FILE_EXT,
    INDEX_FILE_EXT,
};

#[test]
fn to_decimal_writes_numerals_without_leading_zeros() {
    assert_eq!(to_decimal(0), "0");
    assert_eq!(to_decimal(7), "7");
    assert_eq!(to_decimal(10), "10");
    assert_eq!(to_decimal(1234567890), "1234567890");
    assert_eq!(to_decimal(u64::MAX), "18446744073709551615");
}

#[test]
fn data_path_is_the_number_with_the_kv_extension_under_the_root() {
    assert_eq!(data_path("db", 0), "db/0.kv");
    assert_eq!(data_path("./range-kv", 12), "./range-kv/12.kv");
    assert_eq!(data_path("db/", 3), "db/3.kv");
    assert_eq!(data_path("", 3), "3.kv");
    assert_eq!(DATA_FILE_EXT, "kv");
}

#[test]
fn idx_path_is_db_idx_under_the_root() {
    assert_eq!(idx_path("db"), "db/db.idx");
    assert_eq!(idx_path("db/temp"), "db/temp/db.idx");
    assert_eq!(INDEX_FILE_EXT, "idx");
}

#[test]
fn join_puts_one_separator_between_root_and_name() {
    assert_eq!(join("a", "b"), "a/b");
    assert_eq!(join("a/", "b"), "a/b");
    assert_eq!(join("", "b"), "b");
    assert_eq!(join("/", "b"), "/b");
}

#[test]
fn parse_segment_name_reads_the_number_before_kv() {
    assert_eq!(parse_segment_name("0.kv"), Some(0));
    assert_eq!(parse_segment_name("12.kv"), Some(12));
    assert_eq!(parse_segment_name("007.kv"), Some(7));
    assert_eq!(parse_segment_name("+5.kv"), Some(5));
    assert_eq!(parse_segment_name("18446744073709551615.kv"), Some(u64::MAX));
}

#[test]
fn parse_segment_name_refuses_other_names() {
    assert_eq!(parse_segment_name("db.idx"), None);
    assert_eq!(parse_segment_name(".kv"), None);
    assert_eq!(parse_segment_name("+.kv"), None);
    assert_eq!(parse_segment_name("kv"), None);
    assert_eq!(parse_segment_name("1.kv.bak"), None);
    assert_eq!(parse_segment_name("1.2.kv"), None);
    assert_eq!(parse_segment_name("-1.kv"), None);
    assert_eq!(parse_segment_name("1a.kv"), None);
    assert_eq!(parse_segment_name("1.KV"), None);
    assert_eq!(parse_segment_name("18446744073709551616.kv"), None);
    assert_eq!(parse_segment_name("99999999999999999999999.kv"), None);
    assert_eq!(parse_segment_name(""), None);
}

#[test]
fn parse_segment_name_reads_back_what_data_path_names() {
    for id in [0u64, 1, 9, 10, 99, 100, 4096, u64::MAX] {
        let name = data_path("", id);
        assert_eq!(parse_segment_name(&name), Some(id));
    }
}

#[test]
fn walk_dir_lists_segment_numbers_in_ascending_order_once() {
    let names: Vec<String> = ["10.kv", "db.idx", "2.kv", "temp", "0.kv", "02.kv", "x.kv", "1.kv"]
        .iter()
        .map(|s| s.to_string())
        .collect();
    assert_eq!(walk_dir(&names), vec![0, 1, 2, 10]);
    assert_eq!(walk_dir(&Vec::new()), Vec::<u64>::new());
}
