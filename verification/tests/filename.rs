use rubble::filename::{
    current_file_name, descriptor_file_name, info_log_file_name, lock_file_name, log_file_name,
    make_file_name, old_info_log_file_name, parse_file_name, ssttable_file_name, table_file_name,
    temp_file_name, FileType,
};

#[test]
fn composed_names_carry_padded_numbers() {
    assert_eq!(make_file_name("db", 7, "log"), "db/000007.log");
    assert_eq!(make_file_name("db", 123456, "ldb"), "db/123456.ldb");
    assert_eq!(make_file_name("db", 12345678, "sst"), "db/12345678.sst");
    assert_eq!(log_file_name("store", 42), "store/000042.log");
    assert_eq!(table_file_name("store", 9), "store/000009.ldb");
    assert_eq!(ssttable_file_name("store", 9), "store/000009.sst");
    assert_eq!(temp_file_name("store", 3), "store/000003.dbtmp");
}

#[test]
fn fixed_names() {
    assert_eq!(current_file_name("db"), "db/CURRENT");
    assert_eq!(lock_file_name("db"), "db/LOCK");
    assert_eq!(info_log_file_name("db"), "db/LOG");
    assert_eq!(old_info_log_file_name("db"), "db/LOG.old");
    assert_eq!(descriptor_file_name("db", 5), "db//MANIFEST-5");
}

#[test]
fn parse_recognizes_fixed_names() {
    let d = parse_file_name("CURRENT").unwrap();
    assert_eq!(d.number, 0);
    assert!(matches!(d.file_type, FileType::CurrentFile));

    let d = parse_file_name("LOCK").unwrap();
    assert!(matches!(d.file_type, FileType::DBLockFile));

    let d = parse_file_name("LOG").unwrap();
    assert!(matches!(d.file_type, FileType::InfoLogFile));

    let d = parse_file_name("LOG.old").unwrap();
    assert!(matches!(d.file_type, FileType::InfoLogFile));
}

#[test]
fn parse_reads_numbers_and_suffixes() {
    let d = parse_file_name("MANIFEST-000005").unwrap();
    assert_eq!(d.number, 5);
    assert!(matches!(d.file_type, FileType::DescriptorFile));

    let d = parse_file_name("000123.log").unwrap();
    assert_eq!(d.number, 123);
    assert!(matches!(d.file_type, FileType::LogFile));

    let d = parse_file_name("000009.sst").unwrap();
    assert_eq!(d.number, 9);
    assert!(matches!(d.file_type, FileType::TableFile));

    let d = parse_file_name("000009.ldb").unwrap();
    assert!(matches!(d.file_type, FileType::TableFile));

    let d = parse_file_name("000004.dbtmp").unwrap();
    assert_eq!(d.number, 4);
    assert!(matches!(d.file_type, FileType::TempFile));
}

#[test]
fn parse_rejects_unknown_names() {
    assert!(parse_file_name("").is_err());
    assert!(parse_file_name("nodigits").is_err());
    assert!(parse_file_name("123.unknown").is_err());
    assert!(parse_file_name("MANIFEST-notanumber").is_err());
}
