use bitcask::filename::FileType;

#[test]
fn test_get_filename() {
    assert_eq!("LOCK", FileType::Lock.get_filename(0).as_str());
    assert_eq!("CURRENT", FileType::Current.get_filename(0).as_str());
    assert_eq!("MANIFEST-000000001", FileType::Manifest.get_filename(1).as_str());
    assert_eq!("000000002.dat", FileType::Log.get_filename(2).as_str());
    assert_eq!("000000003.hit", FileType::Hint.get_filename(3).as_str());
}

#[test]
fn filename_wider_than_padding() {
    assert_eq!("1234567890.rew", FileType::Rewrite.get_filename(1234567890).as_str());
    assert_eq!(
        "18446744073709551615.dat",
        FileType::Log.get_filename(u64::MAX).as_str()
    );
    assert_eq!("000000000.dat", FileType::Log.get_filename(0).as_str());
}

#[test]
fn full_filepath_joins_with_one_separator() {
    assert_eq!(
        "/tmp/db/000000007.dat",
        FileType::Log.get_full_filepath("/tmp/db", 7).as_str()
    );
    assert_eq!(
        "/tmp/db/MANIFEST-000000001",
        FileType::Manifest.get_full_filepath("/tmp/db/", 1).as_str()
    );
    assert_eq!("LOCK", FileType::Lock.get_full_filepath("", 0).as_str());
}
