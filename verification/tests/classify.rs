use pkg_extractor::filetype::FileType;

#[test]
fn classify_named_kinds() {
    assert_eq!(FileType::from_mode(0o040755), FileType::Directory);
    assert_eq!(FileType::from_mode(0o100644), FileType::Regular);
    assert_eq!(FileType::from_mode(0o120777), FileType::Symlink);
    assert_eq!(FileType::from_mode(0o140000), FileType::Socket);
    assert_eq!(FileType::from_mode(0o060660), FileType::BlockDevice);
    assert_eq!(FileType::from_mode(0o020620), FileType::CharacterDevice);
    assert_eq!(FileType::from_mode(0o010600), FileType::Fifo);
}

#[test]
fn classify_unknown_kind() {
    assert_eq!(FileType::from_mode(0o170000), FileType::Unknown(0o170000));
    assert_eq!(FileType::from_mode(0), FileType::Unknown(0));
    assert_eq!(FileType::from_mode(0o000644), FileType::Unknown(0));
}

#[test]
fn classify_mask_idempotent() {
    for mode in [0u32, 0o040755, 0o100644, 0o120777, 0o147777, 0xffff_ffff, 0o123456] {
        let masked = mode & 0o170000;
        assert_eq!(FileType::from_mode(masked), FileType::from_mode(mode));
    }
}

#[test]
fn classify_deterministic() {
    let mode = 0o100755u32;
    assert_eq!(FileType::from_mode(mode), FileType::from_mode(mode));
}
