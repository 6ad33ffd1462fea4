use users_groups::idalloc::allocate;
use users_groups::idalloc::IdKind;
use users_groups::listfmt::read_list;
use users_groups::listfmt::write_list;
use users_groups::strfmt::fmt_u32;
use users_groups::strfmt::parse_u32;
use users_groups::EngineError;

#[test]
fn allocate_returns_the_floor_when_nothing_is_taken() {
    assert_eq!(allocate(IdKind::SystemGroup, &vec![]), Ok(400));
    assert_eq!(allocate(IdKind::NormalUser, &vec![]), Ok(1000));
}

#[test]
fn allocate_skips_taken_identifiers() {
    assert_eq!(allocate(IdKind::SystemUser, &vec![400, 401, 403]), Ok(402));
    assert_eq!(allocate(IdKind::NormalGroup, &vec![1001]), Ok(1000));
}

#[test]
fn allocate_is_deterministic() {
    let taken = vec![400, 402, 401];
    assert_eq!(
        allocate(IdKind::SystemGroup, &taken),
        allocate(IdKind::SystemGroup, &taken)
    );
}

#[test]
fn allocate_fails_when_the_range_is_exhausted() {
    let taken: Vec<u32> = (400..=999).collect();
    assert_eq!(
        allocate(IdKind::SystemUser, &taken),
        Err(EngineError::ExhaustedRange)
    );
}

#[test]
fn list_round_trip() {
    let values = vec!["alice".to_string(), "bob".to_string(), "carol".to_string()];
    let text = write_list(&values);
    assert_eq!(text, "alice bob carol");
    assert_eq!(read_list(&text), values);
}

#[test]
fn empty_list_round_trip() {
    let values: Vec<String> = vec![];
    let text = write_list(&values);
    assert_eq!(text, "");
    assert_eq!(read_list(&text), values);
}

#[test]
fn read_list_skips_repeated_separators() {
    assert_eq!(
        read_list("alice  bob "),
        vec!["alice".to_string(), "bob".to_string()]
    );
}

#[test]
fn read_list_splits_on_tabs_and_newlines() {
    assert_eq!(
        read_list("alice\tbob\ncarol\r\n"),
        vec!["alice".to_string(), "bob".to_string(), "carol".to_string()]
    );
}

#[test]
fn decimal_formatting_and_parsing() {
    assert_eq!(fmt_u32(0), "0");
    assert_eq!(fmt_u32(29999), "29999");
    assert_eq!(fmt_u32(4294967295), "4294967295");
    assert_eq!(parse_u32("0"), Some(0));
    assert_eq!(parse_u32("4294967295"), Some(4294967295));
    assert_eq!(parse_u32("4294967296"), None);
    assert_eq!(parse_u32(""), None);
    assert_eq!(parse_u32("12a"), None);
    assert_eq!(parse_u32(fmt_u32(987654).as_str()), Some(987654));
}
