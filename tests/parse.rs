use cbms::parse::{from_base36, make_bms_resource_table, push_indices_from_str_to_arglist, BMSImportError};

fn chars(s: &str) -> Vec<char> {
    s.chars().collect()
}

#[test]
fn base36_digits() {
    assert_eq!(from_base36(&chars("00")), Ok(0));
    assert_eq!(from_base36(&chars("0A")), Ok(10));
    assert_eq!(from_base36(&chars("0z")), Ok(35));
    assert_eq!(from_base36(&chars("ZZ")), Ok(1295));
    assert_eq!(from_base36(&chars("zzzzzz")), Ok(2176782335));
    assert_eq!(from_base36(&chars("")), Ok(0));
    assert_eq!(from_base36(&chars("1-")), Err(()));
}

#[test]
fn indices_in_pairs() {
    let mut args = vec![99];
    let mut cnt = 0usize;
    let r = push_indices_from_str_to_arglist(&chars("01020A1"), &mut args, &mut cnt);
    assert_eq!(r, Ok(()));
    assert_eq!(args, vec![99, 1, 2, 10]);
    assert_eq!(cnt, 3);
}

#[test]
fn indices_stop_at_bad_pair() {
    let mut args = Vec::new();
    let mut cnt = 0usize;
    let r = push_indices_from_str_to_arglist(&chars("0Z!!01"), &mut args, &mut cnt);
    assert_eq!(r, Err(BMSImportError::InvalidBase36Format));
    assert_eq!(args, vec![35]);
    assert_eq!(cnt, 1);
}

#[test]
fn resource_table_last_definition_wins() {
    let entries = vec![
        (2u32, "b.wav".to_string()),
        (0u32, "a.wav".to_string()),
        (2u32, "c.wav".to_string()),
    ];
    let table = make_bms_resource_table(&entries);
    assert_eq!(table, vec!["a.wav".to_string(), String::new(), "c.wav".to_string()]);
    assert!(make_bms_resource_table(&Vec::new()).is_empty());
}
