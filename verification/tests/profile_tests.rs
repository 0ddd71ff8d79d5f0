use profile_store::errors::Errors;
use profile_store::profile::Profile;

#[test]
fn parse_item_basic() {
    let line = "1,Alice,2024-2-29,Wonderland,likes tea".to_string();
    let p = Profile::parse_item(&line).unwrap();
    assert_eq!(p.id, 1);
    assert_eq!(p.name, "Alice");
    assert_eq!((p.birth.y, p.birth.m, p.birth.d), (2024, 2, 29));
    assert_eq!(p.addr, "Wonderland");
    assert_eq!(p.note, "likes tea");
}

#[test]
fn parse_item_trims_line_terminator() {
    let line = "1,Alice,2024-2-29,Wonderland,likes tea\n".to_string();
    let p = Profile::parse_item(&line).unwrap();
    assert_eq!(p.note, "likes tea");
}

#[test]
fn parse_item_note_keeps_commas() {
    let line = "7,Bob,2000-12-31,Town,one,two,three".to_string();
    let p = Profile::parse_item(&line).unwrap();
    assert_eq!(p.note, "one,two,three");
}

#[test]
fn parse_item_too_few_fields() {
    let line = "1,Alice,2024-2-29,Wonderland".to_string();
    assert_eq!(Profile::parse_item(&line).unwrap_err(), Errors::InvalidFormat);
}

#[test]
fn parse_item_bad_id() {
    let line = "x,Alice,2024-2-29,Wonderland,note".to_string();
    assert_eq!(Profile::parse_item(&line).unwrap_err(), Errors::Parse);
}

#[test]
fn parse_item_bad_date_propagates() {
    let line = "1,Alice,2024-2-30,Wonderland,note".to_string();
    assert_eq!(Profile::parse_item(&line).unwrap_err(), Errors::InvalidValue);
    let line = "1,Alice,2024-2,Wonderland,note".to_string();
    assert_eq!(Profile::parse_item(&line).unwrap_err(), Errors::InvalidFormat);
}

#[test]
fn parse_item_empty_fields_allowed() {
    let line = "0,,1-1-1,,".to_string();
    let p = Profile::parse_item(&line).unwrap();
    assert_eq!(p.id, 0);
    assert_eq!(p.name, "");
    assert_eq!(p.addr, "");
    assert_eq!(p.note, "");
}

#[test]
fn csv_round_trip_canonical_line() {
    let line = "12,Alice,2024-9-1,Main St. 4,note text".to_string();
    let p = Profile::parse_item(&line).unwrap();
    assert_eq!(p.form_csv(), line);
}

#[test]
fn csv_round_trip_with_comma_note() {
    let line = "3,N,1999-12-5,A,x,y".to_string();
    let p = Profile::parse_item(&line).unwrap();
    assert_eq!(p.form_csv(), line);
}

#[test]
fn csv_normalizes_padded_date() {
    let line = "3,N,1999-02-05,A,x".to_string();
    let p = Profile::parse_item(&line).unwrap();
    assert_eq!(p.form_csv(), "3,N,1999-2-5,A,x");
}

#[test]
fn new_builds_and_validates() {
    let p = Profile::new(
        9,
        "Eve".to_string(),
        "2001-7-16".to_string(),
        "Hill".to_string(),
        "n".to_string(),
    )
    .unwrap();
    assert_eq!(p.id, 9);
    assert_eq!((p.birth.y, p.birth.m, p.birth.d), (2001, 7, 16));
    let e = Profile::new(
        9,
        "Eve".to_string(),
        "2001-0-16".to_string(),
        "Hill".to_string(),
        "n".to_string(),
    )
    .unwrap_err();
    assert_eq!(e, Errors::InvalidValue);
}

#[test]
fn find_matches_each_field_exactly() {
    let line = "42,Carol,1980-3-4,Harbor,hello world".to_string();
    let p = Profile::parse_item(&line).unwrap();
    assert!(p.find_profile(&"42".to_string()));
    assert!(p.find_profile(&"Carol".to_string()));
    assert!(p.find_profile(&"1980-3-4".to_string()));
    assert!(p.find_profile(&"Harbor".to_string()));
    assert!(p.find_profile(&"hello world".to_string()));
}

#[test]
fn find_rejects_substrings() {
    let line = "42,Carol,1980-3-4,Harbor,hello world".to_string();
    let p = Profile::parse_item(&line).unwrap();
    assert!(!p.find_profile(&"hello".to_string()));
    assert!(!p.find_profile(&"world".to_string()));
    assert!(!p.find_profile(&"Car".to_string()));
    assert!(!p.find_profile(&"4".to_string()));
    assert!(!p.find_profile(&"".to_string()));
}

#[test]
fn render_lines_labels_and_blank() {
    let line = "1,A,2020-5-6,B,C".to_string();
    let p = Profile::parse_item(&line).unwrap();
    let lines = p.render_lines();
    assert_eq!(
        lines,
        vec![
            "Id:    1".to_string(),
            "Name:  A".to_string(),
            "Birth: 2020-5-6".to_string(),
            "Addr:  B".to_string(),
            "Note:  C".to_string(),
            "".to_string(),
        ]
    );
}

#[test]
fn error_messages() {
    assert_eq!(Errors::Io.message(), "IO error occured");
    assert_eq!(Errors::Parse.message(), "Parse error occured");
    assert_eq!(Errors::InvalidValue.message(), "Invalid value");
    assert_eq!(Errors::InvalidFormat.message(), "Invalid format");
    assert_eq!(Errors::NotFound.message(), "Command not found");
}
