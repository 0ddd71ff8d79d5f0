use profile_store::command::Action;
use profile_store::errors::Errors;
use profile_store::profile::Profile;
use profile_store::session::{discrimination, ingest_lines, parse_line};

fn lines(ls: &[&str]) -> Vec<String> {
    ls.iter().map(|l| l.to_string()).collect()
}

#[test]
fn raw_line_is_ingested() {
    let mut s: Vec<Profile> = Vec::new();
    let r = parse_line(&"1,A,2000-1-1,X,n".to_string(), &mut s).unwrap();
    assert!(matches!(r, Action::Done));
    assert_eq!(s.len(), 1);
    assert_eq!(s[0].id, 1);
}

#[test]
fn command_line_is_dispatched() {
    let mut s: Vec<Profile> = Vec::new();
    parse_line(&"1,A,2000-1-1,X,n".to_string(), &mut s).unwrap();
    match parse_line(&"%C".to_string(), &mut s).unwrap() {
        Action::Show(out) => assert_eq!(out, vec!["1 profile(s).".to_string()]),
        other => panic!("unexpected {:?}", other),
    }
}

#[test]
fn command_line_with_newline() {
    let mut s: Vec<Profile> = Vec::new();
    assert!(matches!(
        parse_line(&"%Q\n".to_string(), &mut s).unwrap(),
        Action::Terminate
    ));
}

#[test]
fn bad_raw_line_reports_error_and_leaves_store() {
    let mut s: Vec<Profile> = Vec::new();
    parse_line(&"1,A,2000-1-1,X,n".to_string(), &mut s).unwrap();
    let e = parse_line(&"oops".to_string(), &mut s).unwrap_err();
    assert_eq!(e, Errors::InvalidFormat);
    assert_eq!(s.len(), 1);
}

#[test]
fn unknown_command_leaves_store_and_loop_continues() {
    let mut s: Vec<Profile> = Vec::new();
    parse_line(&"1,A,2000-1-1,X,n".to_string(), &mut s).unwrap();
    let e = parse_line(&"%X whatever".to_string(), &mut s).unwrap_err();
    assert_eq!(e, Errors::NotFound);
    assert_eq!(s.len(), 1);
    // the next line is processed as usual
    let r = parse_line(&"2,B,2000-1-2,Y,m".to_string(), &mut s).unwrap();
    assert!(matches!(r, Action::Done));
    assert_eq!(s.len(), 2);
}

#[test]
fn missing_argument_leaves_store_unchanged() {
    let mut s: Vec<Profile> = Vec::new();
    parse_line(&"1,A,2000-1-1,X,n".to_string(), &mut s).unwrap();
    let e = parse_line(&"%P".to_string(), &mut s).unwrap_err();
    assert_eq!(e, Errors::InvalidFormat);
    assert_eq!(s.len(), 1);
    let r = parse_line(&"%C".to_string(), &mut s).unwrap();
    assert!(matches!(r, Action::Show(_)));
}

#[test]
fn discrimination_parses_and_executes() {
    let mut s: Vec<Profile> = Vec::new();
    match discrimination("C".to_string(), &mut s).unwrap() {
        Action::Show(out) => assert_eq!(out, vec!["0 profile(s).".to_string()]),
        other => panic!("unexpected {:?}", other),
    }
    assert_eq!(
        discrimination("P ten".to_string(), &mut s).unwrap_err(),
        Errors::Parse
    );
}

#[test]
fn ingest_all_valid_lines() {
    let mut s: Vec<Profile> = Vec::new();
    let ls = lines(&["1,A,2000-1-1,X,a", "2,B,2000-1-2,Y,b"]);
    ingest_lines(&mut s, &ls).unwrap();
    let ids: Vec<u32> = s.iter().map(|p| p.id).collect();
    assert_eq!(ids, vec![1, 2]);
}

#[test]
fn ingest_stops_at_first_bad_line() {
    let mut s: Vec<Profile> = Vec::new();
    let ls = lines(&[
        "1,A,2000-1-1,X,a",
        "2,B,2000-1-2,Y,b",
        "3,C,2000-1-3,Z,c",
        "broken line",
        "4,D,2000-1-4,W,d",
        "5,E,2000-1-5,V,e",
    ]);
    let e = ingest_lines(&mut s, &ls).unwrap_err();
    assert_eq!(e, Errors::InvalidFormat);
    // exactly the three records before the bad line were appended
    let ids: Vec<u32> = s.iter().map(|p| p.id).collect();
    assert_eq!(ids, vec![1, 2, 3]);
}

#[test]
fn ingest_appends_to_existing_records() {
    let mut s: Vec<Profile> = Vec::new();
    parse_line(&"9,Z,1990-9-9,Old,o".to_string(), &mut s).unwrap();
    let ls = lines(&["1,A,2000-1-1,X,a"]);
    ingest_lines(&mut s, &ls).unwrap();
    let ids: Vec<u32> = s.iter().map(|p| p.id).collect();
    assert_eq!(ids, vec![9, 1]);
}

#[test]
fn ingest_empty_file() {
    let mut s: Vec<Profile> = Vec::new();
    let ls: Vec<String> = Vec::new();
    ingest_lines(&mut s, &ls).unwrap();
    assert!(s.is_empty());
}

#[test]
fn session_write_then_ingest_round_trip() {
    let mut s: Vec<Profile> = Vec::new();
    parse_line(&"1,A,2000-1-1,X,a".to_string(), &mut s).unwrap();
    parse_line(&"2,B,2001-2-3,Y,b,with comma".to_string(), &mut s).unwrap();
    let saved = match parse_line(&"%W out.csv".to_string(), &mut s).unwrap() {
        Action::SaveFile(_, ls) => ls,
        other => panic!("unexpected {:?}", other),
    };
    let mut t: Vec<Profile> = Vec::new();
    ingest_lines(&mut t, &saved).unwrap();
    assert_eq!(t.len(), 2);
    assert_eq!(t[1].note, "b,with comma");
    assert_eq!(t[1].form_csv(), s[1].form_csv());
}
