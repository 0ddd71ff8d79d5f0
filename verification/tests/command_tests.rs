use profile_store::command::{Action, Command};
use profile_store::errors::Errors;
use profile_store::profile::Profile;

fn store(lines: &[&str]) -> Vec<Profile> {
    let mut v = Vec::new();
    for l in lines {
        v.push(Profile::parse_item(&l.to_string()).unwrap());
    }
    v
}

fn five_records() -> Vec<Profile> {
    store(&[
        "1,A,2000-1-1,AddrA,na",
        "2,B,2000-1-2,AddrB,nb",
        "3,C,2000-1-3,AddrC,nc",
        "4,D,2000-1-4,AddrD,nd",
        "5,E,2000-1-5,AddrE,ne",
    ])
}

fn shown_ids(action: Action) -> Vec<String> {
    match action {
        Action::Show(lines) => lines
            .into_iter()
            .filter(|l| l.starts_with("Id:    "))
            .map(|l| l["Id:    ".len()..].to_string())
            .collect(),
        other => panic!("expected Show, got {:?}", other),
    }
}

#[test]
fn parse_quit_and_check() {
    assert!(matches!(Command::parse("Q").unwrap(), Command::Quit));
    assert!(matches!(Command::parse("C").unwrap(), Command::Check));
    assert!(matches!(Command::parse("Q\n").unwrap(), Command::Quit));
}

#[test]
fn parse_print_arguments() {
    match Command::parse("P 3").unwrap() {
        Command::Print(n) => assert_eq!(n, 3),
        other => panic!("unexpected {:?}", other),
    }
    match Command::parse("P -2").unwrap() {
        Command::Print(n) => assert_eq!(n, -2),
        other => panic!("unexpected {:?}", other),
    }
    assert_eq!(Command::parse("P").unwrap_err(), Errors::InvalidFormat);
    assert_eq!(Command::parse("P x").unwrap_err(), Errors::Parse);
}

#[test]
fn parse_write_path_may_contain_spaces() {
    match Command::parse("W my file.csv").unwrap() {
        Command::Write(p) => assert_eq!(p, "my file.csv"),
        other => panic!("unexpected {:?}", other),
    }
    assert_eq!(Command::parse("W").unwrap_err(), Errors::InvalidFormat);
}

#[test]
fn parse_read_and_find() {
    match Command::parse("R data.csv").unwrap() {
        Command::Read(p) => assert_eq!(p, "data.csv"),
        other => panic!("unexpected {:?}", other),
    }
    match Command::parse("F hello world").unwrap() {
        Command::Find(w) => assert_eq!(w, "hello world"),
        other => panic!("unexpected {:?}", other),
    }
    assert_eq!(Command::parse("R").unwrap_err(), Errors::InvalidFormat);
    assert_eq!(Command::parse("F").unwrap_err(), Errors::InvalidFormat);
}

#[test]
fn parse_sort_arguments() {
    match Command::parse("S 3").unwrap() {
        Command::Sort(k) => assert_eq!(k, 3),
        other => panic!("unexpected {:?}", other),
    }
    assert_eq!(Command::parse("S").unwrap_err(), Errors::InvalidFormat);
    assert_eq!(Command::parse("S x").unwrap_err(), Errors::Parse);
    assert_eq!(Command::parse("S -1").unwrap_err(), Errors::Parse);
}

#[test]
fn parse_unknown_verbs() {
    assert_eq!(Command::parse("X").unwrap_err(), Errors::NotFound);
    assert_eq!(Command::parse("QQ").unwrap_err(), Errors::NotFound);
    assert_eq!(Command::parse("").unwrap_err(), Errors::NotFound);
    assert_eq!(Command::parse("q").unwrap_err(), Errors::NotFound);
}

#[test]
fn quit_returns_terminate() {
    let mut s = five_records();
    assert!(matches!(
        Command::Quit.call(&mut s).unwrap(),
        Action::Terminate
    ));
    assert_eq!(s.len(), 5);
}

#[test]
fn check_reports_count() {
    let mut s = five_records();
    match Command::Check.call(&mut s).unwrap() {
        Action::Show(lines) => assert_eq!(lines, vec!["5 profile(s).".to_string()]),
        other => panic!("unexpected {:?}", other),
    }
    let mut empty: Vec<Profile> = Vec::new();
    match Command::Check.call(&mut empty).unwrap() {
        Action::Show(lines) => assert_eq!(lines, vec!["0 profile(s).".to_string()]),
        other => panic!("unexpected {:?}", other),
    }
}

#[test]
fn print_positive_takes_prefix() {
    let mut s = five_records();
    let ids = shown_ids(Command::Print(2).call(&mut s).unwrap());
    assert_eq!(ids, vec!["1", "2"]);
}

#[test]
fn print_zero_shows_all() {
    let mut s = five_records();
    let ids = shown_ids(Command::Print(0).call(&mut s).unwrap());
    assert_eq!(ids, vec!["1", "2", "3", "4", "5"]);
}

#[test]
fn print_negative_takes_suffix() {
    let mut s = five_records();
    let ids = shown_ids(Command::Print(-2).call(&mut s).unwrap());
    assert_eq!(ids, vec!["4", "5"]);
}

#[test]
fn print_negative_beyond_size_shows_all() {
    let mut s = five_records();
    let ids = shown_ids(Command::Print(-10).call(&mut s).unwrap());
    assert_eq!(ids, vec!["1", "2", "3", "4", "5"]);
}

#[test]
fn print_positive_beyond_size_shows_all() {
    let mut s = five_records();
    let ids = shown_ids(Command::Print(9).call(&mut s).unwrap());
    assert_eq!(ids, vec!["1", "2", "3", "4", "5"]);
}

#[test]
fn print_renders_labeled_lines() {
    let mut s = store(&["1,A,2000-1-1,Somewhere,hi"]);
    match Command::Print(0).call(&mut s).unwrap() {
        Action::Show(lines) => assert_eq!(
            lines,
            vec![
                "Id:    1".to_string(),
                "Name:  A".to_string(),
                "Birth: 2000-1-1".to_string(),
                "Addr:  Somewhere".to_string(),
                "Note:  hi".to_string(),
                "".to_string(),
            ]
        ),
        other => panic!("unexpected {:?}", other),
    }
}

#[test]
fn write_yields_csv_lines_and_path() {
    let mut s = store(&["1,A,2000-1-1,X,n1", "2,B,2001-2-3,Y,n2"]);
    match Command::Write("out.csv".to_string()).call(&mut s).unwrap() {
        Action::SaveFile(path, lines) => {
            assert_eq!(path, "out.csv");
            assert_eq!(
                lines,
                vec!["1,A,2000-1-1,X,n1".to_string(), "2,B,2001-2-3,Y,n2".to_string()]
            );
        },
        other => panic!("unexpected {:?}", other),
    }
    assert_eq!(s.len(), 2);
}

#[test]
fn read_yields_load_request() {
    let mut s: Vec<Profile> = Vec::new();
    match Command::Read("in.csv".to_string()).call(&mut s).unwrap() {
        Action::LoadFile(path) => assert_eq!(path, "in.csv"),
        other => panic!("unexpected {:?}", other),
    }
}

#[test]
fn find_prints_matches_in_order() {
    let mut s = store(&[
        "1,A,2000-1-1,X,hello world",
        "2,B,2000-1-2,Y,other",
        "3,A,2000-1-3,Z,hello world",
    ]);
    let ids = shown_ids(Command::Find("hello world".to_string()).call(&mut s).unwrap());
    assert_eq!(ids, vec!["1", "3"]);
}

#[test]
fn find_exact_match_only() {
    let mut s = store(&["1,A,2000-1-1,X,hello world"]);
    let ids = shown_ids(Command::Find("hello".to_string()).call(&mut s).unwrap());
    assert!(ids.is_empty());
}

#[test]
fn sort_by_id() {
    let mut s = store(&["3,C,2000-1-3,Z,n", "1,A,2000-1-1,X,n", "2,B,2000-1-2,Y,n"]);
    assert!(matches!(Command::Sort(1).call(&mut s).unwrap(), Action::Done));
    let ids: Vec<u32> = s.iter().map(|p| p.id).collect();
    assert_eq!(ids, vec![1, 2, 3]);
}

#[test]
fn sort_by_name_and_note() {
    let mut s = store(&["1,Cyr,2000-1-1,X,b", "2,Ada,2000-1-2,Y,a", "3,Bea,2000-1-3,Z,c"]);
    Command::Sort(2).call(&mut s).unwrap();
    let names: Vec<String> = s.iter().map(|p| p.name.clone()).collect();
    assert_eq!(names, vec!["Ada", "Bea", "Cyr"]);
    Command::Sort(5).call(&mut s).unwrap();
    let notes: Vec<String> = s.iter().map(|p| p.note.clone()).collect();
    assert_eq!(notes, vec!["a", "b", "c"]);
}

#[test]
fn sort_by_birth_is_textual_not_chronological() {
    let mut s = store(&["1,A,2024-9-1,X,n", "2,B,2024-10-1,Y,n"]);
    Command::Sort(3).call(&mut s).unwrap();
    // "2024-1..." < "2024-9..." lexicographically, so October comes first
    let births: Vec<String> = s.iter().map(|p| p.birth.form_string()).collect();
    assert_eq!(births, vec!["2024-10-1", "2024-9-1"]);
}

#[test]
fn sort_is_stable_on_equal_keys() {
    let mut s = store(&["7,A,2000-1-1,X,first", "7,B,2000-1-2,Y,second", "3,C,2000-1-3,Z,third"]);
    Command::Sort(1).call(&mut s).unwrap();
    let notes: Vec<String> = s.iter().map(|p| p.note.clone()).collect();
    assert_eq!(notes, vec!["third", "first", "second"]);
}

#[test]
fn sort_bad_selector_is_invalid_value() {
    let mut s = store(&["2,B,2000-1-2,Y,n", "1,A,2000-1-1,X,n"]);
    assert_eq!(Command::Sort(0).call(&mut s).unwrap_err(), Errors::InvalidValue);
    assert_eq!(Command::Sort(6).call(&mut s).unwrap_err(), Errors::InvalidValue);
    // the store is left in its original order
    let ids: Vec<u32> = s.iter().map(|p| p.id).collect();
    assert_eq!(ids, vec![2, 1]);
}
