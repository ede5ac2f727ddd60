use procfs_core::error::ProcError;
use procfs_core::ldisc::{LineDiscipline, LineDisciplines};

#[test]
fn correct_ldisc_line() {
    let line = "n_tty       0";
    let ldisc = LineDiscipline::parse_line(line).expect("Could not parse Line Discipline");
    assert_eq!(&ldisc.name, "n_tty");
    assert_eq!(ldisc.no, 0);
}

#[test]
fn correct_ldiscs_file() {
    let file_string = "n_tty       0
n_null     27";
    let ldiscs = LineDisciplines::from_text(file_string)
        .expect("Unable to parse line discipline file string");
    assert_eq!(ldiscs.len(), 2);
    let n_tty = ldiscs
        .get(0)
        .expect("Could not access first line discipline from vec");
    let n_null = ldiscs
        .get(1)
        .expect("Could not access second line discipline from vec");
    assert_eq!(&n_tty.name, "n_tty");
    assert_eq!(n_tty.no, 0);
    assert_eq!(&n_null.name, "n_null");
    assert_eq!(n_null.no, 27);
}

#[test]
fn empty_input_gives_empty_sequence() {
    let ldiscs = LineDisciplines::from_text("").expect("empty input must decode");
    assert_eq!(ldiscs.len(), 0);
    let ldiscs = LineDisciplines::from_lines(&Vec::new()).expect("no lines must decode");
    assert_eq!(ldiscs.len(), 0);
}

#[test]
fn input_order_is_preserved() {
    let file = "a 3\nb 1\nc 2\n";
    let ldiscs = LineDisciplines::from_text(file).unwrap();
    assert_eq!(ldiscs.len(), 3);
    assert_eq!(&ldiscs.get(0).unwrap().name, "a");
    assert_eq!(ldiscs.get(0).unwrap().no, 3);
    assert_eq!(&ldiscs.get(1).unwrap().name, "b");
    assert_eq!(ldiscs.get(1).unwrap().no, 1);
    assert_eq!(&ldiscs.get(2).unwrap().name, "c");
    assert_eq!(ldiscs.get(2).unwrap().no, 2);
}

#[test]
fn duplicates_are_retained_in_order() {
    let file = "n_tty 0\nn_tty 0\n";
    let ldiscs = LineDisciplines::from_text(file).unwrap();
    assert_eq!(ldiscs.len(), 2);
    assert_eq!(&ldiscs.get(0).unwrap().name, "n_tty");
    assert_eq!(&ldiscs.get(1).unwrap().name, "n_tty");
}

#[test]
fn one_token_is_malformed_record() {
    let err = LineDiscipline::parse_line("only").unwrap_err();
    assert_eq!(err, ProcError::MalformedRecord);
}

#[test]
fn empty_ldisc_line_is_malformed_record() {
    let err = LineDiscipline::parse_line("").unwrap_err();
    assert_eq!(err, ProcError::MalformedRecord);
}

#[test]
fn non_numeric_number_is_invalid_number() {
    let err = LineDiscipline::parse_line("n_tty abc").unwrap_err();
    assert_eq!(err, ProcError::InvalidNumber);
}

#[test]
fn negative_number_is_invalid_number() {
    let err = LineDiscipline::parse_line("n_tty -1").unwrap_err();
    assert_eq!(err, ProcError::InvalidNumber);
}

#[test]
fn plus_signed_number_is_accepted() {
    let ldisc = LineDiscipline::parse_line("n_tty +7").unwrap();
    assert_eq!(ldisc.no, 7);
}

#[test]
fn overflowing_number_is_invalid_number() {
    let line = format!("n_tty {}0", usize::MAX);
    let err = LineDiscipline::parse_line(&line).unwrap_err();
    assert_eq!(err, ProcError::InvalidNumber);
}

#[test]
fn largest_number_parses_exactly() {
    let line = format!("n_tty {}", usize::MAX);
    let ldisc = LineDiscipline::parse_line(&line).unwrap();
    assert_eq!(ldisc.no, usize::MAX);
}

#[test]
fn extra_ldisc_tokens_are_ignored() {
    let ldisc = LineDiscipline::parse_line("n_tty 4 trailing junk").unwrap();
    assert_eq!(&ldisc.name, "n_tty");
    assert_eq!(ldisc.no, 4);
}

#[test]
fn bad_ldisc_line_aborts_whole_decode() {
    let file = "n_tty 0\nbroken\nn_null 27\n";
    let err = LineDisciplines::from_text(file).unwrap_err();
    assert_eq!(err, ProcError::MalformedRecord);
}

#[test]
fn out_of_range_index_gives_none() {
    let ldiscs = LineDisciplines::from_text("n_tty 0\n").unwrap();
    assert!(ldiscs.get(1).is_none());
}
