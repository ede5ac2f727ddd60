use procfs_core::error::ProcError;
use procfs_core::tty::{MinorRange, TttyDriver, TtyDrivers};

#[test]
fn correct_line_tty() {
    let line = "/dev/tty             /dev/tty        5       0 system:/dev/tty";
    let driver = TttyDriver::parse_line(line).expect("Did not parse line correctly");
    assert_eq!("/dev/tty", &driver.name);
    assert_eq!("/dev/tty", &driver.node_name);
    assert_eq!(5isize, driver.major_number);
    assert_eq!(MinorRange { lower: 0, upper: 0 }, driver.minor_numbers);
    assert_eq!("system:/dev/tty", &driver.driver_type);
}

#[test]
fn correct_file_tty() {
    let file = "/dev/tty             /dev/tty        5       0 system:/dev/tty
/dev/console         /dev/console    5       1 system:console
/dev/ptmx            /dev/ptmx       5       2 system
/dev/vc/0            /dev/vc/0       4       0 system:vtmaster
ttyAMA               /dev/ttyAMA   204 64-77 serial
ttyprintk            /dev/ttyprintk   5       3 console
pty_slave            /dev/pts      136 0-1048575 pty:slave
pty_master           /dev/ptm      128 0-1048575 pty:master
unknown              /dev/tty        4 1-63 console
";
    let drivers = TtyDrivers::from_text(file).expect("Unable to parse driver file string");
    assert_eq!(drivers.len(), 9);
    // Test one of the more complicated ones
    let pty_slave_driver = drivers
        .get("pty_slave")
        .expect("There should be a matching driver");
    assert_eq!(&pty_slave_driver.node_name, "/dev/pts");
    assert_eq!(pty_slave_driver.major_number, 136);
    assert_eq!(
        pty_slave_driver.minor_numbers,
        MinorRange {
            lower: 0,
            upper: 1048575
        }
    );
    assert_eq!(&pty_slave_driver.driver_type, "pty:slave");
}

#[test]
fn hyphenated_minor_field_gives_both_bounds() {
    let driver = TttyDriver::parse_line("ttyAMA /dev/ttyAMA 204 64-77 serial").unwrap();
    assert_eq!(
        driver.minor_numbers,
        MinorRange {
            lower: 64,
            upper: 77
        }
    );
}

#[test]
fn single_minor_field_gives_degenerate_range() {
    let driver = TttyDriver::parse_line("ttyprintk /dev/ttyprintk 5 3 console").unwrap();
    assert_eq!(driver.minor_numbers, MinorRange { lower: 3, upper: 3 });
}

#[test]
fn inverted_minor_range_is_kept_as_given() {
    let driver = TttyDriver::parse_line("x /dev/x 1 9-3 t").unwrap();
    assert_eq!(driver.minor_numbers, MinorRange { lower: 9, upper: 3 });
}

#[test]
fn minor_field_split_at_first_hyphen() {
    // "0-1-2" splits at the first hyphen: upper side "1-2" is not a number.
    let err = TttyDriver::parse_line("x /dev/x 1 0-1-2 t").unwrap_err();
    assert_eq!(err, ProcError::InvalidNumber);
}

#[test]
fn leading_hyphen_minor_field_is_invalid() {
    // "-5" splits into an empty lower side, which is not a number.
    let err = TttyDriver::parse_line("x /dev/x 1 -5 t").unwrap_err();
    assert_eq!(err, ProcError::InvalidNumber);
}

#[test]
fn trailing_hyphen_minor_field_is_invalid() {
    let err = TttyDriver::parse_line("x /dev/x 1 5- t").unwrap_err();
    assert_eq!(err, ProcError::InvalidNumber);
}

#[test]
fn negative_major_number_is_accepted() {
    let driver = TttyDriver::parse_line("x /dev/x -12 0 t").unwrap();
    assert_eq!(driver.major_number, -12);
}

#[test]
fn plus_signed_major_number_is_accepted() {
    let driver = TttyDriver::parse_line("x /dev/x +12 0 t").unwrap();
    assert_eq!(driver.major_number, 12);
}

#[test]
fn too_few_tokens_is_malformed_record() {
    let err = TttyDriver::parse_line("x /dev/x 1 0").unwrap_err();
    assert_eq!(err, ProcError::MalformedRecord);
}

#[test]
fn empty_line_is_malformed_record() {
    let err = TttyDriver::parse_line("").unwrap_err();
    assert_eq!(err, ProcError::MalformedRecord);
}

#[test]
fn whitespace_only_line_is_malformed_record() {
    let err = TttyDriver::parse_line("   \t  ").unwrap_err();
    assert_eq!(err, ProcError::MalformedRecord);
}

#[test]
fn non_numeric_major_is_invalid_number() {
    let err = TttyDriver::parse_line("x /dev/x x5 0 t").unwrap_err();
    assert_eq!(err, ProcError::InvalidNumber);
}

#[test]
fn overflowing_major_is_invalid_number() {
    let line = format!("x /dev/x {}0 0 t", isize::MAX);
    let err = TttyDriver::parse_line(&line).unwrap_err();
    assert_eq!(err, ProcError::InvalidNumber);
}

#[test]
fn extreme_major_values_parse_exactly() {
    let line = format!("x /dev/x {} 0 t", isize::MAX);
    assert_eq!(
        TttyDriver::parse_line(&line).unwrap().major_number,
        isize::MAX
    );
    let line = format!("x /dev/x {} 0 t", isize::MIN);
    assert_eq!(
        TttyDriver::parse_line(&line).unwrap().major_number,
        isize::MIN
    );
}

#[test]
fn extra_tokens_are_ignored() {
    let driver = TttyDriver::parse_line("x /dev/x 1 0 t extra tokens here").unwrap();
    assert_eq!(&driver.driver_type, "t");
}

#[test]
fn empty_input_gives_empty_table() {
    let drivers = TtyDrivers::from_text("").expect("empty input must decode");
    assert_eq!(drivers.len(), 0);
    let drivers = TtyDrivers::from_lines(&Vec::new()).expect("no lines must decode");
    assert_eq!(drivers.len(), 0);
}

#[test]
fn duplicate_name_keeps_later_line() {
    let file = "tty /dev/a 1 0 first\ntty /dev/b 2 5-7 second\n";
    let drivers = TtyDrivers::from_text(file).unwrap();
    assert_eq!(drivers.len(), 1);
    let driver = drivers.get("tty").unwrap();
    assert_eq!(&driver.node_name, "/dev/b");
    assert_eq!(driver.major_number, 2);
    assert_eq!(driver.minor_numbers, MinorRange { lower: 5, upper: 7 });
    assert_eq!(&driver.driver_type, "second");
}

#[test]
fn lookup_of_absent_name_gives_none() {
    let drivers = TtyDrivers::from_text("tty /dev/a 1 0 t\n").unwrap();
    assert!(drivers.get("other").is_none());
}

#[test]
fn bad_line_aborts_whole_decode() {
    let file = "tty /dev/a 1 0 t\nshort line\ntty2 /dev/b 2 1 u\n";
    let err = TtyDrivers::from_text(file).unwrap_err();
    assert_eq!(err, ProcError::MalformedRecord);
}

#[test]
fn blank_line_aborts_whole_decode() {
    let file = "tty /dev/a 1 0 t\n\ntty2 /dev/b 2 1 u\n";
    let err = TtyDrivers::from_text(file).unwrap_err();
    assert_eq!(err, ProcError::MalformedRecord);
}

#[test]
fn carriage_returns_are_stripped() {
    let file = "tty /dev/a 1 0 t\r\ntty2 /dev/b 2 1 u\r\n";
    let drivers = TtyDrivers::from_text(file).unwrap();
    assert_eq!(drivers.len(), 2);
    assert_eq!(&drivers.get("tty2").unwrap().driver_type, "u");
}

#[test]
fn text_without_final_newline_decodes() {
    let drivers = TtyDrivers::from_text("tty /dev/a 1 0 t").unwrap();
    assert_eq!(drivers.len(), 1);
}
