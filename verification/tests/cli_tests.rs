use namegen::cli::{capitalized, check_start, parse_args, Args, Command, Format};
use namegen::grammar::parse;

fn argv(xs: &[&str]) -> Vec<String> {
    xs.iter().map(|s| s.to_string()).collect()
}

fn run(xs: &[&str]) -> Args {
    match parse_args(&argv(xs)) {
        Ok(Command::Run(a)) => a,
        Ok(Command::Help) => panic!("unexpected help"),
        Err(e) => panic!("unexpected error: {e}"),
    }
}

fn fails(xs: &[&str]) -> String {
    match parse_args(&argv(xs)) {
        Err(e) => e,
        Ok(_) => panic!("expected an error"),
    }
}

#[test]
fn defaults() {
    let a = run(&["names.namegen"]);
    assert_eq!(a.path, "names.namegen");
    assert_eq!(a.start, "name");
    assert_eq!(a.count, 10);
    assert_eq!(a.seed, None);
    assert_eq!(a.format, Format::Plain);
}

#[test]
fn all_options() {
    let a = run(&["--start", "title", "--count", "3", "g.txt", "--seed", "42", "--format", "upper"]);
    assert_eq!(a.path, "g.txt");
    assert_eq!(a.start, "title");
    assert_eq!(a.count, 3);
    assert_eq!(a.seed, Some(42));
    assert_eq!(a.format, Format::Upper);
}

#[test]
fn numbers_accept_a_plus_sign_and_leading_zeros() {
    let a = run(&["g", "--count", "+007", "--seed", "18446744073709551615"]);
    assert_eq!(a.count, 7);
    assert_eq!(a.seed, Some(u64::MAX));
}

#[test]
fn later_options_win() {
    let a = run(&["g", "--count", "1", "--count", "2"]);
    assert_eq!(a.count, 2);
}

#[test]
fn help_stops_reading() {
    assert!(matches!(parse_args(&argv(&["-h", "--bogus"])), Ok(Command::Help)));
    assert!(matches!(parse_args(&argv(&["g", "--help"])), Ok(Command::Help)));
    assert_eq!(fails(&["--bogus", "-h"]), "unrecognized argument '--bogus'");
}

#[test]
fn option_values_are_taken_as_they_come() {
    let a = run(&["g", "--start", "--count"]);
    assert_eq!(a.start, "--count");
}

#[test]
fn missing_values() {
    assert_eq!(fails(&["g", "--start"]), "--start requires a rule name");
    assert_eq!(fails(&["g", "--count"]), "--count requires a number");
    assert_eq!(fails(&["g", "--seed"]), "--seed requires a number");
    assert_eq!(fails(&["g", "--format"]), "--format requires a value");
}

#[test]
fn bad_numbers() {
    assert_eq!(fails(&["g", "--count", "-3"]), "--count expects a positive integer, got '-3'");
    assert_eq!(fails(&["g", "--count", "1x"]), "--count expects a positive integer, got '1x'");
    assert_eq!(fails(&["g", "--count", "+"]), "--count expects a positive integer, got '+'");
    assert_eq!(fails(&["g", "--seed", ""]), "--seed expects an unsigned integer, got ''");
    assert_eq!(
        fails(&["g", "--seed", "18446744073709551616"]),
        "--seed expects an unsigned integer, got '18446744073709551616'"
    );
}

#[test]
fn bad_format() {
    assert_eq!(
        fails(&["g", "--format", "shout"]),
        "--format expects one of: none, upper, lower, capitalize (got 'shout')"
    );
}

#[test]
fn missing_and_extra_paths() {
    assert_eq!(fails(&[]), "missing grammar file argument");
    assert_eq!(fails(&["--count", "2"]), "missing grammar file argument");
    assert_eq!(fails(&["a", "b"]), "unrecognized argument 'b'");
    assert_eq!(fails(&["-x"]), "unrecognized argument '-x'");
}

#[test]
fn format_names() {
    assert_eq!(Format::parse("none").ok(), Some(Format::Plain));
    assert_eq!(Format::parse("upper").ok(), Some(Format::Upper));
    assert_eq!(Format::parse("lower").ok(), Some(Format::Lower));
    assert_eq!(Format::parse("capitalize").ok(), Some(Format::Capitalize));
    assert_eq!(
        Format::parse("Upper").err().unwrap(),
        "--format expects one of: none, upper, lower, capitalize (got 'Upper')"
    );
}

#[test]
fn format_apply() {
    assert_eq!(Format::Plain.apply("mir're"), "mir're");
    assert_eq!(Format::Upper.apply("mir're"), "MIR'RE");
    assert_eq!(Format::Lower.apply("MiR'Re"), "mir're");
    assert_eq!(Format::Capitalize.apply("katha"), "Katha");
    assert_eq!(Format::Capitalize.apply("kaTHA"), "KaTHA");
    assert_eq!(Format::Capitalize.apply(""), "");
    assert_eq!(Format::Capitalize.apply("ßa"), "SSa");
    assert_eq!(Format::Upper.apply("straße"), "STRASSE");
}

#[test]
fn capitalized_joins_first_and_rest() {
    assert_eq!(capitalized("Q".to_string(), "abc"), "Qbc");
    assert_eq!(capitalized("SS".to_string(), "ßx"), "SSx");
    assert_eq!(capitalized("Z".to_string(), ""), "");
}

#[test]
fn start_rule_check() {
    let g = parse("name = <b>\nb = x\nalpha = y\n").ok().unwrap();
    assert!(check_start(&g, "name").is_ok());
    assert!(check_start(&g, "b").is_ok());
    assert_eq!(
        check_start(&g, "title").err().unwrap(),
        "unknown start rule 'title' - grammar defines: alpha, b, name"
    );
}

#[test]
fn start_rule_listing_is_sorted_bytewise() {
    let g = parse("b = x\nB = x\n_c = x\na1 = x\na = x").ok().unwrap();
    assert_eq!(
        check_start(&g, "z").err().unwrap(),
        "unknown start rule 'z' - grammar defines: B, _c, a, a1, b"
    );
}
