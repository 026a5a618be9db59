use rs_loc::args::{parse_args, split_commas, Args};
use rs_loc::lang::resolve_extension;

fn parse(tokens: &[&str]) -> Args {
    parse_args(tokens.iter().map(|t| t.to_string()).collect())
}

#[test]
fn long_options_and_values() {
    let a = parse(&["--ignore=txt,md", "--time", "src"]);
    assert!(a.has_option("ignore"));
    assert!(a.has_option("time"));
    assert!(!a.has_option("help"));
    assert_eq!(a.get_option_value("ignore"), Some("txt,md".to_string()));
    assert_eq!(a.get_option_value("time"), None);
    assert_eq!(a.get_option_value("missing"), None);
    assert_eq!(a.target, Some("src".to_string()));
}

#[test]
fn combined_short_flags_match_separate_ones() {
    let combined = parse(&["-ctq"]);
    let separate = parse(&["-c", "-t", "-q"]);
    for f in ['c', 't', 'q'] {
        assert!(combined.has_flag(f));
        assert!(separate.has_flag(f));
    }
    assert_eq!(combined.flags, separate.flags);
}

#[test]
fn extra_dashes_between_short_flags() {
    let a = parse(&["-c-t--q", "src"]);
    assert!(a.has_flag('c'));
    assert!(a.has_flag('t'));
    assert!(a.has_flag('q'));
    assert!(!a.has_flag('x'));
    assert_eq!(a.target, Some("src".to_string()));
}

#[test]
fn flag_or_option_are_equivalent_triggers() {
    let by_flag = parse(&["-t"]);
    let by_option = parse(&["--time"]);
    assert!(by_flag.has_flag_or_option('t', "time"));
    assert!(by_option.has_flag_or_option('t', "time"));
    assert!(!parse(&[]).has_flag_or_option('t', "time"));
}

#[test]
fn last_positional_wins() {
    let a = parse(&["first", "-c", "second"]);
    assert_eq!(a.target, Some("second".to_string()));
    assert_eq!(parse(&["-c"]).target, None);
}

#[test]
fn repeated_long_option_keeps_the_last_value() {
    let a = parse(&["--ignore=a", "--ignore=b"]);
    assert_eq!(a.get_option_value("ignore"), Some("b".to_string()));
    assert_eq!(a.long_options.len(), 1);
}

#[test]
fn split_commas_pieces() {
    assert_eq!(split_commas("a,b"), vec!["a".to_string(), "b".to_string()]);
    assert_eq!(split_commas(""), vec!["".to_string()]);
    assert_eq!(split_commas("a,,c"), vec!["a".to_string(), "".to_string(), "c".to_string()]);
    assert_eq!(split_commas("one"), vec!["one".to_string()]);
}

#[test]
fn resolve_extension_through_table() {
    let table = "{\"rs\": \"Rust\", \"py\": \"Python\"}";
    assert_eq!(resolve_extension(table, "rs".to_string(), &false), "Rust");
    assert_eq!(resolve_extension(table, "py".to_string(), &false), "Python");
    assert_eq!(resolve_extension(table, "zig".to_string(), &false), "Unknown");
    assert_eq!(resolve_extension(table, "rs".to_string(), &true), "rs");
    assert_eq!(resolve_extension("not json", "rs".to_string(), &false), "Unknown");
}
