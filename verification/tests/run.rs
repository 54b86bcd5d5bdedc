use tr::args::Args;
use tr::tr::tr;
use tr::warning::Warning;

fn args(options: &str, string1: &str, string2: Option<&str>) -> Args {
    Args {
        delete: options.contains('d'),
        squeeze_repeats: options.contains('s'),
        complement_val: options.contains('c'),
        complement_char: options.contains('C'),
        string1: string1.to_owned(),
        string2: string2.map(|s| s.to_owned()),
    }
}

fn run(options: &str, string1: &str, string2: Option<&str>, input: &str) -> Result<String, String> {
    let mut warnings: Vec<Warning> = Vec::new();
    tr(&args(options, string1, string2), input, &mut warnings)
}

fn ok(options: &str, string1: &str, string2: Option<&str>, input: &str) -> String {
    run(options, string1, string2, input).unwrap()
}

fn err(options: &str, string1: &str, string2: Option<&str>, input: &str) -> String {
    run(options, string1, string2, input).unwrap_err()
}

#[test]
fn translates_ranges() {
    assert_eq!(ok("", "a-z", Some("A-Z"), "Hello, tr!"), "HELLO, TR!");
    assert_eq!(ok("", "a-c", Some("x-z"), "aabbccd"), "xxyyzzd");
}

#[test]
fn translates_classes() {
    assert_eq!(ok("", "[:lower:]", Some("[:upper:]"), "mixed Case 1"), "MIXED CASE 1");
}

#[test]
fn short_second_set_is_filled_with_its_last_character() {
    assert_eq!(ok("", "abcde", Some("xy"), "abcdef"), "xyyyyf");
}

#[test]
fn repeat_construct_fills_the_second_set() {
    assert_eq!(ok("", "abcde", Some("x[y*]z"), "abcde"), "xyyyz");
    assert_eq!(ok("", "abcde", Some("[y*]z"), "abcde"), "yyyyz");
    assert_eq!(ok("", "abcde", Some("[y*0]z"), "abcde"), "yyyyz");
    assert_eq!(ok("", "abcde", Some("[x*2]y"), "abcde"), "xxyyy");
    assert_eq!(ok("", "0123456789", Some("[x*010]yz"), "0123456789"), "xxxxxxxxyz");
    assert_eq!(ok("", "ab", Some("cd[x*]"), "ab"), "cd");
}

#[test]
fn last_place_of_a_repeated_character_counts() {
    assert_eq!(ok("", "aba", Some("xyz"), "ab"), "zy");
}

#[test]
fn translation_to_itself_changes_nothing() {
    let input = "any text, at all: \u{e9}\u{10ffff}";
    assert_eq!(ok("", "a-z", Some("a-z"), input), input);
}

#[test]
fn translation_beyond_ascii() {
    assert_eq!(ok("", "\u{e9}", Some("e"), "caf\u{e9}"), "cafe");
    assert_eq!(ok("", "\u{d7fe}-\u{e001}", Some("abcd"), "\u{d7fe}\u{d7ff}\u{e000}\u{e001}"), "abcd");
}

#[test]
fn deletes() {
    assert_eq!(ok("d", "a-y", None, "abczdef"), "z");
    assert_eq!(ok("d", "[:digit:]", None, "a1b22c"), "abc");
    assert_eq!(ok("d", "abc", None, ""), "");
}

#[test]
fn deletes_the_complement() {
    assert_eq!(ok("dc", "a-z", None, "aBcD"), "ac");
    assert_eq!(ok("dC", "a-z", None, "aBcD"), "ac");
}

#[test]
fn deletes_equivalents() {
    assert_eq!(ok("d", "[=e=]", None, "e\u{e9}\u{e8}fE"), "fE");
    assert_eq!(ok("dc", "[=e=]", None, "e\u{e9}\u{e8}fE"), "e\u{e9}\u{e8}");
    assert_eq!(ok("d", "[=ea=]", None, "e\u{e9}\u{e1}fab"), "fb");
}

#[test]
fn squeezes_runs() {
    assert_eq!(ok("s", "a", None, "aabcaad"), "abcad");
    assert_eq!(ok("s", "a-z", None, "aaBBcDcc"), "aBBcDc");
    assert_eq!(ok("s", "[=e=]", None, "ee\u{e9}\u{e9}x"), "e\u{e9}x");
}

#[test]
fn squeezing_twice_is_squeezing_once() {
    let once = ok("s", "ab", None, "aabbaaccabb");
    assert_eq!(once, "abaccab");
    assert_eq!(ok("s", "ab", None, &once), once);
}

#[test]
fn translates_and_squeezes() {
    assert_eq!(ok("s", "ab", Some("x"), "aabbccxa"), "xccx");
    assert_eq!(ok("s", "[:space:]", Some("\\n"), "one  two\t\tthree"), "one\ntwo\nthree");
}

#[test]
fn deletes_and_squeezes() {
    assert_eq!(ok("ds", "b", Some("ac"), "aabacbcd"), "acd");
    assert_eq!(ok("ds", "b", None, "aabacbcd"), "aaaccd");
    assert_eq!(ok("dsc", "ab", None, "aacabb"), "ab");
}

#[test]
fn complement_by_character() {
    assert_eq!(ok("C", "abc", Some("zx"), "a1b23c4"), "azbxzcx");
    assert_eq!(ok("C", "abc", Some("[z*2]x"), "12345"), "zzxzz");
    assert_eq!(ok("C", "abc", Some("x[z*]y"), "12a345"), "xzazzz");
    assert_eq!(ok("C", "abc", Some("[=e=]f"), "123"), "efe");
}

#[test]
fn complement_by_value() {
    assert_eq!(ok("c", "abc", Some("zx"), "a1b23c4"), "axbzxcz");
    assert_eq!(ok("c", "abc", Some("z[x*2]y"), "12345"), "xxyzx");
    assert_eq!(ok("c", "a-zA-Z", Some("\\n"), "one, two"), "one\n\ntwo");
}

#[test]
fn complement_and_squeeze() {
    assert_eq!(ok("Cs", "a-zA-Z", Some("\\n"), "one, two"), "one\ntwo");
}

#[test]
fn complement_without_replacements() {
    assert_eq!(err("C", "abc", Some(""), "abcd"), "Indexing failed");
    assert_eq!(ok("C", "abc", Some(""), "abc"), "abc");
}

#[test]
fn errors_of_the_second_set() {
    assert_eq!(
        err("", "abc", Some(""), "abc"),
        "tr: when not truncating set1, string2 must be non-empty"
    );
    assert_eq!(err("", "abc", None, "abc"), "tr: missing operand");
    assert_eq!(
        err("", "abc", Some("[x*][y*]"), "abc"),
        "tr: only one [c*] repeat construct may appear in string2"
    );
    assert_eq!(err("", "abc", Some("[=x=]"), "abc"), "Expectation violated");
}

#[test]
fn errors_of_the_first_set() {
    assert_eq!(
        err("", "a[b*]", Some("x"), "abc"),
        "tr: the [c*] repeat construct may not appear in string1"
    );
    assert_eq!(err("", "[=a=]", Some("x"), "abc"), "Expectation violated");
    assert_eq!(err("d", "[:nope:]", None, "abc"), "Error: Invalid class name ");
    assert_eq!(err("", "[:nope:]", Some("z-a"), "abc"), "Error: Invalid class name ");
}

#[test]
fn remarks_on_both_sets() {
    let mut warnings: Vec<Warning> = Vec::new();
    let output = tr(&args("", "\\501", Some("xy\\")), "(1", &mut warnings);
    assert_eq!(output, Ok("xy".to_owned()));
    assert_eq!(
        warnings,
        vec![
            Warning::AmbiguousOctalEscape { first: '5', second: '0', third: '1' },
            Warning::TrailingBackslash,
        ]
    );
}

#[test]
fn no_second_set_is_read_after_a_refused_first() {
    let mut warnings: Vec<Warning> = Vec::new();
    let output = tr(&args("", "\\501b-a", Some("\\")), "", &mut warnings);
    assert_eq!(
        output,
        Err("tr: range-endpoints of 'b-a' are in reverse collating sequence order".to_owned())
    );
    assert_eq!(warnings.len(), 1);
}

#[test]
fn valid_arguments() {
    assert_eq!(args("", "a", Some("b")).validate_args(), Ok(()));
    assert_eq!(args("d", "a", None).validate_args(), Ok(()));
    assert_eq!(args("s", "a", None).validate_args(), Ok(()));
    assert_eq!(args("dcs", "a", None).validate_args(), Ok(()));
}

#[test]
fn conflicting_arguments() {
    assert_eq!(
        args("cC", "a", Some("b")).validate_args(),
        Err("Options '-c' and '-C' cannot be used together".to_owned())
    );
    assert_eq!(
        args("sc", "a", None).validate_args(),
        Err("Option '-c' or '-C' may only be used with 2 strings".to_owned())
    );
    assert_eq!(
        args("c", "a", None).validate_args(),
        Err("Need two strings operand".to_owned())
    );
    assert_eq!(
        args("", "", Some("b")).validate_args(),
        Err("At least 1 string operand is required".to_owned())
    );
}
