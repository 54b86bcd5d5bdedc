use tr::class::{class_members, expand_character_class};
use tr::construct::{parse_equiv, parse_repeated_char};
use tr::escape::{parse_octal_sequence, parse_range_or_single_char, parse_single_char};
use tr::operand::{CharRepetition, Operand};
use tr::parse::parse_string1_or_string2;
use tr::scanner::Scanner;
use tr::warning::Warning;

fn once(c: char) -> Operand {
    Operand::Char { char: c, char_repetition: CharRepetition::N(1) }
}

fn literals(text: &str) -> Vec<Operand> {
    text.chars().map(once).collect()
}

fn times(c: char, n: usize) -> Operand {
    Operand::Char { char: c, char_repetition: CharRepetition::N(n) }
}

fn fill(c: char) -> Operand {
    Operand::Char { char: c, char_repetition: CharRepetition::AsManyAsNeeded }
}

fn chars(text: &str) -> Vec<char> {
    text.chars().collect()
}

fn read(text: &str) -> (Result<Vec<Operand>, String>, Vec<Warning>) {
    let mut warnings: Vec<Warning> = Vec::new();
    let set = parse_string1_or_string2(text, &mut warnings);
    (set, warnings)
}

fn set(text: &str) -> Vec<Operand> {
    let (set, warnings) = read(text);
    assert_eq!(warnings, vec![]);
    set.unwrap()
}

fn refused(text: &str) -> String {
    read(text).0.unwrap_err()
}

#[test]
fn plain_text_is_literal() {
    assert_eq!(set(""), vec![]);
    assert_eq!(set("abc=*:]\u{e9}"), literals("abc=*:]\u{e9}"));
}

#[test]
fn ranges() {
    assert_eq!(set("a-e"), literals("abcde"));
    assert_eq!(set("a-a"), literals("a"));
    assert_eq!(set("xa-cz"), literals("xabcz"));
    assert_eq!(set("a-c-e"), literals("abc-e"));
    assert_eq!(set("\\044-1"), literals("$%&'()*+,-./01"));
    assert_eq!(set("\u{d7fe}-\u{e001}"), literals("\u{d7fe}\u{d7ff}\u{e000}\u{e001}"));
}

#[test]
fn hyphens_that_make_no_range() {
    assert_eq!(set("c-"), literals("c-"));
    assert_eq!(set("-"), literals("-"));
    assert_eq!(set("-c"), literals("-c"));
    assert_eq!(set("a\\-c"), literals("a-c"));
    assert_eq!(set("---"), literals("-"));
}

#[test]
fn ranges_in_reverse() {
    assert_eq!(
        refused("b-a"),
        "tr: range-endpoints of 'b-a' are in reverse collating sequence order"
    );
    assert_eq!(
        refused("\\\\-'"),
        "tr: range-endpoints of '\\\\-\\'' are in reverse collating sequence order"
    );
    assert_eq!(
        refused("\u{e9}-\\t"),
        "tr: range-endpoints of '\\u{e9}-\\t' are in reverse collating sequence order"
    );
}

#[test]
fn backslash_escapes() {
    assert_eq!(
        set("\\a\\b\\t\\n\\v\\f\\r\\\\"),
        literals("\u{7}\u{8}\u{9}\u{a}\u{b}\u{c}\u{d}\\")
    );
    assert_eq!(set("\\x\\[\\-\\8\\\u{e9}"), literals("x[-8\u{e9}"));
}

#[test]
fn octal_escapes() {
    assert_eq!(set("\\0"), literals("\0"));
    assert_eq!(set("\\7"), literals("\u{7}"));
    assert_eq!(set("\\78"), literals("\u{7}8"));
    assert_eq!(set("\\60"), literals("0"));
    assert_eq!(set("\\608"), literals("08"));
    assert_eq!(set("\\141"), literals("a"));
    assert_eq!(set("\\1411"), literals("a1"));
    assert_eq!(set("\\377"), literals("\u{ff}"));
}

#[test]
fn every_byte_has_an_octal_escape() {
    for byte in 0..=255u8 {
        let text = format!("\\{:03o}", byte);
        assert_eq!(set(&text), vec![once(char::from(byte))]);
    }
}

#[test]
fn octal_escapes_beyond_a_byte() {
    let warning = Warning::AmbiguousOctalEscape { first: '5', second: '0', third: '1' };
    assert_eq!(read("\\501"), (Ok(literals("(1")), vec![warning]));
    assert_eq!(set("\\0501"), literals("(1"));
    assert_eq!(
        warning.message(),
        "tr: warning: the ambiguous octal escape \\501 is being interpreted as the 2-byte sequence \\050, 1"
    );
    assert_eq!(read("\\400").0, Ok(literals(" 0")));
    assert_eq!(read("\\777").0, Ok(literals("?7")));
}

#[test]
fn backslash_at_the_end() {
    assert_eq!(read("a\\"), (Ok(literals("a\\")), vec![Warning::TrailingBackslash]));
    assert_eq!(read("a-\\").1, vec![Warning::TrailingBackslash]);
    assert_eq!(
        Warning::TrailingBackslash.message(),
        "tr: warning: an unescaped backslash at end of string is not portable"
    );
}

#[test]
fn remarks_before_an_error_are_kept() {
    let (set, warnings) = read("\\777z-a\\");
    assert!(set.is_err());
    assert_eq!(
        warnings,
        vec![Warning::AmbiguousOctalEscape { first: '7', second: '7', third: '7' }]
    );
}

#[test]
fn octal_sequences() {
    let mut warnings: Vec<Warning> = Vec::new();
    let mut scanner = Scanner::new("018");
    assert_eq!(parse_octal_sequence('1', &mut scanner, &mut warnings), Ok('A'));
    assert_eq!(scanner.peek(), Some('8'));

    let mut scanner = Scanner::new("77");
    assert_eq!(parse_octal_sequence('4', &mut scanner, &mut warnings), Ok('\''));
    assert_eq!(scanner.peek(), Some('7'));
    assert_eq!(warnings.len(), 1);
}

#[test]
fn octal_sequences_that_are_no_number() {
    let mut warnings: Vec<Warning> = Vec::new();
    let reason = u16::from_str_radix("91", 8).unwrap_err();
    let mut scanner = Scanner::new("1x");
    assert_eq!(
        parse_octal_sequence('9', &mut scanner, &mut warnings),
        Err(format!("tr: failed to parse octal sequence '91' ({})", reason))
    );
    assert_eq!(scanner.peek(), Some('x'));

    let mut scanner = Scanner::new("123");
    assert!(parse_octal_sequence('x', &mut scanner, &mut warnings).is_err());
    assert_eq!(scanner.len(), 2);

    let mut scanner = Scanner::new("x");
    assert!(parse_octal_sequence('+', &mut scanner, &mut warnings).is_err());
    assert_eq!(scanner.len(), 1);

    let mut scanner = Scanner::new("771");
    assert_eq!(parse_octal_sequence('+', &mut scanner, &mut warnings), Ok('?'));
    assert_eq!(scanner.len(), 1);
    assert_eq!(warnings, vec![]);
}

#[test]
fn single_characters() {
    let mut warnings: Vec<Warning> = Vec::new();
    let mut scanner = Scanner::new("a\\n\\");
    assert_eq!(parse_single_char(&mut scanner, &mut warnings), Ok(Some('a')));
    assert_eq!(parse_single_char(&mut scanner, &mut warnings), Ok(Some('\n')));
    assert_eq!(warnings, vec![]);
    assert_eq!(parse_single_char(&mut scanner, &mut warnings), Ok(Some('\\')));
    assert_eq!(warnings, vec![Warning::TrailingBackslash]);
    assert_eq!(parse_single_char(&mut scanner, &mut warnings), Ok(None));
}

#[test]
fn range_or_single_character() {
    let mut warnings: Vec<Warning> = Vec::new();
    let mut operands: Vec<Operand> = literals("x");
    let mut scanner = Scanner::new("-cd-");
    assert_eq!(
        parse_range_or_single_char('a', &mut scanner, &mut operands, &mut warnings),
        Ok(())
    );
    assert_eq!(operands, literals("xabc"));
    assert_eq!(scanner.next(), Some('d'));
    assert_eq!(
        parse_range_or_single_char('d', &mut scanner, &mut operands, &mut warnings),
        Ok(())
    );
    assert_eq!(operands, literals("xabcd-"));
    assert_eq!(scanner.len(), 0);
    assert!(
        parse_range_or_single_char('b', &mut Scanner::new("-a"), &mut operands, &mut warnings)
            .is_err()
    );
    assert_eq!(operands, literals("xabcd-"));
}

#[test]
fn equivalence_classes() {
    assert_eq!(set("x[=a=]y"), vec![once('x'), Operand::Equiv { char: 'a' }, once('y')]);
    assert_eq!(set("[=]=]"), vec![Operand::Equiv { char: ']' }]);
    assert_eq!(set("[=\u{e9}=]"), vec![Operand::Equiv { char: '\u{e9}' }]);
    for text in ["[=a=]", "[=a=]x", "[=a=]]", "[=a=b]", "[=a==]"] {
        assert_eq!(parse_equiv(&chars(text)), Ok(vec![Operand::Equiv { char: 'a' }]));
    }
}

#[test]
fn equivalence_classes_of_several_characters() {
    let classes =
        |text: &str| -> Vec<Operand> { text.chars().map(|char| Operand::Equiv { char }).collect() };
    assert_eq!(parse_equiv(&chars("[=ab=]")), Ok(classes("ab")));
    assert_eq!(parse_equiv(&chars("[=a]=]")), Ok(classes("a]")));
    assert_eq!(parse_equiv(&chars("[=ab=c=]")), Ok(classes("ab")));
    assert_eq!(set("[=abc=]"), classes("abc"));
    assert_eq!(set("x[=]b=]y"), [literals("x"), classes("]b"), literals("y")].concat());
}

#[test]
fn equivalence_classes_that_are_not_complete() {
    assert_eq!(
        parse_equiv(&chars("[==]")),
        Err(
            "tr: : equivalence class operand must be one character or more, followed by '=' and ']'"
                .to_owned()
        )
    );
    assert_eq!(
        parse_equiv(&chars("[=ab")),
        Err(
            "tr: ab: equivalence class operand must be one character or more, followed by '=' and ']'"
                .to_owned()
        )
    );
    assert!(parse_equiv(&chars("[=")).is_err());
    assert!(parse_equiv(&chars("[===]")).is_err());
    assert!(parse_equiv(&chars("[=a=x")).is_err());
    assert!(parse_equiv(&chars("[=a]x")).is_err());
    assert!(parse_equiv(&chars("[=a]=x")).is_err());
    assert!(parse_equiv(&chars("[=a]")).is_err());
    assert!(parse_equiv(&chars("[=a=")).is_err());
    assert!(read("[==]").0.is_err());
}

#[test]
fn repeated_characters() {
    assert_eq!(set("[x*]"), vec![fill('x')]);
    assert_eq!(set("[x*0]"), vec![fill('x')]);
    assert_eq!(set("[x*000]"), vec![fill('x')]);
    assert_eq!(set("[x*12]"), vec![times('x', 12)]);
    assert_eq!(set("[x*012]"), vec![times('x', 10)]);
    assert_eq!(set("[x*+5]"), vec![times('x', 5)]);
    assert_eq!(set("[]*5]"), vec![times(']', 5)]);
    assert_eq!(set("[**5]"), vec![times('*', 5)]);
    assert_eq!(set("[:*5]"), vec![times(':', 5)]);
    assert_eq!(parse_repeated_char(&chars("[a*7]")), Ok(times('a', 7)));
}

#[test]
fn repeat_counts_that_are_no_number() {
    assert_eq!(refused("[x*y]"), "tr: invalid repeat count ‘y’ in [c*n] construct");
    assert_eq!(refused("[x*08]"), "tr: invalid repeat count ‘08’ in [c*n] construct");
    assert_eq!(refused("[x*-1]"), "tr: invalid repeat count ‘-1’ in [c*n] construct");
    assert_eq!(refused("[x*+]"), "tr: invalid repeat count ‘+’ in [c*n] construct");
    assert_eq!(
        parse_repeated_char(&chars("[a*100000000000000000000]")),
        Err("tr: invalid repeat count ‘100000000000000000000’ in [c*n] construct".to_owned())
    );
    assert!(read("[a*010000000000000000000000]").0.is_err());
}

#[test]
fn brackets_that_make_no_construct() {
    assert_eq!(set("["), literals("["));
    assert_eq!(set("[abc"), literals("[abc"));
    assert_eq!(set("[abc]"), literals("[abc]"));
    assert_eq!(set("[a-c]"), literals("[abc]"));
    assert_eq!(set("[:]"), literals("[:]"));
    assert_eq!(set("[=]"), literals("[=]"));
    assert_eq!(set("[]*]"), vec![fill(']')]);
    assert_eq!(set("[*]"), literals("[*]"));
    assert_eq!(set("[*]]"), literals("[*]]"));
    assert_eq!(set("[:alpha]"), literals("[:alpha]"));
    assert_eq!(set("[[x*3]"), [literals("["), vec![times('x', 3)]].concat());
    assert_eq!(set("\\[x*3]"), literals("[x*3]"));
}

#[test]
fn character_classes() {
    let digits = "0123456789";
    let upper = "ABCDEFGHIJKLMNOPQRSTUVWXYZ";
    let lower = "abcdefghijklmnopqrstuvwxyz";
    assert_eq!(set("[:digit:]"), literals(digits));
    assert_eq!(set("[:upper:]"), literals(upper));
    assert_eq!(set("[:lower:]"), literals(lower));
    assert_eq!(set("[:alpha:]"), literals(&format!("{}{}", upper, lower)));
    assert_eq!(set("[:alnum:]"), literals(&format!("{}{}{}", digits, upper, lower)));
    assert_eq!(set("[:xdigit:]"), literals("0123456789ABCDEFabcdef"));
    assert_eq!(set("[:space:]"), literals(" \t\n\r\u{b}\u{c}"));
    assert_eq!(set("[:blank:]"), literals(" \t"));
    assert_eq!(set("[:punct:]"), literals("!\"#$%&'()*+,-./:;<=>?@[\\]^_`{|}~"));
    assert_eq!(set("a[:blank:]b"), literals("a \tb"));
}

#[test]
fn classes_go_together() {
    let members = |name: &str| class_members(&chars(name)).unwrap();
    let ascii = |pred: fn(&char) -> bool| -> Vec<char> {
        (0..=127u8).map(char::from).filter(pred).collect()
    };
    assert_eq!(members("cntrl"), ascii(char::is_ascii_control));
    assert_eq!(members("graph"), ascii(char::is_ascii_graphic));
    assert_eq!(members("punct"), ascii(char::is_ascii_punctuation));
    assert_eq!(members("print"), ascii(|c| *c == ' ' || c.is_ascii_graphic()));
    assert_eq!(members("alnum"), ascii(char::is_ascii_alphanumeric));
    assert_eq!(members("xdigit"), ascii(char::is_ascii_hexdigit));
}

#[test]
fn unknown_classes() {
    assert_eq!(refused("[:nope:]"), "Error: Invalid class name ");
    assert_eq!(refused("[::]"), "Error: Invalid class name ");
    assert_eq!(refused("[:ALPHA:]"), "Error: Invalid class name ");
    assert_eq!(class_members(&chars("")), None);

    let mut operands: Vec<Operand> = literals("x");
    assert!(expand_character_class(&chars("[:bad:]"), &mut operands).is_err());
    assert_eq!(operands, literals("x"));
    assert_eq!(expand_character_class(&chars("[:blank:]"), &mut operands), Ok(()));
    assert_eq!(operands, literals("x \t"));
}
