use tr::char_map::{CharMap, CharSet};
use tr::complement::complement_chars;
use tr::numeral::parse_numeral;
use tr::operand::{
    compare_deunicoded_chars, equal_normalized, push_literals, CharRepetition, Operand,
};
use tr::range::push_range;
use tr::scanner::Scanner;
use tr::sort::sort_by_char;
use tr::squeeze::{check_repeatable, count_chars, squeeze};
use tr::text::{chars_of, code_point, is_text, push_all, push_escaped, string_of};
use tr::tr::{retain, transform};
use tr::translate::{generate_transformation_hash_map, translate};

fn times(c: char, n: usize) -> Operand {
    Operand::Char { char: c, char_repetition: CharRepetition::N(n) }
}

fn fill(c: char) -> Operand {
    Operand::Char { char: c, char_repetition: CharRepetition::AsManyAsNeeded }
}

fn equiv(c: char) -> Operand {
    Operand::Equiv { char: c }
}

fn literals(text: &str) -> Vec<Operand> {
    text.chars().map(|c| times(c, 1)).collect()
}

fn chars(text: &str) -> Vec<char> {
    text.chars().collect()
}

fn translated(set1: &[Operand], set2: &[Operand], input: &str) -> String {
    let map = generate_transformation_hash_map(set1, set2).unwrap_or_else(|e| panic!("{}", e));
    translate(&map, &chars(input)).into_iter().collect()
}

fn refused(set1: &[Operand], set2: &[Operand]) -> String {
    match generate_transformation_hash_map(set1, set2) {
        Ok(_) => panic!("not refused"),
        Err(message) => message,
    }
}

#[test]
fn text_and_characters() {
    assert_eq!(chars_of("a\u{e9}\u{10ffff}"), vec!['a', '\u{e9}', '\u{10ffff}']);
    assert_eq!(string_of(&['a', '\u{e9}']), "a\u{e9}");
    let mut text = "x".to_owned();
    push_all(&mut text, &['y', 'z']);
    assert_eq!(text, "xyz");
    assert!(is_text(&['a', 'b'], "ab"));
    assert!(!is_text(&['a', 'b'], "abc"));
    assert_eq!(code_point('\u{10ffff}'), 0x10ffff);
}

#[test]
fn escaped_characters() {
    for c in '\0'..=char::MAX {
        let mut text = String::new();
        push_escaped(&mut text, c);
        assert!(text.chars().eq(c.escape_default()));
    }
}

#[test]
fn numerals() {
    let texts = [
        "", "+", "-", "0", "00", "7", "8", "9", "17", "18", "+17", "++1", "1+", "a", "1a", "-1",
        "18446744073709551615", "18446744073709551616", "1777777777777777777777",
        "2000000000000000000000", "0000000000000000000000000000000000000000000001", "\u{661}",
    ];
    for text in texts {
        for radix in [2u32, 8, 10] {
            assert_eq!(
                parse_numeral(&chars(text), radix),
                usize::from_str_radix(text, radix).ok()
            );
        }
    }
}

#[test]
fn ranges_of_characters() {
    let range = |first: char, last: char| {
        let mut chars: Vec<char> = vec!['x'];
        push_range(&mut chars, first, last);
        chars
    };
    assert_eq!(range('a', 'c'), chars("xabc"));
    assert_eq!(range('c', 'a'), chars("x"));
    assert_eq!(range('\u{d7ff}', '\u{d7ff}'), chars("x\u{d7ff}"));
    assert_eq!(range('\u{e000}', '\u{e000}'), chars("x\u{e000}"));
    assert_eq!(range('\u{d7ff}', '\u{e000}'), chars("x\u{d7ff}\u{e000}"));
    assert_eq!(range('\u{10fffe}', '\u{10ffff}'), chars("x\u{10fffe}\u{10ffff}"));
    let all = range('\0', char::MAX);
    assert!(all[1..].iter().copied().eq('\0'..=char::MAX));
}

#[test]
fn scanning() {
    let mut scanner = Scanner::new("abcd");
    assert_eq!(scanner.len(), 4);
    assert_eq!(scanner.get(2), 'c');
    assert_eq!(scanner.prefix(2), vec!['a', 'b']);
    assert_eq!(scanner.next(), Some('a'));
    assert_eq!(scanner.peek(), Some('b'));
    scanner.skip(3);
    assert_eq!(scanner.len(), 0);
    assert_eq!(scanner.peek(), None);
    assert_eq!(scanner.next(), None);
}

#[test]
fn maps_and_sets_of_characters() {
    let mut map: CharMap<u8> = CharMap::new();
    assert_eq!(map.get('a'), None);
    map.insert('a', 1);
    map.insert('\u{10ffff}', 2);
    map.insert('a', 3);
    assert_eq!(map.get('a'), Some(3));
    assert_eq!(map.get('\u{10ffff}'), Some(2));
    assert_eq!(map.get('b'), None);

    let mut set = CharSet::new();
    assert!(!set.contains('a'));
    set.insert('a');
    assert!(set.contains('a'));
    assert!(!set.contains('b'));
    set.clear();
    assert!(!set.contains('a'));
}

#[test]
fn membership() {
    let operands = [times('a', 1), fill('b'), times('c', 9), equiv('e')];
    for c in ['a', 'b', 'c', 'e', '\u{e9}', '\u{ea}'] {
        assert!(Operand::contains(&operands, &c));
    }
    for c in ['d', 'E', '\u{c9}', '\u{e1}'] {
        assert!(!Operand::contains(&operands, &c));
    }
    assert!(!Operand::contains(&[], &'a'));
    assert_eq!(operands[3].char(), &'e');
    assert_eq!(operands[2].char(), &'c');
}

#[test]
fn transliterations() {
    assert!(compare_deunicoded_chars('e', '\u{e9}'));
    assert!(compare_deunicoded_chars('\u{e9}', '\u{e8}'));
    assert!(!compare_deunicoded_chars('e', 'E'));
    assert!(!compare_deunicoded_chars('\u{e9}', '\u{e1}'));
    for c in ' '..='~' {
        for d in ' '..='~' {
            assert_eq!(compare_deunicoded_chars(c, d), c == d);
        }
    }
    assert!(equal_normalized(Some("ae"), Some("ae")));
    assert!(!equal_normalized(Some("ae"), Some("e")));
    assert!(!equal_normalized(Some("ae"), None));
    assert!(!equal_normalized(None, Some("")));
    assert!(equal_normalized(None, None));
}

#[test]
fn equivalence_is_an_equivalence() {
    let chars = ['e', '\u{e9}', '\u{e8}', 'E', '\n', '\u{ffff}', '\u{4e00}'];
    for c in chars {
        assert!(Operand::contains(&[equiv(c)], &c));
        for d in chars {
            assert_eq!(Operand::contains(&[equiv(c)], &d), Operand::contains(&[equiv(d)], &c));
        }
    }
}

#[test]
fn literal_sets() {
    let mut operands: Vec<Operand> = vec![equiv('x')];
    push_literals(&mut operands, &['a', 'b']);
    assert_eq!(operands, vec![equiv('x'), times('a', 1), times('b', 1)]);
}

#[test]
fn translation_maps() {
    assert_eq!(translated(&literals("abc"), &literals("xyz"), "aabbccdd"), "xxyyzzdd");
    assert_eq!(translated(&literals("abc"), &literals("x"), "abcd"), "xxxd");
    assert_eq!(translated(&literals("a"), &literals("xyz"), "ab"), "xb");
    assert_eq!(translated(&literals("aa"), &literals("xy"), "a"), "y");
    assert_eq!(translated(&[times('a', 2), times('b', 1)], &literals("xyz"), "ab"), "yz");
    assert_eq!(translated(&literals("abcd"), &[times('x', 2), times('y', 1)], "abcd"), "xxyy");
    assert_eq!(translated(&literals("abcd"), &[times('x', 1), fill('y'), times('z', 1)], "abcd"), "xyyz");
    assert_eq!(translated(&literals("ab"), &[times('x', 1), fill('y'), times('z', 1)], "ab"), "xz");
    assert_eq!(translated(&[], &[], "ab"), "ab");
    assert_eq!(translated(&[times('a', 0)], &[], "ab"), "ab");
}

#[test]
fn translation_is_charwise() {
    let map = generate_transformation_hash_map(&literals("ab"), &literals("ba"))
        .unwrap_or_else(|e| panic!("{}", e));
    let whole = translate(&map, &chars("abcab"));
    let parts = [translate(&map, &chars("abc")), translate(&map, &chars("ab"))].concat();
    assert_eq!(whole, parts);
}

#[test]
fn sets_that_cannot_be_translated() {
    assert_eq!(
        refused(&[fill('a')], &literals("x")),
        "tr: the [c*] repeat construct may not appear in string1"
    );
    assert_eq!(refused(&[equiv('a')], &literals("x")), "Expectation violated");
    assert_eq!(refused(&literals("a"), &[equiv('x')]), "Expectation violated");
    assert_eq!(
        refused(&literals("a"), &[fill('x'), fill('y')]),
        "tr: only one [c*] repeat construct may appear in string2"
    );
    assert_eq!(refused(&literals("a"), &[]), "Unexpected empty collection");
    assert_eq!(
        refused(&[times('a', 1), times('b', usize::MAX)], &literals("x")),
        "Arithmetic overflow"
    );
    assert_eq!(
        refused(&literals("a"), &[times('x', usize::MAX), times('y', 1)]),
        "Arithmetic overflow"
    );
}

#[test]
fn first_error_of_a_set_counts() {
    assert_eq!(
        refused(&[fill('a'), equiv('b')], &[equiv('x')]),
        "tr: the [c*] repeat construct may not appear in string1"
    );
    assert_eq!(
        refused(&literals("a"), &[equiv('x'), fill('x'), fill('y')]),
        "Expectation violated"
    );
}

#[test]
fn complements() {
    assert_eq!(complement_chars("", &[], &[]), Ok("".to_owned()));
    assert_eq!(complement_chars("abc", &literals("b"), &literals("x")), Ok("xbx".to_owned()));
    assert_eq!(
        complement_chars("1234567", &[], &[times('x', 2), equiv('y'), times('z', 1)]),
        Ok("xxyzxxy".to_owned())
    );
    assert_eq!(
        complement_chars("12345", &[], &[times('x', 1), fill('y'), times('z', 1)]),
        Ok("xyyyy".to_owned())
    );
    assert_eq!(
        complement_chars("1b2a3", &literals("ab"), &literals("xy")),
        Ok("xbyax".to_owned())
    );
    assert_eq!(
        complement_chars("ab", &literals("a"), &[]),
        Err("Indexing failed".to_owned())
    );
    assert_eq!(complement_chars("aa", &literals("a"), &[]), Ok("aa".to_owned()));
}

#[test]
fn elements_that_are_there_zero_times_are_not_reached() {
    let chars2 = [times('x', 2), times('y', 0), times('z', 1)];
    assert_eq!(complement_chars("aa", &literals("a"), &chars2), Ok("aa".to_owned()));
    assert_eq!(complement_chars("1a2", &literals("a"), &chars2), Ok("xax".to_owned()));
    assert_eq!(complement_chars("123", &[], &[fill('x'), times('y', 0)]), Ok("xxx".to_owned()));
    assert_eq!(complement_chars("a", &literals("a"), &[times('y', 0)]), Ok("a".to_owned()));
}

#[test]
fn sorting_is_stable() {
    assert_eq!(sort_by_char(&[]), vec![]);
    assert_eq!(
        sort_by_char(&[times('c', 1), equiv('a'), times('b', 2), times('a', 3), fill('b')]),
        vec![equiv('a'), times('a', 3), times('b', 2), fill('b'), times('c', 1)]
    );
    assert_eq!(sort_by_char(&literals("zyxwvut")), literals("tuvwxyz"));
    assert_eq!(sort_by_char(&literals("abc")), literals("abc"));
}

#[test]
fn counting_characters() {
    let counts = count_chars(&chars("abac"));
    assert_eq!(counts.get('a'), Some(2));
    assert_eq!(counts.get('b'), Some(1));
    assert_eq!(counts.get('c'), Some(1));
    assert_eq!(counts.get('d'), None);
}

#[test]
fn repeatable_characters() {
    let counts = count_chars(&chars("aabcc"));
    let set2 = literals("ab");
    let mut seen = CharSet::new();
    assert!(check_repeatable('a', &counts, &mut seen, &set2));
    assert!(seen.contains('a'));
    assert!(!check_repeatable('a', &counts, &mut seen, &set2));
    assert!(seen.contains('a'));
    assert!(!check_repeatable('b', &counts, &mut seen, &set2));
    assert!(!seen.contains('b'));
    assert!(!check_repeatable('c', &counts, &mut seen, &set2));
    assert!(!check_repeatable('c', &counts, &mut seen, &set2));
    assert!(!seen.contains('c'));
}

#[test]
fn squeezing() {
    assert_eq!(squeeze(&chars("aabbaacc"), &literals("ab")), chars("abacc"));
    assert_eq!(squeeze(&chars("aaaa"), &literals("a")), chars("a"));
    assert_eq!(squeeze(&chars("aabb"), &[]), chars("aabb"));
    assert_eq!(squeeze(&[], &literals("a")), chars(""));
}

#[test]
fn squeezing_spares_the_rest() {
    let input = chars("xxaayybbxx");
    let set = literals("ab");
    let output = squeeze(&input, &set);
    assert_eq!(output, chars("xxayybxx"));
    assert_eq!(retain(&output, &set, false), retain(&input, &set, false));
}

#[test]
fn deletion_splits_the_input() {
    let input = chars("hello");
    let set = literals("lo");
    assert_eq!(retain(&input, &set, true), chars("llo"));
    assert_eq!(retain(&input, &set, false), chars("he"));
    assert_eq!(retain(&chars("he"), &set, false), chars("he"));
}

#[test]
fn both_complements_agree_on_an_ordered_set() {
    let run = |complement_val: bool| {
        let args = tr::args::Args {
            delete: false,
            squeeze_repeats: false,
            complement_val,
            complement_char: !complement_val,
            string1: "a".to_owned(),
            string2: Some("xyz".to_owned()),
        };
        transform(&args, &literals("a"), &Some(literals("xyz")), "1a234")
    };
    assert_eq!(run(true), Ok("xayzx".to_owned()));
    assert_eq!(run(false), run(true));
}
