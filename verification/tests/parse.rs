use ksym::kallsyms::{parse_kallsyms, parse_line};
use ksym::number::{digits_of, hex_digit, parse_hex, push_hex16};
use ksym::store::KernelSymbols;
use ksym::text::{is_whitespace, join_from, split_lines, split_whitespace, to_chars, to_string, trim_chars};

fn chars(s: &str) -> Vec<char> {
    s.chars().collect()
}

fn line(s: &str) -> Option<(String, u64)> {
    parse_line(&chars(s))
}

fn entry(name: &str, address: u64) -> (String, u64) {
    (name.to_string(), address)
}

#[test]
fn text_line_gives_address_and_name() {
    assert_eq!(line("ffffffff80200000 T _start"), Some(entry("_start", 0xffffffff80200000)));
    assert_eq!(line("1f t local_fn"), Some(entry("local_fn", 0x1f)));
    assert_eq!(line("ABCDEF T upper"), Some(entry("upper", 0xabcdef)));
}

#[test]
fn name_is_the_rest_joined_by_single_spaces() {
    assert_eq!(
        line("10 T <impl core::fmt::Debug   for\tFoo>::fmt"),
        Some(entry("<impl core::fmt::Debug for Foo>::fmt", 0x10))
    );
    assert_eq!(line("  10   T   a  b  "), Some(entry("a b", 0x10)));
    assert_eq!(line("10 T"), Some(entry("", 0x10)));
}

#[test]
fn other_types_are_dropped() {
    assert_eq!(line("10 D data"), None);
    assert_eq!(line("10 d data"), None);
    assert_eq!(line("10 W weak"), None);
    assert_eq!(line("10 U undefined"), None);
    assert_eq!(line("10 b bss"), None);
    assert_eq!(line("10"), None);
    assert_eq!(line(""), None);
    assert_eq!(line("   "), None);
}

#[test]
fn type_is_the_first_character_of_its_field() {
    assert_eq!(line("10 Tx name"), Some(entry("name", 0x10)));
    assert_eq!(line("10 text name"), Some(entry("name", 0x10)));
    assert_eq!(line("10 xT name"), None);
}

#[test]
fn malformed_address_counts_as_zero() {
    assert_eq!(line("zz T name"), Some(entry("name", 0)));
    assert_eq!(line("0x10 T name"), Some(entry("name", 0)));
    assert_eq!(line("-10 T name"), Some(entry("name", 0)));
    assert_eq!(line("+ T name"), Some(entry("name", 0)));
    assert_eq!(line("10000000000000000 T name"), Some(entry("name", 0)));
    assert_eq!(line("T T name"), Some(entry("name", 0)));
}

#[test]
fn hexadecimal_numbers() {
    assert_eq!(parse_hex(&chars("0")), Some(0));
    assert_eq!(parse_hex(&chars("ff")), Some(255));
    assert_eq!(parse_hex(&chars("+ff")), Some(255));
    assert_eq!(parse_hex(&chars("Ff")), Some(255));
    assert_eq!(parse_hex(&chars("ffffffffffffffff")), Some(u64::MAX));
    assert_eq!(parse_hex(&chars("0000000000000000000001")), Some(1));
    assert_eq!(parse_hex(&chars("10000000000000000")), None);
    assert_eq!(parse_hex(&chars("fffffffffffffffff")), None);
    assert_eq!(parse_hex(&chars("")), None);
    assert_eq!(parse_hex(&chars("+")), None);
    assert_eq!(parse_hex(&chars("++1")), None);
    assert_eq!(parse_hex(&chars("1+")), None);
    assert_eq!(parse_hex(&chars("-1")), None);
    assert_eq!(parse_hex(&chars("1g")), None);
    assert_eq!(parse_hex(&chars("1_0")), None);
    assert_eq!(parse_hex(&chars("\u{661}")), None);
}

#[test]
fn hexadecimal_digits() {
    assert_eq!(hex_digit('0'), Some(0));
    assert_eq!(hex_digit('9'), Some(9));
    assert_eq!(hex_digit('a'), Some(10));
    assert_eq!(hex_digit('f'), Some(15));
    assert_eq!(hex_digit('A'), Some(10));
    assert_eq!(hex_digit('F'), Some(15));
    assert_eq!(hex_digit('g'), None);
    assert_eq!(hex_digit('G'), None);
    assert_eq!(hex_digit('/'), None);
    assert_eq!(hex_digit(':'), None);
    assert_eq!(hex_digit('@'), None);
    assert_eq!(hex_digit('`'), None);
}

#[test]
fn digits_in_a_base() {
    assert_eq!(to_string(&digits_of(0, 10)), "0");
    assert_eq!(to_string(&digits_of(7, 10)), "7");
    assert_eq!(to_string(&digits_of(1234567890, 10)), "1234567890");
    assert_eq!(to_string(&digits_of(u64::MAX, 10)), "18446744073709551615");
    assert_eq!(to_string(&digits_of(0, 16)), "0");
    assert_eq!(to_string(&digits_of(0xdeadbeef, 16)), "deadbeef");
    assert_eq!(to_string(&digits_of(u64::MAX, 16)), "ffffffffffffffff");
    assert_eq!(to_string(&digits_of(5, 2)), "101");
}

#[test]
fn sixteen_hexadecimal_digits() {
    let mut out = String::from("x=");
    push_hex16(&mut out, 0x1f);
    assert_eq!(out, "x=000000000000001f");
    let mut all = String::new();
    push_hex16(&mut all, u64::MAX);
    assert_eq!(all, "ffffffffffffffff");
    let mut zero = String::new();
    push_hex16(&mut zero, 0);
    assert_eq!(zero, "0000000000000000");
    for v in [0u64, 1, 15, 16, 0xabc, 0x8000_0000_0000_0000, u64::MAX] {
        let mut s = String::new();
        push_hex16(&mut s, v);
        assert_eq!(s, format!("{:016x}", v));
        assert_eq!(parse_hex(&chars(&s)), Some(v));
        assert_eq!(to_string(&digits_of(v, 16)), format!("{:x}", v));
        assert_eq!(to_string(&digits_of(v, 10)), format!("{}", v));
    }
}

#[test]
fn table_keeps_the_order_of_the_lines() {
    let text = "30 T third\n10 T first\n20 D data\n\n20 t second\nbad line\n";
    assert_eq!(
        parse_kallsyms(text),
        vec![entry("third", 0x30), entry("first", 0x10), entry("second", 0x20)]
    );
}

#[test]
fn text_without_a_final_line_feed() {
    assert_eq!(parse_kallsyms("10 T a\n20 T b"), vec![entry("a", 0x10), entry("b", 0x20)]);
    assert_eq!(parse_kallsyms("10 T a"), vec![entry("a", 0x10)]);
    assert_eq!(parse_kallsyms(""), Vec::new());
    assert_eq!(parse_kallsyms("\n\n"), Vec::new());
}

#[test]
fn carriage_returns_are_white_space() {
    assert_eq!(parse_kallsyms("10 T a\r\n20 T b\r\n"), vec![entry("a", 0x10), entry("b", 0x20)]);
}

#[test]
fn no_entry_comes_from_a_line_of_another_type() {
    let text = "1 A abs\n2 B bss\n3 D data\n4 R ro\n5 T text\n6 U undef\n7 V v\n8 W weak\n9 t local\n";
    let table = parse_kallsyms(text);
    assert_eq!(table, vec![entry("text", 5), entry("local", 9)]);
}

#[test]
fn parsed_table_serves_queries() {
    let mut symbols = KernelSymbols::new();
    ksym::init_kernel_symbols(&mut symbols, "ffffffff80200000 T _start\nffffffff80200100 T main\nffffffff80200200 T end\n");
    assert_eq!(
        ksym::lookup_kallsyms(&symbols, 0xffffffff80200080),
        Some(("_start".to_string(), 0xffffffff80200000))
    );
    assert_eq!(ksym::addr_from_symbol(&symbols, "main"), Some(0xffffffff80200100));
}

#[test]
fn white_space_is_that_of_unicode() {
    for c in [' ', '\t', '\n', '\u{b}', '\u{c}', '\r', '\u{85}', '\u{a0}', '\u{1680}', '\u{2000}',
        '\u{2005}', '\u{200a}', '\u{2028}', '\u{2029}', '\u{202f}', '\u{205f}', '\u{3000}'] {
        assert!(is_whitespace(c));
    }
    for c in ['a', '0', '\0', '\u{8}', '\u{e}', '\u{1f}', '!', '\u{84}', '\u{86}', '\u{9f}',
        '\u{a1}', '\u{180e}', '\u{1fff}', '\u{200b}', '\u{2027}', '\u{202a}', '\u{2060}',
        '\u{2fff}', '\u{3001}', '\u{feff}'] {
        assert!(!is_whitespace(c));
    }
    let mut c = 0u32;
    while c <= 0x3100 {
        if let Some(ch) = char::from_u32(c) {
            assert_eq!(is_whitespace(ch), ch.is_whitespace());
        }
        c += 1;
    }
}

#[test]
fn fields_are_runs_without_white_space() {
    let fields = split_whitespace(&chars("  ab\tc\u{a0}\u{3000}d e\n"));
    let texts: Vec<String> = fields.iter().map(|f| to_string(f)).collect();
    assert_eq!(texts, vec!["ab", "c", "d", "e"]);
    assert!(split_whitespace(&chars("")).is_empty());
    assert!(split_whitespace(&chars(" \t \n")).is_empty());
    let one = split_whitespace(&chars("word"));
    assert_eq!(one, vec![chars("word")]);
    for s in ["a b", " a  b ", "x", "", "  ", "a\u{2003}b\u{85}c", "tab\there"] {
        let ours: Vec<String> = split_whitespace(&chars(s)).iter().map(|f| to_string(f)).collect();
        let std: Vec<String> = s.split_whitespace().map(|f| f.to_string()).collect();
        assert_eq!(ours, std);
    }
}

#[test]
fn lines_end_at_line_feeds() {
    assert_eq!(split_lines(&chars("a\nb\n")), vec![chars("a"), chars("b")]);
    assert_eq!(split_lines(&chars("a\n\nb")), vec![chars("a"), chars(""), chars("b")]);
    assert_eq!(split_lines(&chars("\n")), vec![chars("")]);
    assert_eq!(split_lines(&chars("")), Vec::<Vec<char>>::new());
    assert_eq!(split_lines(&chars("no end")), vec![chars("no end")]);
    assert_eq!(split_lines(&chars("a\r\nb")), vec![chars("a\r"), chars("b")]);
}

#[test]
fn joining_puts_the_separator_between() {
    let parts = vec![chars("a"), chars("b"), chars("cd"), chars("e")];
    assert_eq!(to_string(&join_from(&parts, 0, ' ')), "a b cd e");
    assert_eq!(to_string(&join_from(&parts, 2, ' ')), "cd e");
    assert_eq!(to_string(&join_from(&parts, 3, '-')), "e");
    assert_eq!(to_string(&join_from(&parts, 4, ' ')), "");
    assert_eq!(to_string(&join_from(&parts, 9, ' ')), "");
    assert_eq!(to_string(&join_from(&parts, 1, ',')), "b,cd,e");
}

#[test]
fn trimming_takes_white_space_off_both_ends() {
    assert_eq!(to_string(trim_chars(&chars("  a b \n"))), "a b");
    assert_eq!(to_string(trim_chars(&chars("a"))), "a");
    assert_eq!(to_string(trim_chars(&chars(" \t\r\n"))), "");
    assert_eq!(to_string(trim_chars(&chars(""))), "");
    assert_eq!(to_string(trim_chars(&chars("\u{3000}x\u{a0}"))), "x");
}

#[test]
fn characters_and_strings_convert_both_ways() {
    assert_eq!(to_chars("héllo, 世界"), chars("héllo, 世界"));
    assert_eq!(to_chars(""), Vec::<char>::new());
    assert_eq!(to_string(&chars("héllo, 世界")), "héllo, 世界");
    assert_eq!(to_string(&[]), "");
}
