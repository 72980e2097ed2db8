use ksym::assembly::{is_consistent, load_symbols, read_name};
use ksym::gen_ksym::{contains_marker, entry_for, read_map, read_map_symbol, read_symbol, starts_mangled, KernelSymbolEntry};
use ksym::gen_ksym_as::{dedup_entries, layout, layout_of};
use ksym::kallsyms::parse_kallsyms;
use ksym::store::KernelSymbols;

fn chars(s: &str) -> Vec<char> {
    s.chars().collect()
}

fn entries(list: &[(&str, u64)]) -> Vec<KernelSymbolEntry> {
    list.iter().map(|(name, vaddr)| KernelSymbolEntry::new(*vaddr, name.to_string())).collect()
}

fn pairs(table: &[KernelSymbolEntry]) -> Vec<(String, u64)> {
    table.iter().map(|e| (e.symbol.clone(), e.vaddr)).collect()
}

fn pair(entry: Option<KernelSymbolEntry>) -> Option<(String, u64)> {
    entry.map(|e| (e.symbol, e.vaddr))
}

fn line_of_length(n: usize) -> String {
    let head = "10 T ";
    let mut s = String::from(head);
    while s.len() < n {
        s.push('a');
    }
    s
}

#[test]
fn line_of_the_map_gives_an_entry() {
    assert_eq!(pair(read_symbol("ffffffff80200000 T _start")), Some(("_start".to_string(), 0xffffffff80200000)));
    assert_eq!(pair(read_symbol("10 t a b")), Some(("a b".to_string(), 0x10)));
    assert_eq!(pair(read_symbol("10 D data")), None);
    assert_eq!(pair(read_symbol("10")), None);
    assert_eq!(pair(read_symbol("")), None);
}

#[test]
fn line_longer_than_512_is_dropped() {
    let kept = line_of_length(511);
    assert_eq!(kept.chars().count(), 511);
    assert_eq!(pair(read_symbol(&kept)), Some(("a".repeat(506), 0x10)));
    let limit = line_of_length(512);
    assert_eq!(pair(read_symbol(&limit)), Some(("a".repeat(507), 0x10)));
    let long = line_of_length(513);
    assert_eq!(long.chars().count(), 513);
    assert_eq!(pair(read_symbol(&long)), None);
    assert_eq!(pair(read_symbol(&line_of_length(4000))), None);
}

#[test]
fn length_of_a_line_counts_characters() {
    let mut name = String::new();
    for _ in 0..507 {
        name.push('é');
    }
    let line = format!("10 T {}", name);
    assert_eq!(line.chars().count(), 512);
    assert_eq!(pair(read_symbol(&line)), Some((name.clone(), 0x10)));
    let longer = format!("10 T {}é", name);
    assert_eq!(longer.chars().count(), 513);
    assert_eq!(pair(read_symbol(&longer)), None);
}

#[test]
fn note_on_the_number_of_entries() {
    assert_eq!(ksym::gen_ksym::count_message(&entries(&[("a", 1), ("b", 2), ("c", 3)])), "Generating kernel symbols: 3 entries");
    assert_eq!(ksym::gen_ksym::count_message(&[]), "Generating kernel symbols: 0 entries");
}

#[test]
fn long_line_of_another_type_or_of_spaces_is_dropped() {
    let mut spaces = String::from("10 T a");
    while spaces.len() < 600 {
        spaces.push(' ');
    }
    assert_eq!(pair(read_symbol(&spaces)), None);
}

#[test]
fn name_with_the_marker_is_dropped() {
    assert_eq!(pair(read_symbol("10 t $x")), None);
    assert_eq!(pair(read_symbol("10 t $x.12")), None);
    assert_eq!(pair(read_symbol("10 T foo$x")), None);
    assert_eq!(pair(read_symbol("10 T a $x b")), None);
    assert_eq!(pair(read_symbol("10 T $ x")), Some(("$ x".to_string(), 0x10)));
    assert_eq!(pair(read_symbol("10 T $d")), Some(("$d".to_string(), 0x10)));
    assert_eq!(pair(read_symbol("10 T x$")), Some(("x$".to_string(), 0x10)));
    assert_eq!(pair(read_symbol("10 T $X")), Some(("$X".to_string(), 0x10)));
    assert_eq!(pair(read_symbol("$x T name")), Some(("name".to_string(), 0)));
}

#[test]
fn marker_and_prefix_are_found() {
    assert!(contains_marker(&chars("$x")));
    assert!(contains_marker(&chars("a$x")));
    assert!(contains_marker(&chars("$$x$")));
    assert!(!contains_marker(&chars("")));
    assert!(!contains_marker(&chars("$")));
    assert!(!contains_marker(&chars("x$")));
    assert!(!contains_marker(&chars("$ax")));
    assert!(starts_mangled(&chars("_ZN")));
    assert!(starts_mangled(&chars("_ZN3fooE")));
    assert!(!starts_mangled(&chars("_Z")));
    assert!(!starts_mangled(&chars("__ZN3fooE")));
    assert!(!starts_mangled(&chars("ZN3fooE")));
    assert!(!starts_mangled(&chars("_zn3fooE")));
}

#[test]
fn mangled_names_are_demangled() {
    assert_eq!(pair(read_symbol("10 T _ZN4testE")), Some(("test".to_string(), 0x10)));
    assert_eq!(pair(read_symbol("10 T _ZN3foo3barE")), Some(("foo::bar".to_string(), 0x10)));
    assert_eq!(
        pair(read_symbol("20 t _ZN3foo17h05af221e174051e9E")),
        Some(("foo".to_string(), 0x20))
    );
    assert_eq!(
        pair(read_symbol("20 t _ZN71_$LT$Test$u20$$u2b$$u20$$u27$static$u20$as$u20$foo..Bar$LT$Test$GT$$GT$3barE")),
        Some(("<Test + 'static as foo::Bar<Test>>::bar".to_string(), 0x20))
    );
}

#[test]
fn other_names_are_kept_as_written() {
    assert_eq!(pair(read_symbol("10 T main")), Some(("main".to_string(), 0x10)));
    assert_eq!(pair(read_symbol("10 T _RNvC6_123foo3bar")), Some(("_RNvC6_123foo3bar".to_string(), 0x10)));
    assert_eq!(pair(read_symbol("10 T ZN4testE")), Some(("ZN4testE".to_string(), 0x10)));
    assert_eq!(pair(read_symbol("10 T _ZN")), Some(("_ZN".to_string(), 0x10)));
    assert_eq!(pair(read_symbol("10 T _ZNnotmangled")), Some(("_ZNnotmangled".to_string(), 0x10)));
}

#[test]
fn entry_for_a_symbol() {
    let plain = entry_for(&chars("plain"), 7);
    assert_eq!((plain.symbol.as_str(), plain.vaddr), ("plain", 7));
    let mangled = entry_for(&chars("_ZN3foo3barE"), 8);
    assert_eq!((mangled.symbol.as_str(), mangled.vaddr), ("foo::bar", 8));
}

#[test]
fn symbol_of_the_map_before_demangling() {
    assert_eq!(read_map_symbol(&chars("10 T _ZN4testE")), Some((chars("_ZN4testE"), 0x10)));
    assert_eq!(read_map_symbol(&chars("10 T a$xb")), None);
    assert_eq!(read_map_symbol(&chars("10 R a")), None);
    assert_eq!(read_map_symbol(&chars("xyz T a")), Some((chars("a"), 0)));
}

#[test]
fn map_is_read_line_by_line() {
    let input = "0000000000001000 T _start\n0000000000001000 t $x\n0000000000002000 D data\n   0000000000003000 T _ZN3foo3barE  \r\n\n0000000000004000 t last";
    assert_eq!(
        pairs(&read_map(input)),
        vec![
            ("_start".to_string(), 0x1000),
            ("foo::bar".to_string(), 0x3000),
            ("last".to_string(), 0x4000)
        ]
    );
    assert!(read_map("").is_empty());
}

#[test]
fn white_space_at_the_ends_does_not_count_for_the_length() {
    let mut padded = String::from("      ");
    padded.push_str(&line_of_length(512));
    padded.push_str("      \n");
    assert_eq!(pairs(&read_map(&padded)), vec![("a".repeat(507), 0x10)]);
    let mut long = String::from(" ");
    long.push_str(&line_of_length(513));
    long.push('\n');
    assert!(read_map(&long).is_empty());
}

#[test]
fn text_mode_writes_one_line_for_each_entry() {
    let table = entries(&[("_start", 0xffffffff80200000), ("foo::bar", 0x1f), ("a b", 0)]);
    assert_eq!(
        ksym::gen_ksym::generate_result(&table),
        "ffffffff80200000 T _start\n000000000000001f T foo::bar\n0000000000000000 T a b\n"
    );
    assert_eq!(ksym::gen_ksym::generate_result(&[]), "");
}

#[test]
fn text_mode_output_reads_back_as_the_same_table() {
    let table = entries(&[("_start", 0x1000), ("<T as core::fmt::Debug>::fmt", 0x2000), ("main", u64::MAX)]);
    let text = ksym::gen_ksym::generate_result(&table);
    assert_eq!(parse_kallsyms(&text), pairs(&table));
}

#[test]
fn one_entry_is_kept_for_each_run_of_an_address() {
    let table = entries(&[("a", 1), ("b", 1), ("c", 2), ("d", 2), ("e", 2), ("f", 3), ("g", 1)]);
    assert_eq!(
        pairs(&dedup_entries(&table)),
        vec![("a".to_string(), 1), ("c".to_string(), 2), ("f".to_string(), 3), ("g".to_string(), 1)]
    );
    assert!(dedup_entries(&[]).is_empty());
    assert_eq!(pairs(&dedup_entries(&entries(&[("zero", 0), ("also", 0)]))), vec![("zero".to_string(), 0)]);
}

#[test]
fn regions_of_a_table() {
    let table = entries(&[("ab", 0x10), ("dup", 0x10), ("", 0x20), ("é", 0x30)]);
    let regions = layout(&table);
    assert_eq!(regions.addresses, vec![0x10, 0x20, 0x30]);
    assert_eq!(regions.count, 3);
    assert_eq!(regions.name_index, vec![0, 3, 4]);
    assert_eq!(regions.names, vec![b'a', b'b', 0, 0, 0xc3, 0xa9, 0]);
    let empty = layout(&[]);
    assert_eq!(empty.count, 0);
    assert!(empty.addresses.is_empty() && empty.name_index.is_empty() && empty.names.is_empty());
}

#[test]
fn layout_of_takes_every_entry() {
    let regions = layout_of(&entries(&[("a", 1), ("b", 1)]));
    assert_eq!(regions.addresses, vec![1, 1]);
    assert_eq!(regions.count, 2);
    assert_eq!(regions.name_index, vec![0, 2]);
    assert_eq!(regions.names, vec![b'a', 0, b'b', 0]);
}

#[test]
fn assembly_mode_writes_the_four_regions() {
    let table = entries(&[("_start", 0xffffffff80200000), ("twin", 0xffffffff80200000), ("foo::bar", 0xffffffff80200abc)]);
    let expected = concat_lines(&[
        ".section .rodata",
        "",
        ".global ksyms_address",
        ".align 8",
        "",
        "ksyms_address:",
        "\t.quad\t0xffffffff80200000",
        "\t.quad\t0xffffffff80200abc",
        "",
        ".global ksyms_num",
        ".align 8",
        "ksyms_num:",
        "\t.quad\t2",
        "",
        ".global ksyms_names_index",
        ".align 8",
        "ksyms_names_index:",
        "\t.quad\t0",
        "\t.quad\t7",
        "",
        ".global ksyms_names",
        ".align 8",
        "ksyms_names:",
        "\t.asciz\t\"_start\"",
        "\t.asciz\t\"foo::bar\"",
    ]);
    assert_eq!(ksym::gen_ksym_as::generate_result(&table), expected);
}

fn concat_lines(lines: &[&str]) -> String {
    let mut s = String::new();
    for l in lines {
        s.push_str(l);
        s.push('\n');
    }
    s
}

#[test]
fn assembly_mode_on_an_empty_table() {
    let expected = concat_lines(&[
        ".section .rodata",
        "",
        ".global ksyms_address",
        ".align 8",
        "",
        "ksyms_address:",
        "",
        ".global ksyms_num",
        ".align 8",
        "ksyms_num:",
        "\t.quad\t0",
        "",
        ".global ksyms_names_index",
        ".align 8",
        "ksyms_names_index:",
        "",
        ".global ksyms_names",
        ".align 8",
        "ksyms_names:",
    ]);
    assert_eq!(ksym::gen_ksym_as::generate_result(&[]), expected);
}

#[test]
fn offsets_count_bytes_and_the_closing_zero() {
    let table = entries(&[("a", 1), ("日本", 2), ("c", 3), ("0123456789", 4), ("e", 5)]);
    let regions = layout(&table);
    assert_eq!(regions.name_index, vec![0, 2, 9, 11, 22]);
    let text = ksym::gen_ksym_as::generate_result(&table);
    assert!(text.contains("ksyms_names_index:\n\t.quad\t0\n\t.quad\t2\n\t.quad\t9\n\t.quad\t11\n\t.quad\t22\n\n"));
    assert!(text.contains("ksyms_num:\n\t.quad\t5\n"));
    assert!(text.contains("\t.quad\t0x1\n\t.quad\t0x2\n"));
}

#[test]
fn loader_reads_back_what_was_laid_out() {
    let table = entries(&[("_start", 0x1000), ("twin", 0x1000), ("<T as core::fmt::Debug>::fmt", 0x2000), ("ünïcode", 0x3000), ("", 0x4000)]);
    let regions = layout(&table);
    assert!(is_consistent(&regions.addresses, regions.count, &regions.name_index, &regions.names));
    let loaded = load_symbols(&regions.addresses, regions.count, &regions.name_index, &regions.names);
    assert_eq!(loaded, pairs(&dedup_entries(&table)));
    assert_eq!(
        loaded,
        vec![
            ("_start".to_string(), 0x1000),
            ("<T as core::fmt::Debug>::fmt".to_string(), 0x2000),
            ("ünïcode".to_string(), 0x3000),
            ("".to_string(), 0x4000)
        ]
    );
}

#[test]
fn loaded_table_agrees_with_the_text_of_text_mode() {
    let map = "0000000000001000 T _start\n0000000000001000 T alias\n0000000000002000 T _ZN3foo3barE\n0000000000003000 t tail\n";
    let table = read_map(map);
    let from_text = parse_kallsyms(&ksym::gen_ksym::generate_result(&table));
    let regions = layout(&table);
    let loaded = load_symbols(&regions.addresses, regions.count, &regions.name_index, &regions.names);
    assert_eq!(from_text.len(), 4);
    let without_twins: Vec<(String, u64)> = from_text.into_iter().filter(|e| e.0 != "alias").collect();
    assert_eq!(loaded, without_twins);
}

#[test]
fn name_with_a_zero_inside_is_read_back_short() {
    let table = entries(&[("a\0b", 1), ("c", 2)]);
    let regions = layout(&table);
    let loaded = load_symbols(&regions.addresses, regions.count, &regions.name_index, &regions.names);
    assert_eq!(loaded, vec![("a".to_string(), 1), ("c".to_string(), 2)]);
}

#[test]
fn bytes_that_are_no_utf8_give_the_placeholder() {
    let names = [b'o', b'k', 0, 0xff, 0xfe, 0, 0xc3, 0, b'z', 0];
    let addresses = [1u64, 2, 3, 4];
    let index = [0u64, 3, 6, 8];
    assert!(is_consistent(&addresses, 4, &index, &names));
    assert_eq!(
        load_symbols(&addresses, 4, &index, &names),
        vec![
            ("ok".to_string(), 1),
            ("unknown".to_string(), 2),
            ("unknown".to_string(), 3),
            ("z".to_string(), 4)
        ]
    );
    assert_eq!(read_name(&names, 1), "k");
    assert_eq!(read_name(&names, 2), "");
    assert_eq!(read_name(&names, 4), "unknown");
}

#[test]
fn loader_reads_only_the_first_count_symbols() {
    let names = [b'a', 0, b'b', 0];
    let addresses = [1u64, 2];
    let index = [0u64, 2];
    assert_eq!(load_symbols(&addresses, 1, &index, &names), vec![("a".to_string(), 1)]);
    assert_eq!(load_symbols(&addresses, 0, &index, &names), Vec::new());
    assert_eq!(load_symbols(&addresses, 2, &[2, 0], &names), vec![("b".to_string(), 1), ("a".to_string(), 2)]);
}

#[test]
fn regions_that_do_not_fit_are_told_apart() {
    let names = [b'a', 0, b'b'];
    assert!(is_consistent(&[1, 2], 1, &[0, 2], &names));
    assert!(is_consistent(&[1, 2], 0, &[], &[]));
    assert!(!is_consistent(&[1, 2], 2, &[0, 2], &names));
    assert!(!is_consistent(&[1, 2], 2, &[0, 3], &names));
    assert!(!is_consistent(&[1, 2], 2, &[0, u64::MAX], &names));
    assert!(!is_consistent(&[1], 2, &[0, 0], &names));
    assert!(!is_consistent(&[1, 2], 2, &[0], &names));
    assert!(is_consistent(&[1, 2], 2, &[0, 1], &names));
}

#[test]
fn embedded_table_serves_queries() {
    let table = entries(&[("f", 10), ("g", 20), ("h", 30)]);
    let regions = layout(&table);
    let mut symbols = KernelSymbols::new();
    ksym::assembly::init_kernel_symbols(&mut symbols, &regions.addresses, regions.count, &regions.name_index, &regions.names);
    assert!(symbols.is_ready());
    assert_eq!(ksym::lookup_kallsyms(&symbols, 15), Some(("f".to_string(), 10)));
    assert_eq!(ksym::lookup_kallsyms(&symbols, 30), Some(("g".to_string(), 20)));
    assert_eq!(ksym::lookup_kallsyms(&symbols, 31), None);
    assert_eq!(ksym::addr_from_symbol(&symbols, "h"), Some(30));
}
