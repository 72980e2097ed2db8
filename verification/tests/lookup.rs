use ksym::store::KernelSymbols;
use ksym::table::{lookup_address, lookup_name};
use ksym::{addr_from_symbol, init_kernel_symbols, lookup_kallsyms};

fn table(entries: &[(&str, u64)]) -> Vec<(String, u64)> {
    entries.iter().map(|(name, address)| (name.to_string(), *address)).collect()
}

fn sample() -> KernelSymbols {
    let mut symbols = KernelSymbols::new();
    init_kernel_symbols(&mut symbols, "a T f\n14 T g\n1e t h\n");
    symbols
}

// An address query hands back the entry that it finds. It does not answer
// "not found" for an address that falls to an entry.
#[test]
fn address_inside_a_range_is_found() {
    let symbols = sample();
    assert_eq!(lookup_kallsyms(&symbols, 15), Some(("f".to_string(), 10)));
    assert_eq!(lookup_kallsyms(&symbols, 25), Some(("g".to_string(), 20)));
}

#[test]
fn address_before_the_first_symbol_is_not_found() {
    let symbols = sample();
    assert_eq!(lookup_kallsyms(&symbols, 5), None);
    assert_eq!(lookup_kallsyms(&symbols, 0), None);
}

#[test]
fn start_of_a_symbol_belongs_to_the_one_before() {
    let symbols = sample();
    assert_eq!(lookup_kallsyms(&symbols, 30), Some(("g".to_string(), 20)));
    assert_eq!(lookup_kallsyms(&symbols, 20), Some(("f".to_string(), 10)));
    assert_eq!(lookup_kallsyms(&symbols, 10), None);
    assert_eq!(lookup_kallsyms(&symbols, 11), Some(("f".to_string(), 10)));
}

#[test]
fn address_after_the_last_start_is_not_found() {
    let symbols = sample();
    assert_eq!(lookup_kallsyms(&symbols, 31), None);
    assert_eq!(lookup_kallsyms(&symbols, u64::MAX), None);
}

#[test]
fn address_lookup_on_small_tables() {
    assert_eq!(lookup_address(&table(&[]), 7), None);
    assert_eq!(lookup_address(&table(&[("only", 3)]), 7), None);
    assert_eq!(lookup_address(&table(&[("a", 3), ("b", 7)]), 7), Some(("a".to_string(), 3)));
    assert_eq!(lookup_address(&table(&[("a", 3), ("b", 7)]), 8), None);
}

#[test]
fn address_lookup_takes_the_first_range_on_an_unsorted_table() {
    let t = table(&[("a", 10), ("b", 50), ("c", 20), ("d", 40)]);
    assert_eq!(lookup_address(&t, 30), Some(("a".to_string(), 10)));
    assert_eq!(lookup_address(&t, 5), None);
    let u = table(&[("a", 50), ("b", 10), ("c", 20)]);
    assert_eq!(lookup_address(&u, 15), Some(("b".to_string(), 10)));
}

#[test]
fn name_lookup_is_exact() {
    let t = table(&[("ff", 1), ("f", 2), ("F", 3), ("f", 4)]);
    assert_eq!(lookup_name(&t, "f"), Some(2));
    assert_eq!(lookup_name(&t, "ff"), Some(1));
    assert_eq!(lookup_name(&t, "F"), Some(3));
    assert_eq!(lookup_name(&t, "fff"), None);
    assert_eq!(lookup_name(&t, ""), None);
    assert_eq!(lookup_name(&table(&[]), "f"), None);
}

#[test]
fn name_lookup_through_the_holder() {
    let mut symbols = KernelSymbols::new();
    init_kernel_symbols(&mut symbols, "10 T f\n20 T ff\n30 T core::fmt::write\n");
    assert_eq!(addr_from_symbol(&symbols, "f"), Some(0x10));
    assert_eq!(addr_from_symbol(&symbols, "ff"), Some(0x20));
    assert_eq!(addr_from_symbol(&symbols, "core::fmt::write"), Some(0x30));
    assert_eq!(addr_from_symbol(&symbols, "Ff"), None);
    assert_eq!(addr_from_symbol(&symbols, "core::fmt"), None);
}

#[test]
fn repeated_lookups_agree() {
    let symbols = sample();
    let first = lookup_kallsyms(&symbols, 25);
    let by_name = addr_from_symbol(&symbols, "g");
    for _ in 0..3 {
        assert_eq!(lookup_kallsyms(&symbols, 25), first);
        assert_eq!(addr_from_symbol(&symbols, "g"), by_name);
        assert_eq!(lookup_kallsyms(&symbols, 5), None);
    }
    assert_eq!(first, Some(("g".to_string(), 20)));
    assert_eq!(by_name, Some(20));
}

#[test]
fn holder_takes_its_table_once() {
    let mut symbols = KernelSymbols::new();
    assert!(!symbols.is_ready());
    assert!(symbols.get().is_none());
    symbols.init_once(table(&[("a", 1), ("b", 2)]));
    assert!(symbols.is_ready());
    assert_eq!(symbols.get(), Some(&table(&[("a", 1), ("b", 2)])));
}

#[test]
fn holder_starts_empty_and_is_ready_after_text() {
    let mut symbols = KernelSymbols::new();
    assert!(!symbols.is_ready());
    init_kernel_symbols(&mut symbols, "");
    assert!(symbols.is_ready());
    assert_eq!(symbols.get(), Some(&Vec::new()));
    assert_eq!(lookup_kallsyms(&symbols, 1), None);
    assert_eq!(addr_from_symbol(&symbols, "a"), None);
}
