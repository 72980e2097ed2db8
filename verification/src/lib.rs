//! Kernel symbol tables: from an instruction address to the name of the
//! function it lies in, and from a name to its address.
//!
//! The table is read once, either from text in the form of a symbol map
//! ([`init_kernel_symbols`]) or from the four regions that the generator lays
//! out for the linker ([`assembly::init_kernel_symbols`]), and then serves
//! [`lookup_kallsyms`] and [`addr_from_symbol`].

use vstd::prelude::*;

pub mod assembly;
pub mod gen_ksym;
pub mod gen_ksym_as;
pub mod kallsyms;
pub mod number;
pub mod store;
pub mod table;
pub mod text;

use crate::kallsyms::{kallsyms, parse_kallsyms};
use crate::store::KernelSymbols;
use crate::table::{address_of, lookup_address, lookup_name, symbol_at};

verus! {

/// Initialises the symbol table from text in the form of a symbol map, one
/// symbol per line: address in hexadecimal, type, name. Lines whose type is
/// neither `T` nor `t` are left out; the others are kept in their order.
///
/// A holder takes its table once: one that is ready is not accepted.
pub fn init_kernel_symbols(symbols: &mut KernelSymbols, ksym: &str)
    requires
        !old(symbols).ready(),
    ensures
        final(symbols).ready(),
        final(symbols).table() == kallsyms(ksym@),
{
    let table = parse_kallsyms(ksym);
    symbols.init_once(table);
}

/// The symbol that the address `addr` lies in, with the address at which
/// that symbol starts: the first entry that starts before `addr` while the
/// next entry does not. An address at which an entry starts belongs to the
/// entry before it, and an address after the start of the last entry belongs
/// to none.
///
/// An entry that is found is returned: the answer is `None` only where `addr`
/// falls to no entry.
///
/// The holder must be ready.
pub fn lookup_kallsyms(symbols: &KernelSymbols, addr: u64) -> (r: Option<(String, u64)>)
    requires
        symbols.ready(),
    ensures
        r.deep_view() == symbol_at(symbols.table(), addr),
{
    match symbols.get() {
        Some(table) => lookup_address(table.as_slice(), addr),
        None => None,
    }
}

/// The address of the symbol `symbol`: that of the first entry whose name is
/// exactly `symbol`, letter case included.
///
/// The holder must be ready.
pub fn addr_from_symbol(symbols: &KernelSymbols, symbol: &str) -> (r: Option<u64>)
    requires
        symbols.ready(),
    ensures
        r == address_of(symbols.table(), symbol@),
{
    match symbols.get() {
        Some(table) => lookup_name(table.as_slice(), symbol),
        None => None,
    }
}

} // verus!
