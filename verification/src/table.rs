//! The lookup engine: queries on a symbol table, which is a sequence of
//! names with their addresses.
//!
//! A table is meant to be sorted by address, ascending and without two equal
//! addresses: see [`strictly_ascending`]. It is built once and never changed.
//! Both queries are defined on every table; what the address query means on a
//! sorted one is stated by [`lemma_sorted_lookup`].
//!
//! The address query scans the table and returns the entry that it finds; it
//! answers `None` only for an address that falls to no entry.

use vstd::prelude::*;

verus! {

/// Whether `addr` falls to entry `i`: it lies after the address of that
/// entry and not after the address of the next one.
pub open spec fn in_range(table: Seq<(Seq<char>, u64)>, i: int, addr: u64) -> bool {
    0 <= i < table.len() - 1 && table[i].1 < addr <= table[i + 1].1
}

/// The first index at or after `from` to which `addr` falls.
pub open spec fn first_in_range(table: Seq<(Seq<char>, u64)>, addr: u64, from: int) -> Option<int>
    decreases table.len() - from,
{
    if from < 0 || from >= table.len() - 1 {
        None
    } else if in_range(table, from, addr) {
        Some(from)
    } else {
        first_in_range(table, addr, from + 1)
    }
}

/// The symbol that the address `addr` is attributed to: the first entry to
/// which it falls, if there is one.
pub open spec fn symbol_at(table: Seq<(Seq<char>, u64)>, addr: u64) -> Option<(Seq<char>, u64)> {
    match first_in_range(table, addr, 0) {
        Some(i) => Some(table[i]),
        None => None,
    }
}

/// The first index at or after `from` of an entry named `name`.
pub open spec fn first_named(table: Seq<(Seq<char>, u64)>, name: Seq<char>, from: int) -> Option<int>
    decreases table.len() - from,
{
    if from < 0 || from >= table.len() {
        None
    } else if table[from].0 == name {
        Some(from)
    } else {
        first_named(table, name, from + 1)
    }
}

/// The address of the symbol `name`: that of the first entry with exactly
/// this name, if there is one.
pub open spec fn address_of(table: Seq<(Seq<char>, u64)>, name: Seq<char>) -> Option<u64> {
    match first_named(table, name, 0) {
        Some(i) => Some(table[i].1),
        None => None,
    }
}

/// Whether the addresses of `table` ascend strictly: it is sorted and no
/// address occurs twice.
pub open spec fn strictly_ascending(table: Seq<(Seq<char>, u64)>) -> bool {
    forall|i: int, j: int| 0 <= i < j < table.len() ==> table[i].1 < table[j].1
}

/// `first_in_range` finds an index to which `addr` falls, with none before it
/// from `from` on; it finds none only where there is none.
pub proof fn lemma_first_in_range(table: Seq<(Seq<char>, u64)>, addr: u64, from: int)
    requires
        0 <= from,
    ensures
        match first_in_range(table, addr, from) {
            Some(i) => from <= i && in_range(table, i, addr) && forall|j: int|
                from <= j < i ==> !in_range(table, j, addr),
            None => forall|j: int| from <= j ==> !in_range(table, j, addr),
        },
    decreases table.len() - from,
{
    if from >= table.len() - 1 {
    } else if in_range(table, from, addr) {
    } else {
        lemma_first_in_range(table, addr, from + 1);
    }
}

/// `first_named` finds an entry named `name`, with none before it from `from`
/// on; it finds none only where there is none.
pub proof fn lemma_first_named(table: Seq<(Seq<char>, u64)>, name: Seq<char>, from: int)
    requires
        0 <= from,
    ensures
        match first_named(table, name, from) {
            Some(i) => from <= i < table.len() && table[i].0 == name && forall|j: int|
                from <= j < i ==> table[j].0 != name,
            None => forall|j: int| from <= j < table.len() ==> table[j].0 != name,
        },
    decreases table.len() - from,
{
    if from >= table.len() {
    } else if table[from].0 == name {
    } else {
        lemma_first_named(table, name, from + 1);
    }
}

/// On a sorted table without equal addresses, an address is attributed to
/// entry `i` exactly if that is the last entry that starts before it and
/// another entry follows: the linear scan and a binary search for the last
/// address below `addr` agree.
pub proof fn lemma_sorted_lookup(table: Seq<(Seq<char>, u64)>, addr: u64, i: int)
    requires
        strictly_ascending(table),
        0 <= i < table.len(),
        table[i].1 < addr,
        i + 1 < table.len() ==> addr <= table[i + 1].1,
    ensures
        symbol_at(table, addr) == if i + 1 < table.len() {
            Some(table[i])
        } else {
            None
        },
{
    lemma_first_in_range(table, addr, 0);
    match first_in_range(table, addr, 0) {
        Some(j) => {
            if j < i {
                assert(table[j + 1].1 <= table[i].1) by {
                    if j + 1 < i {
                        assert(table[j + 1].1 < table[i].1);
                    }
                }
            } else if j > i {
                assert(table[i + 1].1 <= table[j].1) by {
                    if i + 1 < j {
                        assert(table[i + 1].1 < table[j].1);
                    }
                }
            }
        },
        None => {
            if i + 1 < table.len() {
                assert(in_range(table, i, addr));
            }
        },
    }
}

/// An address at or before the first entry's address, or in an empty table,
/// is attributed to no symbol on a sorted table.
pub proof fn lemma_sorted_lookup_before_first(table: Seq<(Seq<char>, u64)>, addr: u64)
    requires
        strictly_ascending(table),
        table.len() > 0 ==> addr <= table[0].1,
    ensures
        symbol_at(table, addr) is None,
{
    lemma_first_in_range(table, addr, 0);
    match first_in_range(table, addr, 0) {
        Some(j) => {
            if j > 0 {
                assert(table[0].1 < table[j].1);
            }
        },
        None => {},
    }
}

/// Repeating a query gives the same answer: what either query returns is
/// a function of the table and of what is asked, and no query changes the
/// table.
pub proof fn lemma_lookups_repeat(
    table: Seq<(Seq<char>, u64)>,
    addr: u64,
    name: Seq<char>,
    first_symbol: Option<(Seq<char>, u64)>,
    second_symbol: Option<(Seq<char>, u64)>,
    first_address: Option<u64>,
    second_address: Option<u64>,
)
    requires
        first_symbol == symbol_at(table, addr),
        second_symbol == symbol_at(table, addr),
        first_address == address_of(table, name),
        second_address == address_of(table, name),
    ensures
        first_symbol == second_symbol,
        first_address == second_address,
{
}

/// The symbol that `addr` is attributed to, as name and start address.
pub fn lookup_address(table: &[(String, u64)], addr: u64) -> (r: Option<(String, u64)>)
    ensures
        r.deep_view() == symbol_at(table.deep_view(), addr),
{
    let ghost t = table.deep_view();
    if table.len() == 0 {
        return None;
    }
    let mut i: usize = 0;
    while i < table.len() - 1
        invariant
            t == table.deep_view(),
            i < table.len(),
            first_in_range(t, addr, 0) == first_in_range(t, addr, i as int),
        decreases table.len() - i,
    {
        assert(t[i as int] == table@[i as int].deep_view());
        assert(t[i + 1] == table@[i + 1].deep_view());
        if table[i].1 < addr && addr <= table[i + 1].1 {
            return Some((table[i].0.clone(), table[i].1));
        }
        i += 1;
    }
    None
}

/// The address of the first symbol whose name is exactly `name`.
pub fn lookup_name(table: &[(String, u64)], name: &str) -> (r: Option<u64>)
    ensures
        r == address_of(table.deep_view(), name@),
{
    let ghost t = table.deep_view();
    let wanted: String = name.to_owned();
    let mut i: usize = 0;
    while i < table.len()
        invariant
            t == table.deep_view(),
            wanted@ == name@,
            i <= table.len(),
            first_named(t, name@, 0) == first_named(t, name@, i as int),
        decreases table.len() - i,
    {
        assert(t[i as int] == table@[i as int].deep_view());
        if table[i].0 == wanted {
            return Some(table[i].1);
        }
        i += 1;
    }
    None
}

} // verus!
