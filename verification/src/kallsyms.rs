//! The symbol-map grammar: one symbol per line, written as an address in
//! hexadecimal, a type and a name, with white space between them.

use vstd::prelude::*;
use crate::number::{hex_number, parse_hex};
use crate::text::{
    is_field,
    join,
    join_from,
    lemma_tokens_of_field,
    lemma_tokens_split,
    lines,
    rows,
    split_lines,
    split_whitespace,
    to_chars,
    to_string,
    tokens,
};

verus! {

/// Whether the type field `field` marks a symbol of the text section: its
/// first character is `T` (global) or `t` (local).
pub open spec fn is_text_type(field: Seq<char>) -> bool {
    field.len() > 0 && (field[0] == 'T' || field[0] == 't')
}

/// The address that the field `field` writes; zero where it is no
/// hexadecimal 64-bit number.
pub open spec fn address_or_zero(field: Seq<char>) -> u64 {
    match hex_number(field) {
        Some(v) => v,
        None => 0,
    }
}

/// The symbol that `line` describes, as name and address, if the line is
/// kept: it has an address field and a type field of the text section. The
/// name is what follows these two, its fields joined by single spaces.
pub open spec fn line_symbol(line: Seq<char>) -> Option<(Seq<char>, u64)> {
    let fields = tokens(line);
    if fields.len() >= 2 && is_text_type(fields[1]) {
        Some((join(fields.skip(2), ' '), address_or_zero(fields[0])))
    } else {
        None
    }
}

/// The symbols of the lines that are kept, in the order of the lines.
pub open spec fn symbols_of(lines: Seq<Seq<char>>) -> Seq<(Seq<char>, u64)>
    decreases lines.len(),
{
    if lines.len() == 0 {
        Seq::empty()
    } else {
        match line_symbol(lines.last()) {
            Some(symbol) => symbols_of(lines.drop_last()).push(symbol),
            None => symbols_of(lines.drop_last()),
        }
    }
}

/// The symbol table that the text `text` describes.
pub open spec fn kallsyms(text: Seq<char>) -> Seq<(Seq<char>, u64)> {
    symbols_of(lines(text))
}

/// A line with a well-formed address and a type of the text section is kept
/// with exactly that address, and with the rest of its fields, joined by
/// single spaces, as its name.
pub proof fn lemma_text_line_is_kept(line: Seq<char>, address: u64)
    requires
        tokens(line).len() >= 2,
        is_text_type(tokens(line)[1]),
        hex_number(tokens(line)[0]) == Some(address),
    ensures
        line_symbol(line) == Some((join(tokens(line).skip(2), ' '), address)),
{
}

/// A line made of an address field, a type field of the text section and a
/// name, with a space between them, is kept: its address is what the address
/// field writes, and its name is the fields of `name`, joined by single
/// spaces.
pub proof fn lemma_line_of_fields(address: Seq<char>, kind: Seq<char>, name: Seq<char>)
    requires
        is_field(address),
        is_field(kind),
        is_text_type(kind),
    ensures
        tokens(address + seq![' '] + kind + seq![' '] + name) == seq![address, kind] + tokens(name),
        line_symbol(address + seq![' '] + kind + seq![' '] + name) == Some(
            (join(tokens(name), ' '), address_or_zero(address)),
        ),
{
    let line = address + seq![' '] + kind + seq![' '] + name;
    lemma_tokens_split(address + seq![' '] + kind, ' ', name);
    lemma_tokens_split(address, ' ', kind);
    lemma_tokens_of_field(address);
    lemma_tokens_of_field(kind);
    assert(seq![address] + seq![kind] =~= seq![address, kind]);
    assert(tokens(line).skip(2) =~= tokens(name));
}

/// Every symbol of the table comes from a line whose type is of the text
/// section, and symbols stand in the order of their lines.
pub proof fn lemma_symbols_have_text_type(lines: Seq<Seq<char>>, k: int) -> (j: int)
    requires
        0 <= k < symbols_of(lines).len(),
    ensures
        0 <= j < lines.len(),
        tokens(lines[j]).len() >= 2,
        is_text_type(tokens(lines[j])[1]),
        line_symbol(lines[j]) == Some(symbols_of(lines)[k]),
        symbols_of(lines.take(j)).len() == k,
    decreases lines.len(),
{
    let init = lines.drop_last();
    if line_symbol(lines.last()) is Some && k == symbols_of(init).len() {
        assert(lines.take(lines.len() - 1) =~= init);
        lines.len() - 1
    } else {
        let j = lemma_symbols_have_text_type(init, k);
        assert(init.take(j) =~= lines.take(j));
        j
    }
}

/// No line of another type leaves a symbol in the table: each symbol of
/// `kallsyms(text)` is the symbol of a line of `text` with a type of the text
/// section.
pub proof fn lemma_table_has_only_text_symbols(text: Seq<char>, k: int)
    requires
        0 <= k < kallsyms(text).len(),
    ensures
        exists|j: int|
            0 <= j < lines(text).len() && is_text_type(#[trigger] tokens(lines(text)[j])[1])
                && tokens(lines(text)[j]).len() >= 2 && line_symbol(lines(text)[j]) == Some(
                kallsyms(text)[k],
            ),
{
    let j = lemma_symbols_have_text_type(lines(text), k);
    assert(is_text_type(tokens(lines(text)[j])[1]));
}

/// Reads one line of a symbol map; the name comes as characters.
pub fn split_line(line: &[char]) -> (r: Option<(Vec<char>, u64)>)
    ensures
        match r {
            Some((name, address)) => line_symbol(line@) == Some((name@, address)),
            None => line_symbol(line@) is None,
        },
{
    let fields = split_whitespace(line);
    if fields.len() < 2 {
        return None;
    }
    assert(rows(fields@)[0] == fields@[0]@);
    assert(rows(fields@)[1] == fields@[1]@);
    let kind = &fields[1];
    if kind.len() == 0 || !(kind[0] == 'T' || kind[0] == 't') {
        return None;
    }
    let address = match parse_hex(fields[0].as_slice()) {
        Some(v) => v,
        None => 0,
    };
    Some((join_from(&fields, 2, ' '), address))
}

/// Reads one line of a symbol map.
pub fn parse_line(line: &[char]) -> (r: Option<(String, u64)>)
    ensures
        r.deep_view() == line_symbol(line@),
{
    match split_line(line) {
        Some((name, address)) => Some((to_string(name.as_slice()), address)),
        None => None,
    }
}

/// Reads a symbol map: the symbols of its lines with a type of the text
/// section, in the order of the lines.
pub fn parse_kallsyms(ksym: &str) -> (table: Vec<(String, u64)>)
    ensures
        table.deep_view() == kallsyms(ksym@),
{
    let chars = to_chars(ksym);
    let all = split_lines(chars.as_slice());
    let mut table: Vec<(String, u64)> = Vec::new();
    let mut i: usize = 0;
    assert(table.deep_view() =~= symbols_of(rows(all@).take(0)));
    while i < all.len()
        invariant
            i <= all.len(),
            table.deep_view() == symbols_of(rows(all@).take(i as int)),
        decreases all.len() - i,
    {
        let ghost before = table.deep_view();
        proof {
            assert(rows(all@).take(i + 1).drop_last() =~= rows(all@).take(i as int));
            assert(rows(all@).take(i + 1).last() == all@[i as int]@);
        }
        match parse_line(all[i].as_slice()) {
            Some(symbol) => {
                table.push(symbol);
                assert(table.deep_view() =~= before.push(symbol.deep_view()));
            },
            None => {},
        }
        i += 1;
    }
    assert(rows(all@).take(all.len() as int) =~= rows(all@));
    table
}

} // verus!
