//! The table generator, first half: reading a linker's symbol map, and
//! writing the table back as text.
//!
//! A line of the map is read as [`crate::kallsyms`] reads it. On top of
//! that, a line of more than 512 characters is dropped, and so is a symbol
//! whose name holds `$x`; a name that starts with `_ZN` is demangled.

use vstd::prelude::*;
use crate::kallsyms::{kallsyms, lemma_line_of_fields, line_symbol, split_line, symbols_of};
use crate::number::{
    all_hex,
    decimal,
    digits_of,
    hex16,
    hex_digit_value,
    lemma_hex_reads_back,
    push_chars,
    push_hex16,
};
use crate::text::{
    is_field,
    is_space,
    join,
    lemma_lines_push,
    lemma_tokens_are_fields,
    lines,
    rows,
    split_lines,
    to_chars,
    to_string,
    tokens,
    trim,
    trim_chars,
};

verus! {

/// The largest number of characters of a line that is read.
pub const MAX_LINE: usize = 512;

/// What the note on the number of entries starts with.
pub const COUNT_NOTE_START: &'static str = "Generating kernel symbols: ";

/// What the note on the number of entries ends with.
pub const COUNT_NOTE_END: &'static str = " entries";

/// One symbol of the map.
#[derive(Debug, Clone)]
pub struct KernelSymbolEntry {
    /// the address at which the symbol starts
    pub vaddr: u64,
    /// the name, demangled
    pub symbol: String,
}

impl DeepView for KernelSymbolEntry {
    type V = (Seq<char>, u64);

    /// Name and address.
    open spec fn deep_view(&self) -> (Seq<char>, u64) {
        (self.symbol@, self.vaddr)
    }
}

impl KernelSymbolEntry {
    /// The entry for the symbol `symbol` at `vaddr`.
    pub fn new(vaddr: u64, symbol: String) -> (entry: Self)
        ensures
            entry.deep_view() == (symbol@, vaddr),
    {
        KernelSymbolEntry { vaddr, symbol }
    }
}

/// Whether `name` holds `$x`, the mark of a pseudo-symbol.
pub open spec fn has_marker(name: Seq<char>) -> bool {
    exists|i: int| 0 <= i < name.len() - 1 && #[trigger] name[i] == '$' && name[i + 1] == 'x'
}

/// Whether `name` starts with `_ZN`, the prefix of a mangled name.
pub open spec fn is_mangled(name: Seq<char>) -> bool {
    name.len() >= 3 && name[0] == '_' && name[1] == 'Z' && name[2] == 'N'
}

/// What `rustc_demangle` makes of `symbol`, written in its alternate form,
/// which leaves the hash at the end out.
pub uninterp spec fn demangled(symbol: Seq<char>) -> Seq<char>;

/// The name under which the symbol `name` is stored: demangled if it is
/// mangled, else as it is.
pub open spec fn stored_name(name: Seq<char>) -> Seq<char> {
    if is_mangled(name) {
        demangled(name)
    } else {
        name
    }
}

/// The symbol of the map that `line` describes, as it is written there, if
/// the line is kept: it is not over long, it is kept as a line of a symbol
/// map, and its name holds no `$x`.
pub open spec fn map_symbol(line: Seq<char>) -> Option<(Seq<char>, u64)> {
    if line.len() > MAX_LINE {
        None
    } else {
        match line_symbol(line) {
            Some(symbol) => if has_marker(symbol.0) {
                None
            } else {
                Some(symbol)
            },
            None => None,
        }
    }
}

/// The entry that `line` gives, if it is kept: its symbol under the name
/// that is stored.
pub open spec fn line_entry(line: Seq<char>) -> Option<(Seq<char>, u64)> {
    match map_symbol(line) {
        Some(symbol) => Some((stored_name(symbol.0), symbol.1)),
        None => None,
    }
}

/// The entries of the lines that are kept, in the order of the lines. Each
/// line is read without the white space at its ends.
pub open spec fn entries_of(lines: Seq<Seq<char>>) -> Seq<(Seq<char>, u64)>
    decreases lines.len(),
{
    if lines.len() == 0 {
        Seq::empty()
    } else {
        match line_entry(trim(lines.last())) {
            Some(entry) => entries_of(lines.drop_last()).push(entry),
            None => entries_of(lines.drop_last()),
        }
    }
}

/// The entries that the map `text` gives.
pub open spec fn map_entries(text: Seq<char>) -> Seq<(Seq<char>, u64)> {
    entries_of(lines(text))
}

/// The line that text mode writes for `entry`: the address in sixteen
/// hexadecimal digits, the type `T`, the name.
pub open spec fn text_line(entry: (Seq<char>, u64)) -> Seq<char> {
    hex16(entry.1 as nat) + seq![' ', 'T', ' '] + entry.0 + seq!['\n']
}

/// What text mode writes for `entries`: one line for each, in order.
pub open spec fn text_dump(entries: Seq<(Seq<char>, u64)>) -> Seq<char>
    decreases entries.len(),
{
    if entries.len() == 0 {
        Seq::empty()
    } else {
        text_dump(entries.drop_last()) + text_line(entries.last())
    }
}

/// The note that text mode gives on a table of `count` entries.
pub open spec fn count_note(count: nat) -> Seq<char> {
    COUNT_NOTE_START@ + decimal(count) + COUNT_NOTE_END@
}

/// A line of more than 512 characters gives no entry, whatever it holds.
pub proof fn lemma_long_line_is_dropped(line: Seq<char>)
    requires
        line.len() > 512,
    ensures
        line_entry(line) is None,
{
}

/// A line whose name holds `$x` gives no entry; a line that gives an entry is
/// at most 512 characters long, is kept as a line of a symbol map, and has a
/// name without `$x`.
pub proof fn lemma_marked_symbol_is_dropped(line: Seq<char>)
    ensures
        line_symbol(line) matches Some(symbol) && has_marker(symbol.0) ==> line_entry(line) is None,
        line_entry(line) is Some ==> line.len() <= 512 && line_symbol(line) is Some,
        line_entry(line) is Some ==> (line_symbol(line) matches Some(symbol) ==> !has_marker(
            symbol.0,
        )),
{
}

/// Every entry of the table comes from a line of the map that is kept: one
/// of at most 512 characters, white space at its ends not counted, with a
/// type of the text section and a name without `$x`.
pub proof fn lemma_entries_come_from_kept_lines(lines: Seq<Seq<char>>, k: int) -> (j: int)
    requires
        0 <= k < entries_of(lines).len(),
    ensures
        0 <= j < lines.len(),
        line_entry(trim(lines[j])) == Some(entries_of(lines)[k]),
        trim(lines[j]).len() <= 512,
        line_symbol(trim(lines[j])) matches Some(symbol) && !has_marker(symbol.0),
    decreases lines.len(),
{
    let init = lines.drop_last();
    if line_entry(trim(lines.last())) is Some && k == entries_of(init).len() {
        lines.len() - 1
    } else {
        lemma_entries_come_from_kept_lines(init, k)
    }
}

/// Whether `name` is written with single spaces: it is its own fields,
/// joined by single spaces. Every name that is read from a map is.
pub open spec fn is_plain_name(name: Seq<char>) -> bool {
    join(tokens(name), ' ') == name
}

/// Fields joined by single spaces hold no line feed.
pub proof fn lemma_join_has_no_newline(fields: Seq<Seq<char>>)
    requires
        forall|i: int| 0 <= i < fields.len() ==> is_field(#[trigger] fields[i]),
    ensures
        forall|i: int| 0 <= i < join(fields, ' ').len() ==> join(fields, ' ')[i] != '\n',
    decreases fields.len(),
{
    if fields.len() == 1 {
        assert forall|i: int| 0 <= i < fields[0].len() implies fields[0][i] != '\n' by {
            assert(!is_space(fields[0][i]));
        }
    } else if fields.len() > 1 {
        let init = fields.drop_last();
        assert forall|i: int| 0 <= i < init.len() implies is_field(#[trigger] init[i]) by {
            assert(init[i] == fields[i]);
        }
        lemma_join_has_no_newline(init);
        let head = join(init, ' ').push(' ');
        assert forall|i: int| 0 <= i < join(fields, ' ').len() implies join(fields, ' ')[i]
            != '\n' by {
            if i >= head.len() {
                assert(join(fields, ' ')[i] == fields.last()[i - head.len()]);
                assert(!is_space(fields.last()[i - head.len()]));
            } else if i < head.len() - 1 {
                assert(join(fields, ' ')[i] == join(init, ' ')[i]);
            }
        }
    }
}

/// What text mode writes ends with a line feed, if it is not empty.
pub proof fn lemma_text_dump_ends_lines(entries: Seq<(Seq<char>, u64)>)
    ensures
        text_dump(entries).len() > 0 ==> text_dump(entries).last() == '\n',
{
}

/// Text mode and the reader of symbol maps fit together: the text that is
/// written for a table is read back as the same table, names, addresses and
/// order, as long as each name is written with single spaces.
pub proof fn lemma_text_dump_reads_back(entries: Seq<(Seq<char>, u64)>)
    requires
        forall|i: int| 0 <= i < entries.len() ==> is_plain_name(#[trigger] entries[i].0),
    ensures
        kallsyms(text_dump(entries)) == entries,
    decreases entries.len(),
{
    if entries.len() == 0 {
        assert(lines(Seq::<char>::empty()) =~= Seq::<Seq<char>>::empty());
        assert(kallsyms(text_dump(entries)) =~= entries);
    } else {
        let init = entries.drop_last();
        let (name, address) = entries.last();
        assert forall|i: int| 0 <= i < init.len() implies is_plain_name(#[trigger] init[i].0) by {
            assert(init[i] == entries[i]);
        }
        lemma_text_dump_reads_back(init);
        let digits = hex16(address as nat);
        let kind = seq!['T'];
        let line = digits + seq![' '] + kind + seq![' '] + name;
        lemma_hex_reads_back(address);
        assert forall|i: int| 0 <= i < digits.len() implies !is_space(#[trigger] digits[i])
            && digits[i] != '\n' by {
            assert(hex_digit_value(digits[i]) is Some);
        }
        assert(is_field(digits));
        assert(is_field(kind));
        lemma_line_of_fields(digits, kind, name);
        assert(is_plain_name(entries[entries.len() - 1].0));
        assert(line_symbol(line) == Some((name, address)));
        lemma_tokens_are_fields(name);
        lemma_join_has_no_newline(tokens(name));
        assert forall|i: int| 0 <= i < line.len() implies line[i] != '\n' by {
            if i < digits.len() {
                assert(line[i] == digits[i]);
            } else if i >= digits.len() + 3 {
                assert(line[i] == name[i - digits.len() - 3]);
            }
        }
        lemma_text_dump_ends_lines(init);
        lemma_lines_push(text_dump(init), line);
        assert(text_dump(entries) =~= text_dump(init) + line + seq!['\n']) by {
            assert(text_line(entries.last()) =~= line + seq!['\n']);
        }
        let all = lines(text_dump(entries));
        assert(all.drop_last() =~= lines(text_dump(init)));
        assert(all.last() == line);
        assert(kallsyms(text_dump(entries)) =~= entries);
    }
}

/// A name that is read from a line of a symbol map is written with single
/// spaces.
pub proof fn lemma_read_names_are_plain(line: Seq<char>)
    ensures
        line_symbol(line) matches Some(symbol) ==> is_plain_name(symbol.0),
{
    let fields = tokens(line).skip(2);
    if tokens(line).len() >= 2 {
        lemma_tokens_are_fields(line);
        assert forall|i: int| 0 <= i < fields.len() implies is_field(#[trigger] fields[i]) by {
            assert(fields[i] == tokens(line)[i + 2]);
        }
        crate::text::lemma_tokens_of_join(fields);
    }
}

/// `rustc_demangle::demangle` takes the symbol apart, and its `Display` in
/// the alternate form (`{:#}`) writes the readable name without the hash.
/// What it writes depends on the symbol alone. Only symbols that start with
/// `_ZN` are handed to it.
#[verifier::external_body]
fn demangle(symbol: &str) -> (readable: String)
    requires
        is_mangled(symbol@),
    ensures
        readable@ == demangled(symbol@),
{
    format!("{:#}", rustc_demangle::demangle(symbol))
}

/// Whether `name` holds `$x`.
pub fn contains_marker(name: &[char]) -> (found: bool)
    ensures
        found == has_marker(name@),
{
    if name.len() < 2 {
        return false;
    }
    let mut i: usize = 0;
    while i < name.len() - 1
        invariant
            name.len() >= 2,
            i <= name.len() - 1,
            forall|j: int| 0 <= j < i ==> !(#[trigger] name@[j] == '$' && name@[j + 1] == 'x'),
        decreases name.len() - i,
    {
        if name[i] == '$' && name[i + 1] == 'x' {
            return true;
        }
        i += 1;
    }
    false
}

/// Whether `name` starts with `_ZN`.
pub fn starts_mangled(name: &[char]) -> (mangled: bool)
    ensures
        mangled == is_mangled(name@),
{
    name.len() >= 3 && name[0] == '_' && name[1] == 'Z' && name[2] == 'N'
}

/// Reads one line of the map as it is written, before any demangling.
pub fn read_map_symbol(line: &[char]) -> (r: Option<(Vec<char>, u64)>)
    ensures
        match r {
            Some((name, address)) => map_symbol(line@) == Some((name@, address)),
            None => map_symbol(line@) is None,
        },
{
    if line.len() > MAX_LINE {
        return None;
    }
    match split_line(line) {
        Some((name, address)) => {
            if contains_marker(name.as_slice()) {
                None
            } else {
                Some((name, address))
            }
        },
        None => None,
    }
}

/// The entry for a symbol of the map: its name is demangled if it is mangled.
pub fn entry_for(name: &[char], vaddr: u64) -> (entry: KernelSymbolEntry)
    ensures
        entry.deep_view() == (stored_name(name@), vaddr),
{
    let written = to_string(name);
    let symbol = if starts_mangled(name) {
        demangle(written.as_str())
    } else {
        written
    };
    KernelSymbolEntry::new(vaddr, symbol)
}

/// Reads one line of the map, given as characters.
pub fn read_symbol_chars(line: &[char]) -> (r: Option<KernelSymbolEntry>)
    ensures
        r.deep_view() == line_entry(line@),
{
    match read_map_symbol(line) {
        Some((name, address)) => Some(entry_for(name.as_slice(), address)),
        None => None,
    }
}

/// Reads one line of the map. A line of more than 512 characters, a line
/// whose type is neither `T` nor `t`, and a symbol whose name holds `$x`
/// give `None`.
pub fn read_symbol(line: &str) -> (r: Option<KernelSymbolEntry>)
    ensures
        r.deep_view() == line_entry(line@),
{
    let chars = to_chars(line);
    read_symbol_chars(chars.as_slice())
}

/// Reads the map `input`: the entries of its lines, in order. Each line is
/// read without the white space at its ends.
pub fn read_map(input: &str) -> (symbol_table: Vec<KernelSymbolEntry>)
    ensures
        symbol_table.deep_view() == map_entries(input@),
{
    let chars = to_chars(input);
    let all = split_lines(chars.as_slice());
    let mut symbol_table: Vec<KernelSymbolEntry> = Vec::new();
    let mut i: usize = 0;
    assert(symbol_table.deep_view() =~= entries_of(rows(all@).take(0)));
    while i < all.len()
        invariant
            i <= all.len(),
            symbol_table.deep_view() == entries_of(rows(all@).take(i as int)),
        decreases all.len() - i,
    {
        let ghost before = symbol_table.deep_view();
        proof {
            assert(rows(all@).take(i + 1).drop_last() =~= rows(all@).take(i as int));
            assert(rows(all@).take(i + 1).last() == all@[i as int]@);
        }
        match read_symbol_chars(trim_chars(all[i].as_slice())) {
            Some(entry) => {
                symbol_table.push(entry);
                assert(symbol_table.deep_view() =~= before.push(entry.deep_view()));
            },
            None => {},
        }
        i += 1;
    }
    assert(rows(all@).take(all.len() as int) =~= rows(all@));
    symbol_table
}

/// The note for the diagnostic output of text mode: how many entries the
/// table has.
pub fn count_message(symbol_table: &[KernelSymbolEntry]) -> (out: String)
    ensures
        out@ == count_note(symbol_table@.len()),
{
    let mut out = String::new();
    out.append(COUNT_NOTE_START);
    push_chars(&mut out, digits_of(symbol_table.len() as u64, 10).as_slice());
    out.append(COUNT_NOTE_END);
    assert(out@ =~= count_note(symbol_table@.len()));
    out
}

/// The table as text, one line for each entry: the address in sixteen
/// hexadecimal digits, ` T `, the name, a line feed.
pub fn generate_result(symbol_table: &[KernelSymbolEntry]) -> (out: String)
    ensures
        out@ == text_dump(symbol_table.deep_view()),
{
    let ghost entries = symbol_table.deep_view();
    let mut out = String::new();
    let mut i: usize = 0;
    assert(out@ =~= text_dump(entries.take(0)));
    while i < symbol_table.len()
        invariant
            i <= symbol_table.len(),
            entries == symbol_table.deep_view(),
            out@ == text_dump(entries.take(i as int)),
        decreases symbol_table.len() - i,
    {
        let ghost before = out@;
        let entry = &symbol_table[i];
        proof {
            assert(entries.take(i + 1).drop_last() =~= entries.take(i as int));
            assert(entries.take(i + 1).last() == entry.deep_view());
        }
        push_hex16(&mut out, entry.vaddr);
        out.push(' ');
        out.push('T');
        out.push(' ');
        out.append(entry.symbol.as_str());
        out.push('\n');
        assert(out@ =~= before + text_line(entry.deep_view()));
        i += 1;
    }
    assert(entries.take(symbol_table.len() as int) =~= entries);
    out
}

} // verus!
