//! The table generator, second half: laying the table out for the linker.
//!
//! The table is written as four regions of data. `ksyms_address` holds the
//! addresses, eight bytes each; `ksyms_num` their number; `ksyms_names_index`
//! for each symbol the offset of its name in the fourth region, again eight
//! bytes each; and `ksyms_names` the names, each closed by a zero byte.
//! [`layout`] computes what the regions hold, and [`generate_result`] writes
//! the assembly directives that make the assembler emit them.
//!
//! Of a run of neighbouring entries with one address only the first is laid
//! out: see [`dedup`].

use vstd::prelude::*;
use vstd::utf8::encode_utf8;
use crate::gen_ksym::KernelSymbolEntry;
use crate::number::{decimal, digits_of, hex, push_chars};
use crate::table::strictly_ascending;

verus! {

/// What opens the region of the addresses.
pub const ADDRESS_HEADER: &'static str =
    ".section .rodata\n\n.global ksyms_address\n.align 8\n\nksyms_address:\n";

/// What opens the region of the count.
pub const COUNT_HEADER: &'static str = "\n.global ksyms_num\n.align 8\nksyms_num:\n";

/// What opens the region of the name offsets.
pub const INDEX_HEADER: &'static str =
    "\n.global ksyms_names_index\n.align 8\nksyms_names_index:\n";

/// What opens the region of the names.
pub const NAMES_HEADER: &'static str = "\n.global ksyms_names\n.align 8\nksyms_names:\n";

/// The directive for eight bytes.
pub const QUAD: &'static str = "\t.quad\t";

/// The directive for a string closed by a zero byte, up to the opening quote.
pub const ASCIZ: &'static str = "\t.asciz\t\"";

/// The entries that are laid out: `entries` without each one whose address
/// is that of the entry kept before it. On a table sorted by address this
/// leaves one entry, the first, for each address.
pub open spec fn dedup(entries: Seq<(Seq<char>, u64)>) -> Seq<(Seq<char>, u64)>
    decreases entries.len(),
{
    if entries.len() == 0 {
        Seq::empty()
    } else {
        let kept = dedup(entries.drop_last());
        if kept.len() > 0 && kept.last().1 == entries.last().1 {
            kept
        } else {
            kept.push(entries.last())
        }
    }
}

/// The addresses of `kept`, in order.
pub open spec fn addresses_of(kept: Seq<(Seq<char>, u64)>) -> Seq<u64> {
    Seq::new(kept.len(), |i: int| kept[i].1)
}

/// The region of the names: the names of `kept` in order, each in UTF-8 and
/// closed by a zero byte.
pub open spec fn name_blob(kept: Seq<(Seq<char>, u64)>) -> Seq<u8>
    decreases kept.len(),
{
    if kept.len() == 0 {
        Seq::empty()
    } else {
        name_blob(kept.drop_last()) + encode_utf8(kept.last().0) + seq![0u8]
    }
}

/// The offset of the name of entry `i` in the region of the names: the
/// bytes that the names before it take, their zero bytes included.
pub open spec fn name_offset(kept: Seq<(Seq<char>, u64)>, i: int) -> nat {
    name_blob(kept.take(i)).len()
}

/// The four regions, as values.
pub struct SymbolLayout {
    /// the addresses of the symbols
    pub addresses: Vec<u64>,
    /// the number of symbols
    pub count: usize,
    /// for each symbol, where its name starts in `names`
    pub name_index: Vec<u64>,
    /// the names, each closed by a zero byte
    pub names: Vec<u8>,
}

impl SymbolLayout {
    /// Whether the regions are those of the entries `kept`.
    pub open spec fn holds(&self, kept: Seq<(Seq<char>, u64)>) -> bool {
        &&& self.addresses@ == addresses_of(kept)
        &&& self.count == kept.len()
        &&& self.name_index@.len() == kept.len()
        &&& forall|i: int|
            0 <= i < kept.len() ==> #[trigger] self.name_index@[i] == name_offset(kept, i)
        &&& self.names@ == name_blob(kept)
    }
}

/// The directive that lays out `v` as eight bytes, written in hexadecimal.
pub open spec fn quad_hex(v: u64) -> Seq<char> {
    QUAD@ + seq!['0', 'x'] + hex(v as nat) + seq!['\n']
}

/// The directive that lays out `v` as eight bytes, written in decimal.
pub open spec fn quad_decimal(v: nat) -> Seq<char> {
    QUAD@ + decimal(v) + seq!['\n']
}

/// The directive that lays out `name` and a zero byte after it.
pub open spec fn asciz(name: Seq<char>) -> Seq<char> {
    ASCIZ@ + name + seq!['"', '\n']
}

/// The directives for the addresses of `kept`.
pub open spec fn address_lines(kept: Seq<(Seq<char>, u64)>) -> Seq<char>
    decreases kept.len(),
{
    if kept.len() == 0 {
        Seq::empty()
    } else {
        address_lines(kept.drop_last()) + quad_hex(kept.last().1)
    }
}

/// The directives for the name offsets of the first `n` entries of `kept`.
pub open spec fn index_lines(kept: Seq<(Seq<char>, u64)>, n: nat) -> Seq<char>
    decreases n,
{
    if n == 0 {
        Seq::empty()
    } else {
        index_lines(kept, (n - 1) as nat) + quad_decimal(name_offset(kept, n - 1))
    }
}

/// The directives for the names of `kept`.
pub open spec fn name_lines(kept: Seq<(Seq<char>, u64)>) -> Seq<char>
    decreases kept.len(),
{
    if kept.len() == 0 {
        Seq::empty()
    } else {
        name_lines(kept.drop_last()) + asciz(kept.last().0)
    }
}

/// The assembly text that lays out `kept`: the four regions in their order,
/// each under its label.
pub open spec fn assembly_text(kept: Seq<(Seq<char>, u64)>) -> Seq<char> {
    ADDRESS_HEADER@ + address_lines(kept) + COUNT_HEADER@ + quad_decimal(kept.len())
        + INDEX_HEADER@ + index_lines(kept, kept.len()) + NAMES_HEADER@ + name_lines(kept)
}

/// The region of the names of the first `i` entries opens the region of the
/// names of all of them.
pub proof fn lemma_name_blob_prefix(kept: Seq<(Seq<char>, u64)>, i: int)
    requires
        0 <= i <= kept.len(),
    ensures
        name_blob(kept.take(i)).is_prefix_of(name_blob(kept)),
    decreases kept.len() - i,
{
    if i == kept.len() {
        assert(kept.take(i) =~= kept);
    } else {
        lemma_name_blob_prefix(kept, i + 1);
        assert(kept.take(i + 1).drop_last() =~= kept.take(i));
    }
}

/// No two neighbours of what is laid out have one address.
pub proof fn lemma_dedup_neighbours_differ(entries: Seq<(Seq<char>, u64)>, i: int)
    requires
        0 <= i < dedup(entries).len() - 1,
    ensures
        dedup(entries)[i].1 != dedup(entries)[i + 1].1,
    decreases entries.len(),
{
    let kept = dedup(entries.drop_last());
    if i < kept.len() - 1 {
        lemma_dedup_neighbours_differ(entries.drop_last(), i);
    }
}

/// What is laid out ends with the address that the table ends with, and
/// each of its entries is an entry of the table.
pub proof fn lemma_dedup_last(entries: Seq<(Seq<char>, u64)>)
    requires
        entries.len() > 0,
    ensures
        dedup(entries).len() > 0,
        dedup(entries).last().1 == entries.last().1,
        forall|i: int| 0 <= i < dedup(entries).len() ==> entries.contains(#[trigger] dedup(entries)[i]),
    decreases entries.len(),
{
    let init = entries.drop_last();
    let kept = dedup(init);
    if init.len() > 0 {
        lemma_dedup_last(init);
    }
    assert forall|i: int| 0 <= i < dedup(entries).len() implies entries.contains(
        #[trigger] dedup(entries)[i],
    ) by {
        if i < kept.len() {
            let j = choose|j: int| 0 <= j < init.len() && init[j] == kept[i];
            assert(entries[j] == kept[i]);
        } else {
            assert(entries[entries.len() - 1] == dedup(entries)[i]);
        }
    }
}

/// Whether the addresses of `entries` never descend.
pub open spec fn ascending(entries: Seq<(Seq<char>, u64)>) -> bool {
    forall|i: int, j: int| 0 <= i < j < entries.len() ==> entries[i].1 <= entries[j].1
}

/// Of a table that is sorted by address, what is laid out is sorted too and
/// holds no address twice: it is a table as the address query wants it.
pub proof fn lemma_dedup_of_sorted(entries: Seq<(Seq<char>, u64)>)
    requires
        ascending(entries),
    ensures
        strictly_ascending(dedup(entries)),
    decreases entries.len(),
{
    if entries.len() > 0 {
        let init = entries.drop_last();
        let kept = dedup(init);
        assert forall|i: int, j: int| 0 <= i < j < init.len() implies init[i].1 <= init[j].1 by {
            assert(init[i] == entries[i] && init[j] == entries[j]);
        }
        lemma_dedup_of_sorted(init);
        if init.len() > 0 {
            lemma_dedup_last(init);
            assert(init.last() == entries[entries.len() - 2]);
            assert(kept.last().1 <= entries.last().1);
        }
        let all = dedup(entries);
        assert forall|i: int, j: int| 0 <= i < j < all.len() implies all[i].1 < all[j].1 by {
            if j < kept.len() {
                assert(all[i] == kept[i] && all[j] == kept[j]);
            } else {
                assert(all[i] == kept[i]);
                if i < kept.len() - 1 {
                    assert(kept[i].1 < kept[kept.len() - 1].1);
                }
            }
        }
    }
}

/// The entries that are laid out, copied.
pub fn dedup_entries(symbol_table: &[KernelSymbolEntry]) -> (kept: Vec<KernelSymbolEntry>)
    ensures
        kept.deep_view() == dedup(symbol_table.deep_view()),
{
    let ghost entries = symbol_table.deep_view();
    let mut kept: Vec<KernelSymbolEntry> = Vec::new();
    let mut i: usize = 0;
    assert(kept.deep_view() =~= dedup(entries.take(0)));
    while i < symbol_table.len()
        invariant
            i <= symbol_table.len(),
            entries == symbol_table.deep_view(),
            kept.deep_view() == dedup(entries.take(i as int)),
        decreases symbol_table.len() - i,
    {
        let ghost before = kept.deep_view();
        let entry = &symbol_table[i];
        proof {
            assert(entries.take(i + 1).drop_last() =~= entries.take(i as int));
            assert(entries.take(i + 1).last() == entry.deep_view());
            if kept.len() > 0 {
                assert(before.last() == kept@[kept.len() - 1].deep_view());
            }
        }
        let n = kept.len();
        if n == 0 || kept[n - 1].vaddr != entry.vaddr {
            let copy = KernelSymbolEntry::new(entry.vaddr, entry.symbol.clone());
            kept.push(copy);
            assert(kept.deep_view() =~= before.push(entry.deep_view()));
        }
        i += 1;
    }
    assert(entries.take(symbol_table.len() as int) =~= entries);
    kept
}

/// The regions for entries that are all laid out.
pub fn layout_of(kept: &[KernelSymbolEntry]) -> (regions: SymbolLayout)
    ensures
        regions.holds(kept.deep_view()),
{
    let ghost k = kept.deep_view();
    let mut addresses: Vec<u64> = Vec::new();
    let mut name_index: Vec<u64> = Vec::new();
    let mut names: Vec<u8> = Vec::new();
    let mut i: usize = 0;
    assert(addresses@ =~= addresses_of(k.take(0)));
    assert(names@ =~= name_blob(k.take(0)));
    while i < kept.len()
        invariant
            i <= kept.len(),
            k == kept.deep_view(),
            addresses@ == addresses_of(k.take(i as int)),
            name_index@.len() == i,
            forall|j: int| 0 <= j < i ==> #[trigger] name_index@[j] == name_offset(k, j),
            names@ == name_blob(k.take(i as int)),
        decreases kept.len() - i,
    {
        let entry = &kept[i];
        let ghost blob = names@;
        proof {
            assert(k.take(i + 1).drop_last() =~= k.take(i as int));
            assert(k.take(i + 1).last() == entry.deep_view());
        }
        addresses.push(entry.vaddr);
        assert(addresses@ =~= addresses_of(k.take(i + 1)));
        name_index.push(names.len() as u64);
        let bytes = entry.symbol.as_str().as_bytes();
        let mut j: usize = 0;
        while j < bytes.len()
            invariant
                j <= bytes.len(),
                names@ == blob + bytes@.take(j as int),
            decreases bytes.len() - j,
        {
            names.push(bytes[j]);
            j += 1;
            assert(names@ =~= blob + bytes@.take(j as int));
        }
        assert(bytes@.take(bytes.len() as int) =~= bytes@);
        names.push(0u8);
        assert(names@ =~= blob + encode_utf8(entry.symbol@) + seq![0u8]);
        i += 1;
    }
    assert(k.take(kept.len() as int) =~= k);
    SymbolLayout { addresses, count: kept.len(), name_index, names }
}

/// The four regions for the table `symbol_table`.
pub fn layout(symbol_table: &[KernelSymbolEntry]) -> (regions: SymbolLayout)
    ensures
        regions.holds(dedup(symbol_table.deep_view())),
{
    let kept = dedup_entries(symbol_table);
    layout_of(kept.as_slice())
}

/// Appends the directive for `v` in decimal to `out`.
fn push_quad_decimal(out: &mut String, v: u64)
    ensures
        final(out)@ == old(out)@ + quad_decimal(v as nat),
{
    out.append(QUAD);
    push_chars(out, digits_of(v, 10).as_slice());
    out.push('\n');
    assert(final(out)@ =~= old(out)@ + quad_decimal(v as nat));
}

/// The assembly text that lays the table out: under the labels
/// `ksyms_address`, `ksyms_num`, `ksyms_names_index` and `ksyms_names`, a
/// directive for each address, one for their number, one for the offset of
/// each name, and one for each name.
pub fn generate_result(symbol_table: &[KernelSymbolEntry]) -> (out: String)
    ensures
        out@ == assembly_text(dedup(symbol_table.deep_view())),
{
    let kept = dedup_entries(symbol_table);
    let regions = layout_of(kept.as_slice());
    let ghost k = kept.deep_view();
    let mut out = String::new();
    out.append(ADDRESS_HEADER);
    let ghost head = out@;
    assert(head =~= ADDRESS_HEADER@);
    let mut i: usize = 0;
    assert(out@ =~= head + address_lines(k.take(0)));
    while i < kept.len()
        invariant
            i <= kept.len(),
            k == kept.deep_view(),
            out@ == head + address_lines(k.take(i as int)),
        decreases kept.len() - i,
    {
        let ghost before = out@;
        proof {
            assert(k.take(i + 1).drop_last() =~= k.take(i as int));
            assert(k.take(i + 1).last() == kept@[i as int].deep_view());
        }
        out.append(QUAD);
        out.push('0');
        out.push('x');
        push_chars(&mut out, digits_of(kept[i].vaddr, 16).as_slice());
        out.push('\n');
        assert(out@ =~= before + quad_hex(kept@[i as int].vaddr));
        i += 1;
    }
    assert(k.take(kept.len() as int) =~= k);
    out.append(COUNT_HEADER);
    push_quad_decimal(&mut out, kept.len() as u64);
    out.append(INDEX_HEADER);
    let ghost head = out@;
    let mut i: usize = 0;
    assert(out@ =~= head + index_lines(k, 0));
    while i < regions.name_index.len()
        invariant
            i <= regions.name_index.len(),
            regions.holds(k),
            out@ == head + index_lines(k, i as nat),
        decreases regions.name_index.len() - i,
    {
        let ghost before = out@;
        push_quad_decimal(&mut out, regions.name_index[i]);
        assert(out@ =~= head + index_lines(k, (i + 1) as nat));
        i += 1;
    }
    out.append(NAMES_HEADER);
    let ghost head = out@;
    let mut i: usize = 0;
    assert(out@ =~= head + name_lines(k.take(0)));
    while i < kept.len()
        invariant
            i <= kept.len(),
            k == kept.deep_view(),
            out@ == head + name_lines(k.take(i as int)),
        decreases kept.len() - i,
    {
        let ghost before = out@;
        proof {
            assert(k.take(i + 1).drop_last() =~= k.take(i as int));
            assert(k.take(i + 1).last() == kept@[i as int].deep_view());
        }
        out.append(ASCIZ);
        out.append(kept[i].symbol.as_str());
        out.push('"');
        out.push('\n');
        assert(out@ =~= before + asciz(kept@[i as int].symbol@));
        i += 1;
    }
    assert(k.take(kept.len() as int) =~= k);
    assert(out@ =~= assembly_text(k));
    out
}

} // verus!
