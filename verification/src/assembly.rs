//! The loader of the embedded table: from the four regions that the
//! generator lays out back to names and addresses.
//!
//! The regions are taken as slices. That they fit together (that there are
//! `count` addresses and `count` offsets, and that each offset points at a
//! name that a zero byte closes) is the caller's to know: see
//! [`consistent`].

use vstd::prelude::*;
use vstd::slice::slice_subrange;
use vstd::utf8::{
    char_is_scalar,
    char_u32_cast,
    decode_utf8,
    encode_scalar,
    encode_utf8,
    encode_utf8_decode_utf8,
    encode_utf8_valid_utf8,
    valid_utf8,
};
use crate::gen_ksym::{is_plain_name, lemma_text_dump_reads_back, text_dump};
use crate::kallsyms::kallsyms;
use crate::gen_ksym_as::{
    addresses_of,
    dedup,
    lemma_dedup_last,
    lemma_name_blob_prefix,
    name_blob,
    name_offset,
    SymbolLayout,
};
use crate::store::KernelSymbols;

verus! {

/// The name given to a symbol whose bytes are no UTF-8.
pub const UNKNOWN: &'static str = "unknown";

/// The number of bytes of `bytes` that come before its first zero byte; the
/// length of `bytes` if it has none.
pub open spec fn text_len(bytes: Seq<u8>) -> nat
    decreases bytes.len(),
{
    if bytes.len() == 0 || bytes[0] == 0 {
        0
    } else {
        1 + text_len(bytes.drop_first())
    }
}

/// The bytes of the name that starts at `at` in the region `names`: those up
/// to the next zero byte.
pub open spec fn c_string(names: Seq<u8>, at: int) -> Seq<u8> {
    names.subrange(at, at + text_len(names.skip(at)))
}

/// Whether `bytes` holds a zero byte.
pub open spec fn has_zero(bytes: Seq<u8>) -> bool {
    exists|j: int| 0 <= j < bytes.len() && bytes[j] == 0
}

/// The name that `bytes` write: their text if they are UTF-8, else
/// `unknown`.
pub open spec fn name_of(bytes: Seq<u8>) -> Seq<char> {
    if valid_utf8(bytes) {
        decode_utf8(bytes)
    } else {
        UNKNOWN@
    }
}

/// Whether the regions fit together: there are at least `count` addresses
/// and `count` offsets, and each of the first `count` offsets lies in the
/// region of the names, with a zero byte at or after it.
pub open spec fn consistent(
    addresses: Seq<u64>,
    count: nat,
    name_index: Seq<u64>,
    names: Seq<u8>,
) -> bool {
    &&& count <= addresses.len()
    &&& count <= name_index.len()
    &&& forall|i: int|
        0 <= i < count ==> (#[trigger] name_index[i]) < names.len() && has_zero(
            names.skip(name_index[i] as int),
        )
}

/// The table that the regions hold: for each of the first `count` symbols
/// the name at its offset and its address, in order.
pub open spec fn embedded_table(
    addresses: Seq<u64>,
    count: nat,
    name_index: Seq<u64>,
    names: Seq<u8>,
) -> Seq<(Seq<char>, u64)> {
    Seq::new(count, |i: int| (name_of(c_string(names, name_index[i] as int)), addresses[i]))
}

/// The text before the first zero byte has the length `n` if none of the
/// first `n` bytes is zero and the byte after them, if there is one, is.
pub proof fn lemma_text_len(bytes: Seq<u8>, n: int)
    requires
        0 <= n <= bytes.len(),
        forall|i: int| 0 <= i < n ==> #[trigger] bytes[i] != 0,
        n < bytes.len() ==> bytes[n] == 0,
    ensures
        text_len(bytes) == n,
    decreases bytes.len(),
{
    if bytes.len() == 0 || bytes[0] == 0 {
    } else {
        let rest = bytes.drop_first();
        assert forall|i: int| 0 <= i < n - 1 implies #[trigger] rest[i] != 0 by {
            assert(rest[i] == bytes[i + 1]);
        }
        lemma_text_len(rest, n - 1);
    }
}

/// The UTF-8 form of a character other than NUL holds no zero byte.
proof fn lemma_scalar_has_no_zero(c: u32)
    by (bit_vector)
    requires
        0 < c <= 0x10FFFF,
    ensures
        0 < c <= 0x7F ==> (c & 0x7F) as u8 != 0,
        (0xC0 | ((c >> 6) & 0x1F) as u8) != 0,
        (0xE0 | ((c >> 12) & 0x0F) as u8) != 0,
        (0xF0 | ((c >> 18) & 0x7) as u8) != 0,
        (0x80 | (c & 0x3F) as u8) != 0,
        (0x80 | ((c >> 6) & 0x3F) as u8) != 0,
        (0x80 | ((c >> 12) & 0x3F) as u8) != 0,
{
}

/// The UTF-8 form of a name without NUL holds no zero byte.
pub proof fn lemma_encoding_has_no_zero(name: Seq<char>)
    requires
        forall|j: int| 0 <= j < name.len() ==> name[j] != '\0',
    ensures
        forall|j: int| 0 <= j < encode_utf8(name).len() ==> #[trigger] encode_utf8(name)[j] != 0,
    decreases name.len(),
{
    if name.len() > 0 {
        let c = name[0] as u32;
        let head = encode_scalar(c);
        let rest = name.drop_first();
        assert(0 < c <= 0x10FFFF) by {
            char_is_scalar(name[0]);
            char_u32_cast(name[0], c);
            char_u32_cast('\0', 0u32);
        }
        lemma_scalar_has_no_zero(c);
        assert forall|j: int| 0 <= j < rest.len() implies rest[j] != '\0' by {
            assert(rest[j] == name[j + 1]);
        }
        lemma_encoding_has_no_zero(rest);
        assert forall|j: int| 0 <= j < encode_utf8(name).len() implies #[trigger] encode_utf8(
            name,
        )[j] != 0 by {
            if j < head.len() {
                assert(encode_utf8(name)[j] == head[j]);
            } else {
                assert(encode_utf8(name)[j] == encode_utf8(rest)[j - head.len()]);
            }
        }
    }
}

/// What the loader reads from the regions of a table is the table that was
/// laid out: the same names, the same addresses, the same order. These are
/// the entries that text mode writes for the same table, without those that
/// [`dedup`] leaves out.
///
/// A name that holds NUL would end at it when read back, so the entries are
/// to hold none.
pub proof fn lemma_layout_round_trip(entries: Seq<(Seq<char>, u64)>, regions: SymbolLayout)
    requires
        regions.holds(dedup(entries)),
        forall|i: int, j: int|
            0 <= i < entries.len() && 0 <= j < entries[i].0.len() ==> entries[i].0[j] != '\0',
    ensures
        consistent(
            regions.addresses@,
            regions.count as nat,
            regions.name_index@,
            regions.names@,
        ),
        embedded_table(
            regions.addresses@,
            regions.count as nat,
            regions.name_index@,
            regions.names@,
        ) == dedup(entries),
{
    let kept = dedup(entries);
    let names = regions.names@;
    let index = regions.name_index@;
    let table = embedded_table(regions.addresses@, regions.count as nat, index, names);
    if entries.len() > 0 {
        lemma_dedup_last(entries);
    }
    assert forall|i: int| 0 <= i < kept.len() implies (#[trigger] index[i]) < names.len()
        && has_zero(names.skip(index[i] as int)) && name_of(c_string(names, index[i] as int))
        == kept[i].0 by {
        let name = kept[i].0;
        let bytes = encode_utf8(name);
        let at = name_offset(kept, i) as int;
        assert(index[i] == at);
        assert(entries.contains(kept[i]));
        let e = choose|e: int| 0 <= e < entries.len() && entries[e] == kept[i];
        assert forall|j: int| 0 <= j < name.len() implies name[j] != '\0' by {
            assert(entries[e].0[j] != '\0');
        }
        lemma_encoding_has_no_zero(name);
        lemma_name_blob_prefix(kept, i + 1);
        assert(kept.take(i + 1).drop_last() =~= kept.take(i));
        let upto = name_blob(kept.take(i + 1));
        assert(upto == name_blob(kept.take(i)) + bytes + seq![0u8]);
        assert(upto.len() == at + bytes.len() + 1);
        let tail = names.skip(at);
        assert forall|j: int| 0 <= j < bytes.len() implies #[trigger] tail[j] != 0 by {
            assert(tail[j] == names[at + j]);
            assert(names[at + j] == upto[at + j]);
            assert(upto[at + j] == bytes[j]);
        }
        assert(tail[bytes.len() as int] == 0) by {
            assert(names[at + bytes.len()] == upto[at + bytes.len()]);
        }
        lemma_text_len(tail, bytes.len() as int);
        assert(c_string(names, at) =~= bytes) by {
            assert forall|j: int| 0 <= j < bytes.len() implies names.subrange(
                at,
                at + bytes.len(),
            )[j] == bytes[j] by {
                assert(names[at + j] == upto[at + j]);
                assert(upto[at + j] == bytes[j]);
            }
        }
        encode_utf8_valid_utf8(name);
        encode_utf8_decode_utf8(name);
    }
    assert(table =~= kept);
}

/// The two modes of the generator agree: the table that the loader reads
/// from the regions is the table that is read from the text of text mode,
/// without the entries that [`dedup`] leaves out. This holds of names
/// without NUL that are written with single spaces.
pub proof fn lemma_modes_agree(entries: Seq<(Seq<char>, u64)>, regions: SymbolLayout)
    requires
        regions.holds(dedup(entries)),
        forall|i: int, j: int|
            0 <= i < entries.len() && 0 <= j < entries[i].0.len() ==> entries[i].0[j] != '\0',
        forall|i: int| 0 <= i < entries.len() ==> is_plain_name(#[trigger] entries[i].0),
    ensures
        embedded_table(
            regions.addresses@,
            regions.count as nat,
            regions.name_index@,
            regions.names@,
        ) == dedup(kallsyms(text_dump(entries))),
{
    lemma_layout_round_trip(entries, regions);
    lemma_text_dump_reads_back(entries);
}

/// `core::str::from_utf8` gives the text that `bytes` write, if they are
/// UTF-8, and an error if they are not.
#[verifier::external_body]
fn utf8_text(bytes: &[u8]) -> (text: Option<&str>)
    ensures
        text is Some == valid_utf8(bytes@),
        text matches Some(s) ==> s@ == decode_utf8(bytes@),
{
    core::str::from_utf8(bytes).ok()
}

/// The name that starts at `at` in the region `names`.
pub fn read_name(names: &[u8], at: usize) -> (name: String)
    requires
        at < names.len(),
        has_zero(names@.skip(at as int)),
    ensures
        name@ == name_of(c_string(names@, at as int)),
{
    let ghost tail = names@.skip(at as int);
    let ghost zero = at + choose|j: int| 0 <= j < tail.len() && tail[j] == 0;
    let mut end: usize = at;
    while names[end] != 0
        invariant
            at <= end <= zero < names.len(),
            names@[zero] == 0,
            forall|j: int| at <= j < end ==> #[trigger] names@[j] != 0,
        decreases zero - end,
    {
        end += 1;
    }
    proof {
        assert forall|j: int| 0 <= j < end - at implies #[trigger] tail[j] != 0 by {
            assert(tail[j] == names@[at + j]);
        }
        lemma_text_len(tail, end - at);
    }
    match utf8_text(slice_subrange(names, at, end)) {
        Some(text) => text.to_owned(),
        None => UNKNOWN.to_owned(),
    }
}

/// Whether `bytes` holds a zero byte at or after `from`.
fn zero_follows(bytes: &[u8], from: usize) -> (found: bool)
    requires
        from <= bytes.len(),
    ensures
        found == has_zero(bytes@.skip(from as int)),
{
    let ghost tail = bytes@.skip(from as int);
    let mut i: usize = from;
    while i < bytes.len()
        invariant
            from <= i <= bytes.len(),
            tail == bytes@.skip(from as int),
            forall|j: int| 0 <= j < i - from ==> #[trigger] tail[j] != 0,
        decreases bytes.len() - i,
    {
        if bytes[i] == 0 {
            assert(tail[i - from] == 0);
            return true;
        }
        i += 1;
    }
    false
}

/// Whether the regions fit together.
pub fn is_consistent(addresses: &[u64], count: usize, name_index: &[u64], names: &[u8]) -> (ok:
    bool)
    ensures
        ok == consistent(addresses@, count as nat, name_index@, names@),
{
    if count > addresses.len() || count > name_index.len() {
        return false;
    }
    let mut i: usize = 0;
    while i < count
        invariant
            i <= count <= name_index.len(),
            forall|k: int|
                0 <= k < i ==> (#[trigger] name_index@[k]) < names@.len() && has_zero(
                    names@.skip(name_index@[k] as int),
                ),
        decreases count - i,
    {
        let at = name_index[i];
        if at >= names.len() as u64 {
            return false;
        }
        if !zero_follows(names, at as usize) {
            return false;
        }
        i += 1;
    }
    true
}

/// Reads the table from its four regions: for each of the first `count`
/// symbols the name at its offset, or `unknown` where the bytes there are no
/// UTF-8, and its address.
pub fn load_symbols(addresses: &[u64], count: usize, name_index: &[u64], names: &[u8]) -> (table:
    Vec<(String, u64)>)
    requires
        consistent(addresses@, count as nat, name_index@, names@),
    ensures
        table.deep_view() == embedded_table(addresses@, count as nat, name_index@, names@),
{
    let ghost whole = embedded_table(addresses@, count as nat, name_index@, names@);
    let mut table: Vec<(String, u64)> = Vec::new();
    let mut i: usize = 0;
    assert(table.deep_view() =~= whole.take(0));
    while i < count
        invariant
            i <= count,
            consistent(addresses@, count as nat, name_index@, names@),
            whole == embedded_table(addresses@, count as nat, name_index@, names@),
            table.deep_view() == whole.take(i as int),
        decreases count - i,
    {
        let ghost before = table.deep_view();
        let at = name_index[i];
        assert(name_index@[i as int] < names@.len() && has_zero(
            names@.skip(name_index@[i as int] as int),
        ));
        assert(at < names.len());
        let start: usize = at as usize;
        assert(start == name_index@[i as int]);
        let name = read_name(names, start);
        let symbol = (name, addresses[i]);
        table.push(symbol);
        assert(table.deep_view() =~= before.push(symbol.deep_view()));
        assert(symbol.deep_view() == whole[i as int]);
        assert(before.push(symbol.deep_view()) =~= whole.take(i + 1));
        i += 1;
    }
    assert(whole.take(count as int) =~= whole);
    table
}

/// Initialises the symbol table from the four regions that the generator
/// lays out: the addresses, their number, the offsets of the names, and the
/// names.
///
/// A holder takes its table once: one that is ready is not accepted. The
/// regions must fit together.
pub fn init_kernel_symbols(
    symbols: &mut KernelSymbols,
    addresses: &[u64],
    count: usize,
    name_index: &[u64],
    names: &[u8],
)
    requires
        !old(symbols).ready(),
        consistent(addresses@, count as nat, name_index@, names@),
    ensures
        final(symbols).ready(),
        final(symbols).table() == embedded_table(addresses@, count as nat, name_index@, names@),
{
    let table = load_symbols(addresses, count, name_index, names);
    symbols.init_once(table);
}

} // verus!
