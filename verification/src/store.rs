//! The write-once holder of the symbol table.
//!
//! A [`KernelSymbols`] starts out empty, takes a table exactly once and keeps
//! it unchanged from then on. It is meant to live for the whole run of the
//! kernel. The cell inside is `lazyinit::LazyInit`; what this module says of
//! that cell is taken on trust.

use vstd::prelude::*;
use lazyinit::LazyInit;

verus! {

/// `lazyinit::LazyInit`, a cell that is given its value once. Nothing inside
/// it is visible here.
#[verifier::external_type_specification]
#[verifier::external_body]
#[verifier::reject_recursive_types(T)]
pub struct ExLazyInit<T>(LazyInit<T>);

/// Whether the cell has been given its value.
pub uninterp spec fn cell_ready(cell: LazyInit<Vec<(String, u64)>>) -> bool;

/// The entries of the table that the cell was given, as names and addresses.
/// It says nothing of a cell that is not ready.
pub uninterp spec fn cell_table(cell: LazyInit<Vec<(String, u64)>>) -> Seq<(Seq<char>, u64)>;

/// `LazyInit::new` makes a cell without a value.
#[verifier::external_body]
fn cell_new() -> (cell: LazyInit<Vec<(String, u64)>>)
    ensures
        !cell_ready(cell),
{
    LazyInit::new()
}

/// `LazyInit::is_inited` tells whether the cell has been given its value.
#[verifier::external_body]
fn cell_is_inited(cell: &LazyInit<Vec<(String, u64)>>) -> (ready: bool)
    ensures
        ready == cell_ready(*cell),
{
    cell.is_inited()
}

/// `LazyInit::init_once` stores `table` in a cell that has no value yet, and
/// panics on one that has: such a cell is left out. The cell is taken by
/// exclusive reference, so nothing else can be initialising it meanwhile.
#[verifier::external_body]
fn cell_init_once(cell: &mut LazyInit<Vec<(String, u64)>>, table: Vec<(String, u64)>)
    requires
        !cell_ready(*old(cell)),
    ensures
        cell_ready(*final(cell)),
        cell_table(*final(cell)) == table.deep_view(),
{
    cell.init_once(table);
}

/// `LazyInit::get` hands out the value of a cell that has one, and `None` for
/// a cell that has none.
#[verifier::external_body]
fn cell_get(cell: &LazyInit<Vec<(String, u64)>>) -> (table: Option<&Vec<(String, u64)>>)
    ensures
        table is Some == cell_ready(*cell),
        table matches Some(t) ==> t.deep_view() == cell_table(*cell),
{
    cell.get()
}

/// The holder of the symbol table: empty until it is initialised, and
/// unchanged after that.
pub struct KernelSymbols {
    cell: LazyInit<Vec<(String, u64)>>,
}

impl KernelSymbols {
    /// Whether the table has been stored.
    pub closed spec fn ready(&self) -> bool {
        cell_ready(self.cell)
    }

    /// The entries of the stored table, as names and addresses. It says
    /// nothing of a holder that is not ready.
    pub closed spec fn table(&self) -> Seq<(Seq<char>, u64)> {
        cell_table(self.cell)
    }

    /// A holder without a table.
    pub fn new() -> (symbols: Self)
        ensures
            !symbols.ready(),
    {
        KernelSymbols { cell: cell_new() }
    }

    /// Whether the table has been stored.
    pub fn is_ready(&self) -> (ready: bool)
        ensures
            ready == self.ready(),
    {
        cell_is_inited(&self.cell)
    }

    /// Stores `table`, once and for all.
    pub fn init_once(&mut self, table: Vec<(String, u64)>)
        requires
            !old(self).ready(),
        ensures
            final(self).ready(),
            final(self).table() == table.deep_view(),
    {
        cell_init_once(&mut self.cell, table);
    }

    /// The stored table, if there is one.
    pub fn get(&self) -> (table: Option<&Vec<(String, u64)>>)
        ensures
            table is Some == self.ready(),
            table matches Some(t) ==> t.deep_view() == self.table(),
    {
        cell_get(&self.cell)
    }
}

} // verus!
