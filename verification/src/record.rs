//! Genomic intervals and their containers.
//!
//! A record is a half-open range of positions on one chromosome with a
//! payload: the key of the barcode that a fragment came from, or the share
//! of a fragment that falls to a common cell. The records of one cell form
//! a list, the lists of all cells of one assay a table, and the tables of
//! all assays the experiment for one chromosome.
use std::ops::Range;
use vstd::prelude::*;

verus! {

/// A half-open range `[start, end)` with a payload.
#[derive(Debug)]
pub struct Record<R> {
    range: Range<u32>,
    id: R,
}

/// A record as the contracts see it.
pub struct RecordView<R> {
    pub start: u32,
    pub end: u32,
    pub id: R,
}

impl<R> View for Record<R> {
    type V = RecordView<R>;

    closed spec fn view(&self) -> RecordView<R> {
        RecordView { start: self.range.start, end: self.range.end, id: self.id }
    }
}

impl<R: Copy> Clone for Record<R> {
    fn clone(&self) -> (r: Self)
        ensures
            r@ == self@,
    {
        Record { range: Range { start: self.range.start, end: self.range.end }, id: self.id }
    }
}

impl<R: Copy> Record<R> {
    /// The payload.
    pub fn id(&self) -> (r: R)
        ensures
            r == self@.id,
    {
        self.id
    }

    /// The range.
    pub fn range(&self) -> (r: &Range<u32>)
        ensures
            r.start == self@.start,
            r.end == self@.end,
    {
        &self.range
    }

    /// A record over a copy of `range`.
    pub fn new_with_id(range: &Range<u32>, id: R) -> (r: Record<R>)
        ensures
            r@ == (RecordView { start: range.start, end: range.end, id }),
    {
        Record { range: Range { start: range.start, end: range.end }, id }
    }
}

/// The views of a list of records.
pub open spec fn views<R>(s: Seq<Record<R>>) -> Seq<RecordView<R>> {
    Seq::new(s.len(), |i: int| s[i]@)
}

/// The records of one cell in one assay, on one chromosome.
#[derive(Debug)]
pub struct CellRecords<R> {
    records: Vec<Record<R>>,
}

impl<R> View for CellRecords<R> {
    type V = Seq<Record<R>>;

    closed spec fn view(&self) -> Seq<Record<R>> {
        self.records@
    }
}

impl<R> CellRecords<R> {
    /// The list of the given records.
    pub fn new(records: Vec<Record<R>>) -> (r: CellRecords<R>)
        ensures
            r@ == records@,
    {
        CellRecords { records }
    }

    /// The records, in their order.
    pub fn records(&self) -> (r: &Vec<Record<R>>)
        ensures
            r@ == self@,
    {
        &self.records
    }

    /// Adds a record at the end of the list.
    pub fn push(&mut self, record: Record<R>)
        ensures
            final(self)@ == old(self)@.push(record),
    {
        self.records.push(record);
    }
}

/// The records of one assay: one list per common cell.
#[derive(Debug)]
pub struct AssayRecords<R> {
    records: Vec<CellRecords<R>>,
}

impl<R> View for AssayRecords<R> {
    type V = Seq<CellRecords<R>>;

    closed spec fn view(&self) -> Seq<CellRecords<R>> {
        self.records@
    }
}

impl<R> AssayRecords<R> {
    /// The table of the given lists, one per common cell.
    pub fn new(records: Vec<CellRecords<R>>) -> (r: AssayRecords<R>)
        ensures
            r@ == records@,
    {
        AssayRecords { records }
    }

    /// The list of cell `cell_id`, if the assay has that cell.
    pub fn get_cell_records(&self, cell_id: usize) -> (r: Option<&CellRecords<R>>)
        ensures
            cell_id < self@.len() ==> r == Some(&self@[cell_id as int]),
            cell_id >= self@.len() ==> r is None,
    {
        if cell_id < self.records.len() {
            Some(&self.records[cell_id])
        } else {
            None
        }
    }
}

/// The records of all assays on one chromosome.
#[derive(Debug)]
pub struct Experiment<R> {
    records: Vec<AssayRecords<R>>,
}

impl<R> View for Experiment<R> {
    type V = Seq<AssayRecords<R>>;

    closed spec fn view(&self) -> Seq<AssayRecords<R>> {
        self.records@
    }
}

/// Every assay of `e` has `n` cells.
pub open spec fn has_cells<R>(e: Seq<AssayRecords<R>>, n: nat) -> bool {
    forall|a: int| 0 <= a < e.len() ==> (#[trigger] e[a])@.len() == n
}

impl<R> Experiment<R> {
    /// The experiment of the given tables, one per assay.
    pub fn new(records: Vec<AssayRecords<R>>) -> (r: Experiment<R>)
        ensures
            r@ == records@,
    {
        Experiment { records }
    }

    /// The number of assays.
    pub fn num_assays(&self) -> (r: usize)
        ensures
            r == self@.len(),
    {
        self.records.len()
    }

    /// Whether every assay has `num_cells` cells, as an experiment must.
    pub fn is_rectangular(&self, num_cells: usize) -> (r: bool)
        ensures
            r == has_cells(self@, num_cells as nat),
    {
        let mut a: usize = 0;
        while a < self.records.len()
            invariant
                a <= self.records.len(),
                forall|k: int| 0 <= k < a ==> (#[trigger] self@[k])@.len() == num_cells,
            decreases self.records.len() - a,
        {
            if self.records[a].records.len() != num_cells {
                assert(self@[a as int]@.len() != num_cells);
                return false;
            }
            a += 1;
        }
        true
    }

    /// The lists of cell `cell_id`, one per assay, in the order of the
    /// assays.
    pub fn get_cell_data(&self, cell_id: usize) -> (r: Vec<&CellRecords<R>>)
        requires
            forall|a: int| 0 <= a < self@.len() ==> cell_id < (#[trigger] self@[a])@.len(),
        ensures
            r.len() == self@.len(),
            forall|a: int| 0 <= a < self@.len() ==> *(#[trigger] r[a]) == self@[a]@[cell_id as int],
    {
        let mut out: Vec<&CellRecords<R>> = Vec::new();
        let mut a: usize = 0;
        while a < self.records.len()
            invariant
                a <= self.records.len(),
                out.len() == a,
                forall|k: int| 0 <= k < self@.len() ==> cell_id < (#[trigger] self@[k])@.len(),
                forall|k: int| 0 <= k < a ==> *(#[trigger] out[k]) == self@[k]@[cell_id as int],
            decreases self.records.len() - a,
        {
            assert(cell_id < self@[a as int]@.len());
            out.push(&self.records[a].records[cell_id]);
            a += 1;
        }
        out
    }
}

} // verus!
