//! Fragments: the text of a fragment line, and the redistribution of the
//! fragments of one assay onto the common cells.
//!
//! A fragment line has at least four fields: the chromosome, the first
//! position counted from 1, the position after the last, and the barcode
//! with the number of its library after a dash (`ACGT-1`). The range of the
//! record starts one below the first position. A fragment whose barcode has
//! no anchor is dropped. Every other fragment gives one record to each
//! common cell that its barcode has a weight for; the record carries that
//! weight and the number of barcodes that share the cell, by which the
//! weight is to be divided.
use crate::anchors::AnchorWeights;
use crate::anchors::row_map;
use crate::anchors::sharing;
use crate::record::CellRecords;
use crate::record::Record;
use crate::record::RecordView;
use crate::record::views;
use crate::text::field;
use crate::text::fields_of;
use crate::text::lemma_fields_unique;
use crate::text::number;
use crate::text::parse_field;
use crate::text::split_fields;
use crate::text::split_tag;
use crate::text::tag_spans;
use crate::text::Span;
use std::ops::Range;
use vstd::prelude::*;

verus! {

/// Why a fragment line could not be read.
#[derive(Clone, Copy, Debug, PartialEq, Eq, Structural)]
pub enum FragmentError {
    /// Fewer than four fields.
    FieldCount,
    /// A position that is no unsigned 32-bit number.
    BadCoordinate,
    /// No dash in the barcode field.
    MissingSuffix,
    /// What follows the dash is neither 1 nor 2.
    BadSuffix,
    /// A first position of 0 in a line that counts positions from 1.
    ZeroStart,
}

/// What a fragment line says.
#[derive(Clone, Copy, Debug, PartialEq, Eq, Structural)]
pub struct FragmentFields {
    /// The first position, counted from 1.
    pub start: u32,
    /// The position after the last.
    pub end: u32,
    /// Where the barcode stands in the line, without dash and library.
    pub barcode: Span,
    /// The number of the library: 1 or 2.
    pub suffix: u8,
}

/// The barcode and the library that the field `span` of `line` names.
pub open spec fn tag_of(line: Seq<u8>, span: Span) -> Result<(Span, u8), FragmentError> {
    match tag_spans(line, span) {
        None => Err(FragmentError::MissingSuffix),
        Some((barcode, library)) => match number(field(line, library), 255) {
            Some(v) => if v == 1 || v == 2 {
                Ok((barcode, v as u8))
            } else {
                Err(FragmentError::BadSuffix)
            },
            None => Err(FragmentError::BadSuffix),
        },
    }
}

/// What the fragment line with the fields `f` says.
pub open spec fn fragment_of(line: Seq<u8>, f: Seq<Span>) -> Result<
    FragmentFields,
    FragmentError,
> {
    if f.len() < 4 {
        Err(FragmentError::FieldCount)
    } else {
        match number(field(line, f[1]), u32::MAX as nat) {
            None => Err(FragmentError::BadCoordinate),
            Some(start) => match number(field(line, f[2]), u32::MAX as nat) {
                None => Err(FragmentError::BadCoordinate),
                Some(end) => match tag_of(line, f[3]) {
                    Err(e) => Err(e),
                    Ok((barcode, suffix)) => Ok(
                        FragmentFields { start: start as u32, end: end as u32, barcode, suffix },
                    ),
                },
            },
        }
    }
}

fn read_tag(line: &[u8], span: Span) -> (r: Result<(Span, u8), FragmentError>)
    requires
        span.start <= span.end <= line@.len(),
    ensures
        r == tag_of(line@, span),
{
    match split_tag(line, span) {
        None => Err(FragmentError::MissingSuffix),
        Some((barcode, library)) => match parse_field(line, library, 255) {
            Some(v) => if v == 1 || v == 2 {
                Ok((barcode, v as u8))
            } else {
                Err(FragmentError::BadSuffix)
            },
            None => Err(FragmentError::BadSuffix),
        },
    }
}

/// Reads a fragment line.
pub fn parse_fragment_line(line: &[u8]) -> (r: Result<FragmentFields, FragmentError>)
    ensures
        forall|f: Seq<Span>| fields_of(line@, f) ==> r == fragment_of(line@, f),
{
    let fields = split_fields(line);
    proof {
        assert forall|f: Seq<Span>| fields_of(line@, f) implies f == fields@ by {
            lemma_fields_unique(line@, f, fields@);
        }
    }
    if fields.len() < 4 {
        return Err(FragmentError::FieldCount);
    }
    let start: u32 = match parse_field(line, fields[1], 0xffff_ffff) {
        None => {
            return Err(FragmentError::BadCoordinate);
        },
        Some(v) => v as u32,
    };
    let end: u32 = match parse_field(line, fields[2], 0xffff_ffff) {
        None => {
            return Err(FragmentError::BadCoordinate);
        },
        Some(v) => v as u32,
    };
    match read_tag(line, fields[3]) {
        Err(e) => Err(e),
        Ok((barcode, suffix)) => Ok(FragmentFields { start, end, barcode, suffix }),
    }
}

impl Record<u64> {
    /// The record of a fragment whose barcode has the key `key`: nothing
    /// where the barcode has no anchor in `assay_cells`, else the range
    /// from one below the first position, with the key as payload.
    pub fn from_fields<W: Copy>(
        fields: &FragmentFields,
        key: u64,
        assay_cells: &AnchorWeights<W>,
    ) -> (r: Result<Option<Record<u64>>, FragmentError>)
        ensures
            !assay_cells@.contains_key(key) ==> r is Ok && r->Ok_0 is None,
            assay_cells@.contains_key(key) && fields.start == 0 ==> r is Err && r->Err_0
                == FragmentError::ZeroStart,
            assay_cells@.contains_key(key) && fields.start > 0 ==> r is Ok && r->Ok_0 is Some
                && r->Ok_0->Some_0@ == (RecordView {
                start: (fields.start - 1) as u32,
                end: fields.end,
                id: key,
            }),
    {
        if !assay_cells.contains_key(key) {
            return Ok(None);
        }
        if fields.start == 0 {
            return Err(FragmentError::ZeroStart);
        }
        let range = Range { start: fields.start - 1, end: fields.end };
        Ok(Some(Record::new_with_id(&range, key)))
    }
}

/// What one fragment gives to one common cell: the anchor weight of the
/// fragment's barcode for the cell, and the number of barcodes that share
/// the cell. The contribution is the weight divided by that number.
#[derive(Debug)]
pub struct Share<W> {
    pub weight: W,
    pub sharers: usize,
}

impl<W: Copy> Clone for Share<W> {
    fn clone(&self) -> (r: Self)
        ensures
            r == *self,
    {
        Share { weight: self.weight, sharers: self.sharers }
    }
}

impl<W: Copy> Copy for Share<W> {

}

/// The barcode of the record `r` has a weight for the common cell `c`.
pub open spec fn reaches<W>(a: Map<u64, Map<u32, W>>, r: RecordView<u64>, c: u32) -> bool {
    a.contains_key(r.id) && a[r.id].contains_key(c)
}

/// What the record `r` gives to the common cell `c`.
pub open spec fn share_of<W>(a: Map<u64, Map<u32, W>>, r: RecordView<u64>, c: u32) -> RecordView<
    Share<W>,
> {
    RecordView {
        start: r.start,
        end: r.end,
        id: Share { weight: a[r.id][c], sharers: sharing(a, c).len() as usize },
    }
}

/// What the common cell `c` gets from `records`: one record for each whose
/// barcode has a weight for `c`, in their order.
pub open spec fn contributions<W>(
    a: Map<u64, Map<u32, W>>,
    records: Seq<RecordView<u64>>,
    c: u32,
) -> Seq<RecordView<Share<W>>> {
    records.filter(|r: RecordView<u64>| reaches(a, r, c)).map_values(
        |r: RecordView<u64>| share_of(a, r, c),
    )
}

proof fn lemma_contributions_push<W>(
    a: Map<u64, Map<u32, W>>,
    records: Seq<RecordView<u64>>,
    r: RecordView<u64>,
    c: u32,
)
    ensures
        contributions(a, records.push(r), c) =~= if reaches(a, r, c) {
            contributions(a, records, c).push(share_of(a, r, c))
        } else {
            contributions(a, records, c)
        },
{
    let pred = |x: RecordView<u64>| reaches(a, x, c);
    Seq::lemma_filter_push(records, r, pred);
}

/// Every record that a common cell gets comes from a fragment whose barcode
/// has a weight for the cell; it has the fragment's range, and it carries
/// that weight and the number of barcodes that have a weight for the cell.
pub proof fn lemma_contribution<W>(
    a: Map<u64, Map<u32, W>>,
    records: Seq<RecordView<u64>>,
    c: u32,
    i: int,
)
    requires
        0 <= i < contributions(a, records, c).len(),
    ensures
        exists|j: int|
            0 <= j < records.len() && reaches(a, #[trigger] records[j], c) && contributions(
                a,
                records,
                c,
            )[i] == share_of(a, records[j], c),
{
    let pred = |x: RecordView<u64>| reaches(a, x, c);
    let kept = records.filter(pred);
    assert(kept.contains(kept[i]));
    Seq::lemma_filter_contains_rev(records, pred, kept[i]);
    let j = choose|j: int| 0 <= j < records.len() && records[j] == kept[i];
    assert(reaches(a, records[j], c));
}

/// Hands the fragments of one assay to the common cells. The result has
/// one list per common cell of the table; a fragment whose barcode the
/// table does not know is left out.
pub fn redistribute<W: Copy>(anchors: &AnchorWeights<W>, records: &Vec<Record<u64>>) -> (r: Vec<
    CellRecords<Share<W>>,
>)
    requires
        anchors.wf(),
    ensures
        r.len() == anchors.cells(),
        forall|c: u32|
            c < anchors.cells() ==> views((#[trigger] r[c as int])@) == contributions(
                anchors@,
                views(records@),
                c,
            ),
{
    let n: usize = anchors.num_cells() as usize;
    let norm = anchors.sharers();
    let ghost a = anchors@;
    let ghost rs = views(records@);
    let mut lists: Vec<CellRecords<Share<W>>> = Vec::new();
    let mut k: usize = 0;
    while k < n
        invariant
            k <= n,
            lists.len() == k,
            forall|c: int| 0 <= c < k ==> (#[trigger] lists[c])@.len() == 0,
        decreases n - k,
    {
        lists.push(CellRecords::new(Vec::new()));
        k += 1;
    }
    assert forall|c: u32| c < n implies views(#[trigger] lists[c as int]@) == contributions(
        a,
        rs.take(0),
        c,
    ) by {
        assert(rs.take(0) =~= Seq::<RecordView<u64>>::empty());
        assert(views(lists[c as int]@) =~= contributions(a, rs.take(0), c));
    }
    let mut i: usize = 0;
    while i < records.len()
        invariant
            i <= records.len(),
            anchors.wf(),
            a == anchors@,
            rs == views(records@),
            n == anchors.cells(),
            lists.len() == n,
            norm.len() == n,
            forall|c: u32|
                c < n ==> sharing(a, c).finite() && norm[c as int] == (#[trigger] sharing(
                    a,
                    c,
                )).len(),
            forall|c: u32|
                c < n ==> views(#[trigger] lists[c as int]@) == contributions(
                    a,
                    rs.take(i as int),
                    c,
                ),
        decreases records.len() - i,
    {
        let record = &records[i];
        let ghost rv = rs[i as int];
        assert(rv == record@);
        assert(rs.take(i + 1) =~= rs.take(i as int).push(rv));
        match anchors.row(record.id()) {
            None => {
                proof {
                    assert forall|c: u32| c < n implies views(#[trigger] lists[c as int]@)
                        == contributions(a, rs.take(i + 1), c) by {
                        lemma_contributions_push(a, rs.take(i as int), rv, c);
                    }
                }
            },
            Some((cells, weights)) => {
                let mut j: usize = 0;
                while j < cells.len()
                    invariant
                        j <= cells.len(),
                        cells@.len() == weights@.len(),
                        cells@.no_duplicates(),
                        forall|q: int| 0 <= q < cells@.len() ==> (#[trigger] cells@[q]) < n,
                        a.contains_key(rv.id),
                        a[rv.id] == row_map(cells@, weights@),
                        rv == record@,
                        lists.len() == n,
                        norm.len() == n,
                        forall|c: u32|
                            c < n ==> sharing(a, c).finite() && norm[c as int] == (
                            #[trigger] sharing(a, c)).len(),
                        forall|c: u32|
                            c < n ==> views(#[trigger] lists[c as int]@) == if cells@.take(
                                j as int,
                            ).contains(c) {
                                contributions(a, rs.take(i as int), c).push(share_of(a, rv, c))
                            } else {
                                contributions(a, rs.take(i as int), c)
                            },
                    decreases cells.len() - j,
                {
                    let cell: u32 = cells[j];
                    let share = Share { weight: weights[j], sharers: norm[cell as usize] };
                    let entry = Record::new_with_id(record.range(), share);
                    let ghost before = lists@;
                    proof {
                        let lo = cells@.take(j as int);
                        let hi = cells@.take(j + 1);
                        assert(cells@[j as int] < n);
                        assert(cells@.contains(cell));
                        assert(a[rv.id].contains_key(cell));
                        let p = crate::anchors::place_of(cells@, cell);
                        assert(cells@[p] == cell);
                        assert(p == j);
                        assert(sharing(a, cell).len() == norm[cell as int]);
                        assert(entry@ == share_of(a, rv, cell));
                        assert(!lo.contains(cell)) by {
                            if lo.contains(cell) {
                                let q = choose|q: int| 0 <= q < lo.len() && lo[q] == cell;
                                assert(cells@[q] == cell);
                            }
                        }
                        assert forall|c: u32| hi.contains(c) <==> (lo.contains(c) || c == cell) by {
                            if hi.contains(c) {
                                let q = choose|q: int| 0 <= q < hi.len() && hi[q] == c;
                                if q < j {
                                    assert(lo[q] == c);
                                }
                            }
                            if lo.contains(c) {
                                let q = choose|q: int| 0 <= q < lo.len() && lo[q] == c;
                                assert(hi[q] == c);
                            }
                            if c == cell {
                                assert(hi[j as int] == c);
                            }
                        }
                    }
                    lists[cell as usize].push(entry);
                    proof {
                        assert forall|c: u32| c < n implies views(#[trigger] lists[c as int]@)
                            == if cells@.take(j + 1).contains(c) {
                            contributions(a, rs.take(i as int), c).push(share_of(a, rv, c))
                        } else {
                            contributions(a, rs.take(i as int), c)
                        } by {
                            if c == cell {
                                assert(lists[c as int]@ == before[c as int]@.push(entry));
                                assert(views(lists[c as int]@) =~= views(before[c as int]@).push(
                                    entry@,
                                ));
                            } else {
                                assert(lists[c as int] == before[c as int]);
                            }
                        }
                    }
                    j += 1;
                }
                proof {
                    assert(cells@.take(cells@.len() as int) =~= cells@);
                    assert forall|c: u32| c < n implies views(#[trigger] lists[c as int]@)
                        == contributions(a, rs.take(i + 1), c) by {
                        lemma_contributions_push(a, rs.take(i as int), rv, c);
                    }
                }
            },
        }
        i += 1;
    }
    assert(rs.take(records@.len() as int) =~= rs);
    lists
}

} // verus!
