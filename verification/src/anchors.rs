//! Anchor weights: the soft correspondence between the barcodes of one assay
//! and the common cells.
//!
//! A barcode, given by its 64-bit key, has a weight for each of some common
//! cells. The weights of a barcode need not sum to one. The number of
//! barcodes that have a weight for a common cell is that cell's number of
//! sharers: what a fragment contributes to the cell is divided by it. The
//! weights themselves are values of a type parameter that the crate never
//! computes with.
//!
//! An anchor line has three fields: the name of the common cell, the
//! barcode with the number of its library after a dash, and the weight.
//! The name is resolved to the cell's index by the list of names.
use crate::text::field;
use crate::text::fields_of;
use crate::text::lemma_fields_unique;
use crate::text::number;
use crate::text::parse_field;
use crate::text::split_fields;
use crate::text::split_tag;
use crate::text::tag_spans;
use crate::text::Span;
use std::collections::HashMap;
use vstd::prelude::*;
use vstd::set::group_set_axioms;
use vstd::std_specs::hash::group_hash_axioms;

verus! {

/// Why an anchor could not be taken.
#[derive(Clone, Copy, Debug, PartialEq, Eq, Structural)]
pub enum AnchorError {
    /// The common cell is not one of the cells that the table was made for.
    OutOfRange,
    /// Fewer than three fields in an anchor line.
    FieldCount,
    /// No dash in the barcode field.
    MissingSuffix,
    /// What follows the dash is no number below 256.
    BadSuffix,
}

/// What an anchor line says. The weight is handed back as the place of its
/// field in the line.
#[derive(Clone, Copy, Debug, PartialEq, Eq, Structural)]
pub struct AnchorFields {
    /// Where the name of the common cell stands.
    pub cell: Span,
    /// Where the barcode stands, without dash and library.
    pub barcode: Span,
    /// The number of the library.
    pub suffix: u8,
    /// Where the weight stands.
    pub score: Span,
}

/// What the anchor line with the fields `f` says. Fields after the third
/// are not looked at.
pub open spec fn anchor_of(line: Seq<u8>, f: Seq<Span>) -> Result<AnchorFields, AnchorError> {
    if f.len() < 3 {
        Err(AnchorError::FieldCount)
    } else {
        match tag_spans(line, f[1]) {
            None => Err(AnchorError::MissingSuffix),
            Some((barcode, library)) => match number(field(line, library), 255) {
                None => Err(AnchorError::BadSuffix),
                Some(v) => Ok(AnchorFields { cell: f[0], barcode, suffix: v as u8, score: f[2] }),
            },
        }
    }
}

/// Reads an anchor line.
pub fn parse_anchor_line(line: &[u8]) -> (r: Result<AnchorFields, AnchorError>)
    ensures
        forall|f: Seq<Span>| fields_of(line@, f) ==> r == anchor_of(line@, f),
{
    let fields = split_fields(line);
    proof {
        assert forall|f: Seq<Span>| fields_of(line@, f) implies f == fields@ by {
            lemma_fields_unique(line@, f, fields@);
        }
    }
    if fields.len() < 3 {
        return Err(AnchorError::FieldCount);
    }
    match split_tag(line, fields[1]) {
        None => Err(AnchorError::MissingSuffix),
        Some((barcode, library)) => match parse_field(line, library, 255) {
            None => Err(AnchorError::BadSuffix),
            Some(v) => Ok(
                AnchorFields { cell: fields[0], barcode, suffix: v as u8, score: fields[2] },
            ),
        },
    }
}

/// The common cells of one barcode, each with its weight.
pub struct AnchorRow<W> {
    barcode: u64,
    cells: Vec<u32>,
    weights: Vec<W>,
}

/// The anchor weights of one assay.
pub struct AnchorWeights<W> {
    index: HashMap<u64, usize>,
    rows: Vec<AnchorRow<W>>,
    num_cells: u32,
}

/// A place in `cells` where `c` stands.
pub open spec fn place_of(cells: Seq<u32>, c: u32) -> int {
    choose|i: int| 0 <= i < cells.len() && cells[i] == c
}

/// The weights of one barcode, by common cell.
pub open spec fn row_map<W>(cells: Seq<u32>, weights: Seq<W>) -> Map<u32, W> {
    Map::new(|c: u32| cells.contains(c), |c: u32| weights[place_of(cells, c)])
}

/// The weights of `b` in `a`; none where `a` does not know `b`.
pub open spec fn row_of<W>(a: Map<u64, Map<u32, W>>, b: u64) -> Map<u32, W> {
    if a.contains_key(b) {
        a[b]
    } else {
        Map::empty()
    }
}

/// The barcodes of `a` that have a weight for the common cell `c`.
pub open spec fn sharing<W>(a: Map<u64, Map<u32, W>>, c: u32) -> Set<u64> {
    Set::new(|b: u64| a.contains_key(b) && a[b].contains_key(c))
}

proof fn lemma_row_map_update<W>(cells: Seq<u32>, weights: Seq<W>, p: int, w: W)
    requires
        cells.no_duplicates(),
        cells.len() == weights.len(),
        0 <= p < cells.len(),
    ensures
        row_map(cells, weights.update(p, w)) =~= row_map(cells, weights).insert(cells[p], w),
{
    let a = row_map(cells, weights.update(p, w));
    let b = row_map(cells, weights).insert(cells[p], w);
    assert forall|c: u32| a.contains_key(c) <==> b.contains_key(c) by {}
    assert forall|c: u32| a.contains_key(c) implies a[c] == b[c] by {
        let i = place_of(cells, c);
        assert(cells[i] == c);
    }
}

proof fn lemma_row_map_push<W>(cells: Seq<u32>, weights: Seq<W>, c: u32, w: W)
    requires
        cells.no_duplicates(),
        cells.len() == weights.len(),
        !cells.contains(c),
    ensures
        cells.push(c).no_duplicates(),
        row_map(cells.push(c), weights.push(w)) =~= row_map(cells, weights).insert(c, w),
{
    let cs = cells.push(c);
    let ws = weights.push(w);
    let a = row_map(cs, ws);
    let b = row_map(cells, weights).insert(c, w);
    assert forall|x: u32| a.contains_key(x) <==> b.contains_key(x) by {
        if cs.contains(x) {
            let i = choose|i: int| 0 <= i < cs.len() && cs[i] == x;
            if i < cells.len() {
                assert(cells[i] == x);
            }
        }
        if cells.contains(x) {
            let i = choose|i: int| 0 <= i < cells.len() && cells[i] == x;
            assert(cs[i] == x);
        }
        if x == c {
            assert(cs[cells.len() as int] == c);
        }
    }
    assert forall|x: u32| a.contains_key(x) implies a[x] == b[x] by {
        let i = place_of(cs, x);
        assert(cs[i] == x);
        if x == c {
            if i < cells.len() {
                assert(cells[i] == c);
            }
        } else {
            assert(i < cells.len());
            assert(cells[i] == x);
            let j = place_of(cells, x);
            assert(cells[j] == x);
        }
    }
}

impl<W> AnchorRow<W> {
    spec fn wf(self, num_cells: u32) -> bool {
        &&& self.cells@.len() == self.weights@.len()
        &&& self.cells@.no_duplicates()
        &&& forall|i: int| 0 <= i < self.cells@.len() ==> (#[trigger] self.cells@[i]) < num_cells
    }

    spec fn map(self) -> Map<u32, W> {
        row_map(self.cells@, self.weights@)
    }
}

impl<W> View for AnchorWeights<W> {
    type V = Map<u64, Map<u32, W>>;

    closed spec fn view(&self) -> Map<u64, Map<u32, W>> {
        Map::new(
            |b: u64| self.index@.contains_key(b),
            |b: u64| self.rows@[self.index@[b] as int].map(),
        )
    }
}

impl<W> AnchorWeights<W> {
    /// The number of common cells that the table was made for.
    pub closed spec fn cells(&self) -> nat {
        self.num_cells as nat
    }

    /// Every barcode has its own row, and every row names cells of the
    /// table, each once.
    pub closed spec fn wf(&self) -> bool {
        &&& forall|b: u64| #[trigger]
            self.index@.contains_key(b) ==> self.index@[b] < self.rows@.len()
                && self.rows@[self.index@[b] as int].barcode == b
        &&& forall|i: int|
            0 <= i < self.rows@.len() ==> self.index@.contains_key(
                (#[trigger] self.rows@[i]).barcode,
            ) && self.index@[self.rows@[i].barcode] == i && self.rows@[i].wf(self.num_cells)
    }

    /// In a table, a weight is only ever given for one of its cells.
    pub proof fn lemma_cells_in_range(&self, b: u64, c: u32)
        requires
            self.wf(),
            self@.contains_key(b),
            self@[b].contains_key(c),
        ensures
            c < self.cells(),
    {
        let row = self.rows@[self.index@[b] as int];
        assert(row.wf(self.num_cells));
        let i = choose|i: int| 0 <= i < row.cells@.len() && row.cells@[i] == c;
        assert(row.cells@[i] < self.num_cells);
    }
}

fn find_cell(cells: &Vec<u32>, c: u32) -> (r: Option<usize>)
    ensures
        match r {
            Some(i) => i < cells@.len() && cells@[i as int] == c,
            None => !cells@.contains(c),
        },
{
    let mut i: usize = 0;
    while i < cells.len()
        invariant
            i <= cells.len(),
            forall|k: int| 0 <= k < i ==> cells@[k] != c,
        decreases cells.len() - i,
    {
        if cells[i] == c {
            return Some(i);
        }
        i += 1;
    }
    None
}

impl<W: Copy> AnchorWeights<W> {
    /// An empty table for `num_cells` common cells.
    pub fn new(num_cells: u32) -> (r: AnchorWeights<W>)
        ensures
            r.wf(),
            r.cells() == num_cells,
            r@ == Map::<u64, Map<u32, W>>::empty(),
    {
        broadcast use group_hash_axioms;

        let r = AnchorWeights { index: HashMap::new(), rows: Vec::new(), num_cells };
        assert(r@ =~= Map::<u64, Map<u32, W>>::empty());
        r
    }

    /// The number of common cells that the table was made for.
    pub fn num_cells(&self) -> (r: u32)
        ensures
            r == self.cells(),
    {
        self.num_cells
    }

    /// Whether the barcode with this key has any weight.
    pub fn contains_key(&self, barcode: u64) -> (r: bool)
        ensures
            r == self@.contains_key(barcode),
    {
        broadcast use group_hash_axioms;

        self.index.contains_key(&barcode)
    }

    /// The common cells of `barcode` and, place by place, their weights.
    pub fn row(&self, barcode: u64) -> (r: Option<(&Vec<u32>, &Vec<W>)>)
        requires
            self.wf(),
        ensures
            match r {
                None => !self@.contains_key(barcode),
                Some((cells, weights)) => {
                    &&& self@.contains_key(barcode)
                    &&& self@[barcode] == row_map(cells@, weights@)
                    &&& cells@.len() == weights@.len()
                    &&& cells@.no_duplicates()
                    &&& forall|i: int| 0 <= i < cells@.len() ==> (#[trigger] cells@[i]) < self.cells()
                },
            },
    {
        broadcast use group_hash_axioms;

        match self.index.get(&barcode) {
            None => None,
            Some(i) => {
                let row = &self.rows[*i];
                assert(row.wf(self.num_cells));
                Some((&row.cells, &row.weights))
            },
        }
    }

    /// Gives `barcode` the weight `weight` for the common cell `cell`, in
    /// place of the weight that it had for that cell, if any.
    pub fn insert(&mut self, barcode: u64, cell: u32, weight: W) -> (r: Result<(), AnchorError>)
        requires
            old(self).wf(),
        ensures
            final(self).wf(),
            final(self).cells() == old(self).cells(),
            cell >= old(self).cells() ==> r == Err::<(), AnchorError>(AnchorError::OutOfRange)
                && final(self)@ == old(self)@,
            cell < old(self).cells() ==> r is Ok && final(self)@ == old(self)@.insert(
                barcode,
                row_of(old(self)@, barcode).insert(cell, weight),
            ),
    {
        broadcast use group_hash_axioms;

        if cell >= self.num_cells {
            return Err(AnchorError::OutOfRange);
        }
        let ghost before = *self;
        let ghost want = before@.insert(barcode, row_of(before@, barcode).insert(cell, weight));
        let found: Option<usize> = match self.index.get(&barcode) {
            Some(i) => Some(*i),
            None => None,
        };
        match found {
            Some(i) => {
                let at = find_cell(&self.rows[i].cells, cell);
                let ghost cells = before.rows@[i as int].cells@;
                let ghost weights = before.rows@[i as int].weights@;
                assert(before.rows@[i as int].wf(before.num_cells));
                match at {
                    Some(p) => {
                        self.rows[i].weights[p] = weight;
                        proof {
                            lemma_row_map_update(cells, weights, p as int, weight);
                        }
                    },
                    None => {
                        self.rows[i].cells.push(cell);
                        self.rows[i].weights.push(weight);
                        proof {
                            lemma_row_map_push(cells, weights, cell, weight);
                        }
                    },
                }
                proof {
                    assert(self.rows@[i as int].map() == row_of(before@, barcode).insert(
                        cell,
                        weight,
                    ));
                    assert forall|k: int| 0 <= k < self.rows@.len() && k != i implies self.rows@[k]
                        == before.rows@[k] by {}
                    assert forall|k: int| 0 <= k < self.rows@.len() implies self.index@.contains_key(
                        (#[trigger] self.rows@[k]).barcode,
                    ) && self.index@[self.rows@[k].barcode] == k && self.rows@[k].wf(
                        self.num_cells,
                    ) by {
                        assert(before.rows@[k].wf(before.num_cells));
                    }
                    assert forall|b: u64| self@.contains_key(b) implies self@[b] == want[b] by {
                        if b != barcode {
                            assert(self.index@[b] != i);
                        }
                    }
                    assert(self@ =~= want);
                }
            },
            None => {
                let i: usize = self.rows.len();
                let mut cells: Vec<u32> = Vec::new();
                cells.push(cell);
                let mut weights: Vec<W> = Vec::new();
                weights.push(weight);
                proof {
                    lemma_row_map_push(Seq::<u32>::empty(), Seq::<W>::empty(), cell, weight);
                    assert(cells@ =~= Seq::<u32>::empty().push(cell));
                    assert(weights@ =~= Seq::<W>::empty().push(weight));
                    assert(row_map(Seq::<u32>::empty(), Seq::<W>::empty()) =~= Map::<
                        u32,
                        W,
                    >::empty());
                }
                self.rows.push(AnchorRow { barcode, cells, weights });
                self.index.insert(barcode, i);
                proof {
                    assert forall|k: int| 0 <= k < self.rows@.len() implies self.index@.contains_key(
                        (#[trigger] self.rows@[k]).barcode,
                    ) && self.index@[self.rows@[k].barcode] == k && self.rows@[k].wf(
                        self.num_cells,
                    ) by {
                        if k < i {
                            assert(self.rows@[k] == before.rows@[k]);
                            assert(before.rows@[k].wf(before.num_cells));
                        }
                    }
                    assert forall|b: u64| self@.contains_key(b) implies self@[b] == want[b] by {
                        if b != barcode {
                            assert(self.rows@[self.index@[b] as int] == before.rows@[before.index@[b] as int]);
                        }
                    }
                    assert(self@ =~= want);
                }
            },
        }
        Ok(())
    }
}

/// The number of rows among `rows` that name the cell `c`.
spec fn rows_with<W>(rows: Seq<AnchorRow<W>>, c: u32) -> nat
    decreases rows.len(),
{
    if rows.len() == 0 {
        0
    } else {
        rows_with(rows.drop_last(), c) + if rows.last().cells@.contains(c) {
            1nat
        } else {
            0nat
        }
    }
}

/// The barcodes of the first `i` rows that name the cell `c`.
spec fn sharing_among<W>(rows: Seq<AnchorRow<W>>, i: int, c: u32) -> Set<u64> {
    Set::new(
        |b: u64|
            exists|j: int|
                0 <= j < i && (#[trigger] rows[j]).barcode == b && rows[j].cells@.contains(c),
    )
}

impl<W> AnchorWeights<W> {
    proof fn lemma_sharing_among(&self, i: int, c: u32)
        requires
            self.wf(),
            0 <= i <= self.rows@.len(),
        ensures
            sharing_among(self.rows@, i, c).finite(),
            sharing_among(self.rows@, i, c).len() == rows_with(self.rows@.take(i), c),
        decreases i,
    {
        broadcast use group_set_axioms;

        let rows = self.rows@;
        if i == 0 {
            assert(sharing_among(rows, 0, c) =~= Set::<u64>::empty());
        } else {
            self.lemma_sharing_among(i - 1, c);
            let before = sharing_among(rows, i - 1, c);
            let now = sharing_among(rows, i, c);
            let row = rows[i - 1];
            assert(rows.take(i).drop_last() =~= rows.take(i - 1));
            assert(rows.take(i).last() == row);
            if row.cells@.contains(c) {
                assert(!before.contains(row.barcode)) by {
                    if before.contains(row.barcode) {
                        let j = choose|j: int|
                            0 <= j < i - 1 && (#[trigger] rows[j]).barcode == row.barcode
                                && rows[j].cells@.contains(c);
                        assert(self.index@[rows[j].barcode] == j);
                        assert(self.index@[rows[i - 1].barcode] == i - 1);
                    }
                }
                assert forall|b: u64| now.contains(b) <==> before.insert(row.barcode).contains(
                    b,
                ) by {
                    if before.contains(b) {
                        let j = choose|j: int|
                            0 <= j < i - 1 && (#[trigger] rows[j]).barcode == b
                                && rows[j].cells@.contains(c);
                        assert(0 <= j < i && rows[j].barcode == b);
                    }
                    if b == row.barcode {
                        assert(rows[i - 1].barcode == b);
                    }
                }
                assert(now =~= before.insert(row.barcode));
            } else {
                assert forall|b: u64| now.contains(b) <==> before.contains(b) by {
                    if before.contains(b) {
                        let j = choose|j: int|
                            0 <= j < i - 1 && (#[trigger] rows[j]).barcode == b
                                && rows[j].cells@.contains(c);
                        assert(0 <= j < i && rows[j].barcode == b);
                    }
                }
                assert(now =~= before);
            }
        }
    }

    proof fn lemma_sharing_counted(&self, c: u32)
        requires
            self.wf(),
        ensures
            sharing(self@, c).finite(),
            sharing(self@, c).len() == rows_with(self.rows@, c),
    {
        let rows = self.rows@;
        let n = rows.len() as int;
        self.lemma_sharing_among(n, c);
        assert(rows.take(n) =~= rows);
        assert forall|b: u64| sharing(self@, c).contains(b) <==> sharing_among(
            rows,
            n,
            c,
        ).contains(b) by {
            if sharing(self@, c).contains(b) {
                let j = self.index@[b] as int;
                assert(rows[j].barcode == b && rows[j].cells@.contains(c));
            }
            if sharing_among(rows, n, c).contains(b) {
                let j = choose|j: int|
                    0 <= j < n && (#[trigger] rows[j]).barcode == b && rows[j].cells@.contains(c);
                assert(self.index@[rows[j].barcode] == j);
            }
        }
        assert(sharing(self@, c) =~= sharing_among(rows, n, c));
    }

    /// For each common cell, the number of barcodes that have a weight for
    /// it.
    pub fn sharers(&self) -> (r: Vec<usize>)
        requires
            self.wf(),
        ensures
            r.len() == self.cells(),
            forall|c: u32|
                c < self.cells() ==> sharing(self@, c).finite() && r[c as int] == (
                #[trigger] sharing(self@, c)).len(),
    {
        let n: usize = self.num_cells as usize;
        let mut counts: Vec<usize> = Vec::new();
        let mut k: usize = 0;
        while k < n
            invariant
                k <= n,
                counts.len() == k,
                forall|c: int| 0 <= c < k ==> counts[c] == 0,
            decreases n - k,
        {
            counts.push(0);
            k += 1;
        }
        let rows = &self.rows;
        let mut i: usize = 0;
        assert(rows@.take(0) =~= Seq::<AnchorRow<W>>::empty());
        while i < rows.len()
            invariant
                i <= rows.len(),
                self.wf(),
                rows@ == self.rows@,
                n == self.num_cells,
                counts.len() == n,
                forall|c: u32| c < n ==> counts[c as int] == #[trigger] rows_with(
                    rows@.take(i as int),
                    c,
                ),
                forall|c: u32| c < n ==> #[trigger] rows_with(rows@.take(i as int), c) <= i,
            decreases rows.len() - i,
        {
            let row = &rows[i];
            assert(row.wf(self.num_cells));
            let mut j: usize = 0;
            while j < row.cells.len()
                invariant
                    j <= row.cells.len(),
                    i < rows.len(),
                    row.wf(self.num_cells),
                    n == self.num_cells,
                    counts.len() == n,
                    forall|c: u32|
                        c < n ==> counts[c as int] == (#[trigger] rows_with(
                            rows@.take(i as int),
                            c,
                        )) + if row.cells@.take(j as int).contains(c) {
                            1nat
                        } else {
                            0nat
                        },
                    forall|c: u32| c < n ==> #[trigger] rows_with(rows@.take(i as int), c) <= i,
                decreases row.cells.len() - j,
            {
                let cell: usize = row.cells[j] as usize;
                proof {
                    let cs = row.cells@;
                    let lo = cs.take(j as int);
                    let hi = cs.take(j + 1);
                    assert(cs[j as int] < n);
                    assert(rows_with(rows@.take(i as int), cs[j as int]) <= i);
                    assert(!lo.contains(cs[j as int])) by {
                        if lo.contains(cs[j as int]) {
                            let q = choose|q: int| 0 <= q < lo.len() && lo[q] == cs[j as int];
                            assert(cs[q] == cs[j as int]);
                        }
                    }
                    assert forall|c: u32| hi.contains(c) <==> (lo.contains(c) || c == cs[j as int]) by {
                        if hi.contains(c) {
                            let q = choose|q: int| 0 <= q < hi.len() && hi[q] == c;
                            if q < j {
                                assert(lo[q] == c);
                            }
                        }
                        if lo.contains(c) {
                            let q = choose|q: int| 0 <= q < lo.len() && lo[q] == c;
                            assert(hi[q] == c);
                        }
                        if c == cs[j as int] {
                            assert(hi[j as int] == c);
                        }
                    }
                }
                counts[cell] = counts[cell] + 1;
                j += 1;
            }
            proof {
                assert(row.cells@.take(row.cells@.len() as int) =~= row.cells@);
                assert(rows@.take(i + 1).drop_last() =~= rows@.take(i as int));
                assert(rows@.take(i + 1).last() == *row);
                assert forall|c: u32| c < n implies counts[c as int] == #[trigger] rows_with(
                    rows@.take(i + 1),
                    c,
                ) && rows_with(rows@.take(i + 1), c) <= i + 1 by {
                    assert(rows_with(rows@.take(i as int), c) <= i);
                }
            }
            i += 1;
        }
        proof {
            assert(rows@.take(rows@.len() as int) =~= rows@);
            assert forall|c: u32| c < self.cells() implies sharing(self@, c).finite()
                && counts[c as int] == (#[trigger] sharing(self@, c)).len() by {
                self.lemma_sharing_counted(c);
            }
        }
        counts
    }
}

} // verus!
