//! Which records of a cell overlap the window of a bin.
//!
//! The records of one cell in one assay are put into an interval tree, each
//! with its place in the cell's list as data. A query with a window gives
//! the places of the records that overlap it, each once. The tree is the
//! interval tree of the `bio` crate; what this module says of it is stated
//! on its three wrappers and is not proved here.
use crate::bins::Binning;
use crate::bins::window_end;
use crate::bins::window_start;
use crate::record::CellRecords;
use crate::record::RecordView;
use crate::record::views;
use bio::data_structures::interval_tree::IntervalTree;
use vstd::multiset::group_multiset_axioms;
use vstd::multiset::lemma_multiset_empty_len;
use vstd::multiset::Multiset;
use vstd::prelude::*;
use vstd::seq_lib::to_multiset_build;
use vstd::seq_lib::to_multiset_contains;
use vstd::seq_lib::to_multiset_len;

verus! {

/// The interval tree of `bio`, made known so that it can be held and handed
/// on. Nothing is said of what is inside it.
#[verifier::external_type_specification]
#[verifier::external_body]
#[verifier::reject_recursive_types(N)]
#[verifier::reject_recursive_types(D)]
pub struct ExIntervalTree<N: Ord + Clone, D>(IntervalTree<N, D>);

/// The entries of a tree, each as the first position of its interval, the
/// position after its last, and its data, with no order among them.
pub uninterp spec fn tree_entries(t: IntervalTree<u32, usize>) -> Multiset<(u32, u32, usize)>;

/// Two half-open ranges overlap: neither is empty, and each starts before
/// the other ends.
pub open spec fn intersects(start: u32, end: u32, lo: u32, hi: u32) -> bool {
    lo < hi && start < end && hi > start && lo < end
}

/// `IntervalTree::new` of `bio`: a tree without entries.
#[verifier::external_body]
fn tree_new() -> (t: IntervalTree<u32, usize>)
    ensures
        tree_entries(t) == Multiset::<(u32, u32, usize)>::empty(),
{
    IntervalTree::new()
}

/// `IntervalTree::insert` of `bio`: the tree gets one more entry, with the
/// interval `[start, end)` and the data `data`, and keeps those it had. The
/// crate refuses an interval that ends before it starts by a panic, so such
/// an interval is not admitted.
#[verifier::external_body]
fn tree_insert(t: &mut IntervalTree<u32, usize>, start: u32, end: u32, data: usize)
    requires
        start <= end,
    ensures
        tree_entries(*final(t)) == tree_entries(*old(t)).insert((start, end, data)),
{
    t.insert(start..end, data);
}

/// `IntervalTree::find` of `bio`: the entries of the tree whose interval
/// overlaps `[lo, hi)`, each once, in the order in which the tree is
/// walked. An entry with an empty interval overlaps nothing, and an empty
/// query finds nothing.
#[verifier::external_body]
fn tree_find(t: &IntervalTree<u32, usize>, lo: u32, hi: u32) -> (r: Vec<(u32, u32, usize)>)
    requires
        lo <= hi,
    ensures
        r@.to_multiset() == tree_entries(*t).filter(
            |e: (u32, u32, usize)| intersects(e.0, e.1, lo, hi),
        ),
{
    t.find(lo..hi).map(|e| (e.interval().start, e.interval().end, *e.data())).collect()
}

/// Why the records of a cell could not be indexed.
#[derive(Clone, Copy, Debug, PartialEq, Eq, Structural)]
pub enum OverlapError {
    /// A record ends before it starts.
    NegativeWidth,
}

/// The ranges of a list of records, place by place.
pub open spec fn ranges_of<R>(records: Seq<RecordView<R>>) -> Seq<(u32, u32)> {
    Seq::new(records.len(), |i: int| (records[i].start, records[i].end))
}

/// No range ends before it starts.
pub open spec fn widths_ok(ranges: Seq<(u32, u32)>) -> bool {
    forall|i: int| 0 <= i < ranges.len() ==> (#[trigger] ranges[i]).0 <= ranges[i].1
}

/// `list` names the ranges among `ranges` that overlap `[lo, hi)`: each
/// of them once, by its place, and nothing else.
pub open spec fn is_hit_list(list: Seq<usize>, ranges: Seq<(u32, u32)>, lo: u32, hi: u32) -> bool {
    &&& forall|k: int| 0 <= k < list.len() ==> (#[trigger] list[k]) < ranges.len()
    &&& forall|i: int|
        0 <= i < ranges.len() ==> #[trigger] list.to_multiset().count(i as usize) == if intersects(
            ranges[i].0,
            ranges[i].1,
            lo,
            hi,
        ) {
            1nat
        } else {
            0nat
        }
}

/// The ranges with their places, as a tree holds them.
pub open spec fn indexed(ranges: Seq<(u32, u32)>) -> Seq<(u32, u32, usize)> {
    Seq::new(ranges.len(), |i: int| (ranges[i].0, ranges[i].1, i as usize))
}

/// The records of one cell in one assay, ready for queries.
pub struct CellIndex {
    tree: IntervalTree<u32, usize>,
    ranges: Ghost<Seq<(u32, u32)>>,
}

impl View for CellIndex {
    type V = Seq<(u32, u32)>;

    closed spec fn view(&self) -> Seq<(u32, u32)> {
        self.ranges@
    }
}

proof fn lemma_indexed_count(ranges: Seq<(u32, u32)>, e: (u32, u32, usize))
    requires
        ranges.len() <= usize::MAX,
    ensures
        indexed(ranges).to_multiset().count(e) == if e.2 < ranges.len() && e.0
            == ranges[e.2 as int].0 && e.1 == ranges[e.2 as int].1 {
            1nat
        } else {
            0nat
        },
{
    broadcast use group_multiset_axioms;

    let s = indexed(ranges);
    assert(s.no_duplicates());
    s.lemma_multiset_has_no_duplicates();
    to_multiset_contains(s, e);
    if e.2 < ranges.len() && e.0 == ranges[e.2 as int].0 && e.1 == ranges[e.2 as int].1 {
        assert(s[e.2 as int] == e);
    } else {
        if s.contains(e) {
            let i = choose|i: int| 0 <= i < s.len() && s[i] == e;
            assert(false);
        }
    }
}

proof fn lemma_data_count(found: Seq<(u32, u32, usize)>, ranges: Seq<(u32, u32)>, i: int)
    requires
        0 <= i < ranges.len() <= usize::MAX,
        forall|k: int|
            0 <= k < found.len() ==> indexed(ranges).to_multiset().count(#[trigger] found[k]) > 0,
    ensures
        Seq::new(found.len(), |k: int| found[k].2).to_multiset().count(i as usize)
            == found.to_multiset().count((ranges[i].0, ranges[i].1, i as usize)),
    decreases found.len(),
{
    broadcast use group_multiset_axioms;

    let data = Seq::new(found.len(), |k: int| found[k].2);
    let e = (ranges[i].0, ranges[i].1, i as usize);
    if found.len() == 0 {
        to_multiset_len(data);
        to_multiset_len(found);
        lemma_multiset_empty_len(data.to_multiset());
        lemma_multiset_empty_len(found.to_multiset());
    } else {
        let head = found.drop_last();
        let last = found.last();
        lemma_data_count(head, ranges, i);
        let head_data = Seq::new(head.len(), |k: int| head[k].2);
        assert(data =~= head_data.push(last.2));
        assert(found =~= head.push(last));
        to_multiset_build(head_data, last.2);
        to_multiset_build(head, last);
        lemma_indexed_count(ranges, last);
        assert(indexed(ranges).to_multiset().count(found[found.len() - 1]) > 0);
    }
}

impl CellIndex {
    #[verifier::type_invariant]
    spec fn inv(self) -> bool {
        &&& tree_entries(self.tree) == indexed(self.ranges@).to_multiset()
        &&& self.ranges@.len() <= usize::MAX
    }

    /// Indexes the records of a cell. A record that ends before it starts
    /// cannot be put into the tree: the list is then refused.
    pub fn build<R: Copy>(records: &CellRecords<R>) -> (r: Result<CellIndex, OverlapError>)
        ensures
            !widths_ok(ranges_of(views(records@))) ==> r is Err && r->Err_0
                == OverlapError::NegativeWidth,
            widths_ok(ranges_of(views(records@))) ==> r is Ok && r->Ok_0@ == ranges_of(
                views(records@),
            ),
    {
        broadcast use group_multiset_axioms;

        let list = records.records();
        let ghost all = ranges_of(views(records@));
        let mut tree = tree_new();
        let mut i: usize = 0;
        proof {
            to_multiset_len(indexed(all.take(0)));
            lemma_multiset_empty_len(indexed(all.take(0)).to_multiset());
        }
        while i < list.len()
            invariant
                i <= list.len(),
                list@ == records@,
                all == ranges_of(views(records@)),
                widths_ok(all.take(i as int)),
                tree_entries(tree) == indexed(all.take(i as int)).to_multiset(),
            decreases list.len() - i,
        {
            let range = list[i].range();
            assert(all[i as int] == (range.start, range.end));
            if range.end < range.start {
                return Err(OverlapError::NegativeWidth);
            }
            tree_insert(&mut tree, range.start, range.end, i);
            proof {
                let before = indexed(all.take(i as int));
                let e = (range.start, range.end, i);
                assert(indexed(all.take(i + 1)) =~= before.push(e));
                to_multiset_build(before, e);
                assert forall|k: int| 0 <= k < i + 1 implies (#[trigger] all.take(i + 1)[k]).0
                    <= all.take(i + 1)[k].1 by {
                    if k < i {
                        assert(all.take(i as int)[k] == all[k]);
                    }
                }
            }
            i += 1;
        }
        assert(all.take(list@.len() as int) =~= all);
        Ok(CellIndex { tree, ranges: Ghost(all) })
    }

    /// The places of the records that overlap `[lo, hi)`.
    pub fn hits(&self, lo: u32, hi: u32) -> (r: Vec<usize>)
        requires
            lo <= hi,
        ensures
            is_hit_list(r@, self@, lo, hi),
    {
        broadcast use group_multiset_axioms;

        proof {
            use_type_invariant(self);
        }
        let found = tree_find(&self.tree, lo, hi);
        let ghost ranges = self.ranges@;
        let ghost pred = |e: (u32, u32, usize)| intersects(e.0, e.1, lo, hi);
        proof {
            assert forall|k: int| 0 <= k < found@.len() implies indexed(
                ranges,
            ).to_multiset().count(#[trigger] found@[k]) > 0 by {
                assert(found@.contains(found@[k]));
                to_multiset_contains(found@, found@[k]);
            }
        }
        let mut out: Vec<usize> = Vec::new();
        let mut k: usize = 0;
        while k < found.len()
            invariant
                k <= found.len(),
                out@ == Seq::new(k as nat, |x: int| found@[x].2),
            decreases found.len() - k,
        {
            out.push(found[k].2);
            assert(out@ =~= Seq::new((k + 1) as nat, |x: int| found@[x].2));
            k += 1;
        }
        proof {
            assert forall|x: int| 0 <= x < out@.len() implies (#[trigger] out@[x]) < ranges.len() by {
                lemma_indexed_count(ranges, found@[x]);
            }
            assert forall|i: int| 0 <= i < ranges.len() implies #[trigger] out@.to_multiset().count(
                i as usize,
            ) == if intersects(ranges[i].0, ranges[i].1, lo, hi) {
                1nat
            } else {
                0nat
            } by {
                let e = (ranges[i].0, ranges[i].1, i as usize);
                lemma_data_count(found@, ranges, i);
                lemma_indexed_count(ranges, e);
                assert(pred(e) == intersects(ranges[i].0, ranges[i].1, lo, hi));
            }
        }
        out
    }
}

/// Indexes the lists of one cell, one per assay.
pub fn index_cell<R: Copy>(cell_data: &Vec<&CellRecords<R>>) -> (r: Result<
    Vec<CellIndex>,
    OverlapError,
>)
    ensures
        match r {
            Ok(indexes) => {
                &&& indexes.len() == cell_data.len()
                &&& forall|a: int|
                    0 <= a < cell_data.len() ==> widths_ok(
                        ranges_of(views((#[trigger] cell_data[a])@)),
                    ) && indexes[a]@ == ranges_of(views(cell_data[a]@))
            },
            Err(e) => e == OverlapError::NegativeWidth && exists|a: int|
                0 <= a < cell_data.len() && !widths_ok(
                    ranges_of(views((#[trigger] cell_data[a])@)),
                ),
        },
{
    let mut indexes: Vec<CellIndex> = Vec::new();
    let mut a: usize = 0;
    while a < cell_data.len()
        invariant
            a <= cell_data.len(),
            indexes.len() == a,
            forall|x: int|
                0 <= x < a ==> widths_ok(ranges_of(views((#[trigger] cell_data[x])@)))
                    && indexes[x]@ == ranges_of(views(cell_data[x]@)),
        decreases cell_data.len() - a,
    {
        match CellIndex::build(cell_data[a]) {
            Err(e) => {
                return Err(e);
            },
            Ok(index) => {
                indexes.push(index);
            },
        }
        a += 1;
    }
    Ok(indexes)
}

/// For every bin of the chromosome and every assay, the places of the
/// cell's records that overlap the bin's window.
pub fn window_hits(indexes: &Vec<CellIndex>, binning: &Binning) -> (r: Vec<Vec<Vec<usize>>>)
    ensures
        r.len() == binning.bins(),
        forall|b: int|
            0 <= b < r.len() ==> (#[trigger] r[b]).len() == indexes.len() && forall|a: int|
                0 <= a < indexes.len() ==> is_hit_list(
                    (#[trigger] r[b][a])@,
                    indexes[a]@,
                    window_start(b as nat, binning.window()) as u32,
                    window_end(b as nat, binning.window()) as u32,
                ),
{
    let bins: usize = binning.num_bins();
    let mut all: Vec<Vec<Vec<usize>>> = Vec::new();
    let mut b: usize = 0;
    while b < bins
        invariant
            b <= bins,
            bins == binning.bins(),
            all.len() == b,
            forall|x: int|
                0 <= x < b ==> (#[trigger] all[x]).len() == indexes.len() && forall|a: int|
                    0 <= a < indexes.len() ==> is_hit_list(
                        (#[trigger] all[x][a])@,
                        indexes[a]@,
                        window_start(x as nat, binning.window()) as u32,
                        window_end(x as nat, binning.window()) as u32,
                    ),
        decreases bins - b,
    {
        let (lo, hi) = binning.window_of(b);
        let mut row: Vec<Vec<usize>> = Vec::new();
        let mut a: usize = 0;
        while a < indexes.len()
            invariant
                a <= indexes.len(),
                row.len() == a,
                lo <= hi,
                forall|x: int|
                    0 <= x < a ==> is_hit_list((#[trigger] row[x])@, indexes[x]@, lo, hi),
            decreases indexes.len() - a,
        {
            row.push(indexes[a].hits(lo, hi));
            a += 1;
        }
        all.push(row);
        b += 1;
    }
    all
}

/// The payloads of the records at `places`, place by place.
pub fn payloads<R: Copy>(records: &CellRecords<R>, places: &Vec<usize>) -> (r: Vec<R>)
    requires
        forall|k: int| 0 <= k < places.len() ==> (#[trigger] places[k]) < records@.len(),
    ensures
        r.len() == places.len(),
        forall|k: int| 0 <= k < places.len() ==> (#[trigger] r[k]) == records@[places[k] as int]@.id,
{
    let list = records.records();
    let mut out: Vec<R> = Vec::new();
    let mut k: usize = 0;
    while k < places.len()
        invariant
            k <= places.len(),
            list@ == records@,
            out.len() == k,
            forall|x: int| 0 <= x < places.len() ==> (#[trigger] places[x]) < records@.len(),
            forall|x: int| 0 <= x < k ==> (#[trigger] out[x]) == records@[places[x] as int]@.id,
        decreases places.len() - k,
    {
        out.push(list[places[k]].id());
        k += 1;
    }
    out
}

/// Where no range overlaps the window, the hit list is empty.
pub proof fn lemma_no_overlap_no_hits(list: Seq<usize>, ranges: Seq<(u32, u32)>, lo: u32, hi: u32)
    requires
        is_hit_list(list, ranges, lo, hi),
        forall|i: int|
            0 <= i < ranges.len() ==> !intersects((#[trigger] ranges[i]).0, ranges[i].1, lo, hi),
    ensures
        list.len() == 0,
{
    broadcast use group_multiset_axioms;

    if list.len() > 0 {
        let i = list[0];
        assert(list.contains(i));
        to_multiset_contains(list, i);
        assert(list.to_multiset().count(i as int as usize) > 0);
    }
}

} // verus!
