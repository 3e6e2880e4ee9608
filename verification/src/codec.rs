//! The binary cell file, and its regrouping by state.
//!
//! A cell file holds the retained posterior entries of one cell on one
//! chromosome: three little-endian 32-bit counts, then the quantised
//! probabilities, the states and the bin indices, each array in full before
//! the next.
use vstd::multiset::group_multiset_axioms;
use vstd::prelude::*;
use vstd::seq_lib::lemma_multiset_commutative;
use vstd::seq_lib::to_multiset_contains;
use vstd::seq_lib::to_multiset_len;
use vstd::seq_lib::to_multiset_remove;

verus! {

/// One retained posterior entry: the bin, the state, and the probability in
/// hundredths.
#[derive(Clone, Copy, Debug, PartialEq, Eq, Structural)]
pub struct Triplet {
    pub bin: u32,
    pub state: u8,
    pub prob: u8,
}

impl Triplet {
    /// An entry from a bin and a state as the engine counts them, or
    /// nothing where the bin does not fit the 32 bits, or the state the 8
    /// bits, that the cell file gives them.
    pub fn from_parts(bin: usize, state: usize, prob: u8) -> (r: Option<Triplet>)
        ensures
            bin <= u32::MAX && state <= u8::MAX ==> r == Some(
                Triplet { bin: bin as u32, state: state as u8, prob },
            ),
            bin > u32::MAX || state > u8::MAX ==> r is None,
    {
        if bin > 0xffff_ffff || state > 0xff {
            None
        } else {
            Some(Triplet { bin: bin as u32, state: state as u8, prob })
        }
    }
}

/// Why a cell file could not be written, read or regrouped.
#[derive(Clone, Copy, Debug, PartialEq, Eq, Structural)]
pub enum CodecError {
    /// More entries than a 32-bit count can hold.
    TooManyEntries,
    /// The bytes end before the arrays that the header announces.
    Truncated,
    /// An entry names a state that the table has no column for.
    StateOutOfRange,
    /// A cell brings another number of columns than the table has states.
    ShapeMismatch,
}

/// The four bytes of a 32-bit word, the lowest first.
pub open spec fn le_bytes(x: u32) -> Seq<u8> {
    seq![
        (x % 256) as u8,
        ((x / 256) % 256) as u8,
        ((x / 65536) % 256) as u8,
        (x / 16777216) as u8,
    ]
}

/// The 32-bit word that four bytes write, the lowest first.
pub open spec fn le_word(b: Seq<u8>) -> u32 {
    (b[0] + 256 * b[1] + 65536 * b[2] + 16777216 * b[3]) as u32
}

/// A word is read back from its bytes.
pub proof fn lemma_word_of_bytes(x: u32)
    ensures
        le_bytes(x).len() == 4,
        le_word(le_bytes(x)) == x,
{
    assert(x == (x % 256) + 256 * ((x / 256) % 256) + 65536 * ((x / 65536) % 256) + 16777216 * (x
        / 16777216)) by (bit_vector);
    assert(x % 256 < 256 && (x / 256) % 256 < 256 && (x / 65536) % 256 < 256 && x / 16777216 < 256)
        by (bit_vector);
}

/// Four bytes are read back from their word.
pub proof fn lemma_bytes_of_word(b: Seq<u8>)
    requires
        b.len() == 4,
    ensures
        le_bytes(le_word(b)) =~= b,
{
    let b0 = b[0];
    let b1 = b[1];
    let b2 = b[2];
    let b3 = b[3];
    let w: u32 = (b0 + 256 * b1 + 65536 * b2 + 16777216 * b3) as u32;
    assert(w == b0 as u32 + 256 * (b1 as u32) + 65536 * (b2 as u32) + 16777216 * (b3 as u32));
    assert(w % 256 == b0 as u32 && (w / 256) % 256 == b1 as u32 && (w / 65536) % 256 == b2 as u32
        && w / 16777216 == b3 as u32) by (bit_vector)
        requires
            w == b0 as u32 + 256 * (b1 as u32) + 65536 * (b2 as u32) + 16777216 * (b3 as u32),
    ;
}

fn push_word(out: &mut Vec<u8>, x: u32)
    ensures
        final(out)@ == old(out)@ + le_bytes(x),
{
    out.push((x % 256) as u8);
    out.push(((x / 256) % 256) as u8);
    out.push(((x / 65536) % 256) as u8);
    out.push((x / 16777216) as u8);
    assert(out@ =~= old(out)@ + le_bytes(x));
}

fn read_word(bytes: &[u8], at: usize) -> (r: u32)
    requires
        at + 4 <= bytes@.len(),
    ensures
        r == le_word(bytes@.subrange(at as int, at + 4)),
{
    let b0: u32 = bytes[at] as u32;
    let b1: u32 = bytes[at + 1] as u32;
    let b2: u32 = bytes[at + 2] as u32;
    let b3: u32 = bytes[at + 3] as u32;
    b0 + 256 * b1 + 65536 * b2 + 16777216 * b3
}

/// The little-endian bytes of a sequence of 32-bit words, four per word.
pub open spec fn words(v: Seq<u32>) -> Seq<u8> {
    Seq::new((4 * v.len()) as nat, |k: int| le_bytes(v[k / 4])[k % 4])
}

/// The probabilities of the entries, entry by entry.
pub open spec fn probs_of(t: Seq<Triplet>) -> Seq<u8> {
    Seq::new(t.len(), |i: int| t[i].prob)
}

/// The states of the entries, entry by entry.
pub open spec fn states_of(t: Seq<Triplet>) -> Seq<u8> {
    Seq::new(t.len(), |i: int| t[i].state)
}

/// The bins of the entries, entry by entry.
pub open spec fn bins_of(t: Seq<Triplet>) -> Seq<u32> {
    Seq::new(t.len(), |i: int| t[i].bin)
}

/// The bytes of the cell file that holds `t`, for a chromosome of `num_bins`
/// bins and a model of `num_states` states.
pub open spec fn cell_bytes(t: Seq<Triplet>, num_bins: u32, num_states: u32) -> Seq<u8> {
    le_bytes(t.len() as u32) + le_bytes(num_bins) + le_bytes(
        num_states,
    ) + probs_of(t) + states_of(t) + words(bins_of(t))
}

/// One more word adds its four bytes at the end.
pub proof fn lemma_words_push(v: Seq<u32>, x: u32)
    ensures
        words(v.push(x)) =~= words(v) + le_bytes(x),
{
    let a = words(v.push(x));
    let b = words(v) + le_bytes(x);
    assert(a.len() == b.len());
    assert forall|k: int| 0 <= k < a.len() implies a[k] == b[k] by {
        if k < 4 * v.len() {
            assert(k / 4 < v.len());
            assert(v.push(x)[k / 4] == v[k / 4]);
        } else {
            assert(k / 4 == v.len());
            assert(k % 4 == k - 4 * v.len());
        }
    }
}

/// Writes the cell file for `triplets`.
pub fn encode_cell(triplets: &Vec<Triplet>, num_bins: u32, num_states: u32) -> (r: Result<
    Vec<u8>,
    CodecError,
>)
    ensures
        triplets.len() > u32::MAX ==> r == Err::<Vec<u8>, CodecError>(CodecError::TooManyEntries),
        triplets.len() <= u32::MAX ==> r is Ok && r->Ok_0@ == cell_bytes(
            triplets@,
            num_bins,
            num_states,
        ),
{
    let n: usize = triplets.len();
    if n > 0xffff_ffff {
        return Err(CodecError::TooManyEntries);
    }
    let ghost t = triplets@;
    let mut out: Vec<u8> = Vec::new();
    push_word(&mut out, n as u32);
    push_word(&mut out, num_bins);
    push_word(&mut out, num_states);
    assert(out@ =~= le_bytes(n as u32) + le_bytes(num_bins) + le_bytes(num_states));
    let ghost head = out@;
    let mut i: usize = 0;
    while i < n
        invariant
            i <= n,
            n == t.len(),
            t == triplets@,
            out@ == head + probs_of(t.take(i as int)),
        decreases n - i,
    {
        out.push(triplets[i].prob);
        assert(probs_of(t.take(i as int)).push(t[i as int].prob) =~= probs_of(t.take(i + 1)));
        i += 1;
    }
    assert(t.take(n as int) =~= t);
    let ghost head = out@;
    let mut i: usize = 0;
    while i < n
        invariant
            i <= n,
            n == t.len(),
            t == triplets@,
            out@ == head + states_of(t.take(i as int)),
        decreases n - i,
    {
        out.push(triplets[i].state);
        assert(states_of(t.take(i as int)).push(t[i as int].state) =~= states_of(t.take(i + 1)));
        i += 1;
    }
    assert(t.take(n as int) =~= t);
    let ghost head = out@;
    let mut i: usize = 0;
    while i < n
        invariant
            i <= n,
            n == t.len(),
            t == triplets@,
            out@ == head + words(bins_of(t.take(i as int))),
        decreases n - i,
    {
        push_word(&mut out, triplets[i].bin);
        proof {
            lemma_words_push(bins_of(t.take(i as int)), t[i as int].bin);
            assert(bins_of(t.take(i as int)).push(t[i as int].bin) =~= bins_of(t.take(i + 1)));
        }
        i += 1;
    }
    assert(t.take(n as int) =~= t);
    Ok(out)
}

/// What a cell file holds once it is read back.
#[derive(Debug, PartialEq, Eq)]
pub struct CellFile {
    pub num_bins: u32,
    pub num_states: u32,
    pub triplets: Vec<Triplet>,
}

/// The 32-bit little-endian word that starts at byte `at`.
pub open spec fn word_at(b: Seq<u8>, at: int) -> u32 {
    le_word(b.subrange(at, at + 4))
}

/// The number of entries that the header of `b` announces.
pub open spec fn announced(b: Seq<u8>) -> int {
    word_at(b, 0) as int
}

/// `b` is long enough for its header and for the three arrays that the
/// header announces. Bytes after the arrays are not looked at.
pub open spec fn is_cell_file(b: Seq<u8>) -> bool {
    b.len() >= 12 && b.len() >= 12 + 6 * announced(b)
}

/// The `i`-th entry of the cell file `b`.
pub open spec fn entry_at(b: Seq<u8>, i: int) -> Triplet {
    let n = announced(b);
    Triplet { bin: word_at(b, 12 + 2 * n + 4 * i), state: b[12 + n + i], prob: b[12 + i] }
}

/// The entries of the cell file `b`, in file order.
pub open spec fn entries(b: Seq<u8>) -> Seq<Triplet> {
    Seq::new(announced(b) as nat, |i: int| entry_at(b, i))
}

/// Reads a cell file.
pub fn decode_cell(bytes: &[u8]) -> (r: Result<CellFile, CodecError>)
    ensures
        !is_cell_file(bytes@) ==> r == Err::<CellFile, CodecError>(CodecError::Truncated),
        is_cell_file(bytes@) ==> r is Ok && r->Ok_0.num_bins == word_at(bytes@, 4)
            && r->Ok_0.num_states == word_at(bytes@, 8) && r->Ok_0.triplets@ == entries(bytes@),
{
    let len: usize = bytes.len();
    if len < 12 {
        return Err(CodecError::Truncated);
    }
    let nnz: u32 = read_word(bytes, 0);
    let num_bins: u32 = read_word(bytes, 4);
    let num_states: u32 = read_word(bytes, 8);
    let need: u64 = 12 + 6 * (nnz as u64);
    if (len as u64) < need {
        return Err(CodecError::Truncated);
    }
    let n: usize = nnz as usize;
    let mut triplets: Vec<Triplet> = Vec::new();
    let mut i: usize = 0;
    while i < n
        invariant
            i <= n,
            n == announced(bytes@),
            len == bytes@.len(),
            len >= 12 + 6 * n,
            triplets@ == entries(bytes@).take(i as int),
        decreases n - i,
    {
        let at: usize = 12 + 2 * n + 4 * i;
        let bin: u32 = read_word(bytes, at);
        let entry = Triplet { bin, state: bytes[12 + n + i], prob: bytes[12 + i] };
        triplets.push(entry);
        assert(entries(bytes@).take(i as int).push(entry) =~= entries(bytes@).take(i + 1));
        i += 1;
    }
    assert(entries(bytes@).take(n as int) =~= entries(bytes@));
    Ok(CellFile { num_bins, num_states, triplets })
}

/// Reading back what was written gives the same counts and the same entries
/// in the same order.
pub proof fn lemma_cell_round_trip(t: Seq<Triplet>, num_bins: u32, num_states: u32)
    requires
        t.len() <= u32::MAX,
    ensures
        is_cell_file(cell_bytes(t, num_bins, num_states)),
        announced(cell_bytes(t, num_bins, num_states)) == t.len(),
        word_at(cell_bytes(t, num_bins, num_states), 4) == num_bins,
        word_at(cell_bytes(t, num_bins, num_states), 8) == num_states,
        entries(cell_bytes(t, num_bins, num_states)) == t,
{
    let b = cell_bytes(t, num_bins, num_states);
    let n = t.len() as int;
    lemma_word_of_bytes(t.len() as u32);
    lemma_word_of_bytes(num_bins);
    lemma_word_of_bytes(num_states);
    assert(b.len() == 12 + 6 * n);
    assert(b.subrange(0, 4) =~= le_bytes(t.len() as u32));
    assert(b.subrange(4, 8) =~= le_bytes(num_bins));
    assert(b.subrange(8, 12) =~= le_bytes(num_states));
    assert(announced(b) == n);
    assert forall|i: int| 0 <= i < n implies entry_at(b, i) == t[i] by {
        let at = 12 + 2 * n + 4 * i;
        let w = words(bins_of(t));
        lemma_word_of_bytes(t[i].bin);
        assert forall|k: int| 0 <= k < 4 implies b.subrange(at, at + 4)[k] == le_bytes(
            t[i].bin,
        )[k] by {
            assert(b[at + k] == w[4 * i + k]);
            assert((4 * i + k) / 4 == i);
            assert((4 * i + k) % 4 == k);
        }
        assert(b.subrange(at, at + 4) =~= le_bytes(t[i].bin));
        assert(b[12 + n + i] == states_of(t)[i]);
        assert(b[12 + i] == probs_of(t)[i]);
    }
    assert(entries(b) =~= t);
}

/// The entries of `t` that are in state `s`, last entry of the file first.
pub open spec fn column_of(t: Seq<Triplet>, s: int) -> Seq<Triplet> {
    t.reverse().filter(|e: Triplet| e.state == s)
}

/// Every entry of `t` names a state below `num_states`.
pub open spec fn states_below(t: Seq<Triplet>, num_states: int) -> bool {
    forall|i: int| 0 <= i < t.len() ==> (#[trigger] t[i]).state < num_states
}

/// Splits the entries of one cell into one column per state. Within a column
/// the entries stand in the reverse of their order in the file.
pub fn split_by_state(triplets: &Vec<Triplet>, num_states: usize) -> (r: Result<
    Vec<Vec<Triplet>>,
    CodecError,
>)
    ensures
        !states_below(triplets@, num_states as int) ==> r == Err::<Vec<Vec<Triplet>>, CodecError>(
            CodecError::StateOutOfRange,
        ),
        states_below(triplets@, num_states as int) ==> r is Ok && r->Ok_0.len() == num_states
            && forall|s: int|
            0 <= s < num_states ==> (#[trigger] r->Ok_0[s])@ == column_of(triplets@, s),
{
    let n: usize = triplets.len();
    let ghost t = triplets@;
    let mut k: usize = 0;
    while k < n
        invariant
            k <= n,
            n == t.len(),
            t == triplets@,
            states_below(t.take(k as int), num_states as int),
        decreases n - k,
    {
        if triplets[k].state as usize >= num_states {
            return Err(CodecError::StateOutOfRange);
        }
        k += 1;
    }
    assert(t.take(n as int) =~= t);
    let mut columns: Vec<Vec<Triplet>> = Vec::new();
    let mut c: usize = 0;
    while c < num_states
        invariant
            c <= num_states,
            columns.len() == c,
            forall|s: int| 0 <= s < c ==> (#[trigger] columns[s])@ == Seq::<Triplet>::empty(),
        decreases num_states - c,
    {
        columns.push(Vec::new());
        c += 1;
    }
    let mut i: usize = n;
    assert(t.subrange(n as int, n as int).reverse() =~= Seq::<Triplet>::empty());
    while i > 0
        invariant
            i <= n,
            n == t.len(),
            t == triplets@,
            states_below(t, num_states as int),
            columns.len() == num_states,
            forall|s: int|
                0 <= s < num_states ==> (#[trigger] columns[s])@ == column_of(
                    t.subrange(i as int, n as int),
                    s,
                ),
        decreases i,
    {
        i -= 1;
        let entry = triplets[i];
        let s: usize = entry.state as usize;
        let ghost before = columns@;
        columns[s].push(entry);
        proof {
            let done = t.subrange(i + 1, n as int).reverse();
            assert(t.subrange(i as int, n as int).reverse() =~= done.push(entry));
            assert forall|x: int| 0 <= x < num_states implies (#[trigger] columns[x])@
                == column_of(t.subrange(i as int, n as int), x) by {
                let pred = |e: Triplet| e.state == x;
                Seq::lemma_filter_push(done, entry, pred);
                if x == s {
                    assert(columns[x]@ == before[x]@.push(entry));
                } else {
                    assert(columns[x]@ == before[x]@);
                }
            }
        }
    }
    assert(t.subrange(0, n as int) =~= t);
    Ok(columns)
}

/// What has been gathered for one state: the entries of every cell so far,
/// cell after cell, and the running totals, one per cell, after a leading 0.
pub struct StateColumn {
    entries: Vec<Triplet>,
    offsets: Vec<u32>,
}

/// The regrouping of a chromosome's cell files by state.
pub struct StateTable {
    columns: Vec<StateColumn>,
    cells: usize,
}

/// The bytes of the consolidated file of one state.
pub open spec fn state_bytes(num_bins: u32, offsets: Seq<u32>, entries: Seq<Triplet>) -> Seq<u8> {
    le_bytes(num_bins) + le_bytes(offsets.len() as u32) + words(offsets)
        + probs_of(entries) + words(bins_of(entries))
}

impl StateTable {
    /// The number of states of the table.
    pub closed spec fn num_states(&self) -> nat {
        self.columns.len() as nat
    }

    /// The number of cells gathered so far.
    pub closed spec fn cells(&self) -> nat {
        self.cells as nat
    }

    /// The entries gathered for state `s`.
    pub closed spec fn column(&self, s: int) -> Seq<Triplet> {
        self.columns[s].entries@
    }

    /// The running totals of state `s`.
    pub closed spec fn offsets(&self, s: int) -> Seq<u32> {
        self.columns[s].offsets@
    }

    /// Each state has one running total per cell after a leading 0, they
    /// never fall, and the last one counts the state's entries.
    pub open spec fn wf(&self) -> bool {
        &&& self.cells() + 1 <= u32::MAX
        &&& forall|s: int|
            0 <= s < self.num_states() ==> {
                &&& (#[trigger] self.offsets(s)).len() == self.cells() + 1
                &&& self.offsets(s)[0] == 0
                &&& self.offsets(s)[self.cells() as int] == self.column(s).len()
            }
    }

    /// `cell` can be added: it has one column per state, and no count leaves
    /// the 32 bits that the file gives it.
    pub open spec fn admits(&self, cell: Seq<Vec<Triplet>>) -> bool {
        &&& cell.len() == self.num_states()
        &&& self.cells() + 2 <= u32::MAX
        &&& forall|s: int|
            0 <= s < self.num_states() ==> self.column(s).len() + (#[trigger] cell[s]).len()
                <= u32::MAX
    }

    /// An empty table for `num_states` states.
    pub fn new(num_states: usize) -> (r: StateTable)
        ensures
            r.wf(),
            r.num_states() == num_states,
            r.cells() == 0,
            forall|s: int|
                0 <= s < num_states ==> (#[trigger] r.column(s)) == Seq::<Triplet>::empty()
                    && r.offsets(s) == seq![0u32],
    {
        let mut columns: Vec<StateColumn> = Vec::new();
        let mut c: usize = 0;
        while c < num_states
            invariant
                c <= num_states,
                columns.len() == c,
                forall|s: int|
                    0 <= s < c ==> (#[trigger] columns[s]).entries@ == Seq::<Triplet>::empty()
                        && columns[s].offsets@ == seq![0u32],
            decreases num_states - c,
        {
            let mut offsets: Vec<u32> = Vec::new();
            offsets.push(0);
            assert(offsets@ =~= seq![0u32]);
            columns.push(StateColumn { entries: Vec::new(), offsets });
            c += 1;
        }
        StateTable { columns, cells: 0 }
    }

    /// The number of states of the table.
    pub fn state_count(&self) -> (r: usize)
        ensures
            r == self.num_states(),
    {
        self.columns.len()
    }

    /// The number of cells gathered so far.
    pub fn cell_count(&self) -> (r: usize)
        ensures
            r == self.cells(),
    {
        self.cells
    }

    /// Adds the columns of one more cell, as `split_by_state` gives them.
    /// A cell of the wrong shape, or one that would carry a count past 32
    /// bits, is refused and leaves the table as it was.
    pub fn append_cell(&mut self, cell: &Vec<Vec<Triplet>>) -> (r: Result<(), CodecError>)
        requires
            old(self).wf(),
        ensures
            final(self).wf(),
            final(self).num_states() == old(self).num_states(),
            old(self).admits(cell@) ==> r is Ok && final(self).cells() == old(self).cells() + 1
                && forall|s: int|
                0 <= s < old(self).num_states() ==> (#[trigger] final(self).column(s)) == old(
                    self,
                ).column(s) + cell[s]@ && final(self).offsets(s) == old(self).offsets(s).push(
                    (old(self).column(s).len() + cell[s].len()) as u32,
                ),
            !old(self).admits(cell@) ==> r is Err && *final(self) == *old(self),
            cell.len() != old(self).num_states() ==> r == Err::<(), CodecError>(
                CodecError::ShapeMismatch,
            ),
            cell.len() == old(self).num_states() && !old(self).admits(cell@) ==> r == Err::<
                (),
                CodecError,
            >(CodecError::TooManyEntries),
    {
        let n: usize = self.columns.len();
        if cell.len() != n {
            return Err(CodecError::ShapeMismatch);
        }
        if self.cells > 0xffff_fffd {
            return Err(CodecError::TooManyEntries);
        }
        let mut k: usize = 0;
        while k < n
            invariant
                k <= n,
                n == self.columns.len(),
                cell.len() == n,
                *self == *old(self),
                self.wf(),
                self.cells() + 2 <= u32::MAX,
                forall|s: int|
                    0 <= s < k ==> self.column(s).len() + (#[trigger] cell[s]).len() <= u32::MAX,
            decreases n - k,
        {
            let have: usize = self.columns[k].entries.len();
            let more: usize = cell[k].len();
            if more > 0xffff_ffff || have > 0xffff_ffff - more {
                return Err(CodecError::TooManyEntries);
            }
            k += 1;
        }
        let ghost before = *self;
        let mut s: usize = 0;
        while s < n
            invariant
                s <= n,
                n == self.columns.len(),
                cell.len() == n,
                before == *old(self),
                before.wf(),
                before.admits(cell@),
                self.cells == before.cells,
                before.columns.len() == n,
                forall|x: int|
                    0 <= x < s ==> (#[trigger] self.columns[x]).entries@
                        == before.columns[x].entries@ + cell[x]@ && self.columns[x].offsets@
                        == before.columns[x].offsets@.push(
                        (before.columns[x].entries@.len() + cell[x].len()) as u32,
                    ),
                forall|x: int| s <= x < n ==> (#[trigger] self.columns[x]) == before.columns[x],
            decreases n - s,
        {
            let m: usize = cell[s].len();
            let ghost was = self.columns@;
            assert(before.column(s as int).len() + cell[s as int].len() <= u32::MAX);
            let mut j: usize = 0;
            while j < m
                invariant
                    j <= m,
                    s < n,
                    n == self.columns.len(),
                    cell.len() == n,
                    m == cell[s as int].len(),
                    was.len() == n,
                    self.cells == before.cells,
                    self.columns[s as int].offsets == was[s as int].offsets,
                    self.columns[s as int].entries@ == was[s as int].entries@ + cell[s as int]@.take(
                        j as int,
                    ),
                    forall|x: int|
                        0 <= x < n && x != s ==> (#[trigger] self.columns[x]) == was[x],
                decreases m - j,
            {
                let e = cell[s][j];
                self.columns[s].entries.push(e);
                assert(cell[s as int]@.take(j as int).push(e) =~= cell[s as int]@.take(j + 1));
                assert(self.columns[s as int].entries@ =~= was[s as int].entries@
                    + cell[s as int]@.take(j + 1));
                j += 1;
            }
            assert(cell[s as int]@.take(m as int) =~= cell[s as int]@);
            let total: usize = self.columns[s].entries.len();
            self.columns[s].offsets.push(total as u32);
            s += 1;
        }
        self.cells = self.cells + 1;
        proof {
            assert forall|x: int| 0 <= x < self.num_states() implies {
                &&& (#[trigger] self.offsets(x)).len() == self.cells() + 1
                &&& self.offsets(x)[0] == 0
                &&& self.offsets(x)[self.cells() as int] == self.column(x).len()
            } by {
                assert(before.offsets(x).len() == before.cells() + 1);
                assert(before.offsets(x)[0] == 0);
            }
        }
        Ok(())
    }

    /// The consolidated file of state `s`, or nothing where no cell has an
    /// entry in that state.
    pub fn encode_state(&self, s: usize, num_bins: u32) -> (r: Option<Vec<u8>>)
        requires
            self.wf(),
            s < self.num_states(),
        ensures
            self.column(s as int).len() == 0 ==> r is None,
            self.column(s as int).len() > 0 ==> r is Some && r->Some_0@ == state_bytes(
                num_bins,
                self.offsets(s as int),
                self.column(s as int),
            ),
    {
        let col = &self.columns[s];
        let n: usize = col.entries.len();
        if n == 0 {
            return None;
        }
        let ghost t = col.entries@;
        let ghost off = col.offsets@;
        let cnt: usize = col.offsets.len();
        assert(self.offsets(s as int).len() == self.cells() + 1);
        let mut out: Vec<u8> = Vec::new();
        push_word(&mut out, num_bins);
        push_word(&mut out, cnt as u32);
        assert(out@ =~= le_bytes(num_bins) + le_bytes(cnt as u32));
        let ghost head = out@;
        let mut i: usize = 0;
        while i < cnt
            invariant
                i <= cnt,
                cnt == off.len(),
                off == col.offsets@,
                out@ == head + words(off.take(i as int)),
            decreases cnt - i,
        {
            push_word(&mut out, col.offsets[i]);
            proof {
                lemma_words_push(off.take(i as int), off[i as int]);
                assert(off.take(i as int).push(off[i as int]) =~= off.take(i + 1));
            }
            i += 1;
        }
        assert(off.take(cnt as int) =~= off);
        let ghost head = out@;
        let mut i: usize = 0;
        while i < n
            invariant
                i <= n,
                n == t.len(),
                t == col.entries@,
                out@ == head + probs_of(t.take(i as int)),
            decreases n - i,
        {
            out.push(col.entries[i].prob);
            assert(probs_of(t.take(i as int)).push(t[i as int].prob) =~= probs_of(t.take(i + 1)));
            i += 1;
        }
        assert(t.take(n as int) =~= t);
        let ghost head = out@;
        let mut i: usize = 0;
        while i < n
            invariant
                i <= n,
                n == t.len(),
                t == col.entries@,
                out@ == head + words(bins_of(t.take(i as int))),
            decreases n - i,
        {
            push_word(&mut out, col.entries[i].bin);
            proof {
                lemma_words_push(bins_of(t.take(i as int)), t[i as int].bin);
                assert(bins_of(t.take(i as int)).push(t[i as int].bin) =~= bins_of(t.take(i + 1)));
            }
            i += 1;
        }
        assert(t.take(n as int) =~= t);
        Some(out)
    }
}

/// The entries that state `s` holds once the cells of `cells` have been
/// added one after the other.
pub open spec fn gathered(cells: Seq<Vec<Vec<Triplet>>>, s: int) -> Seq<Triplet>
    decreases cells.len(),
{
    if cells.len() == 0 {
        Seq::empty()
    } else {
        gathered(cells.drop_last(), s) + cells.last()[s]@
    }
}

/// The running totals of state `s` over `cells`: entry `c` counts what the
/// first `c` cells hold in that state.
pub open spec fn running_totals(cells: Seq<Vec<Vec<Triplet>>>, s: int) -> Seq<u32> {
    Seq::new((cells.len() + 1) as nat, |c: int| gathered(cells.take(c), s).len() as u32)
}

/// The number of entries that each cell holds in state `s`, cell by cell.
pub open spec fn cell_counts(cells: Seq<Vec<Vec<Triplet>>>, s: int) -> Seq<nat> {
    Seq::new(cells.len(), |c: int| cells[c][s]@.len())
}

/// Every cell has one column per state.
pub open spec fn rectangular(cells: Seq<Vec<Vec<Triplet>>>, num_states: int) -> bool {
    forall|c: int| 0 <= c < cells.len() ==> (#[trigger] cells[c]).len() == num_states
}

/// No count of the regrouping of `cells` leaves 32 bits.
pub open spec fn countable(cells: Seq<Vec<Vec<Triplet>>>, num_states: int) -> bool {
    &&& cells.len() + 1 <= u32::MAX
    &&& forall|s: int| 0 <= s < num_states ==> (#[trigger] gathered(cells, s)).len() <= u32::MAX
}

/// A state never holds fewer entries after more cells.
pub proof fn lemma_gathered_grows(cells: Seq<Vec<Vec<Triplet>>>, c: int, s: int)
    requires
        0 <= c <= cells.len(),
    ensures
        gathered(cells.take(c), s).len() <= gathered(cells, s).len(),
    decreases cells.len() - c,
{
    if c == cells.len() {
        assert(cells.take(c) =~= cells);
    } else {
        lemma_gathered_grows(cells, c + 1, s);
        assert(cells.take(c + 1).drop_last() =~= cells.take(c));
    }
}

/// Regroups the columns of all the cells of a chromosome, in the order of
/// `cells`.
pub fn regroup(cells: &Vec<Vec<Vec<Triplet>>>, num_states: usize) -> (r: Result<
    StateTable,
    CodecError,
>)
    ensures
        !rectangular(cells@, num_states as int) ==> r == Err::<StateTable, CodecError>(
            CodecError::ShapeMismatch,
        ),
        rectangular(cells@, num_states as int) && !countable(cells@, num_states as int) ==> r
            == Err::<StateTable, CodecError>(CodecError::TooManyEntries),
        rectangular(cells@, num_states as int) && countable(cells@, num_states as int) ==> r is Ok
            && r->Ok_0.wf() && r->Ok_0.num_states() == num_states && r->Ok_0.cells() == cells.len()
            && forall|s: int|
            0 <= s < num_states ==> (#[trigger] r->Ok_0.column(s)) == gathered(cells@, s)
                && r->Ok_0.offsets(s) == running_totals(cells@, s),
{
    let n: usize = cells.len();
    let mut k: usize = 0;
    while k < n
        invariant
            k <= n,
            n == cells.len(),
            rectangular(cells@.take(k as int), num_states as int),
        decreases n - k,
    {
        if cells[k].len() != num_states {
            return Err(CodecError::ShapeMismatch);
        }
        assert forall|c: int| 0 <= c < k + 1 implies (#[trigger] cells@.take(k + 1)[c]).len()
            == num_states by {
            if c < k {
                assert(cells@.take(k as int)[c] == cells@[c]);
            }
        }
        k += 1;
    }
    assert(cells@.take(n as int) =~= cells@);
    let mut table = StateTable::new(num_states);
    assert forall|s: int| 0 <= s < num_states implies (#[trigger] table.column(s)) == gathered(
        cells@.take(0),
        s,
    ) && table.offsets(s) == running_totals(cells@.take(0), s) by {
        assert(running_totals(cells@.take(0), s) =~= seq![0u32]) by {
            assert(cells@.take(0).take(0) =~= cells@.take(0));
        }
    }
    let mut c: usize = 0;
    while c < n
        invariant
            c <= n,
            n == cells.len(),
            rectangular(cells@, num_states as int),
            table.wf(),
            table.num_states() == num_states,
            table.cells() == c,
            forall|s: int|
                0 <= s < num_states ==> (#[trigger] table.column(s)) == gathered(
                    cells@.take(c as int),
                    s,
                ) && table.offsets(s) == running_totals(cells@.take(c as int), s),
        decreases n - c,
    {
        let ghost done = cells@.take(c as int);
        let ghost next = cells@.take(c + 1);
        let ghost was = table;
        assert(next.drop_last() =~= done);
        assert(next.last() == cells@[c as int]);
        let step = table.append_cell(&cells[c]);
        if step.is_err() {
            proof {
                assert(!was.admits(cells@[c as int]@));
                if was.cells() + 2 <= u32::MAX {
                    let s = choose|s: int|
                        0 <= s < num_states && was.column(s).len() + (#[trigger] cells@[c as int]@[s]).len()
                            > u32::MAX;
                    assert(gathered(next, s) == gathered(done, s) + cells@[c as int][s]@);
                    lemma_gathered_grows(cells@, c + 1, s);
                }
            }
            return Err(CodecError::TooManyEntries);
        }
        proof {
            assert forall|s: int| 0 <= s < num_states implies (#[trigger] table.column(s))
                == gathered(next, s) && table.offsets(s) == running_totals(next, s) by {
                assert(was.column(s) == gathered(done, s));
                assert(gathered(next, s) == gathered(done, s) + cells@[c as int][s]@);
                let a = was.offsets(s).push((was.column(s).len() + cells@[c as int][s].len()) as u32);
                let b = running_totals(next, s);
                assert(a.len() == b.len());
                assert forall|i: int| 0 <= i < a.len() implies a[i] == b[i] by {
                    if i <= c {
                        assert(next.take(i) =~= done.take(i));
                        assert(was.offsets(s)[i] == running_totals(done, s)[i]);
                    } else {
                        assert(next.take(i) =~= next);
                    }
                }
                assert(a =~= b);
            }
        }
        c += 1;
    }
    proof {
        assert(cells@.take(n as int) =~= cells@);
        assert forall|s: int| 0 <= s < num_states implies (#[trigger] gathered(cells@, s)).len()
            <= u32::MAX by {
            assert(table.column(s) == gathered(cells@, s));
            assert(table.offsets(s)[table.cells() as int] == table.column(s).len());
        }
    }
    Ok(table)
}

/// The running totals step from cell to cell by the cell's count: entry 0
/// is 0, and entry `c + 1` is entry `c` plus the number of entries that cell
/// `c` holds in the state.
pub proof fn lemma_totals_step(cells: Seq<Vec<Vec<Triplet>>>, s: int, c: int)
    requires
        0 <= c < cells.len(),
        gathered(cells, s).len() <= u32::MAX,
    ensures
        running_totals(cells, s)[0] == 0,
        running_totals(cells, s)[c + 1] == running_totals(cells, s)[c] + cell_counts(cells, s)[c],
{
    assert(cells.take(c + 1).drop_last() =~= cells.take(c));
    assert(cells.take(c + 1).last() == cells[c]);
    lemma_gathered_grows(cells, c + 1, s);
    lemma_gathered_grows(cells, c, s);
    assert(cells.take(0).len() == 0);
}

proof fn lemma_gathered_without(cells: Seq<Vec<Vec<Triplet>>>, j: int, s: int)
    requires
        0 <= j < cells.len(),
    ensures
        gathered(cells, s).to_multiset() =~= gathered(cells.remove(j), s).to_multiset().add(
            cells[j][s]@.to_multiset(),
        ),
        gathered(cells, s).len() == gathered(cells.remove(j), s).len() + cells[j][s]@.len(),
    decreases cells.len(),
{
    broadcast use group_multiset_axioms;

    let rest = cells.drop_last();
    lemma_multiset_commutative(gathered(rest, s), cells.last()[s]@);
    if j == cells.len() - 1 {
        assert(cells.remove(j) =~= rest);
    } else {
        lemma_gathered_without(rest, j, s);
        let cut = cells.remove(j);
        assert(cut.drop_last() =~= rest.remove(j));
        assert(cut.last() == cells.last());
        lemma_multiset_commutative(gathered(rest.remove(j), s), cells.last()[s]@);
    }
}

/// The order in which the cells are added does not matter to what a state
/// gathers: the same entries, as many of them, and the same count for each
/// cell.
pub proof fn lemma_regroup_any_order(
    a: Seq<Vec<Vec<Triplet>>>,
    b: Seq<Vec<Vec<Triplet>>>,
    s: int,
)
    requires
        a.to_multiset() == b.to_multiset(),
    ensures
        gathered(a, s).to_multiset() =~= gathered(b, s).to_multiset(),
        gathered(a, s).len() == gathered(b, s).len(),
        cell_counts(a, s).to_multiset() =~= cell_counts(b, s).to_multiset(),
    decreases a.len(),
{
    broadcast use group_multiset_axioms;

    to_multiset_len(a);
    to_multiset_len(b);
    if a.len() == 0 {
        assert(cell_counts(a, s) =~= cell_counts(b, s));
    } else {
        let last = a.len() - 1;
        let x = a[last];
        assert(a.contains(x));
        to_multiset_contains(a, x);
        to_multiset_contains(b, x);
        let j = choose|j: int| 0 <= j < b.len() && b[j] == x;
        to_multiset_remove(a, last);
        to_multiset_remove(b, j);
        assert(a.remove(last) =~= a.drop_last());
        lemma_regroup_any_order(a.drop_last(), b.remove(j), s);
        lemma_gathered_without(a, last, s);
        lemma_gathered_without(b, j, s);
        let ca = cell_counts(a, s);
        let cb = cell_counts(b, s);
        assert(cell_counts(a.drop_last(), s) =~= ca.remove(last));
        assert(cell_counts(b.remove(j), s) =~= cb.remove(j));
        to_multiset_remove(ca, last);
        to_multiset_remove(cb, j);
        assert(ca.contains(ca[last]));
        assert(cb.contains(cb[j]));
        to_multiset_contains(ca, ca[last]);
        to_multiset_contains(cb, cb[j]);
        assert(ca.to_multiset() =~= ca.to_multiset().remove(ca[last]).insert(ca[last]));
        assert(cb.to_multiset() =~= cb.to_multiset().remove(cb[j]).insert(cb[j]));
    }
}

} // verus!
