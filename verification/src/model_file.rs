//! The text of a model file, and the assembly of the model's tables from
//! its records.
//!
//! The first line gives the numbers of states and of assays. Every other
//! line is a record of one of three kinds, named by its first field:
//! an initial probability (`probinit state p`), a transition probability
//! (`transitionprobs from to p`) or an emission probability
//! (`emissionprobs state assay name flag p`). States are numbered from 1,
//! assays from 0. Of the emission records only those with flag 1, which give
//! the probability that the assay is present, are used. The probability
//! itself is handed back as the place of its field in the line.
use crate::model::ModelError;
use crate::model::rows;
use crate::model::rows_have;
use crate::text::field;
use crate::text::fields_of;
use crate::text::lemma_fields_unique;
use crate::text::number;
use crate::text::parse_field;
use crate::text::same_bytes;
use crate::text::split_fields;
use crate::text::Span;
use vstd::prelude::*;
use vstd::slice::slice_subrange;

verus! {

/// One record of a model file. `value` is the field that holds the
/// probability: its first byte and the byte after its last.
#[derive(Clone, Copy, Debug, PartialEq, Eq, Structural)]
pub enum ModelRecord {
    Init { state: usize, value: Span },
    Transition { from: usize, to: usize, value: Span },
    Presence { state: usize, assay: usize, value: Span },
    /// An emission record for the absence of an assay.
    Skipped,
}

/// The word `probinit`.
pub open spec fn word_init() -> Seq<u8> {
    seq![112u8, 114u8, 111u8, 98u8, 105u8, 110u8, 105u8, 116u8]
}

/// The word `transitionprobs`.
pub open spec fn word_transition() -> Seq<u8> {
    seq![
        116u8,
        114u8,
        97u8,
        110u8,
        115u8,
        105u8,
        116u8,
        105u8,
        111u8,
        110u8,
        112u8,
        114u8,
        111u8,
        98u8,
        115u8,
    ]
}

/// The word `emissionprobs`.
pub open spec fn word_emission() -> Seq<u8> {
    seq![
        101u8,
        109u8,
        105u8,
        115u8,
        115u8,
        105u8,
        111u8,
        110u8,
        112u8,
        114u8,
        111u8,
        98u8,
        115u8,
    ]
}

/// The state that a field numbers from 1, numbered from 0.
pub open spec fn one_based(text: Seq<u8>) -> Result<usize, ModelError> {
    match number(text, usize::MAX as nat) {
        None => Err(ModelError::BadNumber),
        Some(v) => if v == 0 {
            Err(ModelError::ZeroState)
        } else {
            Ok((v - 1) as usize)
        },
    }
}

/// The record that the line with the fields `f` holds.
pub open spec fn record_of(line: Seq<u8>, f: Seq<Span>) -> Result<
    ModelRecord,
    ModelError,
> {
    if f.len() == 0 {
        Err(ModelError::BlankLine)
    } else if field(line, f[0]) == word_init() {
        if f.len() != 3 {
            Err(ModelError::FieldCount)
        } else {
            match one_based(field(line, f[1])) {
                Err(e) => Err(e),
                Ok(state) => Ok(ModelRecord::Init { state, value: f[2] }),
            }
        }
    } else if field(line, f[0]) == word_transition() {
        if f.len() != 4 {
            Err(ModelError::FieldCount)
        } else {
            match one_based(field(line, f[1])) {
                Err(e) => Err(e),
                Ok(from) => match one_based(field(line, f[2])) {
                    Err(e) => Err(e),
                    Ok(to) => Ok(ModelRecord::Transition { from, to, value: f[3] }),
                },
            }
        }
    } else if field(line, f[0]) == word_emission() {
        if f.len() != 6 {
            Err(ModelError::FieldCount)
        } else {
            match number(field(line, f[4]), 255) {
                None => Err(ModelError::BadNumber),
                Some(flag) => if flag != 1 {
                    Ok(ModelRecord::Skipped)
                } else {
                    match one_based(field(line, f[1])) {
                        Err(e) => Err(e),
                        Ok(state) => match number(field(line, f[2]), usize::MAX as nat) {
                            None => Err(ModelError::BadNumber),
                            Some(assay) => Ok(
                                ModelRecord::Presence {
                                    state,
                                    assay: assay as usize,
                                    value: f[5],
                                },
                            ),
                        },
                    }
                },
            }
        }
    } else {
        Err(ModelError::UnknownKind)
    }
}

/// The numbers of states and of assays that the first line with the fields
/// `f` gives. Fields after the second are not looked at.
pub open spec fn header_of(line: Seq<u8>, f: Seq<Span>) -> Result<
    (usize, usize),
    ModelError,
> {
    if f.len() < 2 {
        Err(ModelError::FieldCount)
    } else {
        match number(field(line, f[0]), usize::MAX as nat) {
            None => Err(ModelError::BadNumber),
            Some(states) => match number(field(line, f[1]), usize::MAX as nat) {
                None => Err(ModelError::BadNumber),
                Some(assays) => Ok((states as usize, assays as usize)),
            },
        }
    }
}

fn read_index(line: &[u8], span: Span) -> (r: Result<usize, ModelError>)
    requires
        span.start <= span.end <= line@.len(),
    ensures
        r == match number(field(line@, span), usize::MAX as nat) {
            None => Err::<usize, ModelError>(ModelError::BadNumber),
            Some(v) => Ok(v as usize),
        },
{
    match parse_field(line, span, usize::MAX as u64) {
        None => Err(ModelError::BadNumber),
        Some(v) => Ok(v as usize),
    }
}

fn read_state(line: &[u8], span: Span) -> (r: Result<usize, ModelError>)
    requires
        span.start <= span.end <= line@.len(),
    ensures
        r == one_based(field(line@, span)),
{
    match parse_field(line, span, usize::MAX as u64) {
        None => Err(ModelError::BadNumber),
        Some(v) => if v == 0 {
            Err(ModelError::ZeroState)
        } else {
            Ok((v - 1) as usize)
        },
    }
}

fn is_init(kind: &[u8]) -> (r: bool)
    ensures
        r == (kind@ == word_init()),
{
    let w: [u8; 8] = [112, 114, 111, 98, 105, 110, 105, 116];
    assert(w@ =~= word_init());
    same_bytes(kind, w.as_slice())
}

fn is_transition(kind: &[u8]) -> (r: bool)
    ensures
        r == (kind@ == word_transition()),
{
    let w: [u8; 15] = [116, 114, 97, 110, 115, 105, 116, 105, 111, 110, 112, 114, 111, 98, 115];
    assert(w@ =~= word_transition());
    same_bytes(kind, w.as_slice())
}

fn is_emission(kind: &[u8]) -> (r: bool)
    ensures
        r == (kind@ == word_emission()),
{
    let w: [u8; 13] = [101, 109, 105, 115, 115, 105, 111, 110, 112, 114, 111, 98, 115];
    assert(w@ =~= word_emission());
    same_bytes(kind, w.as_slice())
}

/// Reads one record line of a model file.
pub fn parse_model_line(line: &[u8]) -> (r: Result<ModelRecord, ModelError>)
    ensures
        forall|f: Seq<Span>| fields_of(line@, f) ==> r == record_of(line@, f),
{
    let fields = split_fields(line);
    proof {
        assert forall|f: Seq<Span>| fields_of(line@, f) implies f == fields@ by {
            lemma_fields_unique(line@, f, fields@);
        }
    }
    let n: usize = fields.len();
    if n == 0 {
        return Err(ModelError::BlankLine);
    }
    let kind = slice_subrange(line, fields[0].start, fields[0].end);
    if is_init(kind) {
        if n != 3 {
            return Err(ModelError::FieldCount);
        }
        match read_state(line, fields[1]) {
            Err(e) => Err(e),
            Ok(state) => Ok(ModelRecord::Init { state, value: fields[2] }),
        }
    } else if is_transition(kind) {
        if n != 4 {
            return Err(ModelError::FieldCount);
        }
        match read_state(line, fields[1]) {
            Err(e) => Err(e),
            Ok(from) => match read_state(line, fields[2]) {
                Err(e) => Err(e),
                Ok(to) => Ok(ModelRecord::Transition { from, to, value: fields[3] }),
            },
        }
    } else if is_emission(kind) {
        if n != 6 {
            return Err(ModelError::FieldCount);
        }
        match parse_field(line, fields[4], 255) {
            None => Err(ModelError::BadNumber),
            Some(flag) => if flag != 1 {
                Ok(ModelRecord::Skipped)
            } else {
                match read_state(line, fields[1]) {
                    Err(e) => Err(e),
                    Ok(state) => match read_index(line, fields[2]) {
                        Err(e) => Err(e),
                        Ok(assay) => Ok(ModelRecord::Presence { state, assay, value: fields[5] }),
                    },
                }
            },
        }
    } else {
        Err(ModelError::UnknownKind)
    }
}

/// Reads the first line of a model file: the number of states, then the
/// number of assays.
pub fn parse_model_header(line: &[u8]) -> (r: Result<(usize, usize), ModelError>)
    ensures
        forall|f: Seq<Span>| fields_of(line@, f) ==> r == header_of(line@, f),
{
    let fields = split_fields(line);
    proof {
        assert forall|f: Seq<Span>| fields_of(line@, f) implies f == fields@ by {
            lemma_fields_unique(line@, f, fields@);
        }
    }
    if fields.len() < 2 {
        return Err(ModelError::FieldCount);
    }
    match read_index(line, fields[0]) {
        Err(e) => Err(e),
        Ok(states) => match read_index(line, fields[1]) {
            Err(e) => Err(e),
            Ok(assays) => Ok((states, assays)),
        },
    }
}

/// The tables of a model while its records arrive, with the number of
/// records of each kind that have been taken.
pub struct ModelBuilder<P> {
    init: Vec<P>,
    transition: Vec<Vec<P>>,
    presence: Vec<Vec<P>>,
    num_assays: usize,
    init_rows: usize,
    transition_rows: usize,
    presence_rows: usize,
}

/// A builder as the contracts see it.
pub struct BuilderView<P> {
    pub num_assays: nat,
    /// One entry per state.
    pub init: Seq<P>,
    /// One row per state, one entry per state in each.
    pub transition: Seq<Seq<P>>,
    /// One row per state, one entry per assay in each: the probability that
    /// the assay is present.
    pub presence: Seq<Seq<P>>,
    pub init_rows: nat,
    pub transition_rows: nat,
    pub presence_rows: nat,
}

impl<P> BuilderView<P> {
    /// The number of states.
    pub open spec fn num_states(self) -> nat {
        self.init.len()
    }

    /// The tables have the sizes of the model, their entries can be counted,
    /// and no more records of a kind were taken than the model has entries
    /// of that kind.
    pub open spec fn wf(self) -> bool {
        &&& self.transition.len() == self.num_states()
        &&& rows_have(self.transition, self.num_states())
        &&& self.presence.len() == self.num_states()
        &&& rows_have(self.presence, self.num_assays)
        &&& self.num_states() * self.num_states() <= usize::MAX
        &&& self.num_states() * self.num_assays <= usize::MAX
        &&& self.init_rows <= self.num_states()
        &&& self.transition_rows <= self.num_states() * self.num_states()
        &&& self.presence_rows <= self.num_states() * self.num_assays
    }

    /// As many records of each kind have been taken as the model has
    /// entries of that kind.
    pub open spec fn complete(self) -> bool {
        &&& self.init_rows == self.num_states()
        &&& self.transition_rows == self.num_states() * self.num_states()
        &&& self.presence_rows == self.num_states() * self.num_assays
    }
}

/// The tables of a model whose records have all been taken.
pub struct ModelTables<P> {
    pub init: Vec<P>,
    pub transition: Vec<Vec<P>>,
    pub presence: Vec<Vec<P>>,
}

impl<P> View for ModelBuilder<P> {
    type V = BuilderView<P>;

    closed spec fn view(&self) -> BuilderView<P> {
        BuilderView {
            num_assays: self.num_assays as nat,
            init: self.init@,
            transition: rows(self.transition@),
            presence: rows(self.presence@),
            init_rows: self.init_rows as nat,
            transition_rows: self.transition_rows as nat,
            presence_rows: self.presence_rows as nat,
        }
    }
}

fn filled<P: Copy>(n: usize, fill: P) -> (r: Vec<P>)
    ensures
        r@ == Seq::new(n as nat, |i: int| fill),
{
    let mut v: Vec<P> = Vec::new();
    let mut i: usize = 0;
    while i < n
        invariant
            i <= n,
            v@ == Seq::new(i as nat, |k: int| fill),
        decreases n - i,
    {
        v.push(fill);
        assert(v@ =~= Seq::new((i + 1) as nat, |k: int| fill));
        i += 1;
    }
    v
}

fn filled_table<P: Copy>(n: usize, m: usize, fill: P) -> (r: Vec<Vec<P>>)
    ensures
        rows(r@) == Seq::new(n as nat, |i: int| Seq::new(m as nat, |j: int| fill)),
{
    let mut t: Vec<Vec<P>> = Vec::new();
    let mut i: usize = 0;
    while i < n
        invariant
            i <= n,
            t.len() == i,
            rows(t@) == Seq::new(i as nat, |k: int| Seq::new(m as nat, |j: int| fill)),
        decreases n - i,
    {
        let ghost before = rows(t@);
        t.push(filled(m, fill));
        assert(rows(t@) =~= Seq::new((i + 1) as nat, |k: int| Seq::new(m as nat, |j: int| fill)))
            by {
            assert forall|k: int| 0 <= k < i + 1 implies rows(t@)[k] == Seq::new(
                m as nat,
                |j: int| fill,
            ) by {
                if k < i {
                    assert(rows(t@)[k] == before[k]);
                }
            }
        }
        i += 1;
    }
    t
}

fn product_fits(a: usize, b: usize) -> (r: bool)
    ensures
        r == (a * b <= usize::MAX),
{
    if a == 0 || b == 0 {
        assert(a * b == 0) by (nonlinear_arith)
            requires
                a == 0 || b == 0,
        ;
        true
    } else {
        let q: usize = usize::MAX / a;
        assert((b <= q) == (a * b <= usize::MAX)) by (nonlinear_arith)
            requires
                a > 0,
                q == usize::MAX as int / a as int,
        ;
        b <= q
    }
}

impl<P: Copy> ModelBuilder<P> {
    /// Tables for `num_states` states and `num_assays` assays with `fill`
    /// in every entry, and no record taken.
    pub fn new(num_states: usize, num_assays: usize, fill: P) -> (r: Result<
        ModelBuilder<P>,
        ModelError,
    >)
        ensures
            num_states * num_states > usize::MAX || num_states * num_assays > usize::MAX ==> r
                == Err::<ModelBuilder<P>, ModelError>(ModelError::TooLarge),
            num_states * num_states <= usize::MAX && num_states * num_assays <= usize::MAX ==> r
                is Ok && r->Ok_0@.wf() && r->Ok_0@ == (BuilderView {
                num_assays: num_assays as nat,
                init: Seq::new(num_states as nat, |i: int| fill),
                transition: Seq::new(
                    num_states as nat,
                    |i: int| Seq::new(num_states as nat, |j: int| fill),
                ),
                presence: Seq::new(
                    num_states as nat,
                    |i: int| Seq::new(num_assays as nat, |j: int| fill),
                ),
                init_rows: 0,
                transition_rows: 0,
                presence_rows: 0,
            }),
    {
        if !product_fits(num_states, num_states) || !product_fits(num_states, num_assays) {
            return Err(ModelError::TooLarge);
        }
        let init = filled(num_states, fill);
        let transition = filled_table(num_states, num_states, fill);
        let presence = filled_table(num_states, num_assays, fill);
        assert(0 <= num_states * num_states) by (nonlinear_arith);
        assert(0 <= num_states * num_assays) by (nonlinear_arith);
        Ok(
            ModelBuilder {
                init,
                transition,
                presence,
                num_assays,
                init_rows: 0,
                transition_rows: 0,
                presence_rows: 0,
            },
        )
    }

    /// Takes an initial-probability record.
    pub fn set_init(&mut self, state: usize, p: P) -> (r: Result<(), ModelError>)
        requires
            old(self)@.wf(),
        ensures
            final(self)@.wf(),
            state >= old(self)@.num_states() ==> r == Err::<(), ModelError>(
                ModelError::OutOfRange,
            ) && final(self)@ == old(self)@,
            state < old(self)@.num_states() && old(self)@.init_rows == old(self)@.num_states()
                ==> r == Err::<(), ModelError>(ModelError::ExtraRow) && final(self)@ == old(
                self,
            )@,
            state < old(self)@.num_states() && old(self)@.init_rows < old(self)@.num_states()
                ==> r is Ok && final(self)@ == (BuilderView {
                init: old(self)@.init.update(state as int, p),
                init_rows: old(self)@.init_rows + 1,
                ..old(self)@
            }),
    {
        let n: usize = self.init.len();
        if state >= n {
            return Err(ModelError::OutOfRange);
        }
        if self.init_rows >= n {
            return Err(ModelError::ExtraRow);
        }
        self.init[state] = p;
        self.init_rows = self.init_rows + 1;
        Ok(())
    }

    /// Takes a transition-probability record.
    pub fn set_transition(&mut self, from: usize, to: usize, p: P) -> (r: Result<(), ModelError>)
        requires
            old(self)@.wf(),
        ensures
            final(self)@.wf(),
            from >= old(self)@.num_states() || to >= old(self)@.num_states() ==> r == Err::<
                (),
                ModelError,
            >(ModelError::OutOfRange) && final(self)@ == old(self)@,
            from < old(self)@.num_states() && to < old(self)@.num_states() && old(
                self,
            )@.transition_rows == old(self)@.num_states() * old(self)@.num_states() ==> r == Err::<
                (),
                ModelError,
            >(ModelError::ExtraRow) && final(self)@ == old(self)@,
            from < old(self)@.num_states() && to < old(self)@.num_states() && old(
                self,
            )@.transition_rows < old(self)@.num_states() * old(self)@.num_states() ==> r is Ok
                && final(self)@ == (BuilderView {
                transition: old(self)@.transition.update(
                    from as int,
                    old(self)@.transition[from as int].update(to as int, p),
                ),
                transition_rows: old(self)@.transition_rows + 1,
                ..old(self)@
            }),
    {
        let n: usize = self.init.len();
        if from >= n || to >= n {
            return Err(ModelError::OutOfRange);
        }
        if self.transition_rows >= n * n {
            return Err(ModelError::ExtraRow);
        }
        let ghost before = rows(self.transition@);
        assert(before[from as int].len() == n);
        self.transition[from][to] = p;
        proof {
            let after = rows(self.transition@);
            let want = before.update(from as int, before[from as int].update(to as int, p));
            assert forall|i: int| 0 <= i < n implies after[i] == want[i] by {
                if i != from {
                    assert(after[i] == before[i]);
                }
            }
            assert(after =~= want);
        }
        self.transition_rows = self.transition_rows + 1;
        Ok(())
    }

    /// Takes a record of the probability that an assay is present.
    pub fn set_presence(&mut self, state: usize, assay: usize, p: P) -> (r: Result<
        (),
        ModelError,
    >)
        requires
            old(self)@.wf(),
        ensures
            final(self)@.wf(),
            state >= old(self)@.num_states() || assay >= old(self)@.num_assays ==> r == Err::<
                (),
                ModelError,
            >(ModelError::OutOfRange) && final(self)@ == old(self)@,
            state < old(self)@.num_states() && assay < old(self)@.num_assays && old(
                self,
            )@.presence_rows == old(self)@.num_states() * old(self)@.num_assays ==> r == Err::<
                (),
                ModelError,
            >(ModelError::ExtraRow) && final(self)@ == old(self)@,
            state < old(self)@.num_states() && assay < old(self)@.num_assays && old(
                self,
            )@.presence_rows < old(self)@.num_states() * old(self)@.num_assays ==> r is Ok
                && final(self)@ == (BuilderView {
                presence: old(self)@.presence.update(
                    state as int,
                    old(self)@.presence[state as int].update(assay as int, p),
                ),
                presence_rows: old(self)@.presence_rows + 1,
                ..old(self)@
            }),
    {
        let n: usize = self.init.len();
        if state >= n || assay >= self.num_assays {
            return Err(ModelError::OutOfRange);
        }
        if self.presence_rows >= n * self.num_assays {
            return Err(ModelError::ExtraRow);
        }
        let ghost before = rows(self.presence@);
        assert(before[state as int].len() == self.num_assays);
        self.presence[state][assay] = p;
        proof {
            let after = rows(self.presence@);
            let want = before.update(state as int, before[state as int].update(assay as int, p));
            assert forall|i: int| 0 <= i < n implies after[i] == want[i] by {
                if i != state {
                    assert(after[i] == before[i]);
                }
            }
            assert(after =~= want);
        }
        self.presence_rows = self.presence_rows + 1;
        Ok(())
    }

    /// Hands the tables out once every record has been taken: as many
    /// initial records as states, as many transition records as pairs of
    /// states, as many presence records as pairs of a state and an assay.
    pub fn finish(self) -> (r: Result<ModelTables<P>, ModelError>)
        requires
            self@.wf(),
        ensures
            !self@.complete() ==> r is Err && r->Err_0 == ModelError::MissingRows,
            self@.complete() ==> r is Ok && r->Ok_0.init@ == self@.init && rows(
                r->Ok_0.transition@,
            ) == self@.transition && rows(r->Ok_0.presence@) == self@.presence,
    {
        let n: usize = self.init.len();
        if self.init_rows != n || self.transition_rows != n * n || self.presence_rows != n
            * self.num_assays {
            return Err(ModelError::MissingRows);
        }
        Ok(
            ModelTables {
                init: self.init,
                transition: self.transition,
                presence: self.presence,
            },
        )
    }
}

} // verus!
