//! The fixed hidden Markov model: its tables, and the numbering of the
//! presence patterns that index the emission table.
//!
//! A pattern says for each assay whether it is present in a bin. Assay `i`
//! has weight `2^i` in the pattern's number, so that a model of `a` assays
//! has `2^a` patterns. The model is generic in the type `P` that stands for
//! a probability: it stores such values and looks them up.
use vstd::arithmetic::div_mod::lemma_div_denominator;
use vstd::prelude::*;

verus! {

/// Two to the power `n`: the number of presence patterns of `n` assays.
pub open spec fn width(n: nat) -> nat
    decreases n,
{
    if n == 0 {
        1
    } else {
        2 * width((n - 1) as nat)
    }
}

/// The number of the pattern `flags`: the sum of `2^i` over the assays `i`
/// that are present.
pub open spec fn pattern_value(flags: Seq<bool>) -> nat
    decreases flags.len(),
{
    if flags.len() == 0 {
        0
    } else {
        (if flags[0] {
            1nat
        } else {
            0nat
        }) + 2 * pattern_value(flags.drop_first())
    }
}

/// Whether assay `i` is present in the pattern numbered `pattern`.
pub open spec fn flag_of(pattern: nat, i: nat) -> bool {
    (pattern / width(i)) % 2 == 1
}

/// The flags of the pattern numbered `pattern`, for `n` assays.
pub open spec fn flags_of(pattern: nat, n: nat) -> Seq<bool> {
    Seq::new(n, |i: int| flag_of(pattern, i as nat))
}

/// There is at least one pattern.
pub proof fn lemma_width_positive(n: nat)
    ensures
        width(n) > 0,
    decreases n,
{
    if n > 0 {
        lemma_width_positive((n - 1) as nat);
    }
}

/// A pattern of `n` assays has a number below `2^n`.
pub proof fn lemma_pattern_bound(flags: Seq<bool>)
    ensures
        pattern_value(flags) < width(flags.len()),
    decreases flags.len(),
{
    if flags.len() > 0 {
        lemma_pattern_bound(flags.drop_first());
    }
}

proof fn lemma_suffix_value(flags: Seq<bool>, i: int)
    requires
        0 <= i <= flags.len(),
    ensures
        pattern_value(flags.subrange(i, flags.len() as int)) <= pattern_value(flags),
    decreases i,
{
    if i == 0 {
        assert(flags.subrange(0, flags.len() as int) =~= flags);
    } else {
        lemma_suffix_value(flags, i - 1);
        assert(flags.subrange(i - 1, flags.len() as int).drop_first() =~= flags.subrange(
            i,
            flags.len() as int,
        ));
    }
}

/// Numbering a pattern and reading the flags back gives the pattern.
pub proof fn lemma_flags_of_value(flags: Seq<bool>)
    ensures
        flags_of(pattern_value(flags), flags.len()) =~= flags,
    decreases flags.len(),
{
    let v = pattern_value(flags);
    assert forall|i: int| 0 <= i < flags.len() implies flag_of(v, i as nat) == flags[i] by {
        lemma_flag_at(flags, i);
    }
}

proof fn lemma_flag_at(flags: Seq<bool>, i: int)
    requires
        0 <= i < flags.len(),
    ensures
        flag_of(pattern_value(flags), i as nat) == flags[i],
    decreases i,
{
    let rest = flags.drop_first();
    let v = pattern_value(flags);
    assert(width(0) == 1);
    if i > 0 {
        lemma_flag_at(rest, i - 1);
        lemma_width_positive((i - 1) as nat);
        lemma_div_denominator(v as int, 2, width((i - 1) as nat) as int);
        assert(v / 2 == pattern_value(rest));
        assert(2 * width((i - 1) as nat) == width(i as nat));
    }
}

/// Reading the flags of a number below `2^n` and numbering them gives the
/// number.
pub proof fn lemma_value_of_flags(pattern: nat, n: nat)
    requires
        pattern < width(n),
    ensures
        pattern_value(flags_of(pattern, n)) == pattern,
    decreases n,
{
    if n > 0 {
        let m = (n - 1) as nat;
        lemma_value_of_flags(pattern / 2, m);
        let f = flags_of(pattern, n);
        let g = flags_of(pattern / 2, m);
        assert forall|i: int| 0 <= i < m implies f.drop_first()[i] == g[i] by {
            lemma_width_positive(i as nat);
            lemma_div_denominator(pattern as int, 2, width(i as nat) as int);
            assert(2 * width(i as nat) == width((i + 1) as nat));
        }
        assert(f.drop_first() =~= g);
        assert(width(0) == 1);
        assert(f[0] == flag_of(pattern, 0));
        assert(f[0] == (pattern % 2 == 1));
        assert(width(n) == 2 * width(m));
    }
}

/// The number of a presence pattern, or nothing where the number does not
/// fit the machine's word.
pub fn pattern_index(presence: &[bool]) -> (r: Option<usize>)
    ensures
        pattern_value(presence@) <= usize::MAX ==> r == Some(pattern_value(presence@) as usize),
        pattern_value(presence@) > usize::MAX ==> r is None,
{
    let n: usize = presence.len();
    let ghost s = presence@;
    let mut acc: usize = 0;
    let mut i: usize = n;
    assert(s.subrange(n as int, n as int) =~= Seq::<bool>::empty());
    while i > 0
        invariant
            i <= n,
            n == s.len(),
            s == presence@,
            acc == pattern_value(s.subrange(i as int, n as int)),
        decreases i,
    {
        i -= 1;
        let b: usize = if presence[i] {
            1
        } else {
            0
        };
        proof {
            assert(s.subrange(i as int, n as int).drop_first() =~= s.subrange(i + 1, n as int));
            lemma_suffix_value(s, i as int);
        }
        if acc > (usize::MAX - b) / 2 {
            return None;
        }
        acc = 2 * acc + b;
    }
    assert(s.subrange(0, n as int) =~= s);
    Some(acc)
}

/// The flags of the pattern numbered `pattern`, one per assay.
pub fn pattern_flags(pattern: usize, num_assays: usize) -> (r: Vec<bool>)
    ensures
        r@ == flags_of(pattern as nat, num_assays as nat),
{
    let mut flags: Vec<bool> = Vec::new();
    let mut rest: usize = pattern;
    let mut i: usize = 0;
    assert(width(0) == 1);
    while i < num_assays
        invariant
            i <= num_assays,
            rest == pattern as nat / width(i as nat),
            flags@ == flags_of(pattern as nat, i as nat),
        decreases num_assays - i,
    {
        flags.push(rest % 2 == 1);
        proof {
            lemma_width_positive(i as nat);
            lemma_div_denominator(pattern as int, width(i as nat) as int, 2);
            assert(width(i as nat) * 2 == width((i + 1) as nat));
            assert(flags@ =~= flags_of(pattern as nat, (i + 1) as nat));
        }
        rest = rest / 2;
        i += 1;
    }
    flags
}

/// Why a model could not be read or put together.
#[derive(Clone, Copy, Debug, PartialEq, Eq, Structural)]
pub enum ModelError {
    /// A line without any field.
    BlankLine,
    /// The first field names no kind of record.
    UnknownKind,
    /// The record has another number of fields than its kind has.
    FieldCount,
    /// A field that should be an unsigned number is none.
    BadNumber,
    /// A state is numbered from 1, and the record says 0.
    ZeroState,
    /// A state or an assay that the model does not have.
    OutOfRange,
    /// One record more than the model has entries of that kind.
    ExtraRow,
    /// Fewer records of some kind than the model has entries of that kind.
    MissingRows,
    /// So many states or assays that the tables cannot be counted.
    TooLarge,
    /// The tables do not have the sizes that the numbers of states and
    /// assays ask for.
    Shape,
}

/// The views of the rows of a table.
pub open spec fn rows<P>(t: Seq<Vec<P>>) -> Seq<Seq<P>> {
    Seq::new(t.len(), |i: int| t[i]@)
}

/// Every row of `t` has `n` entries.
pub open spec fn rows_have<P>(t: Seq<Seq<P>>, n: nat) -> bool {
    forall|i: int| 0 <= i < t.len() ==> (#[trigger] t[i]).len() == n
}

/// A model as the contracts see it.
pub struct HmmView<P> {
    /// The probability of each state at the first bin.
    pub init: Seq<P>,
    /// Row `p`, entry `s`: the probability of going from state `p` to `s`.
    pub transition: Seq<Seq<P>>,
    /// Row `s`, entry `k`: the probability of pattern `k` in state `s`.
    pub emission: Seq<Seq<P>>,
    pub num_assays: nat,
}

impl<P> HmmView<P> {
    /// One initial probability per state, a square transition table, and
    /// one emission row per state with an entry for each pattern.
    pub open spec fn wf(self) -> bool {
        &&& self.transition.len() == self.init.len()
        &&& rows_have(self.transition, self.init.len())
        &&& self.emission.len() == self.init.len()
        &&& rows_have(self.emission, width(self.num_assays))
    }
}

/// The fixed model: initial probabilities, transitions, and the emission
/// table over all presence patterns.
pub struct Hmm<P> {
    init: Vec<P>,
    emission: Vec<Vec<P>>,
    transition: Vec<Vec<P>>,
    num_assays: usize,
}

impl<P> View for Hmm<P> {
    type V = HmmView<P>;

    closed spec fn view(&self) -> HmmView<P> {
        HmmView {
            init: self.init@,
            transition: rows(self.transition@),
            emission: rows(self.emission@),
            num_assays: self.num_assays as nat,
        }
    }
}

/// The number of presence patterns of `num_assays` assays, or nothing where
/// it does not fit the machine's word.
pub fn pattern_count(num_assays: usize) -> (r: Option<usize>)
    ensures
        width(num_assays as nat) <= usize::MAX ==> r == Some(width(num_assays as nat) as usize),
        width(num_assays as nat) > usize::MAX ==> r is None,
{
    let mut w: usize = 1;
    let mut i: usize = 0;
    while i < num_assays
        invariant
            i <= num_assays,
            w == width(i as nat),
        decreases num_assays - i,
    {
        if w > usize::MAX / 2 {
            proof {
                lemma_width_grows((i + 1) as nat, num_assays as nat);
            }
            return None;
        }
        w = 2 * w;
        i += 1;
    }
    Some(w)
}

/// More assays never have fewer patterns.
pub proof fn lemma_width_grows(a: nat, b: nat)
    requires
        a <= b,
    ensures
        width(a) <= width(b),
    decreases b,
{
    if a < b {
        lemma_width_grows(a, (b - 1) as nat);
    }
}

fn every_row_has<P>(t: &Vec<Vec<P>>, n: usize) -> (r: bool)
    ensures
        r == rows_have(rows(t@), n as nat),
{
    let mut i: usize = 0;
    while i < t.len()
        invariant
            i <= t.len(),
            forall|k: int| 0 <= k < i ==> (#[trigger] rows(t@)[k]).len() == n,
        decreases t.len() - i,
    {
        if t[i].len() != n {
            assert(rows(t@)[i as int].len() != n);
            return false;
        }
        i += 1;
    }
    true
}

impl<P> Hmm<P> {
    #[verifier::type_invariant]
    spec fn inv(self) -> bool {
        self@.wf()
    }
}

impl<P: Copy> Hmm<P> {
    /// Puts a model together from its tables. The emission table has, for
    /// each state, one entry per presence pattern, in the order of the
    /// patterns' numbers.
    pub fn new(
        init: Vec<P>,
        transition: Vec<Vec<P>>,
        emission: Vec<Vec<P>>,
        num_assays: usize,
    ) -> (r: Result<Hmm<P>, ModelError>)
        ensures
            ({
                let v = HmmView {
                    init: init@,
                    transition: rows(transition@),
                    emission: rows(emission@),
                    num_assays: num_assays as nat,
                };
                &&& v.wf() ==> r is Ok && r->Ok_0@ == v
                &&& !v.wf() ==> r == Err::<Hmm<P>, ModelError>(ModelError::Shape)
            }),
    {
        let n: usize = init.len();
        if transition.len() != n || emission.len() != n {
            return Err(ModelError::Shape);
        }
        if !every_row_has(&transition, n) {
            return Err(ModelError::Shape);
        }
        match pattern_count(num_assays) {
            None => {
                if n == 0 {
                    Ok(Hmm { init, emission, transition, num_assays })
                } else {
                    let first: usize = emission[0].len();
                    assert(rows(emission@)[0].len() == first);
                    Err(ModelError::Shape)
                }
            },
            Some(w) => {
                if !every_row_has(&emission, w) {
                    return Err(ModelError::Shape);
                }
                Ok(Hmm { init, emission, transition, num_assays })
            },
        }
    }

    /// The number of states.
    pub fn num_states(&self) -> (r: usize)
        ensures
            r == self@.init.len(),
            self@.wf(),
    {
        proof {
            use_type_invariant(self);
        }
        self.init.len()
    }

    /// The number of assays.
    pub fn num_assays(&self) -> (r: usize)
        ensures
            r == self@.num_assays,
    {
        self.num_assays
    }

    /// The probability of `state` at the first bin.
    pub fn get_init_prob(&self, state: usize) -> (r: P)
        requires
            state < self@.init.len(),
        ensures
            r == self@.init[state as int],
    {
        self.init[state]
    }

    /// The probability of going from `pstate` to `state`.
    pub fn get_transition_prob(&self, pstate: usize, state: usize) -> (r: P)
        requires
            pstate < self@.init.len(),
            state < self@.init.len(),
        ensures
            r == self@.transition[pstate as int][state as int],
    {
        proof {
            use_type_invariant(self);
            assert(self@.transition[pstate as int] == self.transition@[pstate as int]@);
        }
        self.transition[pstate][state]
    }

    /// The probability, in `state`, of the presence pattern numbered
    /// `pattern`.
    pub fn emission_at(&self, state: usize, pattern: usize) -> (r: P)
        requires
            state < self@.init.len(),
            pattern < width(self@.num_assays),
        ensures
            r == self@.emission[state as int][pattern as int],
    {
        proof {
            use_type_invariant(self);
            assert(self@.emission[state as int] == self.emission@[state as int]@);
        }
        self.emission[state][pattern]
    }

    /// The probability, in `state`, of the presence pattern `presence`,
    /// which says for each assay whether it is present.
    pub fn emission_of(&self, state: usize, presence: &[bool]) -> (r: P)
        requires
            state < self@.init.len(),
            presence@.len() == self@.num_assays,
        ensures
            r == self@.emission[state as int][pattern_value(presence@) as int],
    {
        proof {
            use_type_invariant(self);
            lemma_pattern_bound(presence@);
            assert(self@.emission[state as int] == self.emission@[state as int]@);
        }
        let row = &self.emission[state];
        let w: usize = row.len();
        assert(w == width(self@.num_assays));
        assert(pattern_value(presence@) < w);
        let id = pattern_index(presence);
        row[id.unwrap()]
    }

    /// The probability, in `state`, of the observations of one bin: each
    /// assay is present where its observation is above its threshold, and
    /// the pattern of the present assays is looked up. Observations and
    /// thresholds are given by their keys.
    pub fn get_emission_prob(&self, state: usize, observations: &[u64], thresholds: &[u64]) -> (r:
        P)
        requires
            state < self@.init.len(),
            observations@.len() == self@.num_assays,
            observations@.len() <= thresholds@.len(),
        ensures
            r == self@.emission[state as int][pattern_value(
                presence_of(observations@, thresholds@),
            ) as int],
    {
        let flags = presence_flags(observations, thresholds);
        self.emission_of(state, flags.unwrap().as_slice())
    }
}

/// The presence pattern of one bin: an assay is present where the key of
/// its observation is above the key of its threshold.
pub open spec fn presence_of(observations: Seq<u64>, thresholds: Seq<u64>) -> Seq<bool> {
    Seq::new(observations.len(), |i: int| observations[i] > thresholds[i])
}

/// The presence pattern of one bin, from the keys of its observations and
/// the keys of the thresholds of the assays. Observations and thresholds
/// are only compared, so each is given by a key: an unsigned integer that
/// is larger for a larger number. Nothing where an observation has no
/// threshold.
pub fn presence_flags(observations: &[u64], thresholds: &[u64]) -> (r: Option<Vec<bool>>)
    ensures
        observations@.len() > thresholds@.len() ==> r is None,
        observations@.len() <= thresholds@.len() ==> r is Some && r->Some_0@ == presence_of(
            observations@,
            thresholds@,
        ),
{
    if observations.len() > thresholds.len() {
        return None;
    }
    let mut flags: Vec<bool> = Vec::new();
    let mut i: usize = 0;
    while i < observations.len()
        invariant
            i <= observations.len(),
            observations@.len() <= thresholds@.len(),
            flags@ == presence_of(observations@.take(i as int), thresholds@),
        decreases observations.len() - i,
    {
        flags.push(observations[i] > thresholds[i]);
        assert(flags@ =~= presence_of(observations@.take(i + 1), thresholds@));
        i += 1;
    }
    assert(observations@.take(observations@.len() as int) =~= observations@);
    Some(flags)
}

/// Every row of `presence` has one flag per assay.
pub open spec fn rectangular(presence: Seq<Vec<bool>>, num_assays: nat) -> bool {
    forall|b: int| 0 <= b < presence.len() ==> (#[trigger] presence[b])@.len() == num_assays
}

/// The number of every row's pattern fits the machine's word.
pub open spec fn numbered(presence: Seq<Vec<bool>>) -> bool {
    forall|b: int| 0 <= b < presence.len() ==> pattern_value((#[trigger] presence[b])@) <= usize::MAX
}

/// The numbers of the presence patterns of a cell, bin by bin. Rows of
/// another width than the number of assays are refused: the observations
/// must form a rectangle.
pub fn observation_patterns(presence: &Vec<Vec<bool>>, num_assays: usize) -> (r: Result<
    Vec<usize>,
    ModelError,
>)
    ensures
        !rectangular(presence@, num_assays as nat) ==> r == Err::<Vec<usize>, ModelError>(
            ModelError::Shape,
        ),
        rectangular(presence@, num_assays as nat) && !numbered(presence@) ==> r == Err::<
            Vec<usize>,
            ModelError,
        >(ModelError::TooLarge),
        rectangular(presence@, num_assays as nat) && numbered(presence@) ==> r is Ok
            && r->Ok_0.len() == presence.len() && forall|b: int|
            0 <= b < presence.len() ==> (#[trigger] r->Ok_0[b]) == pattern_value(presence[b]@),
{
    let n: usize = presence.len();
    let mut k: usize = 0;
    while k < n
        invariant
            k <= n,
            n == presence.len(),
            forall|b: int| 0 <= b < k ==> (#[trigger] presence[b])@.len() == num_assays,
        decreases n - k,
    {
        if presence[k].len() != num_assays {
            return Err(ModelError::Shape);
        }
        k += 1;
    }
    let mut out: Vec<usize> = Vec::new();
    let mut b: usize = 0;
    while b < n
        invariant
            b <= n,
            n == presence.len(),
            out.len() == b,
            rectangular(presence@, num_assays as nat),
            forall|x: int|
                0 <= x < b ==> pattern_value((#[trigger] presence[x])@) <= usize::MAX,
            forall|x: int| 0 <= x < b ==> (#[trigger] out[x]) == pattern_value(presence[x]@),
        decreases n - b,
    {
        match pattern_index(presence[b].as_slice()) {
            None => {
                return Err(ModelError::TooLarge);
            },
            Some(id) => {
                out.push(id);
            },
        }
        b += 1;
    }
    Ok(out)
}

} // verus!
