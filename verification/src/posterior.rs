//! The filter on posterior entries.
//!
//! After inference every bin has one posterior probability per state. An
//! entry is reported only if its probability is above a minimum and its
//! state is one of the informative states. The filter orders probabilities
//! and never computes with them, so it takes each as a key: an unsigned
//! integer that is larger for a larger probability. The entries of a cell
//! come out with the last bin first and, within a bin, by rising state.
use vstd::prelude::*;

verus! {

/// One reported entry: the bin, the state, and the key of the probability.
#[derive(Clone, Copy, Debug, PartialEq, Eq, Structural)]
pub struct Entry {
    pub bin: usize,
    pub state: usize,
    pub key: u64,
}

/// `mask` lets the state `s` through.
pub open spec fn lets_through(mask: Seq<bool>, s: int) -> bool {
    0 <= s < mask.len() && mask[s]
}

/// The entry of state `s` is reported.
pub open spec fn reported(e: Entry, min_key: u64, mask: Seq<bool>) -> bool {
    e.key > min_key && lets_through(mask, e.state as int)
}

/// The entries of one bin before the filter, by rising state.
pub open spec fn candidates(bin: usize, keys: Seq<u64>) -> Seq<Entry> {
    Seq::new(keys.len(), |s: int| Entry { bin, state: s as usize, key: keys[s] })
}

/// The entries of one bin that are reported, by rising state.
pub open spec fn retained(bin: usize, keys: Seq<u64>, min_key: u64, mask: Seq<bool>) -> Seq<
    Entry,
> {
    candidates(bin, keys).filter(|e: Entry| reported(e, min_key, mask))
}

/// The entries of a cell that are reported, where `rows[b]` holds the keys
/// of bin `b`: the last bin first.
pub open spec fn posterior_of(rows: Seq<Vec<u64>>, min_key: u64, mask: Seq<bool>) -> Seq<Entry>
    decreases rows.len(),
{
    if rows.len() == 0 {
        Seq::empty()
    } else {
        retained((rows.len() - 1) as usize, rows.last()@, min_key, mask) + posterior_of(
            rows.drop_last(),
            min_key,
            mask,
        )
    }
}

/// The mask of the informative states 0, 1, 2, 3, 8, 9 and 11.
pub open spec fn informative() -> Seq<bool> {
    seq![true, true, true, true, false, false, false, false, true, true, false, true]
}

/// The mask of the informative states 0, 1, 2, 3, 8, 9 and 11.
pub fn informative_states() -> (r: Vec<bool>)
    ensures
        r@ == informative(),
{
    let mut mask: Vec<bool> = Vec::new();
    mask.push(true);
    mask.push(true);
    mask.push(true);
    mask.push(true);
    mask.push(false);
    mask.push(false);
    mask.push(false);
    mask.push(false);
    mask.push(true);
    mask.push(true);
    mask.push(false);
    mask.push(true);
    assert(mask@ =~= informative());
    mask
}

/// Adds to `posterior` the entries of bin `bin` that are reported.
pub fn retain_states(
    bin: usize,
    keys: &[u64],
    min_key: u64,
    mask: &[bool],
    posterior: &mut Vec<Entry>,
)
    ensures
        final(posterior)@ == old(posterior)@ + retained(bin, keys@, min_key, mask@),
{
    let ghost all = candidates(bin, keys@);
    let ghost pred = |e: Entry| reported(e, min_key, mask@);
    let ghost before = posterior@;
    let mut s: usize = 0;
    assert(all.take(0).filter(pred) =~= Seq::<Entry>::empty());
    assert(before + Seq::<Entry>::empty() =~= before);
    while s < keys.len()
        invariant
            s <= keys.len(),
            all == candidates(bin, keys@),
            pred == (|e: Entry| reported(e, min_key, mask@)),
            posterior@ == before + all.take(s as int).filter(pred),
        decreases keys.len() - s,
    {
        let entry = Entry { bin, state: s, key: keys[s] };
        proof {
            assert(all.take(s + 1) =~= all.take(s as int).push(entry));
            Seq::lemma_filter_push(all.take(s as int), entry, pred);
        }
        if keys[s] > min_key && s < mask.len() && mask[s] {
            posterior.push(entry);
            assert(posterior@ =~= before + all.take(s + 1).filter(pred));
        }
        s += 1;
    }
    assert(all.take(keys@.len() as int) =~= all);
}

/// The reported entries of a cell, where `rows[b]` holds the keys of bin
/// `b`.
pub fn retain_all(rows: &Vec<Vec<u64>>, min_key: u64, mask: &[bool]) -> (r: Vec<Entry>)
    ensures
        r@ == posterior_of(rows@, min_key, mask@),
{
    let n: usize = rows.len();
    let mut out: Vec<Entry> = Vec::new();
    let mut b: usize = n;
    proof {
        lemma_posterior_split(rows@, n as int, min_key, mask@);
        assert(rows@.take(n as int) =~= rows@);
    }
    while b > 0
        invariant
            b <= n,
            n == rows.len(),
            out@ + posterior_of(rows@.take(b as int), min_key, mask@) == posterior_of(
                rows@,
                min_key,
                mask@,
            ),
        decreases b,
    {
        b -= 1;
        let ghost was = out@;
        retain_states(b, rows[b].as_slice(), min_key, mask, &mut out);
        proof {
            let head = rows@.take(b + 1);
            assert(head.drop_last() =~= rows@.take(b as int));
            assert(head.last() == rows@[b as int]);
            let kept = retained(b, rows@[b as int]@, min_key, mask@);
            let rest = posterior_of(rows@.take(b as int), min_key, mask@);
            assert(was + (kept + rest) =~= (was + kept) + rest);
        }
    }
    assert(out@ + Seq::<Entry>::empty() =~= out@);
    assert(rows@.take(0).len() == 0);
    out
}

proof fn lemma_posterior_split(rows: Seq<Vec<u64>>, b: int, min_key: u64, mask: Seq<bool>)
    requires
        b == rows.len(),
    ensures
        Seq::<Entry>::empty() + posterior_of(rows.take(b), min_key, mask) == posterior_of(
            rows,
            min_key,
            mask,
        ),
{
    assert(rows.take(b) =~= rows);
    assert(Seq::<Entry>::empty() + posterior_of(rows, min_key, mask) =~= posterior_of(
        rows,
        min_key,
        mask,
    ));
}

proof fn lemma_filter_narrower<A>(s: Seq<A>, wide: spec_fn(A) -> bool, narrow: spec_fn(A) -> bool)
    requires
        forall|x: A| #[trigger] narrow(x) ==> wide(x),
    ensures
        s.filter(narrow).len() <= s.filter(wide).len(),
    decreases s.len(),
{
    if s.len() > 0 {
        lemma_filter_narrower(s.drop_last(), wide, narrow);
        assert(s =~= s.drop_last().push(s.last()));
        Seq::lemma_filter_push(s.drop_last(), s.last(), wide);
        Seq::lemma_filter_push(s.drop_last(), s.last(), narrow);
    }
}

/// Raising the minimum never lets more entries of a bin through.
pub proof fn lemma_retained_monotone(
    bin: usize,
    keys: Seq<u64>,
    low: u64,
    high: u64,
    mask: Seq<bool>,
)
    requires
        low <= high,
    ensures
        retained(bin, keys, high, mask).len() <= retained(bin, keys, low, mask).len(),
{
    lemma_filter_narrower(
        candidates(bin, keys),
        |e: Entry| reported(e, low, mask),
        |e: Entry| reported(e, high, mask),
    );
}

/// Raising the minimum never lets more entries of a cell through.
pub proof fn lemma_posterior_monotone(rows: Seq<Vec<u64>>, low: u64, high: u64, mask: Seq<bool>)
    requires
        low <= high,
    ensures
        posterior_of(rows, high, mask).len() <= posterior_of(rows, low, mask).len(),
    decreases rows.len(),
{
    if rows.len() > 0 {
        lemma_posterior_monotone(rows.drop_last(), low, high, mask);
        lemma_retained_monotone((rows.len() - 1) as usize, rows.last()@, low, high, mask);
    }
}

/// Every reported entry is above the minimum, in an informative state, and
/// is the entry of its state in its bin.
pub proof fn lemma_retained_sound(
    bin: usize,
    keys: Seq<u64>,
    min_key: u64,
    mask: Seq<bool>,
    i: int,
)
    requires
        keys.len() <= usize::MAX,
        0 <= i < retained(bin, keys, min_key, mask).len(),
    ensures
        ({
            let e = retained(bin, keys, min_key, mask)[i];
            &&& e.bin == bin
            &&& e.state < keys.len()
            &&& e.key == keys[e.state as int]
            &&& e.key > min_key
            &&& lets_through(mask, e.state as int)
        }),
{
    let pred = |e: Entry| reported(e, min_key, mask);
    let all = candidates(bin, keys);
    let kept = all.filter(pred);
    assert(kept.contains(kept[i]));
    Seq::lemma_filter_contains_rev(all, pred, kept[i]);
    let j = choose|j: int| 0 <= j < all.len() && all[j] == kept[i];
    assert(all[j].state == j);
}

} // verus!
