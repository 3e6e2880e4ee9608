//! The bins of a chromosome, and the window of positions that each bin
//! looks at.
//!
//! A chromosome of `chr_len` positions is cut into bins of `window`
//! positions each, bin `k` starting at position `k * window`; the last bin
//! may be shorter. The observation of a bin is taken over a window that
//! starts one position before the bin, though not below 0, and is `window +
//! 1` positions long.
use vstd::arithmetic::div_mod::lemma_fundamental_div_mod;
use vstd::arithmetic::div_mod::lemma_mod_bound;
use vstd::prelude::*;

verus! {

/// The cut of a chromosome into bins.
#[derive(Clone, Copy, Debug)]
pub struct Binning {
    chr_len: usize,
    window: usize,
}

/// The number of bins of `window` positions that cover `chr_len` positions.
pub open spec fn bin_count(chr_len: nat, window: nat) -> nat {
    ((chr_len + window - 1) / (window as int)) as nat
}

/// The first position of the window of bin `bin`.
pub open spec fn window_start(bin: nat, window: nat) -> nat {
    if bin == 0 {
        0
    } else {
        (bin * window - 1) as nat
    }
}

/// The position after the last of the window of bin `bin`.
pub open spec fn window_end(bin: nat, window: nat) -> nat {
    window_start(bin, window) + window + 1
}

impl Binning {
    /// The number of positions of the chromosome.
    pub closed spec fn chr_len(&self) -> nat {
        self.chr_len as nat
    }

    /// The number of positions of a bin.
    pub closed spec fn window(&self) -> nat {
        self.window as nat
    }

    /// The number of bins.
    pub open spec fn bins(&self) -> nat {
        bin_count(self.chr_len(), self.window())
    }

    #[verifier::type_invariant]
    spec fn inv(self) -> bool {
        self.window > 0 && self.chr_len + self.window + 1 <= u32::MAX
    }

    /// Bins of `window` positions over `chr_len` positions. There is none
    /// where the window is empty, or where a position of a window would not
    /// fit in 32 bits.
    pub fn new(chr_len: usize, window: usize) -> (r: Option<Binning>)
        ensures
            window == 0 || chr_len + window + 1 > u32::MAX ==> r is None,
            window > 0 && chr_len + window + 1 <= u32::MAX ==> r is Some && r->Some_0.chr_len()
                == chr_len && r->Some_0.window() == window,
    {
        if window == 0 || chr_len > 0xffff_ffff || window > 0xffff_ffff {
            return None;
        }
        if chr_len as u64 + window as u64 + 1 > 0xffff_ffff {
            return None;
        }
        Some(Binning { chr_len, window })
    }

    /// The number of bins.
    pub fn num_bins(&self) -> (r: usize)
        ensures
            r == self.bins(),
            self.window() > 0,
            self.chr_len() + self.window() + 1 <= u32::MAX,
    {
        proof {
            use_type_invariant(self);
        }
        (self.chr_len + self.window - 1) / self.window
    }

    /// The number of rows that the tables of a cell are made with, and the
    /// number of bins that a cell file records: one more than the number
    /// of whole bins.
    pub fn table_rows(&self) -> (r: u32)
        ensures
            r == self.chr_len() / self.window() + 1,
    {
        proof {
            use_type_invariant(self);
        }
        let whole: usize = self.chr_len / self.window;
        (whole + 1) as u32
    }

    /// The window of bin `bin`: its first position, and the position after
    /// its last.
    pub fn window_of(&self, bin: usize) -> (r: (u32, u32))
        requires
            bin < self.bins(),
        ensures
            r.0 == window_start(bin as nat, self.window()),
            r.1 == window_end(bin as nat, self.window()),
            r.0 < r.1,
    {
        proof {
            use_type_invariant(self);
            lemma_bin_starts_inside(self.chr_len as nat, self.window as nat, bin as nat);
        }
        let first: usize = bin * self.window;
        let lo: usize = if first == 0 {
            0
        } else {
            first - 1
        };
        assert(bin == 0 ==> first == 0);
        assert(bin > 0 ==> first > 0) by (nonlinear_arith)
            requires
                first == bin * self.window,
                self.window > 0,
        ;
        (lo as u32, (lo + self.window + 1) as u32)
    }
}

/// Every bin starts inside the chromosome.
pub proof fn lemma_bin_starts_inside(chr_len: nat, window: nat, bin: nat)
    requires
        window > 0,
        bin < bin_count(chr_len, window),
    ensures
        bin * window < chr_len,
{
    let total = (chr_len + window - 1) as int;
    let w = window as int;
    let q = total / w;
    let b = bin as int;
    lemma_fundamental_div_mod(total, w);
    lemma_mod_bound(total, w);
    assert((b + 1) * w <= q * w) by (nonlinear_arith)
        requires
            b + 1 <= q,
            w > 0,
    ;
    assert((b + 1) * w == b * w + w) by (nonlinear_arith);
    assert(w * q == q * w) by (nonlinear_arith);
}

} // verus!
