//! Draws of term identifiers whose frequencies follow Zipf's law.
//!
//! Rank `r` (identifier `r - 1`) has the integer weight `2^64 / r`, so its
//! probability is proportional to `1 / r`. The cumulative table holds the
//! running sums of the weights; a draw picks a uniform value below the total
//! weight and returns the first identifier whose running sum exceeds it. The
//! normalising factor is the exact total of the weights, so the last entry
//! of the table stands for probability one exactly.
use vstd::prelude::*;
use vstd::arithmetic::div_mod::{
    lemma_div_is_ordered_by_denominator, lemma_fundamental_div_mod, lemma_mod_pos_bound,
};
use rand::rngs::{OsRng, SmallRng};
use rand::Rng;
use rand::SeedableRng;

verus! {

#[verifier::external_type_specification]
#[verifier::external_body]
pub struct ExSmallRng(SmallRng);

/// Relies on the `Clone` that rand derives for `SmallRng`: a copy of the
/// generator's state, which cannot fail.
pub assume_specification[ <SmallRng as Clone>::clone ](rng: &SmallRng) -> SmallRng;

/// Relies on rand's `SeedableRng::from_rng` with `OsRng`: a generator seeded
/// from the operating system's randomness, or `None` when the operating
/// system offers none.
#[verifier::external_body]
fn entropy_rng() -> Option<SmallRng> {
    SmallRng::from_rng(OsRng).ok()
}

/// Relies on rand's `SeedableRng::seed_from_u64`: a generator whose output
/// is fixed by the seed.
#[verifier::external_body]
fn seeded_rng(seed: u64) -> SmallRng {
    SmallRng::seed_from_u64(seed)
}

/// Relies on rand's `Rng::gen_range` over `0..bound`: a value below `bound`.
/// It panics on an empty range, which `requires` rules out.
#[verifier::external_body]
fn draw_below(rng: &mut SmallRng, bound: u128) -> (r: u128)
    requires
        0 < bound,
    ensures
        r < bound,
{
    rng.gen_range(0..bound)
}

/// The weight of rank 1; the weight of rank `r` is this divided by `r`.
pub const WEIGHT_SCALE: u128 = 0x1_0000_0000_0000_0000;

/// The weight of rank `rank` (identifier `rank - 1`).
pub open spec fn rank_weight(rank: nat) -> nat {
    if rank == 0 {
        0
    } else {
        WEIGHT_SCALE as nat / rank
    }
}

/// The sum of the weights of ranks `1..=n`.
pub open spec fn cumulative_weight(n: nat) -> nat
    decreases n,
{
    if n == 0 {
        0
    } else {
        cumulative_weight((n - 1) as nat) + rank_weight(n)
    }
}

/// Every rank up to `2^64` weighs at least one and at most `2^64`.
proof fn lemma_rank_weight_bounds(rank: nat)
    requires
        1 <= rank <= WEIGHT_SCALE,
    ensures
        1 <= rank_weight(rank) <= WEIGHT_SCALE,
{
    lemma_div_is_ordered_by_denominator(WEIGHT_SCALE as int, 1, rank as int);
    lemma_div_is_ordered_by_denominator(WEIGHT_SCALE as int, rank as int, WEIGHT_SCALE as int);
}

/// The running sums stay below `n * 2^64`.
proof fn lemma_cumulative_bound(n: nat)
    requires
        n <= WEIGHT_SCALE,
    ensures
        cumulative_weight(n) <= n * WEIGHT_SCALE,
    decreases n,
{
    if n > 0 {
        lemma_cumulative_bound((n - 1) as nat);
        lemma_rank_weight_bounds(n);
    }
}

/// The running sums do not decrease.
pub proof fn lemma_cumulative_monotone(i: nat, j: nat)
    requires
        i <= j,
    ensures
        cumulative_weight(i) <= cumulative_weight(j),
    decreases j - i,
{
    if i < j {
        lemma_cumulative_monotone(i, (j - 1) as nat);
    }
}

/// The cumulative table of a generator never decreases, and its last entry
/// is the total weight, that is probability one.
pub proof fn lemma_table_monotone(g: &ZipfGenerator, i: int, j: int)
    requires
        g.wf(),
        0 <= i <= j < g.ranks(),
    ensures
        g.table()[i] <= g.table()[j],
        g.table()[g.ranks() - 1] == g.total_weight(),
{
    lemma_cumulative_monotone((i + 1) as nat, (j + 1) as nat);
    assert(g.table()[g.ranks() - 1] == cumulative_weight(g.ranks()));
}

/// `pick` returns identifier `i` for exactly `rank_weight(i + 1)` of the
/// uniform values, so a lower identifier is drawn at least as often as a
/// higher one, and identifier 0 is drawn strictly more often than 1, and 1
/// than 2.
pub proof fn lemma_lower_identifiers_more_likely(i: nat, j: nat)
    requires
        i <= j,
    ensures
        cumulative_weight(i + 1) - cumulative_weight(i) == rank_weight(i + 1),
        cumulative_weight(i + 1) - cumulative_weight(i) >= cumulative_weight(j + 1)
            - cumulative_weight(j),
        cumulative_weight(1) - cumulative_weight(0) > cumulative_weight(2) - cumulative_weight(1),
        cumulative_weight(2) - cumulative_weight(1) > cumulative_weight(3) - cumulative_weight(2),
{
    lemma_div_is_ordered_by_denominator(WEIGHT_SCALE as int, (i + 1) as int, (j + 1) as int);
    assert(cumulative_weight(i + 1) == cumulative_weight(i) + rank_weight(i + 1));
    assert(cumulative_weight(j + 1) == cumulative_weight(j) + rank_weight(j + 1));
    assert(cumulative_weight(1) == cumulative_weight(0) + rank_weight(1));
    assert(cumulative_weight(2) == cumulative_weight(1) + rank_weight(2));
    assert(cumulative_weight(3) == cumulative_weight(2) + rank_weight(3));
    assert(rank_weight(1) == 0x1_0000_0000_0000_0000nat);
    assert(rank_weight(2) == 0x8000_0000_0000_0000nat);
    assert(rank_weight(3) == 0x5555_5555_5555_5555nat);
}

/// Each identifier is strictly more likely than the next one, for every
/// identifier up to rank `2^32`: `pick` returns identifier `i` for strictly
/// more uniform values than identifier `i + 1`.
pub proof fn lemma_each_identifier_more_likely_than_next(i: nat)
    requires
        i + 2 <= 0x1_0000_0000,
    ensures
        rank_weight(i + 1) > rank_weight(i + 2),
        cumulative_weight(i + 1) - cumulative_weight(i) > cumulative_weight(i + 2)
            - cumulative_weight(i + 1),
{
    let scale = WEIGHT_SCALE as int;
    let a = (i + 1) as int;
    let b = (i + 2) as int;
    let q = scale / b;
    let rb = scale % b;
    let p = scale / a;
    let ra = scale % a;
    lemma_fundamental_div_mod(scale, b);
    lemma_mod_pos_bound(scale, b);
    lemma_fundamental_div_mod(scale, a);
    lemma_mod_pos_bound(scale, a);
    assert(a * b <= scale) by (nonlinear_arith)
        requires
            1 <= a < b <= 0x1_0000_0000,
            scale == 0x1_0000_0000_0000_0000,
    ;
    assert(a <= q) by (nonlinear_arith)
        requires
            scale == b * q + rb,
            0 <= rb < b,
            a * b <= scale,
            b > 0,
    ;
    assert((q + 1) * a <= scale) by (nonlinear_arith)
        requires
            scale == b * q + rb,
            rb >= 0,
            b == a + 1,
            a <= q,
    ;
    assert(p >= q + 1) by (nonlinear_arith)
        requires
            scale == a * p + ra,
            0 <= ra < a,
            (q + 1) * a <= scale,
            a > 0,
    ;
    assert(cumulative_weight(i + 1) == cumulative_weight(i) + rank_weight(i + 1));
    assert(cumulative_weight(i + 2) == cumulative_weight(i + 1) + rank_weight(i + 2));
}

/// A generator of term identifiers over a fixed vocabulary, with its own
/// random source.
#[derive(Clone)]
pub struct ZipfGenerator {
    voc_size: usize,
    acc_probs: Vec<u128>,
    rng: SmallRng,
}

impl ZipfGenerator {
    /// The vocabulary size the generator was made with.
    pub closed spec fn vocabulary_size(&self) -> nat {
        self.voc_size as nat
    }

    /// The cumulative weight table.
    pub closed spec fn table(&self) -> Seq<u128> {
        self.acc_probs@
    }

    /// The number of identifiers drawn from: the vocabulary size, and one
    /// for an empty vocabulary, which always yields identifier 0.
    pub open spec fn ranks(&self) -> nat {
        if self.vocabulary_size() == 0 {
            1
        } else {
            self.vocabulary_size()
        }
    }

    /// The total weight; a table entry divided by it is a probability.
    pub open spec fn total_weight(&self) -> nat {
        cumulative_weight(self.ranks())
    }

    /// Entry `i` of the table is the running sum of the weights of ranks
    /// `1..=i + 1`.
    pub open spec fn wf(&self) -> bool {
        &&& self.table().len() == self.ranks()
        &&& forall|i: int|
            0 <= i < self.ranks() ==> #[trigger] self.table()[i] == cumulative_weight(
                (i + 1) as nat,
            )
    }

    fn build(voc_size: usize, rng: SmallRng) -> (r: ZipfGenerator)
        ensures
            r.wf(),
            r.vocabulary_size() == voc_size,
    {
        let n: usize = if voc_size == 0 {
            1
        } else {
            voc_size
        };
        let mut acc_probs: Vec<u128> = Vec::with_capacity(n);
        let mut acc: u128 = 0;
        let mut i: usize = 0;
        while i < n
            invariant
                i <= n,
                n as nat <= WEIGHT_SCALE,
                acc == cumulative_weight(i as nat),
                acc_probs@.len() == i,
                forall|k: int|
                    0 <= k < i ==> #[trigger] acc_probs@[k] == cumulative_weight((k + 1) as nat),
            decreases n - i,
        {
            let rank: u128 = i as u128 + 1;
            proof {
                lemma_cumulative_bound(rank as nat);
                assert((rank as nat) * WEIGHT_SCALE <= (n as nat) * WEIGHT_SCALE) by (nonlinear_arith)
                    requires
                        rank <= n,
                ;
                assert((n as nat) * WEIGHT_SCALE < u128::MAX) by (nonlinear_arith)
                    requires
                        n as nat <= WEIGHT_SCALE - 1,
                ;
            }
            acc = acc + WEIGHT_SCALE / rank;
            acc_probs.push(acc);
            i = i + 1;
        }
        ZipfGenerator { voc_size, acc_probs, rng }
    }

    /// A generator over `voc_size` identifiers, seeded from the operating
    /// system, or `None` when the operating system cannot supply a seed. An
    /// empty vocabulary is treated as one of a single identifier.
    pub fn new(voc_size: usize) -> (r: Option<ZipfGenerator>)
        ensures
            r matches Some(g) ==> g.wf() && g.vocabulary_size() == voc_size,
    {
        match entropy_rng() {
            Some(rng) => Some(ZipfGenerator::build(voc_size, rng)),
            None => None,
        }
    }

    /// A generator over `voc_size` identifiers whose draws are fixed by
    /// `seed`.
    pub fn with_seed(voc_size: usize, seed: u64) -> (r: ZipfGenerator)
        ensures
            r.wf(),
            r.vocabulary_size() == voc_size,
    {
        ZipfGenerator::build(voc_size, seeded_rng(seed))
    }

    /// The vocabulary size the generator was made with.
    pub fn voc_size(&self) -> (r: usize)
        ensures
            r == self.vocabulary_size(),
    {
        self.voc_size
    }

    /// The cumulative weight table.
    pub fn acc_probs(&self) -> (r: &Vec<u128>)
        ensures
            r@ == self.table(),
    {
        &self.acc_probs
    }

    /// The total weight, the table's last entry.
    pub fn total(&self) -> (r: u128)
        requires
            self.wf(),
        ensures
            r == self.total_weight(),
    {
        self.acc_probs[self.acc_probs.len() - 1]
    }

    /// The identifier that the uniform value `u` selects: the first one whose
    /// running weight exceeds `u`, found by binary search.
    pub fn pick(&self, u: u128) -> (r: usize)
        requires
            self.wf(),
            u < self.total_weight(),
        ensures
            r < self.ranks(),
            cumulative_weight(r as nat) <= u < cumulative_weight(r as nat + 1),
    {
        let mut lo: usize = 0;
        let mut hi: usize = self.acc_probs.len() - 1;
        while lo < hi
            invariant
                self.wf(),
                lo <= hi < self.ranks(),
                cumulative_weight(lo as nat) <= u,
                u < cumulative_weight(hi as nat + 1),
            decreases hi - lo,
        {
            let mid = lo + (hi - lo) / 2;
            if self.acc_probs[mid] > u {
                hi = mid;
            } else {
                lo = mid + 1;
            }
        }
        lo
    }

    /// Draw the next identifier.
    pub fn next(&mut self) -> (r: usize)
        requires
            old(self).wf(),
        ensures
            final(self).wf(),
            final(self).vocabulary_size() == old(self).vocabulary_size(),
            final(self).table() == old(self).table(),
            r < old(self).ranks(),
    {
        let total = self.total();
        proof {
            lemma_cumulative_monotone(1, self.ranks());
            assert(cumulative_weight(0) == 0);
            assert(cumulative_weight(1) == cumulative_weight(0) + rank_weight(1));
            lemma_rank_weight_bounds(1);
        }
        let u = draw_below(&mut self.rng, total);
        self.pick(u)
    }

    /// Draw `len` identifiers, in order.
    pub fn take(&mut self, len: usize) -> (r: Vec<usize>)
        requires
            old(self).wf(),
        ensures
            final(self).wf(),
            final(self).vocabulary_size() == old(self).vocabulary_size(),
            final(self).table() == old(self).table(),
            r@.len() == len,
            forall|i: int| 0 <= i < len ==> #[trigger] r@[i] < old(self).ranks(),
    {
        let mut terms: Vec<usize> = Vec::with_capacity(len);
        let mut i: usize = 0;
        while i < len
            invariant
                i <= len,
                self.wf(),
                self.vocabulary_size() == old(self).vocabulary_size(),
                self.table() == old(self).table(),
                terms@.len() == i,
                forall|k: int| 0 <= k < i ==> #[trigger] terms@[k] < old(self).ranks(),
            decreases len - i,
        {
            let t = self.next();
            terms.push(t);
            i = i + 1;
        }
        terms
    }
}

} // verus!
