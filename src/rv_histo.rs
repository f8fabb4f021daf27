//! Seeded sampling of bins from a weighted histogram, by an alias table.

use vstd::prelude::*;
use rand::distributions::Distribution;
use rand::rngs::StdRng;
use rand::SeedableRng;
use rand_distr::weighted_alias::WeightedAliasIndex;
use rand_distr::WeightedError;
use crate::job::seq_sum;

verus! {

/// rand's seeded generator, opaque to Verus.
#[verifier::external_type_specification]
#[verifier::external_body]
pub struct ExStdRng(StdRng);

/// rand_distr's alias table over `usize` weights, held in a struct of the
/// library because Verus refuses the declaration of the type itself (its
/// bound on an outside trait); its weights are read through `alias_weights`.
#[verifier::external_body]
pub struct AliasTable {
    table: WeightedAliasIndex<usize>,
}

/// rand's error for weight tables; its variants carry no data.
#[verifier::external_type_specification]
pub struct ExWeightedError(WeightedError);

/// The weights an alias table was built from, one per bin.
pub uninterp spec fn alias_weights(a: AliasTable) -> Seq<usize>;

pub open spec fn weights_of(w: Seq<usize>) -> Seq<int> {
    w.map_values(|x: usize| x as int)
}

/// Relies on rand's `StdRng::seed_from_u64`: a generator seeded from `seed`.
#[verifier::external_body]
pub(crate) fn seeded_rng(seed: u64) -> (r: StdRng) {
    StdRng::seed_from_u64(seed)
}

/// What `WeightedAliasIndex::new` refuses a weight table with, checking in
/// this order: no weight, more than `u32::MAX` weights, a weight above
/// `usize::MAX / n`, a zero sum.
pub open spec fn alias_error(w: Seq<usize>) -> Option<WeightedError> {
    if w.len() == 0 {
        Some(WeightedError::NoItem)
    } else if w.len() > u32::MAX {
        Some(WeightedError::TooMany)
    } else if exists|i: int| 0 <= i < w.len() && #[trigger] w[i] > (usize::MAX as nat) / w.len() {
        Some(WeightedError::InvalidWeight)
    } else if seq_sum(weights_of(w)) == 0 {
        Some(WeightedError::AllWeightsZero)
    } else {
        None
    }
}

/// Relies on rand_distr's `WeightedAliasIndex::new`: the checks of
/// `alias_error`, then a table over exactly these weights.
#[verifier::external_body]
fn alias_table(weights: &Vec<usize>) -> (r: Result<AliasTable, WeightedError>)
    ensures
        r is Ok <==> alias_error(weights@) is None,
        r is Err ==> alias_error(weights@) == Some(r->Err_0),
        r is Ok ==> alias_weights(r->Ok_0) == weights@,
{
    WeightedAliasIndex::new(weights.clone()).map(|table| AliasTable { table })
}

/// Relies on rand_distr's `WeightedAliasIndex::sample`: the index of a bin
/// of positive weight. With integer weights a bin of weight 0 gets no
/// no-alias odds, and every alias points to a bin of positive weight.
#[verifier::external_body]
fn alias_draw(a: &AliasTable, rng: &mut StdRng) -> (r: usize)
    ensures
        r < alias_weights(*a).len(),
        alias_weights(*a)[r as int] > 0,
{
    a.table.sample(rng)
}

/// Why a weight table cannot be sampled.
#[derive(Debug, Clone, Copy, PartialEq, Eq, Structural)]
pub enum HistoError {
    /// The table has no bin.
    NoBins,
    /// The table has more than `u32::MAX` bins.
    TooManyBins,
    /// A weight exceeds `usize::MAX` divided by the number of bins.
    WeightTooLarge,
    /// All the weights are zero.
    ZeroTotalWeight,
    /// The values and the weights differ in number.
    LengthMismatch,
    /// A value lies outside the range its use admits.
    ValueOutOfRange,
}

/// The tables that a sampler accepts.
pub open spec fn valid_weights(w: Seq<usize>) -> bool {
    &&& 0 < w.len() <= u32::MAX
    &&& forall|i: int| 0 <= i < w.len() ==> #[trigger] w[i] <= (usize::MAX as nat) / w.len()
    &&& seq_sum(weights_of(w)) > 0
}

/// The error that a weight table gets, if any.
pub open spec fn weights_error(w: Seq<usize>) -> Option<HistoError> {
    if w.len() == 0 {
        Some(HistoError::NoBins)
    } else if w.len() > u32::MAX {
        Some(HistoError::TooManyBins)
    } else if exists|i: int| 0 <= i < w.len() && #[trigger] w[i] > (usize::MAX as nat) / w.len() {
        Some(HistoError::WeightTooLarge)
    } else if seq_sum(weights_of(w)) == 0 {
        Some(HistoError::ZeroTotalWeight)
    } else {
        None
    }
}

/// Draws bin indices at random, each with a probability proportional to
/// its weight, from its own seeded generator.
pub struct BinSampler {
    rng: StdRng,
    alias: AliasTable,
    bins: usize,
}

impl BinSampler {
    /// Number of bins.
    pub closed spec fn len(&self) -> nat {
        self.bins as nat
    }

    /// The weight of each bin.
    pub closed spec fn weights(&self) -> Seq<usize> {
        alias_weights(self.alias)
    }

    pub closed spec fn wf(&self) -> bool {
        alias_weights(self.alias).len() == self.bins && self.bins > 0
    }

    /// A sampler over `weights`, drawing from a generator seeded with `seed`.
    pub fn new(seed: u64, weights: &Vec<usize>) -> (r: Result<BinSampler, HistoError>)
        ensures
            weights_error(weights@) is None <==> r is Ok,
            weights_error(weights@) is None ==> valid_weights(weights@),
            r is Ok ==> r->Ok_0.wf() && r->Ok_0.len() == weights.len() && r->Ok_0.weights() == weights@,
            r is Err ==> weights_error(weights@) == Some(r->Err_0),
    {
        let n = weights.len();
        proof {
            crate::job::lemma_sum_nonneg(weights_of(weights@));
        }
        match alias_table(weights) {
            Ok(alias) => {
                let rng = seeded_rng(seed);
                Ok(BinSampler { rng, alias, bins: n })
            },
            Err(WeightedError::NoItem) => Err(HistoError::NoBins),
            Err(WeightedError::TooMany) => Err(HistoError::TooManyBins),
            Err(WeightedError::InvalidWeight) => Err(HistoError::WeightTooLarge),
            Err(WeightedError::AllWeightsZero) => Err(HistoError::ZeroTotalWeight),
        }
    }

    /// Number of bins.
    pub fn bins(&self) -> (r: usize)
        ensures
            r == self.len(),
    {
        self.bins
    }

    /// Draws the index of a bin.
    pub fn draw(&mut self) -> (r: usize)
        requires
            old(self).wf(),
        ensures
            final(self).wf(),
            final(self).len() == old(self).len(),
            final(self).weights() == old(self).weights(),
            r < old(self).len(),
            old(self).weights()[r as int] > 0,
    {
        alias_draw(&self.alias, &mut self.rng)
    }
}

/// A weight table with one integer value per bin.
pub struct IntTable {
    pub weights: Vec<usize>,
    pub values: Vec<usize>,
}

/// Every value lies in `[lo, hi]`.
pub open spec fn values_within(values: Seq<usize>, lo: int, hi: int) -> bool {
    forall|i: int| 0 <= i < values.len() ==> lo <= #[trigger] values[i] <= hi
}

/// The error that a table gets when its values must lie in `[lo, hi]`.
pub open spec fn table_error(weights: Seq<usize>, values: Seq<usize>, lo: int, hi: int) -> Option<
    HistoError,
> {
    if values.len() != weights.len() {
        Some(HistoError::LengthMismatch)
    } else if weights_error(weights) is Some {
        weights_error(weights)
    } else if !values_within(values, lo, hi) {
        Some(HistoError::ValueOutOfRange)
    } else {
        None
    }
}

/// Checks that every value lies in `[lo, hi]`.
fn check_values(values: &Vec<usize>, lo: usize, hi: usize) -> (r: bool)
    ensures
        r == values_within(values@, lo as int, hi as int),
{
    let mut i: usize = 0;
    while i < values.len()
        invariant
            i <= values.len(),
            values_within(values@.take(i as int), lo as int, hi as int),
        decreases values.len() - i,
    {
        if values[i] < lo || values[i] > hi {
            assert(!values_within(values@, lo as int, hi as int)) by {
                assert(!(lo <= values@[i as int] <= hi));
            }
            return false;
        }
        assert(values_within(values@.take(i + 1), lo as int, hi as int)) by {
            assert forall|k: int| 0 <= k < i + 1 implies lo <= #[trigger] values@.take(i + 1)[k]
                <= hi by {
                if k < i {
                    assert(values@.take(i + 1)[k] == values@.take(i as int)[k]);
                }
            }
        }
        i = i + 1;
    }
    assert(values@.take(i as int) =~= values@);
    true
}

/// A histogram whose bins carry integer values.
pub struct IntHisto {
    bins: BinSampler,
    values: Vec<usize>,
}

impl IntHisto {
    /// The value of each bin.
    pub closed spec fn values(&self) -> Seq<usize> {
        self.values@
    }

    /// The weight of each bin.
    pub closed spec fn weights(&self) -> Seq<usize> {
        self.bins.weights()
    }

    pub closed spec fn wf(&self) -> bool {
        self.bins.wf() && self.bins.len() == self.values@.len()
    }

    /// A histogram over `table`, whose values must lie in `[lo, hi]`,
    /// drawing from a generator seeded with `seed`.
    pub fn new(seed: u64, table: IntTable, lo: usize, hi: usize) -> (r: Result<IntHisto, HistoError>)
        ensures
            r is Ok <==> table_error(table.weights@, table.values@, lo as int, hi as int) is None,
            r is Ok ==> r->Ok_0.wf() && r->Ok_0.values() == table.values@ && r->Ok_0.weights()
                == table.weights@,
            r is Err ==> table_error(table.weights@, table.values@, lo as int, hi as int) == Some(
                r->Err_0,
            ),
    {
        if table.values.len() != table.weights.len() {
            return Err(HistoError::LengthMismatch);
        }
        let bins = match BinSampler::new(seed, &table.weights) {
            Ok(b) => b,
            Err(e) => {
                return Err(e);
            },
        };
        if !check_values(&table.values, lo, hi) {
            return Err(HistoError::ValueOutOfRange);
        }
        Ok(IntHisto { bins, values: table.values })
    }

    /// Whether every value lies in `[lo, hi]`.
    pub fn values_within(&self, lo: usize, hi: usize) -> (r: bool)
        ensures
            r == values_within(self.values(), lo as int, hi as int),
    {
        check_values(&self.values, lo, hi)
    }

    /// Draws a bin and returns its value.
    pub fn sample(&mut self) -> (r: usize)
        requires
            old(self).wf(),
        ensures
            final(self).wf(),
            final(self).values() == old(self).values(),
            final(self).weights() == old(self).weights(),
            old(self).values().contains(r),
            exists|i: int| 0 <= i < old(self).values().len() && old(self).weights()[i] > 0
                && #[trigger] old(self).values()[i] == r,
    {
        let i = self.bins.draw();
        let v = self.values[i];
        assert(old(self).weights()[i as int] > 0 && old(self).values()[i as int] == v);
        v
    }
}

/// The memory table: one weight per bin, and for each bin the state size
/// and the argument size that a draw of it gives.
pub struct MemTable {
    pub weights: Vec<usize>,
    pub state_sizes: Vec<usize>,
    pub arg_sizes: Vec<usize>,
}

/// The memory histogram: one generator for state sizes and argument sizes.
pub struct MemHisto {
    bins: BinSampler,
    state_sizes: Vec<usize>,
    arg_sizes: Vec<usize>,
}

impl MemHisto {
    pub closed spec fn state_sizes(&self) -> Seq<usize> {
        self.state_sizes@
    }

    pub closed spec fn arg_sizes(&self) -> Seq<usize> {
        self.arg_sizes@
    }

    /// The weight of each bin.
    pub closed spec fn weights(&self) -> Seq<usize> {
        self.bins.weights()
    }

    pub closed spec fn wf(&self) -> bool {
        &&& self.bins.wf()
        &&& self.bins.len() == self.state_sizes@.len()
        &&& self.bins.len() == self.arg_sizes@.len()
    }

    /// A histogram over `table`, whose sizes must not exceed `hi`.
    pub fn new(seed: u64, table: MemTable, hi: usize) -> (r: Result<MemHisto, HistoError>)
        ensures
            r is Ok <==> table_error(table.weights@, table.state_sizes@, 0, hi as int) is None
                && table_error(table.weights@, table.arg_sizes@, 0, hi as int) is None,
            r is Ok ==> r->Ok_0.wf() && r->Ok_0.state_sizes() == table.state_sizes@
                && r->Ok_0.arg_sizes() == table.arg_sizes@ && r->Ok_0.weights() == table.weights@,
            r is Err ==> table_error(table.weights@, table.state_sizes@, 0, hi as int) == Some(
                r->Err_0,
            ) || table_error(table.weights@, table.arg_sizes@, 0, hi as int) == Some(r->Err_0),
    {
        if table.state_sizes.len() != table.weights.len() || table.arg_sizes.len()
            != table.weights.len() {
            return Err(HistoError::LengthMismatch);
        }
        let bins = match BinSampler::new(seed, &table.weights) {
            Ok(b) => b,
            Err(e) => {
                return Err(e);
            },
        };
        if !check_values(&table.state_sizes, 0, hi) || !check_values(&table.arg_sizes, 0, hi) {
            return Err(HistoError::ValueOutOfRange);
        }
        Ok(MemHisto { bins, state_sizes: table.state_sizes, arg_sizes: table.arg_sizes })
    }

    /// Draws a bin and returns its state size.
    pub fn sample_state(&mut self) -> (r: usize)
        requires
            old(self).wf(),
        ensures
            final(self).wf(),
            final(self).state_sizes() == old(self).state_sizes(),
            final(self).arg_sizes() == old(self).arg_sizes(),
            final(self).weights() == old(self).weights(),
            old(self).state_sizes().contains(r),
            exists|i: int| 0 <= i < old(self).state_sizes().len() && old(self).weights()[i] > 0
                && #[trigger] old(self).state_sizes()[i] == r,
    {
        let i = self.bins.draw();
        let v = self.state_sizes[i];
        assert(old(self).weights()[i as int] > 0 && old(self).state_sizes()[i as int] == v);
        v
    }

    /// Draws a bin and returns its argument size.
    pub fn sample_arg(&mut self) -> (r: usize)
        requires
            old(self).wf(),
        ensures
            final(self).wf(),
            final(self).state_sizes() == old(self).state_sizes(),
            final(self).arg_sizes() == old(self).arg_sizes(),
            final(self).weights() == old(self).weights(),
            old(self).arg_sizes().contains(r),
            exists|i: int| 0 <= i < old(self).arg_sizes().len() && old(self).weights()[i] > 0
                && #[trigger] old(self).arg_sizes()[i] == r,
    {
        let i = self.bins.draw();
        let v = self.arg_sizes[i];
        assert(old(self).weights()[i as int] > 0 && old(self).arg_sizes()[i as int] == v);
        v
    }
}

} // verus!
