use crate::fusion::{item_views, select_top_n, top_n, ScoredItem};
use crate::name_map::{holds, value_of, with_entry, NameMap};
use crate::types::{MetricType, Normalization};
use vstd::prelude::*;

verus! {

/// Configuration of reciprocal-rank fusion: how many items the fused ranking
/// keeps, and the constant added to every rank.
pub struct RrfReRanker {
    topn: usize,
    rank_constant: i32,
}

impl RrfReRanker {
    pub closed spec fn spec_topn(&self) -> usize {
        self.topn
    }

    pub closed spec fn spec_rank_constant(&self) -> i32 {
        self.rank_constant
    }

    /// The divisor of the contribution of zero-based rank `rank` under rank
    /// constant `rank_constant`: the contribution is its reciprocal.
    pub open spec fn divisor(rank_constant: int, rank: int) -> int {
        rank_constant + rank + 1
    }

    /// A ranker that keeps `topn` items, with the rank constant 60.
    pub fn new(topn: usize) -> (ranker: RrfReRanker)
        ensures
            ranker.spec_topn() == topn,
            ranker.spec_rank_constant() == 60,
    {
        RrfReRanker { topn, rank_constant: 60 }
    }

    /// The same ranker with another rank constant.
    pub fn with_rank_constant(self, rank_constant: i32) -> (ranker: RrfReRanker)
        ensures
            ranker.spec_topn() == self.spec_topn(),
            ranker.spec_rank_constant() == rank_constant,
    {
        let mut ranker = self;
        ranker.rank_constant = rank_constant;
        ranker
    }

    #[verifier::when_used_as_spec(spec_topn)]
    pub fn topn(&self) -> (topn: usize)
        ensures
            topn == self.spec_topn(),
    {
        self.topn
    }

    #[verifier::when_used_as_spec(spec_rank_constant)]
    pub fn rank_constant(&self) -> (rank_constant: i32)
        ensures
            rank_constant == self.spec_rank_constant(),
    {
        self.rank_constant
    }

    /// The divisor of the contribution of an item at zero-based rank `rank`.
    pub fn rank_divisor(&self, rank: usize) -> (divisor: i128)
        ensures
            divisor == Self::divisor(self.spec_rank_constant() as int, rank as int),
    {
        self.rank_constant as i128 + rank as i128 + 1
    }

    /// The ranking stage of the fusion: orders the items, whose keys stand
    /// for their summed contributions, and keeps the best `topn` of them.
    pub fn rerank(&self, items: Vec<ScoredItem>) -> (fused: Vec<ScoredItem>)
        ensures
            item_views(fused@) == top_n(item_views(items@), self.spec_topn() as nat),
            fused@.len() == if self.spec_topn() <= items@.len() {
                self.spec_topn() as nat
            } else {
                items@.len()
            },
    {
        select_top_n(items, self.topn)
    }

    /// Under a rank constant that is not negative every divisor is positive
    /// and grows with the rank, so a better rank contributes strictly more.
    pub proof fn lemma_divisor_grows_with_rank(rank_constant: int, better: int, worse: int)
        requires
            0 <= rank_constant,
            0 <= better < worse,
        ensures
            0 < Self::divisor(rank_constant, better) < Self::divisor(rank_constant, worse),
    {
    }
}

/// Configuration of weighted score fusion: how many items the fused ranking
/// keeps, the metric under which the raw scores were computed, and the
/// weight of each list by its name. `W` is the type of a weight.
pub struct WeightedReRanker<W> {
    topn: usize,
    metric: MetricType,
    weights: NameMap<W>,
}

impl<W> WeightedReRanker<W> {
    pub closed spec fn spec_topn(&self) -> usize {
        self.topn
    }

    pub closed spec fn spec_metric(&self) -> MetricType {
        self.metric
    }

    /// The weights that were set, in the order of the list names.
    pub closed spec fn weights(&self) -> Seq<(Seq<char>, W)> {
        self.weights@
    }

    /// A ranker that keeps `topn` items of lists scored under `metric`, with
    /// no weight set.
    pub fn new(topn: usize, metric: MetricType) -> (ranker: WeightedReRanker<W>)
        ensures
            ranker.spec_topn() == topn,
            ranker.spec_metric() == metric,
            ranker.weights() == Seq::<(Seq<char>, W)>::empty(),
    {
        WeightedReRanker { topn, metric, weights: NameMap::new() }
    }

    /// The same ranker with `weight` for the list named `field`, in place of
    /// the weight that was set for it before, if any.
    pub fn with_weight(self, field: String, weight: W) -> (ranker: WeightedReRanker<W>)
        ensures
            ranker.spec_topn() == self.spec_topn(),
            ranker.spec_metric() == self.spec_metric(),
            ranker.weights() == with_entry(self.weights(), field@, weight),
    {
        let WeightedReRanker { topn, metric, weights } = self;
        WeightedReRanker { topn, metric, weights: weights.with_value(field, weight) }
    }

    /// The same ranker with `weights` in place of all the weights that were set.
    pub fn with_weights(self, weights: NameMap<W>) -> (ranker: WeightedReRanker<W>)
        ensures
            ranker.spec_topn() == self.spec_topn(),
            ranker.spec_metric() == self.spec_metric(),
            ranker.weights() == weights@,
    {
        let WeightedReRanker { topn, metric, weights: _ } = self;
        WeightedReRanker { topn, metric, weights }
    }

    #[verifier::when_used_as_spec(spec_topn)]
    pub fn topn(&self) -> (topn: usize)
        ensures
            topn == self.spec_topn(),
    {
        self.topn
    }

    #[verifier::when_used_as_spec(spec_metric)]
    pub fn metric(&self) -> (metric: MetricType)
        ensures
            metric == self.spec_metric(),
    {
        self.metric
    }

    /// The weight that was set for the list named `name`. Where none was set
    /// the list counts with the weight one.
    pub fn weight(&self, name: &str) -> (weight: Option<&W>)
        ensures
            weight is Some <==> holds(self.weights(), name@),
            weight is Some ==> Some(*weight->Some_0) == value_of(self.weights(), name@),
    {
        self.weights.get(name)
    }

    /// The rule that brings the raw scores of this ranker's metric onto the
    /// common scale.
    pub fn normalization(&self) -> (rule: Normalization)
        ensures
            rule == self.spec_metric().spec_normalization(),
    {
        self.metric.normalization()
    }

    /// The ranking stage of the fusion: orders the items, whose keys stand
    /// for their summed contributions, and keeps the best `topn` of them.
    pub fn rerank(&self, items: Vec<ScoredItem>) -> (fused: Vec<ScoredItem>)
        ensures
            item_views(fused@) == top_n(item_views(items@), self.spec_topn() as nat),
            fused@.len() == if self.spec_topn() <= items@.len() {
                self.spec_topn() as nat
            } else {
                items@.len()
            },
    {
        select_top_n(items, self.topn)
    }
}

} // verus!
