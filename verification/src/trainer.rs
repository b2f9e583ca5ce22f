//! Site-preserving token inputs, inference recipes, and exact integer
//! feature materialization for quantized scoring.
//!
//! Site `s` owns `tokens[site_offsets[s] .. site_offsets[s + 1]]` and
//! contributes to group `site_groups[s]`. The embedding rows of a site are
//! summed component-wise, the activation is applied to each sum, and activated
//! sites are added into their group.

use vstd::prelude::*;

use crate::features::{
    activate_spec, first_index, fits_i32, group_divisors_spec, group_is_empty, group_size,
    grouped_features, group_sum, lemma_div_mod_index, lemma_first_index, lemma_first_index_stable,
    lemma_flat_index, site_sum,
};
use crate::model::{f32_bits_finite, shape_error, ModelError, ModelShape, QuantizedCodebookWeights};

verus! {

/// Activation applied after summing every token embedding at a site.
#[derive(Clone, Copy, Debug, PartialEq, Eq, Structural)]
pub enum Activation {
    /// Preserve the signed embedding sum.
    Identity,
    /// Clamp negative components to zero.
    Relu,
}

/// Reduction used to combine activated sites in the same group.
#[derive(Clone, Copy, Debug, PartialEq, Eq, Structural)]
pub enum Pooling {
    /// Add every activated site.
    Sum,
    /// Divide each group sum by the number of sites assigned to that group.
    ///
    /// Every model group must have at least one site.
    Mean,
}

/// The activation applied to one exec component.
pub(crate) fn activate(activation: Activation, value: i32) -> (r: i32)
    ensures
        r as int == activate_spec(activation, value as int),
{
    match activation {
        Activation::Identity => value,
        Activation::Relu => if value > 0 {
            value
        } else {
            0
        },
    }
}

/// Activation and pooling recipe required to reproduce trained inference.
#[derive(Clone, Copy, Debug, PartialEq, Eq, Structural)]
pub struct InferenceConfig {
    pub activation: Activation,
    pub pooling: Pooling,
}

impl InferenceConfig {
    pub fn new(activation: Activation, pooling: Pooling) -> (r: Self)
        ensures
            r.activation == activation,
            r.pooling == pooling,
    {
        InferenceConfig { activation, pooling }
    }
}

/// Training objective.
#[derive(Clone, Copy, Debug, PartialEq, Eq, Structural)]
pub enum Loss {
    /// Binary cross entropy evaluated directly from a logit.
    BinaryCrossEntropyWithLogits,
    /// Squared error on the raw model score.
    MeanSquaredError,
}

/// Structural or range error in a [`GroupedTokens`] input.
#[derive(Clone, Debug, PartialEq, Eq)]
#[non_exhaustive]
pub enum SampleIssue {
    OffsetCount { actual: usize, expected: usize },
    FirstOffset,
    LastOffset { actual: usize, expected: usize },
    NonMonotonicOffsets { site: usize },
    TokenOutOfRange { site: usize, token: u16, token_count: usize },
    GroupOutOfRange { site: usize, group: usize, group_count: usize },
    EmptyMeanGroup { group: usize },
}

/// Error returned by feature materialization and the training entry points.
///
/// Floating-point sample values are reported by their IEEE-754 bit patterns.
#[derive(Clone, Debug, PartialEq, Eq)]
#[non_exhaustive]
pub enum TrainingError {
    Model(ModelError),
    InvalidConfig(&'static str),
    InvalidInput(SampleIssue),
    InvalidSample { index: usize, issue: SampleIssue },
    InvalidTarget { index: usize, target_bits: u32, loss: Loss },
    InvalidWeight { index: usize, weight_bits: u32 },
    EmptyBatch,
    EmptyDataset,
    OutputLength { actual: usize, expected: usize },
    NonFiniteComputation(&'static str),
}

/// A compact site-preserving token input.
#[derive(Clone, Debug, PartialEq, Eq)]
pub struct GroupedTokens {
    tokens: Vec<u16>,
    site_offsets: Vec<usize>,
    site_groups: Vec<usize>,
}

/// Structural error of an offset table, in the order the checks run.
pub open spec fn structure_issue(tokens_len: int, offsets: Seq<int>, site_count: int) -> Option<
    SampleIssue,
> {
    if site_count + 1 > usize::MAX {
        Some(SampleIssue::OffsetCount { actual: offsets.len() as usize, expected: usize::MAX })
    } else if offsets.len() != site_count + 1 {
        Some(
            SampleIssue::OffsetCount {
                actual: offsets.len() as usize,
                expected: (site_count + 1) as usize,
            },
        )
    } else if offsets[0] != 0 {
        Some(SampleIssue::FirstOffset)
    } else if offsets[site_count] != tokens_len {
        Some(
            SampleIssue::LastOffset {
                actual: offsets[site_count] as usize,
                expected: tokens_len as usize,
            },
        )
    } else {
        match first_decrease(offsets, site_count) {
            Some(site) => Some(SampleIssue::NonMonotonicOffsets { site: site as usize }),
            None => None,
        }
    }
}

/// The first site `s < n` with `offsets[s] > offsets[s + 1]`.
pub open spec fn first_decrease(offsets: Seq<int>, n: int) -> Option<int>
    decreases n,
{
    if n <= 0 {
        None
    } else {
        match first_decrease(offsets, n - 1) {
            Some(s) => Some(s),
            None => if offsets[n - 1] > offsets[n] {
                Some(n - 1)
            } else {
                None
            },
        }
    }
}

/// Offsets start at zero, never decrease, and end at `tokens_len`.
pub open spec fn offsets_well_formed(tokens_len: int, offsets: Seq<int>, site_count: int) -> bool {
    &&& offsets.len() == site_count + 1
    &&& offsets[0] == 0
    &&& offsets[site_count] == tokens_len
    &&& forall|i: int, j: int| 0 <= i <= j <= site_count ==> offsets[i] <= offsets[j]
}

/// Offsets do not decrease from site `i` to site `i + 1`.
pub open spec fn step_ok(offsets: Seq<int>, i: int) -> bool {
    offsets[i] <= offsets[i + 1]
}

pub proof fn lemma_first_decrease(offsets: Seq<int>, n: int)
    requires
        0 <= n < offsets.len(),
    ensures
        first_decrease(offsets, n) is None <==> (forall|i: int|
            0 <= i < n ==> #[trigger] step_ok(offsets, i)),
        first_decrease(offsets, n) matches Some(s) ==> 0 <= s < n && !step_ok(offsets, s),
    decreases n,
{
    if n > 0 {
        lemma_first_decrease(offsets, n - 1);
        if first_decrease(offsets, n - 1) is None && step_ok(offsets, n - 1) {
            assert forall|i: int| 0 <= i < n implies #[trigger] step_ok(offsets, i) by {
                if i < n - 1 {
                    assert(step_ok(offsets, i));
                }
            }
        }
    }
}

pub proof fn lemma_first_decrease_stable(offsets: Seq<int>, k: int, m: int)
    requires
        0 <= k <= m,
        first_decrease(offsets, k) is Some,
    ensures
        first_decrease(offsets, m) == first_decrease(offsets, k),
    decreases m - k,
{
    if m > k {
        lemma_first_decrease_stable(offsets, k, m - 1);
    }
}

pub proof fn lemma_monotone(offsets: Seq<int>, n: int)
    requires
        0 <= n < offsets.len(),
        forall|i: int| 0 <= i < n ==> #[trigger] step_ok(offsets, i),
    ensures
        forall|i: int, j: int| 0 <= i <= j <= n ==> offsets[i] <= offsets[j],
    decreases n,
{
    if n > 0 {
        lemma_monotone(offsets, n - 1);
        assert forall|i: int, j: int| 0 <= i <= j <= n implies offsets[i] <= offsets[j] by {
            if j == n && i < n {
                assert(step_ok(offsets, n - 1));
            }
        }
    }
}

pub proof fn lemma_structure_ok(tokens_len: int, offsets: Seq<int>, site_count: int)
    requires
        site_count >= 0,
        structure_issue(tokens_len, offsets, site_count) is None,
    ensures
        offsets_well_formed(tokens_len, offsets, site_count),
{
    lemma_first_decrease(offsets, site_count);
    lemma_monotone(offsets, site_count);
}

/// Slots from `lo` on whose token is outside a model with `token_count` tokens.
pub open spec fn slot_is_bad(tokens: Seq<u16>, lo: int, token_count: int) -> spec_fn(int) -> bool {
    |i: int| lo <= i && tokens[i] as int >= token_count
}

/// Sites whose group is outside the model or that hold a token outside it.
pub open spec fn site_is_bad(
    tokens: Seq<u16>,
    offsets: Seq<int>,
    groups: Seq<int>,
    token_count: int,
    group_count: int,
) -> spec_fn(int) -> bool {
    |s: int|
        groups[s] >= group_count || first_index(
            slot_is_bad(tokens, offsets[s], token_count),
            offsets[s + 1],
        ) is Some
}

/// The issue an input has against a model shape and pooling, in the order
/// the checks run: offset structure, then site by site the group and the
/// tokens, then (for mean pooling) the first group without a site.
pub open spec fn input_issue(
    tokens: Seq<u16>,
    offsets: Seq<int>,
    groups: Seq<int>,
    token_count: int,
    group_count: int,
    pooling: Pooling,
) -> Option<SampleIssue> {
    let n = groups.len() as int;
    match structure_issue(tokens.len() as int, offsets, n) {
        Some(e) => Some(e),
        None => match first_index(site_is_bad(tokens, offsets, groups, token_count, group_count), n) {
            Some(s) => if groups[s] >= group_count {
                Some(
                    SampleIssue::GroupOutOfRange {
                        site: s as usize,
                        group: groups[s] as usize,
                        group_count: group_count as usize,
                    },
                )
            } else {
                let i = first_index(slot_is_bad(tokens, offsets[s], token_count), offsets[s + 1])->0;
                Some(
                    SampleIssue::TokenOutOfRange {
                        site: s as usize,
                        token: tokens[i],
                        token_count: token_count as usize,
                    },
                )
            },
            None => if pooling == Pooling::Mean {
                match first_index(group_is_empty(groups), group_count) {
                    Some(g) => Some(SampleIssue::EmptyMeanGroup { group: g as usize }),
                    None => None,
                }
            } else {
                None
            },
        },
    }
}

impl GroupedTokens {
    pub closed spec fn spec_tokens(&self) -> Seq<u16> {
        self.tokens@
    }

    pub closed spec fn spec_offsets(&self) -> Seq<int> {
        self.site_offsets@.map_values(|o: usize| o as int)
    }

    pub closed spec fn spec_groups(&self) -> Seq<int> {
        self.site_groups@.map_values(|g: usize| g as int)
    }

    /// The offset table is well formed for the token count and site count.
    pub open spec fn well_formed(&self) -> bool {
        offsets_well_formed(
            self.spec_tokens().len() as int,
            self.spec_offsets(),
            self.spec_groups().len() as int,
        )
    }

    /// Builds a token input and validates its offset table.
    pub fn new(tokens: Vec<u16>, site_offsets: Vec<usize>, site_groups: Vec<usize>) -> (r: Result<
        Self,
        SampleIssue,
    >)
        ensures
            ({
                let issue = structure_issue(
                    tokens@.len() as int,
                    site_offsets@.map_values(|o: usize| o as int),
                    site_groups@.len() as int,
                );
                &&& issue matches Some(e) ==> r == Err::<Self, SampleIssue>(e)
                &&& issue is None ==> (r matches Ok(g) && g.spec_tokens() == tokens@
                    && g.spec_offsets() == site_offsets@.map_values(|o: usize| o as int)
                    && g.spec_groups() == site_groups@.map_values(|x: usize| x as int)
                    && g.well_formed())
            }),
    {
        let input = GroupedTokens { tokens, site_offsets, site_groups };
        match input.validate_structure() {
            Ok(()) => {
                proof {
                    lemma_structure_ok(
                        input.spec_tokens().len() as int,
                        input.spec_offsets(),
                        input.spec_groups().len() as int,
                    );
                }
                Ok(input)
            },
            Err(e) => Err(e),
        }
    }

    /// Flat token storage shared by all sites.
    pub fn tokens(&self) -> (r: &[u16])
        ensures
            r@ == self.spec_tokens(),
    {
        self.tokens.as_slice()
    }

    /// Prefix offsets delimiting the token slice for each site.
    pub fn site_offsets(&self) -> (r: &[usize])
        ensures
            r@.map_values(|o: usize| o as int) == self.spec_offsets(),
    {
        self.site_offsets.as_slice()
    }

    /// Group index for each site.
    pub fn site_groups(&self) -> (r: &[usize])
        ensures
            r@.map_values(|g: usize| g as int) == self.spec_groups(),
    {
        self.site_groups.as_slice()
    }

    /// Number of sites in this input.
    pub fn site_count(&self) -> (r: usize)
        ensures
            r == self.spec_groups().len(),
    {
        self.site_groups.len()
    }

    fn validate_structure(&self) -> (r: Result<(), SampleIssue>)
        ensures
            ({
                let issue = structure_issue(
                    self.spec_tokens().len() as int,
                    self.spec_offsets(),
                    self.spec_groups().len() as int,
                );
                &&& issue matches Some(e) ==> r == Err::<(), SampleIssue>(e)
                &&& issue is None ==> r is Ok
            }),
    {
        let ghost offsets = self.spec_offsets();
        let site_count = self.site_groups.len();
        let expected = match site_count.checked_add(1) {
            Some(n) => n,
            None => {
                return Err(
                    SampleIssue::OffsetCount { actual: self.site_offsets.len(), expected: usize::MAX },
                );
            },
        };
        if self.site_offsets.len() != expected {
            return Err(SampleIssue::OffsetCount { actual: self.site_offsets.len(), expected });
        }
        if self.site_offsets[0] != 0 {
            return Err(SampleIssue::FirstOffset);
        }
        if self.site_offsets[site_count] != self.tokens.len() {
            return Err(
                SampleIssue::LastOffset {
                    actual: self.site_offsets[site_count],
                    expected: self.tokens.len(),
                },
            );
        }
        assert(offsets[0] == 0);
        assert(offsets[site_count as int] == self.spec_tokens().len());
        let mut site: usize = 0;
        while site < site_count
            invariant
                0 <= site <= site_count,
                site_count == self.spec_groups().len(),
                offsets == self.spec_offsets(),
                offsets.len() == site_count + 1,
                self.site_offsets@.len() == site_count + 1,
                first_decrease(offsets, site as int) is None,
                offsets[0] == 0,
                offsets[site_count as int] == self.spec_tokens().len(),
                site_count + 1 <= usize::MAX,
            decreases site_count - site,
        {
            if self.site_offsets[site] > self.site_offsets[site + 1] {
                proof {
                    assert(first_decrease(offsets, site as int + 1) == Some(site as int));
                    lemma_first_decrease_stable(offsets, site as int + 1, site_count as int);
                    assert(first_decrease(offsets, site_count as int) == Some(site as int));
                    assert(structure_issue(self.spec_tokens().len() as int, offsets, site_count as int)
                        == Some(SampleIssue::NonMonotonicOffsets { site }));
                }
                return Err(SampleIssue::NonMonotonicOffsets { site });
            }
            site += 1;
        }
        Ok(())
    }

    /// Issue of this input against a model shape and pooling, if any.
    pub open spec fn issue_for(&self, token_count: int, group_count: int, pooling: Pooling) -> Option<
        SampleIssue,
    > {
        input_issue(
            self.spec_tokens(),
            self.spec_offsets(),
            self.spec_groups(),
            token_count,
            group_count,
            pooling,
        )
    }

    /// Validates the input against a model and returns the site count of
    /// every group.
    #[verifier::loop_isolation(false)]
    fn validate_for(&self, shape: ModelShape, pooling: Pooling) -> (r: Result<Vec<usize>, SampleIssue>)
        ensures
            ({
                let issue = self.issue_for(
                    shape.spec_token_count() as int,
                    shape.spec_group_count() as int,
                    pooling,
                );
                &&& issue matches Some(e) ==> r == Err::<Vec<usize>, SampleIssue>(e)
                &&& issue is None ==> (r matches Ok(counts) && self.well_formed()
                    && counts@.len() == shape.spec_group_count()
                    && (forall|g: int|
                    0 <= g < counts@.len() ==> #[trigger] counts@[g] == group_size(
                        self.spec_groups(),
                        self.spec_groups().len() as int,
                        g,
                    ))
                    && (forall|s: int|
                    0 <= s < self.spec_groups().len() ==> #[trigger] self.spec_groups()[s]
                        < shape.spec_group_count())
                    && (forall|i: int|
                    0 <= i < self.spec_tokens().len() ==> #[trigger] self.spec_tokens()[i]
                        < shape.spec_token_count()))
            }),
    {
        match self.validate_structure() {
            Ok(()) => {},
            Err(e) => return Err(e),
        }
        let ghost tokens = self.spec_tokens();
        let ghost offsets = self.spec_offsets();
        let ghost groups = self.spec_groups();
        let site_count = self.site_groups.len();
        proof {
            lemma_structure_ok(tokens.len() as int, offsets, site_count as int);
        }
        let group_count = shape.group_count();
        let token_count = shape.token_count();
        let ghost bad_site = site_is_bad(tokens, offsets, groups, token_count as int, group_count as int);
        let mut group_counts = vec![0usize; group_count];
        proof {
            assert forall|g: int| 0 <= g < group_count implies #[trigger] group_counts@[g] == group_size(
                groups,
                0,
                g,
            ) by {
                assert(group_counts@[g] == 0usize);
            }
        }
        let mut site: usize = 0;
        while site < site_count
            invariant
                0 <= site <= site_count,
                site_count == groups.len(),
                tokens == self.spec_tokens(),
                offsets == self.spec_offsets(),
                groups == self.spec_groups(),
                offsets_well_formed(tokens.len() as int, offsets, site_count as int),
                structure_issue(tokens.len() as int, offsets, site_count as int) is None,
                group_count == shape.spec_group_count(),
                token_count == shape.spec_token_count(),
                bad_site == site_is_bad(tokens, offsets, groups, token_count as int, group_count as int),
                first_index(bad_site, site as int) is None,
                forall|i: int| 0 <= i < offsets[site as int] ==> #[trigger] tokens[i] < token_count,
                group_counts@.len() == group_count,
                forall|g: int|
                    0 <= g < group_count ==> #[trigger] group_counts@[g] == group_size(groups, site as int, g),
            decreases site_count - site,
        {
            let group = self.site_groups[site];
            assert(groups[site as int] == group as int);
            if group >= group_count {
                proof {
                    assert(bad_site(site as int));
                    assert(first_index(bad_site, site as int + 1) == Some(site as int));
                    lemma_first_index_stable(bad_site, site as int + 1, site_count as int);
                }
                return Err(SampleIssue::GroupOutOfRange { site, group, group_count });
            }
            proof {
                crate::features::lemma_group_size_bound(groups, site as int, group as int);
            }
            let count = group_counts[group] + 1;
            group_counts.set(group, count);
            proof {
                assert forall|g: int| 0 <= g < group_count implies #[trigger] group_counts@[g]
                    == group_size(groups, site as int + 1, g) by {
                    assert(group_size(groups, site as int + 1, g) == group_size(groups, site as int, g)
                        + if groups[site as int] == g {
                        1nat
                    } else {
                        0nat
                    });
                }
            }
            let lo = self.site_offsets[site];
            let hi = self.site_offsets[site + 1];
            assert(offsets[site as int] == lo as int && offsets[site as int + 1] == hi as int);
            assert(offsets[site as int] <= offsets[site as int + 1] <= offsets[site_count as int]);
            let ghost bad_slot = slot_is_bad(tokens, lo as int, token_count as int);
            proof {
                lemma_first_index(bad_slot, lo as int);
            }
            let mut slot: usize = lo;
            while slot < hi
                invariant
                    lo <= slot <= hi,
                    hi <= tokens.len(),
                    tokens == self.spec_tokens(),
                    bad_slot == slot_is_bad(tokens, lo as int, token_count as int),
                    first_index(bad_slot, slot as int) is None,
                    token_count == shape.spec_token_count(),
                    forall|i: int| 0 <= i < slot ==> #[trigger] tokens[i] < token_count,
                decreases hi - slot,
            {
                let token = self.tokens[slot];
                if token as usize >= token_count {
                    proof {
                        assert(bad_slot(slot as int));
                        assert(first_index(bad_slot, slot as int + 1) == Some(slot as int));
                        lemma_first_index_stable(bad_slot, slot as int + 1, hi as int);
                        assert(bad_site(site as int));
                        assert(first_index(bad_site, site as int + 1) == Some(site as int));
                        lemma_first_index_stable(bad_site, site as int + 1, site_count as int);
                    }
                    return Err(SampleIssue::TokenOutOfRange { site, token, token_count });
                }
                slot += 1;
            }
            proof {
                assert(!bad_site(site as int));
                assert(first_index(bad_site, site as int + 1) is None);
            }
            site += 1;
        }
        proof {
            lemma_first_index(bad_site, site_count as int);
        }
        if pooling == Pooling::Mean {
            let ghost empty = group_is_empty(groups);
            let mut group: usize = 0;
            while group < group_count
                invariant
                    0 <= group <= group_count,
                    group_counts@.len() == group_count,
                    empty == group_is_empty(groups),
                    site_count == groups.len(),
                    forall|g: int|
                        0 <= g < group_count ==> #[trigger] group_counts@[g] == group_size(
                            groups,
                            site_count as int,
                            g,
                        ),
                    first_index(empty, group as int) is None,
                decreases group_count - group,
            {
                if group_counts[group] == 0 {
                    proof {
                        assert(empty(group as int));
                        assert(first_index(empty, group as int + 1) == Some(group as int));
                        lemma_first_index_stable(empty, group as int + 1, group_count as int);
                    }
                    return Err(SampleIssue::EmptyMeanGroup { group });
                }
                group += 1;
            }
        }
        proof {
            assert forall|s: int| 0 <= s < site_count implies #[trigger] groups[s] < group_count by {
                assert(!bad_site(s));
            }
        }
        Ok(group_counts)
    }
}

/// Integer grouped sums and the pooling divisor for each group.
#[derive(Clone, Debug, PartialEq, Eq)]
pub struct QuantizedGroupedFeatures {
    values: Vec<i32>,
    group_divisors: Vec<usize>,
}

impl QuantizedGroupedFeatures {
    pub closed spec fn spec_values(&self) -> Seq<i32> {
        self.values@
    }

    pub closed spec fn spec_group_divisors(&self) -> Seq<usize> {
        self.group_divisors@
    }

    pub fn values(&self) -> (r: &[i32])
        ensures
            r@ == self.spec_values(),
    {
        self.values.as_slice()
    }

    pub fn group_divisors(&self) -> (r: &[usize])
        ensures
            r@ == self.spec_group_divisors(),
    {
        self.group_divisors.as_slice()
    }

    pub fn into_parts(self) -> (r: (Vec<i32>, Vec<usize>))
        ensures
            r.0@ == self.spec_values(),
            r.1@ == self.spec_group_divisors(),
    {
        (self.values, self.group_divisors)
    }
}

} // verus!

verus! {

/// The model error the quantized feature path reports for a codebook, if any,
/// in the order the checks run.
pub open spec fn quantized_shape_error(w: QuantizedCodebookWeights) -> Option<ModelError> {
    let dim = w.dim as nat;
    if dim == 0 {
        Some(ModelError::ZeroDimension("dim"))
    } else if w.embedding_scale <= 0 {
        Some(ModelError::NonPositiveScale("embedding_scale"))
    } else if w.head_scale <= 0 {
        Some(ModelError::NonPositiveScale("head_scale"))
    } else if w.factor_scale <= 0 {
        Some(ModelError::NonPositiveScale("factor_scale"))
    } else if w.head@.len() % dim != 0 {
        Some(
            ModelError::LengthMismatch {
                field: "head",
                actual: w.head@.len() as usize,
                expected: ((w.head@.len() / dim) * dim) as usize,
            },
        )
    } else {
        match shape_error(
            w.spec_token_count() as int,
            w.spec_group_count() as int,
            dim as int,
            w.fm_rank as int,
        ) {
            Some(e) => Some(e),
            None => if w.factors@.len() != w.spec_group_count() * dim * w.fm_rank {
                Some(
                    ModelError::LengthMismatch {
                        field: "factors",
                        actual: w.factors@.len() as usize,
                        expected: (w.spec_group_count() * dim * w.fm_rank) as usize,
                    },
                )
            } else if !f32_bits_finite(w.bias_bits) {
                Some(ModelError::NonFinite("bias"))
            } else {
                None
            },
        }
    }
}

/// Checks a quantized codebook and derives its shape.
fn validate_quantized_shape(weights: &QuantizedCodebookWeights) -> (r: Result<ModelShape, TrainingError>)
    ensures
        quantized_shape_error(*weights) matches Some(e) ==> r == Err::<ModelShape, TrainingError>(
            TrainingError::Model(e),
        ),
        quantized_shape_error(*weights) is None ==> (r matches Ok(s) && s.valid()
            && s.spec_token_count() == weights.spec_token_count() && s.spec_group_count()
            == weights.spec_group_count() && s.spec_dim() == weights.dim && s.spec_fm_rank()
            == weights.fm_rank),
{
    let dim = weights.dim();
    if dim == 0 {
        return Err(TrainingError::Model(ModelError::ZeroDimension("dim")));
    }
    if weights.embedding_scale <= 0 {
        return Err(TrainingError::Model(ModelError::NonPositiveScale("embedding_scale")));
    }
    if weights.head_scale <= 0 {
        return Err(TrainingError::Model(ModelError::NonPositiveScale("head_scale")));
    }
    if weights.factor_scale <= 0 {
        return Err(TrainingError::Model(ModelError::NonPositiveScale("factor_scale")));
    }
    let head_len = weights.head.len();
    if head_len % dim != 0 {
        let whole = head_len / dim;
        assert(whole * dim <= head_len) by (nonlinear_arith)
            requires
                whole == head_len / dim,
                dim > 0,
        ;
        return Err(
            TrainingError::Model(
                ModelError::LengthMismatch { field: "head", actual: head_len, expected: whole * dim },
            ),
        );
    }
    let shape = match ModelShape::new(weights.token_count(), head_len / dim, dim, weights.fm_rank()) {
        Ok(shape) => shape,
        Err(e) => return Err(TrainingError::Model(e)),
    };
    let expected_factors = match shape.factor_len() {
        Ok(n) => n,
        Err(e) => return Err(TrainingError::Model(e)),
    };
    if weights.factors.len() != expected_factors {
        return Err(
            TrainingError::Model(
                ModelError::LengthMismatch {
                    field: "factors",
                    actual: weights.factors.len(),
                    expected: expected_factors,
                },
            ),
        );
    }
    if !weights.bias_is_finite() {
        return Err(TrainingError::Model(ModelError::NonFinite("bias")));
    }
    Ok(shape)
}


/// Some prefix of `tokens[lo .. hi]` has an embedding sum component outside
/// `i32`.
pub open spec fn site_overflows(w: QuantizedCodebookWeights, tokens: Seq<u16>, lo: int, hi: int) -> bool {
    exists|k: int, c: int|
        lo < k <= hi && 0 <= c < w.dim && !fits_i32(#[trigger] site_sum(w, tokens, lo, k, c))
}

/// Adding site `s` to its group takes a group component outside `i32`.
pub open spec fn group_overflows(
    w: QuantizedCodebookWeights,
    activation: Activation,
    tokens: Seq<u16>,
    offsets: Seq<int>,
    groups: Seq<int>,
    s: int,
) -> bool {
    exists|c: int|
        0 <= c < w.dim && !fits_i32(
            #[trigger] group_sum(w, activation, tokens, offsets, groups, s + 1, groups[s], c),
        )
}

/// Sites at which the checked integer accumulation fails.
pub open spec fn site_overflow(
    w: QuantizedCodebookWeights,
    activation: Activation,
    tokens: Seq<u16>,
    offsets: Seq<int>,
    groups: Seq<int>,
) -> spec_fn(int) -> bool {
    |s: int|
        site_overflows(w, tokens, offsets[s], offsets[s + 1]) || group_overflows(
            w,
            activation,
            tokens,
            offsets,
            groups,
            s,
        )
}

/// The overflow the site-by-site accumulation meets first, if any: a site
/// sum is checked before the site is added to its group.
pub open spec fn overflow_error(
    w: QuantizedCodebookWeights,
    activation: Activation,
    tokens: Seq<u16>,
    offsets: Seq<int>,
    groups: Seq<int>,
) -> Option<ModelError> {
    match first_index(site_overflow(w, activation, tokens, offsets, groups), groups.len() as int) {
        Some(s) => if site_overflows(w, tokens, offsets[s], offsets[s + 1]) {
            Some(ModelError::ArithmeticOverflow("quantized site sum"))
        } else {
            Some(ModelError::ArithmeticOverflow("quantized group sum"))
        },
        None => None,
    }
}

/// The error [`materialize_features_quantized`] reports, if any.
pub open spec fn materialize_error(input: GroupedTokens, w: QuantizedCodebookWeights, config: InferenceConfig) -> Option<
    TrainingError,
> {
    match quantized_shape_error(w) {
        Some(e) => Some(TrainingError::Model(e)),
        None => match input.issue_for(
            w.spec_token_count() as int,
            w.spec_group_count() as int,
            config.pooling,
        ) {
            Some(issue) => Some(TrainingError::InvalidInput(issue)),
            None => match overflow_error(
                w,
                config.activation,
                input.spec_tokens(),
                input.spec_offsets(),
                input.spec_groups(),
            ) {
                Some(e) => Some(TrainingError::Model(e)),
                None => None,
            },
        },
    }
}

/// Sums the embedding rows of `tokens[lo .. hi]` into `sums` with checked
/// arithmetic; `false` when a partial sum leaves `i32`.
#[verifier::loop_isolation(false)]
fn sum_site(weights: &QuantizedCodebookWeights, tokens: &Vec<u16>, lo: usize, hi: usize, sums: &mut Vec<i32>) -> (ok: bool)
    requires
        old(sums)@.len() == weights.dim,
        lo <= hi <= tokens@.len(),
        forall|i: int| lo <= i < hi ==> (#[trigger] tokens@[i] as int) < weights.spec_token_count(),
    ensures
        final(sums)@.len() == weights.dim,
        ok == !site_overflows(*weights, tokens@, lo as int, hi as int),
        ok ==> forall|c: int|
            0 <= c < weights.dim ==> #[trigger] final(sums)@[c] == site_sum(
                *weights,
                tokens@,
                lo as int,
                hi as int,
                c,
            ),
{
    let dim = weights.dim;
    let mut c: usize = 0;
    while c < dim
        invariant
            0 <= c <= dim,
            dim == weights.dim,
            sums@.len() == dim,
            forall|j: int| 0 <= j < c ==> #[trigger] sums@[j] == 0,
        decreases dim - c,
    {
        sums.set(c, 0);
        c += 1;
    }
    let ghost w = *weights;
    let ghost t = tokens@;
    let mut k: usize = lo;
    while k < hi
        invariant
            lo <= k <= hi,
            hi <= t.len(),
            t == tokens@,
            w == *weights,
            dim == weights.dim,
            sums@.len() == dim,
            forall|i: int| lo <= i < hi ==> (#[trigger] t[i] as int) < w.spec_token_count(),
            forall|j: int| 0 <= j < dim ==> #[trigger] sums@[j] == site_sum(w, t, lo as int, k as int, j),
            forall|k2: int, j: int|
                lo < k2 <= k && 0 <= j < dim ==> fits_i32(#[trigger] site_sum(w, t, lo as int, k2, j)),
        decreases hi - k,
    {
        let token = tokens[k];
        assert(t[k as int] == token);
        let mut c: usize = 0;
        while c < dim
            invariant
                0 <= c <= dim,
                lo <= k < hi,
                hi <= t.len(),
                t == tokens@,
                w == *weights,
                dim == weights.dim,
                token == t[k as int],
                (token as int) < w.spec_token_count(),
                sums@.len() == dim,
                forall|j: int|
                    0 <= j < c ==> #[trigger] sums@[j] == site_sum(w, t, lo as int, k + 1, j),
                forall|j: int|
                    c <= j < dim ==> #[trigger] sums@[j] == site_sum(w, t, lo as int, k as int, j),
                forall|j: int| 0 <= j < c ==> fits_i32(#[trigger] site_sum(w, t, lo as int, k + 1, j)),
            decreases dim - c,
        {
            let e = weights.embedding(token, c);
            assert(site_sum(w, t, lo as int, k + 1, c as int) == site_sum(w, t, lo as int, k as int, c as int)
                + w.emb(token as int, c as int));
            match sums[c].checked_add(e as i32) {
                Some(v) => {
                    sums.set(c, v);
                },
                None => {
                    proof {
                        assert(!fits_i32(site_sum(w, t, lo as int, k + 1, c as int)));
                        assert(site_overflows(w, t, lo as int, hi as int));
                    }
                    return false;
                },
            }
            c += 1;
        }
        k += 1;
    }
    true
}

/// Adds the activated `sums` into `values[start .. start + sums.len()]` with
/// checked arithmetic; `false` when a component leaves `i32`.
#[verifier::loop_isolation(false)]
fn add_activated(values: &mut Vec<i32>, sums: &Vec<i32>, start: usize, activation: Activation) -> (ok: bool)
    requires
        start + sums@.len() <= old(values)@.len(),
    ensures
        final(values)@.len() == old(values)@.len(),
        ok == forall|c: int|
            0 <= c < sums@.len() ==> fits_i32(
                old(values)@[start + c] + activate_spec(activation, #[trigger] sums@[c] as int),
            ),
        ok ==> forall|i: int|
            0 <= i < old(values)@.len() && !(start <= i < start + sums@.len()) ==> final(values)@[i]
                == old(values)@[i],
        ok ==> forall|c: int|
            0 <= c < sums@.len() ==> final(values)@[start + c] == old(values)@[start + c]
                + activate_spec(activation, #[trigger] sums@[c] as int),
{
    let dim = sums.len();
    let total = values.len();
    let ghost original = values@;
    let mut c: usize = 0;
    while c < dim
        invariant
            0 <= c <= dim,
            dim == sums@.len(),
            start + dim <= original.len(),
            original.len() == total,
            values@.len() == original.len(),
            forall|i: int|
                0 <= i < original.len() && !(start <= i < start + c) ==> values@[i] == original[i],
            forall|j: int|
                0 <= j < c ==> values@[start + j] == original[start + j] + activate_spec(
                    activation,
                    #[trigger] sums@[j] as int,
                ),
            forall|j: int|
                0 <= j < c ==> fits_i32(original[start + j] + activate_spec(activation, #[trigger] sums@[j] as int)),
        decreases dim - c,
    {
        let activated = activate(activation, sums[c]);
        let index = start + c;
        assert(values@[index as int] == original[start + c]);
        match values[index].checked_add(activated) {
            Some(v) => {
                values.set(index, v);
            },
            None => {
                proof {
                    assert(!fits_i32(original[start + c] + activate_spec(activation, sums@[c as int] as int)));
                }
                return false;
            },
        }
        c += 1;
    }
    true
}


/// Materializes exact integer embedding sums for quantized grouped scoring.
///
/// The codebook is checked first, then the input against it; the group
/// accumulators are then built site by site with checked `i32` arithmetic.
/// Divisors are one per group for sum pooling and the site count of each
/// group for mean pooling.
#[verifier::loop_isolation(false)]
pub fn materialize_features_quantized(
    input: &GroupedTokens,
    weights: &QuantizedCodebookWeights,
    config: InferenceConfig,
) -> (r: Result<QuantizedGroupedFeatures, TrainingError>)
    ensures
        materialize_error(*input, *weights, config) matches Some(e) ==> r == Err::<
            QuantizedGroupedFeatures,
            TrainingError,
        >(e),
        materialize_error(*input, *weights, config) is None ==> (r matches Ok(f)
            && f.spec_values().map_values(|x: i32| x as int) == grouped_features(
            *weights,
            config.activation,
            input.spec_tokens(),
            input.spec_offsets(),
            input.spec_groups(),
            weights.spec_group_count(),
        ) && f.spec_group_divisors().map_values(|x: usize| x as int) == group_divisors_spec(
            config.pooling,
            input.spec_groups(),
            weights.spec_group_count(),
        )),
{
    let shape = match validate_quantized_shape(weights) {
        Ok(shape) => shape,
        Err(e) => return Err(e),
    };
    let group_counts = match input.validate_for(shape, config.pooling) {
        Ok(counts) => counts,
        Err(issue) => return Err(TrainingError::InvalidInput(issue)),
    };
    let dim = shape.dim();
    let group_count = shape.group_count();
    let feature_len = match shape.feature_len() {
        Ok(n) => n,
        Err(e) => return Err(TrainingError::Model(e)),
    };
    let ghost w = *weights;
    let ghost activation = config.activation;
    let ghost tokens = input.spec_tokens();
    let ghost offsets = input.spec_offsets();
    let ghost groups = input.spec_groups();
    let ghost overflow = site_overflow(w, activation, tokens, offsets, groups);
    let ghost d = dim as int;
    let mut values = vec![0i32; feature_len];
    let mut sums = vec![0i32; dim];
    let site_count = input.site_count();
    proof {
        assert forall|i: int| 0 <= i < feature_len implies #[trigger] values@[i] as int == group_sum(
            w,
            activation,
            tokens,
            offsets,
            groups,
            0,
            i / d,
            i % d,
        ) by {
            assert(values@[i] == 0i32);
        }
        assert(offsets_well_formed(tokens.len() as int, offsets, site_count as int));
    }
    let mut site: usize = 0;
    while site < site_count
        invariant
            0 <= site <= site_count,
            values@.len() == feature_len,
            sums@.len() == dim,
            forall|i: int|
                0 <= i < feature_len ==> #[trigger] values@[i] as int == group_sum(
                    w,
                    activation,
                    tokens,
                    offsets,
                    groups,
                    site as int,
                    i / d,
                    i % d,
                ),
            first_index(overflow, site as int) is None,
        decreases site_count - site,
    {
        let lo = input.site_offsets[site];
        let hi = input.site_offsets[site + 1];
        assert(offsets[site as int] == lo as int && offsets[site as int + 1] == hi as int);
        assert(offsets[site as int] <= offsets[site as int + 1] <= offsets[site_count as int]);
        assert(0 <= offsets[0] <= offsets[site as int]);
        if !sum_site(weights, &input.tokens, lo, hi, &mut sums) {
            proof {
                assert(overflow(site as int));
                assert(first_index(overflow, site as int + 1) == Some(site as int));
                lemma_first_index_stable(overflow, site as int + 1, site_count as int);
            }
            return Err(TrainingError::Model(ModelError::ArithmeticOverflow("quantized site sum")));
        }
        let group = input.site_groups[site];
        assert(groups[site as int] == group as int);
        proof {
            lemma_flat_index(group as int, 0, group_count as int, d);
        }
        let start = group * dim;
        let ghost before = values@;
        let ok = add_activated(&mut values, &sums, start, config.activation);
        proof {
            assert forall|c: int| 0 <= c < d implies #[trigger] group_sum(
                w,
                activation,
                tokens,
                offsets,
                groups,
                site as int + 1,
                group as int,
                c,
            ) == before[start + c] + activate_spec(activation, sums@[c] as int) by {
                lemma_flat_index(group as int, c, group_count as int, d);
                vstd::arithmetic::div_mod::lemma_fundamental_div_mod_converse(
                    start + c,
                    d,
                    group as int,
                    c,
                );
                assert(before[start + c] as int == group_sum(
                    w,
                    activation,
                    tokens,
                    offsets,
                    groups,
                    site as int,
                    (start + c) / d,
                    (start + c) % d,
                ));
            }
        }
        if !ok {
            proof {
                let c = choose|c: int|
                    0 <= c < sums@.len() && !fits_i32(
                        before[start + c] + activate_spec(activation, #[trigger] sums@[c] as int),
                    );
                assert(!fits_i32(
                    group_sum(w, activation, tokens, offsets, groups, site as int + 1, groups[site as int], c),
                ));
                assert(group_overflows(w, activation, tokens, offsets, groups, site as int));
                assert(overflow(site as int));
                assert(first_index(overflow, site as int + 1) == Some(site as int));
                lemma_first_index_stable(overflow, site as int + 1, site_count as int);
            }
            return Err(TrainingError::Model(ModelError::ArithmeticOverflow("quantized group sum")));
        }
        proof {
            assert forall|i: int| 0 <= i < feature_len implies #[trigger] values@[i] as int == group_sum(
                w,
                activation,
                tokens,
                offsets,
                groups,
                site as int + 1,
                i / d,
                i % d,
            ) by {
                lemma_div_mod_index(i, d, group_count as int);
                if start <= i < start + d {
                    let c = i - start;
                    vstd::arithmetic::div_mod::lemma_fundamental_div_mod_converse(
                        i,
                        d,
                        group as int,
                        c,
                    );
                    assert(values@[start + c] == before[start + c] + activate_spec(
                        activation,
                        sums@[c] as int,
                    ));
                } else {
                    assert(i / d != group as int);
                }
            }
            assert forall|c: int| 0 <= c < d implies fits_i32(
                #[trigger] group_sum(
                    w,
                    activation,
                    tokens,
                    offsets,
                    groups,
                    site as int + 1,
                    groups[site as int],
                    c,
                ),
            ) by {
                lemma_flat_index(group as int, c, group_count as int, d);
                vstd::arithmetic::div_mod::lemma_fundamental_div_mod_converse(
                    start + c,
                    d,
                    group as int,
                    c,
                );
                assert(values@[start + c] as int == group_sum(
                    w,
                    activation,
                    tokens,
                    offsets,
                    groups,
                    site as int + 1,
                    (start + c) / d,
                    (start + c) % d,
                ));
            }
            assert(!overflow(site as int));
            assert(first_index(overflow, site as int + 1) is None);
        }
        site += 1;
    }
    let group_divisors = match config.pooling {
        Pooling::Sum => vec![1usize; group_count],
        Pooling::Mean => group_counts,
    };
    proof {
        lemma_first_index(overflow, site_count as int);
        let lhs = values@.map_values(|x: i32| x as int);
        let rhs = grouped_features(w, activation, tokens, offsets, groups, group_count as nat);
        assert forall|i: int| 0 <= i < lhs.len() implies lhs[i] == rhs[i] by {
            assert(values@[i] as int == group_sum(w, activation, tokens, offsets, groups, site_count as int, i / d, i % d));
        }
        assert(lhs =~= rhs);
        let dl = group_divisors@.map_values(|x: usize| x as int);
        let dr = group_divisors_spec(config.pooling, groups, group_count as nat);
        assert forall|g: int| 0 <= g < dl.len() implies dl[g] == dr[g] by {
            if config.pooling == Pooling::Sum {
                assert(group_divisors@[g] == 1usize);
            }
        }
        assert(dl =~= dr);
    }
    Ok(QuantizedGroupedFeatures { values, group_divisors })
}


/// One xorshift64 step (shifts 13, 7, 17).
pub open spec fn xorshift(x: u64) -> u64 {
    let a = x ^ (x << 13u64);
    let b = a ^ (a >> 7u64);
    b ^ (b << 17u64)
}

/// Deterministic generator behind the training shuffle.
///
/// The buffered second value of a Box-Muller pair is carried as its IEEE-754
/// bit pattern.
#[derive(Clone, Debug, PartialEq, Eq)]
pub struct Rng64 {
    pub state: u64,
    pub spare_normal_bits: Option<u32>,
}

impl Rng64 {
    /// Seeds the generator; a zero seed, which xorshift never leaves, is
    /// replaced by a fixed odd constant.
    pub fn new(seed: u64) -> (r: Self)
        ensures
            r.state == (if seed == 0 {
                0x9E37_79B9_7F4A_7C15u64
            } else {
                seed
            }),
            r.spare_normal_bits is None,
    {
        Rng64 {
            state: if seed == 0 {
                0x9E37_79B9_7F4A_7C15
            } else {
                seed
            },
            spare_normal_bits: None,
        }
    }

    /// Advances the state by one xorshift step and returns it.
    pub fn next_u64(&mut self) -> (r: u64)
        ensures
            r == xorshift(old(self).state),
            final(self).state == r,
            final(self).spare_normal_bits == old(self).spare_normal_bits,
    {
        let mut value = self.state;
        value = value ^ (value << 13);
        value = value ^ (value >> 7);
        value = value ^ (value << 17);
        self.state = value;
        value
    }
}

/// Fisher-Yates from position `upper` down to position one: each step draws
/// the next xorshift value and swaps `upper` with that value modulo
/// `upper + 1`. Gives the shuffled order and the final generator state.
pub open spec fn fisher_yates(order: Seq<usize>, state: u64, upper: int) -> (Seq<usize>, u64)
    decreases upper,
{
    if upper <= 0 {
        (order, state)
    } else {
        let next = xorshift(state);
        let index = (next % ((upper + 1) as u64)) as int;
        let swapped = order.update(upper, order[index]).update(index, order[upper]);
        fisher_yates(swapped, next, upper - 1)
    }
}

/// Shuffles `order` in place with the generator's stream.
pub fn shuffle(order: &mut Vec<usize>, rng: &mut Rng64)
    ensures
        (final(order)@, final(rng).state) == fisher_yates(
            old(order)@,
            old(rng).state,
            old(order)@.len() - 1,
        ),
        final(rng).spare_normal_bits == old(rng).spare_normal_bits,
{
    let ghost target = fisher_yates(order@, rng.state, order@.len() - 1);
    let ghost spare = rng.spare_normal_bits;
    let len = order.len();
    if len == 0 {
        return;
    }
    let mut upper: usize = len - 1;
    while upper > 0
        invariant
            upper < len,
            order@.len() == len,
            fisher_yates(order@, rng.state, upper as int) == target,
            rng.spare_normal_bits == spare,
        decreases upper,
    {
        let draw = rng.next_u64();
        let index = (draw % (upper as u64 + 1)) as usize;
        let at_upper = order[upper];
        let at_index = order[index];
        order.set(upper, at_index);
        order.set(index, at_upper);
        upper -= 1;
    }
}

/// Steps of the shuffle from `upper` down never touch a position above
/// `upper`.
proof fn lemma_shuffle_keeps_above(order: Seq<usize>, state: u64, upper: int, k: int)
    requires
        upper < k < order.len() <= usize::MAX,
    ensures
        fisher_yates(order, state, upper).0.len() == order.len(),
        fisher_yates(order, state, upper).0[k] == order[k],
    decreases upper,
{
    if upper > 0 {
        let next = xorshift(state);
        let index = (next % ((upper + 1) as u64)) as int;
        assert(0 <= index <= upper) by {
            assert((upper + 1) as u64 == upper + 1);
        }
        let swapped = order.update(upper, order[index]).update(index, order[upper]);
        lemma_shuffle_keeps_above(swapped, next, upper - 1, k);
    }
}

/// The last position of a shuffled order holds the entry picked by the
/// generator's first draw taken modulo the length: every entry, the last
/// one included, can end up there, so the last entry may stay in place.
pub proof fn lemma_shuffle_last_entry(order: Seq<usize>, state: u64)
    requires
        2 <= order.len() <= usize::MAX,
    ensures
        fisher_yates(order, state, order.len() - 1).0[order.len() - 1] == order[(xorshift(state)
            % (order.len() as u64)) as int],
{
    let n = order.len() as int;
    let upper = n - 1;
    let next = xorshift(state);
    assert((upper + 1) as u64 == order.len() as u64);
    let index = (next % ((upper + 1) as u64)) as int;
    assert(0 <= index <= upper);
    let swapped = order.update(upper, order[index]).update(index, order[upper]);
    assert(swapped[upper] == order[index]);
    lemma_shuffle_keeps_above(swapped, next, upper - 1, upper);
}

/// Two entries are exchanged exactly when the first draw is even, and stay
/// in place when it is odd.
pub proof fn lemma_shuffle_pair(a: usize, b: usize, state: u64)
    ensures
        fisher_yates(seq![a, b], state, 1).0 == (if xorshift(state) % 2 == 0 {
            seq![b, a]
        } else {
            seq![a, b]
        }),
{
    let order = seq![a, b];
    let next = xorshift(state);
    let index = (next % 2u64) as int;
    let swapped = order.update(1, order[index]).update(index, order[1]);
    assert(fisher_yates(order, state, 1) == fisher_yates(swapped, next, 0));
    if next % 2 == 0 {
        assert(swapped =~= seq![b, a]);
    } else {
        assert(swapped =~= seq![a, b]);
    }
}

/// Shuffling only reorders: the result holds every entry of the input, as
/// often as the input does.
pub proof fn lemma_shuffle_permutes(order: Seq<usize>, state: u64, upper: int)
    requires
        upper < order.len() <= usize::MAX,
    ensures
        fisher_yates(order, state, upper).0.len() == order.len(),
        fisher_yates(order, state, upper).0.to_multiset() == order.to_multiset(),
    decreases upper,
{
    if upper > 0 {
        let next = xorshift(state);
        let index = (next % ((upper + 1) as u64)) as int;
        assert(0 <= index <= upper) by {
            assert((upper + 1) as u64 == upper + 1);
        }
        let first = order.update(upper, order[index]);
        let swapped = first.update(index, order[upper]);
        broadcast use vstd::seq_lib::to_multiset_update;
        broadcast use vstd::multiset::group_multiset_axioms;
        assert(first.to_multiset() == order.to_multiset().insert(order[index]).remove(order[upper]));
        assert(swapped.to_multiset() == first.to_multiset().insert(order[upper]).remove(first[index]));
        if index == upper {
            assert(swapped =~= order);
        } else {
            assert(first[index] == order[index]);
            let m = order.to_multiset();
            let a = order[index];
            let b = order[upper];
            broadcast use vstd::seq_lib::to_multiset_contains;
            assert(order.contains(a));
            assert(order.contains(b));
            assert(m.count(a) > 0 && m.count(b) > 0);
            assert(swapped.to_multiset() =~= order.to_multiset()) by {
                broadcast use vstd::multiset::group_multiset_properties;
                assert forall|x: usize| #[trigger] swapped.to_multiset().count(x) == m.count(x) by {
                    let f = m.insert(a).remove(b);
                    assert(f.count(x) == m.count(x) + (if x == a { 1int } else { 0 }) - (if x == b {
                        1int
                    } else {
                        0
                    }));
                    assert(f.insert(b).remove(a).count(x) == m.count(x));
                }
            }
        }
        lemma_shuffle_permutes(swapped, next, upper - 1);
    }
}

} // verus!
