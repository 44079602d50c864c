//! Step paths: the hierarchical namespace that keeps concurrent
//! sub-protocols from colliding on a message channel. The segment strings
//! are part of the protocol and must match bitwise across helpers.

use vstd::prelude::*;

verus! {

/// A hierarchical step path: the namespace that keeps concurrent
/// sub-protocols from sharing a message channel.
///
/// All helpers derive identical paths for a given logical operation, and two
/// paths are equal exactly when their segment sequences are equal.
#[derive(Clone, Debug, PartialEq, Eq)]
pub struct StepPath {
    pub segments: Vec<&'static str>,
}

impl StepPath {
    /// The sequence of segment texts this path stands for.
    pub open spec fn path_spec(self) -> Seq<Seq<char>> {
        self.segments@.map_values(|s: &'static str| s@)
    }

    /// The root path, before any narrowing.
    pub fn root() -> (r: Self)
        ensures
            r.path_spec() == Seq::<Seq<char>>::empty(),
    {
        let r = StepPath { segments: Vec::new() };
        proof {
            assert(r.path_spec() =~= Seq::<Seq<char>>::empty());
        }
        r
    }

    /// Append one segment: the only permitted way to spawn a concurrent
    /// sub-protocol. Narrowing never mutates the receiver.
    pub fn narrow(&self, seg: &'static str) -> (r: Self)
        ensures
            r.path_spec() == self.path_spec().push(seg@),
    {
        let n = self.segments.len();
        let mut v: Vec<&'static str> = Vec::new();
        let mut i: usize = 0;
        while i < n
            invariant
                i <= n,
                n == self.segments@.len(),
                v@ == self.segments@.take(i as int),
            decreases n - i,
        {
            v.push(self.segments[i]);
            proof {
                assert(v@ =~= self.segments@.take(i + 1));
            }
            i = i + 1;
        }
        proof {
            assert(v@ =~= self.segments@);
        }
        v.push(seg);
        let r = StepPath { segments: v };
        proof {
            assert(r.path_spec() =~= self.path_spec().push(seg@));
        }
        r
    }
}

/// The six stages of the attribution pipeline, in execution order.
#[derive(Clone, Copy, Debug, PartialEq, Eq, Structural, Hash)]
pub enum Step {
    ModulusConversionForMatchKeys,
    GenSortPermutationFromMatchKeys,
    ApplySortPermutation,
    ComputeHelperBits,
    AccumulateCredit,
    PerformUserCapping,
    AggregateCredit,
}

impl Step {
    /// The wire segment of this stage.
    pub open spec fn str_spec(self) -> Seq<char> {
        match self {
            Step::ModulusConversionForMatchKeys => "mod_conv_match_key"@,
            Step::GenSortPermutationFromMatchKeys => "gen_sort_permutation_from_match_keys"@,
            Step::ApplySortPermutation => "apply_sort_permutation"@,
            Step::ComputeHelperBits => "compute_helper_bits"@,
            Step::AccumulateCredit => "accumulate_credit"@,
            Step::PerformUserCapping => "user_capping"@,
            Step::AggregateCredit => "aggregate_credit"@,
        }
    }

    /// The wire segment of this stage. The segment set is part of the
    /// protocol and must match bitwise across helpers.
    pub fn as_ref(&self) -> (r: &'static str)
        ensures
            r@ == self.str_spec(),
    {
        match self {
            Step::ModulusConversionForMatchKeys => "mod_conv_match_key",
            Step::GenSortPermutationFromMatchKeys => "gen_sort_permutation_from_match_keys",
            Step::ApplySortPermutation => "apply_sort_permutation",
            Step::ComputeHelperBits => "compute_helper_bits",
            Step::AccumulateCredit => "accumulate_credit",
            Step::PerformUserCapping => "user_capping",
            Step::AggregateCredit => "aggregate_credit",
        }
    }
}

/// Distinct pipeline stages narrow with distinct segments, so no two stages
/// ever share a message channel.
pub proof fn lemma_step_segments_distinct(a: Step, b: Step)
    requires
        a != b,
    ensures
        a.str_spec() != b.str_spec(),
{
    reveal_strlit("mod_conv_match_key");
    reveal_strlit("gen_sort_permutation_from_match_keys");
    reveal_strlit("apply_sort_permutation");
    reveal_strlit("compute_helper_bits");
    reveal_strlit("accumulate_credit");
    reveal_strlit("user_capping");
    reveal_strlit("aggregate_credit");
    assert("mod_conv_match_key"@.len() == 18);
    assert("gen_sort_permutation_from_match_keys"@.len() == 36);
    assert("apply_sort_permutation"@.len() == 22);
    assert("compute_helper_bits"@.len() == 19);
    assert("accumulate_credit"@.len() == 17);
    assert("user_capping"@.len() == 12);
    assert("aggregate_credit"@.len() == 16);
}

/// The per-field segments used when resharing an input row.
pub enum IPAInputRowResharableStep {
    MatchKeyShares,
    TriggerBit,
    BreakdownKey,
    TriggerValue,
}

impl IPAInputRowResharableStep {
    /// The wire segment of this field.
    pub open spec fn str_spec(self) -> Seq<char> {
        match self {
            IPAInputRowResharableStep::MatchKeyShares => "match_key_shares"@,
            IPAInputRowResharableStep::TriggerBit => "is_trigger_bit"@,
            IPAInputRowResharableStep::BreakdownKey => "breakdown_key"@,
            IPAInputRowResharableStep::TriggerValue => "trigger_value"@,
        }
    }

    /// The wire segment of this field.
    pub fn as_ref(&self) -> (r: &'static str)
        ensures
            r@ == self.str_spec(),
    {
        match self {
            IPAInputRowResharableStep::MatchKeyShares => "match_key_shares",
            IPAInputRowResharableStep::TriggerBit => "is_trigger_bit",
            IPAInputRowResharableStep::BreakdownKey => "breakdown_key",
            IPAInputRowResharableStep::TriggerValue => "trigger_value",
        }
    }
}

/// Distinct fields of a reshared input row use distinct segments.
pub proof fn lemma_input_row_segments_distinct(
    a: IPAInputRowResharableStep,
    b: IPAInputRowResharableStep,
)
    requires
        !(a is MatchKeyShares && b is MatchKeyShares),
        !(a is TriggerBit && b is TriggerBit),
        !(a is BreakdownKey && b is BreakdownKey),
        !(a is TriggerValue && b is TriggerValue),
    ensures
        a.str_spec() != b.str_spec(),
{
    reveal_strlit("match_key_shares");
    reveal_strlit("is_trigger_bit");
    reveal_strlit("breakdown_key");
    reveal_strlit("trigger_value");
    assert("match_key_shares"@.len() == 16);
    assert("is_trigger_bit"@.len() == 14);
    assert("breakdown_key"@.len() == 13);
    assert("trigger_value"@.len() == 13);
    assert("breakdown_key"@[0] != "trigger_value"@[0]);
}

/// The per-field segments used when resharing a capped-credit row.
pub enum AttributionResharableStep {
    HelperBit,
    AggregationBit,
    BreakdownKey,
    Credit,
}

impl AttributionResharableStep {
    /// The wire segment of this field.
    pub open spec fn str_spec(self) -> Seq<char> {
        match self {
            AttributionResharableStep::HelperBit => "helper_bit"@,
            AttributionResharableStep::AggregationBit => "aggregation_bit"@,
            AttributionResharableStep::BreakdownKey => "breakdown_key"@,
            AttributionResharableStep::Credit => "credit"@,
        }
    }

    /// The wire segment of this field.
    pub fn as_ref(&self) -> (r: &'static str)
        ensures
            r@ == self.str_spec(),
    {
        match self {
            AttributionResharableStep::HelperBit => "helper_bit",
            AttributionResharableStep::AggregationBit => "aggregation_bit",
            AttributionResharableStep::BreakdownKey => "breakdown_key",
            AttributionResharableStep::Credit => "credit",
        }
    }
}

/// Distinct fields of a reshared capped-credit row use distinct segments.
pub proof fn lemma_attribution_segments_distinct(
    a: AttributionResharableStep,
    b: AttributionResharableStep,
)
    requires
        !(a is HelperBit && b is HelperBit),
        !(a is AggregationBit && b is AggregationBit),
        !(a is BreakdownKey && b is BreakdownKey),
        !(a is Credit && b is Credit),
    ensures
        a.str_spec() != b.str_spec(),
{
    reveal_strlit("helper_bit");
    reveal_strlit("aggregation_bit");
    reveal_strlit("breakdown_key");
    reveal_strlit("credit");
    assert("helper_bit"@.len() == 10);
    assert("aggregation_bit"@.len() == 15);
    assert("breakdown_key"@.len() == 13);
    assert("credit"@.len() == 6);
}

} // verus!
