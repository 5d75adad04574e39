//! Choosing how a prediction residual is coded.

use vstd::arithmetic::logarithm::{lemma_log0, lemma_log_is_ordered, lemma_log_s, log};
use vstd::arithmetic::power2::{lemma_pow2_pos, pow2};
use vstd::prelude::*;
use vstd::slice::{slice_subrange, slice_to_vec};

use crate::bits::{fits_signed, power_of_two};
use crate::rice::{encoding_cost, fold_residual, folded, partition_cost, partitions_cost, rice_bit_len, rice_cost, EncodingView, PartitionView, ResidualEncoding, ResidualPartition, RiceMethod};
use crate::selection::{cheapest, law_cheapest_is_first_minimum, lemma_cheapest_step};

verus! {

/// The largest partition order that is tried.
pub const MAX_RICE_PARTITION_ORDER: u8 = 8;

/// The widest escaped residual.
pub const MAX_ESCAPE_BITS: u8 = 31;

/// The largest number of samples in a frame.
pub const MAX_BLOCK_SIZE: usize = 65535;

/// A residual fits in the widest escape field.
pub open spec fn is_encodable(residual: int) -> bool {
    -0x4000_0000 <= residual < 0x4000_0000
}

/// Whether a residual fits in the widest escape field.
pub fn residual_is_encodable(residual: i64) -> (encodable: bool)
    ensures
        encodable == is_encodable(residual as int),
{
    residual >= -0x4000_0000 && residual <= 0x3fff_ffff
}

/// All residuals can be written with `bits` bits each.
pub open spec fn width_suffices(residuals: Seq<i32>, bits: nat) -> bool {
    forall|i: int| 0 <= i < residuals.len() ==> value_fits(#[trigger] residuals[i] as int, bits)
}

/// Zero needs no bits; any other value needs a sign bit.
pub open spec fn value_fits(value: int, bits: nat) -> bool {
    if bits == 0 {
        value == 0
    } else {
        fits_signed(value, bits)
    }
}

/// `bits` is the smallest sufficient width.
pub open spec fn is_least_width(residuals: Seq<i32>, bits: u8) -> bool {
    &&& width_suffices(residuals, bits as nat)
    &&& forall|less: nat| less < bits ==> !#[trigger] width_suffices(residuals, less)
}

/// The smallest width of at most [`MAX_ESCAPE_BITS`] bits that suffices.
pub open spec fn escape_width(residuals: Seq<i32>) -> Option<u8> {
    if exists|bits: u8| bits <= MAX_ESCAPE_BITS && #[trigger] is_least_width(residuals, bits) {
        Some(choose|bits: u8| bits <= MAX_ESCAPE_BITS && #[trigger] is_least_width(residuals, bits))
    } else {
        None
    }
}

/// The sum of the folded residuals.
pub open spec fn folded_sum(residuals: Seq<i32>) -> nat
    decreases residuals.len(),
{
    if residuals.len() == 0 {
        0
    } else {
        folded_sum(residuals.drop_last()) + folded(residuals.last() as int)
    }
}

/// The mean of the folded residuals, rounded down.
pub open spec fn folded_mean(residuals: Seq<i32>) -> nat {
    if residuals.len() == 0 {
        0
    } else {
        folded_sum(residuals) / residuals.len()
    }
}

/// The binary logarithm of the mean folded residual, rounded down.
pub open spec fn estimated_parameter(residuals: Seq<i32>) -> nat {
    if folded_mean(residuals) == 0 {
        0
    } else {
        log(2, folded_mean(residuals) as int) as nat
    }
}

pub open spec fn smaller(left: nat, right: nat) -> nat {
    if left <= right {
        left
    } else {
        right
    }
}

/// The Rice parameters that are tried for a partition.
pub open spec fn rice_parameters(residuals: Seq<i32>, method: RiceMethod) -> Seq<u8> {
    let estimated = smaller(
        estimated_parameter(residuals),
        method.spec_max_parameter() as nat,
    ) as u8;
    if residuals.len() == 0 || estimated == 0 {
        seq![0]
    } else if estimated <= 2 {
        seq![0, estimated]
    } else {
        seq![estimated]
    }
}

/// The ways of coding a partition that are tried, in order.
pub open spec fn partition_candidates(residuals: Seq<i32>, method: RiceMethod) -> Seq<
    PartitionView,
> {
    let escape = match escape_width(residuals) {
        Some(bits) => seq![PartitionView::Escape { bits, residuals }],
        None => Seq::empty(),
    };
    escape + rice_parameters(residuals, method).map_values(
        |parameter: u8| PartitionView::Rice { parameter, residuals },
    )
}

/// The costs of coded partitions.
pub open spec fn partition_costs(candidates: Seq<PartitionView>, method: RiceMethod) -> Seq<nat> {
    candidates.map_values(|candidate: PartitionView| partition_cost(candidate, method))
}

/// The cheapest way of coding a partition.
pub open spec fn best_partition(residuals: Seq<i32>, method: RiceMethod) -> PartitionView {
    let candidates = partition_candidates(residuals, method);
    candidates[cheapest(partition_costs(candidates, method))]
}

/// A partition order splits the block evenly and leaves residuals in the first
/// partition.
pub open spec fn is_valid_partition_order(
    block_size: nat,
    predictor_order: nat,
    partition_order: nat,
) -> bool {
    block_size % pow2(partition_order) == 0 && block_size / pow2(partition_order) > predictor_order
}

/// The largest valid partition order up to `limit`.
pub open spec fn highest_valid_order(block_size: nat, predictor_order: nat, limit: nat) -> Option<
    nat,
>
    decreases limit,
{
    if is_valid_partition_order(block_size, predictor_order, limit) {
        Some(limit)
    } else if limit == 0 {
        None
    } else {
        highest_valid_order(block_size, predictor_order, (limit - 1) as nat)
    }
}

/// The partition orders that are tried: the highest valid one, the one below it
/// and zero.
pub open spec fn partition_orders(
    block_size: nat,
    predictor_order: nat,
    max_partition_order: nat,
) -> Seq<u8> {
    match highest_valid_order(
        block_size,
        predictor_order,
        smaller(max_partition_order, MAX_RICE_PARTITION_ORDER as nat),
    ) {
        None => Seq::empty(),
        Some(highest) => if highest == 0 {
            seq![0]
        } else if highest == 1 {
            seq![1, 0]
        } else {
            seq![highest as u8, (highest - 1) as u8, 0]
        },
    }
}

/// The methods that are tried: the wide one only for large residuals.
pub open spec fn rice_methods(residuals: Seq<i32>) -> Seq<RiceMethod> {
    if estimated_parameter(residuals) <= RiceMethod::FourBit.spec_max_parameter() {
        seq![RiceMethod::FourBit]
    } else {
        seq![RiceMethod::FourBit, RiceMethod::FiveBit]
    }
}

/// The residuals of a partition: all partitions span the same number of samples,
/// and the first one lacks the warm-up samples.
pub open spec fn partition_slice(
    residuals: Seq<i32>,
    predictor_order: nat,
    partition_order: nat,
    index: int,
) -> Seq<i32> {
    let span = ((residuals.len() + predictor_order) / pow2(partition_order)) as int;
    residuals.subrange(
        if index == 0 {
            0
        } else {
            index * span - predictor_order
        },
        (index + 1) * span - predictor_order,
    )
}

/// The residual coded with a method and a partition order, each partition in the
/// cheapest way.
pub open spec fn partitioned(
    residuals: Seq<i32>,
    predictor_order: nat,
    partition_order: u8,
    method: RiceMethod,
) -> EncodingView {
    EncodingView {
        method,
        partition_order,
        partitions: Seq::new(
            pow2(partition_order as nat),
            |index: int|
                best_partition(
                    partition_slice(residuals, predictor_order, partition_order as nat, index),
                    method,
                ),
        ),
    }
}

/// The codings of a residual that are tried, in order: partition orders from the
/// highest down, and the methods for each.
pub open spec fn encoding_candidates(
    residuals: Seq<i32>,
    predictor_order: nat,
    max_partition_order: nat,
) -> Seq<EncodingView> {
    let orders = partition_orders(
        residuals.len() + predictor_order,
        predictor_order,
        max_partition_order,
    );
    let methods = rice_methods(residuals);
    Seq::new(
        orders.len() * methods.len(),
        |index: int|
            partitioned(
                residuals,
                predictor_order,
                orders[index / (methods.len() as int)],
                methods[index % (methods.len() as int)],
            ),
    )
}

/// The costs of coded residuals.
pub open spec fn encoding_costs(candidates: Seq<EncodingView>) -> Seq<nat> {
    candidates.map_values(|candidate: EncodingView| encoding_cost(candidate))
}

/// The cheapest coding of a residual, if there is any.
pub open spec fn best_encoding(
    residuals: Seq<i32>,
    predictor_order: nat,
    max_partition_order: nat,
) -> Option<EncodingView> {
    let candidates = encoding_candidates(residuals, predictor_order, max_partition_order);
    if candidates.len() == 0 {
        None
    } else {
        Some(candidates[cheapest(encoding_costs(candidates))])
    }
}

proof fn lemma_folded_sum_bound(residuals: Seq<i32>)
    ensures
        folded_sum(residuals) <= 0xffff_ffff * residuals.len(),
    decreases residuals.len(),
{
    if residuals.len() > 0 {
        lemma_folded_sum_bound(residuals.drop_last());
    }
}

proof fn lemma_mean_bound(residuals: Seq<i32>)
    ensures
        folded_mean(residuals) <= 0xffff_ffff,
{
    if residuals.len() > 0 {
        lemma_folded_sum_bound(residuals);
        let length = residuals.len() as int;
        let sum = folded_sum(residuals) as int;
        assert(sum / length <= 0xffff_ffff) by (nonlinear_arith)
            requires
                length > 0,
                sum <= 0xffff_ffff * length,
        ;
    }
}

proof fn lemma_log_bound(value: nat)
    requires
        1 <= value <= 0xffff_ffff,
    ensures
        0 <= log(2, value as int) <= 32,
{
    vstd::arithmetic::power2::lemma2_to64();
    vstd::arithmetic::power2::lemma_pow2(32);
    vstd::arithmetic::logarithm::lemma_log_pow(2, 32);
    lemma_log_is_ordered(2, value as int, 0x1_0000_0000);
    vstd::arithmetic::logarithm::lemma_log_nonnegative(2, value as int);
}

/// The binary logarithm of a number, rounded down.
fn floor_log2(value: u64) -> (exponent: u8)
    requires
        1 <= value <= 0xffff_ffff,
    ensures
        exponent == log(2, value as int),
        exponent <= 32,
{
    let mut rest: u64 = value;
    let mut exponent: u8 = 0;
    proof {
        lemma_log_bound(value as nat);
    }
    while rest > 1
        invariant
            1 <= rest <= value,
            value <= 0xffff_ffff,
            0 <= log(2, value as int) <= 32,
            log(2, value as int) == exponent + log(2, rest as int),
        decreases rest,
    {
        proof {
            lemma_log_s(2, rest as int);
            lemma_log_bound((rest / 2) as nat);
        }
        rest = rest / 2;
        exponent = exponent + 1;
    }
    proof {
        lemma_log0(2, 1);
    }
    exponent
}

/// The Rice parameter that suits the mean residual.
pub fn estimate_rice_parameter(residuals: &[i32]) -> (parameter: u8)
    requires
        residuals@.len() <= MAX_BLOCK_SIZE,
    ensures
        parameter == estimated_parameter(residuals@),
        parameter <= 32,
{
    if residuals.len() == 0 {
        return 0;
    }
    let mut sum: u64 = 0;
    let mut index: usize = 0;
    while index < residuals.len()
        invariant
            index <= residuals.len() <= MAX_BLOCK_SIZE,
            sum == folded_sum(residuals@.take(index as int)),
            sum <= 0xffff_ffff * index,
        decreases residuals.len() - index,
    {
        proof {
            let next = residuals@.take(index + 1);
            assert(next.drop_last() == residuals@.take(index as int));
        }
        sum = sum + fold_residual(residuals[index]);
        index = index + 1;
    }
    assert(residuals@.take(index as int) == residuals@);
    proof {
        lemma_mean_bound(residuals@);
    }
    let mean: u64 = sum / residuals.len() as u64;
    if mean == 0 {
        0
    } else {
        floor_log2(mean)
    }
}

/// The smallest and the largest residual.
fn residual_range(residuals: &[i32]) -> (range: (i32, i32))
    requires
        residuals@.len() > 0,
    ensures
        forall|i: int| 0 <= i < residuals@.len() ==> range.0 <= #[trigger] residuals@[i] <= range.1,
        exists|i: int| 0 <= i < residuals@.len() && #[trigger] residuals@[i] == range.0,
        exists|i: int| 0 <= i < residuals@.len() && #[trigger] residuals@[i] == range.1,
{
    let mut least: i32 = residuals[0];
    let mut greatest: i32 = residuals[0];
    let mut index: usize = 1;
    while index < residuals.len()
        invariant
            1 <= index <= residuals.len(),
            forall|i: int| 0 <= i < index ==> least <= #[trigger] residuals@[i] <= greatest,
            exists|i: int| 0 <= i < index && #[trigger] residuals@[i] == least,
            exists|i: int| 0 <= i < index && #[trigger] residuals@[i] == greatest,
        decreases residuals.len() - index,
    {
        if residuals[index] < least {
            least = residuals[index];
        }
        if residuals[index] > greatest {
            greatest = residuals[index];
        }
        index = index + 1;
    }
    (least, greatest)
}

/// The smallest width of at most 31 bits that every residual fits in.
pub fn residual_escape_width(residuals: &[i32]) -> (width: Option<u8>)
    ensures
        width == escape_width(residuals@),
        width matches Some(bits) ==> bits <= MAX_ESCAPE_BITS && is_least_width(residuals@, bits),
{
    if residuals.len() == 0 {
        proof {
            assert(is_least_width(residuals@, 0));
            lemma_escape_width(residuals@, 0);
        }
        return Some(0);
    }
    let (least, greatest) = residual_range(residuals);
    if least == 0 && greatest == 0 {
        proof {
            assert(is_least_width(residuals@, 0));
            lemma_escape_width(residuals@, 0);
        }
        return Some(0);
    }
    assert(!width_suffices(residuals@, 0)) by {
        let low = choose|i: int| 0 <= i < residuals@.len() && #[trigger] residuals@[i] == least;
        let high = choose|i: int| 0 <= i < residuals@.len() && #[trigger] residuals@[i] == greatest;
        assert(!value_fits(residuals@[low] as int, 0) || !value_fits(residuals@[high] as int, 0));
    }
    let mut bits: u8 = 1;
    while bits <= MAX_ESCAPE_BITS
        invariant
            1 <= bits <= MAX_ESCAPE_BITS + 1,
            forall|i: int|
                0 <= i < residuals@.len() ==> least <= #[trigger] residuals@[i] <= greatest,
            exists|i: int| 0 <= i < residuals@.len() && #[trigger] residuals@[i] == least,
            exists|i: int| 0 <= i < residuals@.len() && #[trigger] residuals@[i] == greatest,
            forall|less: nat| less < bits ==> !#[trigger] width_suffices(residuals@, less),
        decreases MAX_ESCAPE_BITS + 1 - bits,
    {
        let limit: i64 = power_of_two(bits - 1) as i64;
        proof {
            vstd::arithmetic::power2::lemma2_to64();
            if bits - 1 < 30 {
                vstd::arithmetic::power2::lemma_pow2_strictly_increases((bits - 1) as nat, 30);
            }
        }
        if least as i64 >= -limit && (greatest as i64) < limit {
            proof {
                assert(width_suffices(residuals@, bits as nat));
                assert(is_least_width(residuals@, bits));
                lemma_escape_width(residuals@, bits);
            }
            return Some(bits);
        }
        assert(!width_suffices(residuals@, bits as nat)) by {
            let low = choose|i: int| 0 <= i < residuals@.len() && #[trigger] residuals@[i] == least;
            let high = choose|i: int|
                0 <= i < residuals@.len() && #[trigger] residuals@[i] == greatest;
            assert(!value_fits(residuals@[low] as int, bits as nat) || !value_fits(
                residuals@[high] as int,
                bits as nat,
            ));
        }
        bits = bits + 1;
    }
    assert forall|width: u8| width <= MAX_ESCAPE_BITS implies !#[trigger] is_least_width(
        residuals@,
        width,
    ) by {
        assert(!width_suffices(residuals@, width as nat));
    }
    None
}

proof fn lemma_escape_width(residuals: Seq<i32>, bits: u8)
    requires
        bits <= MAX_ESCAPE_BITS,
        is_least_width(residuals, bits),
    ensures
        escape_width(residuals) == Some(bits),
{
    let chosen = choose|other: u8|
        other <= MAX_ESCAPE_BITS && #[trigger] is_least_width(residuals, other);
    assert(is_least_width(residuals, chosen));
    if chosen < bits {
        assert(!width_suffices(residuals, chosen as nat));
    }
    if bits < chosen {
        assert(!width_suffices(residuals, bits as nat));
    }
}

/// The Rice parameters to try for a partition.
pub fn candidate_rice_parameters(residuals: &[i32], method: RiceMethod) -> (parameters: Vec<u8>)
    requires
        residuals@.len() <= MAX_BLOCK_SIZE,
    ensures
        parameters@ == rice_parameters(residuals@, method),
        parameters@.len() > 0,
        forall|i: int| 0 <= i < parameters@.len() ==> #[trigger] parameters@[i] <= 30,
{
    let mut estimated: u8 = estimate_rice_parameter(residuals);
    if estimated > method.max_parameter() {
        estimated = method.max_parameter();
    }
    let mut parameters: Vec<u8> = Vec::new();
    if residuals.len() == 0 || estimated == 0 {
        parameters.push(0);
    } else {
        if estimated <= 2 {
            parameters.push(0);
        }
        parameters.push(estimated);
    }
    assert(parameters@ == rice_parameters(residuals@, method));
    parameters
}

/// The methods to try for a residual.
pub fn candidate_rice_methods(residuals: &[i32]) -> (methods: Vec<RiceMethod>)
    requires
        residuals@.len() <= MAX_BLOCK_SIZE,
    ensures
        methods@ == rice_methods(residuals@),
        1 <= methods@.len() <= 2,
{
    let mut methods: Vec<RiceMethod> = Vec::new();
    methods.push(RiceMethod::FourBit);
    if estimate_rice_parameter(residuals) > RiceMethod::FourBit.max_parameter() {
        methods.push(RiceMethod::FiveBit);
    }
    assert(methods@ == rice_methods(residuals@));
    methods
}

/// No partition of a frame takes more bits than this.
pub open spec fn partition_cost_limit() -> nat {
    0x2_0000_0000_0000
}

proof fn lemma_rice_cost_bound(residuals: Seq<i32>, parameter: nat)
    requires
        parameter <= 31,
    ensures
        rice_cost(residuals, parameter) <= 0x1_0000_0020 * residuals.len(),
    decreases residuals.len(),
{
    if residuals.len() > 0 {
        lemma_rice_cost_bound(residuals.drop_last(), parameter);
        lemma_pow2_pos(parameter);
        vstd::arithmetic::div_mod::lemma_div_is_ordered_by_denominator(
            folded(residuals.last() as int) as int,
            1,
            pow2(parameter) as int,
        );
    }
}

proof fn lemma_candidates_are_bounded(residuals: Seq<i32>, method: RiceMethod)
    requires
        residuals.len() <= MAX_BLOCK_SIZE,
    ensures
        partition_candidates(residuals, method).len() > 0,
        forall|i: int|
            0 <= i < partition_candidates(residuals, method).len() ==> partition_cost(
                #[trigger] partition_candidates(residuals, method)[i],
                method,
            ) <= partition_cost_limit(),
        forall|i: int|
            0 <= i < partition_candidates(residuals, method).len() ==> (
            #[trigger] partition_candidates(residuals, method)[i] matches PartitionView::Rice {
                parameter,
                ..
            } ==> parameter <= 30),
{
    let candidates = partition_candidates(residuals, method);
    assert forall|i: int| 0 <= i < candidates.len() implies partition_cost(
        #[trigger] candidates[i],
        method,
    ) <= partition_cost_limit() by {
        match candidates[i] {
            PartitionView::Rice { parameter, .. } => {
                lemma_rice_cost_bound(residuals, parameter as nat);
            },
            PartitionView::Escape { bits, .. } => {
                let length = residuals.len();
                let width = bits as nat;
                assert(length * width <= 65535 * 31) by (nonlinear_arith)
                    requires
                        length <= 65535,
                        width <= 31,
                ;
            },
        }
    }
}

/// The cheapest coding of a partition is bounded, and its Rice parameter is small.
pub proof fn lemma_best_partition(residuals: Seq<i32>, method: RiceMethod)
    requires
        residuals.len() <= MAX_BLOCK_SIZE,
    ensures
        partition_cost(best_partition(residuals, method), method) <= partition_cost_limit(),
        best_partition(residuals, method) matches PartitionView::Rice { parameter, .. }
            ==> parameter <= 30,
        partition_candidates(residuals, method).contains(best_partition(residuals, method)),
{
    let candidates = partition_candidates(residuals, method);
    lemma_candidates_are_bounded(residuals, method);
    law_cheapest_is_first_minimum(partition_costs(candidates, method));
}

/// A way of coding a partition.
enum PartitionChoice {
    Rice(u8),
    Escape(u8),
}

impl PartitionChoice {
    spec fn coded(self, residuals: Seq<i32>) -> PartitionView {
        match self {
            PartitionChoice::Rice(parameter) => PartitionView::Rice { parameter, residuals },
            PartitionChoice::Escape(bits) => PartitionView::Escape { bits, residuals },
        }
    }
}

/// Codes a partition in the cheapest of the ways that are tried.
pub fn choose_partition_encoding(residuals: &[i32], method: RiceMethod) -> (partition:
    ResidualPartition)
    requires
        residuals@.len() <= MAX_BLOCK_SIZE,
    ensures
        partition@ == best_partition(residuals@, method),
{
    let ghost candidates = partition_candidates(residuals@, method);
    let ghost costs = partition_costs(candidates, method);
    proof {
        lemma_candidates_are_bounded(residuals@, method);
    }
    let mut best: Option<(u64, PartitionChoice)> = None;
    let ghost mut taken: int = 0;
    let escape = residual_escape_width(residuals);
    if let Some(bits) = escape {
        let bit_len: u64 = method.parameter_bits() as u64 + 5 + {
            assert(residuals@.len() * bits <= 65535 * 31) by (nonlinear_arith)
                requires
                    residuals@.len() <= 65535,
                    bits <= 31,
            ;
            residuals.len() as u64 * bits as u64
        };
        best = Some((bit_len, PartitionChoice::Escape(bits)));
        proof {
            taken = 1;
            lemma_cheapest_step(costs, 0);
            assert(candidates[0] == PartitionView::Escape { bits, residuals: residuals@ });
        }
    }
    let ghost offset = taken;
    let parameters = candidate_rice_parameters(residuals, method);
    let mut index: usize = 0;
    while index < parameters.len()
        invariant
            index <= parameters.len(),
            residuals@.len() <= MAX_BLOCK_SIZE,
            parameters@ == rice_parameters(residuals@, method),
            forall|i: int| 0 <= i < parameters@.len() ==> #[trigger] parameters@[i] <= 30,
            candidates == partition_candidates(residuals@, method),
            costs == partition_costs(candidates, method),
            taken == offset + index,
            0 <= offset,
            candidates.len() == offset + parameters@.len(),
            forall|i: int|
                0 <= i < parameters@.len() ==> #[trigger] candidates[offset + i]
                    == (PartitionView::Rice { parameter: parameters@[i], residuals: residuals@ }),
            best is None <==> taken == 0,
            best matches Some((bits, choice)) ==> {
                &&& 0 <= cheapest(costs.take(taken)) < costs.len()
                &&& bits == costs[cheapest(costs.take(taken))]
                &&& choice.coded(residuals@) == candidates[cheapest(costs.take(taken))]
            },
        decreases parameters.len() - index,
    {
        let parameter: u8 = parameters[index];
        proof {
            lemma_rice_cost_bound(residuals@, parameter as nat);
            lemma_cheapest_step(costs, taken);
            assert(candidates[offset + index] == PartitionView::Rice {
                parameter,
                residuals: residuals@,
            });
        }
        let bit_len: u64 = method.parameter_bits() as u64 + rice_bit_len(residuals, parameter);
        let shorter = match &best {
            Some((best_bits, _)) => bit_len < *best_bits,
            None => true,
        };
        if shorter {
            best = Some((bit_len, PartitionChoice::Rice(parameter)));
        }
        proof {
            taken = taken + 1;
        }
        index = index + 1;
    }
    assert(costs.take(taken) == costs);
    match best {
        Some((_, PartitionChoice::Escape(bits))) => ResidualPartition::Escape {
            bits,
            residuals: slice_to_vec(residuals),
        },
        Some((_, PartitionChoice::Rice(parameter))) => ResidualPartition::Rice {
            parameter,
            residuals: slice_to_vec(residuals),
        },
        None => ResidualPartition::Rice { parameter: 0, residuals: Vec::new() },
    }
}

/// The partition orders to try for a block.
pub fn partition_order_candidates(
    block_size: usize,
    predictor_order: u8,
    max_partition_order: u8,
) -> (orders: Vec<u8>)
    ensures
        orders@ == partition_orders(
            block_size as nat,
            predictor_order as nat,
            max_partition_order as nat,
        ),
{
    let mut order: u8 = if max_partition_order <= MAX_RICE_PARTITION_ORDER {
        max_partition_order
    } else {
        MAX_RICE_PARTITION_ORDER
    };
    let ghost limit = order as nat;
    let mut orders: Vec<u8> = Vec::new();
    loop
        invariant
            order <= limit <= 8,
            limit == smaller(max_partition_order as nat, MAX_RICE_PARTITION_ORDER as nat),
            orders@ == Seq::<u8>::empty(),
            highest_valid_order(block_size as nat, predictor_order as nat, limit)
                == highest_valid_order(block_size as nat, predictor_order as nat, order as nat),
        decreases order,
    {
        let count: u64 = power_of_two(order);
        if block_size as u64 % count == 0 && block_size as u64 / count > predictor_order as u64 {
            orders.push(order);
            if order > 1 {
                orders.push(order - 1);
            }
            if order > 0 {
                orders.push(0);
            }
            assert(orders@ == partition_orders(
                block_size as nat,
                predictor_order as nat,
                max_partition_order as nat,
            ));
            return orders;
        }
        if order == 0 {
            return orders;
        }
        order = order - 1;
    }
}

/// Each order that is tried is valid.
proof fn lemma_orders_are_valid(block_size: nat, predictor_order: nat, max_partition_order: nat)
    ensures
        forall|i: int|
            #![trigger partition_orders(block_size, predictor_order, max_partition_order)[i]]
            0 <= i < partition_orders(block_size, predictor_order, max_partition_order).len() ==> {
                let order = partition_orders(block_size, predictor_order, max_partition_order)[i];
                order <= 8 && is_valid_partition_order(block_size, predictor_order, order as nat)
            },
        partition_orders(block_size, predictor_order, max_partition_order).len() > 0 <==> block_size
            > predictor_order,
        partition_orders(block_size, predictor_order, max_partition_order).len() <= 3,
{
    let limit = smaller(max_partition_order, MAX_RICE_PARTITION_ORDER as nat);
    lemma_highest_valid_order(block_size, predictor_order, limit);
    match highest_valid_order(block_size, predictor_order, limit) {
        Some(highest) => {
            if highest > 0 {
                lemma_lower_order_is_valid(block_size, predictor_order, highest);
            }
            vstd::arithmetic::power2::lemma2_to64();
        },
        None => {},
    }
}

proof fn lemma_highest_valid_order(block_size: nat, predictor_order: nat, limit: nat)
    ensures
        match highest_valid_order(block_size, predictor_order, limit) {
            Some(order) => order <= limit && is_valid_partition_order(
                block_size,
                predictor_order,
                order,
            ) && block_size > predictor_order,
            None => block_size <= predictor_order,
        },
    decreases limit,
{
    vstd::arithmetic::power2::lemma2_to64();
    if is_valid_partition_order(block_size, predictor_order, limit) {
        lemma_pow2_pos(limit);
        vstd::arithmetic::div_mod::lemma_div_is_ordered_by_denominator(
            block_size as int,
            1,
            pow2(limit) as int,
        );
    } else if limit > 0 {
        lemma_highest_valid_order(block_size, predictor_order, (limit - 1) as nat);
    }
}

proof fn lemma_lower_order_is_valid(block_size: nat, predictor_order: nat, order: nat)
    requires
        order > 0,
        is_valid_partition_order(block_size, predictor_order, order),
    ensures
        is_valid_partition_order(block_size, predictor_order, (order - 1) as nat),
{
    vstd::arithmetic::power2::lemma_pow2_unfold(order);
    lemma_pow2_pos((order - 1) as nat);
    let half = pow2((order - 1) as nat) as int;
    let size = block_size as int;
    let span = size / (2 * half);
    assert(size % half == 0 && size / half >= span) by (nonlinear_arith)
        requires
            half > 0,
            size >= 0,
            span == size / (2 * half),
            size % (2 * half) == 0,
    {
        assert(size == (2 * half) * span + 0);
        assert(size == half * (2 * span));
        assert(span >= 0);
    }
}

/// Codes a residual with a method and a partition order.
pub fn encode_partitions(
    residuals: &[i32],
    predictor_order: u8,
    partition_order: u8,
    method: RiceMethod,
) -> (encoding: ResidualEncoding)
    requires
        residuals@.len() + predictor_order <= MAX_BLOCK_SIZE,
        partition_order <= 8,
        is_valid_partition_order(
            residuals@.len() + predictor_order as nat,
            predictor_order as nat,
            partition_order as nat,
        ),
    ensures
        encoding@ == partitioned(residuals@, predictor_order as nat, partition_order, method),
{
    let count: u64 = power_of_two(partition_order);
    let block_size: u64 = residuals.len() as u64 + predictor_order as u64;
    let span: u64 = block_size / count;
    let ghost expected = partitioned(
        residuals@,
        predictor_order as nat,
        partition_order,
        method,
    ).partitions;
    let mut partitions: Vec<ResidualPartition> = Vec::new();
    let mut offset: u64 = 0;
    let mut index: u64 = 0;
    proof {
        vstd::arithmetic::div_mod::lemma_fundamental_div_mod(block_size as int, count as int);
        assert(count * span == block_size);
    }
    while index < count
        invariant
            index <= count,
            count == pow2(partition_order as nat),
            residuals@.len() + predictor_order <= MAX_BLOCK_SIZE,
            block_size == residuals@.len() + predictor_order,
            span == (residuals@.len() + predictor_order as nat) / pow2(partition_order as nat),
            count * span == block_size,
            span > predictor_order,
            offset == if index == 0 {
                0
            } else {
                index * span - predictor_order
            },
            offset <= residuals@.len(),
            expected == partitioned(
                residuals@,
                predictor_order as nat,
                partition_order,
                method,
            ).partitions,
            partitions@.len() == index,
            forall|i: int| 0 <= i < index ==> #[trigger] partitions@[i]@ == expected[i],
        decreases count - index,
    {
        let length: u64 = if index == 0 {
            span - predictor_order as u64
        } else {
            span
        };
        assert((index + 1) * span <= count * span) by (nonlinear_arith)
            requires
                index + 1 <= count,
        ;
        assert((index + 1) * span == index * span + span) by (nonlinear_arith);
        assert(index == 0 ==> index * span == 0);
        let end: u64 = offset + length;
        let part = slice_subrange(residuals, offset as usize, end as usize);
        let partition = choose_partition_encoding(part, method);
        assert(part@ == partition_slice(
            residuals@,
            predictor_order as nat,
            partition_order as nat,
            index as int,
        ));
        partitions.push(partition);
        offset = end;
        index = index + 1;
    }
    let encoding = ResidualEncoding { method, partition_order, partitions };
    assert(encoding@.partitions == expected);
    encoding
}

/// Each coding that is tried is bounded, and its Rice parameters are small.
proof fn lemma_partitioned(
    residuals: Seq<i32>,
    predictor_order: nat,
    partition_order: u8,
    method: RiceMethod,
)
    requires
        residuals.len() + predictor_order <= MAX_BLOCK_SIZE,
        partition_order <= 8,
        is_valid_partition_order(
            residuals.len() + predictor_order,
            predictor_order,
            partition_order as nat,
        ),
    ensures
        encoding_cost(partitioned(residuals, predictor_order, partition_order, method))
            <= 0x400_0000_0000_0000,
        forall|i: int|
            0 <= i < pow2(partition_order as nat) ==> (#[trigger] partitioned(
                residuals,
                predictor_order,
                partition_order,
                method,
            ).partitions[i] matches PartitionView::Rice { parameter, .. } ==> parameter <= 30),
{
    let encoding = partitioned(residuals, predictor_order, partition_order, method);
    let count = pow2(partition_order as nat);
    assert(count <= 256) by {
        vstd::arithmetic::power2::lemma2_to64();
        if partition_order < 8 {
            vstd::arithmetic::power2::lemma_pow2_strictly_increases(partition_order as nat, 8);
        }
    }
    assert forall|i: int| 0 <= i < count implies (#[trigger] encoding.partitions[i]
        == best_partition(
        partition_slice(residuals, predictor_order, partition_order as nat, i),
        method,
    )) && partition_slice(residuals, predictor_order, partition_order as nat, i).len()
        <= MAX_BLOCK_SIZE by {
        lemma_partition_slice(residuals, predictor_order, partition_order as nat, i);
    }
    assert forall|i: int| 0 <= i < count implies partition_cost(
        #[trigger] encoding.partitions[i],
        method,
    ) <= partition_cost_limit() && (encoding.partitions[i] matches PartitionView::Rice {
        parameter,
        ..
    } ==> parameter <= 30) by {
        lemma_best_partition(
            partition_slice(residuals, predictor_order, partition_order as nat, i),
            method,
        );
    }
    lemma_partitions_cost_bound(encoding.partitions, method);
    assert(encoding.partitions.len() * partition_cost_limit() <= 256 * partition_cost_limit())
        by (nonlinear_arith)
        requires
            encoding.partitions.len() <= 256,
    ;
}

/// A partition lies within the residuals.
pub proof fn lemma_partition_slice(
    residuals: Seq<i32>,
    predictor_order: nat,
    partition_order: nat,
    index: int,
)
    requires
        is_valid_partition_order(
            residuals.len() + predictor_order,
            predictor_order,
            partition_order,
        ),
        0 <= index < pow2(partition_order),
    ensures
        ({
            let span = ((residuals.len() + predictor_order) / pow2(partition_order)) as int;
            let start = if index == 0 { 0 } else { index * span - predictor_order };
            let end = (index + 1) * span - predictor_order;
            &&& 0 <= start < end <= residuals.len()
            &&& pow2(partition_order) * span == residuals.len() + predictor_order
        }),
        partition_slice(residuals, predictor_order, partition_order, index).len()
            <= residuals.len(),
{
    lemma_pow2_pos(partition_order);
    let count = pow2(partition_order) as int;
    let size = (residuals.len() + predictor_order) as int;
    let span = size / count;
    vstd::arithmetic::div_mod::lemma_fundamental_div_mod(size, count);
    assert((index + 1) * span <= count * span) by (nonlinear_arith)
        requires
            index + 1 <= count,
            span > 0,
    ;
    assert(index * span >= span || index == 0) by (nonlinear_arith)
        requires
            index >= 0,
            span > 0,
    ;
    assert((index + 1) * span == index * span + span) by (nonlinear_arith);
}

proof fn lemma_partitions_cost_bound(partitions: Seq<PartitionView>, method: RiceMethod)
    requires
        forall|i: int|
            0 <= i < partitions.len() ==> partition_cost(#[trigger] partitions[i], method)
                <= partition_cost_limit(),
    ensures
        partitions_cost(partitions, method) <= partitions.len() * partition_cost_limit(),
    decreases partitions.len(),
{
    if partitions.len() > 0 {
        let rest = partitions.drop_last();
        assert forall|i: int| 0 <= i < rest.len() implies partition_cost(
            #[trigger] rest[i],
            method,
        ) <= partition_cost_limit() by {
            assert(rest[i] == partitions[i]);
        }
        lemma_partitions_cost_bound(rest, method);
        assert(partitions.last() == partitions[partitions.len() - 1]);
        assert((partitions.len() - 1) * partition_cost_limit() + partition_cost_limit()
            == partitions.len() * partition_cost_limit()) by (nonlinear_arith);
    }
}

/// There is a coding exactly when there are residuals, and it takes a bounded
/// number of bits.
pub proof fn lemma_best_encoding(residuals: Seq<i32>, predictor_order: nat, max_partition_order: nat)
    requires
        residuals.len() + predictor_order <= MAX_BLOCK_SIZE,
    ensures
        best_encoding(residuals, predictor_order, max_partition_order) is Some <==> residuals.len()
            > 0,
        best_encoding(residuals, predictor_order, max_partition_order) matches Some(encoding) ==> {
            &&& encoding_cost(encoding) <= 0x400_0000_0000_0000
            &&& encoding.partition_order <= 8
            &&& is_valid_partition_order(
                residuals.len() + predictor_order,
                predictor_order,
                encoding.partition_order as nat,
            )
            &&& encoding == partitioned(
                residuals,
                predictor_order,
                encoding.partition_order,
                encoding.method,
            )
            &&& forall|i: int|
                0 <= i < encoding.partitions.len() ==> (#[trigger] encoding.partitions[i] matches PartitionView::Rice {
                    parameter,
                    ..
                } ==> parameter <= 30)
        },
{
    let candidates = encoding_candidates(residuals, predictor_order, max_partition_order);
    let orders = partition_orders(
        residuals.len() + predictor_order,
        predictor_order,
        max_partition_order,
    );
    let methods = rice_methods(residuals);
    lemma_orders_are_valid(
        residuals.len() + predictor_order,
        predictor_order,
        max_partition_order,
    );
    assert(methods.len() == 1 || methods.len() == 2);
    assert(methods.len() == 1 ==> orders.len() * methods.len() == orders.len());
    assert(methods.len() == 2 ==> orders.len() * methods.len() == 2 * orders.len());
    if candidates.len() > 0 {
        law_cheapest_is_first_minimum(encoding_costs(candidates));
        let place = cheapest(encoding_costs(candidates));
        let order = orders[place / (methods.len() as int)];
        lemma_partitioned(
            residuals,
            predictor_order,
            order,
            methods[place % (methods.len() as int)],
        );
    }
}

/// Codes a residual in the cheapest of the ways that are tried. There is none for
/// a block that holds nothing but warm-up samples.
pub fn choose_residual_encoding(
    residuals: &[i32],
    predictor_order: u8,
    max_partition_order: u8,
) -> (encoding: Option<ResidualEncoding>)
    requires
        residuals@.len() + predictor_order <= MAX_BLOCK_SIZE,
    ensures
        encoding is Some <==> best_encoding(
            residuals@,
            predictor_order as nat,
            max_partition_order as nat,
        ) is Some,
        encoding matches Some(chosen) ==> Some(chosen@) == best_encoding(
            residuals@,
            predictor_order as nat,
            max_partition_order as nat,
        ),
{
    let block_size: usize = residuals.len() + predictor_order as usize;
    let orders = partition_order_candidates(block_size, predictor_order, max_partition_order);
    let methods = candidate_rice_methods(residuals);
    let ghost candidates = encoding_candidates(
        residuals@,
        predictor_order as nat,
        max_partition_order as nat,
    );
    let ghost costs = encoding_costs(candidates);
    let mut best: Option<(u64, ResidualEncoding)> = None;
    proof {
        lemma_orders_are_valid(
            block_size as nat,
            predictor_order as nat,
            max_partition_order as nat,
        );
    }
    let mut order_index: usize = 0;
    while order_index < orders.len()
        invariant
            order_index <= orders.len(),
            residuals@.len() + predictor_order <= MAX_BLOCK_SIZE,
            block_size == residuals@.len() + predictor_order,
            1 <= methods@.len() <= 2,
            orders@ == partition_orders(
                block_size as nat,
                predictor_order as nat,
                max_partition_order as nat,
            ),
            methods@ == rice_methods(residuals@),
            candidates == encoding_candidates(
                residuals@,
                predictor_order as nat,
                max_partition_order as nat,
            ),
            costs == encoding_costs(candidates),
            forall|i: int|
                0 <= i < orders@.len() ==> #[trigger] orders@[i] <= 8 && is_valid_partition_order(
                    block_size as nat,
                    predictor_order as nat,
                    orders@[i] as nat,
                ),
            best is None <==> order_index == 0,
            best matches Some((bits, chosen)) ==> {
                let taken = order_index * methods@.len();
                &&& 0 <= cheapest(costs.take(taken)) < costs.len()
                &&& bits == costs[cheapest(costs.take(taken))]
                &&& chosen@ == candidates[cheapest(costs.take(taken))]
            },
        decreases orders.len() - order_index,
    {
        let partition_order: u8 = orders[order_index];
        let mut method_index: usize = 0;
        assert((order_index + 1) * methods@.len() <= orders@.len() * methods@.len())
            by (nonlinear_arith)
            requires
                order_index + 1 <= orders@.len(),
        ;
        assert((order_index + 1) * methods@.len() == order_index * methods@.len() + methods@.len())
            by (nonlinear_arith);
        assert(order_index * methods@.len() >= 0) by (nonlinear_arith);
        while method_index < methods.len()
            invariant
                method_index <= methods.len(),
                order_index < orders.len(),
                partition_order == orders@[order_index as int],
                partition_order <= 8,
                is_valid_partition_order(
                    block_size as nat,
                    predictor_order as nat,
                    partition_order as nat,
                ),
                residuals@.len() + predictor_order <= MAX_BLOCK_SIZE,
                block_size == residuals@.len() + predictor_order,
                1 <= methods@.len() <= 2,
                orders@ == partition_orders(
                    block_size as nat,
                    predictor_order as nat,
                    max_partition_order as nat,
                ),
                methods@ == rice_methods(residuals@),
                candidates == encoding_candidates(
                    residuals@,
                    predictor_order as nat,
                    max_partition_order as nat,
                ),
                costs == encoding_costs(candidates),
                order_index * methods@.len() >= 0,
                order_index * methods@.len() + methods@.len() <= orders@.len() * methods@.len(),
                best is None <==> order_index * methods@.len() + method_index == 0,
                best matches Some((bits, chosen)) ==> {
                    let taken = order_index * methods@.len() + method_index;
                    &&& 0 <= cheapest(costs.take(taken)) < costs.len()
                    &&& bits == costs[cheapest(costs.take(taken))]
                    &&& chosen@ == candidates[cheapest(costs.take(taken))]
                },
            decreases methods.len() - method_index,
        {
            let method = methods[method_index];
            let encoding = encode_partitions(residuals, predictor_order, partition_order, method);
            proof {
                lemma_partitioned(residuals@, predictor_order as nat, partition_order, method);
                let taken = order_index * methods@.len() + method_index;
                let width = methods@.len() as int;
                assert(taken / width == order_index && taken % width == method_index) by {
                    vstd::arithmetic::div_mod::lemma_fundamental_div_mod_converse(
                        taken,
                        width,
                        order_index as int,
                        method_index as int,
                    );
                }
                assert(candidates[taken] == encoding@);
                lemma_cheapest_step(costs, taken);
            }
            let bit_len: u64 = encoding.bit_len();
            let shorter = match &best {
                Some((best_bits, _)) => bit_len < *best_bits,
                None => true,
            };
            if shorter {
                best = Some((bit_len, encoding));
            }
            method_index = method_index + 1;
        }
        order_index = order_index + 1;
    }
    proof {
        assert(costs.take((orders@.len() * methods@.len()) as int) == costs);
        lemma_best_encoding(residuals@, predictor_order as nat, max_partition_order as nat);
        assert(orders@.len() > 0 ==> candidates.len() > 0) by (nonlinear_arith)
            requires
                candidates.len() == orders@.len() * methods@.len(),
                methods@.len() >= 1,
        ;
    }
    match best {
        Some((_, encoding)) => Some(encoding),
        None => None,
    }
}

} // verus!
