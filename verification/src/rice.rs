//! Rice and escape coding of prediction residuals.

use vstd::arithmetic::power2::{lemma_pow2_pos, pow2};
use vstd::prelude::*;

use crate::bit_writer::{written_bits, FrameBitWriter, IoResult};
use crate::bits::{fits_signed, fits_unsigned, lemma_signed_bits_len, lemma_unsigned_bits_len, power_of_two, signed_bits, unary_bits, unsigned_bits};
use crate::error::{Error, ErrorView, IoErrorKind, Result};

verus! {

/// The width of the parameter field of each partition.
#[derive(Debug, Clone, Copy, PartialEq, Eq, Structural)]
pub enum RiceMethod {
    FourBit,
    FiveBit,
}

impl RiceMethod {
    pub open spec fn spec_parameter_bits(self) -> u32 {
        match self {
            RiceMethod::FourBit => 4,
            RiceMethod::FiveBit => 5,
        }
    }

    pub open spec fn spec_code(self) -> u8 {
        match self {
            RiceMethod::FourBit => 0,
            RiceMethod::FiveBit => 1,
        }
    }

    pub open spec fn spec_escape_code(self) -> u8 {
        match self {
            RiceMethod::FourBit => 15,
            RiceMethod::FiveBit => 31,
        }
    }

    pub open spec fn spec_max_parameter(self) -> u8 {
        match self {
            RiceMethod::FourBit => 14,
            RiceMethod::FiveBit => 30,
        }
    }

    /// Width in bits of a partition's parameter field.
    pub fn parameter_bits(self) -> (bits: u32)
        ensures
            bits == self.spec_parameter_bits(),
    {
        match self {
            RiceMethod::FourBit => 4,
            RiceMethod::FiveBit => 5,
        }
    }

    /// The code of the method in the residual header.
    pub fn code(self) -> (code: u8)
        ensures
            code == self.spec_code(),
    {
        match self {
            RiceMethod::FourBit => 0,
            RiceMethod::FiveBit => 1,
        }
    }

    /// The parameter value that marks an escaped partition.
    pub fn escape_code(self) -> (code: u8)
        ensures
            code == self.spec_escape_code(),
    {
        match self {
            RiceMethod::FourBit => 15,
            RiceMethod::FiveBit => 31,
        }
    }

    /// The largest Rice parameter that the field can carry.
    pub fn max_parameter(self) -> (parameter: u8)
        ensures
            parameter == self.spec_max_parameter(),
    {
        match self {
            RiceMethod::FourBit => 14,
            RiceMethod::FiveBit => 30,
        }
    }
}

/// One partition of a residual, with the way it is coded.
#[derive(Debug, Clone)]
pub enum ResidualPartition {
    Rice { parameter: u8, residuals: Vec<i32> },
    Escape { bits: u8, residuals: Vec<i32> },
}

/// A [`ResidualPartition`] over a mathematical sequence.
pub enum PartitionView {
    Rice { parameter: u8, residuals: Seq<i32> },
    Escape { bits: u8, residuals: Seq<i32> },
}

/// A coded residual: equally long partitions, all with one method.
#[derive(Debug, Clone)]
pub struct ResidualEncoding {
    pub method: RiceMethod,
    pub partition_order: u8,
    pub partitions: Vec<ResidualPartition>,
}

/// A [`ResidualEncoding`] over mathematical sequences.
pub struct EncodingView {
    pub method: RiceMethod,
    pub partition_order: u8,
    pub partitions: Seq<PartitionView>,
}

impl View for ResidualPartition {
    type V = PartitionView;

    open spec fn view(&self) -> PartitionView {
        match self {
            ResidualPartition::Rice { parameter, residuals } => PartitionView::Rice {
                parameter: *parameter,
                residuals: residuals@,
            },
            ResidualPartition::Escape { bits, residuals } => PartitionView::Escape {
                bits: *bits,
                residuals: residuals@,
            },
        }
    }
}

/// The views of a list of partitions.
pub open spec fn partition_views(partitions: Seq<ResidualPartition>) -> Seq<PartitionView> {
    partitions.map_values(|partition: ResidualPartition| partition@)
}

impl View for ResidualEncoding {
    type V = EncodingView;

    open spec fn view(&self) -> EncodingView {
        EncodingView {
            method: self.method,
            partition_order: self.partition_order,
            partitions: partition_views(self.partitions@),
        }
    }
}

/// The residuals of a partition.
pub open spec fn partition_residuals(partition: PartitionView) -> Seq<i32> {
    match partition {
        PartitionView::Rice { residuals, .. } => residuals,
        PartitionView::Escape { residuals, .. } => residuals,
    }
}

/// The residuals of a list of partitions, one partition after the other.
pub open spec fn joined_residuals(partitions: Seq<PartitionView>) -> Seq<i32>
    decreases partitions.len(),
{
    if partitions.len() == 0 {
        Seq::empty()
    } else {
        joined_residuals(partitions.drop_last()) + partition_residuals(partitions.last())
    }
}

/// Signed residuals folded onto the natural numbers: 0, -1, 1, -2, 2, ...
pub open spec fn folded(residual: int) -> nat {
    if residual >= 0 {
        (2 * residual) as nat
    } else {
        (-2 * residual - 1) as nat
    }
}

/// The residual that a folded value stands for.
pub open spec fn unfolded(value: nat) -> int {
    if value % 2 == 0 {
        value as int / 2
    } else {
        -(value as int + 1) / 2
    }
}

/// Folding loses nothing: a residual is read back from its folded value, and
/// every natural number is the folded value of one residual.
pub proof fn law_fold_is_invertible(residual: int, value: nat)
    ensures
        unfolded(folded(residual)) == residual,
        folded(unfolded(value)) == value,
{
}

/// The bits of one residual under a Rice parameter.
pub open spec fn rice_code(residual: int, parameter: nat) -> Seq<bool> {
    unary_bits(folded(residual) / pow2(parameter)) + unsigned_bits(
        (folded(residual) % pow2(parameter)) as int,
        parameter,
    )
}

/// The bits of a run of residuals under a Rice parameter.
pub open spec fn rice_bits(residuals: Seq<i32>, parameter: nat) -> Seq<bool>
    decreases residuals.len(),
{
    if residuals.len() == 0 {
        Seq::empty()
    } else {
        rice_bits(residuals.drop_last(), parameter) + rice_code(residuals.last() as int, parameter)
    }
}

/// The bits of a run of samples in two's complement of a fixed width.
pub open spec fn sample_bits(samples: Seq<i32>, width: nat) -> Seq<bool>
    decreases samples.len(),
{
    if samples.len() == 0 {
        Seq::empty()
    } else {
        sample_bits(samples.drop_last(), width) + signed_bits(samples.last() as int, width)
    }
}

/// All samples fit in two's complement of the width.
pub open spec fn all_fit(samples: Seq<i32>, width: nat) -> bool {
    forall|i: int| 0 <= i < samples.len() ==> fits_signed(#[trigger] samples[i] as int, width)
}

/// Bits taken by a run of residuals under a Rice parameter.
pub open spec fn rice_cost(residuals: Seq<i32>, parameter: nat) -> nat
    decreases residuals.len(),
{
    if residuals.len() == 0 {
        0
    } else {
        rice_cost(residuals.drop_last(), parameter) + folded(residuals.last() as int) / pow2(
            parameter,
        ) + 1 + parameter
    }
}

/// Bits taken by a partition.
pub open spec fn partition_cost(partition: PartitionView, method: RiceMethod) -> nat {
    match partition {
        PartitionView::Rice { parameter, residuals } => method.spec_parameter_bits() as nat
            + rice_cost(residuals, parameter as nat),
        PartitionView::Escape { bits, residuals } => method.spec_parameter_bits() as nat + 5
            + residuals.len() * (bits as nat),
    }
}

/// Bits taken by a list of partitions.
pub open spec fn partitions_cost(partitions: Seq<PartitionView>, method: RiceMethod) -> nat
    decreases partitions.len(),
{
    if partitions.len() == 0 {
        0
    } else {
        partitions_cost(partitions.drop_last(), method) + partition_cost(partitions.last(), method)
    }
}

/// Bits taken by a coded residual: its header and its partitions.
pub open spec fn encoding_cost(encoding: EncodingView) -> nat {
    2 + 4 + partitions_cost(encoding.partitions, encoding.method)
}

/// The bits of a partition.
pub open spec fn partition_bits(partition: PartitionView, method: RiceMethod) -> Seq<bool> {
    match partition {
        PartitionView::Rice { parameter, residuals } => unsigned_bits(
            parameter as int,
            method.spec_parameter_bits() as nat,
        ) + rice_bits(residuals, parameter as nat),
        PartitionView::Escape { bits, residuals } => unsigned_bits(
            method.spec_escape_code() as int,
            method.spec_parameter_bits() as nat,
        ) + unsigned_bits(bits as int, 5) + if bits == 0 {
            Seq::empty()
        } else {
            sample_bits(residuals, bits as nat)
        },
    }
}

/// The bits of a list of partitions.
pub open spec fn partitions_bits(partitions: Seq<PartitionView>, method: RiceMethod) -> Seq<bool>
    decreases partitions.len(),
{
    if partitions.len() == 0 {
        Seq::empty()
    } else {
        partitions_bits(partitions.drop_last(), method) + partition_bits(partitions.last(), method)
    }
}

/// The bits of a coded residual.
pub open spec fn encoding_bits(encoding: EncodingView) -> Seq<bool> {
    unsigned_bits(encoding.method.spec_code() as int, 2) + unsigned_bits(
        encoding.partition_order as int,
        4,
    ) + partitions_bits(encoding.partitions, encoding.method)
}

/// Every field of a partition fits where it is written.
pub open spec fn partition_is_writable(partition: PartitionView, method: RiceMethod) -> bool {
    match partition {
        PartitionView::Rice { parameter, .. } => fits_unsigned(
            parameter as int,
            method.spec_parameter_bits() as nat,
        ),
        PartitionView::Escape { bits, residuals } => fits_unsigned(bits as int, 5) && (bits > 0
            ==> all_fit(residuals, bits as nat)),
    }
}

/// Every field of a coded residual fits where it is written.
pub open spec fn encoding_is_writable(encoding: EncodingView) -> bool {
    &&& fits_unsigned(encoding.partition_order as int, 4)
    &&& forall|i: int|
        0 <= i < encoding.partitions.len() ==> partition_is_writable(
            #[trigger] encoding.partitions[i],
            encoding.method,
        )
}

proof fn lemma_quotient_is_natural(value: nat, parameter: nat)
    ensures
        value / pow2(parameter) >= 0,
        value % pow2(parameter) < pow2(parameter),
{
    lemma_pow2_pos(parameter);
    vstd::arithmetic::div_mod::lemma_div_pos_is_pos(value as int, pow2(parameter) as int);
    vstd::arithmetic::div_mod::lemma_mod_bound(value as int, pow2(parameter) as int);
}

proof fn lemma_rice_bits_len(residuals: Seq<i32>, parameter: nat)
    ensures
        rice_bits(residuals, parameter).len() == rice_cost(residuals, parameter),
    decreases residuals.len(),
{
    if residuals.len() > 0 {
        lemma_rice_bits_len(residuals.drop_last(), parameter);
        lemma_quotient_is_natural(folded(residuals.last() as int), parameter);
        lemma_unsigned_bits_len(
            (folded(residuals.last() as int) % pow2(parameter)) as int,
            parameter,
        );
    }
}

pub proof fn lemma_sample_bits_len(samples: Seq<i32>, width: nat)
    ensures
        sample_bits(samples, width).len() == samples.len() * width,
    decreases samples.len(),
{
    if samples.len() > 0 {
        lemma_sample_bits_len(samples.drop_last(), width);
        lemma_signed_bits_len(samples.last() as int, width);
        assert((samples.len() - 1) * width + width == samples.len() * width) by (nonlinear_arith);
    } else {
        assert(0 * width == 0);
    }
}

proof fn lemma_partition_bits_len(partition: PartitionView, method: RiceMethod)
    ensures
        partition_bits(partition, method).len() == partition_cost(partition, method),
{
    match partition {
        PartitionView::Rice { parameter, residuals } => {
            lemma_unsigned_bits_len(parameter as int, method.spec_parameter_bits() as nat);
            lemma_rice_bits_len(residuals, parameter as nat);
        },
        PartitionView::Escape { bits, residuals } => {
            lemma_unsigned_bits_len(
                method.spec_escape_code() as int,
                method.spec_parameter_bits() as nat,
            );
            lemma_unsigned_bits_len(bits as int, 5);
            lemma_sample_bits_len(residuals, bits as nat);
            assert(bits == 0 ==> residuals.len() * (bits as nat) == 0) by (nonlinear_arith);
        },
    }
}

proof fn lemma_partitions_bits_len(partitions: Seq<PartitionView>, method: RiceMethod)
    ensures
        partitions_bits(partitions, method).len() == partitions_cost(partitions, method),
    decreases partitions.len(),
{
    if partitions.len() > 0 {
        lemma_partitions_bits_len(partitions.drop_last(), method);
        lemma_partition_bits_len(partitions.last(), method);
    }
}

/// A coded residual takes exactly the number of bits that its cost says.
pub proof fn law_encoding_cost_is_bit_count(encoding: EncodingView)
    ensures
        encoding_bits(encoding).len() == encoding_cost(encoding),
{
    lemma_unsigned_bits_len(encoding.method.spec_code() as int, 2);
    lemma_unsigned_bits_len(encoding.partition_order as int, 4);
    lemma_partitions_bits_len(encoding.partitions, encoding.method);
}

/// The folded value of a residual.
pub fn fold_residual(residual: i32) -> (value: u64)
    ensures
        value == folded(residual as int),
        value <= u32::MAX,
{
    if residual >= 0 {
        residual as u64 * 2
    } else {
        (-(residual as i64)) as u64 * 2 - 1
    }
}

proof fn lemma_rice_cost_grows(residuals: Seq<i32>, parameter: nat, i: int)
    requires
        0 <= i <= residuals.len(),
    ensures
        rice_cost(residuals.take(i), parameter) <= rice_cost(residuals, parameter),
    decreases residuals.len(),
{
    if i < residuals.len() {
        lemma_rice_cost_grows(residuals.drop_last(), parameter, i);
        lemma_quotient_is_natural(folded(residuals.last() as int), parameter);
        assert(residuals.drop_last().take(i) == residuals.take(i));
    } else {
        assert(residuals.take(i) == residuals);
    }
}

/// Bits taken by a run of residuals under a Rice parameter.
pub fn rice_bit_len(residuals: &[i32], parameter: u8) -> (bits: u64)
    requires
        parameter < 64,
        rice_cost(residuals@, parameter as nat) <= u64::MAX,
    ensures
        bits == rice_cost(residuals@, parameter as nat),
{
    let divisor: u64 = power_of_two(parameter);
    let mut bits: u64 = 0;
    let mut index: usize = 0;
    while index < residuals.len()
        invariant
            index <= residuals.len(),
            parameter < 64,
            divisor == pow2(parameter as nat),
            divisor >= 1,
            rice_cost(residuals@, parameter as nat) <= u64::MAX,
            bits == rice_cost(residuals@.take(index as int), parameter as nat),
        decreases residuals.len() - index,
    {
        proof {
            let next = residuals@.take(index + 1);
            assert(next.drop_last() == residuals@.take(index as int));
            lemma_rice_cost_grows(residuals@, parameter as nat, index + 1);
        }
        bits = bits + fold_residual(residuals[index]) / divisor + 1 + parameter as u64;
        index = index + 1;
    }
    assert(residuals@.take(index as int) == residuals@);
    bits
}

impl ResidualPartition {
    /// Bits taken by this partition.
    pub fn bit_len(&self, method: RiceMethod) -> (bits: u64)
        requires
            partition_cost(self@, method) <= u64::MAX,
            self@ is Rice ==> self@->parameter < 64,
        ensures
            bits == partition_cost(self@, method),
    {
        match self {
            ResidualPartition::Rice { parameter, residuals } => {
                method.parameter_bits() as u64 + rice_bit_len(residuals.as_slice(), *parameter)
            },
            ResidualPartition::Escape { bits, residuals } => {
                method.parameter_bits() as u64 + 5 + residuals.len() as u64 * (*bits as u64)
            },
        }
    }
}

proof fn lemma_partitions_cost_grows(partitions: Seq<PartitionView>, method: RiceMethod, i: int)
    requires
        0 <= i <= partitions.len(),
    ensures
        partitions_cost(partitions.take(i), method) <= partitions_cost(partitions, method),
    decreases partitions.len(),
{
    if i < partitions.len() {
        lemma_partitions_cost_grows(partitions.drop_last(), method, i);
        assert(partitions.drop_last().take(i) == partitions.take(i));
    } else {
        assert(partitions.take(i) == partitions);
    }
}

impl ResidualEncoding {
    /// Bits taken by this coded residual.
    pub fn bit_len(&self) -> (bits: u64)
        requires
            encoding_cost(self@) <= u64::MAX,
            forall|i: int|
                #![trigger self@.partitions[i]]
                0 <= i < self@.partitions.len() ==> (self@.partitions[i] is Rice
                    ==> self@.partitions[i]->parameter < 64),
        ensures
            bits == encoding_cost(self@),
    {
        let mut bits: u64 = 2 + 4;
        let mut index: usize = 0;
        while index < self.partitions.len()
            invariant
                index <= self.partitions.len(),
                encoding_cost(self@) <= u64::MAX,
                forall|i: int|
                    #![trigger self@.partitions[i]]
                    0 <= i < self@.partitions.len() ==> (self@.partitions[i] is Rice
                        ==> self@.partitions[i]->parameter < 64),
                bits == 6 + partitions_cost(self@.partitions.take(index as int), self.method),
            decreases self.partitions.len() - index,
        {
            proof {
                let next = self@.partitions.take(index + 1);
                assert(next.drop_last() == self@.partitions.take(index as int));
                assert(next.last() == self@.partitions[index as int]);
                lemma_partitions_cost_grows(self@.partitions, self.method, index + 1);
            }
            bits = bits + self.partitions[index].bit_len(self.method);
            index = index + 1;
        }
        assert(self@.partitions.take(index as int) == self@.partitions);
        bits
    }
}

/// A failed bit write as an error of the library.
pub(crate) fn wrote(result: IoResult) -> (mapped: Result<()>)
    ensures
        result is Ok <==> mapped is Ok,
        mapped matches Err(error) ==> error@ == ErrorView::Io(IoErrorKind::InvalidInput),
{
    match result {
        Ok(()) => Ok(()),
        Err(_) => Err(Error::Io(IoErrorKind::InvalidInput)),
    }
}

/// Writes samples in two's complement of a fixed width.
pub(crate) fn write_samples(writer: &mut FrameBitWriter, samples: &[i32], width: u32) -> (result:
    Result<()>)
    ensures
        result is Ok <==> (samples@.len() == 0 || (width <= 32 && all_fit(samples@, width as nat))),
        result is Ok ==> written_bits(*final(writer)) == written_bits(*old(writer)) + sample_bits(
            samples@,
            width as nat,
        ),
        result matches Err(error) ==> error@ == ErrorView::Io(IoErrorKind::InvalidInput),
{
    let mut index: usize = 0;
    assert(written_bits(*writer) + sample_bits(samples@.take(0), width as nat) == written_bits(
        *writer,
    ));
    while index < samples.len()
        invariant
            index <= samples.len(),
            index > 0 ==> width <= 32,
            all_fit(samples@.take(index as int), width as nat),
            written_bits(*writer) == written_bits(*old(writer)) + sample_bits(
                samples@.take(index as int),
                width as nat,
            ),
        decreases samples.len() - index,
    {
        proof {
            let next = samples@.take(index + 1);
            assert(next.drop_last() == samples@.take(index as int));
            assert(next.last() == samples@[index as int]);
            assert(written_bits(*old(writer)) + (sample_bits(next.drop_last(), width as nat)
                + signed_bits(next.last() as int, width as nat)) == written_bits(*writer)
                + signed_bits(next.last() as int, width as nat));
            assert forall|i: int| 0 <= i < index implies fits_signed(
                #[trigger] next[i] as int,
                width as nat,
            ) by {
                assert(samples@.take(index as int)[i] == next[i]);
            }
        }
        match wrote(writer.write_signed(width, samples[index])) {
            Ok(()) => {},
            Err(error) => return Err(error),
        }
        index = index + 1;
    }
    assert(samples@.take(index as int) == samples@);
    Ok(())
}

/// Writes a run of residuals under a Rice parameter.
fn write_rice_residuals(writer: &mut FrameBitWriter, residuals: &[i32], parameter: u8) -> (result:
    Result<()>)
    requires
        parameter <= 31,
    ensures
        result is Ok,
        written_bits(*final(writer)) == written_bits(*old(writer)) + rice_bits(
            residuals@,
            parameter as nat,
        ),
{
    let divisor: u64 = power_of_two(parameter);
    let mut index: usize = 0;
    assert(written_bits(*writer) + rice_bits(residuals@.take(0), parameter as nat) == written_bits(
        *writer,
    ));
    while index < residuals.len()
        invariant
            index <= residuals.len(),
            parameter <= 31,
            divisor == pow2(parameter as nat),
            divisor >= 1,
            written_bits(*writer) == written_bits(*old(writer)) + rice_bits(
                residuals@.take(index as int),
                parameter as nat,
            ),
        decreases residuals.len() - index,
    {
        let folded_value: u64 = fold_residual(residuals[index]);
        let quotient: u64 = folded_value / divisor;
        let remainder: u64 = folded_value % divisor;
        proof {
            vstd::arithmetic::power2::lemma2_to64();
            lemma_pow2_monotone(parameter as nat, 31);
            vstd::arithmetic::div_mod::lemma_div_is_ordered_by_denominator(
                folded_value as int,
                1,
                divisor as int,
            );
            let next = residuals@.take(index + 1);
            assert(next.drop_last() == residuals@.take(index as int));
            assert(next.last() == residuals@[index as int]);
        }
        let ghost before = written_bits(*writer);
        match wrote(writer.write_unary(quotient as u32)) {
            Ok(()) => {},
            Err(error) => return Err(error),
        }
        if parameter > 0 {
            match wrote(writer.write_unsigned(parameter as u32, remainder as u32)) {
                Ok(()) => {},
                Err(error) => return Err(error),
            }
        }
        proof {
            let next = residuals@.take(index + 1);
            let code = rice_code(residuals@[index as int] as int, parameter as nat);
            assert(written_bits(*writer) == before + code);
            assert(written_bits(*old(writer)) + (rice_bits(next.drop_last(), parameter as nat)
                + code) == written_bits(*writer));
        }
        index = index + 1;
    }
    assert(residuals@.take(index as int) == residuals@);
    Ok(())
}

proof fn lemma_pow2_monotone(low: nat, high: nat)
    requires
        low <= high,
    ensures
        pow2(low) <= pow2(high),
{
    if low < high {
        vstd::arithmetic::power2::lemma_pow2_strictly_increases(low, high);
    }
}

/// Writes one partition of a coded residual.
fn write_partition(
    writer: &mut FrameBitWriter,
    partition: &ResidualPartition,
    method: RiceMethod,
) -> (result: Result<()>)
    ensures
        result is Ok <==> partition_is_writable(partition@, method),
        result is Ok ==> written_bits(*final(writer)) == written_bits(*old(writer))
            + partition_bits(partition@, method),
        result matches Err(error) ==> error@ == ErrorView::Io(IoErrorKind::InvalidInput),
{
    let ghost before = written_bits(*writer);
    proof {
        vstd::arithmetic::power2::lemma2_to64();
    }
    match partition {
        ResidualPartition::Rice { parameter, residuals } => {
            match wrote(writer.write_unsigned(method.parameter_bits(), *parameter as u32)) {
                Ok(()) => {},
                Err(error) => return Err(error),
            }
            let result = write_rice_residuals(writer, residuals.as_slice(), *parameter);
            assert(written_bits(*writer) == before + partition_bits(partition@, method));
            result
        },
        ResidualPartition::Escape { bits, residuals } => {
            match wrote(
                writer.write_unsigned(method.parameter_bits(), method.escape_code() as u32),
            ) {
                Ok(()) => {},
                Err(error) => return Err(error),
            }
            match wrote(writer.write_unsigned(5, *bits as u32)) {
                Ok(()) => {},
                Err(error) => return Err(error),
            }
            if *bits > 0 {
                match write_samples(writer, residuals.as_slice(), *bits as u32) {
                    Ok(()) => {},
                    Err(error) => return Err(error),
                }
            }
            assert(written_bits(*writer) == before + partition_bits(partition@, method));
            Ok(())
        },
    }
}

/// Writes a coded residual: method, partition order and partitions. It fails
/// exactly where some field does not fit.
pub(crate) fn write_residual(writer: &mut FrameBitWriter, encoding: &ResidualEncoding) -> (result:
    Result<()>)
    ensures
        result is Ok <==> encoding_is_writable(encoding@),
        result is Ok ==> written_bits(*final(writer)) == written_bits(*old(writer))
            + encoding_bits(encoding@),
        result matches Err(error) ==> error@ == ErrorView::Io(IoErrorKind::InvalidInput),
{
    let ghost before = written_bits(*writer);
    let ghost header = unsigned_bits(encoding.method.spec_code() as int, 2) + unsigned_bits(
        encoding.partition_order as int,
        4,
    );
    proof {
        vstd::arithmetic::power2::lemma2_to64();
    }
    match wrote(writer.write_unsigned(2, encoding.method.code() as u32)) {
        Ok(()) => {},
        Err(error) => return Err(error),
    }
    match wrote(writer.write_unsigned(4, encoding.partition_order as u32)) {
        Ok(()) => {},
        Err(error) => return Err(error),
    }
    let mut index: usize = 0;
    assert(written_bits(*writer) == before + header + partitions_bits(
        encoding@.partitions.take(0),
        encoding.method,
    ));
    while index < encoding.partitions.len()
        invariant
            index <= encoding.partitions.len(),
            fits_unsigned(encoding.partition_order as int, 4),
            forall|i: int|
                0 <= i < index ==> partition_is_writable(
                    #[trigger] encoding@.partitions[i],
                    encoding.method,
                ),
            written_bits(*writer) == before + header + partitions_bits(
                encoding@.partitions.take(index as int),
                encoding.method,
            ),
        decreases encoding.partitions.len() - index,
    {
        let ghost current = written_bits(*writer);
        assert(encoding@.partitions[index as int] == encoding.partitions[index as int]@);
        match write_partition(writer, &encoding.partitions[index], encoding.method) {
            Ok(()) => {},
            Err(error) => return Err(error),
        }
        proof {
            let next = encoding@.partitions.take(index + 1);
            assert(next.drop_last() == encoding@.partitions.take(index as int));
            let code = partition_bits(next.last(), encoding.method);
            assert(before + header + (partitions_bits(next.drop_last(), encoding.method) + code)
                == current + code);
        }
        index = index + 1;
    }
    assert(encoding@.partitions.take(index as int) == encoding@.partitions);
    assert(written_bits(*writer) == before + encoding_bits(encoding@));
    Ok(())
}

} // verus!
