//! Byte format of a complete trainer checkpoint.
//!
//! A checkpoint stores everything an interrupted training run needs to resume
//! bit for bit: the FP32 weights, both Adam moments of every parameter, the
//! bias-correction powers and step counter, the shuffle generator state with
//! its buffered normal, the completed epochs, and the trainer configuration.
//!
//! Layout: little-endian, `CB2VECCK` magic, a 144-byte header, then the
//! payload as raw `f32` bit patterns in a fixed order. A CRC-32 over
//! everything after the checksum field rejects corruption, and the header's
//! shape must agree with the payload length.
//!
//! | offset | field                                  |
//! |-------:|----------------------------------------|
//! |      0 | magic (8 bytes)                        |
//! |      8 | version `u16`, reserved `u16`          |
//! |     12 | header length `u32`                    |
//! |     16 | payload length in bytes `u64`          |
//! |     24 | CRC-32 of bytes `28..` `u32`           |
//! |     28 | reserved `u32`                         |
//! |     32 | token, group, dim, rank counts `u32`   |
//! |     48 | activation, pooling, loss codes `u32`  |
//! |     60 | batch size `u32`, shuffle flag `u32`   |
//! |     68 | reserved `u32`                         |
//! |     72 | seed `u64`                             |
//! |     80 | Adam learning rate, beta1, beta2, eps  |
//! |     96 | optimizer step `u64`, epochs `u64`     |
//! |    112 | beta1 power, beta2 power               |
//! |    120 | shuffle state `u64`                    |
//! |    128 | buffered-normal flag `u32`, value      |
//! |    136 | reserved `u64`                         |
//!
//! The payload holds, in order: embeddings, head, factors, bias, then the
//! first and second Adam moments of embeddings, head and factors, then the
//! two bias moments.

use vstd::prelude::*;

use vstd::bytes::{
    lemma_auto_spec_u16_to_from_le_bytes, lemma_auto_spec_u32_to_from_le_bytes,
    lemma_auto_spec_u64_to_from_le_bytes, spec_u16_from_le_bytes, spec_u16_to_le_bytes,
    spec_u32_from_le_bytes, spec_u32_to_le_bytes, spec_u64_from_le_bytes, spec_u64_to_le_bytes,
};

use crate::model::{
    f32_bits_are_finite, f32_bits_finite, f32_bits_in_unit_interval, f32_bits_positive_finite,
    shape_error, ModelError, ModelShape,
};
use crate::trainer::{Activation, Loss, Pooling, TrainingError};

verus! {

/// Magic bytes that open every checkpoint (`CB2VECCK`).
pub const CB2VEC_CHECKPOINT_MAGIC: [u8; 8] = [0x43u8, 0x42u8, 0x32u8, 0x56u8, 0x45u8, 0x43u8, 0x43u8, 0x4bu8];

/// Checkpoint format version this library reads and writes.
pub const CB2VEC_CHECKPOINT_VERSION: u16 = 1;

/// Length of the fixed checkpoint header.
pub const CB2VEC_CHECKPOINT_HEADER_LEN: usize = 144;

/// Error returned when writing or restoring a trainer checkpoint.
///
/// Shape and configuration failures carry the error that rejected them.
#[derive(Clone, Debug, PartialEq, Eq)]
#[non_exhaustive]
pub enum CheckpointError {
    Truncated { actual: usize, minimum: usize },
    InvalidMagic,
    UnsupportedVersion(u16),
    UnsupportedHeaderLength(u32),
    NonZeroReserved,
    ChecksumMismatch { stored: u32, computed: u32 },
    LengthMismatch { field: &'static str, actual: usize, expected: usize },
    InvalidShape(ModelError),
    InvalidConfig(TrainingError),
    NonFinite(&'static str),
    ValueOutOfRange(&'static str),
    UnsupportedActivation(u32),
    UnsupportedPooling(u32),
    UnsupportedLoss(u32),
}

// ---------------------------------------------------------------------------
// CRC-32 (IEEE 802.3, reflected polynomial 0xEDB88320)
// ---------------------------------------------------------------------------

/// One bit step of the reflected CRC-32 division.
pub open spec fn crc_round(v: u32) -> u32 {
    if v & 1u32 == 1u32 {
        0xEDB8_8320u32 ^ (v >> 1u32)
    } else {
        v >> 1u32
    }
}

/// Eight bit steps: the contribution of one byte.
pub open spec fn crc8(v: u32) -> u32 {
    crc_round(crc_round(crc_round(crc_round(crc_round(crc_round(crc_round(crc_round(v))))))))
}

/// CRC register after feeding `bytes`, starting from all ones.
pub open spec fn crc_state(bytes: Seq<u8>) -> u32
    decreases bytes.len(),
{
    if bytes.len() == 0 {
        0xFFFF_FFFFu32
    } else {
        crc8(crc_state(bytes.drop_last()) ^ (bytes.last() as u32))
    }
}

/// The CRC-32 checksum of `bytes`: the final register, inverted.
pub open spec fn crc32_spec(bytes: Seq<u8>) -> u32 {
    crc_state(bytes) ^ 0xFFFF_FFFFu32
}

fn crc_round_exec(v: u32) -> (r: u32)
    ensures
        r == crc_round(v),
{
    if v & 1 == 1 {
        0xEDB8_8320u32 ^ (v >> 1)
    } else {
        v >> 1
    }
}

/// The byte-indexed table of the table-driven CRC-32.
fn crc32_table() -> (table: Vec<u32>)
    ensures
        table@.len() == 256,
        forall|i: int| 0 <= i < 256 ==> #[trigger] table@[i] == crc8(i as u32),
{
    let mut table: Vec<u32> = Vec::new();
    let mut index: u32 = 0;
    while index < 256
        invariant
            index <= 256,
            table@.len() == index,
            forall|i: int| 0 <= i < index ==> #[trigger] table@[i] == crc8(i as u32),
        decreases 256 - index,
    {
        let mut value = index;
        value = crc_round_exec(value);
        value = crc_round_exec(value);
        value = crc_round_exec(value);
        value = crc_round_exec(value);
        value = crc_round_exec(value);
        value = crc_round_exec(value);
        value = crc_round_exec(value);
        value = crc_round_exec(value);
        table.push(value);
        index += 1;
    }
    table
}

/// Splitting a byte step: the low byte goes through the table, the rest
/// just shifts.
proof fn lemma_crc8_split(x: u32)
    ensures
        crc8(x) == crc8(x & 0xffu32) ^ (x >> 8u32),
        x & 0xffu32 < 256,
{
    assert(crc8(x) == crc8(x & 0xffu32) ^ (x >> 8u32)) by (bit_vector);
    assert(x & 0xffu32 < 256) by (bit_vector);
}

/// A bit step is linear over bitwise exclusive or.
proof fn lemma_crc_round_linear(x: u32, y: u32)
    ensures
        crc_round(x ^ y) == crc_round(x) ^ crc_round(y),
{
    assert(crc_round(x ^ y) == crc_round(x) ^ crc_round(y)) by (bit_vector);
}

/// A byte step is linear over bitwise exclusive or.
proof fn lemma_crc8_linear(x: u32, y: u32)
    ensures
        crc8(x ^ y) == crc8(x) ^ crc8(y),
{
    let x1 = crc_round(x);
    let y1 = crc_round(y);
    let x2 = crc_round(x1);
    let y2 = crc_round(y1);
    let x3 = crc_round(x2);
    let y3 = crc_round(y2);
    let x4 = crc_round(x3);
    let y4 = crc_round(y3);
    let x5 = crc_round(x4);
    let y5 = crc_round(y4);
    let x6 = crc_round(x5);
    let y6 = crc_round(y5);
    let x7 = crc_round(x6);
    let y7 = crc_round(y6);
    lemma_crc_round_linear(x, y);
    lemma_crc_round_linear(x1, y1);
    lemma_crc_round_linear(x2, y2);
    lemma_crc_round_linear(x3, y3);
    lemma_crc_round_linear(x4, y4);
    lemma_crc_round_linear(x5, y5);
    lemma_crc_round_linear(x6, y6);
    lemma_crc_round_linear(x7, y7);
}

/// A byte step maps only zero to zero.
proof fn lemma_crc8_nonzero(d: u32)
    requires
        d != 0,
    ensures
        crc8(d) != 0,
{
    assert(crc8(d) != 0) by (bit_vector)
        requires
            d != 0,
    ;
}

/// Registers of two inputs that differ in exactly one byte stay different
/// from that byte on.
proof fn lemma_crc_registers_differ(a: Seq<u8>, b: Seq<u8>, i: int, n: int)
    requires
        a.len() == b.len(),
        0 <= i < n <= a.len(),
        a[i] != b[i],
        forall|j: int| 0 <= j < a.len() && j != i ==> a[j] == b[j],
    ensures
        crc_state(a.subrange(0, n)) != crc_state(b.subrange(0, n)),
    decreases n,
{
    let sa = a.subrange(0, n);
    let sb = b.subrange(0, n);
    assert(sa.drop_last() =~= a.subrange(0, n - 1));
    assert(sb.drop_last() =~= b.subrange(0, n - 1));
    let pa = crc_state(a.subrange(0, n - 1));
    let pb = crc_state(b.subrange(0, n - 1));
    let xa = a[n - 1] as u32;
    let xb = b[n - 1] as u32;
    assert(crc_state(sa) == crc8(pa ^ xa));
    assert(crc_state(sb) == crc8(pb ^ xb));
    lemma_crc8_linear(pa ^ xa, pb ^ xb);
    if n - 1 == i {
        assert(a.subrange(0, i) =~= b.subrange(0, i));
        let ba = a[i];
        let bb = b[i];
        assert((pa ^ xa) ^ (pb ^ xb) != 0) by (bit_vector)
            requires
                pa == pb,
                xa == ba as u32,
                xb == bb as u32,
                ba != bb,
        ;
        lemma_crc8_nonzero((pa ^ xa) ^ (pb ^ xb));
    } else {
        lemma_crc_registers_differ(a, b, i, n - 1);
        assert((pa ^ xa) ^ (pb ^ xb) != 0) by (bit_vector)
            requires
                pa != pb,
                xa == xb,
        ;
        lemma_crc8_nonzero((pa ^ xa) ^ (pb ^ xb));
    }
    let ca = crc_state(sa);
    let cb = crc_state(sb);
    assert(ca != cb) by (bit_vector)
        requires
            ca ^ cb != 0,
    ;
}

/// CRC-32 detects every change confined to one byte: inputs of equal length
/// that differ in exactly one position have different checksums.
pub proof fn lemma_crc32_detects_byte_change(a: Seq<u8>, b: Seq<u8>, i: int)
    requires
        a.len() == b.len(),
        0 <= i < a.len(),
        a[i] != b[i],
        forall|j: int| 0 <= j < a.len() && j != i ==> a[j] == b[j],
    ensures
        crc32_spec(a) != crc32_spec(b),
{
    lemma_crc_registers_differ(a, b, i, a.len() as int);
    assert(a.subrange(0, a.len() as int) =~= a);
    assert(b.subrange(0, b.len() as int) =~= b);
    let ca = crc_state(a);
    let cb = crc_state(b);
    assert(ca ^ 0xFFFF_FFFFu32 != cb ^ 0xFFFF_FFFFu32) by (bit_vector)
        requires
            ca != cb,
    ;
}

/// CRC-32 (IEEE) of `bytes`.
pub fn crc32(bytes: &[u8]) -> (r: u32)
    ensures
        r == crc32_spec(bytes@),
{
    let table = crc32_table();
    let mut crc: u32 = 0xFFFF_FFFF;
    let mut i: usize = 0;
    while i < bytes.len()
        invariant
            0 <= i <= bytes@.len(),
            table@.len() == 256,
            forall|j: int| 0 <= j < 256 ==> #[trigger] table@[j] == crc8(j as u32),
            crc == crc_state(bytes@.subrange(0, i as int)),
        decreases bytes@.len() - i,
    {
        let byte = bytes[i];
        let mixed = crc ^ (byte as u32);
        proof {
            lemma_crc8_split(mixed);
            let next = bytes@.subrange(0, i as int + 1);
            assert(next.drop_last() =~= bytes@.subrange(0, i as int));
            assert(next.last() == byte);
        }
        assert(mixed >> 8u32 == crc >> 8u32) by (bit_vector)
            requires
                mixed == crc ^ (byte as u32),
        ;
        let index = (mixed & 0xff) as usize;
        crc = table[index] ^ (crc >> 8);
        i += 1;
    }
    proof {
        assert(bytes@.subrange(0, bytes@.len() as int) =~= bytes@);
    }
    crc ^ 0xFFFF_FFFF
}


// ---------------------------------------------------------------------------
// Enumeration codes and scalar conversions
// ---------------------------------------------------------------------------

/// Stored code of an activation.
pub open spec fn activation_code(activation: Activation) -> u32 {
    match activation {
        Activation::Identity => 0,
        Activation::Relu => 1,
    }
}

/// Stored code of a pooling.
pub open spec fn pooling_code(pooling: Pooling) -> u32 {
    match pooling {
        Pooling::Sum => 0,
        Pooling::Mean => 1,
    }
}

/// Stored code of a loss.
pub open spec fn loss_code(loss: Loss) -> u32 {
    match loss {
        Loss::BinaryCrossEntropyWithLogits => 0,
        Loss::MeanSquaredError => 1,
    }
}

fn activation_to_u32(activation: Activation) -> (r: u32)
    ensures
        r == activation_code(activation),
{
    match activation {
        Activation::Identity => 0,
        Activation::Relu => 1,
    }
}

fn activation_from_u32(value: u32) -> (r: Result<Activation, CheckpointError>)
    ensures
        value == 0 ==> r == Ok::<Activation, CheckpointError>(Activation::Identity),
        value == 1 ==> r == Ok::<Activation, CheckpointError>(Activation::Relu),
        value > 1 ==> r == Err::<Activation, CheckpointError>(CheckpointError::UnsupportedActivation(value)),
{
    match value {
        0 => Ok(Activation::Identity),
        1 => Ok(Activation::Relu),
        _ => Err(CheckpointError::UnsupportedActivation(value)),
    }
}

fn pooling_to_u32(pooling: Pooling) -> (r: u32)
    ensures
        r == pooling_code(pooling),
{
    match pooling {
        Pooling::Sum => 0,
        Pooling::Mean => 1,
    }
}

fn pooling_from_u32(value: u32) -> (r: Result<Pooling, CheckpointError>)
    ensures
        value == 0 ==> r == Ok::<Pooling, CheckpointError>(Pooling::Sum),
        value == 1 ==> r == Ok::<Pooling, CheckpointError>(Pooling::Mean),
        value > 1 ==> r == Err::<Pooling, CheckpointError>(CheckpointError::UnsupportedPooling(value)),
{
    match value {
        0 => Ok(Pooling::Sum),
        1 => Ok(Pooling::Mean),
        _ => Err(CheckpointError::UnsupportedPooling(value)),
    }
}

fn loss_to_u32(loss: Loss) -> (r: u32)
    ensures
        r == loss_code(loss),
{
    match loss {
        Loss::BinaryCrossEntropyWithLogits => 0,
        Loss::MeanSquaredError => 1,
    }
}

fn loss_from_u32(value: u32) -> (r: Result<Loss, CheckpointError>)
    ensures
        value == 0 ==> r == Ok::<Loss, CheckpointError>(Loss::BinaryCrossEntropyWithLogits),
        value == 1 ==> r == Ok::<Loss, CheckpointError>(Loss::MeanSquaredError),
        value > 1 ==> r == Err::<Loss, CheckpointError>(CheckpointError::UnsupportedLoss(value)),
{
    match value {
        0 => Ok(Loss::BinaryCrossEntropyWithLogits),
        1 => Ok(Loss::MeanSquaredError),
        _ => Err(CheckpointError::UnsupportedLoss(value)),
    }
}

/// Narrows a count to the `u32` field that stores it.
fn u32_value(value: usize, field: &'static str) -> (r: Result<u32, CheckpointError>)
    ensures
        value <= u32::MAX ==> r == Ok::<u32, CheckpointError>(value as u32),
        value > u32::MAX ==> r == Err::<u32, CheckpointError>(CheckpointError::ValueOutOfRange(field)),
{
    if value <= 0xFFFF_FFFFusize {
        Ok(value as u32)
    } else {
        Err(CheckpointError::ValueOutOfRange(field))
    }
}

// ---------------------------------------------------------------------------
// Payload size
// ---------------------------------------------------------------------------

/// Number of `f32` values in the payload of a model with these dimensions:
/// three copies (value, first moment, second moment) of every embedding,
/// head and factor value, and three bias scalars.
pub open spec fn scalar_count(token_count: int, group_count: int, dim: int, fm_rank: int) -> int {
    3 + 3 * (token_count * dim) + 3 * (group_count * dim) + 3 * (group_count * dim * fm_rank)
}

/// [`scalar_count`] of a shape.
pub open spec fn shape_scalar_count(shape: ModelShape) -> int {
    scalar_count(
        shape.spec_token_count() as int,
        shape.spec_group_count() as int,
        shape.spec_dim() as int,
        shape.spec_fm_rank() as int,
    )
}

/// `total + 3 * len`, or `None` when it leaves `usize`.
fn add_three_copies(total: usize, len: usize) -> (r: Option<usize>)
    ensures
        total + 3 * len <= usize::MAX ==> r == Some((total + 3 * len) as usize),
        total + 3 * len > usize::MAX ==> r is None,
{
    match len.checked_mul(3) {
        Some(scaled) => total.checked_add(scaled),
        None => None,
    }
}

/// `f32` values in a checkpoint payload: weights, then Adam moments.
fn payload_scalars(shape: ModelShape) -> (r: Result<usize, CheckpointError>)
    ensures
        shape_scalar_count(shape) <= usize::MAX ==> r == Ok::<usize, CheckpointError>(
            shape_scalar_count(shape) as usize,
        ),
        shape_scalar_count(shape) > usize::MAX ==> r == Err::<usize, CheckpointError>(
            CheckpointError::ValueOutOfRange("payload length"),
        ),
{
    let embedding_len = match shape.embedding_len() {
        Ok(n) => n,
        Err(e) => return Err(CheckpointError::InvalidShape(e)),
    };
    let feature_len = match shape.feature_len() {
        Ok(n) => n,
        Err(e) => return Err(CheckpointError::InvalidShape(e)),
    };
    let factor_len = match shape.factor_len() {
        Ok(n) => n,
        Err(e) => return Err(CheckpointError::InvalidShape(e)),
    };
    // Three copies of every parameter (value, first moment, second moment),
    // and three scalars for the bias; any overflow rejects the shape.
    let with_embeddings = match add_three_copies(3, embedding_len) {
        Some(n) => n,
        None => return Err(CheckpointError::ValueOutOfRange("payload length")),
    };
    let with_head = match add_three_copies(with_embeddings, feature_len) {
        Some(n) => n,
        None => return Err(CheckpointError::ValueOutOfRange("payload length")),
    };
    match add_three_copies(with_head, factor_len) {
        Some(n) => Ok(n),
        None => Err(CheckpointError::ValueOutOfRange("payload length")),
    }
}

/// Serializes and restores complete trainer state.
///
/// This type is a namespace for checkpoint sizing.
#[derive(Clone, Copy, Debug, Default, PartialEq, Eq)]
pub struct TrainerCheckpoint;

/// Total checkpoint length for a model with these dimensions.
pub open spec fn checkpoint_len(token_count: int, group_count: int, dim: int, fm_rank: int) -> int {
    144 + 4 * scalar_count(token_count, group_count, dim, fm_rank)
}

impl TrainerCheckpoint {
    /// Exact byte length a checkpoint for `shape` will occupy.
    pub fn byte_len(shape: ModelShape) -> (r: Result<usize, CheckpointError>)
        ensures
            ({
                let total = checkpoint_len(
                    shape.spec_token_count() as int,
                    shape.spec_group_count() as int,
                    shape.spec_dim() as int,
                    shape.spec_fm_rank() as int,
                );
                &&& total <= usize::MAX ==> r == Ok::<usize, CheckpointError>(total as usize)
                &&& total > usize::MAX ==> r == Err::<usize, CheckpointError>(
                    CheckpointError::ValueOutOfRange("payload length"),
                )
            }),
    {
        let scalars = match payload_scalars(shape) {
            Ok(n) => n,
            Err(e) => return Err(e),
        };
        match scalars.checked_mul(4) {
            Some(bytes) => match bytes.checked_add(CB2VEC_CHECKPOINT_HEADER_LEN) {
                Some(total) => Ok(total),
                None => Err(CheckpointError::ValueOutOfRange("payload length")),
            },
            None => Err(CheckpointError::ValueOutOfRange("payload length")),
        }
    }
}


// ---------------------------------------------------------------------------
// Little-endian fields
// ---------------------------------------------------------------------------

/// The `u16` stored little-endian at `b[o .. o + 2]`.
pub open spec fn rd16(b: Seq<u8>, o: int) -> u16 {
    spec_u16_from_le_bytes(b.subrange(o, o + 2))
}

/// The `u32` stored little-endian at `b[o .. o + 4]`.
pub open spec fn rd32(b: Seq<u8>, o: int) -> u32 {
    spec_u32_from_le_bytes(b.subrange(o, o + 4))
}

/// The `u64` stored little-endian at `b[o .. o + 8]`.
pub open spec fn rd64(b: Seq<u8>, o: int) -> u64 {
    spec_u64_from_le_bytes(b.subrange(o, o + 8))
}

/// The checkpoint magic as a byte sequence.
pub open spec fn magic_seq() -> Seq<u8> {
    seq![0x43u8, 0x42u8, 0x32u8, 0x56u8, 0x45u8, 0x43u8, 0x43u8, 0x4bu8]
}

/// Appending leaves every range of the old bytes as it was.
pub open spec fn keeps_prefix(before: Seq<u8>, after: Seq<u8>) -> bool {
    forall|lo: int, hi: int|
        0 <= lo <= hi <= before.len() ==> #[trigger] after.subrange(lo, hi) == before.subrange(lo, hi)
}

fn push_le16(bytes: &mut Vec<u8>, value: u16)
    ensures
        final(bytes)@.len() == old(bytes)@.len() + 2,
        rd16(final(bytes)@, old(bytes)@.len() as int) == value,
        keeps_prefix(old(bytes)@, final(bytes)@),
{
    let mut le = vstd::bytes::u16_to_le_bytes(value);
    let ghost before = bytes@;
    bytes.append(&mut le);
    proof {
        lemma_auto_spec_u16_to_from_le_bytes();
        assert(bytes@.subrange(before.len() as int, before.len() + 2int) =~= spec_u16_to_le_bytes(value));
        assert forall|lo: int, hi: int| 0 <= lo <= hi <= before.len() implies #[trigger] bytes@.subrange(
            lo,
            hi,
        ) == before.subrange(lo, hi) by {
            assert(bytes@.subrange(lo, hi) =~= before.subrange(lo, hi));
        }
    }
}

fn push_le32(bytes: &mut Vec<u8>, value: u32)
    ensures
        final(bytes)@.len() == old(bytes)@.len() + 4,
        rd32(final(bytes)@, old(bytes)@.len() as int) == value,
        keeps_prefix(old(bytes)@, final(bytes)@),
{
    let mut le = vstd::bytes::u32_to_le_bytes(value);
    let ghost before = bytes@;
    bytes.append(&mut le);
    proof {
        lemma_auto_spec_u32_to_from_le_bytes();
        assert(bytes@.subrange(before.len() as int, before.len() + 4int) =~= spec_u32_to_le_bytes(value));
        assert forall|lo: int, hi: int| 0 <= lo <= hi <= before.len() implies #[trigger] bytes@.subrange(
            lo,
            hi,
        ) == before.subrange(lo, hi) by {
            assert(bytes@.subrange(lo, hi) =~= before.subrange(lo, hi));
        }
    }
}

fn push_le64(bytes: &mut Vec<u8>, value: u64)
    ensures
        final(bytes)@.len() == old(bytes)@.len() + 8,
        rd64(final(bytes)@, old(bytes)@.len() as int) == value,
        keeps_prefix(old(bytes)@, final(bytes)@),
{
    let mut le = vstd::bytes::u64_to_le_bytes(value);
    let ghost before = bytes@;
    bytes.append(&mut le);
    proof {
        lemma_auto_spec_u64_to_from_le_bytes();
        assert(bytes@.subrange(before.len() as int, before.len() + 8int) =~= spec_u64_to_le_bytes(value));
        assert forall|lo: int, hi: int| 0 <= lo <= hi <= before.len() implies #[trigger] bytes@.subrange(
            lo,
            hi,
        ) == before.subrange(lo, hi) by {
            assert(bytes@.subrange(lo, hi) =~= before.subrange(lo, hi));
        }
    }
}

fn read_u16(bytes: &[u8], offset: usize) -> (r: u16)
    requires
        offset + 2 <= bytes@.len(),
    ensures
        r == rd16(bytes@, offset as int),
{
    let _len = bytes.len();
    vstd::bytes::u16_from_le_bytes(vstd::slice::slice_subrange(bytes, offset, offset + 2))
}

fn read_u32(bytes: &[u8], offset: usize) -> (r: u32)
    requires
        offset + 4 <= bytes@.len(),
    ensures
        r == rd32(bytes@, offset as int),
{
    let _len = bytes.len();
    vstd::bytes::u32_from_le_bytes(vstd::slice::slice_subrange(bytes, offset, offset + 4))
}

fn read_u64(bytes: &[u8], offset: usize) -> (r: u64)
    requires
        offset + 8 <= bytes@.len(),
    ensures
        r == rd64(bytes@, offset as int),
{
    let _len = bytes.len();
    vstd::bytes::u64_from_le_bytes(vstd::slice::slice_subrange(bytes, offset, offset + 8))
}


// ---------------------------------------------------------------------------
// Checkpoint contents
// ---------------------------------------------------------------------------

/// Everything a trainer checkpoint stores.
///
/// Floating-point values are carried as their IEEE-754 bit patterns. The
/// payload holds, in order, the embeddings, head, factors and bias, the first
/// and second Adam moments of the embeddings, of the head and of the factors,
/// and the two bias moments.
#[derive(Clone, Debug, PartialEq, Eq)]
pub struct TrainerCheckpointState {
    pub shape: ModelShape,
    pub activation: Activation,
    pub pooling: Pooling,
    pub loss: Loss,
    pub batch_size: usize,
    pub shuffle: bool,
    pub seed: u64,
    pub learning_rate_bits: u32,
    pub beta1_bits: u32,
    pub beta2_bits: u32,
    pub epsilon_bits: u32,
    pub optimizer_step: u64,
    pub completed_epochs: u64,
    pub beta1_power_bits: u32,
    pub beta2_power_bits: u32,
    pub rng_state: u64,
    pub spare_normal_bits: Option<u32>,
    pub payload: Vec<u32>,
}

/// Mathematical contents of a [`TrainerCheckpointState`].
pub struct CheckpointView {
    pub token_count: nat,
    pub group_count: nat,
    pub dim: nat,
    pub fm_rank: nat,
    pub activation: Activation,
    pub pooling: Pooling,
    pub loss: Loss,
    pub batch_size: nat,
    pub shuffle: bool,
    pub seed: u64,
    pub learning_rate_bits: u32,
    pub beta1_bits: u32,
    pub beta2_bits: u32,
    pub epsilon_bits: u32,
    pub optimizer_step: u64,
    pub completed_epochs: u64,
    pub beta1_power_bits: u32,
    pub beta2_power_bits: u32,
    pub rng_state: u64,
    pub spare_normal_bits: Option<u32>,
    pub payload: Seq<u32>,
}

impl View for TrainerCheckpointState {
    type V = CheckpointView;

    open spec fn view(&self) -> CheckpointView {
        CheckpointView {
            token_count: self.shape.spec_token_count(),
            group_count: self.shape.spec_group_count(),
            dim: self.shape.spec_dim(),
            fm_rank: self.shape.spec_fm_rank(),
            activation: self.activation,
            pooling: self.pooling,
            loss: self.loss,
            batch_size: self.batch_size as nat,
            shuffle: self.shuffle,
            seed: self.seed,
            learning_rate_bits: self.learning_rate_bits,
            beta1_bits: self.beta1_bits,
            beta2_bits: self.beta2_bits,
            epsilon_bits: self.epsilon_bits,
            optimizer_step: self.optimizer_step,
            completed_epochs: self.completed_epochs,
            beta1_power_bits: self.beta1_power_bits,
            beta2_power_bits: self.beta2_power_bits,
            rng_state: self.rng_state,
            spare_normal_bits: self.spare_normal_bits,
            payload: self.payload@,
        }
    }
}

impl CheckpointView {
    /// Number of payload scalars the dimensions call for.
    pub open spec fn expected_scalars(self) -> int {
        scalar_count(self.token_count as int, self.group_count as int, self.dim as int, self.fm_rank as int)
    }
}

/// The error writing a checkpoint reports, if any, in the order the checks
/// run: payload size, non-finite weights, then every count that is stored as
/// a `u32`.
pub open spec fn encode_error(v: CheckpointView) -> Option<CheckpointError> {
    let count = v.expected_scalars();
    if count > usize::MAX {
        Some(CheckpointError::ValueOutOfRange("payload length"))
    } else if v.payload.len() != count {
        Some(
            CheckpointError::LengthMismatch {
                field: "payload",
                actual: v.payload.len() as usize,
                expected: count as usize,
            },
        )
    } else if v.weights_error() is Some {
        Some(CheckpointError::InvalidShape(v.weights_error()->0))
    } else if 144 + 4 * count > usize::MAX {
        Some(CheckpointError::ValueOutOfRange("payload length"))
    } else if v.token_count > u32::MAX {
        Some(CheckpointError::ValueOutOfRange("token_count"))
    } else if v.group_count > u32::MAX {
        Some(CheckpointError::ValueOutOfRange("group_count"))
    } else if v.dim > u32::MAX {
        Some(CheckpointError::ValueOutOfRange("dim"))
    } else if v.fm_rank > u32::MAX {
        Some(CheckpointError::ValueOutOfRange("fm_rank"))
    } else if v.batch_size > u32::MAX {
        Some(CheckpointError::ValueOutOfRange("batch_size"))
    } else {
        None
    }
}

/// Header fields of `b` (bytes `0 .. 144`) describe `v`, apart from the
/// checksum field.
pub open spec fn header_describes(v: CheckpointView, b: Seq<u8>) -> bool {
    &&& b.subrange(0, 8) == magic_seq()
    &&& rd16(b, 8) == 1
    &&& rd16(b, 10) == 0
    &&& rd32(b, 12) == 144
    &&& rd64(b, 16) == 4 * v.payload.len()
    &&& rd32(b, 28) == 0
    &&& rd32(b, 32) == v.token_count
    &&& rd32(b, 36) == v.group_count
    &&& rd32(b, 40) == v.dim
    &&& rd32(b, 44) == v.fm_rank
    &&& rd32(b, 48) == activation_code(v.activation)
    &&& rd32(b, 52) == pooling_code(v.pooling)
    &&& rd32(b, 56) == loss_code(v.loss)
    &&& rd32(b, 60) == v.batch_size
    &&& rd32(b, 64) == (if v.shuffle {
        1u32
    } else {
        0u32
    })
    &&& rd32(b, 68) == 0
    &&& rd64(b, 72) == v.seed
    &&& rd32(b, 80) == v.learning_rate_bits
    &&& rd32(b, 84) == v.beta1_bits
    &&& rd32(b, 88) == v.beta2_bits
    &&& rd32(b, 92) == v.epsilon_bits
    &&& rd64(b, 96) == v.optimizer_step
    &&& rd64(b, 104) == v.completed_epochs
    &&& rd32(b, 112) == v.beta1_power_bits
    &&& rd32(b, 116) == v.beta2_power_bits
    &&& rd64(b, 120) == v.rng_state
    &&& rd32(b, 128) == (if v.spare_normal_bits is Some {
        1u32
    } else {
        0u32
    })
    &&& rd32(b, 132) == (match v.spare_normal_bits {
        Some(bits) => bits,
        None => 0u32,
    })
    &&& rd64(b, 136) == 0
}

/// `b` is the checkpoint of `v`: its header describes `v`, the payload words
/// follow the header, and the checksum covers everything after its field.
pub open spec fn checkpoint_encodes(v: CheckpointView, b: Seq<u8>) -> bool {
    &&& b.len() == 144 + 4 * v.payload.len()
    &&& header_describes(v, b)
    &&& rd32(b, 24) == crc32_spec(b.subrange(28, b.len() as int))
    &&& forall|i: int| 0 <= i < v.payload.len() ==> #[trigger] rd32(b, 144 + 4 * i) == v.payload[i]
}

/// Writes the 144-byte header, with a zero checksum.
fn checkpoint_header(state: &TrainerCheckpointState, payload_len: u64, token_count: u32, group_count: u32, dim: u32, fm_rank: u32, batch_size: u32) -> (bytes: Vec<u8>)
    requires
        payload_len == 4 * state.payload@.len(),
        token_count == state.shape.spec_token_count(),
        group_count == state.shape.spec_group_count(),
        dim == state.shape.spec_dim(),
        fm_rank == state.shape.spec_fm_rank(),
        batch_size == state.batch_size,
    ensures
        bytes@.len() == 144,
        header_describes(state@, bytes@),
        rd32(bytes@, 24) == 0,
{
    let mut bytes: Vec<u8> = Vec::new();
    bytes.push(0x43);
    bytes.push(0x42);
    bytes.push(0x32);
    bytes.push(0x56);
    bytes.push(0x45);
    bytes.push(0x43);
    bytes.push(0x43);
    bytes.push(0x4b);
    let ghost magic = bytes@;
    assert(magic =~= magic_seq());
    push_le16(&mut bytes, CB2VEC_CHECKPOINT_VERSION);
    push_le16(&mut bytes, 0);
    push_le32(&mut bytes, 144);
    push_le64(&mut bytes, payload_len);
    // The checksum is filled in once the payload exists.
    push_le32(&mut bytes, 0);
    push_le32(&mut bytes, 0);
    push_le32(&mut bytes, token_count);
    push_le32(&mut bytes, group_count);
    push_le32(&mut bytes, dim);
    push_le32(&mut bytes, fm_rank);
    push_le32(&mut bytes, activation_to_u32(state.activation));
    push_le32(&mut bytes, pooling_to_u32(state.pooling));
    push_le32(&mut bytes, loss_to_u32(state.loss));
    push_le32(&mut bytes, batch_size);
    push_le32(&mut bytes, if state.shuffle { 1 } else { 0 });
    push_le32(&mut bytes, 0);
    push_le64(&mut bytes, state.seed);
    push_le32(&mut bytes, state.learning_rate_bits);
    push_le32(&mut bytes, state.beta1_bits);
    push_le32(&mut bytes, state.beta2_bits);
    push_le32(&mut bytes, state.epsilon_bits);
    push_le64(&mut bytes, state.optimizer_step);
    push_le64(&mut bytes, state.completed_epochs);
    push_le32(&mut bytes, state.beta1_power_bits);
    push_le32(&mut bytes, state.beta2_power_bits);
    push_le64(&mut bytes, state.rng_state);
    match state.spare_normal_bits {
        Some(bits) => {
            push_le32(&mut bytes, 1);
            push_le32(&mut bytes, bits);
        },
        None => {
            push_le32(&mut bytes, 0);
            push_le32(&mut bytes, 0);
        },
    }
    push_le64(&mut bytes, 0);
    proof {
        assert(bytes@.subrange(0, 8) == magic);
    }
    bytes
}


/// Appends every word of `payload` little-endian.
fn append_payload(bytes: &mut Vec<u8>, payload: &Vec<u32>)
    ensures
        final(bytes)@.len() == old(bytes)@.len() + 4 * payload@.len(),
        keeps_prefix(old(bytes)@, final(bytes)@),
        forall|i: int|
            0 <= i < payload@.len() ==> #[trigger] rd32(final(bytes)@, old(bytes)@.len() + 4 * i)
                == payload@[i],
{
    let ghost start = bytes@;
    let mut i: usize = 0;
    while i < payload.len()
        invariant
            0 <= i <= payload@.len(),
            bytes@.len() == start.len() + 4 * i,
            keeps_prefix(start, bytes@),
            forall|j: int| 0 <= j < i ==> #[trigger] rd32(bytes@, start.len() + 4 * j) == payload@[j],
        decreases payload@.len() - i,
    {
        let ghost before = bytes@;
        push_le32(bytes, payload[i]);
        proof {
            assert forall|j: int| 0 <= j < i + 1 implies #[trigger] rd32(bytes@, start.len() + 4 * j)
                == payload@[j] by {
                if j < i {
                    assert(rd32(before, start.len() + 4 * j) == payload@[j]);
                }
            }
        }
        i += 1;
    }
}

/// Overwrites `bytes[offset .. offset + 4]` with `value`, little-endian.
fn overwrite_le32(bytes: &mut Vec<u8>, offset: usize, value: u32)
    requires
        offset + 4 <= old(bytes)@.len(),
    ensures
        final(bytes)@.len() == old(bytes)@.len(),
        rd32(final(bytes)@, offset as int) == value,
        forall|lo: int, hi: int|
            0 <= lo <= hi <= old(bytes)@.len() && (hi <= offset || lo >= offset + 4)
                ==> #[trigger] final(bytes)@.subrange(lo, hi) == old(bytes)@.subrange(lo, hi),
{
    let _len = bytes.len();
    let le = vstd::bytes::u32_to_le_bytes(value);
    let ghost before = bytes@;
    bytes.set(offset, le[0]);
    bytes.set(offset + 1, le[1]);
    bytes.set(offset + 2, le[2]);
    bytes.set(offset + 3, le[3]);
    proof {
        lemma_auto_spec_u32_to_from_le_bytes();
        assert(bytes@.subrange(offset as int, offset + 4int) =~= spec_u32_to_le_bytes(value));
        assert forall|lo: int, hi: int|
            0 <= lo <= hi <= before.len() && (hi <= offset || lo >= offset + 4) implies #[trigger] bytes@.subrange(
            lo,
            hi,
        ) == before.subrange(lo, hi) by {
            assert(bytes@.subrange(lo, hi) =~= before.subrange(lo, hi));
        }
    }
}

impl TrainerCheckpointState {
    /// Serializes the complete trainer state.
    pub fn write_checkpoint(&self) -> (r: Result<Vec<u8>, CheckpointError>)
        ensures
            encode_error(self@) matches Some(e) ==> r == Err::<Vec<u8>, CheckpointError>(e),
            encode_error(self@) is None ==> (r matches Ok(b) && checkpoint_encodes(self@, b@)),
    {
        let scalars = match payload_scalars(self.shape) {
            Ok(n) => n,
            Err(e) => return Err(e),
        };
        if self.payload.len() != scalars {
            return Err(
                CheckpointError::LengthMismatch {
                    field: "payload",
                    actual: self.payload.len(),
                    expected: scalars,
                },
            );
        }
        match self.check_weights_finite() {
            Ok(()) => {},
            Err(e) => return Err(e),
        }
        let total = match TrainerCheckpoint::byte_len(self.shape) {
            Ok(n) => n,
            Err(e) => return Err(e),
        };
        let token_count = match u32_value(self.shape.token_count(), "token_count") {
            Ok(v) => v,
            Err(e) => return Err(e),
        };
        let group_count = match u32_value(self.shape.group_count(), "group_count") {
            Ok(v) => v,
            Err(e) => return Err(e),
        };
        let dim = match u32_value(self.shape.dim(), "dim") {
            Ok(v) => v,
            Err(e) => return Err(e),
        };
        let fm_rank = match u32_value(self.shape.fm_rank(), "fm_rank") {
            Ok(v) => v,
            Err(e) => return Err(e),
        };
        let batch_size = match u32_value(self.batch_size, "batch_size") {
            Ok(v) => v,
            Err(e) => return Err(e),
        };
        let payload_len = (total - CB2VEC_CHECKPOINT_HEADER_LEN) as u64;
        let mut bytes = checkpoint_header(self, payload_len, token_count, group_count, dim, fm_rank, batch_size);
        let ghost header = bytes@;
        append_payload(&mut bytes, &self.payload);
        let ghost unsummed = bytes@;
        let len = bytes.len();
        let checksum = crc32(vstd::slice::slice_subrange(bytes.as_slice(), 28, len));
        overwrite_le32(&mut bytes, 24, checksum);
        proof {
            let b = bytes@;
            assert(b.subrange(28, b.len() as int) == unsummed.subrange(28, b.len() as int));
            assert forall|lo: int, hi: int| 0 <= lo <= hi <= 144 && (hi <= 24 || lo >= 28) implies #[trigger] b.subrange(
                lo,
                hi,
            ) == header.subrange(lo, hi) by {
                assert(b.subrange(lo, hi) == unsummed.subrange(lo, hi));
                assert(unsummed.subrange(lo, hi) == header.subrange(lo, hi));
            }
            assert(header_describes(self@, b));
            assert forall|i: int| 0 <= i < self@.payload.len() implies #[trigger] rd32(b, 144 + 4 * i)
                == self@.payload[i] by {
                assert(rd32(unsummed, 144 + 4 * i) == self@.payload[i]);
                assert(b.subrange(144 + 4 * i, 144 + 4 * i + 4) == unsummed.subrange(144 + 4 * i, 144 + 4 * i + 4));
            }
        }
        Ok(bytes)
    }
}


/// The error restoring a checkpoint from `b` reports, if any, in the order
/// the checks run: framing and checksum, then lengths and shape, then the
/// stored configuration and optimizer scalars.
pub open spec fn decode_error(b: Seq<u8>) -> Option<CheckpointError> {
    let len = b.len() as int;
    if len < 144 {
        Some(CheckpointError::Truncated { actual: len as usize, minimum: 144 })
    } else if b.subrange(0, 8) != magic_seq() {
        Some(CheckpointError::InvalidMagic)
    } else if rd16(b, 8) != 1 {
        Some(CheckpointError::UnsupportedVersion(rd16(b, 8)))
    } else if rd16(b, 10) != 0 || rd32(b, 28) != 0 || rd64(b, 136) != 0 {
        Some(CheckpointError::NonZeroReserved)
    } else if rd32(b, 12) != 144 {
        Some(CheckpointError::UnsupportedHeaderLength(rd32(b, 12)))
    } else if rd32(b, 24) != crc32_spec(b.subrange(28, len)) {
        Some(
            CheckpointError::ChecksumMismatch {
                stored: rd32(b, 24),
                computed: crc32_spec(b.subrange(28, len)),
            },
        )
    } else if rd64(b, 16) + 144 > usize::MAX {
        Some(CheckpointError::ValueOutOfRange("payload length"))
    } else if len != rd64(b, 16) + 144 {
        Some(
            CheckpointError::LengthMismatch {
                field: "checkpoint bytes",
                actual: len as usize,
                expected: (rd64(b, 16) + 144) as usize,
            },
        )
    } else {
        let tc = rd32(b, 32) as int;
        let gc = rd32(b, 36) as int;
        let dim = rd32(b, 40) as int;
        let rank = rd32(b, 44) as int;
        match shape_error(tc, gc, dim, rank) {
            Some(e) => Some(CheckpointError::InvalidShape(e)),
            None => if 4 * scalar_count(tc, gc, dim, rank) > usize::MAX {
                Some(CheckpointError::ValueOutOfRange("payload length"))
            } else if 4 * scalar_count(tc, gc, dim, rank) != rd64(b, 16) {
                Some(
                    CheckpointError::LengthMismatch {
                        field: "payload",
                        actual: rd64(b, 16) as usize,
                        expected: (4 * scalar_count(tc, gc, dim, rank)) as usize,
                    },
                )
            } else if rd32(b, 68) != 0 {
                Some(CheckpointError::NonZeroReserved)
            } else if rd32(b, 64) > 1 {
                Some(CheckpointError::ValueOutOfRange("shuffle"))
            } else if rd32(b, 48) > 1 {
                Some(CheckpointError::UnsupportedActivation(rd32(b, 48)))
            } else if rd32(b, 52) > 1 {
                Some(CheckpointError::UnsupportedPooling(rd32(b, 52)))
            } else if rd32(b, 56) > 1 {
                Some(CheckpointError::UnsupportedLoss(rd32(b, 56)))
            } else if !f32_bits_finite(rd32(b, 112)) || !f32_bits_finite(rd32(b, 116)) {
                Some(CheckpointError::NonFinite("Adam bias correction power"))
            } else if rd32(b, 128) == 1 && !f32_bits_finite(rd32(b, 132)) {
                Some(CheckpointError::NonFinite("buffered normal"))
            } else if rd32(b, 128) > 1 {
                Some(CheckpointError::ValueOutOfRange("buffered normal flag"))
            } else {
                let v = decoded_view(b);
                match v.weights_error() {
                    Some(e) => Some(CheckpointError::InvalidShape(e)),
                    None => if !v.adam_finite() {
                        Some(CheckpointError::NonFinite("Adam moment"))
                    } else {
                        match v.config_error() {
                            Some(e) => Some(CheckpointError::InvalidConfig(e)),
                            None => None,
                        }
                    },
                }
            },
        }
    }
}

/// The contents a well-formed checkpoint `b` holds.
pub open spec fn decoded_view(b: Seq<u8>) -> CheckpointView {
    CheckpointView {
        token_count: rd32(b, 32) as nat,
        group_count: rd32(b, 36) as nat,
        dim: rd32(b, 40) as nat,
        fm_rank: rd32(b, 44) as nat,
        activation: if rd32(b, 48) == 0 {
            Activation::Identity
        } else {
            Activation::Relu
        },
        pooling: if rd32(b, 52) == 0 {
            Pooling::Sum
        } else {
            Pooling::Mean
        },
        loss: if rd32(b, 56) == 0 {
            Loss::BinaryCrossEntropyWithLogits
        } else {
            Loss::MeanSquaredError
        },
        batch_size: rd32(b, 60) as nat,
        shuffle: rd32(b, 64) == 1,
        seed: rd64(b, 72),
        learning_rate_bits: rd32(b, 80),
        beta1_bits: rd32(b, 84),
        beta2_bits: rd32(b, 88),
        epsilon_bits: rd32(b, 92),
        optimizer_step: rd64(b, 96),
        completed_epochs: rd64(b, 104),
        beta1_power_bits: rd32(b, 112),
        beta2_power_bits: rd32(b, 116),
        rng_state: rd64(b, 120),
        spare_normal_bits: if rd32(b, 128) == 1 {
            Some(rd32(b, 132))
        } else {
            None
        },
        payload: Seq::new(((b.len() - 144) / 4) as nat, |i: int| rd32(b, 144 + 4 * i)),
    }
}

/// Reads `count` payload words that follow the header.
fn read_payload(bytes: &[u8], count: usize) -> (payload: Vec<u32>)
    requires
        144 + 4 * count <= bytes@.len(),
    ensures
        payload@.len() == count,
        forall|i: int| 0 <= i < count ==> #[trigger] payload@[i] == rd32(bytes@, 144 + 4 * i),
{
    let len = bytes.len();
    let mut payload: Vec<u32> = Vec::new();
    let mut i: usize = 0;
    while i < count
        invariant
            0 <= i <= count,
            len == bytes@.len(),
            144 + 4 * count <= bytes@.len(),
            payload@.len() == i,
            forall|j: int| 0 <= j < i ==> #[trigger] payload@[j] == rd32(bytes@, 144 + 4 * j),
        decreases count - i,
    {
        let offset = CB2VEC_CHECKPOINT_HEADER_LEN + 4 * i;
        payload.push(read_u32(bytes, offset));
        i += 1;
    }
    payload
}

impl TrainerCheckpointState {
    /// Restores the complete trainer state a checkpoint holds.
    ///
    /// Corrupted, truncated, or incompatible checkpoints are rejected.
    pub fn from_checkpoint(bytes: &[u8]) -> (r: Result<Self, CheckpointError>)
        ensures
            decode_error(bytes@) matches Some(e) ==> r == Err::<Self, CheckpointError>(e),
            decode_error(bytes@) is None ==> (r matches Ok(s) && s@ == decoded_view(bytes@)),
    {
        let len = bytes.len();
        if len < CB2VEC_CHECKPOINT_HEADER_LEN {
            return Err(CheckpointError::Truncated { actual: len, minimum: CB2VEC_CHECKPOINT_HEADER_LEN });
        }
        if bytes[0] != 0x43 || bytes[1] != 0x42 || bytes[2] != 0x32 || bytes[3] != 0x56 || bytes[4]
            != 0x45 || bytes[5] != 0x43 || bytes[6] != 0x43 || bytes[7] != 0x4b {
            proof {
                if bytes@.subrange(0, 8) == magic_seq() {
                    assert(bytes@[0] == bytes@.subrange(0, 8)[0]);
                    assert(bytes@[1] == bytes@.subrange(0, 8)[1]);
                    assert(bytes@[2] == bytes@.subrange(0, 8)[2]);
                    assert(bytes@[3] == bytes@.subrange(0, 8)[3]);
                    assert(bytes@[4] == bytes@.subrange(0, 8)[4]);
                    assert(bytes@[5] == bytes@.subrange(0, 8)[5]);
                    assert(bytes@[6] == bytes@.subrange(0, 8)[6]);
                    assert(bytes@[7] == bytes@.subrange(0, 8)[7]);
                }
            }
            return Err(CheckpointError::InvalidMagic);
        }
        assert(bytes@.subrange(0, 8) =~= magic_seq());
        let version = read_u16(bytes, 8);
        if version != CB2VEC_CHECKPOINT_VERSION {
            return Err(CheckpointError::UnsupportedVersion(version));
        }
        if read_u16(bytes, 10) != 0 || read_u32(bytes, 28) != 0 || read_u64(bytes, 136) != 0 {
            return Err(CheckpointError::NonZeroReserved);
        }
        let header_len = read_u32(bytes, 12);
        if header_len != 144 {
            return Err(CheckpointError::UnsupportedHeaderLength(header_len));
        }
        let stored_checksum = read_u32(bytes, 24);
        let computed = crc32(vstd::slice::slice_subrange(bytes, 28, len));
        if stored_checksum != computed {
            return Err(CheckpointError::ChecksumMismatch { stored: stored_checksum, computed });
        }
        let stored_len = read_u64(bytes, 16);
        if stored_len > (usize::MAX - CB2VEC_CHECKPOINT_HEADER_LEN) as u64 {
            return Err(CheckpointError::ValueOutOfRange("payload length"));
        }
        let payload_len = stored_len as usize;
        let expected_total = payload_len + CB2VEC_CHECKPOINT_HEADER_LEN;
        if len != expected_total {
            return Err(
                CheckpointError::LengthMismatch {
                    field: "checkpoint bytes",
                    actual: len,
                    expected: expected_total,
                },
            );
        }
        let shape = match ModelShape::new(
            read_u32(bytes, 32) as usize,
            read_u32(bytes, 36) as usize,
            read_u32(bytes, 40) as usize,
            read_u32(bytes, 44) as usize,
        ) {
            Ok(shape) => shape,
            Err(e) => return Err(CheckpointError::InvalidShape(e)),
        };
        let scalars = match payload_scalars(shape) {
            Ok(n) => n,
            Err(e) => return Err(e),
        };
        let expected_payload = match scalars.checked_mul(4) {
            Some(n) => n,
            None => return Err(CheckpointError::ValueOutOfRange("payload length")),
        };
        if expected_payload != payload_len {
            return Err(
                CheckpointError::LengthMismatch {
                    field: "payload",
                    actual: payload_len,
                    expected: expected_payload,
                },
            );
        }
        if read_u32(bytes, 68) != 0 {
            return Err(CheckpointError::NonZeroReserved);
        }
        let shuffle = match read_u32(bytes, 64) {
            0 => false,
            1 => true,
            _ => return Err(CheckpointError::ValueOutOfRange("shuffle")),
        };
        let activation = match activation_from_u32(read_u32(bytes, 48)) {
            Ok(a) => a,
            Err(e) => return Err(e),
        };
        let pooling = match pooling_from_u32(read_u32(bytes, 52)) {
            Ok(p) => p,
            Err(e) => return Err(e),
        };
        let loss = match loss_from_u32(read_u32(bytes, 56)) {
            Ok(l) => l,
            Err(e) => return Err(e),
        };
        let beta1_power_bits = read_u32(bytes, 112);
        let beta2_power_bits = read_u32(bytes, 116);
        if !f32_bits_are_finite(beta1_power_bits) || !f32_bits_are_finite(beta2_power_bits) {
            return Err(CheckpointError::NonFinite("Adam bias correction power"));
        }
        let spare_normal_bits = match read_u32(bytes, 128) {
            0 => None,
            1 => {
                let bits = read_u32(bytes, 132);
                if !f32_bits_are_finite(bits) {
                    return Err(CheckpointError::NonFinite("buffered normal"));
                }
                Some(bits)
            },
            _ => return Err(CheckpointError::ValueOutOfRange("buffered normal flag")),
        };
        let payload = read_payload(bytes, scalars);
        let state = TrainerCheckpointState {
            shape,
            activation,
            pooling,
            loss,
            batch_size: read_u32(bytes, 60) as usize,
            shuffle,
            seed: read_u64(bytes, 72),
            learning_rate_bits: read_u32(bytes, 80),
            beta1_bits: read_u32(bytes, 84),
            beta2_bits: read_u32(bytes, 88),
            epsilon_bits: read_u32(bytes, 92),
            optimizer_step: read_u64(bytes, 96),
            completed_epochs: read_u64(bytes, 104),
            beta1_power_bits,
            beta2_power_bits,
            rng_state: read_u64(bytes, 120),
            spare_normal_bits,
            payload,
        };
        proof {
            let b = bytes@;
            assert(state@.payload =~= decoded_view(b).payload);
            assert(state@ == decoded_view(b));
        }
        // The decoded weights, moments and settings must be ones a trainer
        // accepts.
        match state.check_weights_finite() {
            Ok(()) => {},
            Err(e) => return Err(e),
        }
        match state.check_adam_finite() {
            Ok(()) => {},
            Err(e) => return Err(e),
        }
        match state.check_config() {
            Ok(()) => {},
            Err(e) => return Err(e),
        }
        Ok(state)
    }
}


/// Some payload word in `lo .. hi` is not a finite `f32`.
pub open spec fn has_non_finite(payload: Seq<u32>, lo: int, hi: int) -> bool {
    exists|i: int| lo <= i < hi && 0 <= i < payload.len() && !f32_bits_finite(#[trigger] payload[i])
}

impl CheckpointView {
    /// Index of the first head value in the payload.
    pub open spec fn head_start(self) -> int {
        (self.token_count * self.dim) as int
    }

    /// Index of the first factor value in the payload.
    pub open spec fn factor_start(self) -> int {
        self.head_start() + self.group_count * self.dim
    }

    /// Index of the bias in the payload.
    pub open spec fn bias_index(self) -> int {
        self.factor_start() + self.group_count * self.dim * self.fm_rank
    }

    /// Index of the first Adam moment in the payload: the embeddings, head,
    /// factors and bias come first.
    pub open spec fn adam_start(self) -> int {
        self.bias_index() + 1
    }

    /// The first part of the weights that holds a non-finite value, if any.
    pub open spec fn weights_error(self) -> Option<ModelError> {
        if has_non_finite(self.payload, 0, self.head_start()) {
            Some(ModelError::NonFinite("embeddings"))
        } else if has_non_finite(self.payload, self.head_start(), self.factor_start()) {
            Some(ModelError::NonFinite("head"))
        } else if has_non_finite(self.payload, self.factor_start(), self.bias_index()) {
            Some(ModelError::NonFinite("factors"))
        } else if has_non_finite(self.payload, self.bias_index(), self.adam_start()) {
            Some(ModelError::NonFinite("bias"))
        } else {
            None
        }
    }

    /// The trainer configuration error the stored settings give, if any, in
    /// the order the configuration is validated.
    pub open spec fn config_error(self) -> Option<TrainingError> {
        if self.batch_size == 0 {
            Some(TrainingError::InvalidConfig("batch_size must be non-zero"))
        } else if !f32_bits_positive_finite(self.learning_rate_bits) {
            Some(TrainingError::InvalidConfig("Adam learning_rate must be positive and finite"))
        } else if !f32_bits_in_unit_interval(self.beta1_bits) {
            Some(TrainingError::InvalidConfig("Adam beta1 must be finite and in 0.0..1.0"))
        } else if !f32_bits_in_unit_interval(self.beta2_bits) {
            Some(TrainingError::InvalidConfig("Adam beta2 must be finite and in 0.0..1.0"))
        } else if !f32_bits_positive_finite(self.epsilon_bits) {
            Some(TrainingError::InvalidConfig("Adam epsilon must be positive and finite"))
        } else {
            None
        }
    }

    /// Every stored Adam moment is a finite `f32`.
    pub open spec fn adam_finite(self) -> bool {
        forall|i: int|
            self.adam_start() <= i < self.payload.len() ==> f32_bits_finite(#[trigger] self.payload[i])
    }
}

/// A stored training config is accepted exactly when the batch size is at
/// least one, the learning rate and epsilon are positive finite `f32`s
/// (bit patterns strictly between `0` and `0x7F80_0000`), and both betas are
/// finite and in `0.0 .. 1.0` (a bit pattern below `0x3F80_0000`, or negative
/// zero). The batch size is refused exactly when it is zero, whatever the
/// other settings hold.
pub proof fn lemma_config_accepted(v: CheckpointView)
    ensures
        v.config_error() is None <==> {
            &&& v.batch_size >= 1
            &&& 0 < v.learning_rate_bits < 0x7F80_0000
            &&& (v.beta1_bits < 0x3F80_0000 || v.beta1_bits == 0x8000_0000)
            &&& (v.beta2_bits < 0x3F80_0000 || v.beta2_bits == 0x8000_0000)
            &&& 0 < v.epsilon_bits < 0x7F80_0000
        },
        v.config_error() == Some(TrainingError::InvalidConfig("batch_size must be non-zero")) <==> v.batch_size
            == 0,
{
    if v.batch_size != 0 {
        reveal_strlit("batch_size must be non-zero");
        reveal_strlit("Adam learning_rate must be positive and finite");
        reveal_strlit("Adam beta1 must be finite and in 0.0..1.0");
        reveal_strlit("Adam beta2 must be finite and in 0.0..1.0");
        reveal_strlit("Adam epsilon must be positive and finite");
    }
}

/// Writing a checkpoint succeeds exactly when the payload has the length the
/// dimensions call for (and that length and the byte size are
/// representable), the weights are finite, and the four dimensions and the
/// batch size fit a `u32`.
pub proof fn lemma_encode_accepted(v: CheckpointView)
    ensures
        encode_error(v) is None <==> {
            &&& v.expected_scalars() <= usize::MAX
            &&& v.payload.len() == v.expected_scalars()
            &&& v.weights_error() is None
            &&& 144 + 4 * v.expected_scalars() <= usize::MAX
            &&& v.token_count <= u32::MAX
            &&& v.group_count <= u32::MAX
            &&& v.dim <= u32::MAX
            &&& v.fm_rank <= u32::MAX
            &&& v.batch_size <= u32::MAX
        },
{
}

/// Whether a checkpoint can be written does not depend on the optimizer's
/// progress, the generator, the seed or the training settings: any trainer
/// state, a fresh one (step zero) included, writes as well as any other of
/// the same shape, weights and batch size.
pub proof fn lemma_encode_ignores_progress(
    v: CheckpointView,
    optimizer_step: u64,
    completed_epochs: u64,
    seed: u64,
    rng_state: u64,
    beta1_power_bits: u32,
    beta2_power_bits: u32,
    spare_normal_bits: Option<u32>,
    learning_rate_bits: u32,
)
    ensures
        encode_error(v) == encode_error(
            CheckpointView {
                optimizer_step,
                completed_epochs,
                seed,
                rng_state,
                beta1_power_bits,
                beta2_power_bits,
                spare_normal_bits,
                learning_rate_bits,
                ..v
            },
        ),
{
    let w = CheckpointView {
        optimizer_step,
        completed_epochs,
        seed,
        rng_state,
        beta1_power_bits,
        beta2_power_bits,
        spare_normal_bits,
        learning_rate_bits,
        ..v
    };
    assert(w.expected_scalars() == v.expected_scalars());
    assert(w.weights_error() == v.weights_error());
}

/// Whether some word of `payload[lo .. hi]` is not a finite `f32`.
fn find_non_finite(payload: &Vec<u32>, lo: usize, hi: usize) -> (r: bool)
    ensures
        r == has_non_finite(payload@, lo as int, hi as int),
{
    let len = payload.len();
    let end = if hi < len {
        hi
    } else {
        len
    };
    let mut i = lo;
    while i < end
        invariant
            lo <= i,
            end <= len,
            len == payload@.len(),
            end == (if hi < len { hi } else { len }),
            forall|j: int| lo <= j < i ==> f32_bits_finite(#[trigger] payload@[j]),
        decreases end - i,
    {
        if !f32_bits_are_finite(payload[i]) {
            assert(lo <= i < hi && 0 <= i < payload@.len() && !f32_bits_finite(payload@[i as int]));
            return true;
        }
        i += 1;
    }
    false
}

/// `a + b`, or `usize::MAX` when the sum does not fit.
fn saturating_sum(a: usize, b: usize) -> (r: usize)
    ensures
        a + b <= usize::MAX ==> r == a + b,
        a + b > usize::MAX ==> r == usize::MAX,
{
    match a.checked_add(b) {
        Some(n) => n,
        None => usize::MAX,
    }
}

impl TrainerCheckpointState {
    /// Rejects a state whose weights hold a non-finite value, naming the
    /// first part (embeddings, head, factors, bias) that does.
    pub fn check_weights_finite(&self) -> (r: Result<(), CheckpointError>)
        ensures
            self@.weights_error() matches Some(e) ==> r == Err::<(), CheckpointError>(
                CheckpointError::InvalidShape(e),
            ),
            self@.weights_error() is None ==> r is Ok,
    {
        let embedding_len = match self.shape.embedding_len() {
            Ok(n) => n,
            Err(e) => return Err(CheckpointError::InvalidShape(e)),
        };
        let feature_len = match self.shape.feature_len() {
            Ok(n) => n,
            Err(e) => return Err(CheckpointError::InvalidShape(e)),
        };
        let factor_len = match self.shape.factor_len() {
            Ok(n) => n,
            Err(e) => return Err(CheckpointError::InvalidShape(e)),
        };
        let len = self.payload.len();
        // A boundary past the end of the payload bounds nothing, so a
        // saturated boundary reads the same words as the exact one.
        let head_start = embedding_len;
        let factor_start = saturating_sum(head_start, feature_len);
        let bias_index = saturating_sum(factor_start, factor_len);
        let adam_start = saturating_sum(bias_index, 1);
        proof {
            let v = self@;
            assert forall|lo: int, hi: int, lo2: int, hi2: int|
                (lo == lo2 || (lo >= len && lo2 >= len)) && (hi == hi2 || (hi >= len && hi2 >= len))
                    implies has_non_finite(v.payload, lo, hi) == has_non_finite(v.payload, lo2, hi2) by {
                if has_non_finite(v.payload, lo, hi) {
                    let i = choose|i: int|
                        lo <= i < hi && 0 <= i < v.payload.len() && !f32_bits_finite(#[trigger] v.payload[i]);
                    assert(lo2 <= i < hi2);
                }
                if has_non_finite(v.payload, lo2, hi2) {
                    let i = choose|i: int|
                        lo2 <= i < hi2 && 0 <= i < v.payload.len() && !f32_bits_finite(#[trigger] v.payload[i]);
                    assert(lo <= i < hi);
                }
            }
        }
        if find_non_finite(&self.payload, 0, head_start) {
            return Err(CheckpointError::InvalidShape(ModelError::NonFinite("embeddings")));
        }
        if find_non_finite(&self.payload, head_start, factor_start) {
            return Err(CheckpointError::InvalidShape(ModelError::NonFinite("head")));
        }
        if find_non_finite(&self.payload, factor_start, bias_index) {
            return Err(CheckpointError::InvalidShape(ModelError::NonFinite("factors")));
        }
        if find_non_finite(&self.payload, bias_index, adam_start) {
            return Err(CheckpointError::InvalidShape(ModelError::NonFinite("bias")));
        }
        Ok(())
    }

    /// Rejects stored trainer settings that the trainer would refuse.
    pub fn check_config(&self) -> (r: Result<(), CheckpointError>)
        ensures
            self@.config_error() matches Some(e) ==> r == Err::<(), CheckpointError>(
                CheckpointError::InvalidConfig(e),
            ),
            self@.config_error() is None ==> r is Ok,
    {
        if self.batch_size == 0 {
            return Err(
                CheckpointError::InvalidConfig(
                    TrainingError::InvalidConfig("batch_size must be non-zero"),
                ),
            );
        }
        let lr = self.learning_rate_bits;
        if !(0 < lr && lr < 0x7F80_0000) {
            return Err(
                CheckpointError::InvalidConfig(
                    TrainingError::InvalidConfig("Adam learning_rate must be positive and finite"),
                ),
            );
        }
        let beta1 = self.beta1_bits;
        if !(beta1 < 0x3F80_0000 || beta1 == 0x8000_0000) {
            return Err(
                CheckpointError::InvalidConfig(
                    TrainingError::InvalidConfig("Adam beta1 must be finite and in 0.0..1.0"),
                ),
            );
        }
        let beta2 = self.beta2_bits;
        if !(beta2 < 0x3F80_0000 || beta2 == 0x8000_0000) {
            return Err(
                CheckpointError::InvalidConfig(
                    TrainingError::InvalidConfig("Adam beta2 must be finite and in 0.0..1.0"),
                ),
            );
        }
        let epsilon = self.epsilon_bits;
        if !(0 < epsilon && epsilon < 0x7F80_0000) {
            return Err(
                CheckpointError::InvalidConfig(
                    TrainingError::InvalidConfig("Adam epsilon must be positive and finite"),
                ),
            );
        }
        Ok(())
    }

    /// Rejects a state whose Adam moments hold a non-finite value.
    pub fn check_adam_finite(&self) -> (r: Result<(), CheckpointError>)
        ensures
            self@.adam_finite() ==> r is Ok,
            !self@.adam_finite() ==> r == Err::<(), CheckpointError>(CheckpointError::NonFinite("Adam moment")),
    {
        let embedding_len = match self.shape.embedding_len() {
            Ok(n) => n,
            Err(e) => return Err(CheckpointError::InvalidShape(e)),
        };
        let feature_len = match self.shape.feature_len() {
            Ok(n) => n,
            Err(e) => return Err(CheckpointError::InvalidShape(e)),
        };
        let factor_len = match self.shape.factor_len() {
            Ok(n) => n,
            Err(e) => return Err(CheckpointError::InvalidShape(e)),
        };
        let len = self.payload.len();
        // Past the end of the payload there is nothing to check.
        let start = match embedding_len.checked_add(feature_len) {
            Some(n) => match n.checked_add(factor_len) {
                Some(m) => match m.checked_add(1) {
                    Some(k) => k,
                    None => return Ok(()),
                },
                None => return Ok(()),
            },
            None => return Ok(()),
        };
        let mut i = start;
        while i < len
            invariant
                start == self@.adam_start(),
                start <= i,
                len == self@.payload.len(),
                forall|j: int| start <= j < i ==> f32_bits_finite(#[trigger] self@.payload[j]),
            decreases len - i,
        {
            if !f32_bits_are_finite(self.payload[i]) {
                return Err(CheckpointError::NonFinite("Adam moment"));
            }
            i += 1;
        }
        Ok(())
    }
}

/// Restoring a written checkpoint gives back the state that was written, and
/// the written length is the one [`TrainerCheckpoint::byte_len`] predicts.
///
/// This holds for every state that writes successfully, whose Adam moments,
/// bias-correction powers and buffered normal are finite and whose trainer
/// settings are valid; restoring rejects the others.
pub proof fn lemma_checkpoint_round_trip(v: CheckpointView, b: Seq<u8>)
    requires
        shape_error(v.token_count as int, v.group_count as int, v.dim as int, v.fm_rank as int) is None,
        encode_error(v) is None,
        checkpoint_encodes(v, b),
        f32_bits_finite(v.beta1_power_bits),
        f32_bits_finite(v.beta2_power_bits),
        v.spare_normal_bits matches Some(bits) ==> f32_bits_finite(bits),
        v.adam_finite(),
        v.config_error() is None,
    ensures
        b.len() == checkpoint_len(
            v.token_count as int,
            v.group_count as int,
            v.dim as int,
            v.fm_rank as int,
        ),
        decode_error(b) is None,
        decoded_view(b) == v,
{
    let d = decoded_view(b);
    let n = v.payload.len();
    assert((b.len() - 144) / 4 == n);
    assert(d.payload =~= v.payload);
    assert(d.activation == v.activation);
    assert(d.pooling == v.pooling);
    assert(d.loss == v.loss);
    assert(d.shuffle == v.shuffle);
    assert(d.spare_normal_bits == v.spare_normal_bits);
}

} // verus!

verus! {

/// Changing one byte of a written checkpoint's stored fields or payload is
/// always caught: restoring reports a checksum mismatch whose stored value is
/// the written checksum.
///
/// Bytes `0 .. 32` and `136 .. 144` are the magic, version, lengths,
/// checksum and reserved fields, which are checked, with their own errors,
/// before the checksum.
pub proof fn lemma_corruption_detected(v: CheckpointView, good: Seq<u8>, bad: Seq<u8>, i: int)
    requires
        checkpoint_encodes(v, good),
        bad.len() == good.len(),
        32 <= i < 136 || 144 <= i < good.len(),
        bad[i] != good[i],
        forall|j: int| 0 <= j < good.len() && j != i ==> bad[j] == good[j],
    ensures
        rd32(good, 24) != crc32_spec(bad.subrange(28, bad.len() as int)),
        decode_error(bad) == Some(
            CheckpointError::ChecksumMismatch {
                stored: rd32(good, 24),
                computed: crc32_spec(bad.subrange(28, bad.len() as int)),
            },
        ),
{
    let len = good.len() as int;
    assert(bad.subrange(0, 8) =~= good.subrange(0, 8));
    assert(bad.subrange(8, 10) =~= good.subrange(8, 10));
    assert(bad.subrange(10, 12) =~= good.subrange(10, 12));
    assert(bad.subrange(12, 16) =~= good.subrange(12, 16));
    assert(bad.subrange(24, 28) =~= good.subrange(24, 28));
    assert(bad.subrange(28, 32) =~= good.subrange(28, 32));
    assert(bad.subrange(136, 144) =~= good.subrange(136, 144));
    let ga = good.subrange(28, len);
    let ba = bad.subrange(28, len);
    assert forall|j: int| 0 <= j < ga.len() && j != i - 28 implies ba[j] == ga[j] by {
        assert(ba[j] == bad[j + 28]);
        assert(ga[j] == good[j + 28]);
    }
    lemma_crc32_detects_byte_change(ba, ga, i - 28);
}

} // verus!
