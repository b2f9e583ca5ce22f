//! Decisions of the stable C ABI: version negotiation, fixed-layout argument
//! structs, their validation, status codes, and the flattened batch layout.
//!
//! Raw pointers never reach this module. A foreign entry point copies its
//! arguments into the plain values below, and everything it decides about
//! them is decided here.

use vstd::prelude::*;

use crate::checkpoint::CheckpointError;
use crate::model::{shape_error, ModelError, ModelShape};
use crate::session::{SessionError, SessionInfo, SessionLimits};
use crate::trainer::{
    first_decrease, lemma_first_decrease, lemma_first_decrease_stable, lemma_monotone, step_ok,
    structure_issue, Activation, GroupedTokens, InferenceConfig, Loss, Pooling, SampleIssue,
};

verus! {

/// ABI major 1, minor 1.
///
/// Minor revisions are purely additive: every ABI 1.0 struct is still
/// accepted. Callers should require `major == 1` rather than an exact match.
pub const CB2VEC_ABI_VERSION: u32 = 0x0001_0001;

/// The first ABI revision, still accepted by every `_v1` entry point.
pub const CB2VEC_ABI_VERSION_1_0: u32 = 0x0001_0000;

pub const CB2VEC_OK: i32 = 0;
pub const CB2VEC_ERROR_NULL_POINTER: i32 = -1;
pub const CB2VEC_ERROR_INVALID_ARGUMENT: i32 = -2;
pub const CB2VEC_ERROR_ABI_MISMATCH: i32 = -3;
pub const CB2VEC_ERROR_ARTIFACT: i32 = -4;
pub const CB2VEC_ERROR_MODEL: i32 = -5;
pub const CB2VEC_ERROR_NUMERIC: i32 = -6;
pub const CB2VEC_ERROR_BUFFER_TOO_SMALL: i32 = -7;
/// A session capacity chosen at creation was exceeded.
pub const CB2VEC_ERROR_LIMIT_EXCEEDED: i32 = -8;
/// The operation is not valid for the handle's current state.
pub const CB2VEC_ERROR_STATE: i32 = -9;
/// A trainer checkpoint was corrupt or incompatible.
pub const CB2VEC_ERROR_CHECKPOINT: i32 = -10;
/// A required allocation failed.
pub const CB2VEC_ERROR_OUT_OF_MEMORY: i32 = -11;
pub const CB2VEC_ERROR_PANIC: i32 = -127;

pub const CB2VEC_ACTIVATION_IDENTITY: u32 = 0;
pub const CB2VEC_ACTIVATION_RELU: u32 = 1;
pub const CB2VEC_POOLING_SUM: u32 = 0;
pub const CB2VEC_POOLING_MEAN: u32 = 1;
pub const CB2VEC_LOSS_BCE_WITH_LOGITS: u32 = 0;
pub const CB2VEC_LOSS_MSE: u32 = 1;
pub const CB2VEC_MODEL_KIND_FLAT: u32 = 0;
pub const CB2VEC_MODEL_KIND_FACTORED: u32 = 1;
pub const CB2VEC_MODEL_KIND_FP32: u32 = 2;
pub const CB2VEC_MODEL_FLAG_LEGACY_MAGIC: u32 = 1;
pub const CB2VEC_MODEL_FLAG_FLATTENED_AT_LOAD: u32 = 2;

/// Quantization scales of the default deployment recipe.
pub const QUANT_EMBED_SCALE: i32 = 32;
pub const QUANT_HEAD_SCALE: i32 = 64;
pub const QUANT_FACTOR_SCALE: i32 = 64;

/// Byte sizes of the fixed C layouts, as the `struct_size` fields carry them.
pub const MODEL_SHAPE_V1_SIZE: u32 = 32;
pub const QUANTIZATION_CONFIG_V1_SIZE: u32 = 32;
pub const INFERENCE_CONFIG_V1_SIZE: u32 = 16;
pub const MODEL_INFO_V1_SIZE: u32 = 64;
pub const SESSION_CONFIG_V1_SIZE: u32 = 32;
pub const TOKEN_DELTA_V1_SIZE: u32 = 12;
pub const SESSION_INFO_V1_SIZE: u32 = 64;
pub const ARTIFACT_METADATA_V1_SIZE: u32 = 32;
pub const ARTIFACT_INFO_V1_SIZE: u32 = 112;

/// What rejected a call, in the detail its message reports.
#[derive(Clone, Debug, PartialEq, Eq)]
pub enum FfiReason {
    /// A fixed message.
    Text(&'static str),
    /// A `struct_size` field that does not match the layout.
    StructSize { what: &'static str, actual: u32, expected: u32 },
    /// An `abi_version` field from an unsupported revision.
    AbiVersion { what: &'static str, value: u32 },
    /// An enumeration code outside its range.
    UnsupportedValue { what: &'static str, value: u32 },
    /// A prefix table whose last entry is not the length it delimits.
    TableEnd { table: &'static str, bound: &'static str, end: usize },
    /// One sample of a flattened batch is malformed.
    Sample { sample: usize, issue: SampleIssue },
    /// A count that does not fit its `u32` field.
    FieldOverflow(&'static str),
    /// A buffer whose byte length overflows `usize`.
    ByteLengthOverflow(&'static str),
    /// A buffer longer than any Rust slice may be.
    SliceTooLarge(&'static str),
    ModelShape(ModelError),
    Session(SessionError),
    Checkpoint(CheckpointError),
}

/// A failed C ABI call: its status category and its reason.
#[derive(Clone, Debug, PartialEq, Eq)]
pub enum FfiError {
    Null(&'static str),
    Invalid(FfiReason),
    Abi(FfiReason),
    Artifact(FfiReason),
    Model(FfiReason),
    Numeric(FfiReason),
    BufferTooSmall { required: usize, capacity: usize },
    LimitExceeded(FfiReason),
    State(FfiReason),
    Checkpoint(FfiReason),
    OutOfMemory(FfiReason),
}

/// Status code of each error category.
pub open spec fn status_of(error: FfiError) -> i32 {
    match error {
        FfiError::Null(_) => CB2VEC_ERROR_NULL_POINTER,
        FfiError::Invalid(_) => CB2VEC_ERROR_INVALID_ARGUMENT,
        FfiError::Abi(_) => CB2VEC_ERROR_ABI_MISMATCH,
        FfiError::Artifact(_) => CB2VEC_ERROR_ARTIFACT,
        FfiError::Model(_) => CB2VEC_ERROR_MODEL,
        FfiError::Numeric(_) => CB2VEC_ERROR_NUMERIC,
        FfiError::BufferTooSmall { .. } => CB2VEC_ERROR_BUFFER_TOO_SMALL,
        FfiError::LimitExceeded(_) => CB2VEC_ERROR_LIMIT_EXCEEDED,
        FfiError::State(_) => CB2VEC_ERROR_STATE,
        FfiError::Checkpoint(_) => CB2VEC_ERROR_CHECKPOINT,
        FfiError::OutOfMemory(_) => CB2VEC_ERROR_OUT_OF_MEMORY,
    }
}

impl FfiError {
    /// The status code a foreign caller receives for this error.
    pub fn status(&self) -> (r: i32)
        ensures
            r == status_of(*self),
    {
        match self {
            FfiError::Null(_) => CB2VEC_ERROR_NULL_POINTER,
            FfiError::Invalid(_) => CB2VEC_ERROR_INVALID_ARGUMENT,
            FfiError::Abi(_) => CB2VEC_ERROR_ABI_MISMATCH,
            FfiError::Artifact(_) => CB2VEC_ERROR_ARTIFACT,
            FfiError::Model(_) => CB2VEC_ERROR_MODEL,
            FfiError::Numeric(_) => CB2VEC_ERROR_NUMERIC,
            FfiError::BufferTooSmall { .. } => CB2VEC_ERROR_BUFFER_TOO_SMALL,
            FfiError::LimitExceeded(_) => CB2VEC_ERROR_LIMIT_EXCEEDED,
            FfiError::State(_) => CB2VEC_ERROR_STATE,
            FfiError::Checkpoint(_) => CB2VEC_ERROR_CHECKPOINT,
            FfiError::OutOfMemory(_) => CB2VEC_ERROR_OUT_OF_MEMORY,
        }
    }
}

/// Maps a session failure onto the narrowest status a caller can act on.
pub fn map_session_error(error: SessionError) -> (r: FfiError)
    ensures
        r == (match error {
            SessionError::Model(_) => FfiError::Model(FfiReason::Session(error)),
            SessionError::LimitExceeded { .. } => FfiError::LimitExceeded(FfiReason::Session(error)),
            SessionError::NotReady => FfiError::State(FfiReason::Session(error)),
            SessionError::EmptyStack => FfiError::State(FfiReason::Session(error)),
            SessionError::AllocationFailed { .. } => FfiError::OutOfMemory(FfiReason::Session(error)),
            _ => FfiError::Invalid(FfiReason::Session(error)),
        }),
{
    match error {
        SessionError::Model(_) => FfiError::Model(FfiReason::Session(error)),
        SessionError::LimitExceeded { .. } => FfiError::LimitExceeded(FfiReason::Session(error)),
        SessionError::NotReady | SessionError::EmptyStack => FfiError::State(FfiReason::Session(error)),
        SessionError::AllocationFailed { .. } => FfiError::OutOfMemory(FfiReason::Session(error)),
        _ => FfiError::Invalid(FfiReason::Session(error)),
    }
}

/// Every checkpoint failure reports the checkpoint status.
pub fn map_checkpoint_error(error: CheckpointError) -> (r: FfiError)
    ensures
        r == FfiError::Checkpoint(FfiReason::Checkpoint(error)),
{
    FfiError::Checkpoint(FfiReason::Checkpoint(error))
}

// ---------------------------------------------------------------------------
// Enumeration codes
// ---------------------------------------------------------------------------

/// The activation a code names, if any.
pub open spec fn activation_of_code(value: u32) -> Option<Activation> {
    if value == CB2VEC_ACTIVATION_IDENTITY {
        Some(Activation::Identity)
    } else if value == CB2VEC_ACTIVATION_RELU {
        Some(Activation::Relu)
    } else {
        None
    }
}

/// The pooling a code names, if any.
pub open spec fn pooling_of_code(value: u32) -> Option<Pooling> {
    if value == CB2VEC_POOLING_SUM {
        Some(Pooling::Sum)
    } else if value == CB2VEC_POOLING_MEAN {
        Some(Pooling::Mean)
    } else {
        None
    }
}

/// The loss a code names, if any.
pub open spec fn loss_of_code(value: u32) -> Option<Loss> {
    if value == CB2VEC_LOSS_BCE_WITH_LOGITS {
        Some(Loss::BinaryCrossEntropyWithLogits)
    } else if value == CB2VEC_LOSS_MSE {
        Some(Loss::MeanSquaredError)
    } else {
        None
    }
}

pub fn activation_from_ffi(value: u32) -> (r: Result<Activation, FfiError>)
    ensures
        activation_of_code(value) matches Some(a) ==> r == Ok::<Activation, FfiError>(a),
        activation_of_code(value) is None ==> r == Err::<Activation, FfiError>(
            FfiError::Invalid(FfiReason::UnsupportedValue { what: "activation", value }),
        ),
{
    if value == CB2VEC_ACTIVATION_IDENTITY {
        Ok(Activation::Identity)
    } else if value == CB2VEC_ACTIVATION_RELU {
        Ok(Activation::Relu)
    } else {
        Err(FfiError::Invalid(FfiReason::UnsupportedValue { what: "activation", value }))
    }
}

pub fn activation_to_ffi(value: Activation) -> (r: u32)
    ensures
        activation_of_code(r) == Some(value),
{
    match value {
        Activation::Identity => CB2VEC_ACTIVATION_IDENTITY,
        Activation::Relu => CB2VEC_ACTIVATION_RELU,
    }
}

pub fn pooling_from_ffi(value: u32) -> (r: Result<Pooling, FfiError>)
    ensures
        pooling_of_code(value) matches Some(p) ==> r == Ok::<Pooling, FfiError>(p),
        pooling_of_code(value) is None ==> r == Err::<Pooling, FfiError>(
            FfiError::Invalid(FfiReason::UnsupportedValue { what: "pooling", value }),
        ),
{
    if value == CB2VEC_POOLING_SUM {
        Ok(Pooling::Sum)
    } else if value == CB2VEC_POOLING_MEAN {
        Ok(Pooling::Mean)
    } else {
        Err(FfiError::Invalid(FfiReason::UnsupportedValue { what: "pooling", value }))
    }
}

pub fn pooling_to_ffi(value: Pooling) -> (r: u32)
    ensures
        pooling_of_code(r) == Some(value),
{
    match value {
        Pooling::Sum => CB2VEC_POOLING_SUM,
        Pooling::Mean => CB2VEC_POOLING_MEAN,
    }
}

pub fn loss_from_ffi(value: u32) -> (r: Result<Loss, FfiError>)
    ensures
        loss_of_code(value) matches Some(l) ==> r == Ok::<Loss, FfiError>(l),
        loss_of_code(value) is None ==> r == Err::<Loss, FfiError>(
            FfiError::Invalid(FfiReason::UnsupportedValue { what: "loss", value }),
        ),
{
    if value == CB2VEC_LOSS_BCE_WITH_LOGITS {
        Ok(Loss::BinaryCrossEntropyWithLogits)
    } else if value == CB2VEC_LOSS_MSE {
        Ok(Loss::MeanSquaredError)
    } else {
        Err(FfiError::Invalid(FfiReason::UnsupportedValue { what: "loss", value }))
    }
}

pub fn loss_to_ffi(value: Loss) -> (r: u32)
    ensures
        loss_of_code(r) == Some(value),
{
    match value {
        Loss::BinaryCrossEntropyWithLogits => CB2VEC_LOSS_BCE_WITH_LOGITS,
        Loss::MeanSquaredError => CB2VEC_LOSS_MSE,
    }
}

// ---------------------------------------------------------------------------
// Version negotiation
// ---------------------------------------------------------------------------

/// A struct revision this build accepts: the same major version and a minor
/// version no newer than this build's.
pub open spec fn abi_supported(value: u32) -> bool {
    (value >> 16u32) == (CB2VEC_ABI_VERSION >> 16u32) && (value & 0xFFFFu32) <= (
    CB2VEC_ABI_VERSION & 0xFFFFu32)
}

/// Accepts any ABI revision this build is source-compatible with.
pub fn check_abi_version(value: u32, what: &'static str) -> (r: Result<(), FfiError>)
    ensures
        abi_supported(value) ==> r is Ok,
        !abi_supported(value) ==> r == Err::<(), FfiError>(
            FfiError::Abi(FfiReason::AbiVersion { what, value }),
        ),
{
    let major = value >> 16;
    let minor = value & 0xFFFF;
    if major != CB2VEC_ABI_VERSION >> 16 || minor > (CB2VEC_ABI_VERSION & 0xFFFF) {
        return Err(FfiError::Abi(FfiReason::AbiVersion { what, value }));
    }
    Ok(())
}

/// Exactly the two published revisions pass the check.
pub proof fn lemma_supported_revisions(value: u32)
    ensures
        abi_supported(value) <==> (value == CB2VEC_ABI_VERSION_1_0 || value == CB2VEC_ABI_VERSION),
{
    assert(((value >> 16u32) == (0x0001_0001u32 >> 16u32) && (value & 0xFFFFu32) <= (0x0001_0001u32
        & 0xFFFFu32)) <==> (value == 0x0001_0000u32 || value == 0x0001_0001u32)) by (bit_vector);
}


// ---------------------------------------------------------------------------
// Fixed-layout argument structs
// ---------------------------------------------------------------------------

/// Fixed-layout model shape.
#[derive(Clone, Copy, Debug, PartialEq, Eq)]
pub struct Cb2VecModelShapeV1 {
    pub struct_size: u32,
    pub abi_version: u32,
    pub token_count: u32,
    pub group_count: u32,
    pub dim: u32,
    pub fm_rank: u32,
    pub reserved: [u32; 2],
}

impl Default for Cb2VecModelShapeV1 {
    fn default() -> (r: Self)
        ensures
            r.struct_size == MODEL_SHAPE_V1_SIZE,
            r.abi_version == CB2VEC_ABI_VERSION,
            r.token_count == 2,
            r.group_count == 1,
            r.dim == 8,
            r.fm_rank == 0,
            r.reserved@ == seq![0u32, 0u32],
    {
        let r = Cb2VecModelShapeV1 {
            struct_size: MODEL_SHAPE_V1_SIZE,
            abi_version: CB2VEC_ABI_VERSION,
            token_count: 2,
            group_count: 1,
            dim: 8,
            fm_rank: 0,
            reserved: [0u32, 0u32],
        };
        assert(r.reserved@ =~= seq![0u32, 0u32]);
        r
    }
}

/// Fixed-layout post-training quantization configuration.
#[derive(Clone, Copy, Debug, PartialEq, Eq)]
pub struct Cb2VecQuantizationConfigV1 {
    pub struct_size: u32,
    pub abi_version: u32,
    pub embedding_scale: i32,
    pub head_scale: i32,
    pub factor_scale: i32,
    pub flags: u32,
    pub reserved: [u32; 2],
}

impl Default for Cb2VecQuantizationConfigV1 {
    fn default() -> (r: Self)
        ensures
            r.struct_size == QUANTIZATION_CONFIG_V1_SIZE,
            r.abi_version == CB2VEC_ABI_VERSION,
            r.embedding_scale == QUANT_EMBED_SCALE,
            r.head_scale == QUANT_HEAD_SCALE,
            r.factor_scale == QUANT_FACTOR_SCALE,
            r.flags == 0,
            r.reserved@ == seq![0u32, 0u32],
    {
        let r = Cb2VecQuantizationConfigV1 {
            struct_size: QUANTIZATION_CONFIG_V1_SIZE,
            abi_version: CB2VEC_ABI_VERSION,
            embedding_scale: QUANT_EMBED_SCALE,
            head_scale: QUANT_HEAD_SCALE,
            factor_scale: QUANT_FACTOR_SCALE,
            flags: 0,
            reserved: [0u32, 0u32],
        };
        assert(r.reserved@ =~= seq![0u32, 0u32]);
        r
    }
}

/// Activation and pooling recipe supplied beside an artifact-v1 model.
#[derive(Clone, Copy, Debug, PartialEq, Eq)]
pub struct Cb2VecInferenceConfigV1 {
    pub struct_size: u32,
    pub activation: u32,
    pub pooling: u32,
    pub flags: u32,
}

impl Default for Cb2VecInferenceConfigV1 {
    fn default() -> (r: Self)
        ensures
            r == (Cb2VecInferenceConfigV1 {
                struct_size: INFERENCE_CONFIG_V1_SIZE,
                activation: CB2VEC_ACTIVATION_RELU,
                pooling: CB2VEC_POOLING_MEAN,
                flags: 0,
            }),
    {
        Cb2VecInferenceConfigV1 {
            struct_size: INFERENCE_CONFIG_V1_SIZE,
            activation: CB2VEC_ACTIVATION_RELU,
            pooling: CB2VEC_POOLING_MEAN,
            flags: 0,
        }
    }
}

/// Fixed-layout model metadata.
#[derive(Clone, Copy, Debug, PartialEq, Eq)]
pub struct Cb2VecModelInfoV1 {
    pub struct_size: u32,
    pub abi_version: u32,
    pub artifact_version: u32,
    pub flags: u32,
    pub token_count: u32,
    pub group_count: u32,
    pub dim: u32,
    pub fm_rank: u32,
    pub kind: u32,
    pub activation: u32,
    pub pooling: u32,
    pub embedding_scale: i32,
    pub head_scale: i32,
    pub factor_scale: i32,
    pub reserved: [u32; 2],
}

/// Fixed capacities for one incremental search session.
#[derive(Clone, Copy, Debug, PartialEq, Eq)]
pub struct Cb2VecSessionConfigV1 {
    pub struct_size: u32,
    pub abi_version: u32,
    pub max_sites: u32,
    pub max_token_slots: u32,
    pub max_deltas_per_frame: u32,
    pub max_depth: u32,
    pub flags: u32,
    pub reserved: [u32; 1],
}

impl Default for Cb2VecSessionConfigV1 {
    fn default() -> (r: Self)
        ensures
            r.struct_size == SESSION_CONFIG_V1_SIZE,
            r.abi_version == CB2VEC_ABI_VERSION,
            r.max_sites == 256,
            r.max_token_slots == 1024,
            r.max_deltas_per_frame == 8,
            r.max_depth == 64,
            r.flags == 0,
            r.reserved@ == seq![0u32],
    {
        let r = Cb2VecSessionConfigV1 {
            struct_size: SESSION_CONFIG_V1_SIZE,
            abi_version: CB2VEC_ABI_VERSION,
            max_sites: 256,
            max_token_slots: 1024,
            max_deltas_per_frame: 8,
            max_depth: 64,
            flags: 0,
            reserved: [0u32],
        };
        assert(r.reserved@ =~= seq![0u32]);
        r
    }
}

/// One token replacement in a pushed search frame.
#[derive(Clone, Copy, Debug, Default, PartialEq, Eq)]
pub struct Cb2VecTokenDeltaV1 {
    pub site: u32,
    pub lane: u32,
    pub old_token: u16,
    pub new_token: u16,
}

/// Observable session state.
#[derive(Clone, Copy, Debug, PartialEq, Eq)]
pub struct Cb2VecSessionInfoV1 {
    pub struct_size: u32,
    pub abi_version: u32,
    pub site_count: u32,
    pub token_slots: u32,
    pub group_count: u32,
    pub depth: u32,
    pub materialized_depth: u32,
    pub pending_deltas: u32,
    pub max_sites: u32,
    pub max_token_slots: u32,
    pub max_deltas_per_frame: u32,
    pub max_depth: u32,
    pub activation: u32,
    pub pooling: u32,
    pub flags: u32,
    pub reserved: [u32; 1],
}

impl Default for Cb2VecSessionInfoV1 {
    fn default() -> (r: Self)
        ensures
            r.struct_size == SESSION_INFO_V1_SIZE,
            r.abi_version == CB2VEC_ABI_VERSION,
            r.site_count == 0,
            r.token_slots == 0,
            r.group_count == 0,
            r.depth == 0,
            r.materialized_depth == 0,
            r.pending_deltas == 0,
            r.max_sites == 0,
            r.max_token_slots == 0,
            r.max_deltas_per_frame == 0,
            r.max_depth == 0,
            r.activation == CB2VEC_ACTIVATION_IDENTITY,
            r.pooling == CB2VEC_POOLING_SUM,
            r.flags == 0,
            r.reserved@ == seq![0u32],
    {
        let r = Cb2VecSessionInfoV1 {
            struct_size: SESSION_INFO_V1_SIZE,
            abi_version: CB2VEC_ABI_VERSION,
            site_count: 0,
            token_slots: 0,
            group_count: 0,
            depth: 0,
            materialized_depth: 0,
            pending_deltas: 0,
            max_sites: 0,
            max_token_slots: 0,
            max_deltas_per_frame: 0,
            max_depth: 0,
            activation: CB2VEC_ACTIVATION_IDENTITY,
            pooling: CB2VEC_POOLING_SUM,
            flags: 0,
            reserved: [0u32],
        };
        assert(r.reserved@ =~= seq![0u32]);
        r
    }
}

/// Consumer-defined schema identity written into a version-2 artifact.
#[derive(Clone, Copy, Debug, PartialEq, Eq)]
pub struct Cb2VecArtifactMetadataV1 {
    pub struct_size: u32,
    pub abi_version: u32,
    pub schema_version: u32,
    pub flags: u32,
    pub schema_digest: [u8; 16],
}

impl Default for Cb2VecArtifactMetadataV1 {
    fn default() -> (r: Self)
        ensures
            r.struct_size == ARTIFACT_METADATA_V1_SIZE,
            r.abi_version == CB2VEC_ABI_VERSION,
            r.schema_version == 0,
            r.flags == 0,
            r.schema_digest@ == Seq::new(16, |_i: int| 0u8),
    {
        let r = Cb2VecArtifactMetadataV1 {
            struct_size: ARTIFACT_METADATA_V1_SIZE,
            abi_version: CB2VEC_ABI_VERSION,
            schema_version: 0,
            flags: 0,
            schema_digest: [0u8; 16],
        };
        assert(r.schema_digest@ =~= Seq::new(16, |_i: int| 0u8));
        r
    }
}

/// Everything readable from artifact bytes without building a model.
#[derive(Clone, Copy, Debug, PartialEq, Eq)]
pub struct Cb2VecArtifactInfoV1 {
    pub struct_size: u32,
    pub abi_version: u32,
    pub artifact_version: u32,
    pub kind: u32,
    pub token_count: u32,
    pub group_count: u32,
    pub dim: u32,
    pub fm_rank: u32,
    pub has_inference_config: u32,
    pub activation: u32,
    pub pooling: u32,
    pub schema_version: u32,
    pub embedding_scale: i32,
    pub head_scale: i32,
    pub factor_scale: i32,
    pub flags: u32,
    pub source_sha256: [u8; 32],
    pub schema_digest: [u8; 16],
}

impl Default for Cb2VecArtifactInfoV1 {
    fn default() -> (r: Self)
        ensures
            r.struct_size == ARTIFACT_INFO_V1_SIZE,
            r.abi_version == CB2VEC_ABI_VERSION,
            r.artifact_version == 0,
            r.kind == CB2VEC_MODEL_KIND_FLAT,
            r.token_count == 0,
            r.group_count == 0,
            r.dim == 0,
            r.fm_rank == 0,
            r.has_inference_config == 0,
            r.activation == CB2VEC_ACTIVATION_IDENTITY,
            r.pooling == CB2VEC_POOLING_SUM,
            r.schema_version == 0,
            r.embedding_scale == 0,
            r.head_scale == 0,
            r.factor_scale == 0,
            r.flags == 0,
            r.source_sha256@ == Seq::new(32, |_i: int| 0u8),
            r.schema_digest@ == Seq::new(16, |_i: int| 0u8),
    {
        let r = Cb2VecArtifactInfoV1 {
            struct_size: ARTIFACT_INFO_V1_SIZE,
            abi_version: CB2VEC_ABI_VERSION,
            artifact_version: 0,
            kind: CB2VEC_MODEL_KIND_FLAT,
            token_count: 0,
            group_count: 0,
            dim: 0,
            fm_rank: 0,
            has_inference_config: 0,
            activation: CB2VEC_ACTIVATION_IDENTITY,
            pooling: CB2VEC_POOLING_SUM,
            schema_version: 0,
            embedding_scale: 0,
            head_scale: 0,
            factor_scale: 0,
            flags: 0,
            source_sha256: [0u8; 32],
            schema_digest: [0u8; 16],
        };
        assert(r.source_sha256@ =~= Seq::new(32, |_i: int| 0u8));
        assert(r.schema_digest@ =~= Seq::new(16, |_i: int| 0u8));
        r
    }
}


// ---------------------------------------------------------------------------
// Argument decoding
// ---------------------------------------------------------------------------

/// The error [`decode_shape`] reports, if any, in the order of its checks.
pub open spec fn shape_v1_error(shape: Cb2VecModelShapeV1) -> Option<FfiError> {
    if shape.struct_size != MODEL_SHAPE_V1_SIZE {
        Some(
            FfiError::Abi(
                FfiReason::StructSize {
                    what: "model shape",
                    actual: shape.struct_size,
                    expected: MODEL_SHAPE_V1_SIZE,
                },
            ),
        )
    } else if !abi_supported(shape.abi_version) {
        Some(FfiError::Abi(FfiReason::AbiVersion { what: "model shape", value: shape.abi_version }))
    } else if shape.reserved@[0] != 0 || shape.reserved@[1] != 0 {
        Some(FfiError::Abi(FfiReason::Text("model shape reserved fields must be zero")))
    } else {
        match shape_error(
            shape.token_count as int,
            shape.group_count as int,
            shape.dim as int,
            shape.fm_rank as int,
        ) {
            Some(e) => Some(FfiError::Model(FfiReason::ModelShape(e))),
            None => None,
        }
    }
}

/// Checks a model shape argument and builds the shape it describes.
pub fn decode_shape(shape: Cb2VecModelShapeV1) -> (r: Result<ModelShape, FfiError>)
    ensures
        shape_v1_error(shape) matches Some(e) ==> r == Err::<ModelShape, FfiError>(e),
        shape_v1_error(shape) is None ==> (r matches Ok(s) && s.spec_token_count() == shape.token_count
            && s.spec_group_count() == shape.group_count && s.spec_dim() == shape.dim
            && s.spec_fm_rank() == shape.fm_rank),
{
    if shape.struct_size != MODEL_SHAPE_V1_SIZE {
        return Err(
            FfiError::Abi(
                FfiReason::StructSize {
                    what: "model shape",
                    actual: shape.struct_size,
                    expected: MODEL_SHAPE_V1_SIZE,
                },
            ),
        );
    }
    match check_abi_version(shape.abi_version, "model shape") {
        Ok(()) => {},
        Err(e) => return Err(e),
    }
    if shape.reserved[0] != 0 || shape.reserved[1] != 0 {
        return Err(FfiError::Abi(FfiReason::Text("model shape reserved fields must be zero")));
    }
    match ModelShape::new(
        shape.token_count as usize,
        shape.group_count as usize,
        shape.dim as usize,
        shape.fm_rank as usize,
    ) {
        Ok(s) => Ok(s),
        Err(e) => Err(FfiError::Model(FfiReason::ModelShape(e))),
    }
}

/// The error [`decode_quantization`] reports, if any.
pub open spec fn quantization_v1_error(config: Cb2VecQuantizationConfigV1) -> Option<FfiError> {
    if config.struct_size != QUANTIZATION_CONFIG_V1_SIZE {
        Some(
            FfiError::Abi(
                FfiReason::StructSize {
                    what: "quantization config",
                    actual: config.struct_size,
                    expected: QUANTIZATION_CONFIG_V1_SIZE,
                },
            ),
        )
    } else if !abi_supported(config.abi_version) {
        Some(
            FfiError::Abi(
                FfiReason::AbiVersion { what: "quantization config", value: config.abi_version },
            ),
        )
    } else if config.flags != 0 || config.reserved@[0] != 0 || config.reserved@[1] != 0 {
        Some(FfiError::Abi(FfiReason::Text("quantization flags and reserved fields must be zero")))
    } else if config.embedding_scale <= 0 || config.head_scale <= 0 || config.factor_scale <= 0 {
        Some(FfiError::Invalid(FfiReason::Text("quantization scales must all be positive")))
    } else {
        None
    }
}

/// Checks a quantization argument.
pub fn decode_quantization(config: Cb2VecQuantizationConfigV1) -> (r: Result<
    Cb2VecQuantizationConfigV1,
    FfiError,
>)
    ensures
        quantization_v1_error(config) matches Some(e) ==> r == Err::<Cb2VecQuantizationConfigV1, FfiError>(e),
        quantization_v1_error(config) is None ==> r == Ok::<Cb2VecQuantizationConfigV1, FfiError>(config),
{
    if config.struct_size != QUANTIZATION_CONFIG_V1_SIZE {
        return Err(
            FfiError::Abi(
                FfiReason::StructSize {
                    what: "quantization config",
                    actual: config.struct_size,
                    expected: QUANTIZATION_CONFIG_V1_SIZE,
                },
            ),
        );
    }
    match check_abi_version(config.abi_version, "quantization config") {
        Ok(()) => {},
        Err(e) => return Err(e),
    }
    if config.flags != 0 || config.reserved[0] != 0 || config.reserved[1] != 0 {
        return Err(FfiError::Abi(FfiReason::Text("quantization flags and reserved fields must be zero")));
    }
    if config.embedding_scale <= 0 || config.head_scale <= 0 || config.factor_scale <= 0 {
        return Err(FfiError::Invalid(FfiReason::Text("quantization scales must all be positive")));
    }
    Ok(config)
}

/// The error [`decode_inference`] reports, if any.
pub open spec fn inference_v1_error(config: Cb2VecInferenceConfigV1) -> Option<FfiError> {
    if config.struct_size != INFERENCE_CONFIG_V1_SIZE {
        Some(
            FfiError::Abi(
                FfiReason::StructSize {
                    what: "inference config",
                    actual: config.struct_size,
                    expected: INFERENCE_CONFIG_V1_SIZE,
                },
            ),
        )
    } else if config.flags != 0 {
        Some(FfiError::Abi(FfiReason::Text("inference config flags must be zero")))
    } else if activation_of_code(config.activation) is None {
        Some(FfiError::Invalid(FfiReason::UnsupportedValue { what: "activation", value: config.activation }))
    } else if pooling_of_code(config.pooling) is None {
        Some(FfiError::Invalid(FfiReason::UnsupportedValue { what: "pooling", value: config.pooling }))
    } else {
        None
    }
}

/// Checks an inference recipe argument and builds the recipe.
pub fn decode_inference(config: Cb2VecInferenceConfigV1) -> (r: Result<InferenceConfig, FfiError>)
    ensures
        inference_v1_error(config) matches Some(e) ==> r == Err::<InferenceConfig, FfiError>(e),
        inference_v1_error(config) is None ==> r == Ok::<InferenceConfig, FfiError>(
            InferenceConfig {
                activation: activation_of_code(config.activation)->0,
                pooling: pooling_of_code(config.pooling)->0,
            },
        ),
{
    if config.struct_size != INFERENCE_CONFIG_V1_SIZE {
        return Err(
            FfiError::Abi(
                FfiReason::StructSize {
                    what: "inference config",
                    actual: config.struct_size,
                    expected: INFERENCE_CONFIG_V1_SIZE,
                },
            ),
        );
    }
    if config.flags != 0 {
        return Err(FfiError::Abi(FfiReason::Text("inference config flags must be zero")));
    }
    let activation = match activation_from_ffi(config.activation) {
        Ok(a) => a,
        Err(e) => return Err(e),
    };
    let pooling = match pooling_from_ffi(config.pooling) {
        Ok(p) => p,
        Err(e) => return Err(e),
    };
    Ok(InferenceConfig::new(activation, pooling))
}

/// The error [`decode_session_config`] reports, if any.
pub open spec fn session_config_v1_error(config: Cb2VecSessionConfigV1) -> Option<FfiError> {
    if config.struct_size != SESSION_CONFIG_V1_SIZE {
        Some(
            FfiError::Abi(
                FfiReason::StructSize {
                    what: "session config",
                    actual: config.struct_size,
                    expected: SESSION_CONFIG_V1_SIZE,
                },
            ),
        )
    } else if !abi_supported(config.abi_version) {
        Some(FfiError::Abi(FfiReason::AbiVersion { what: "session config", value: config.abi_version }))
    } else if config.flags != 0 || config.reserved@[0] != 0 {
        Some(FfiError::Abi(FfiReason::Text("session config flags and reserved fields must be zero")))
    } else {
        None
    }
}

/// Checks a session configuration argument and builds the limits it asks for.
pub fn decode_session_config(config: Cb2VecSessionConfigV1) -> (r: Result<SessionLimits, FfiError>)
    ensures
        session_config_v1_error(config) matches Some(e) ==> r == Err::<SessionLimits, FfiError>(e),
        session_config_v1_error(config) is None ==> r == Ok::<SessionLimits, FfiError>(
            SessionLimits {
                max_sites: config.max_sites as usize,
                max_token_slots: config.max_token_slots as usize,
                max_deltas_per_frame: config.max_deltas_per_frame as usize,
                max_depth: config.max_depth as usize,
            },
        ),
{
    if config.struct_size != SESSION_CONFIG_V1_SIZE {
        return Err(
            FfiError::Abi(
                FfiReason::StructSize {
                    what: "session config",
                    actual: config.struct_size,
                    expected: SESSION_CONFIG_V1_SIZE,
                },
            ),
        );
    }
    match check_abi_version(config.abi_version, "session config") {
        Ok(()) => {},
        Err(e) => return Err(e),
    }
    if config.flags != 0 || config.reserved[0] != 0 {
        return Err(FfiError::Abi(FfiReason::Text("session config flags and reserved fields must be zero")));
    }
    Ok(
        SessionLimits::new(
            config.max_sites as usize,
            config.max_token_slots as usize,
            config.max_deltas_per_frame as usize,
            config.max_depth as usize,
        ),
    )
}

/// Narrows a count to the `u32` field that reports it.
fn shape_field(value: usize, name: &'static str) -> (r: Result<u32, FfiError>)
    ensures
        value <= u32::MAX ==> r == Ok::<u32, FfiError>(value as u32),
        value > u32::MAX ==> r == Err::<u32, FfiError>(FfiError::Model(FfiReason::FieldOverflow(name))),
{
    if value <= 0xFFFF_FFFFusize {
        Ok(value as u32)
    } else {
        Err(FfiError::Model(FfiReason::FieldOverflow(name)))
    }
}

/// The first of the reported counts that does not fit `u32`, in field order.
pub open spec fn session_info_overflow(info: SessionInfo) -> Option<&'static str> {
    if info.site_count > u32::MAX {
        Some("site_count")
    } else if info.token_slots > u32::MAX {
        Some("token_slots")
    } else if info.group_count > u32::MAX {
        Some("group_count")
    } else if info.depth > u32::MAX {
        Some("depth")
    } else if info.materialized_depth > u32::MAX {
        Some("materialized_depth")
    } else if info.pending_deltas > u32::MAX {
        Some("pending_deltas")
    } else if info.limits.max_sites > u32::MAX {
        Some("max_sites")
    } else if info.limits.max_token_slots > u32::MAX {
        Some("max_token_slots")
    } else if info.limits.max_deltas_per_frame > u32::MAX {
        Some("max_deltas_per_frame")
    } else if info.limits.max_depth > u32::MAX {
        Some("max_depth")
    } else {
        None
    }
}

/// Reports session state in the fixed layout.
pub fn session_info_v1(info: SessionInfo, inference: InferenceConfig) -> (r: Result<
    Cb2VecSessionInfoV1,
    FfiError,
>)
    ensures
        session_info_overflow(info) matches Some(name) ==> r == Err::<Cb2VecSessionInfoV1, FfiError>(
            FfiError::Model(FfiReason::FieldOverflow(name)),
        ),
        session_info_overflow(info) is None ==> (r matches Ok(out) && out.struct_size
            == SESSION_INFO_V1_SIZE && out.abi_version == CB2VEC_ABI_VERSION && out.site_count
            == info.site_count && out.token_slots == info.token_slots && out.group_count
            == info.group_count && out.depth == info.depth && out.materialized_depth
            == info.materialized_depth && out.pending_deltas == info.pending_deltas
            && out.max_sites == info.limits.max_sites && out.max_token_slots
            == info.limits.max_token_slots && out.max_deltas_per_frame
            == info.limits.max_deltas_per_frame && out.max_depth == info.limits.max_depth
            && activation_of_code(out.activation) == Some(inference.activation) && pooling_of_code(
            out.pooling,
        ) == Some(inference.pooling) && out.flags == 0 && out.reserved@ == seq![0u32]),
{
    let site_count = match shape_field(info.site_count, "site_count") {
        Ok(v) => v,
        Err(e) => return Err(e),
    };
    let token_slots = match shape_field(info.token_slots, "token_slots") {
        Ok(v) => v,
        Err(e) => return Err(e),
    };
    let group_count = match shape_field(info.group_count, "group_count") {
        Ok(v) => v,
        Err(e) => return Err(e),
    };
    let depth = match shape_field(info.depth, "depth") {
        Ok(v) => v,
        Err(e) => return Err(e),
    };
    let materialized_depth = match shape_field(info.materialized_depth, "materialized_depth") {
        Ok(v) => v,
        Err(e) => return Err(e),
    };
    let pending_deltas = match shape_field(info.pending_deltas, "pending_deltas") {
        Ok(v) => v,
        Err(e) => return Err(e),
    };
    let max_sites = match shape_field(info.limits.max_sites, "max_sites") {
        Ok(v) => v,
        Err(e) => return Err(e),
    };
    let max_token_slots = match shape_field(info.limits.max_token_slots, "max_token_slots") {
        Ok(v) => v,
        Err(e) => return Err(e),
    };
    let max_deltas_per_frame = match shape_field(info.limits.max_deltas_per_frame, "max_deltas_per_frame") {
        Ok(v) => v,
        Err(e) => return Err(e),
    };
    let max_depth = match shape_field(info.limits.max_depth, "max_depth") {
        Ok(v) => v,
        Err(e) => return Err(e),
    };
    let mut out = Cb2VecSessionInfoV1::default();
    out.site_count = site_count;
    out.token_slots = token_slots;
    out.group_count = group_count;
    out.depth = depth;
    out.materialized_depth = materialized_depth;
    out.pending_deltas = pending_deltas;
    out.max_sites = max_sites;
    out.max_token_slots = max_token_slots;
    out.max_deltas_per_frame = max_deltas_per_frame;
    out.max_depth = max_depth;
    out.activation = activation_to_ffi(inference.activation);
    out.pooling = pooling_to_ffi(inference.pooling);
    Ok(out)
}


/// Byte length of `len` elements of `T`.
pub open spec fn slice_bytes<T>(len: int) -> int {
    vstd::layout::size_of::<T>() * len
}

/// Checks that `len` elements of `T` can form one Rust slice.
pub fn validate_slice_len<T>(len: usize, name: &'static str) -> (r: Result<(), FfiError>)
    ensures
        slice_bytes::<T>(len as int) > usize::MAX ==> r == Err::<(), FfiError>(
            FfiError::Invalid(FfiReason::ByteLengthOverflow(name)),
        ),
        isize::MAX < slice_bytes::<T>(len as int) <= usize::MAX ==> r == Err::<(), FfiError>(
            FfiError::Invalid(FfiReason::SliceTooLarge(name)),
        ),
        slice_bytes::<T>(len as int) <= isize::MAX ==> r is Ok,
{
    let element = core::mem::size_of::<T>();
    let bytes = match element.checked_mul(len) {
        Some(bytes) => bytes,
        None => return Err(FfiError::Invalid(FfiReason::ByteLengthOverflow(name))),
    };
    if bytes > isize::MAX as usize {
        return Err(FfiError::Invalid(FfiReason::SliceTooLarge(name)));
    }
    Ok(())
}

/// Decides whether a caller's output buffer can take `required` bytes.
///
/// A null buffer with zero capacity is a size query, answered with the
/// required size; a null buffer with a capacity is a null-pointer error.
pub fn check_output_buffer(required: usize, out_is_null: bool, capacity: u32) -> (r: Result<(), FfiError>)
    ensures
        out_is_null && capacity == 0 ==> r == Err::<(), FfiError>(
            FfiError::BufferTooSmall { required, capacity: 0 },
        ),
        out_is_null && capacity != 0 ==> r == Err::<(), FfiError>(FfiError::Null("out_bytes")),
        !out_is_null && capacity < required ==> r == Err::<(), FfiError>(
            FfiError::BufferTooSmall { required, capacity: capacity as usize },
        ),
        !out_is_null && capacity >= required ==> r is Ok,
{
    if out_is_null {
        if capacity == 0 {
            return Err(FfiError::BufferTooSmall { required, capacity: 0 });
        }
        return Err(FfiError::Null("out_bytes"));
    }
    if (capacity as usize) < required {
        return Err(FfiError::BufferTooSmall { required, capacity: capacity as usize });
    }
    Ok(())
}

// ---------------------------------------------------------------------------
// Flattened batches
// ---------------------------------------------------------------------------

/// Rejects an empty flattened batch before any of its buffers is read.
pub fn check_sample_count(sample_count: u32) -> (r: Result<(), FfiError>)
    ensures
        sample_count == 0 ==> r == Err::<(), FfiError>(
            FfiError::Invalid(FfiReason::Text("sample_count must be non-zero")),
        ),
        sample_count > 0 ==> r is Ok,
{
    if sample_count == 0 {
        return Err(FfiError::Invalid(FfiReason::Text("sample_count must be non-zero")));
    }
    Ok(())
}

/// A `u32` table as integers.
pub open spec fn table_ints(table: Seq<u32>) -> Seq<int> {
    table.map_values(|v: u32| v as int)
}

/// The error [`batch_inputs`] reports for a flattened batch, if any: the
/// global site table is checked first, then the per-sample site table.
pub open spec fn batch_error(
    tokens: Seq<u16>,
    site_offsets: Seq<u32>,
    site_groups: Seq<u32>,
    sample_offsets: Seq<u32>,
) -> Option<FfiError> {
    let sites = site_groups.len() as int;
    let samples = sample_offsets.len() - 1;
    if site_offsets[0] != 0 {
        Some(FfiError::Invalid(FfiReason::Text("site_offsets must start at zero")))
    } else if site_offsets[sites] as int != tokens.len() {
        Some(
            FfiError::Invalid(
                FfiReason::TableEnd {
                    table: "site_offsets",
                    bound: "tokens_len",
                    end: tokens.len() as usize,
                },
            ),
        )
    } else if first_decrease(table_ints(site_offsets), sites) is Some {
        Some(FfiError::Invalid(FfiReason::Text("site_offsets must be monotonic")))
    } else if sample_offsets[0] != 0 {
        Some(FfiError::Invalid(FfiReason::Text("sample_site_offsets must start at zero")))
    } else if sample_offsets[samples] as int != sites {
        Some(
            FfiError::Invalid(
                FfiReason::TableEnd {
                    table: "sample_site_offsets",
                    bound: "total_site_count",
                    end: sites as usize,
                },
            ),
        )
    } else if first_decrease(table_ints(sample_offsets), samples) is Some {
        Some(FfiError::Invalid(FfiReason::Text("sample_site_offsets must be monotonic")))
    } else {
        None
    }
}

/// Tokens of sample `k`: the token range of its sites.
pub open spec fn sample_tokens(tokens: Seq<u16>, site_offsets: Seq<u32>, sample_offsets: Seq<u32>, k: int) -> Seq<u16> {
    tokens.subrange(
        site_offsets[sample_offsets[k] as int] as int,
        site_offsets[sample_offsets[k + 1] as int] as int,
    )
}

/// Site offsets of sample `k`, rebased to its first token.
pub open spec fn sample_site_offsets(site_offsets: Seq<u32>, sample_offsets: Seq<u32>, k: int) -> Seq<int> {
    let first = sample_offsets[k] as int;
    let last = sample_offsets[k + 1] as int;
    Seq::new(
        (last - first + 1) as nat,
        |j: int| site_offsets[first + j] - site_offsets[first],
    )
}

/// Site groups of sample `k`.
pub open spec fn sample_site_groups(site_groups: Seq<u32>, sample_offsets: Seq<u32>, k: int) -> Seq<int> {
    table_ints(site_groups.subrange(sample_offsets[k] as int, sample_offsets[k + 1] as int))
}

/// Every adjacent pair of `table[.. n + 1]` is ordered, so every pair is.
proof fn lemma_table_monotone(table: Seq<u32>, n: int)
    requires
        0 <= n < table.len(),
        first_decrease(table_ints(table), n) is None,
    ensures
        forall|i: int, j: int| 0 <= i <= j <= n ==> table[i] <= table[j],
{
    let ints = table_ints(table);
    lemma_first_decrease(ints, n);
    lemma_monotone(ints, n);
    assert forall|i: int, j: int| 0 <= i <= j <= n implies table[i] <= table[j] by {
        assert(ints[i] <= ints[j]);
    }
}

/// Finds the first decreasing adjacent pair of `table[.. n + 1]`.
fn table_is_monotone(table: &[u32], n: usize) -> (r: bool)
    requires
        n < table@.len(),
    ensures
        r == (first_decrease(table_ints(table@), n as int) is None),
{
    let ghost ints = table_ints(table@);
    let mut i: usize = 0;
    while i < n
        invariant
            0 <= i <= n,
            n < table@.len(),
            ints == table_ints(table@),
            first_decrease(ints, i as int) is None,
        decreases n - i,
    {
        if table[i] > table[i + 1] {
            proof {
                assert(first_decrease(ints, i as int + 1) == Some(i as int));
                lemma_first_decrease_stable(ints, i as int + 1, n as int);
            }
            return false;
        }
        i += 1;
    }
    true
}

/// Splits a flattened batch into one site-preserving input per sample.
///
/// `site_offsets` is the global token prefix table of every site and
/// `sample_offsets` the prefix table delimiting the sites of each sample.
#[verifier::loop_isolation(false)]
pub fn batch_inputs(
    tokens: &[u16],
    site_offsets: &[u32],
    site_groups: &[u32],
    sample_offsets: &[u32],
) -> (r: Result<Vec<GroupedTokens>, FfiError>)
    requires
        site_offsets@.len() == site_groups@.len() + 1,
        sample_offsets@.len() >= 2,
    ensures
        batch_error(tokens@, site_offsets@, site_groups@, sample_offsets@) matches Some(e) ==> r
            == Err::<Vec<GroupedTokens>, FfiError>(e),
        batch_error(tokens@, site_offsets@, site_groups@, sample_offsets@) is None ==> (r matches Ok(
            inputs,
        ) && inputs@.len() == sample_offsets@.len() - 1 && forall|k: int|
            0 <= k < inputs@.len() ==> {
                &&& (#[trigger] inputs@[k]).spec_tokens() == sample_tokens(
                    tokens@,
                    site_offsets@,
                    sample_offsets@,
                    k,
                )
                &&& inputs@[k].spec_offsets() == sample_site_offsets(site_offsets@, sample_offsets@, k)
                &&& inputs@[k].spec_groups() == sample_site_groups(site_groups@, sample_offsets@, k)
            }),
{
    let sites = site_groups.len();
    let samples = sample_offsets.len() - 1;
    let token_len = tokens.len();
    if site_offsets[0] != 0 {
        return Err(FfiError::Invalid(FfiReason::Text("site_offsets must start at zero")));
    }
    if site_offsets[sites] as usize != token_len {
        return Err(
            FfiError::Invalid(
                FfiReason::TableEnd { table: "site_offsets", bound: "tokens_len", end: token_len },
            ),
        );
    }
    if !table_is_monotone(site_offsets, sites) {
        return Err(FfiError::Invalid(FfiReason::Text("site_offsets must be monotonic")));
    }
    if sample_offsets[0] != 0 {
        return Err(FfiError::Invalid(FfiReason::Text("sample_site_offsets must start at zero")));
    }
    if sample_offsets[samples] as usize != sites {
        return Err(
            FfiError::Invalid(
                FfiReason::TableEnd {
                    table: "sample_site_offsets",
                    bound: "total_site_count",
                    end: sites,
                },
            ),
        );
    }
    if !table_is_monotone(sample_offsets, samples) {
        return Err(FfiError::Invalid(FfiReason::Text("sample_site_offsets must be monotonic")));
    }
    proof {
        lemma_table_monotone(site_offsets@, sites as int);
        lemma_table_monotone(sample_offsets@, samples as int);
    }
    let mut inputs: Vec<GroupedTokens> = Vec::new();
    let mut sample: usize = 0;
    while sample < samples
        invariant
            0 <= sample <= samples,
            inputs@.len() == sample,
            forall|k: int|
                0 <= k < sample ==> {
                    &&& (#[trigger] inputs@[k]).spec_tokens() == sample_tokens(
                        tokens@,
                        site_offsets@,
                        sample_offsets@,
                        k,
                    )
                    &&& inputs@[k].spec_offsets() == sample_site_offsets(
                        site_offsets@,
                        sample_offsets@,
                        k,
                    )
                    &&& inputs@[k].spec_groups() == sample_site_groups(
                        site_groups@,
                        sample_offsets@,
                        k,
                    )
                },
        decreases samples - sample,
    {
        let first_site = sample_offsets[sample] as usize;
        let last_site = sample_offsets[sample + 1] as usize;
        assert(sample_offsets@[0] <= sample_offsets@[sample as int] <= sample_offsets@[sample as int + 1]
            <= sample_offsets@[samples as int]);
        let first_token = site_offsets[first_site] as usize;
        let last_token = site_offsets[last_site] as usize;
        assert(site_offsets@[first_site as int] <= site_offsets@[last_site as int]
            <= site_offsets@[sites as int]);
        let mut local_tokens: Vec<u16> = Vec::new();
        let mut t = first_token;
        while t < last_token
            invariant
                first_token <= t <= last_token,
                last_token <= token_len,
                local_tokens@ == tokens@.subrange(first_token as int, t as int),
            decreases last_token - t,
        {
            local_tokens.push(tokens[t]);
            t += 1;
            assert(local_tokens@ =~= tokens@.subrange(first_token as int, t as int));
        }
        let mut local_offsets: Vec<usize> = Vec::new();
        let mut j = first_site;
        while j <= last_site
            invariant
                first_site <= j <= last_site + 1,
                last_site <= sites,
                local_offsets@.len() == j - first_site,
                forall|m: int|
                    0 <= m < j - first_site ==> #[trigger] local_offsets@[m] as int == site_offsets@[first_site + m]
                        - first_token,
            decreases last_site + 1 - j,
        {
            assert(site_offsets@[first_site as int] <= site_offsets@[j as int]);
            local_offsets.push(site_offsets[j] as usize - first_token);
            j += 1;
        }
        let mut local_groups: Vec<usize> = Vec::new();
        let mut j = first_site;
        while j < last_site
            invariant
                first_site <= j <= last_site,
                last_site <= sites,
                local_groups@.len() == j - first_site,
                forall|m: int|
                    0 <= m < j - first_site ==> #[trigger] local_groups@[m] as int == site_groups@[first_site + m] as int,
            decreases last_site - j,
        {
            local_groups.push(site_groups[j] as usize);
            j += 1;
        }
        let ghost expected_offsets = sample_site_offsets(site_offsets@, sample_offsets@, sample as int);
        let ghost expected_groups = sample_site_groups(site_groups@, sample_offsets@, sample as int);
        proof {
            let lo = local_offsets@.map_values(|o: usize| o as int);
            assert(lo =~= expected_offsets);
            let lg = local_groups@.map_values(|g: usize| g as int);
            assert(lg =~= expected_groups);
            let n = (last_site - first_site) as int;
            assert forall|i: int| 0 <= i < n implies #[trigger] step_ok(lo, i) by {
                assert(site_offsets@[first_site + i] <= site_offsets@[first_site + i + 1]);
            }
            lemma_first_decrease(lo, n);
            assert(structure_issue(local_tokens@.len() as int, lo, lg.len() as int) is None);
        }
        let input = match GroupedTokens::new(local_tokens, local_offsets, local_groups) {
            Ok(input) => input,
            Err(issue) => return Err(FfiError::Invalid(FfiReason::Sample { sample, issue })),
        };
        inputs.push(input);
        sample += 1;
    }
    Ok(inputs)
}

} // verus!
