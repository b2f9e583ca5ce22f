use cb2vec::abi::{
    activation_from_ffi, activation_to_ffi, batch_inputs, check_output_buffer, check_abi_version, check_sample_count,
    decode_inference, decode_quantization, decode_session_config, decode_shape, loss_from_ffi,
    loss_to_ffi, map_checkpoint_error, map_session_error, pooling_from_ffi, pooling_to_ffi,
    session_info_v1, Cb2VecInferenceConfigV1, Cb2VecModelShapeV1, Cb2VecQuantizationConfigV1,
    Cb2VecSessionConfigV1, Cb2VecSessionInfoV1, FfiError, FfiReason, CB2VEC_ABI_VERSION,
    CB2VEC_ABI_VERSION_1_0, CB2VEC_ERROR_ABI_MISMATCH, CB2VEC_ERROR_BUFFER_TOO_SMALL, CB2VEC_ERROR_CHECKPOINT,
    CB2VEC_ERROR_INVALID_ARGUMENT, CB2VEC_ERROR_LIMIT_EXCEEDED, CB2VEC_ERROR_MODEL,
    CB2VEC_ERROR_NULL_POINTER, CB2VEC_ERROR_OUT_OF_MEMORY, CB2VEC_ERROR_STATE,
};
use cb2vec::checkpoint::CheckpointError;
use cb2vec::model::ModelError;
use cb2vec::session::{SessionError, SessionInfo, SessionLimits};
use cb2vec::trainer::{Activation, InferenceConfig, Loss, Pooling};

#[test]
fn abi_1_0_structs_are_still_accepted() {
    // A consumer compiled against ABI 1.0 keeps working unchanged: it
    // stamps 0x00010000 into every versioned struct it fills in itself.
    let shape = Cb2VecModelShapeV1 {
        abi_version: CB2VEC_ABI_VERSION_1_0,
        token_count: 4,
        group_count: 2,
        dim: 3,
        fm_rank: 1,
        ..Cb2VecModelShapeV1::default()
    };
    let quantization = Cb2VecQuantizationConfigV1 {
        abi_version: CB2VEC_ABI_VERSION_1_0,
        ..Cb2VecQuantizationConfigV1::default()
    };
    assert!(decode_shape(shape).is_ok());
    assert!(decode_quantization(quantization).is_ok());

    // A future minor, and any other major, are rejected.
    for rejected in [0x0001_0002u32, 0x0002_0000, 0x0000_0001] {
        assert!(matches!(
            decode_shape(Cb2VecModelShapeV1 {
                abi_version: rejected,
                ..shape
            }),
            Err(FfiError::Abi(_)),
        ));
    }
}

#[test]
fn version_check_accepts_exactly_the_published_revisions() {
    assert_eq!(check_abi_version(CB2VEC_ABI_VERSION, "shape"), Ok(()));
    assert_eq!(check_abi_version(CB2VEC_ABI_VERSION_1_0, "shape"), Ok(()));
    assert_eq!(
        check_abi_version(0x0001_0002, "session config"),
        Err(FfiError::Abi(FfiReason::AbiVersion {
            what: "session config",
            value: 0x0001_0002,
        }))
    );
}

#[test]
fn shape_decoding_checks_layout_then_version_then_dimensions() {
    let shape = Cb2VecModelShapeV1::default();
    let decoded = decode_shape(shape).unwrap();
    assert_eq!(
        [decoded.token_count(), decoded.group_count(), decoded.dim(), decoded.fm_rank()],
        [2, 1, 8, 0]
    );
    assert_eq!(
        decode_shape(Cb2VecModelShapeV1 {
            struct_size: 28,
            abi_version: 7,
            ..shape
        }),
        Err(FfiError::Abi(FfiReason::StructSize {
            what: "model shape",
            actual: 28,
            expected: 32,
        }))
    );
    assert_eq!(
        decode_shape(Cb2VecModelShapeV1 {
            reserved: [0, 1],
            ..shape
        }),
        Err(FfiError::Abi(FfiReason::Text(
            "model shape reserved fields must be zero"
        )))
    );
    let zero_dim = decode_shape(Cb2VecModelShapeV1 { dim: 0, ..shape }).unwrap_err();
    assert_eq!(
        zero_dim,
        FfiError::Model(FfiReason::ModelShape(ModelError::ZeroDimension("dim")))
    );
    assert_eq!(zero_dim.status(), CB2VEC_ERROR_MODEL);
}

#[test]
fn quantization_scales_must_be_positive() {
    let config = Cb2VecQuantizationConfigV1::default();
    assert_eq!(decode_quantization(config), Ok(config));
    assert_eq!(
        [config.embedding_scale, config.head_scale, config.factor_scale],
        [32, 64, 64]
    );
    let error = decode_quantization(Cb2VecQuantizationConfigV1 {
        head_scale: 0,
        ..config
    })
    .unwrap_err();
    assert_eq!(
        error,
        FfiError::Invalid(FfiReason::Text("quantization scales must all be positive"))
    );
    assert_eq!(error.status(), CB2VEC_ERROR_INVALID_ARGUMENT);
    assert_eq!(
        decode_quantization(Cb2VecQuantizationConfigV1 { flags: 1, ..config }),
        Err(FfiError::Abi(FfiReason::Text(
            "quantization flags and reserved fields must be zero"
        )))
    );
}

#[test]
fn inference_and_session_configs_decode() {
    assert_eq!(
        decode_inference(Cb2VecInferenceConfigV1::default()),
        Ok(InferenceConfig::new(Activation::Relu, Pooling::Mean))
    );
    assert_eq!(
        decode_inference(Cb2VecInferenceConfigV1 {
            pooling: 5,
            ..Cb2VecInferenceConfigV1::default()
        }),
        Err(FfiError::Invalid(FfiReason::UnsupportedValue {
            what: "pooling",
            value: 5,
        }))
    );
    assert_eq!(
        decode_session_config(Cb2VecSessionConfigV1::default()),
        Ok(SessionLimits::new(256, 1024, 8, 64))
    );
    let error = decode_session_config(Cb2VecSessionConfigV1 {
        reserved: [3],
        ..Cb2VecSessionConfigV1::default()
    })
    .unwrap_err();
    assert_eq!(error.status(), CB2VEC_ERROR_ABI_MISMATCH);
}

#[test]
fn enumeration_codes_round_trip() {
    for activation in [Activation::Identity, Activation::Relu] {
        assert_eq!(activation_from_ffi(activation_to_ffi(activation)), Ok(activation));
    }
    for pooling in [Pooling::Sum, Pooling::Mean] {
        assert_eq!(pooling_from_ffi(pooling_to_ffi(pooling)), Ok(pooling));
    }
    for loss in [Loss::BinaryCrossEntropyWithLogits, Loss::MeanSquaredError] {
        assert_eq!(loss_from_ffi(loss_to_ffi(loss)), Ok(loss));
    }
    assert_eq!(
        loss_from_ffi(2),
        Err(FfiError::Invalid(FfiReason::UnsupportedValue {
            what: "loss",
            value: 2,
        }))
    );
    assert!(activation_from_ffi(9).is_err());
}

#[test]
fn session_errors_map_to_actionable_statuses() {
    let cases = [
        (
            SessionError::Model(ModelError::NonFinite("bias")),
            CB2VEC_ERROR_MODEL,
        ),
        (
            SessionError::LimitExceeded {
                field: "depth",
                requested: 2,
                limit: 1,
            },
            CB2VEC_ERROR_LIMIT_EXCEEDED,
        ),
        (SessionError::NotReady, CB2VEC_ERROR_STATE),
        (SessionError::EmptyStack, CB2VEC_ERROR_STATE),
        (
            SessionError::AllocationFailed {
                collection: "site sums",
                requested: 8,
            },
            CB2VEC_ERROR_OUT_OF_MEMORY,
        ),
        (
            SessionError::DuplicateSlot { site: 0, lane: 0 },
            CB2VEC_ERROR_INVALID_ARGUMENT,
        ),
    ];
    for (error, status) in cases {
        assert_eq!(map_session_error(error).status(), status);
    }
    assert_eq!(
        map_checkpoint_error(CheckpointError::InvalidMagic).status(),
        CB2VEC_ERROR_CHECKPOINT
    );
}

#[test]
fn session_info_reports_every_field() {
    let info = SessionInfo {
        site_count: 5,
        token_slots: 9,
        group_count: 3,
        depth: 2,
        materialized_depth: 1,
        pending_deltas: 4,
        limits: SessionLimits::new(8, 16, 6, 12),
    };
    let inference = InferenceConfig::new(Activation::Relu, Pooling::Mean);
    let out = session_info_v1(info, inference).unwrap();
    assert_eq!(
        out,
        Cb2VecSessionInfoV1 {
            site_count: 5,
            token_slots: 9,
            group_count: 3,
            depth: 2,
            materialized_depth: 1,
            pending_deltas: 4,
            max_sites: 8,
            max_token_slots: 16,
            max_deltas_per_frame: 6,
            max_depth: 12,
            activation: 1,
            pooling: 1,
            ..Cb2VecSessionInfoV1::default()
        }
    );
    let wide = SessionInfo {
        pending_deltas: u32::MAX as usize + 1,
        ..info
    };
    assert_eq!(
        session_info_v1(wide, inference),
        Err(FfiError::Model(FfiReason::FieldOverflow("pending_deltas")))
    );
}

#[test]
fn flattened_batches_split_into_samples() {
    assert_eq!(
        check_sample_count(0),
        Err(FfiError::Invalid(FfiReason::Text(
            "sample_count must be non-zero"
        )))
    );
    assert_eq!(check_sample_count(2), Ok(()));

    let tokens = [0u16, 0, 1, 2, 3, 1];
    let site_offsets = [0u32, 2, 3, 3, 4, 6];
    let site_groups = [0u32, 0, 1, 0, 1];
    let sample_offsets = [0u32, 3, 5];
    let inputs = batch_inputs(&tokens, &site_offsets, &site_groups, &sample_offsets).unwrap();
    assert_eq!(inputs.len(), 2);
    assert_eq!(inputs[0].tokens(), &[0, 0, 1]);
    assert_eq!(inputs[0].site_offsets(), &[0, 2, 3, 3]);
    assert_eq!(inputs[0].site_groups(), &[0, 0, 1]);
    assert_eq!(inputs[1].tokens(), &[2, 3, 1]);
    assert_eq!(inputs[1].site_offsets(), &[0, 1, 3]);
    assert_eq!(inputs[1].site_groups(), &[0, 1]);

    assert_eq!(
        batch_inputs(&tokens, &[0, 2, 3, 3, 4, 5], &site_groups, &sample_offsets),
        Err(FfiError::Invalid(FfiReason::TableEnd {
            table: "site_offsets",
            bound: "tokens_len",
            end: 6,
        }))
    );
    assert_eq!(
        batch_inputs(&tokens, &[0, 3, 2, 3, 4, 6], &site_groups, &sample_offsets),
        Err(FfiError::Invalid(FfiReason::Text(
            "site_offsets must be monotonic"
        )))
    );
    assert_eq!(
        batch_inputs(&tokens, &site_offsets, &site_groups, &[0, 4, 3]),
        Err(FfiError::Invalid(FfiReason::TableEnd {
            table: "sample_site_offsets",
            bound: "total_site_count",
            end: 5,
        }))
    );
    assert_eq!(
        batch_inputs(&tokens, &site_offsets, &site_groups, &[1, 3, 5]),
        Err(FfiError::Invalid(FfiReason::Text(
            "sample_site_offsets must start at zero"
        )))
    );
    assert_eq!(
        batch_inputs(&tokens, &site_offsets, &site_groups, &[0, 4, 3, 5]),
        Err(FfiError::Invalid(FfiReason::Text(
            "sample_site_offsets must be monotonic"
        )))
    );
}

#[test]
fn output_buffers_are_sized_before_writing() {
    let query = check_output_buffer(600, true, 0).unwrap_err();
    assert_eq!(
        query,
        FfiError::BufferTooSmall {
            required: 600,
            capacity: 0,
        }
    );
    assert_eq!(query.status(), CB2VEC_ERROR_BUFFER_TOO_SMALL);
    assert_eq!(
        check_output_buffer(600, true, 600).unwrap_err().status(),
        CB2VEC_ERROR_NULL_POINTER
    );
    assert_eq!(
        check_output_buffer(600, false, 599),
        Err(FfiError::BufferTooSmall {
            required: 600,
            capacity: 599,
        })
    );
    assert_eq!(check_output_buffer(600, false, 600), Ok(()));
}
