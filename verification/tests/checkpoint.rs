use cb2vec::checkpoint::{
    crc32, CheckpointError, TrainerCheckpoint, TrainerCheckpointState, CB2VEC_CHECKPOINT_HEADER_LEN,
    CB2VEC_CHECKPOINT_MAGIC,
};
use cb2vec::model::{ModelError, ModelShape};
use cb2vec::trainer::{Activation, Loss, Pooling, TrainingError};

fn shape() -> ModelShape {
    ModelShape::new(3, 2, 3, 2).unwrap()
}

/// A deterministic state for `shape()`: every payload word is a distinct
/// finite `f32`.
fn state() -> TrainerCheckpointState {
    let scalars = 27 * 3 + 3;
    let payload = (0..scalars)
        .map(|index| (index as f32 * 0.125 - 3.0).to_bits())
        .collect();
    TrainerCheckpointState {
        shape: shape(),
        activation: Activation::Relu,
        pooling: Pooling::Mean,
        loss: Loss::MeanSquaredError,
        batch_size: 2,
        shuffle: true,
        seed: 0x0BAD_C0DE_1234_5678,
        learning_rate_bits: 0.02f32.to_bits(),
        beta1_bits: 0.9f32.to_bits(),
        beta2_bits: 0.999f32.to_bits(),
        epsilon_bits: 1.0e-8f32.to_bits(),
        optimizer_step: 17,
        completed_epochs: 5,
        beta1_power_bits: 0.5f32.to_bits(),
        beta2_power_bits: 0.25f32.to_bits(),
        rng_state: 0x1234_5678_9ABC_DEF0,
        spare_normal_bits: None,
        payload,
    }
}

fn put_u16(bytes: &mut [u8], offset: usize, value: u16) {
    bytes[offset..offset + 2].copy_from_slice(&value.to_le_bytes());
}

fn put_u32(bytes: &mut [u8], offset: usize, value: u32) {
    bytes[offset..offset + 4].copy_from_slice(&value.to_le_bytes());
}

fn reseal(bytes: &mut [u8]) {
    let checksum = crc32(&bytes[28..]);
    put_u32(bytes, 24, checksum);
}

#[test]
fn crc32_matches_known_vectors() {
    assert_eq!(crc32(b""), 0x0000_0000);
    assert_eq!(crc32(b"a"), 0xE8B7_BE43);
    assert_eq!(crc32(b"123456789"), 0xCBF4_3926);
    assert_eq!(
        crc32(b"The quick brown fox jumps over the lazy dog"),
        0x414F_A339
    );
}

#[test]
fn checkpoint_captures_the_buffered_normal_of_the_shuffle_rng() {
    let mut state = state();
    state.spare_normal_bits = Some(0.123_456_79f32.to_bits());
    state.rng_state = 0xDEAD_BEEF_CAFE_F00D;
    let restored =
        TrainerCheckpointState::from_checkpoint(&state.write_checkpoint().unwrap()).unwrap();
    assert_eq!(
        restored.spare_normal_bits,
        Some(0.123_456_79f32.to_bits())
    );
    assert_eq!(restored.rng_state, 0xDEAD_BEEF_CAFE_F00D);

    state.spare_normal_bits = None;
    let restored =
        TrainerCheckpointState::from_checkpoint(&state.write_checkpoint().unwrap()).unwrap();
    assert_eq!(restored.spare_normal_bits, None);
}

#[test]
fn every_config_variant_round_trips() {
    for activation in [Activation::Identity, Activation::Relu] {
        for pooling in [Pooling::Sum, Pooling::Mean] {
            for loss in [Loss::BinaryCrossEntropyWithLogits, Loss::MeanSquaredError] {
                for shuffle in [false, true] {
                    let state = TrainerCheckpointState {
                        activation,
                        pooling,
                        loss,
                        shuffle,
                        ..state()
                    };
                    let restored =
                        TrainerCheckpointState::from_checkpoint(&state.write_checkpoint().unwrap())
                            .unwrap();
                    assert_eq!(restored, state);
                }
            }
        }
    }
}

#[test]
fn byte_length_is_predictable_and_shape_dependent() {
    let bytes = state().write_checkpoint().unwrap();
    assert_eq!(bytes.len(), TrainerCheckpoint::byte_len(shape()).unwrap());
    assert_eq!(&bytes[..8], &CB2VEC_CHECKPOINT_MAGIC);
    // 9 embeddings + 6 head + 12 factors = 27 parameters, times three
    // copies, plus three bias scalars.
    assert_eq!(bytes.len(), CB2VEC_CHECKPOINT_HEADER_LEN + (27 * 3 + 3) * 4);
}

#[test]
fn corrupted_and_incompatible_checkpoints_are_rejected() {
    let good = state().write_checkpoint().unwrap();

    assert_eq!(
        TrainerCheckpointState::from_checkpoint(&good[..CB2VEC_CHECKPOINT_HEADER_LEN - 1]).err(),
        Some(CheckpointError::Truncated {
            actual: CB2VEC_CHECKPOINT_HEADER_LEN - 1,
            minimum: CB2VEC_CHECKPOINT_HEADER_LEN,
        })
    );

    let mut wrong_magic = good.clone();
    wrong_magic[0] = b'X';
    assert_eq!(
        TrainerCheckpointState::from_checkpoint(&wrong_magic).err(),
        Some(CheckpointError::InvalidMagic)
    );

    let mut future = good.clone();
    put_u16(&mut future, 8, 2);
    assert_eq!(
        TrainerCheckpointState::from_checkpoint(&future).err(),
        Some(CheckpointError::UnsupportedVersion(2))
    );

    // Every single-byte payload corruption must be caught by the checksum.
    for index in [
        CB2VEC_CHECKPOINT_HEADER_LEN,
        CB2VEC_CHECKPOINT_HEADER_LEN + 17,
        good.len() - 1,
        32,
        96,
    ] {
        let mut corrupted = good.clone();
        corrupted[index] ^= 0x01;
        assert!(
            matches!(
                TrainerCheckpointState::from_checkpoint(&corrupted),
                Err(CheckpointError::ChecksumMismatch { .. })
            ),
            "byte {index} was not detected"
        );
    }

    // A truncated payload with a consistent checksum is still rejected.
    let mut short = good[..good.len() - 4].to_vec();
    reseal(&mut short);
    assert!(matches!(
        TrainerCheckpointState::from_checkpoint(&short),
        Err(CheckpointError::LengthMismatch { .. })
    ));

    // A header claiming a different shape than the payload is rejected.
    let mut wrong_shape = good.clone();
    put_u32(&mut wrong_shape, 40, 4);
    reseal(&mut wrong_shape);
    assert!(matches!(
        TrainerCheckpointState::from_checkpoint(&wrong_shape),
        Err(CheckpointError::LengthMismatch {
            field: "payload",
            ..
        })
    ));

    // Unknown enum values are rejected rather than silently defaulted.
    let mut bad_loss = good.clone();
    put_u32(&mut bad_loss, 56, 9);
    reseal(&mut bad_loss);
    assert_eq!(
        TrainerCheckpointState::from_checkpoint(&bad_loss).err(),
        Some(CheckpointError::UnsupportedLoss(9))
    );

    // A structurally valid file whose weights decode to NaN is rejected.
    let mut poisoned = good;
    put_u32(&mut poisoned, CB2VEC_CHECKPOINT_HEADER_LEN, 0x7FC0_0000);
    reseal(&mut poisoned);
    assert!(matches!(
        TrainerCheckpointState::from_checkpoint(&poisoned),
        Err(CheckpointError::InvalidShape(_))
    ));
}

#[test]
fn written_checkpoints_restore_every_field() {
    let mut state = state();
    state.spare_normal_bits = Some((-1.5f32).to_bits());
    let bytes = state.write_checkpoint().unwrap();
    let restored = TrainerCheckpointState::from_checkpoint(&bytes).unwrap();
    assert_eq!(restored, state);
    // Writing the restored state reproduces the same bytes.
    assert_eq!(restored.write_checkpoint().unwrap(), bytes);
}

#[test]
fn header_fields_sit_at_their_documented_offsets() {
    let bytes = state().write_checkpoint().unwrap();
    let u32_at = |offset: usize| u32::from_le_bytes(bytes[offset..offset + 4].try_into().unwrap());
    let u64_at = |offset: usize| u64::from_le_bytes(bytes[offset..offset + 8].try_into().unwrap());
    assert_eq!(u16::from_le_bytes([bytes[8], bytes[9]]), 1);
    assert_eq!(u32_at(12), 144);
    assert_eq!(u64_at(16), ((27 * 3 + 3) * 4) as u64);
    assert_eq!(u32_at(24), crc32(&bytes[28..]));
    assert_eq!([u32_at(32), u32_at(36), u32_at(40), u32_at(44)], [3, 2, 3, 2]);
    assert_eq!([u32_at(48), u32_at(52), u32_at(56)], [1, 1, 1]);
    assert_eq!([u32_at(60), u32_at(64)], [2, 1]);
    assert_eq!(u64_at(72), 0x0BAD_C0DE_1234_5678);
    assert_eq!(u32_at(80), 0.02f32.to_bits());
    assert_eq!([u64_at(96), u64_at(104)], [17, 5]);
    assert_eq!(u64_at(120), 0x1234_5678_9ABC_DEF0);
    assert_eq!(u32_at(128), 0);
    assert_eq!(u32_at(144), (-3.0f32).to_bits());
}

#[test]
fn wrong_payload_length_and_oversized_counts_are_rejected_on_write() {
    let mut short = state();
    short.payload.pop();
    assert_eq!(
        short.write_checkpoint(),
        Err(CheckpointError::LengthMismatch {
            field: "payload",
            actual: 83,
            expected: 84,
        })
    );

    let mut huge_batch = state();
    huge_batch.batch_size = u32::MAX as usize + 1;
    assert_eq!(
        huge_batch.write_checkpoint(),
        Err(CheckpointError::ValueOutOfRange("batch_size"))
    );
}

#[test]
fn restore_rejects_reserved_fields_and_bad_scalars() {
    let good = state().write_checkpoint().unwrap();

    let mut reserved = good.clone();
    put_u32(&mut reserved, 68, 1);
    reseal(&mut reserved);
    assert_eq!(
        TrainerCheckpointState::from_checkpoint(&reserved).err(),
        Some(CheckpointError::NonZeroReserved)
    );

    let mut header_len = good.clone();
    put_u32(&mut header_len, 12, 128);
    reseal(&mut header_len);
    assert_eq!(
        TrainerCheckpointState::from_checkpoint(&header_len).err(),
        Some(CheckpointError::UnsupportedHeaderLength(128))
    );

    let mut shuffle = good.clone();
    put_u32(&mut shuffle, 64, 2);
    reseal(&mut shuffle);
    assert_eq!(
        TrainerCheckpointState::from_checkpoint(&shuffle).err(),
        Some(CheckpointError::ValueOutOfRange("shuffle"))
    );

    let mut activation = good.clone();
    put_u32(&mut activation, 48, 7);
    reseal(&mut activation);
    assert_eq!(
        TrainerCheckpointState::from_checkpoint(&activation).err(),
        Some(CheckpointError::UnsupportedActivation(7))
    );

    let mut pooling = good.clone();
    put_u32(&mut pooling, 52, 3);
    reseal(&mut pooling);
    assert_eq!(
        TrainerCheckpointState::from_checkpoint(&pooling).err(),
        Some(CheckpointError::UnsupportedPooling(3))
    );

    let mut power = good.clone();
    put_u32(&mut power, 112, f32::NAN.to_bits());
    reseal(&mut power);
    assert_eq!(
        TrainerCheckpointState::from_checkpoint(&power).err(),
        Some(CheckpointError::NonFinite("Adam bias correction power"))
    );

    let mut spare = good.clone();
    put_u32(&mut spare, 128, 1);
    put_u32(&mut spare, 132, f32::INFINITY.to_bits());
    reseal(&mut spare);
    assert_eq!(
        TrainerCheckpointState::from_checkpoint(&spare).err(),
        Some(CheckpointError::NonFinite("buffered normal"))
    );

    let mut flag = good.clone();
    put_u32(&mut flag, 128, 2);
    reseal(&mut flag);
    assert_eq!(
        TrainerCheckpointState::from_checkpoint(&flag).err(),
        Some(CheckpointError::ValueOutOfRange("buffered normal flag"))
    );

    let mut zero_dim = good.clone();
    put_u32(&mut zero_dim, 40, 0);
    reseal(&mut zero_dim);
    assert_eq!(
        TrainerCheckpointState::from_checkpoint(&zero_dim).err(),
        Some(CheckpointError::InvalidShape(ModelError::ZeroDimension("dim")))
    );
}

#[test]
fn adam_moments_must_be_finite() {
    let good = state();
    assert_eq!(good.check_adam_finite(), Ok(()));

    // The weights precede the moments: a non-finite weight is not a moment.
    let mut weight = state();
    weight.payload[0] = f32::NAN.to_bits();
    assert_eq!(weight.check_adam_finite(), Ok(()));

    let mut moment = state();
    moment.payload[28] = f32::INFINITY.to_bits();
    assert_eq!(
        moment.check_adam_finite(),
        Err(CheckpointError::NonFinite("Adam moment"))
    );

    let mut last = state();
    let index = last.payload.len() - 1;
    last.payload[index] = f32::NAN.to_bits();
    assert_eq!(
        last.check_adam_finite(),
        Err(CheckpointError::NonFinite("Adam moment"))
    );
}

#[test]
fn byte_len_rejects_unrepresentable_shapes() {
    let shape = ModelShape::new(usize::MAX / 8, 1, 2, 0).unwrap();
    assert_eq!(
        TrainerCheckpoint::byte_len(shape),
        Err(CheckpointError::ValueOutOfRange("payload length"))
    );
}

#[test]
fn restore_rejects_values_a_trainer_refuses() {
    let good = state().write_checkpoint().unwrap();
    let word = |index: usize| CB2VEC_CHECKPOINT_HEADER_LEN + 4 * index;

    // Payload word 10 is the second head value.
    let mut head = good.clone();
    put_u32(&mut head, word(10), f32::INFINITY.to_bits());
    reseal(&mut head);
    assert_eq!(
        TrainerCheckpointState::from_checkpoint(&head).err(),
        Some(CheckpointError::InvalidShape(ModelError::NonFinite("head")))
    );

    // Payload word 27 is the bias; word 28 the first Adam moment.
    let mut bias = good.clone();
    put_u32(&mut bias, word(27), f32::NAN.to_bits());
    reseal(&mut bias);
    assert_eq!(
        TrainerCheckpointState::from_checkpoint(&bias).err(),
        Some(CheckpointError::InvalidShape(ModelError::NonFinite("bias")))
    );

    let mut moment = good.clone();
    put_u32(&mut moment, word(28), f32::NAN.to_bits());
    reseal(&mut moment);
    assert_eq!(
        TrainerCheckpointState::from_checkpoint(&moment).err(),
        Some(CheckpointError::NonFinite("Adam moment"))
    );

    let mut batch = good.clone();
    put_u32(&mut batch, 60, 0);
    reseal(&mut batch);
    assert_eq!(
        TrainerCheckpointState::from_checkpoint(&batch).err(),
        Some(CheckpointError::InvalidConfig(TrainingError::InvalidConfig(
            "batch_size must be non-zero"
        )))
    );

    let mut rate = good.clone();
    put_u32(&mut rate, 80, (-0.5f32).to_bits());
    reseal(&mut rate);
    assert_eq!(
        TrainerCheckpointState::from_checkpoint(&rate).err(),
        Some(CheckpointError::InvalidConfig(TrainingError::InvalidConfig(
            "Adam learning_rate must be positive and finite"
        )))
    );

    let mut beta1 = good.clone();
    put_u32(&mut beta1, 84, 1.0f32.to_bits());
    reseal(&mut beta1);
    assert_eq!(
        TrainerCheckpointState::from_checkpoint(&beta1).err(),
        Some(CheckpointError::InvalidConfig(TrainingError::InvalidConfig(
            "Adam beta1 must be finite and in 0.0..1.0"
        )))
    );

    let mut beta2 = good.clone();
    put_u32(&mut beta2, 88, f32::NAN.to_bits());
    reseal(&mut beta2);
    assert_eq!(
        TrainerCheckpointState::from_checkpoint(&beta2).err(),
        Some(CheckpointError::InvalidConfig(TrainingError::InvalidConfig(
            "Adam beta2 must be finite and in 0.0..1.0"
        )))
    );

    let mut epsilon = good.clone();
    put_u32(&mut epsilon, 92, 0.0f32.to_bits());
    reseal(&mut epsilon);
    assert_eq!(
        TrainerCheckpointState::from_checkpoint(&epsilon).err(),
        Some(CheckpointError::InvalidConfig(TrainingError::InvalidConfig(
            "Adam epsilon must be positive and finite"
        )))
    );

    // Negative zero lies in 0.0..1.0, so it is an accepted beta.
    let mut zero_beta = good;
    put_u32(&mut zero_beta, 84, (-0.0f32).to_bits());
    reseal(&mut zero_beta);
    assert!(TrainerCheckpointState::from_checkpoint(&zero_beta).is_ok());
}

#[test]
fn writing_rejects_non_finite_weights() {
    let mut poisoned = state();
    poisoned.payload[0] = f32::NAN.to_bits();
    assert_eq!(
        poisoned.write_checkpoint(),
        Err(CheckpointError::InvalidShape(ModelError::NonFinite(
            "embeddings"
        )))
    );
    // Non-finite moments are written; only restoring refuses them.
    let mut moment = state();
    moment.payload[30] = f32::NAN.to_bits();
    assert!(moment.write_checkpoint().is_ok());
    assert_eq!(moment.check_config(), Ok(()));
    assert_eq!(moment.check_weights_finite(), Ok(()));
}
