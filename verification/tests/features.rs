use cb2vec::model::{ModelError, ModelShape, QuantizedCodebookWeights};
use cb2vec::trainer::{
    materialize_features_quantized, Activation, GroupedTokens, InferenceConfig, Pooling,
    SampleIssue, TrainingError,
};

/// Three tokens, two groups, two components:
/// token 0 = [1, -2], token 1 = [3, 4], token 2 = [-5, 6].
fn small_weights() -> QuantizedCodebookWeights {
    QuantizedCodebookWeights {
        dim: 2,
        fm_rank: 1,
        embedding_scale: 32,
        head_scale: 64,
        factor_scale: 64,
        bias_bits: 0.0f32.to_bits(),
        embeddings: vec![1, -2, 3, 4, -5, 6],
        head: vec![1, 1, 1, 1],
        factors: vec![0, 0, 0, 0],
    }
}

fn input(tokens: &[u16], offsets: &[usize], groups: &[usize]) -> GroupedTokens {
    GroupedTokens::new(tokens.to_vec(), offsets.to_vec(), groups.to_vec()).unwrap()
}

#[test]
fn grouped_sums_follow_activation_and_pooling() {
    let weights = small_weights();
    // Site 0 = tokens 0, 2 -> [-4, 4]; site 1 = token 1 -> [3, 4];
    // site 2 = token 2 -> [-5, 6].
    let input = input(&[0, 2, 1, 2], &[0, 2, 3, 4], &[0, 1, 1]);

    let identity = materialize_features_quantized(
        &input,
        &weights,
        InferenceConfig::new(Activation::Identity, Pooling::Sum),
    )
    .unwrap();
    assert_eq!(identity.values(), &[-4, 4, -2, 10]);
    assert_eq!(identity.group_divisors(), &[1, 1]);

    let relu = materialize_features_quantized(
        &input,
        &weights,
        InferenceConfig::new(Activation::Relu, Pooling::Mean),
    )
    .unwrap();
    assert_eq!(relu.values(), &[0, 4, 3, 10]);
    assert_eq!(relu.group_divisors(), &[1, 2]);
    assert_eq!(relu.into_parts(), (vec![0, 4, 3, 10], vec![1, 2]));
}

#[test]
fn invalid_inputs_report_the_first_issue() {
    let weights = small_weights();
    let config = InferenceConfig::new(Activation::Relu, Pooling::Mean);
    let out_of_range_group = input(&[0, 1], &[0, 1, 2], &[0, 2]);
    assert_eq!(
        materialize_features_quantized(&out_of_range_group, &weights, config),
        Err(TrainingError::InvalidInput(SampleIssue::GroupOutOfRange {
            site: 1,
            group: 2,
            group_count: 2,
        }))
    );
    let out_of_range_token = input(&[0, 1, 7], &[0, 1, 3], &[0, 1]);
    assert_eq!(
        materialize_features_quantized(&out_of_range_token, &weights, config),
        Err(TrainingError::InvalidInput(SampleIssue::TokenOutOfRange {
            site: 1,
            token: 7,
            token_count: 3,
        }))
    );
    let one_group = input(&[0], &[0, 1], &[0]);
    assert_eq!(
        materialize_features_quantized(&one_group, &weights, config),
        Err(TrainingError::InvalidInput(SampleIssue::EmptyMeanGroup {
            group: 1
        }))
    );
    // Sum pooling accepts an empty group.
    let summed = materialize_features_quantized(
        &one_group,
        &weights,
        InferenceConfig::new(Activation::Identity, Pooling::Sum),
    )
    .unwrap();
    assert_eq!(summed.values(), &[1, -2, 0, 0]);
}

#[test]
fn grouped_tokens_validate_their_structure() {
    assert_eq!(
        GroupedTokens::new(vec![0], vec![0], vec![0]),
        Err(SampleIssue::OffsetCount {
            actual: 1,
            expected: 2,
        })
    );
    assert_eq!(
        GroupedTokens::new(vec![0], vec![1, 1], vec![0]),
        Err(SampleIssue::FirstOffset)
    );
    assert_eq!(
        GroupedTokens::new(vec![0, 1], vec![0, 1], vec![0]),
        Err(SampleIssue::LastOffset {
            actual: 1,
            expected: 2,
        })
    );
    assert_eq!(
        GroupedTokens::new(vec![0, 1], vec![0, 2, 1, 2], vec![0, 0, 0]),
        Err(SampleIssue::NonMonotonicOffsets { site: 1 })
    );
    let ok = GroupedTokens::new(vec![4, 5], vec![0, 0, 2], vec![1, 0]).unwrap();
    assert_eq!(ok.tokens(), &[4, 5]);
    assert_eq!(ok.site_offsets(), &[0, 0, 2]);
    assert_eq!(ok.site_groups(), &[1, 0]);
    assert_eq!(ok.site_count(), 2);
}

#[test]
fn malformed_models_are_rejected_before_the_input() {
    let input = input(&[0], &[0, 1], &[0]);
    let config = InferenceConfig::new(Activation::Relu, Pooling::Sum);

    let mut no_dim = small_weights();
    no_dim.dim = 0;
    assert_eq!(
        materialize_features_quantized(&input, &no_dim, config),
        Err(TrainingError::Model(ModelError::ZeroDimension("dim")))
    );

    let mut scale = small_weights();
    scale.factor_scale = -1;
    assert_eq!(
        materialize_features_quantized(&input, &scale, config),
        Err(TrainingError::Model(ModelError::NonPositiveScale("factor_scale")))
    );

    let mut ragged_head = small_weights();
    ragged_head.head.push(0);
    assert_eq!(
        materialize_features_quantized(&input, &ragged_head, config),
        Err(TrainingError::Model(ModelError::LengthMismatch {
            field: "head",
            actual: 5,
            expected: 4,
        }))
    );

    let mut factors = small_weights();
    factors.factors.pop();
    assert_eq!(
        materialize_features_quantized(&input, &factors, config),
        Err(TrainingError::Model(ModelError::LengthMismatch {
            field: "factors",
            actual: 3,
            expected: 4,
        }))
    );

    let mut bias = small_weights();
    bias.bias_bits = f32::INFINITY.to_bits();
    assert_eq!(
        materialize_features_quantized(&input, &bias, config),
        Err(TrainingError::Model(ModelError::NonFinite("bias")))
    );
}

#[test]
fn integer_overflow_fails_closed() {
    let weights = QuantizedCodebookWeights {
        dim: 1,
        fm_rank: 0,
        embedding_scale: 1,
        head_scale: 1,
        factor_scale: 1,
        bias_bits: 0,
        embeddings: vec![i16::MAX],
        head: vec![1],
        factors: vec![],
    };
    let config = InferenceConfig::new(Activation::Identity, Pooling::Sum);
    // One site of 70,000 copies overflows the site sum.
    let tokens = vec![0u16; 70_000];
    let one_site = GroupedTokens::new(tokens.clone(), vec![0, 70_000], vec![0]).unwrap();
    assert_eq!(
        materialize_features_quantized(&one_site, &weights, config),
        Err(TrainingError::Model(ModelError::ArithmeticOverflow(
            "quantized site sum"
        )))
    );
    // Two sites of 35,000 copies each fit alone but overflow the group sum.
    let two_sites = GroupedTokens::new(tokens, vec![0, 35_000, 70_000], vec![0, 0]).unwrap();
    assert_eq!(
        materialize_features_quantized(&two_sites, &weights, config),
        Err(TrainingError::Model(ModelError::ArithmeticOverflow(
            "quantized group sum"
        )))
    );
}

#[test]
fn shapes_validate_their_dimensions() {
    assert_eq!(
        ModelShape::new(0, 1, 1, 0),
        Err(ModelError::ZeroDimension("token_count"))
    );
    assert_eq!(
        ModelShape::new(1, 0, 1, 0),
        Err(ModelError::ZeroDimension("group_count"))
    );
    assert_eq!(
        ModelShape::new(1, 1, 0, 0),
        Err(ModelError::ZeroDimension("dim"))
    );
    assert_eq!(
        ModelShape::new(usize::MAX, 1, 2, 0),
        Err(ModelError::ArithmeticOverflow("embedding length"))
    );
    assert_eq!(
        ModelShape::new(1, usize::MAX, 2, 0),
        Err(ModelError::ArithmeticOverflow("feature length"))
    );
    assert_eq!(
        ModelShape::new(1, usize::MAX / 2, 2, 2),
        Err(ModelError::ArithmeticOverflow("factor length"))
    );
    let shape = ModelShape::new(3, 2, 4, 5).unwrap();
    assert_eq!(shape.embedding_len(), Ok(12));
    assert_eq!(shape.feature_len(), Ok(8));
    assert_eq!(shape.factor_len(), Ok(40));
    assert_eq!(
        [shape.token_count(), shape.group_count(), shape.dim(), shape.fm_rank()],
        [3, 2, 4, 5]
    );
}

#[test]
fn embedding_updates_are_exact() {
    let weights = small_weights();
    assert_eq!(weights.token_count(), 3);
    assert_eq!(weights.group_count(), 2);
    assert_eq!(weights.embedding(2, 1), 6);
    let mut out = vec![10, 20, 30, 40];
    weights.add_embedding_to(1, &mut out, 2);
    assert_eq!(out, vec![10, 20, 33, 44]);
    weights.add_embedding_delta_to(1, 2, &mut out, 2);
    assert_eq!(out, vec![10, 20, 25, 46]);
    weights.add_embedding_delta_to(2, 1, &mut out, 2);
    assert_eq!(out, vec![10, 20, 33, 44]);
}
