use cb2vec::model::{ModelError, QuantizedCodebookWeights};
use cb2vec::session::{
    IncrementalSession, SessionDelta, SessionError, SessionLimits, SESSION_MAX_TOKEN_SLOTS,
};
use cb2vec::trainer::{
    materialize_features_quantized, Activation, GroupedTokens, InferenceConfig, Pooling,
};

/// Deterministic quantized weights with small signed components.
fn weights(tokens: usize, groups: usize, dim: usize, rank: usize) -> QuantizedCodebookWeights {
    QuantizedCodebookWeights {
        dim,
        fm_rank: rank,
        embedding_scale: 32,
        head_scale: 64,
        factor_scale: 64,
        bias_bits: 0.25f32.to_bits(),
        embeddings: (0..tokens * dim)
            .map(|index| ((index * 37 + 11) % 201) as i16 - 100)
            .collect(),
        head: (0..groups * dim)
            .map(|index| ((index * 53 + 7) % 127) as i16 - 63)
            .collect(),
        factors: (0..groups * dim * rank)
            .map(|index| ((index * 29 + 3) % 61) as i16 - 30)
            .collect(),
    }
}

struct Fixture {
    weights: QuantizedCodebookWeights,
    tokens: Vec<u16>,
    offsets: Vec<u32>,
    groups: Vec<u32>,
}

impl Fixture {
    fn new() -> Self {
        Self {
            weights: weights(9, 3, 4, 2),
            //          site 0 | site 1 | site 2 |site 3| site 4
            tokens: vec![0, 3, 5, 1, 8, 2, 7, 4, 6],
            offsets: vec![0, 3, 5, 7, 8, 9],
            groups: vec![0, 1, 1, 2, 0],
        }
    }

    fn limits(&self) -> SessionLimits {
        SessionLimits::new(8, 16, 6, 12)
    }

    fn session(&self, inference: InferenceConfig) -> IncrementalSession {
        let mut session =
            IncrementalSession::new(&self.weights, inference, self.limits()).unwrap();
        session
            .reset(&self.tokens, &self.offsets, &self.groups)
            .unwrap();
        session
    }

    /// Grouped features and divisors of a full one-shot rebuild.
    fn rebuild(&self, tokens: &[u16], inference: InferenceConfig) -> (Vec<i32>, Vec<usize>) {
        let input = GroupedTokens::new(
            tokens.to_vec(),
            self.offsets.iter().map(|&value| value as usize).collect(),
            self.groups.iter().map(|&value| value as usize).collect(),
        )
        .unwrap();
        materialize_features_quantized(&input, &self.weights, inference)
            .unwrap()
            .into_parts()
    }
}

/// The session's materialized grouped features and divisors.
fn scored(session: &mut IncrementalSession) -> (Vec<i32>, Vec<usize>) {
    session.materialize_pending();
    (
        session.group_features().to_vec(),
        session.group_divisors().to_vec(),
    )
}

fn configs() -> [InferenceConfig; 4] {
    [
        InferenceConfig::new(Activation::Relu, Pooling::Mean),
        InferenceConfig::new(Activation::Relu, Pooling::Sum),
        InferenceConfig::new(Activation::Identity, Pooling::Mean),
        InferenceConfig::new(Activation::Identity, Pooling::Sum),
    ]
}

#[test]
fn incremental_score_matches_full_rebuild_bitwise() {
    let fixture = Fixture::new();
    for inference in configs() {
        let mut session = fixture.session(inference);
        assert_eq!(
            scored(&mut session),
            fixture.rebuild(&fixture.tokens, inference),
            "initial position for {inference:?}"
        );

        // Two lanes at one site plus a lane at another site, in one frame.
        session
            .push(&[
                SessionDelta::new(0, 0, 0, 6),
                SessionDelta::new(0, 2, 5, 1),
                SessionDelta::new(2, 1, 7, 0),
            ])
            .unwrap();
        let expected = [6, 3, 1, 1, 8, 2, 0, 4, 6];
        assert_eq!(session.logical_tokens(), expected);
        assert_eq!(
            scored(&mut session),
            fixture.rebuild(&expected, inference),
            "after push for {inference:?}"
        );

        session.push(&[SessionDelta::new(4, 0, 6, 8)]).unwrap();
        let expected = [6, 3, 1, 1, 8, 2, 0, 4, 8];
        assert_eq!(
            scored(&mut session),
            fixture.rebuild(&expected, inference),
            "after second push for {inference:?}"
        );

        session.pop().unwrap();
        session.pop().unwrap();
        assert_eq!(session.logical_tokens(), fixture.tokens);
        assert_eq!(
            scored(&mut session),
            fixture.rebuild(&fixture.tokens, inference),
            "after pop for {inference:?}"
        );
    }
}

#[test]
fn long_random_push_pop_sequence_restores_the_initial_state() {
    let fixture = Fixture::new();
    let inference = InferenceConfig::new(Activation::Relu, Pooling::Mean);
    let mut session = fixture.session(inference);
    let baseline = scored(&mut session);
    let baseline_features = session.group_features().to_vec();

    let mut state = 0x1234_5678_9ABC_DEF0u64;
    let mut next = move || {
        state ^= state << 13;
        state ^= state >> 7;
        state ^= state << 17;
        state
    };

    let mut live: Vec<Vec<SessionDelta>> = Vec::new();
    let mut current = fixture.tokens.clone();
    let mut frame = Vec::new();
    for step in 0..4_000 {
        let pop =
            live.len() == session.limits().max_depth || (!live.is_empty() && next() % 100 < 45);
        if pop {
            let popped = live.pop().unwrap();
            assert_eq!(session.pop().unwrap(), popped.len());
            for delta in popped.iter().rev() {
                let slot = fixture.offsets[delta.site() as usize] as usize + delta.lane() as usize;
                current[slot] = delta.old_token();
            }
        } else {
            frame.clear();
            let mut used = [false; 16];
            let count = 1 + (next() % session.limits().max_deltas_per_frame as u64) as usize;
            for _ in 0..count {
                let site = (next() % fixture.groups.len() as u64) as usize;
                let lanes = (fixture.offsets[site + 1] - fixture.offsets[site]) as usize;
                let lane = (next() % lanes as u64) as usize;
                let slot = fixture.offsets[site] as usize + lane;
                if used[slot] {
                    continue;
                }
                used[slot] = true;
                let new = (next() % 9) as u16;
                frame.push(SessionDelta::new(
                    site as u32,
                    lane as u32,
                    current[slot],
                    new,
                ));
            }
            session.push(&frame).unwrap();
            for delta in &frame {
                let slot = fixture.offsets[delta.site() as usize] as usize + delta.lane() as usize;
                current[slot] = delta.new_token();
            }
            live.push(frame.clone());
        }

        assert_eq!(session.logical_tokens(), current.as_slice());
        // Score often enough to exercise interleaved materialization.
        if step % 3 == 0 {
            assert_eq!(
                scored(&mut session),
                fixture.rebuild(&current, inference),
                "step {step}"
            );
        }
    }

    session.rewind();
    assert_eq!(session.depth(), 0);
    assert_eq!(session.materialized_depth(), 0);
    assert_eq!(session.logical_tokens(), fixture.tokens);
    assert_eq!(scored(&mut session), baseline);
    assert_eq!(session.group_features(), baseline_features);
}

#[test]
fn rejected_frames_leave_the_session_unchanged() {
    let fixture = Fixture::new();
    let inference = InferenceConfig::new(Activation::Relu, Pooling::Mean);
    let mut session = fixture.session(inference);
    let before_score = scored(&mut session);
    let before_features = session.group_features().to_vec();

    let invalid = [
        (
            vec![SessionDelta::new(0, 0, 4, 1)],
            SessionError::OldTokenMismatch {
                site: 0,
                lane: 0,
                expected: 4,
                actual: 0,
            },
        ),
        (
            vec![SessionDelta::new(9, 0, 0, 1)],
            SessionError::SiteOutOfRange {
                site: 9,
                site_count: 5,
            },
        ),
        (
            vec![SessionDelta::new(3, 2, 4, 1)],
            SessionError::LaneOutOfRange {
                site: 3,
                lane: 2,
                lane_count: 1,
            },
        ),
        (
            vec![SessionDelta::new(0, 0, 0, 99)],
            SessionError::TokenOutOfRange {
                token: 99,
                token_count: 9,
            },
        ),
        (
            vec![SessionDelta::new(0, 0, 0, 1), SessionDelta::new(0, 0, 0, 2)],
            SessionError::DuplicateSlot { site: 0, lane: 0 },
        ),
        // A valid leading delta followed by an invalid one must not apply.
        (
            vec![SessionDelta::new(1, 0, 1, 2), SessionDelta::new(1, 9, 0, 2)],
            SessionError::LaneOutOfRange {
                site: 1,
                lane: 9,
                lane_count: 2,
            },
        ),
    ];

    for (frame, expected) in invalid {
        assert_eq!(session.push(&frame), Err(expected));
        assert_eq!(session.depth(), 0);
        assert_eq!(session.logical_tokens(), fixture.tokens);
        assert_eq!(session.group_features(), before_features);
        assert_eq!(scored(&mut session), before_score);
    }

    // A rejected frame must not consume depth or corrupt later frames.
    session.push(&[SessionDelta::new(0, 0, 0, 1)]).unwrap();
    assert_eq!(session.depth(), 1);
    assert_eq!(
        scored(&mut session),
        fixture.rebuild(&[1, 3, 5, 1, 8, 2, 7, 4, 6], inference)
    );
    session.pop().unwrap();
    assert_eq!(scored(&mut session), before_score);
}

#[test]
fn depth_and_frame_limits_are_reported_and_recoverable() {
    let fixture = Fixture::new();
    let inference = InferenceConfig::new(Activation::Identity, Pooling::Sum);
    let mut session = fixture.session(inference);
    let limits = session.limits();

    for step in 0..limits.max_depth {
        let token = (step % 9) as u16;
        let old = session.logical_tokens()[0];
        session
            .push(&[SessionDelta::new(0, 0, old, token)])
            .unwrap();
    }
    let old = session.logical_tokens()[0];
    assert_eq!(
        session.push(&[SessionDelta::new(0, 0, old, 1)]),
        Err(SessionError::LimitExceeded {
            field: "depth",
            requested: limits.max_depth + 1,
            limit: limits.max_depth,
        })
    );
    assert_eq!(session.depth(), limits.max_depth);
    // Still usable at the ceiling, and popping frees exactly one slot.
    session.materialize_pending();
    session.pop().unwrap();
    let old = session.logical_tokens()[0];
    session.push(&[SessionDelta::new(0, 0, old, 1)]).unwrap();
    assert_eq!(session.depth(), limits.max_depth);
    session.rewind();
    assert_eq!(session.logical_tokens(), fixture.tokens);

    let oversized: Vec<SessionDelta> = (0..limits.max_deltas_per_frame + 1)
        .map(|lane| SessionDelta::new(0, (lane % 3) as u32, 0, 1))
        .collect();
    assert_eq!(
        session.push(&oversized),
        Err(SessionError::LimitExceeded {
            field: "frame_deltas",
            requested: limits.max_deltas_per_frame + 1,
            limit: limits.max_deltas_per_frame,
        })
    );
    assert_eq!(session.pop(), Err(SessionError::EmptyStack));
}

#[test]
fn empty_frames_and_zero_lane_sites_are_supported() {
    let weights = weights(4, 2, 2, 0);
    let inference = InferenceConfig::new(Activation::Relu, Pooling::Mean);
    let mut session =
        IncrementalSession::new(&weights, inference, SessionLimits::new(4, 4, 4, 4)).unwrap();
    // Site 1 owns no tokens.
    session.reset(&[1, 2], &[0, 1, 1, 2], &[0, 1, 1]).unwrap();
    let before = scored(&mut session);
    assert_eq!(session.push(&[]).unwrap(), 0);
    assert_eq!(session.depth(), 1);
    assert_eq!(scored(&mut session), before);
    assert_eq!(session.pop().unwrap(), 0);
    assert_eq!(
        session.push(&[SessionDelta::new(1, 0, 0, 1)]),
        Err(SessionError::LaneOutOfRange {
            site: 1,
            lane: 0,
            lane_count: 0,
        })
    );
}

#[test]
fn many_sessions_share_one_model() {
    let fixture = Fixture::new();
    let inference = InferenceConfig::new(Activation::Relu, Pooling::Mean);
    let mut sessions: Vec<IncrementalSession> = (0..4)
        .map(|_| {
            let mut session =
                IncrementalSession::new(&fixture.weights, inference, fixture.limits())
                    .unwrap();
            session
                .reset(&fixture.tokens, &fixture.offsets, &fixture.groups)
                .unwrap();
            session
        })
        .collect();
    for session in &sessions {
        assert!(std::ptr::eq(session.weights(), &fixture.weights));
    }

    // Diverge each session, then confirm none observed another's writes.
    for (index, session) in sessions.iter_mut().enumerate() {
        session
            .push(&[SessionDelta::new(0, 0, 0, index as u16 + 1)])
            .unwrap();
    }
    for (index, session) in sessions.iter_mut().enumerate() {
        let mut expected = fixture.tokens.clone();
        expected[0] = index as u16 + 1;
        assert_eq!(scored(session), fixture.rebuild(&expected, inference));
        assert_eq!(session.weights(), &fixture.weights);
    }
}

#[test]
fn reset_validates_before_replacing_state() {
    let fixture = Fixture::new();
    let inference = InferenceConfig::new(Activation::Relu, Pooling::Mean);
    let mut session = fixture.session(inference);
    let before = scored(&mut session);

    assert!(matches!(
        session.reset(&[0, 1], &[0, 2], &[9]),
        Err(SessionError::GroupOutOfRange { group: 9, .. })
    ));
    assert!(matches!(
        session.reset(&[0, 99], &[0, 2], &[0]),
        Err(SessionError::TokenOutOfRange { token: 99, .. })
    ));
    assert!(matches!(
        session.reset(&[0, 1], &[0, 1], &[0]),
        Err(SessionError::OffsetTable(_))
    ));
    assert!(matches!(
        session.reset(&[0; 20], &[0, 20], &[0]),
        Err(SessionError::LimitExceeded {
            field: "token_slots",
            ..
        })
    ));
    assert_eq!(scored(&mut session), before);

    // Mean pooling needs every model group populated, and rejecting that
    // must still leave the previously installed position intact.
    assert_eq!(
        session.reset(&[0, 1], &[0, 1, 2], &[0, 1]),
        Err(SessionError::EmptyMeanGroup { group: 2 })
    );
    assert!(session.is_ready());
    assert_eq!(session.logical_tokens(), fixture.tokens);
    assert_eq!(scored(&mut session), before);

    // A session that has never been reset refuses to advance.
    let mut fresh =
        IncrementalSession::new(&fixture.weights, inference, fixture.limits()).unwrap();
    assert!(!fresh.is_ready());
    assert_eq!(
        fresh.push(&[SessionDelta::new(0, 0, 0, 1)]),
        Err(SessionError::NotReady)
    );

    // Sum pooling tolerates empty groups, and reset clears the stack.
    let mut session = IncrementalSession::new(
        &fixture.weights,
        InferenceConfig::new(Activation::Relu, Pooling::Sum),
        fixture.limits(),
    )
    .unwrap();
    session.reset(&[0, 1], &[0, 1, 2], &[0, 1]).unwrap();
    session.push(&[SessionDelta::new(0, 0, 0, 2)]).unwrap();
    session
        .reset(&fixture.tokens, &fixture.offsets, &fixture.groups)
        .unwrap();
    assert_eq!(session.depth(), 0);
    assert_eq!(session.info().pending_deltas, 0);
    assert_eq!(session.logical_tokens(), fixture.tokens);
}

#[test]
fn invalid_limits_and_models_fail_closed() {
    let fixture = Fixture::new();
    let inference = InferenceConfig::new(Activation::Relu, Pooling::Mean);
    assert_eq!(
        IncrementalSession::new(
            &fixture.weights,
            inference,
            SessionLimits::new(0, 1, 1, 1)
        )
        .err(),
        Some(SessionError::ZeroLimit("max_sites"))
    );
    assert_eq!(
        IncrementalSession::new(
            &fixture.weights,
            inference,
            SessionLimits::new(1, SESSION_MAX_TOKEN_SLOTS + 1, 1, 1),
        )
        .err(),
        Some(SessionError::LimitExceeded {
            field: "max_token_slots",
            requested: SESSION_MAX_TOKEN_SLOTS + 1,
            limit: SESSION_MAX_TOKEN_SLOTS,
        })
    );

    let mut broken = fixture.weights.clone();
    broken.head_scale = 0;
    assert_eq!(
        IncrementalSession::new(&broken, inference, SessionLimits::new(1, 1, 1, 1)).err(),
        Some(SessionError::Model(ModelError::NonPositiveScale(
            "head_scale"
        )))
    );
}

#[test]
fn pop_restores_the_exact_previous_features() {
    let fixture = Fixture::new();
    for inference in configs() {
        let mut session = fixture.session(inference);
        let before = scored(&mut session);
        session
            .push(&[SessionDelta::new(1, 1, 8, 4), SessionDelta::new(3, 0, 4, 0)])
            .unwrap();
        let pushed = scored(&mut session);
        assert_ne!(pushed, before);
        assert_eq!(session.pop(), Ok(2));
        assert_eq!(scored(&mut session), before);
        assert_eq!(session.depth(), 0);
        assert_eq!(session.info().pending_deltas, 0);
    }
}

#[test]
fn unmaterialized_frames_are_applied_in_order() {
    let fixture = Fixture::new();
    let inference = InferenceConfig::new(Activation::Identity, Pooling::Mean);
    let mut session = fixture.session(inference);
    session.push(&[SessionDelta::new(0, 0, 0, 2)]).unwrap();
    session.push(&[SessionDelta::new(0, 0, 2, 5)]).unwrap();
    session.push(&[SessionDelta::new(4, 0, 6, 7)]).unwrap();
    assert_eq!(session.materialized_depth(), 0);
    assert_eq!(session.info().pending_deltas, 3);
    let expected = [5, 3, 5, 1, 8, 2, 7, 4, 7];
    assert_eq!(scored(&mut session), fixture.rebuild(&expected, inference));
    assert_eq!(session.materialized_depth(), 3);
    // Popping below the materialized depth rolls the accumulators back.
    session.pop().unwrap();
    session.pop().unwrap();
    let expected = [2, 3, 5, 1, 8, 2, 7, 4, 6];
    assert_eq!(scored(&mut session), fixture.rebuild(&expected, inference));
}

#[test]
fn model_errors_are_reported_in_check_order() {
    let fixture = Fixture::new();
    let inference = InferenceConfig::new(Activation::Relu, Pooling::Sum);
    let limits = SessionLimits::new(4, 8, 2, 2);

    let mut no_dim = fixture.weights.clone();
    no_dim.dim = 0;
    assert_eq!(
        IncrementalSession::new(&no_dim, inference, limits).err(),
        Some(SessionError::Model(ModelError::ZeroDimension("token_count")))
    );

    let mut short_head = fixture.weights.clone();
    short_head.head.pop();
    assert_eq!(
        IncrementalSession::new(&short_head, inference, limits).err(),
        Some(SessionError::Model(ModelError::LengthMismatch {
            field: "head",
            actual: 11,
            expected: 8,
        }))
    );

    let mut short_factors = fixture.weights.clone();
    short_factors.factors.pop();
    assert_eq!(
        IncrementalSession::new(&short_factors, inference, limits).err(),
        Some(SessionError::Model(ModelError::LengthMismatch {
            field: "factors",
            actual: 23,
            expected: 24,
        }))
    );

    let mut nan_bias = fixture.weights.clone();
    nan_bias.bias_bits = f32::NAN.to_bits();
    assert_eq!(
        IncrementalSession::new(&nan_bias, inference, limits).err(),
        Some(SessionError::Model(ModelError::NonFinite("bias")))
    );

    assert_eq!(
        IncrementalSession::new(
            &fixture.weights,
            inference,
            SessionLimits::new(4, 8, 0, 2)
        )
        .err(),
        Some(SessionError::ZeroLimit("max_deltas_per_frame"))
    );
}

#[test]
fn reversed_delta_swaps_the_tokens() {
    let delta = SessionDelta::new(3, 1, 7, 2);
    let reversed = delta.reversed();
    assert_eq!(reversed.site(), 3);
    assert_eq!(reversed.lane(), 1);
    assert_eq!(reversed.old_token(), 2);
    assert_eq!(reversed.new_token(), 7);
    assert_eq!(reversed.reversed(), delta);
}

#[test]
fn oversized_buffers_name_the_first_that_overflows() {
    let fixture = Fixture::new();
    let inference = InferenceConfig::new(Activation::Relu, Pooling::Sum);
    // The site offsets come first and are already too large.
    assert_eq!(
        IncrementalSession::new(
            &fixture.weights,
            inference,
            SessionLimits::new(usize::MAX / 4, 1, 1, 1)
        )
        .err(),
        Some(SessionError::CapacityOverflow("site offsets"))
    );
    // The small buffers are allocated; the delta arena is the first that
    // does not fit, although the frame ends after it would.
    assert_eq!(
        IncrementalSession::new(
            &fixture.weights,
            inference,
            SessionLimits::new(1, 1, 1, usize::MAX / 16)
        )
        .err(),
        Some(SessionError::CapacityOverflow("delta arena"))
    );
}
