//! Preallocated incremental evaluation session for make/undo search.
//!
//! A session owns the integer state that quantized inference needs (per-site
//! embedding sums and per-group pooled accumulators) plus a reversible stack
//! of token-replacement frames. A search pushes one frame per move, scores
//! the current position, and pops to restore the previous one.
//!
//! * frames below `materialized_depth` have been applied to the numeric
//!   state, and materialized frames always form a prefix of the pushed frames;
//! * a whole frame, or a whole reset, is validated before anything mutates;
//! * every buffer is sized once at construction.

use vstd::prelude::*;

use crate::features::{
    activate_spec, emb_bound, first_index, fits_i32, group_divisors_spec, group_is_empty,
    group_size, group_sum, grouped_features, lemma_div_mod_index, lemma_first_index,
    lemma_first_index_stable, lemma_flat_index, lemma_flat_index_distinct, lemma_group_sum_bound,
    lemma_group_sum_update, lemma_group_sum_without_bound, lemma_site_sum_bound,
    lemma_group_size_positive, lemma_site_sum_update, monotone_upto, site_sum,
};
use crate::model::{f32_bits_finite, shape_error, ModelError, ModelShape, QuantizedCodebookWeights};
use crate::trainer::{
    activate, first_decrease, lemma_first_decrease, lemma_first_decrease_stable, lemma_monotone,
    materialize_error, offsets_well_formed, quantized_shape_error, site_is_bad, site_overflow,
    slot_is_bad, step_ok, structure_issue, Activation, GroupedTokens, InferenceConfig, Pooling,
};

verus! {

/// Largest number of token slots a session may hold.
///
/// Quantized embedding components are `i16`, so a site sum is bounded by
/// `slots * 32768` and a group accumulator by the same amount; this cap keeps
/// every accumulator inside `i32`.
pub const SESSION_MAX_TOKEN_SLOTS: usize = 65_535;

/// One token replacement inside a search frame.
///
/// `lane` indexes the token within its site, so the replaced slot is
/// `site_offsets[site] + lane`.
#[derive(Clone, Copy, Debug, Default, PartialEq, Eq)]
pub struct SessionDelta {
    pub(crate) site: u32,
    pub(crate) lane: u32,
    pub(crate) old: u16,
    pub(crate) new: u16,
}

impl SessionDelta {
    pub closed spec fn spec_site(self) -> u32 {
        self.site
    }

    pub closed spec fn spec_lane(self) -> u32 {
        self.lane
    }

    pub closed spec fn spec_old(self) -> u16 {
        self.old
    }

    pub closed spec fn spec_new(self) -> u16 {
        self.new
    }

    pub fn new(site: u32, lane: u32, old_token: u16, new_token: u16) -> (r: Self)
        ensures
            r.spec_site() == site,
            r.spec_lane() == lane,
            r.spec_old() == old_token,
            r.spec_new() == new_token,
    {
        SessionDelta { site, lane, old: old_token, new: new_token }
    }

    pub fn site(self) -> (r: u32)
        ensures
            r == self.spec_site(),
    {
        self.site
    }

    pub fn lane(self) -> (r: u32)
        ensures
            r == self.spec_lane(),
    {
        self.lane
    }

    pub fn old_token(self) -> (r: u16)
        ensures
            r == self.spec_old(),
    {
        self.old
    }

    pub fn new_token(self) -> (r: u16)
        ensures
            r == self.spec_new(),
    {
        self.new
    }

    /// The same replacement in the opposite direction.
    pub fn reversed(self) -> (r: Self)
        ensures
            r.spec_site() == self.spec_site(),
            r.spec_lane() == self.spec_lane(),
            r.spec_old() == self.spec_new(),
            r.spec_new() == self.spec_old(),
    {
        SessionDelta { site: self.site, lane: self.lane, old: self.new, new: self.old }
    }
}

/// Fixed capacities chosen once, when a session is created.
#[derive(Clone, Copy, Debug, PartialEq, Eq, Structural)]
pub struct SessionLimits {
    /// Largest site count a reset may install.
    pub max_sites: usize,
    /// Largest total token count a reset may install.
    pub max_token_slots: usize,
    /// Largest number of replacements one pushed frame may carry.
    pub max_deltas_per_frame: usize,
    /// Largest number of frames that may be live at once.
    pub max_depth: usize,
}

/// Observable session state.
#[derive(Clone, Copy, Debug, PartialEq, Eq, Structural)]
pub struct SessionInfo {
    pub site_count: usize,
    pub token_slots: usize,
    pub group_count: usize,
    pub depth: usize,
    pub materialized_depth: usize,
    pub pending_deltas: usize,
    pub limits: SessionLimits,
}

/// Error returned by session construction, reset, or a search operation.
#[derive(Clone, Debug, PartialEq, Eq)]
#[non_exhaustive]
pub enum SessionError {
    Model(ModelError),
    ZeroLimit(&'static str),
    CapacityOverflow(&'static str),
    AllocationFailed { collection: &'static str, requested: usize },
    LimitExceeded { field: &'static str, requested: usize, limit: usize },
    NotReady,
    OffsetTable(&'static str),
    SiteOutOfRange { site: usize, site_count: usize },
    LaneOutOfRange { site: usize, lane: usize, lane_count: usize },
    TokenOutOfRange { token: u16, token_count: usize },
    GroupOutOfRange { site: usize, group: usize, group_count: usize },
    EmptyMeanGroup { group: usize },
    OldTokenMismatch { site: usize, lane: usize, expected: u16, actual: u16 },
    DuplicateSlot { site: usize, lane: usize },
    EmptyStack,
}

/// The error `SessionLimits` validation reports, if any.
pub open spec fn limits_error(limits: SessionLimits) -> Option<SessionError> {
    if limits.max_sites == 0 {
        Some(SessionError::ZeroLimit("max_sites"))
    } else if limits.max_token_slots == 0 {
        Some(SessionError::ZeroLimit("max_token_slots"))
    } else if limits.max_deltas_per_frame == 0 {
        Some(SessionError::ZeroLimit("max_deltas_per_frame"))
    } else if limits.max_depth == 0 {
        Some(SessionError::ZeroLimit("max_depth"))
    } else if limits.max_token_slots > SESSION_MAX_TOKEN_SLOTS {
        Some(
            SessionError::LimitExceeded {
                field: "max_token_slots",
                requested: limits.max_token_slots,
                limit: SESSION_MAX_TOKEN_SLOTS,
            },
        )
    } else if limits.max_depth * limits.max_deltas_per_frame > usize::MAX {
        Some(SessionError::CapacityOverflow("delta arena"))
    } else {
        None
    }
}

/// Limits are accepted exactly when all four are non-zero, the token slots
/// stay within [`SESSION_MAX_TOKEN_SLOTS`] (65535), and the delta arena's
/// length `max_depth * max_deltas_per_frame` is representable; an arena of
/// any representable length is accepted, and only an unrepresentable one is
/// a capacity overflow.
pub proof fn lemma_limits_accepted(limits: SessionLimits)
    ensures
        limits_error(limits) is None <==> {
            &&& limits.max_sites > 0
            &&& limits.max_token_slots > 0
            &&& limits.max_deltas_per_frame > 0
            &&& limits.max_depth > 0
            &&& limits.max_token_slots <= 65535
            &&& limits.max_depth * limits.max_deltas_per_frame <= usize::MAX
        },
        limits_error(limits) == Some(SessionError::CapacityOverflow("delta arena")) <==> {
            &&& limits.max_sites > 0
            &&& limits.max_token_slots > 0
            &&& limits.max_deltas_per_frame > 0
            &&& limits.max_depth > 0
            &&& limits.max_token_slots <= 65535
            &&& limits.max_depth * limits.max_deltas_per_frame > usize::MAX
        },
{
}

impl SessionLimits {
    pub fn new(
        max_sites: usize,
        max_token_slots: usize,
        max_deltas_per_frame: usize,
        max_depth: usize,
    ) -> (r: Self)
        ensures
            r == (SessionLimits { max_sites, max_token_slots, max_deltas_per_frame, max_depth }),
    {
        SessionLimits { max_sites, max_token_slots, max_deltas_per_frame, max_depth }
    }

    /// Checks the limits and returns the capacity of the delta arena.
    fn validate(self) -> (r: Result<usize, SessionError>)
        ensures
            limits_error(self) matches Some(e) ==> r == Err::<usize, SessionError>(e),
            limits_error(self) is None ==> r == Ok::<usize, SessionError>(
                (self.max_depth * self.max_deltas_per_frame) as usize,
            ),
    {
        if self.max_sites == 0 {
            return Err(SessionError::ZeroLimit("max_sites"));
        }
        if self.max_token_slots == 0 {
            return Err(SessionError::ZeroLimit("max_token_slots"));
        }
        if self.max_deltas_per_frame == 0 {
            return Err(SessionError::ZeroLimit("max_deltas_per_frame"));
        }
        if self.max_depth == 0 {
            return Err(SessionError::ZeroLimit("max_depth"));
        }
        if self.max_token_slots > SESSION_MAX_TOKEN_SLOTS {
            return Err(
                SessionError::LimitExceeded {
                    field: "max_token_slots",
                    requested: self.max_token_slots,
                    limit: SESSION_MAX_TOKEN_SLOTS,
                },
            );
        }
        match self.max_depth.checked_mul(self.max_deltas_per_frame) {
            Some(capacity) => Ok(capacity),
            None => Err(SessionError::CapacityOverflow("delta arena")),
        }
    }
}

/// Calls `Vec::try_reserve_exact`.
///
/// The contents of the vector never change. Whether the reservation succeeds
/// depends on the allocator, so the result is left unconstrained.
#[verifier::external_body]
fn try_reserve_exact<T>(values: &mut Vec<T>, additional: usize) -> (ok: bool)
    ensures
        final(values)@ == old(values)@,
{
    values.try_reserve_exact(additional).is_ok()
}

/// Byte size of a buffer of `len` values of `T`.
pub open spec fn buffer_bytes<T>(len: int) -> int {
    vstd::layout::size_of::<T>() * len
}

/// Allocates a buffer of `len` copies of `value`.
///
/// A byte size beyond `isize::MAX` is a capacity overflow; an allocator
/// refusal is reported as an allocation failure.
fn filled<T: Copy>(len: usize, value: T, collection: &'static str) -> (r: Result<Vec<T>, SessionError>)
    ensures
        buffer_bytes::<T>(len as int) > isize::MAX ==> r == Err::<Vec<T>, SessionError>(
            SessionError::CapacityOverflow(collection),
        ),
        buffer_bytes::<T>(len as int) <= isize::MAX ==> (r matches Ok(v) && v@ == Seq::new(
            len as nat,
            |_i: int| value,
        )) || r == Err::<Vec<T>, SessionError>(
            SessionError::AllocationFailed { collection, requested: len },
        ),
{
    let element = core::mem::size_of::<T>();
    let bytes = match element.checked_mul(len) {
        Some(bytes) => bytes,
        None => return Err(SessionError::CapacityOverflow(collection)),
    };
    if bytes > isize::MAX as usize {
        return Err(SessionError::CapacityOverflow(collection));
    }
    let mut values: Vec<T> = Vec::new();
    if !try_reserve_exact(&mut values, len) {
        return Err(SessionError::AllocationFailed { collection, requested: len });
    }
    while values.len() < len
        invariant
            values@.len() <= len,
            values@ == Seq::new(values@.len(), |_i: int| value),
        decreases len - values@.len(),
    {
        values.push(value);
        assert(values@ =~= Seq::new(values@.len(), |_i: int| value));
    }
    Ok(values)
}


/// Slot replaced by `d` under the offset table `offsets`.
pub open spec fn slot_of(offsets: Seq<int>, d: SessionDelta) -> int {
    offsets[d.spec_site() as int] + d.spec_lane() as int
}

/// Number of lanes site `site` owns.
pub open spec fn lane_count(offsets: Seq<int>, site: int) -> int {
    offsets[site + 1] - offsets[site]
}

/// Tokens after applying the first `j` replacements of `frame` in order.
pub open spec fn apply_deltas(tokens: Seq<u16>, offsets: Seq<int>, frame: Seq<SessionDelta>, j: int) -> Seq<
    u16,
>
    decreases j,
{
    if j <= 0 {
        tokens
    } else {
        apply_deltas(tokens, offsets, frame, j - 1).update(
            slot_of(offsets, frame[j - 1]),
            frame[j - 1].spec_new(),
        )
    }
}

/// Tokens after applying every replacement of `frame`.
pub open spec fn apply_frame(tokens: Seq<u16>, offsets: Seq<int>, frame: Seq<SessionDelta>) -> Seq<u16> {
    apply_deltas(tokens, offsets, frame, frame.len() as int)
}

/// `d` names an existing site and lane, a token the model knows, and the
/// token currently in its slot.
pub open spec fn delta_fits(
    tokens: Seq<u16>,
    offsets: Seq<int>,
    site_count: int,
    token_count: int,
    d: SessionDelta,
) -> bool {
    &&& (d.spec_site() as int) < site_count
    &&& (d.spec_lane() as int) < lane_count(offsets, d.spec_site() as int)
    &&& (d.spec_new() as int) < token_count
    &&& tokens[slot_of(offsets, d)] == d.spec_old()
}

/// Every replacement of `frame` fits `tokens`, and no slot is named twice.
pub open spec fn frame_fits(
    tokens: Seq<u16>,
    offsets: Seq<int>,
    site_count: int,
    token_count: int,
    frame: Seq<SessionDelta>,
) -> bool {
    &&& forall|i: int|
        0 <= i < frame.len() ==> delta_fits(tokens, offsets, site_count, token_count, #[trigger] frame[i])
    &&& forall|i: int, j: int|
        0 <= i < j < frame.len() ==> slot_of(offsets, #[trigger] frame[i]) != slot_of(
            offsets,
            #[trigger] frame[j],
        )
}

/// Every token is known to a model with `token_count` rows.
pub open spec fn tokens_in_range(tokens: Seq<u16>, token_count: int) -> bool {
    forall|i: int| 0 <= i < tokens.len() ==> (#[trigger] tokens[i] as int) < token_count
}

/// Entry `(row, c)` of a row-major table with `dim` columns.
pub open spec fn entry(values: Seq<i32>, dim: int, row: int, c: int) -> int {
    values[row * dim + c] as int
}

/// Site sums and group accumulators are exactly those of `tokens`.
pub open spec fn numeric_matches(
    w: QuantizedCodebookWeights,
    activation: Activation,
    offsets: Seq<int>,
    groups: Seq<int>,
    group_count: int,
    site_sums: Seq<i32>,
    group_features: Seq<i32>,
    tokens: Seq<u16>,
) -> bool {
    let dim = w.dim as int;
    let site_count = groups.len() as int;
    &&& forall|s: int, c: int|
        0 <= s < site_count && 0 <= c < dim ==> #[trigger] entry(site_sums, dim, s, c) == site_sum(
            w,
            tokens,
            offsets[s],
            offsets[s + 1],
            c,
        )
    &&& forall|g: int, c: int|
        0 <= g < group_count && 0 <= c < dim ==> #[trigger] entry(group_features, dim, g, c)
            == group_sum(w, activation, tokens, offsets, groups, site_count, g, c)
}

/// Abstract state of an [`IncrementalSession`].
pub struct SessionView {
    pub weights: QuantizedCodebookWeights,
    pub inference: InferenceConfig,
    pub limits: SessionLimits,
    /// Whether a position has been installed.
    pub ready: bool,
    pub token_count: nat,
    pub group_count: nat,
    pub site_count: nat,
    /// Current logical tokens, in flat slot order.
    pub tokens: Seq<u16>,
    /// Site offset table of the installed position (`site_count + 1` entries).
    pub offsets: Seq<int>,
    /// Group of each site of the installed position.
    pub groups: Seq<int>,
    /// Pushed frames, oldest first.
    pub frames: Seq<Seq<SessionDelta>>,
    /// Tokens before the first frame, after each frame in turn.
    pub history: Seq<Seq<u16>>,
    pub materialized_depth: nat,
    pub pending_deltas: nat,
    /// Pooled integer group accumulators.
    pub features: Seq<int>,
    /// Pooling divisor of each group.
    pub divisors: Seq<int>,
}

impl SessionView {
    pub open spec fn depth(self) -> nat {
        self.frames.len()
    }

    pub open spec fn dim(self) -> nat {
        self.weights.dim as nat
    }

    /// Pooled features of the current tokens, as a full rebuild computes them.
    pub open spec fn rebuilt_features(self) -> Seq<int> {
        grouped_features(
            self.weights,
            self.inference.activation,
            self.tokens,
            self.offsets,
            self.groups,
            self.group_count,
        )
    }

    /// Every field but the frame stack, the tokens and the numeric state.
    pub open spec fn same_setup(self, other: SessionView) -> bool {
        &&& self.weights == other.weights
        &&& self.inference == other.inference
        &&& self.limits == other.limits
        &&& self.ready == other.ready
        &&& self.token_count == other.token_count
        &&& self.group_count == other.group_count
        &&& self.site_count == other.site_count
        &&& self.offsets == other.offsets
        &&& self.groups == other.groups
        &&& self.divisors == other.divisors
    }
}

/// Preallocated incremental evaluator over one immutable quantized model,
/// which it borrows, so that many sessions can share the same weights.
///
/// Construction performs every allocation; reset, push, materialization and
/// pop only write into buffers that already exist.
pub struct IncrementalSession<'a> {
    weights: &'a QuantizedCodebookWeights,
    inference: InferenceConfig,
    limits: SessionLimits,
    dim: usize,
    group_count: usize,
    token_count: usize,
    ready: bool,
    site_count: usize,
    token_slots: usize,
    site_offsets: Vec<u32>,
    site_groups: Vec<u32>,
    logical: Vec<u16>,
    site_sums: Vec<i32>,
    group_features: Vec<i32>,
    group_divisors: Vec<usize>,
    group_counts: Vec<usize>,
    deltas: Vec<SessionDelta>,
    frame_ends: Vec<usize>,
    depth: usize,
    materialized_depth: usize,
    delta_len: usize,
    slot_stamp: Vec<u32>,
    stamp: u32,
    history: Ghost<Seq<Seq<u16>>>,
}

impl<'a> View for IncrementalSession<'a> {
    type V = SessionView;

    closed spec fn view(&self) -> SessionView {
        SessionView {
            weights: *self.weights,
            inference: self.inference,
            limits: self.limits,
            ready: self.ready,
            token_count: self.token_count as nat,
            group_count: self.group_count as nat,
            site_count: self.site_count as nat,
            tokens: self.spec_tokens(),
            offsets: self.spec_offsets(),
            groups: self.spec_groups(),
            frames: self.spec_frames(),
            history: self.history@,
            materialized_depth: self.materialized_depth as nat,
            pending_deltas: self.delta_len as nat,
            features: self.group_features@.map_values(|x: i32| x as int),
            divisors: self.group_divisors@.map_values(|x: usize| x as int),
        }
    }
}

/// The buffers a session allocates, in allocation order: each one's name,
/// length and byte size.
pub open spec fn session_buffers(limits: SessionLimits, dim: int, group_count: int) -> Seq<
    (&'static str, int, int),
> {
    seq![
        ("site offsets", limits.max_sites + 1, buffer_bytes::<u32>(limits.max_sites + 1)),
        ("site groups", limits.max_sites as int, buffer_bytes::<u32>(limits.max_sites as int)),
        (
            "logical tokens",
            limits.max_token_slots as int,
            buffer_bytes::<u16>(limits.max_token_slots as int),
        ),
        ("site sums", limits.max_sites * dim, buffer_bytes::<i32>(limits.max_sites * dim)),
        ("group features", group_count * dim, buffer_bytes::<i32>(group_count * dim)),
        ("group divisors", group_count, buffer_bytes::<usize>(group_count)),
        ("group counts", group_count, buffer_bytes::<usize>(group_count)),
        (
            "delta arena",
            limits.max_depth * limits.max_deltas_per_frame,
            buffer_bytes::<SessionDelta>(limits.max_depth * limits.max_deltas_per_frame),
        ),
        ("frame ends", limits.max_depth as int, buffer_bytes::<usize>(limits.max_depth as int)),
        (
            "slot stamps",
            limits.max_token_slots as int,
            buffer_bytes::<u32>(limits.max_token_slots as int),
        ),
    ]
}

/// A buffer whose byte size fits in `isize`.
pub open spec fn buffer_fits(buffer: (&'static str, int, int)) -> bool {
    buffer.2 <= isize::MAX
}

/// Byte sizes of every buffer a session allocates fit in `isize`.
pub open spec fn buffers_fit(limits: SessionLimits, dim: int, group_count: int) -> bool {
    let buffers = session_buffers(limits, dim, group_count);
    forall|k: int| 0 <= k < buffers.len() ==> #[trigger] buffer_fits(buffers[k])
}

/// Construction stopped at buffer `k`: every earlier buffer fits and was
/// allocated, and buffer `k` is either too large (a capacity overflow naming
/// it) or was refused by the allocator (an allocation failure naming it and
/// its length).
pub open spec fn stopped_at(buffers: Seq<(&'static str, int, int)>, k: int, e: SessionError) -> bool {
    &&& 0 <= k < buffers.len()
    &&& forall|j: int| 0 <= j < k ==> #[trigger] buffer_fits(buffers[j])
    &&& if buffer_fits(buffers[k]) {
        e == SessionError::AllocationFailed { collection: buffers[k].0, requested: buffers[k].1 as usize }
    } else {
        e == SessionError::CapacityOverflow(buffers[k].0)
    }
}

/// The error construction reports for a model and limits, if any, apart from
/// buffer sizing and allocation.
pub open spec fn new_error(w: QuantizedCodebookWeights, limits: SessionLimits) -> Option<SessionError> {
    let tc = w.spec_token_count() as int;
    let gc = w.spec_group_count() as int;
    let dim = w.dim as int;
    match limits_error(limits) {
        Some(e) => Some(e),
        None => match shape_error(tc, gc, dim, w.fm_rank as int) {
            Some(e) => Some(SessionError::Model(e)),
            None => if w.embedding_scale <= 0 {
                Some(SessionError::Model(ModelError::NonPositiveScale("embedding_scale")))
            } else if w.head_scale <= 0 {
                Some(SessionError::Model(ModelError::NonPositiveScale("head_scale")))
            } else if w.factor_scale <= 0 {
                Some(SessionError::Model(ModelError::NonPositiveScale("factor_scale")))
            } else if w.head@.len() != gc * dim {
                Some(
                    SessionError::Model(
                        ModelError::LengthMismatch {
                            field: "head",
                            actual: w.head@.len() as usize,
                            expected: (gc * dim) as usize,
                        },
                    ),
                )
            } else if w.factors@.len() != gc * dim * w.fm_rank {
                Some(
                    SessionError::Model(
                        ModelError::LengthMismatch {
                            field: "factors",
                            actual: w.factors@.len() as usize,
                            expected: (gc * dim * w.fm_rank) as usize,
                        },
                    ),
                )
            } else if !f32_bits_finite(w.bias_bits) {
                Some(SessionError::Model(ModelError::NonFinite("bias")))
            } else if limits.max_sites * dim > usize::MAX {
                Some(SessionError::CapacityOverflow("site sums"))
            } else if limits.max_sites + 1 > usize::MAX {
                Some(SessionError::CapacityOverflow("site offsets"))
            } else {
                None
            },
        },
    }
}

impl<'a> IncrementalSession<'a> {
    closed spec fn spec_offsets(&self) -> Seq<int> {
        self.site_offsets@.subrange(0, self.site_count + 1).map_values(|o: u32| o as int)
    }

    closed spec fn spec_groups(&self) -> Seq<int> {
        self.site_groups@.subrange(0, self.site_count as int).map_values(|g: u32| g as int)
    }

    closed spec fn spec_tokens(&self) -> Seq<u16> {
        self.logical@.subrange(0, self.token_slots as int)
    }

    closed spec fn frame_start(&self, k: int) -> int {
        if k == 0 {
            0
        } else {
            self.frame_ends@[k - 1] as int
        }
    }

    closed spec fn frame_end(&self, k: int) -> int {
        self.frame_ends@[k] as int
    }

    closed spec fn frame_at(&self, k: int) -> Seq<SessionDelta> {
        self.deltas@.subrange(self.frame_start(k), self.frame_end(k))
    }

    closed spec fn spec_frames(&self) -> Seq<Seq<SessionDelta>> {
        Seq::new(self.depth as nat, |k: int| self.frame_at(k))
    }

    /// Changing only scratch state (group counts and slot stamps) keeps the
    /// invariant and the view.
    proof fn lemma_scratch_unobservable(pre: Self, post: Self)
        requires
            pre.wf(),
            post == (IncrementalSession {
                group_counts: post.group_counts,
                slot_stamp: post.slot_stamp,
                stamp: post.stamp,
                ..pre
            }),
            post.group_counts@.len() == pre.group_counts@.len(),
            post.slot_stamp@.len() == pre.slot_stamp@.len(),
            forall|i: int| 0 <= i < post.token_slots ==> #[trigger] post.slot_stamp@[i] <= post.stamp,
        ensures
            post.wf(),
            post@ == pre@,
    {
        assert forall|k: int| 0 <= k < pre.depth implies #[trigger] post.frame_at(k) == pre.frame_at(k) by {}
        assert forall|k: int| 0 <= k < pre.depth implies #[trigger] post.frame_end(k) == pre.frame_end(k)
            && post.frame_start(k) == pre.frame_start(k) by {}
        assert(post.spec_offsets() == pre.spec_offsets());
        assert(post.spec_groups() == pre.spec_groups());
        assert(post.spec_tokens() == pre.spec_tokens());
        assert(post.spec_frames() =~= pre.spec_frames());
    }

    /// The session's internal invariant.
    pub closed spec fn wf(&self) -> bool {
        let limits = self.limits;
        let dim = self.dim as int;
        let offsets = self.spec_offsets();
        let groups = self.spec_groups();
        let history = self.history@;
        &&& self.dim == self.weights.dim
        &&& self.dim > 0
        &&& self.token_count == self.weights.spec_token_count()
        &&& self.group_count == self.weights.spec_group_count()
        &&& self.weights.head@.len() == self.group_count * self.dim
        &&& shape_error(
            self.token_count as int,
            self.group_count as int,
            dim,
            self.weights.fm_rank as int,
        ) is None
        &&& self.weights.embedding_scale > 0
        &&& self.weights.head_scale > 0
        &&& self.weights.factor_scale > 0
        &&& self.weights.factors@.len() == self.group_count * self.dim * self.weights.fm_rank
        &&& f32_bits_finite(self.weights.bias_bits)
        &&& self.ready && self.inference.pooling == Pooling::Mean ==> forall|g: int|
            0 <= g < self.group_count ==> #[trigger] group_size(groups, self.site_count as int, g) > 0
        &&& limits_error(limits) is None
        &&& limits.max_depth < usize::MAX
        &&& limits.max_sites < usize::MAX
        &&& self.site_offsets@.len() == limits.max_sites + 1
        &&& self.site_groups@.len() == limits.max_sites
        &&& self.logical@.len() == limits.max_token_slots
        &&& self.site_sums@.len() == limits.max_sites * dim
        &&& self.group_features@.len() == self.group_count * dim
        &&& self.group_divisors@.len() == self.group_count
        &&& self.group_counts@.len() == self.group_count
        &&& self.deltas@.len() == limits.max_depth * limits.max_deltas_per_frame
        &&& self.frame_ends@.len() == limits.max_depth
        &&& self.slot_stamp@.len() == limits.max_token_slots
        &&& self.site_count <= limits.max_sites
        &&& self.token_slots <= limits.max_token_slots
        &&& crate::trainer::offsets_well_formed(self.token_slots as int, offsets, self.site_count as int)
        &&& forall|s: int| 0 <= s < self.site_count ==> (#[trigger] groups[s]) < self.group_count
        &&& !self.ready ==> self.site_count == 0 && self.token_slots == 0 && self.depth == 0
        &&& self.depth <= limits.max_depth
        &&& self.materialized_depth <= self.depth
        &&& self.delta_len <= self.depth * limits.max_deltas_per_frame
        &&& self.delta_len <= self.deltas@.len()
        &&& self.depth == 0 ==> self.delta_len == 0
        &&& self.depth > 0 ==> self.frame_end(self.depth - 1) == self.delta_len
        &&& forall|k: int|
            0 <= k < self.depth ==> self.frame_start(k) <= #[trigger] self.frame_end(k) <= self.delta_len
                && self.frame_end(k) <= (k + 1) * limits.max_deltas_per_frame
        &&& history.len() == self.depth + 1
        &&& history[self.depth as int] == self.spec_tokens()
        &&& forall|k: int|
            0 <= k <= self.depth ==> (#[trigger] history[k]).len() == self.token_slots
                && tokens_in_range(history[k], self.token_count as int)
        &&& forall|k: int|
            0 <= k < self.depth ==> frame_fits(
                history[k],
                offsets,
                self.site_count as int,
                self.token_count as int,
                #[trigger] self.frame_at(k),
            ) && history[k + 1] == apply_frame(history[k], offsets, self.frame_at(k))
        &&& numeric_matches(
            *self.weights,
            self.inference.activation,
            offsets,
            groups,
            self.group_count as int,
            self.site_sums@,
            self.group_features@,
            history[self.materialized_depth as int],
        )
        &&& self.ready ==> self.group_divisors@.map_values(|x: usize| x as int)
            == group_divisors_spec(self.inference.pooling, groups, self.group_count as nat)
        &&& forall|i: int| 0 <= i < self.token_slots ==> #[trigger] self.slot_stamp@[i] <= self.stamp
    }
}


/// The state of a freshly constructed session.
pub open spec fn initial_view(
    v: SessionView,
    weights: QuantizedCodebookWeights,
    inference: InferenceConfig,
    limits: SessionLimits,
) -> bool {
    &&& v.weights == weights
    &&& v.inference == inference
    &&& v.limits == limits
    &&& !v.ready
    &&& v.token_count == weights.spec_token_count()
    &&& v.group_count == weights.spec_group_count()
    &&& v.site_count == 0
    &&& v.tokens == Seq::<u16>::empty()
    &&& v.offsets == seq![0int]
    &&& v.groups == Seq::<int>::empty()
    &&& v.frames == Seq::<Seq<SessionDelta>>::empty()
    &&& v.history == seq![Seq::<u16>::empty()]
    &&& v.materialized_depth == 0
    &&& v.pending_deltas == 0
    &&& v.features == Seq::new(v.group_count * v.dim(), |_i: int| 0int)
    &&& v.divisors == Seq::new(v.group_count, |_i: int| 1int)
}

impl<'a> IncrementalSession<'a> {
    /// Allocates every buffer the search loop will need.
    ///
    /// The limits are checked first (non-zero, at most
    /// [`SESSION_MAX_TOKEN_SLOTS`] token slots, a representable delta arena),
    /// then the model (valid shape, positive scales, head and factor lengths
    /// matching the shape, finite bias).
    pub fn new(weights: &'a QuantizedCodebookWeights, inference: InferenceConfig, limits: SessionLimits) -> (r:
        Result<Self, SessionError>)
        ensures
            new_error(*weights, limits) matches Some(e) ==> r == Err::<Self, SessionError>(e),
            new_error(*weights, limits) is None ==> match r {
                Ok(s) => s.wf() && initial_view(s@, *weights, inference, limits) && buffers_fit(
                    limits,
                    weights.dim as int,
                    weights.spec_group_count() as int,
                ),
                Err(e) => exists|k: int|
                    stopped_at(
                        session_buffers(limits, weights.dim as int, weights.spec_group_count() as int),
                        k,
                        e,
                    ),
            },
            new_error(*weights, limits) is None && buffers_fit(
                limits,
                weights.dim as int,
                weights.spec_group_count() as int,
            ) ==> r is Ok || r is Err && r->Err_0 is AllocationFailed,
            new_error(*weights, limits) is None && !buffers_fit(
                limits,
                weights.dim as int,
                weights.spec_group_count() as int,
            ) ==> r is Err && r->Err_0 is CapacityOverflow || r is Err && r->Err_0 is AllocationFailed,
    {
        let arena_capacity = match limits.validate() {
            Ok(capacity) => capacity,
            Err(e) => return Err(e),
        };
        let shape = match ModelShape::new(
            weights.token_count(),
            weights.group_count(),
            weights.dim(),
            weights.fm_rank(),
        ) {
            Ok(shape) => shape,
            Err(e) => return Err(SessionError::Model(e)),
        };
        if weights.embedding_scale <= 0 {
            return Err(SessionError::Model(ModelError::NonPositiveScale("embedding_scale")));
        }
        if weights.head_scale <= 0 {
            return Err(SessionError::Model(ModelError::NonPositiveScale("head_scale")));
        }
        if weights.factor_scale <= 0 {
            return Err(SessionError::Model(ModelError::NonPositiveScale("factor_scale")));
        }
        let feature_len = match shape.feature_len() {
            Ok(n) => n,
            Err(e) => return Err(SessionError::Model(e)),
        };
        if weights.head.len() != feature_len {
            return Err(
                SessionError::Model(
                    ModelError::LengthMismatch {
                        field: "head",
                        actual: weights.head.len(),
                        expected: feature_len,
                    },
                ),
            );
        }
        let factor_len = match shape.factor_len() {
            Ok(n) => n,
            Err(e) => return Err(SessionError::Model(e)),
        };
        if weights.factors.len() != factor_len {
            return Err(
                SessionError::Model(
                    ModelError::LengthMismatch {
                        field: "factors",
                        actual: weights.factors.len(),
                        expected: factor_len,
                    },
                ),
            );
        }
        if !weights.bias_is_finite() {
            return Err(SessionError::Model(ModelError::NonFinite("bias")));
        }
        let dim = shape.dim();
        let group_count = shape.group_count();
        let token_count = shape.token_count();
        let site_state_len = match limits.max_sites.checked_mul(dim) {
            Some(n) => n,
            None => return Err(SessionError::CapacityOverflow("site sums")),
        };
        let offset_len = match limits.max_sites.checked_add(1) {
            Some(n) => n,
            None => return Err(SessionError::CapacityOverflow("site offsets")),
        };
        let ghost buffers = session_buffers(limits, dim as int, group_count as int);
        let site_offsets = match filled(offset_len, 0u32, "site offsets") {
            Ok(v) => v,
            Err(e) => {
                proof {
                    assert(stopped_at(buffers, 0, e));
                }
                return Err(e);
            },
        };
        let site_groups = match filled(limits.max_sites, 0u32, "site groups") {
            Ok(v) => v,
            Err(e) => {
                proof {
                    assert(buffer_fits(buffers[0]));
                    assert(stopped_at(buffers, 1, e));
                }
                return Err(e);
            },
        };
        let logical = match filled(limits.max_token_slots, 0u16, "logical tokens") {
            Ok(v) => v,
            Err(e) => {
                proof {
                    assert(buffer_fits(buffers[0]));
                    assert(buffer_fits(buffers[1]));
                    assert(stopped_at(buffers, 2, e));
                }
                return Err(e);
            },
        };
        let site_sums = match filled(site_state_len, 0i32, "site sums") {
            Ok(v) => v,
            Err(e) => {
                proof {
                    assert(buffer_fits(buffers[0]));
                    assert(buffer_fits(buffers[1]));
                    assert(buffer_fits(buffers[2]));
                    assert(stopped_at(buffers, 3, e));
                }
                return Err(e);
            },
        };
        let group_features = match filled(feature_len, 0i32, "group features") {
            Ok(v) => v,
            Err(e) => {
                proof {
                    assert(buffer_fits(buffers[0]));
                    assert(buffer_fits(buffers[1]));
                    assert(buffer_fits(buffers[2]));
                    assert(buffer_fits(buffers[3]));
                    assert(stopped_at(buffers, 4, e));
                }
                return Err(e);
            },
        };
        let group_divisors = match filled(group_count, 1usize, "group divisors") {
            Ok(v) => v,
            Err(e) => {
                proof {
                    assert(buffer_fits(buffers[0]));
                    assert(buffer_fits(buffers[1]));
                    assert(buffer_fits(buffers[2]));
                    assert(buffer_fits(buffers[3]));
                    assert(buffer_fits(buffers[4]));
                    assert(stopped_at(buffers, 5, e));
                }
                return Err(e);
            },
        };
        let group_counts = match filled(group_count, 0usize, "group counts") {
            Ok(v) => v,
            Err(e) => {
                proof {
                    assert(buffer_fits(buffers[0]));
                    assert(buffer_fits(buffers[1]));
                    assert(buffer_fits(buffers[2]));
                    assert(buffer_fits(buffers[3]));
                    assert(buffer_fits(buffers[4]));
                    assert(buffer_fits(buffers[5]));
                    assert(stopped_at(buffers, 6, e));
                }
                return Err(e);
            },
        };
        let deltas = match filled(arena_capacity, SessionDelta::new(0, 0, 0, 0), "delta arena") {
            Ok(v) => v,
            Err(e) => {
                proof {
                    assert(buffer_fits(buffers[0]));
                    assert(buffer_fits(buffers[1]));
                    assert(buffer_fits(buffers[2]));
                    assert(buffer_fits(buffers[3]));
                    assert(buffer_fits(buffers[4]));
                    assert(buffer_fits(buffers[5]));
                    assert(buffer_fits(buffers[6]));
                    assert(stopped_at(buffers, 7, e));
                }
                return Err(e);
            },
        };
        let frame_ends = match filled(limits.max_depth, 0usize, "frame ends") {
            Ok(v) => v,
            Err(e) => {
                proof {
                    assert(buffer_fits(buffers[0]));
                    assert(buffer_fits(buffers[1]));
                    assert(buffer_fits(buffers[2]));
                    assert(buffer_fits(buffers[3]));
                    assert(buffer_fits(buffers[4]));
                    assert(buffer_fits(buffers[5]));
                    assert(buffer_fits(buffers[6]));
                    assert(buffer_fits(buffers[7]));
                    assert(stopped_at(buffers, 8, e));
                }
                return Err(e);
            },
        };
        let slot_stamp = match filled(limits.max_token_slots, 0u32, "slot stamps") {
            Ok(v) => v,
            Err(e) => {
                proof {
                    assert(buffer_fits(buffers[0]));
                    assert(buffer_fits(buffers[1]));
                    assert(buffer_fits(buffers[2]));
                    assert(buffer_fits(buffers[3]));
                    assert(buffer_fits(buffers[4]));
                    assert(buffer_fits(buffers[5]));
                    assert(buffer_fits(buffers[6]));
                    assert(buffer_fits(buffers[7]));
                    assert(buffer_fits(buffers[8]));
                    assert(stopped_at(buffers, 9, e));
                }
                return Err(e);
            },
        };
        proof {
            assert(buffer_bytes::<usize>(limits.max_depth as int) == 8 * limits.max_depth
                || buffer_bytes::<usize>(limits.max_depth as int) == 4 * limits.max_depth);
        }
        let ghost initial: Seq<Seq<u16>> = seq![Seq::<u16>::empty()];
        let session = IncrementalSession {
            weights,
            inference,
            limits,
            dim,
            group_count,
            token_count,
            ready: false,
            site_count: 0,
            token_slots: 0,
            site_offsets,
            site_groups,
            logical,
            site_sums,
            group_features,
            group_divisors,
            group_counts,
            deltas,
            frame_ends,
            depth: 0,
            materialized_depth: 0,
            delta_len: 0,
            slot_stamp,
            stamp: 0,
            history: Ghost(initial),
        };
        proof {
            let offsets = session.spec_offsets();
            assert(offsets =~= seq![0int]);
            assert(session.spec_tokens() =~= Seq::<u16>::empty());
            assert(session.spec_groups() =~= Seq::<int>::empty());
            assert(session.spec_frames() =~= Seq::<Seq<SessionDelta>>::empty());
            assert forall|g: int, c: int| 0 <= g < group_count && 0 <= c < dim implies #[trigger] entry(
                session.group_features@,
                dim as int,
                g,
                c,
            ) == group_sum(
                *session.weights,
                inference.activation,
                Seq::<u16>::empty(),
                offsets,
                session.spec_groups(),
                0,
                g,
                c,
            ) by {
                lemma_flat_index(g, c, group_count as int, dim as int);
            }
            assert(session.group_features@.map_values(|x: i32| x as int) =~= Seq::new(
                (group_count * dim) as nat,
                |_i: int| 0int,
            ));
            assert(session.group_divisors@.map_values(|x: usize| x as int) =~= Seq::new(
                group_count as nat,
                |_i: int| 1int,
            ));
        }
        Ok(session)
    }

    /// Immutable weights backing this session.
    pub fn weights(&self) -> (r: &QuantizedCodebookWeights)
        ensures
            *r == self@.weights,
    {
        self.weights
    }

    /// Activation and pooling recipe fixed at construction.
    pub fn inference_config(&self) -> (r: InferenceConfig)
        ensures
            r == self@.inference,
    {
        self.inference
    }

    /// Capacities fixed at construction.
    pub fn limits(&self) -> (r: SessionLimits)
        ensures
            r == self@.limits,
    {
        self.limits
    }

    /// Whether a position has been installed by [`Self::reset`].
    pub fn is_ready(&self) -> (r: bool)
        ensures
            r == self@.ready,
    {
        self.ready
    }

    /// Number of live frames.
    pub fn depth(&self) -> (r: usize)
        ensures
            r == self@.depth(),
    {
        self.depth
    }

    /// Number of frames already applied to the numeric state.
    pub fn materialized_depth(&self) -> (r: usize)
        ensures
            r == self@.materialized_depth,
    {
        self.materialized_depth
    }

    pub fn site_count(&self) -> (r: usize)
        ensures
            r == self@.site_count,
    {
        self.site_count
    }

    pub fn token_slots(&self) -> (r: usize)
        requires
            self.wf(),
        ensures
            r == self@.tokens.len(),
    {
        self.token_slots
    }

    /// Current tokens, in the flat slot order installed by [`Self::reset`].
    pub fn logical_tokens(&self) -> (r: &[u16])
        requires
            self.wf(),
        ensures
            r@ == self@.tokens,
    {
        vstd::slice::slice_subrange(self.logical.as_slice(), 0, self.token_slots)
    }

    /// Pooled integer group accumulators, exact after materialization.
    pub fn group_features(&self) -> (r: &[i32])
        ensures
            r@.map_values(|x: i32| x as int) == self@.features,
    {
        self.group_features.as_slice()
    }

    /// Pooling divisor for each group.
    pub fn group_divisors(&self) -> (r: &[usize])
        ensures
            r@.map_values(|x: usize| x as int) == self@.divisors,
    {
        self.group_divisors.as_slice()
    }

    pub fn info(&self) -> (r: SessionInfo)
        requires
            self.wf(),
        ensures
            r.site_count == self@.site_count,
            r.token_slots == self@.tokens.len(),
            r.group_count == self@.group_count,
            r.depth == self@.depth(),
            r.materialized_depth == self@.materialized_depth,
            r.pending_deltas == self@.pending_deltas,
            r.limits == self@.limits,
    {
        SessionInfo {
            site_count: self.site_count,
            token_slots: self.token_slots,
            group_count: self.group_count,
            depth: self.depth,
            materialized_depth: self.materialized_depth,
            pending_deltas: self.delta_len,
            limits: self.limits,
        }
    }
}


/// Offsets describe `site_count` sites over at most the session's slot cap.
pub open spec fn layout_ok(offsets: Seq<int>, site_count: int, tokens_len: int) -> bool {
    &&& crate::trainer::offsets_well_formed(tokens_len, offsets, site_count)
    &&& tokens_len <= SESSION_MAX_TOKEN_SLOTS
}

pub proof fn lemma_layout_monotone(offsets: Seq<int>, site_count: int, tokens_len: int)
    requires
        layout_ok(offsets, site_count, tokens_len),
        site_count >= 0,
    ensures
        monotone_upto(offsets, site_count),
        offsets[site_count] - offsets[0] <= SESSION_MAX_TOKEN_SLOTS,
        forall|s: int| 0 <= s < site_count ==> 0 <= offsets[s] <= #[trigger] offsets[s + 1] <= tokens_len,
{
}

/// What replacing the token in `slot` (inside site `site`) does to the
/// spec-level sums.
pub proof fn lemma_delta_effect(
    w: QuantizedCodebookWeights,
    activation: Activation,
    tokens: Seq<u16>,
    offsets: Seq<int>,
    groups: Seq<int>,
    site: int,
    slot: int,
    new: u16,
)
    requires
        layout_ok(offsets, groups.len() as int, tokens.len() as int),
        0 <= site < groups.len(),
        offsets[site] <= slot < offsets[site + 1],
    ensures
        ({
            let n = groups.len() as int;
            let t2 = tokens.update(slot, new);
            let lo = offsets[site];
            let hi = offsets[site + 1];
            let g = groups[site];
            &&& forall|c: int|
                #![trigger site_sum(w, t2, lo, hi, c)]
                site_sum(w, t2, lo, hi, c) == site_sum(w, tokens, lo, hi, c) + w.emb(new as int, c)
                    - w.emb(tokens[slot] as int, c)
            &&& forall|c: int|
                #![trigger site_sum(w, t2, lo, hi, c)]
                i32::MIN <= site_sum(w, t2, lo, hi, c) <= i32::MAX
            &&& forall|c: int|
                #![trigger group_sum(w, activation, tokens, offsets, groups, n, g, c)]
                i32::MIN <= group_sum(w, activation, tokens, offsets, groups, n, g, c) - activate_spec(
                    activation,
                    site_sum(w, tokens, lo, hi, c),
                ) <= i32::MAX
            &&& forall|gg: int, c: int|
                #![trigger group_sum(w, activation, t2, offsets, groups, n, gg, c)]
                group_sum(w, activation, t2, offsets, groups, n, gg, c) == group_sum(
                    w,
                    activation,
                    tokens,
                    offsets,
                    groups,
                    n,
                    gg,
                    c,
                ) + if gg == g {
                    activate_spec(activation, site_sum(w, t2, lo, hi, c)) - activate_spec(
                        activation,
                        site_sum(w, tokens, lo, hi, c),
                    )
                } else {
                    0
                }
            &&& forall|gg: int, c: int|
                #![trigger group_sum(w, activation, t2, offsets, groups, n, gg, c)]
                i32::MIN <= group_sum(w, activation, t2, offsets, groups, n, gg, c) <= i32::MAX
            &&& forall|s2: int, c: int|
                0 <= s2 < n && s2 != site ==> #[trigger] site_sum(w, t2, offsets[s2], offsets[s2 + 1], c)
                    == site_sum(w, tokens, offsets[s2], offsets[s2 + 1], c)
        }),
{
    let n = groups.len() as int;
    let t2 = tokens.update(slot, new);
    let lo = offsets[site];
    let hi = offsets[site + 1];
    let g = groups[site];
    lemma_layout_monotone(offsets, n, tokens.len() as int);
    assert forall|c: int|
        #![trigger site_sum(w, t2, lo, hi, c)]
        site_sum(w, t2, lo, hi, c) == site_sum(w, tokens, lo, hi, c) + w.emb(new as int, c) - w.emb(
            tokens[slot] as int,
            c,
        ) && i32::MIN <= site_sum(w, t2, lo, hi, c) <= i32::MAX by {
        lemma_site_sum_update(w, tokens, slot, new, lo, hi, c);
        lemma_site_sum_bound(w, t2, lo, hi, c);
    }
    assert forall|c: int|
        #![trigger group_sum(w, activation, tokens, offsets, groups, n, g, c)]
        i32::MIN <= group_sum(w, activation, tokens, offsets, groups, n, g, c) - activate_spec(
            activation,
            site_sum(w, tokens, lo, hi, c),
        ) <= i32::MAX by {
        lemma_group_sum_without_bound(w, activation, tokens, offsets, groups, n, g, c, site);
    }
    assert forall|gg: int, c: int|
        #![trigger group_sum(w, activation, t2, offsets, groups, n, gg, c)]
        group_sum(w, activation, t2, offsets, groups, n, gg, c) == group_sum(
            w,
            activation,
            tokens,
            offsets,
            groups,
            n,
            gg,
            c,
        ) + (if gg == g {
            activate_spec(activation, site_sum(w, t2, lo, hi, c)) - activate_spec(
                activation,
                site_sum(w, tokens, lo, hi, c),
            )
        } else {
            0
        }) && i32::MIN <= group_sum(w, activation, t2, offsets, groups, n, gg, c) <= i32::MAX by {
        lemma_group_sum_update(w, activation, tokens, offsets, groups, n, n, gg, c, site, slot, new);
        lemma_group_sum_bound(w, activation, t2, offsets, groups, n, gg, c);
    }
    assert forall|s2: int, c: int|
        0 <= s2 < n && s2 != site implies #[trigger] site_sum(w, t2, offsets[s2], offsets[s2 + 1], c)
        == site_sum(w, tokens, offsets[s2], offsets[s2 + 1], c) by {
        lemma_site_sum_update(w, tokens, slot, new, offsets[s2], offsets[s2 + 1], c);
        if s2 < site {
            assert(offsets[s2 + 1] <= offsets[site]);
        } else {
            assert(offsets[site + 1] <= offsets[s2]);
        }
    }
}


/// Replaces the token in `slot` of site `site` in the numeric state: the
/// site's activated contribution is removed from its group, its embedding
/// sums are updated in place, and the new contribution is added back, which
/// keeps the result exact under a non-linear activation.
#[verifier::loop_isolation(false)]
fn apply_delta_numeric(
    weights: &QuantizedCodebookWeights,
    activation: Activation,
    group_count: usize,
    site_groups: &Vec<u32>,
    site_sums: &mut Vec<i32>,
    group_features: &mut Vec<i32>,
    site: usize,
    old_token: u16,
    new_token: u16,
    Ghost(offsets): Ghost<Seq<int>>,
    Ghost(groups): Ghost<Seq<int>>,
    Ghost(tokens): Ghost<Seq<u16>>,
    Ghost(slot): Ghost<int>,
)
    requires
        weights.dim > 0,
        layout_ok(offsets, groups.len() as int, tokens.len() as int),
        groups.len() <= site_groups@.len(),
        forall|s: int|
            0 <= s < groups.len() ==> #[trigger] groups[s] == site_groups@[s] as int && groups[s]
                < group_count,
        0 <= site < groups.len(),
        offsets[site as int] <= slot < offsets[site + 1],
        tokens[slot] == old_token,
        (old_token as int) < weights.spec_token_count(),
        (new_token as int) < weights.spec_token_count(),
        groups.len() * weights.dim <= old(site_sums)@.len(),
        old(group_features)@.len() == group_count * weights.dim,
        numeric_matches(
            *weights,
            activation,
            offsets,
            groups,
            group_count as int,
            old(site_sums)@,
            old(group_features)@,
            tokens,
        ),
    ensures
        final(site_sums)@.len() == old(site_sums)@.len(),
        final(group_features)@.len() == old(group_features)@.len(),
        numeric_matches(
            *weights,
            activation,
            offsets,
            groups,
            group_count as int,
            final(site_sums)@,
            final(group_features)@,
            tokens.update(slot, new_token),
        ),
{
    let ghost n = groups.len() as int;
    let ghost ss0 = site_sums@;
    let ghost gf0 = group_features@;
    let ghost t2 = tokens.update(slot, new_token);
    let ghost lo = offsets[site as int];
    let ghost hi = offsets[site + 1];
    let dim = weights.dim;
    let ghost d = dim as int;
    let _site_sums_len = site_sums.len();
    let _group_features_len = group_features.len();
    proof {
        lemma_flat_index(site as int, 0, n, d);
        lemma_delta_effect(*weights, activation, tokens, offsets, groups, site as int, slot, new_token);
    }
    let site_start = site * dim;
    let group = site_groups[site] as usize;
    let ghost g = group as int;
    proof {
        assert(groups[site as int] == g);
        lemma_flat_index(g, 0, group_count as int, d);
        assert forall|k: int| 0 <= k < d implies ss0[site_start + k] as int == site_sum(
            *weights,
            tokens,
            lo,
            hi,
            k,
        ) && gf0[group * dim + k] as int == group_sum(
            *weights,
            activation,
            tokens,
            offsets,
            groups,
            n,
            g,
            k,
        ) by {
            assert(entry(ss0, d, site as int, k) == site_sum(*weights, tokens, lo, hi, k));
            assert(entry(gf0, d, g, k) == group_sum(
                *weights,
                activation,
                tokens,
                offsets,
                groups,
                n,
                g,
                k,
            ));
        }
    }
    let group_start = group * dim;
    let mut component: usize = 0;
    while component < dim
        invariant
            0 <= component <= dim,
            site_sums@ == ss0,
            group_features@.len() == gf0.len(),
            forall|i: int|
                0 <= i < gf0.len() && !(group_start <= i < group_start + component)
                    ==> group_features@[i] == gf0[i],
            forall|k: int|
                #![trigger group_features@[group_start + k]]
                0 <= k < component ==> group_features@[group_start + k] == gf0[group_start + k]
                    - activate_spec(activation, ss0[site_start + k] as int),
        decreases dim - component,
    {
        proof {
            let k = component as int;
            assert(group_features@[group_start + k] == gf0[group_start + k]);
            assert(ss0[site_start + k] as int == site_sum(*weights, tokens, lo, hi, k));
            assert(gf0[group * dim + k] as int == group_sum(
                *weights,
                activation,
                tokens,
                offsets,
                groups,
                n,
                g,
                k,
            ));
            assert(i32::MIN <= group_sum(*weights, activation, tokens, offsets, groups, n, g, k)
                - activate_spec(activation, site_sum(*weights, tokens, lo, hi, k)) <= i32::MAX);
        }
        let removed = activate(activation, site_sums[site_start + component]);
        let index = group_start + component;
        let updated = group_features[index] - removed;
        group_features.set(index, updated);
        component += 1;
    }
    let ghost gf1 = group_features@;
    proof {
        assert forall|k: int| 0 <= k < d implies #[trigger] gf1[group_start + k] == gf0[group_start + k]
            - activate_spec(activation, ss0[site_start + k] as int) by {
            assert(group_features@[group_start + k] == gf1[group_start + k]);
        }
        assert forall|k: int| 0 <= k < d implies i32::MIN <= #[trigger] ss0[site_start + k]
            + weights.emb(new_token as int, k) - weights.emb(old_token as int, k) <= i32::MAX by {
            assert(ss0[site_start + k] as int == site_sum(*weights, tokens, lo, hi, k));
            assert(site_sum(*weights, t2, lo, hi, k) == site_sum(*weights, tokens, lo, hi, k)
                + weights.emb(new_token as int, k) - weights.emb(tokens[slot] as int, k));
            assert(i32::MIN <= site_sum(*weights, t2, lo, hi, k) <= i32::MAX);
        }
    }
    weights.add_embedding_delta_to(old_token, new_token, site_sums, site_start);
    let ghost ss2 = site_sums@;
    proof {
        assert forall|k: int| 0 <= k < d implies #[trigger] ss2[site_start + k] as int == site_sum(
            *weights,
            t2,
            lo,
            hi,
            k,
        ) by {
            assert(site_sum(*weights, t2, lo, hi, k) == site_sum(*weights, t2, lo, hi, k));
        }
    }
    let mut component: usize = 0;
    while component < dim
        invariant
            0 <= component <= dim,
            site_sums@ == ss2,
            group_features@.len() == gf0.len(),
            forall|i: int|
                0 <= i < gf0.len() && !(group_start <= i < group_start + component)
                    ==> group_features@[i] == gf1[i],
            forall|k: int|
                #![trigger group_features@[group_start + k]]
                0 <= k < component ==> group_features@[group_start + k] == gf1[group_start + k]
                    + activate_spec(activation, ss2[site_start + k] as int),
        decreases dim - component,
    {
        proof {
            let k = component as int;
            assert(group_features@[group_start + k] == gf1[group_start + k]);
            assert(gf1[group_start + k] == gf0[group_start + k] - activate_spec(
                activation,
                ss0[site_start + k] as int,
            ));
            assert(ss0[site_start + k] as int == site_sum(*weights, tokens, lo, hi, k));
            assert(gf0[group * dim + k] as int == group_sum(
                *weights,
                activation,
                tokens,
                offsets,
                groups,
                n,
                g,
                k,
            ));
            assert(ss2[site_start + k] as int == site_sum(*weights, t2, lo, hi, k));
            assert(group_sum(*weights, activation, t2, offsets, groups, n, g, k) == group_sum(
                *weights,
                activation,
                tokens,
                offsets,
                groups,
                n,
                g,
                k,
            ) + activate_spec(activation, site_sum(*weights, t2, lo, hi, k)) - activate_spec(
                activation,
                site_sum(*weights, tokens, lo, hi, k),
            ));
            assert(i32::MIN <= group_sum(*weights, activation, t2, offsets, groups, n, g, k)
                <= i32::MAX);
        }
        let added = activate(activation, site_sums[site_start + component]);
        let index = group_start + component;
        let updated = group_features[index] + added;
        group_features.set(index, updated);
        component += 1;
    }
    proof {
        let gf2 = group_features@;
        assert forall|s2: int, c: int| 0 <= s2 < n && 0 <= c < d implies #[trigger] entry(
            ss2,
            d,
            s2,
            c,
        ) == site_sum(*weights, t2, offsets[s2], offsets[s2 + 1], c) by {
            if s2 != site {
                lemma_flat_index_distinct(site as int, 0, s2, c, d);
                lemma_flat_index(s2, c, n, d);
                assert(entry(ss0, d, s2, c) == site_sum(
                    *weights,
                    tokens,
                    offsets[s2],
                    offsets[s2 + 1],
                    c,
                ));
            }
        }
        assert forall|gg: int, c: int| 0 <= gg < group_count && 0 <= c < d implies #[trigger] entry(
            gf2,
            d,
            gg,
            c,
        ) == group_sum(*weights, activation, t2, offsets, groups, n, gg, c) by {
            assert(group_sum(*weights, activation, t2, offsets, groups, n, gg, c) == group_sum(
                *weights,
                activation,
                t2,
                offsets,
                groups,
                n,
                gg,
                c,
            ));
            lemma_flat_index(gg, c, group_count as int, d);
            if gg != g {
                lemma_flat_index_distinct(g, 0, gg, c, d);
                assert(entry(gf0, d, gg, c) == group_sum(
                    *weights,
                    activation,
                    tokens,
                    offsets,
                    groups,
                    n,
                    gg,
                    c,
                ));
            }
        }
    }
}


/// Recomputes every site sum and group accumulator of `tokens` from scratch.
#[verifier::loop_isolation(false)]
fn rebuild_numeric(
    weights: &QuantizedCodebookWeights,
    activation: Activation,
    group_count: usize,
    site_offsets: &Vec<u32>,
    site_groups: &Vec<u32>,
    logical: &Vec<u16>,
    site_count: usize,
    site_sums: &mut Vec<i32>,
    group_features: &mut Vec<i32>,
    Ghost(offsets): Ghost<Seq<int>>,
    Ghost(groups): Ghost<Seq<int>>,
    Ghost(tokens): Ghost<Seq<u16>>,
)
    requires
        weights.dim > 0,
        groups.len() == site_count,
        site_count + 1 <= site_offsets@.len(),
        site_count <= site_groups@.len(),
        offsets == site_offsets@.subrange(0, site_count + 1).map_values(|o: u32| o as int),
        groups == site_groups@.subrange(0, site_count as int).map_values(|g: u32| g as int),
        tokens.len() <= logical@.len(),
        tokens == logical@.subrange(0, tokens.len() as int),
        layout_ok(offsets, site_count as int, tokens.len() as int),
        forall|s: int| 0 <= s < site_count ==> (#[trigger] groups[s]) < group_count,
        tokens_in_range(tokens, weights.spec_token_count() as int),
        site_count * weights.dim <= old(site_sums)@.len(),
        old(group_features)@.len() == group_count * weights.dim,
    ensures
        final(site_sums)@.len() == old(site_sums)@.len(),
        final(group_features)@.len() == old(group_features)@.len(),
        numeric_matches(
            *weights,
            activation,
            offsets,
            groups,
            group_count as int,
            final(site_sums)@,
            final(group_features)@,
            tokens,
        ),
{
    let dim = weights.dim;
    let ghost d = dim as int;
    let ghost n = site_count as int;
    let ss_len = site_sums.len();
    let gf_len = group_features.len();
    proof {
        lemma_layout_monotone(offsets, n, tokens.len() as int);
    }
    let used = site_count * dim;
    let mut index: usize = 0;
    while index < used
        invariant
            0 <= index <= used,
            site_sums@.len() == ss_len,
            group_features@ == old(group_features)@,
            forall|j: int| 0 <= j < index ==> site_sums@[j] == 0,
        decreases used - index,
    {
        site_sums.set(index, 0);
        index += 1;
    }
    let mut index: usize = 0;
    while index < gf_len
        invariant
            0 <= index <= gf_len,
            site_sums@.len() == ss_len,
            forall|j: int| 0 <= j < used ==> site_sums@[j] == 0,
            group_features@.len() == gf_len,
            forall|j: int| 0 <= j < index ==> group_features@[j] == 0,
        decreases gf_len - index,
    {
        group_features.set(index, 0);
        index += 1;
    }
    proof {
        assert forall|g: int, c: int| 0 <= g < group_count && 0 <= c < d implies #[trigger] entry(
            group_features@,
            d,
            g,
            c,
        ) == group_sum(*weights, activation, tokens, offsets, groups, 0, g, c) by {
            lemma_flat_index(g, c, group_count as int, d);
        }
        assert forall|s2: int, c: int| 0 <= s2 < n && 0 <= c < d implies #[trigger] entry(
            site_sums@,
            d,
            s2,
            c,
        ) == 0 by {
            lemma_flat_index(s2, c, n, d);
        }
    }
    let mut site: usize = 0;
    while site < site_count
        invariant
            0 <= site <= site_count,
            site_sums@.len() == ss_len,
            group_features@.len() == gf_len,
            forall|s2: int, c: int|
                0 <= s2 < site && 0 <= c < d ==> #[trigger] entry(site_sums@, d, s2, c) == site_sum(
                    *weights,
                    tokens,
                    offsets[s2],
                    offsets[s2 + 1],
                    c,
                ),
            forall|s2: int, c: int|
                site <= s2 < n && 0 <= c < d ==> #[trigger] entry(site_sums@, d, s2, c) == 0,
            forall|g: int, c: int|
                0 <= g < group_count && 0 <= c < d ==> #[trigger] entry(group_features@, d, g, c)
                    == group_sum(*weights, activation, tokens, offsets, groups, site as int, g, c),
        decreases site_count - site,
    {
        let ghost s = site as int;
        let start = site_offsets[site] as usize;
        let end = site_offsets[site + 1] as usize;
        proof {
            assert(offsets[s] == start);
            assert(offsets[s + 1] == end);
            lemma_flat_index(s, 0, n, d);
        }
        let site_start = site * dim;
        let ghost ss_before = site_sums@;
        proof {
            assert forall|c: int| 0 <= c < d implies #[trigger] site_sums@[site_start + c] == 0 by {
                assert(entry(site_sums@, d, s, c) == 0);
            }
        }
        let mut slot: usize = start;
        while slot < end
            invariant
                start <= slot <= end,
                site_sums@.len() == ss_len,
                forall|c: int|
                    0 <= c < d ==> #[trigger] site_sums@[site_start + c] == site_sum(
                        *weights,
                        tokens,
                        start as int,
                        slot as int,
                        c,
                    ),
                forall|i: int|
                    0 <= i < ss_len && !(site_start <= i < site_start + d) ==> site_sums@[i]
                        == ss_before[i],
            decreases end - slot,
        {
            let token = logical[slot];
            proof {
                assert(tokens[slot as int] == token);
                assert forall|c: int| 0 <= c < d implies i32::MIN <= site_sums@[site_start + c]
                    + #[trigger] weights.emb(token as int, c) <= i32::MAX by {
                    lemma_site_sum_bound(*weights, tokens, start as int, slot + 1, c);
                    assert(site_sum(*weights, tokens, start as int, slot + 1, c) == site_sum(
                        *weights,
                        tokens,
                        start as int,
                        slot as int,
                        c,
                    ) + weights.emb(tokens[slot as int] as int, c));
                }
            }
            weights.add_embedding_to(token, site_sums, site_start);
            slot += 1;
        }
        let group = site_groups[site] as usize;
        let ghost g_s = group as int;
        proof {
            assert(groups[s] == g_s);
            lemma_flat_index(g_s, 0, group_count as int, d);
        }
        let group_start = group * dim;
        let ghost gf_before = group_features@;
        let mut component: usize = 0;
        while component < dim
            invariant
                0 <= component <= dim,
                group_features@.len() == gf_len,
                forall|i: int|
                    0 <= i < gf_len && !(group_start <= i < group_start + component)
                        ==> group_features@[i] == gf_before[i],
                forall|k: int|
                    #![trigger group_features@[group_start + k]]
                    0 <= k < component ==> group_features@[group_start + k] == gf_before[group_start
                        + k] + activate_spec(activation, site_sums@[site_start + k] as int),
            decreases dim - component,
        {
            proof {
                let k = component as int;
                assert(entry(gf_before, d, g_s, k) == group_sum(
                    *weights,
                    activation,
                    tokens,
                    offsets,
                    groups,
                    s,
                    g_s,
                    k,
                ));
                assert(site_sums@[site_start + k] == site_sum(*weights, tokens, start as int, end as int, k));
                lemma_group_sum_bound(*weights, activation, tokens, offsets, groups, s + 1, g_s, k);
            }
            let added = activate(activation, site_sums[site_start + component]);
            let index = group_start + component;
            let updated = group_features[index] + added;
            group_features.set(index, updated);
            component += 1;
        }
        proof {
            assert forall|s2: int, c: int| 0 <= s2 < s + 1 && 0 <= c < d implies #[trigger] entry(
                site_sums@,
                d,
                s2,
                c,
            ) == site_sum(*weights, tokens, offsets[s2], offsets[s2 + 1], c) by {
                lemma_flat_index(s2, c, n, d);
                if s2 < s {
                    lemma_flat_index_distinct(s, 0, s2, c, d);
                    assert(entry(ss_before, d, s2, c) == site_sum(
                        *weights,
                        tokens,
                        offsets[s2],
                        offsets[s2 + 1],
                        c,
                    ));
                } else {
                    assert(site_sums@[site_start + c] == site_sum(*weights, tokens, start as int, end as int, c));
                }
            }
            assert forall|s2: int, c: int| s + 1 <= s2 < n && 0 <= c < d implies #[trigger] entry(
                site_sums@,
                d,
                s2,
                c,
            ) == 0 by {
                lemma_flat_index(s2, c, n, d);
                lemma_flat_index_distinct(s, 0, s2, c, d);
                assert(entry(ss_before, d, s2, c) == 0);
            }
            assert forall|g: int, c: int| 0 <= g < group_count && 0 <= c < d implies #[trigger] entry(
                group_features@,
                d,
                g,
                c,
            ) == group_sum(*weights, activation, tokens, offsets, groups, s + 1, g, c) by {
                lemma_flat_index(g, c, group_count as int, d);
                assert(entry(gf_before, d, g, c) == group_sum(
                    *weights,
                    activation,
                    tokens,
                    offsets,
                    groups,
                    s,
                    g,
                    c,
                ));
                if g != g_s {
                    lemma_flat_index_distinct(g_s, 0, g, c, d);
                } else {
                    assert(group_features@[group_start + c] == gf_before[group_start + c]
                        + activate_spec(activation, site_sums@[site_start + c] as int));
                    assert(site_sums@[site_start + c] == site_sum(*weights, tokens, start as int, end as int, c));
                }
            }
        }
        site += 1;
    }
}



/// Overwrites the first `src.len()` entries of `dst` with `src`.
fn copy_prefix<T: Copy>(dst: &mut Vec<T>, src: &[T])
    requires
        src@.len() <= old(dst)@.len(),
    ensures
        final(dst)@ == src@ + old(dst)@.subrange(src@.len() as int, old(dst)@.len() as int),
{
    let ghost original = dst@;
    let mut index: usize = 0;
    while index < src.len()
        invariant
            0 <= index <= src@.len(),
            src@.len() <= original.len(),
            dst@ == src@.subrange(0, index as int) + original.subrange(index as int, original.len() as int),
        decreases src@.len() - index,
    {
        dst.set(index, src[index]);
        index += 1;
        assert(dst@ =~= src@.subrange(0, index as int) + original.subrange(index as int, original.len() as int));
    }
    assert(src@.subrange(0, src@.len() as int) =~= src@);
}

/// Overwrites the first `len` entries of `dst` with `value`.
fn fill_prefix<T: Copy>(dst: &mut Vec<T>, len: usize, value: T)
    requires
        len <= old(dst)@.len(),
    ensures
        final(dst)@ == Seq::new(len as nat, |_i: int| value) + old(dst)@.subrange(len as int, old(dst)@.len() as int),
{
    let ghost original = dst@;
    let mut index: usize = 0;
    while index < len
        invariant
            0 <= index <= len,
            len <= original.len(),
            dst@ == Seq::new(index as nat, |_i: int| value) + original.subrange(index as int, original.len() as int),
        decreases len - index,
    {
        dst.set(index, value);
        index += 1;
        assert(dst@ =~= Seq::new(index as nat, |_i: int| value) + original.subrange(index as int, original.len() as int));
    }
}

/// Counts the sites of each group into `counts`.
fn count_groups(counts: &mut Vec<usize>, site_groups: &[u32], Ghost(groups): Ghost<Seq<int>>)
    requires
        groups == ints_of_u32(site_groups@),
        forall|s: int| 0 <= s < groups.len() ==> (#[trigger] groups[s]) < old(counts)@.len(),
    ensures
        final(counts)@.len() == old(counts)@.len(),
        forall|g: int|
            0 <= g < final(counts)@.len() ==> #[trigger] final(counts)@[g] == group_size(
                groups,
                groups.len() as int,
                g,
            ),
{
    let group_count = counts.len();
    fill_prefix(counts, group_count, 0usize);
    let site_count = site_groups.len();
    let mut site: usize = 0;
    while site < site_count
        invariant
            0 <= site <= site_count,
            site_count == groups.len(),
            groups == ints_of_u32(site_groups@),
            forall|s: int| 0 <= s < groups.len() ==> (#[trigger] groups[s]) < group_count,
            counts@.len() == group_count,
            forall|g: int|
                0 <= g < group_count ==> #[trigger] counts@[g] == group_size(groups, site as int, g),
        decreases site_count - site,
    {
        let group = site_groups[site] as usize;
        proof {
            assert(groups[site as int] == group as int);
            crate::features::lemma_group_size_bound(groups, site as int, group as int);
        }
        let count = counts[group] + 1;
        counts.set(group, count);
        proof {
            assert forall|g: int| 0 <= g < group_count implies #[trigger] counts@[g] == group_size(
                groups,
                site as int + 1,
                g,
            ) by {
                assert(group_size(groups, site as int + 1, g) == group_size(groups, site as int, g)
                    + if groups[site as int] == g {
                    1nat
                } else {
                    0nat
                });
            }
        }
        site += 1;
    }
}

/// Offsets of a `u32` table as integers.
pub open spec fn ints_of_u32(values: Seq<u32>) -> Seq<int> {
    values.map_values(|v: u32| v as int)
}

/// Sites whose group is outside the model.
pub open spec fn group_is_bad(groups: Seq<u32>, group_count: int) -> spec_fn(int) -> bool {
    |s: int| groups[s] as int >= group_count
}

/// Slots whose token is outside the model.
pub open spec fn token_is_bad(tokens: Seq<u16>, token_count: int) -> spec_fn(int) -> bool {
    |i: int| tokens[i] as int >= token_count
}

/// The error `reset` reports for a position, in the order the checks run.
pub open spec fn reset_error(v: SessionView, tokens: Seq<u16>, offsets: Seq<u32>, groups: Seq<u32>) -> Option<
    SessionError,
> {
    let n = groups.len() as int;
    if n > v.limits.max_sites {
        Some(
            SessionError::LimitExceeded {
                field: "site_count",
                requested: n as usize,
                limit: v.limits.max_sites,
            },
        )
    } else if tokens.len() > v.limits.max_token_slots {
        Some(
            SessionError::LimitExceeded {
                field: "token_slots",
                requested: tokens.len() as usize,
                limit: v.limits.max_token_slots,
            },
        )
    } else if offsets.len() != n + 1 {
        Some(SessionError::OffsetTable("site_offsets must have site_count + 1 entries"))
    } else if offsets[0] != 0 {
        Some(SessionError::OffsetTable("site_offsets must start at zero"))
    } else if offsets[n] as int != tokens.len() {
        Some(SessionError::OffsetTable("site_offsets must end at the token count"))
    } else if first_decrease(ints_of_u32(offsets), n) is Some {
        Some(SessionError::OffsetTable("site_offsets must be monotonic"))
    } else {
        match first_index(group_is_bad(groups, v.group_count as int), n) {
            Some(s) => Some(
                SessionError::GroupOutOfRange {
                    site: s as usize,
                    group: groups[s] as usize,
                    group_count: v.group_count as usize,
                },
            ),
            None => match first_index(token_is_bad(tokens, v.token_count as int), tokens.len() as int) {
                Some(i) => Some(
                    SessionError::TokenOutOfRange {
                        token: tokens[i],
                        token_count: v.token_count as usize,
                    },
                ),
                None => if v.inference.pooling == Pooling::Mean {
                    match first_index(group_is_empty(ints_of_u32(groups)), v.group_count as int) {
                        Some(g) => Some(SessionError::EmptyMeanGroup { group: g as usize }),
                        None => None,
                    }
                } else {
                    None
                },
            },
        }
    }
}

/// The state right after a successful reset to a position.
pub open spec fn reset_view(
    old_view: SessionView,
    v: SessionView,
    tokens: Seq<u16>,
    offsets: Seq<u32>,
    groups: Seq<u32>,
) -> bool {
    &&& v.weights == old_view.weights
    &&& v.inference == old_view.inference
    &&& v.limits == old_view.limits
    &&& v.token_count == old_view.token_count
    &&& v.group_count == old_view.group_count
    &&& v.ready
    &&& v.site_count == groups.len()
    &&& v.tokens == tokens
    &&& v.offsets == ints_of_u32(offsets)
    &&& v.groups == ints_of_u32(groups)
    &&& v.frames == Seq::<Seq<SessionDelta>>::empty()
    &&& v.history == seq![tokens]
    &&& v.materialized_depth == 0
    &&& v.pending_deltas == 0
    &&& v.features == v.rebuilt_features()
    &&& v.divisors == group_divisors_spec(v.inference.pooling, v.groups, v.group_count)
}

/// Group accumulators that match `tokens` are the full-rebuild features.
pub proof fn lemma_features_exact(
    w: QuantizedCodebookWeights,
    activation: Activation,
    offsets: Seq<int>,
    groups: Seq<int>,
    group_count: int,
    site_sums: Seq<i32>,
    group_features: Seq<i32>,
    tokens: Seq<u16>,
)
    requires
        w.dim > 0,
        group_count >= 0,
        group_features.len() == group_count * w.dim,
        numeric_matches(w, activation, offsets, groups, group_count, site_sums, group_features, tokens),
    ensures
        group_features.map_values(|x: i32| x as int) == grouped_features(
            w,
            activation,
            tokens,
            offsets,
            groups,
            group_count as nat,
        ),
{
    let d = w.dim as int;
    let n = groups.len() as int;
    let lhs = group_features.map_values(|x: i32| x as int);
    let rhs = grouped_features(w, activation, tokens, offsets, groups, group_count as nat);
    assert forall|i: int| 0 <= i < lhs.len() implies lhs[i] == rhs[i] by {
        lemma_div_mod_index(i, d, group_count);
        assert(entry(group_features, d, i / d, i % d) == group_sum(
            w,
            activation,
            tokens,
            offsets,
            groups,
            n,
            i / d,
            i % d,
        ));
    }
    assert(lhs =~= rhs);
}

impl<'a> IncrementalSession<'a> {
    /// Installs a complete position and discards every pushed frame.
    ///
    /// `site_offsets` has `site_count + 1` monotonic entries starting at zero
    /// and ending at `tokens.len()`, and `site_groups` has one group per site.
    /// Nothing observable changes unless every check passes, so a rejected
    /// reset keeps whatever position was already installed.
    #[verifier::loop_isolation(false)]
    pub fn reset(&mut self, tokens: &[u16], site_offsets: &[u32], site_groups: &[u32]) -> (r: Result<
        (),
        SessionError,
    >)
        requires
            old(self).wf(),
        ensures
            final(self).wf(),
            reset_error(old(self)@, tokens@, site_offsets@, site_groups@) matches Some(e) ==> r == Err::<
                (),
                SessionError,
            >(e) && final(self)@ == old(self)@,
            reset_error(old(self)@, tokens@, site_offsets@, site_groups@) is None ==> r is Ok
                && reset_view(old(self)@, final(self)@, tokens@, site_offsets@, site_groups@),
    {
        let ghost old_view = self@;
        let ghost offs = ints_of_u32(site_offsets@);
        let ghost groups_int = ints_of_u32(site_groups@);
        let site_count = site_groups.len();
        if site_count > self.limits.max_sites {
            return Err(
                SessionError::LimitExceeded {
                    field: "site_count",
                    requested: site_count,
                    limit: self.limits.max_sites,
                },
            );
        }
        if tokens.len() > self.limits.max_token_slots {
            return Err(
                SessionError::LimitExceeded {
                    field: "token_slots",
                    requested: tokens.len(),
                    limit: self.limits.max_token_slots,
                },
            );
        }
        if site_offsets.len() != site_count + 1 {
            return Err(SessionError::OffsetTable("site_offsets must have site_count + 1 entries"));
        }
        if site_offsets[0] != 0 {
            return Err(SessionError::OffsetTable("site_offsets must start at zero"));
        }
        if site_offsets[site_count] as usize != tokens.len() {
            return Err(SessionError::OffsetTable("site_offsets must end at the token count"));
        }
        let mut site: usize = 0;
        while site < site_count
            invariant
                0 <= site <= site_count,
                first_decrease(offs, site as int) is None,
            decreases site_count - site,
        {
            if site_offsets[site] > site_offsets[site + 1] {
                proof {
                    assert(first_decrease(offs, site as int + 1) == Some(site as int));
                    lemma_first_decrease_stable(offs, site as int + 1, site_count as int);
                }
                return Err(SessionError::OffsetTable("site_offsets must be monotonic"));
            }
            site += 1;
        }
        let ghost bad_group = group_is_bad(site_groups@, self.group_count as int);
        let mut site: usize = 0;
        while site < site_count
            invariant
                0 <= site <= site_count,
                first_index(bad_group, site as int) is None,
            decreases site_count - site,
        {
            let group = site_groups[site];
            if group as usize >= self.group_count {
                proof {
                    assert(bad_group(site as int));
                    assert(first_index(bad_group, site as int + 1) == Some(site as int));
                    lemma_first_index_stable(bad_group, site as int + 1, site_count as int);
                }
                return Err(
                    SessionError::GroupOutOfRange {
                        site,
                        group: group as usize,
                        group_count: self.group_count,
                    },
                );
            }
            site += 1;
        }
        let ghost bad_token = token_is_bad(tokens@, self.token_count as int);
        let mut slot: usize = 0;
        while slot < tokens.len()
            invariant
                0 <= slot <= tokens.len(),
                first_index(bad_token, slot as int) is None,
            decreases tokens.len() - slot,
        {
            let token = tokens[slot];
            if token as usize >= self.token_count {
                proof {
                    assert(bad_token(slot as int));
                    assert(first_index(bad_token, slot as int + 1) == Some(slot as int));
                    lemma_first_index_stable(bad_token, slot as int + 1, tokens.len() as int);
                }
                return Err(SessionError::TokenOutOfRange { token, token_count: self.token_count });
            }
            slot += 1;
        }
        proof {
            lemma_first_index(bad_group, site_count as int);
            lemma_first_index(bad_token, tokens.len() as int);
            lemma_first_decrease(offs, site_count as int);
            lemma_monotone(offs, site_count as int);
        }
        // `group_counts` is scratch, so pooling can be validated before commit.
        let group_count = self.group_count;
        proof {
            assert forall|s: int| 0 <= s < site_count implies (#[trigger] groups_int[s]) < group_count by {
                assert(!bad_group(s));
            }
        }
        assert(self.wf());
        let ghost pre = *self;
        count_groups(&mut self.group_counts, site_groups, Ghost(groups_int));
        proof {
            Self::lemma_scratch_unobservable(pre, *self);
        }
        assert(groups_int.len() == site_count);
        if self.inference.pooling == Pooling::Mean {
            let ghost empty = group_is_empty(groups_int);
            let mut group: usize = 0;
            while group < group_count
                invariant
                    0 <= group <= group_count,
                    first_index(empty, group as int) is None,
                decreases group_count - group,
            {
                if self.group_counts[group] == 0 {
                    proof {
                        assert(empty(group as int));
                        assert(first_index(empty, group as int + 1) == Some(group as int));
                        lemma_first_index_stable(empty, group as int + 1, group_count as int);
                    }
                    return Err(SessionError::EmptyMeanGroup { group });
                }
                group += 1;
            }
        }
        // Validation is complete; commit.
        let ghost new_tokens = tokens@;
        self.site_count = site_count;
        self.token_slots = tokens.len();
        copy_prefix(&mut self.site_offsets, site_offsets);
        copy_prefix(&mut self.site_groups, site_groups);
        copy_prefix(&mut self.logical, tokens);
        self.depth = 0;
        self.materialized_depth = 0;
        self.delta_len = 0;
        fill_prefix(&mut self.slot_stamp, tokens.len(), 0u32);
        self.stamp = 0;
        match self.inference.pooling {
            Pooling::Sum => fill_prefix(&mut self.group_divisors, group_count, 1usize),
            Pooling::Mean => copy_prefix(&mut self.group_divisors, self.group_counts.as_slice()),
        }
        proof {
            assert forall|i: int| 0 <= i < new_tokens.len() implies (#[trigger] new_tokens[i] as int)
                < self.token_count by {
                assert(!bad_token(i));
            }
            assert(self.spec_offsets() =~= offs);
            assert(self.spec_groups() =~= groups_int);
            assert(self.spec_tokens() =~= new_tokens);
        }
        proof {
            let dim = self.dim as int;
            let max_sites = self.limits.max_sites as int;
            assert(site_count * dim <= max_sites * dim) by (nonlinear_arith)
                requires
                    site_count <= max_sites,
                    dim > 0,
            ;
        }
        rebuild_numeric(
            self.weights,
            self.inference.activation,
            self.group_count,
            &self.site_offsets,
            &self.site_groups,
            &self.logical,
            site_count,
            &mut self.site_sums,
            &mut self.group_features,
            Ghost(offs),
            Ghost(groups_int),
            Ghost(new_tokens),
        );
        self.ready = true;
        let ghost fresh_history: Seq<Seq<u16>> = seq![new_tokens];
        self.history = Ghost(fresh_history);
        proof {
            let divisors = self.group_divisors@.map_values(|x: usize| x as int);
            let expected = group_divisors_spec(self.inference.pooling, groups_int, group_count as nat);
            assert forall|g: int| 0 <= g < group_count implies divisors[g] == expected[g] by {
                if self.inference.pooling == Pooling::Mean {
                    assert(self.group_divisors@[g] == self.group_counts@[g]);
                } else {
                    assert(self.group_divisors@[g] == 1);
                }
            }
            assert(divisors =~= expected);
            assert(self.spec_frames() =~= Seq::<Seq<SessionDelta>>::empty());
            if self.inference.pooling == Pooling::Mean {
                let empty = group_is_empty(groups_int);
                lemma_first_index(empty, group_count as int);
                assert forall|g: int| 0 <= g < group_count implies #[trigger] group_size(
                    groups_int,
                    site_count as int,
                    g,
                ) > 0 by {
                    assert(!empty(g));
                }
            }
            lemma_features_exact(
                *self.weights,
                self.inference.activation,
                offs,
                groups_int,
                group_count as int,
                self.site_sums@,
                self.group_features@,
                new_tokens,
            );
        }
        Ok(())
    }
}


/// A replacement's slot lies inside its site, inside the token table.
pub proof fn lemma_slot_in_site(
    tokens: Seq<u16>,
    offsets: Seq<int>,
    site_count: int,
    token_count: int,
    d: SessionDelta,
)
    requires
        crate::trainer::offsets_well_formed(tokens.len() as int, offsets, site_count),
        (d.spec_site() as int) < site_count,
        (d.spec_lane() as int) < lane_count(offsets, d.spec_site() as int),
    ensures
        offsets[d.spec_site() as int] <= slot_of(offsets, d) < offsets[d.spec_site() + 1],
        0 <= slot_of(offsets, d) < tokens.len(),
{
    let s = d.spec_site() as int;
    assert(offsets[0] <= offsets[s]);
    assert(offsets[s + 1] <= offsets[site_count]);
}

/// Applying a prefix of a fitting frame keeps the length and the range of
/// the tokens, and leaves the slots of the remaining replacements untouched.
pub proof fn lemma_apply_prefix(
    tokens: Seq<u16>,
    offsets: Seq<int>,
    site_count: int,
    token_count: int,
    frame: Seq<SessionDelta>,
    j: int,
)
    requires
        crate::trainer::offsets_well_formed(tokens.len() as int, offsets, site_count),
        frame_fits(tokens, offsets, site_count, token_count, frame),
        tokens_in_range(tokens, token_count),
        0 <= j <= frame.len(),
    ensures
        apply_deltas(tokens, offsets, frame, j).len() == tokens.len(),
        tokens_in_range(apply_deltas(tokens, offsets, frame, j), token_count),
        forall|i: int|
            j <= i < frame.len() ==> apply_deltas(tokens, offsets, frame, j)[slot_of(
                offsets,
                #[trigger] frame[i],
            )] == frame[i].spec_old(),
    decreases j,
{
    if j > 0 {
        lemma_apply_prefix(tokens, offsets, site_count, token_count, frame, j - 1);
        let d = frame[j - 1];
        assert(delta_fits(tokens, offsets, site_count, token_count, d));
        lemma_slot_in_site(tokens, offsets, site_count, token_count, d);
        let prev = apply_deltas(tokens, offsets, frame, j - 1);
        let cur = apply_deltas(tokens, offsets, frame, j);
        assert forall|i: int| 0 <= i < cur.len() implies (#[trigger] cur[i] as int) < token_count by {
            if i != slot_of(offsets, d) {
                assert(cur[i] == prev[i]);
            }
        }
        assert forall|i: int| j <= i < frame.len() implies cur[slot_of(offsets, #[trigger] frame[i])]
            == frame[i].spec_old() by {
            assert(slot_of(offsets, frame[j - 1]) != slot_of(offsets, frame[i]));
        }
    }
}

/// Undoing the last applied replacement of a prefix gives the shorter prefix.
pub proof fn lemma_undo_step(
    tokens: Seq<u16>,
    offsets: Seq<int>,
    site_count: int,
    token_count: int,
    frame: Seq<SessionDelta>,
    j: int,
)
    requires
        crate::trainer::offsets_well_formed(tokens.len() as int, offsets, site_count),
        frame_fits(tokens, offsets, site_count, token_count, frame),
        tokens_in_range(tokens, token_count),
        0 <= j < frame.len(),
    ensures
        apply_deltas(tokens, offsets, frame, j + 1)[slot_of(offsets, frame[j])] == frame[j].spec_new(),
        apply_deltas(tokens, offsets, frame, j + 1).update(slot_of(offsets, frame[j]), frame[j].spec_old())
            == apply_deltas(tokens, offsets, frame, j),
{
    lemma_apply_prefix(tokens, offsets, site_count, token_count, frame, j);
    let d = frame[j];
    assert(delta_fits(tokens, offsets, site_count, token_count, d));
    lemma_slot_in_site(tokens, offsets, site_count, token_count, d);
    let prev = apply_deltas(tokens, offsets, frame, j);
    assert(prev[slot_of(offsets, d)] == d.spec_old());
    assert(prev.update(slot_of(offsets, d), d.spec_new()).update(slot_of(offsets, d), d.spec_old())
        =~= prev);
}

/// The error one replacement of a pushed frame reports, given that every
/// earlier replacement passed.
pub open spec fn delta_error(
    tokens: Seq<u16>,
    offsets: Seq<int>,
    site_count: int,
    token_count: int,
    deltas: Seq<SessionDelta>,
    i: int,
) -> Option<SessionError> {
    let d = deltas[i];
    let site = d.spec_site() as int;
    let lane = d.spec_lane() as int;
    let slot = slot_of(offsets, d);
    if site >= site_count {
        Some(SessionError::SiteOutOfRange { site: site as usize, site_count: site_count as usize })
    } else if lane >= lane_count(offsets, site) {
        Some(
            SessionError::LaneOutOfRange {
                site: site as usize,
                lane: lane as usize,
                lane_count: lane_count(offsets, site) as usize,
            },
        )
    } else if d.spec_new() as int >= token_count {
        Some(
            SessionError::TokenOutOfRange {
                token: d.spec_new(),
                token_count: token_count as usize,
            },
        )
    } else if tokens[slot] != d.spec_old() {
        Some(
            SessionError::OldTokenMismatch {
                site: site as usize,
                lane: lane as usize,
                expected: d.spec_old(),
                actual: tokens[slot],
            },
        )
    } else if exists|j: int| 0 <= j < i && slot_of(offsets, #[trigger] deltas[j]) == slot {
        Some(SessionError::DuplicateSlot { site: site as usize, lane: lane as usize })
    } else {
        None
    }
}

/// Replacements that report an error.
pub open spec fn delta_fails(
    tokens: Seq<u16>,
    offsets: Seq<int>,
    site_count: int,
    token_count: int,
    deltas: Seq<SessionDelta>,
) -> spec_fn(int) -> bool {
    |i: int| delta_error(tokens, offsets, site_count, token_count, deltas, i) is Some
}

/// The error of the first failing replacement of a frame, if any.
pub open spec fn frame_error(
    tokens: Seq<u16>,
    offsets: Seq<int>,
    site_count: int,
    token_count: int,
    deltas: Seq<SessionDelta>,
) -> Option<SessionError> {
    match first_index(
        delta_fails(tokens, offsets, site_count, token_count, deltas),
        deltas.len() as int,
    ) {
        Some(i) => delta_error(tokens, offsets, site_count, token_count, deltas, i),
        None => None,
    }
}

/// The error `push` reports for a frame, in the order the checks run.
pub open spec fn push_error(v: SessionView, deltas: Seq<SessionDelta>) -> Option<SessionError> {
    if !v.ready {
        Some(SessionError::NotReady)
    } else if v.depth() >= v.limits.max_depth {
        Some(
            SessionError::LimitExceeded {
                field: "depth",
                requested: (v.depth() + 1) as usize,
                limit: v.limits.max_depth,
            },
        )
    } else if deltas.len() > v.limits.max_deltas_per_frame {
        Some(
            SessionError::LimitExceeded {
                field: "frame_deltas",
                requested: deltas.len() as usize,
                limit: v.limits.max_deltas_per_frame,
            },
        )
    } else {
        frame_error(v.tokens, v.offsets, v.site_count as int, v.token_count as int, deltas)
    }
}

/// The state right after pushing `deltas` onto `old_view`.
pub open spec fn pushed_view(old_view: SessionView, v: SessionView, deltas: Seq<SessionDelta>) -> bool {
    &&& v.same_setup(old_view)
    &&& v.tokens == apply_frame(old_view.tokens, old_view.offsets, deltas)
    &&& v.frames == old_view.frames.push(deltas)
    &&& v.history == old_view.history.push(v.tokens)
    &&& v.materialized_depth == old_view.materialized_depth
    &&& v.pending_deltas == old_view.pending_deltas + deltas.len()
    &&& v.features == old_view.features
}

/// Checks every replacement of a frame against the current tokens, marking
/// the slot of each checked replacement with `stamp`.
#[verifier::loop_isolation(false)]
fn validate_frame(
    slot_stamp: &mut Vec<u32>,
    stamp: u32,
    site_offsets: &Vec<u32>,
    logical: &Vec<u16>,
    site_count: usize,
    token_slots: usize,
    token_count: usize,
    deltas: &[SessionDelta],
    Ghost(offsets): Ghost<Seq<int>>,
    Ghost(tokens): Ghost<Seq<u16>>,
) -> (r: Result<(), SessionError>)
    requires
        site_count + 1 <= site_offsets@.len(),
        offsets == ints_of_u32(site_offsets@.subrange(0, site_count + 1)),
        token_slots <= logical@.len(),
        token_slots <= old(slot_stamp)@.len(),
        tokens == logical@.subrange(0, token_slots as int),
        crate::trainer::offsets_well_formed(token_slots as int, offsets, site_count as int),
        forall|p: int| 0 <= p < token_slots ==> #[trigger] old(slot_stamp)@[p] < stamp,
    ensures
        final(slot_stamp)@.len() == old(slot_stamp)@.len(),
        forall|p: int| 0 <= p < token_slots ==> #[trigger] final(slot_stamp)@[p] <= stamp,
        frame_error(tokens, offsets, site_count as int, token_count as int, deltas@) matches Some(e)
            ==> r == Err::<(), SessionError>(e),
        frame_error(tokens, offsets, site_count as int, token_count as int, deltas@) is None ==> r is Ok
            && frame_fits(tokens, offsets, site_count as int, token_count as int, deltas@),
{
    let ghost fails = delta_fails(tokens, offsets, site_count as int, token_count as int, deltas@);
    let mut index: usize = 0;
    while index < deltas.len()
        invariant
            0 <= index <= deltas@.len(),
            slot_stamp@.len() == old(slot_stamp)@.len(),
            first_index(fails, index as int) is None,
            forall|p: int| 0 <= p < token_slots ==> #[trigger] slot_stamp@[p] <= stamp,
            forall|j: int|
                0 <= j < index ==> slot_stamp@[slot_of(offsets, #[trigger] deltas@[j])] == stamp,
            forall|p: int|
                0 <= p < token_slots && slot_stamp@[p] == stamp ==> exists|j: int|
                    0 <= j < index && slot_of(offsets, #[trigger] deltas@[j]) == p,
            forall|j: int|
                0 <= j < index ==> delta_fits(
                    tokens,
                    offsets,
                    site_count as int,
                    token_count as int,
                    #[trigger] deltas@[j],
                ),
            forall|i: int, j: int|
                0 <= i < j < index ==> slot_of(offsets, #[trigger] deltas@[i]) != slot_of(
                    offsets,
                    #[trigger] deltas@[j],
                ),
        decreases deltas@.len() - index,
    {
        let delta = deltas[index];
        let ghost i = index as int;
        proof {
            lemma_first_index(fails, i);
        }
        let site = delta.site as usize;
        if site >= site_count {
            proof {
                assert(fails(i));
                assert(first_index(fails, i + 1) == Some(i));
                lemma_first_index_stable(fails, i + 1, deltas@.len() as int);
            }
            return Err(SessionError::SiteOutOfRange { site, site_count });
        }
        let start = site_offsets[site] as usize;
        let lane_count = site_offsets[site + 1] as usize - start;
        let lane = delta.lane as usize;
        proof {
            assert(offsets[site as int] == start);
            assert(offsets[site + 1] == site_offsets@[site + 1]);
            assert(offsets[0] <= offsets[site as int] <= offsets[site + 1]);
        }
        if lane >= lane_count {
            proof {
                assert(fails(i));
                assert(first_index(fails, i + 1) == Some(i));
                lemma_first_index_stable(fails, i + 1, deltas@.len() as int);
            }
            return Err(SessionError::LaneOutOfRange { site, lane, lane_count });
        }
        if delta.new as usize >= token_count {
            proof {
                assert(fails(i));
                assert(first_index(fails, i + 1) == Some(i));
                lemma_first_index_stable(fails, i + 1, deltas@.len() as int);
            }
            return Err(SessionError::TokenOutOfRange { token: delta.new, token_count });
        }
        let slot = start + lane;
        proof {
            lemma_slot_in_site(tokens, offsets, site_count as int, token_count as int, delta);
            assert(slot == slot_of(offsets, delta));
        }
        if logical[slot] != delta.old {
            proof {
                assert(tokens[slot as int] == logical@[slot as int]);
                assert(fails(i));
                assert(first_index(fails, i + 1) == Some(i));
                lemma_first_index_stable(fails, i + 1, deltas@.len() as int);
            }
            return Err(
                SessionError::OldTokenMismatch {
                    site,
                    lane,
                    expected: delta.old,
                    actual: logical[slot],
                },
            );
        }
        if slot_stamp[slot] == stamp {
            proof {
                let j = choose|j: int| 0 <= j < i && slot_of(offsets, #[trigger] deltas@[j]) == slot;
                assert(deltas@[i] == delta);
                assert(exists|j: int| 0 <= j < i && slot_of(offsets, #[trigger] deltas@[j]) == slot_of(offsets, deltas@[i]));
                assert(fails(i));
                assert(first_index(fails, i + 1) == Some(i));
                lemma_first_index_stable(fails, i + 1, deltas@.len() as int);
            }
            return Err(SessionError::DuplicateSlot { site, lane });
        }
        proof {
            assert(tokens[slot as int] == logical@[slot as int]);
            assert(deltas@[i] == delta);
            assert forall|j: int| 0 <= j < i implies slot_of(offsets, #[trigger] deltas@[j]) != slot by {
                assert(slot_stamp@[slot_of(offsets, deltas@[j])] == stamp);
            }
            assert(!(exists|j: int| 0 <= j < i && slot_of(offsets, #[trigger] deltas@[j]) == slot_of(offsets, deltas@[i])));
            assert(!fails(i));
        }
        slot_stamp.set(slot, stamp);
        index += 1;
        proof {
            assert(first_index(fails, i + 1) is None);
            assert forall|p: int| 0 <= p < token_slots && slot_stamp@[p] == stamp implies exists|j: int|
                0 <= j < i + 1 && slot_of(offsets, #[trigger] deltas@[j]) == p by {
                if p == slot {
                    assert(slot_of(offsets, deltas@[i]) == p);
                } else {
                    let j = choose|j: int| 0 <= j < i && slot_of(offsets, #[trigger] deltas@[j]) == p;
                    assert(0 <= j < i + 1 && slot_of(offsets, deltas@[j]) == p);
                }
            }
        }
    }
    proof {
        lemma_first_index(fails, deltas@.len() as int);
    }
    Ok(())
}


/// Smallest arena prefix that can hold one more frame.
pub proof fn lemma_arena_room(delta_len: int, depth: int, len: int, per_frame: int, max_depth: int)
    requires
        0 <= delta_len <= depth * per_frame,
        0 <= len <= per_frame,
        0 <= depth < max_depth,
    ensures
        delta_len + len <= (depth + 1) * per_frame,
        (depth + 1) * per_frame <= max_depth * per_frame,
{
    assert((depth + 1) * per_frame == depth * per_frame + per_frame) by (nonlinear_arith);
    assert((depth + 1) * per_frame <= max_depth * per_frame) by (nonlinear_arith)
        requires
            depth + 1 <= max_depth,
            0 <= per_frame,
    ;
}

/// Writes `src` into `dst[offset .. offset + src.len()]`.
fn copy_into<T: Copy>(dst: &mut Vec<T>, offset: usize, src: &[T])
    requires
        offset + src@.len() <= old(dst)@.len(),
    ensures
        final(dst)@ == old(dst)@.subrange(0, offset as int) + src@ + old(dst)@.subrange(
            offset + src@.len(),
            old(dst)@.len() as int,
        ),
{
    let ghost original = dst@;
    let total = dst.len();
    let mut index: usize = 0;
    while index < src.len()
        invariant
            0 <= index <= src@.len(),
            offset + src@.len() <= original.len(),
            total == original.len(),
            dst@ == original.subrange(0, offset as int) + src@.subrange(0, index as int)
                + original.subrange(offset + index, original.len() as int),
        decreases src@.len() - index,
    {
        dst.set(offset + index, src[index]);
        index += 1;
        assert(dst@ =~= original.subrange(0, offset as int) + src@.subrange(0, index as int)
            + original.subrange(offset + index, original.len() as int));
    }
    assert(src@.subrange(0, src@.len() as int) =~= src@);
}

/// Writes every replacement's new token into its slot, in order.
#[verifier::loop_isolation(false)]
fn apply_to_logical(
    logical: &mut Vec<u16>,
    site_offsets: &Vec<u32>,
    deltas: &[SessionDelta],
    Ghost(offsets): Ghost<Seq<int>>,
    Ghost(site_count): Ghost<int>,
    Ghost(token_count): Ghost<int>,
    Ghost(tokens): Ghost<Seq<u16>>,
)
    requires
        0 <= site_count,
        site_count + 1 <= site_offsets@.len(),
        offsets == ints_of_u32(site_offsets@.subrange(0, site_count + 1)),
        tokens.len() <= old(logical)@.len(),
        tokens == old(logical)@.subrange(0, tokens.len() as int),
        crate::trainer::offsets_well_formed(tokens.len() as int, offsets, site_count),
        frame_fits(tokens, offsets, site_count, token_count, deltas@),
        tokens_in_range(tokens, token_count),
    ensures
        final(logical)@.len() == old(logical)@.len(),
        final(logical)@.subrange(0, tokens.len() as int) == apply_frame(tokens, offsets, deltas@),
        final(logical)@.subrange(tokens.len() as int, old(logical)@.len() as int) == old(
            logical,
        )@.subrange(tokens.len() as int, old(logical)@.len() as int),
{
    let ghost original = logical@;
    let ghost n = tokens.len() as int;
    let mut index: usize = 0;
    while index < deltas.len()
        invariant
            0 <= index <= deltas@.len(),
            logical@.len() == original.len(),
            n <= original.len(),
            logical@.subrange(0, n) == apply_deltas(tokens, offsets, deltas@, index as int),
            logical@.subrange(n, original.len() as int) == original.subrange(n, original.len() as int),
        decreases deltas@.len() - index,
    {
        let delta = deltas[index];
        proof {
            lemma_apply_prefix(tokens, offsets, site_count, token_count, deltas@, index as int);
            assert(delta_fits(tokens, offsets, site_count, token_count, deltas@[index as int]));
            lemma_slot_in_site(tokens, offsets, site_count, token_count, delta);
            assert(offsets[delta.site as int] == site_offsets@[delta.site as int]);
        }
        let slot = site_offsets[delta.site as usize] as usize + delta.lane as usize;
        let ghost before = logical@;
        logical.set(slot, delta.new);
        proof {
            assert(logical@.subrange(0, n) =~= before.subrange(0, n).update(slot as int, delta.new));
            assert(logical@.subrange(n, original.len() as int) =~= before.subrange(n, original.len() as int));
        }
        index += 1;
    }
}

impl<'a> IncrementalSession<'a> {
    /// Issues a fresh generation for the per-slot scratch stamps.
    fn next_stamp(&mut self) -> (r: u32)
        requires
            old(self).wf(),
        ensures
            final(self).wf(),
            final(self)@ == old(self)@,
            r == final(self).stamp,
            final(self).token_slots == old(self).token_slots,
            final(self).site_offsets == old(self).site_offsets,
            final(self).logical == old(self).logical,
            final(self).slot_stamp@.len() == old(self).slot_stamp@.len(),
            forall|p: int| 0 <= p < final(self).token_slots ==> #[trigger] final(self).slot_stamp@[p] < r,
    {
        let ghost pre = *self;
        if self.stamp == u32::MAX {
            let len = self.slot_stamp.len();
            fill_prefix(&mut self.slot_stamp, len, 0u32);
            self.stamp = 1;
        } else {
            self.stamp = self.stamp + 1;
        }
        proof {
            Self::lemma_scratch_unobservable(pre, *self);
        }
        self.stamp
    }

    /// Arena range of frame `frame`.
    fn frame_range(&self, frame: usize) -> (r: (usize, usize))
        requires
            self.wf(),
            frame < self.depth,
        ensures
            r.0 == self.frame_start(frame as int),
            r.1 == self.frame_end(frame as int),
    {
        let start = if frame == 0 {
            0
        } else {
            self.frame_ends[frame - 1]
        };
        (start, self.frame_ends[frame])
    }

    /// Records one search move's replacements as a single reversible frame.
    ///
    /// Every delta is checked (site, lane, replacement token, expected old
    /// token, duplicate slot) before any logical token or depth counter
    /// changes, so a rejected frame leaves the session as it was. Numeric state
    /// is not touched until the frame is materialized.
    pub fn push(&mut self, deltas: &[SessionDelta]) -> (r: Result<usize, SessionError>)
        requires
            old(self).wf(),
        ensures
            final(self).wf(),
            push_error(old(self)@, deltas@) matches Some(e) ==> r == Err::<usize, SessionError>(e)
                && final(self)@ == old(self)@,
            push_error(old(self)@, deltas@) is None ==> r == Ok::<usize, SessionError>(deltas@.len() as usize)
                && pushed_view(old(self)@, final(self)@, deltas@),
    {
        let ghost old_view = self@;
        if !self.ready {
            return Err(SessionError::NotReady);
        }
        if self.depth >= self.limits.max_depth {
            return Err(
                SessionError::LimitExceeded {
                    field: "depth",
                    requested: self.depth + 1,
                    limit: self.limits.max_depth,
                },
            );
        }
        if deltas.len() > self.limits.max_deltas_per_frame {
            return Err(
                SessionError::LimitExceeded {
                    field: "frame_deltas",
                    requested: deltas.len(),
                    limit: self.limits.max_deltas_per_frame,
                },
            );
        }
        let stamp = self.next_stamp();
        let ghost offsets = self.spec_offsets();
        let ghost tokens = self.spec_tokens();
        let ghost pre = *self;
        let checked = validate_frame(
            &mut self.slot_stamp,
            stamp,
            &self.site_offsets,
            &self.logical,
            self.site_count,
            self.token_slots,
            self.token_count,
            deltas,
            Ghost(offsets),
            Ghost(tokens),
        );
        proof {
            Self::lemma_scratch_unobservable(pre, *self);
        }
        match checked {
            Ok(()) => {},
            Err(e) => return Err(e),
        }
        // Validation is complete; commit.
        let ghost pre = *self;
        let start = self.delta_len;
        proof {
            lemma_arena_room(
                start as int,
                self.depth as int,
                deltas@.len() as int,
                self.limits.max_deltas_per_frame as int,
                self.limits.max_depth as int,
            );
        }
        copy_into(&mut self.deltas, start, deltas);
        apply_to_logical(
            &mut self.logical,
            &self.site_offsets,
            deltas,
            Ghost(offsets),
            Ghost(self.site_count as int),
            Ghost(self.token_count as int),
            Ghost(tokens),
        );
        let end = start + deltas.len();
        self.delta_len = end;
        self.frame_ends.set(self.depth, end);
        self.depth = self.depth + 1;
        let ghost next_tokens = apply_frame(tokens, offsets, deltas@);
        let ghost pushed_history = pre.history@.push(next_tokens);
        self.history = Ghost(pushed_history);
        proof {
            let depth = pre.depth as int;
            assert(self.spec_offsets() == offsets);
            assert(self.spec_groups() == pre.spec_groups());
            assert(self.spec_tokens() =~= next_tokens);
            assert forall|k: int| 0 <= k < depth implies #[trigger] self.frame_end(k) == pre.frame_end(
                k,
            ) && self.frame_start(k) == pre.frame_start(k) by {}
            assert forall|k: int| 0 <= k < depth implies #[trigger] self.frame_at(k) == pre.frame_at(k) by {
                assert(self.frame_at(k) =~= pre.frame_at(k));
            }
            assert(self.frame_at(depth) =~= deltas@);
            assert(self.spec_frames() =~= pre.spec_frames().push(deltas@));
            lemma_apply_prefix(
                tokens,
                offsets,
                self.site_count as int,
                self.token_count as int,
                deltas@,
                deltas@.len() as int,
            );
            assert forall|k: int| 0 <= k <= self.depth implies (#[trigger] self.history@[k]).len()
                == self.token_slots && tokens_in_range(self.history@[k], self.token_count as int) by {
                if k < self.depth {
                    assert(self.history@[k] == pre.history@[k]);
                }
            }
            assert forall|k: int| 0 <= k < self.depth implies frame_fits(
                self.history@[k],
                offsets,
                self.site_count as int,
                self.token_count as int,
                #[trigger] self.frame_at(k),
            ) && self.history@[k + 1] == apply_frame(self.history@[k], offsets, self.frame_at(k)) by {
                if k < depth {
                    assert(self.history@[k] == pre.history@[k]);
                    assert(self.history@[k + 1] == pre.history@[k + 1]);
                }
            }
            assert(self.history@[self.materialized_depth as int] == pre.history@[self.materialized_depth as int]);
        }
        Ok(deltas.len())
    }
}


/// Applies `deltas[start .. end]` to the numeric state, in order, or undoes
/// them in reverse order.
#[verifier::loop_isolation(false)]
fn replay(
    weights: &QuantizedCodebookWeights,
    activation: Activation,
    group_count: usize,
    site_groups: &Vec<u32>,
    deltas: &Vec<SessionDelta>,
    start: usize,
    end: usize,
    reverse: bool,
    site_sums: &mut Vec<i32>,
    group_features: &mut Vec<i32>,
    Ghost(offsets): Ghost<Seq<int>>,
    Ghost(groups): Ghost<Seq<int>>,
    Ghost(before): Ghost<Seq<u16>>,
)
    requires
        weights.dim > 0,
        start <= end <= deltas@.len(),
        layout_ok(offsets, groups.len() as int, before.len() as int),
        groups.len() <= site_groups@.len(),
        forall|s: int|
            0 <= s < groups.len() ==> #[trigger] groups[s] == site_groups@[s] as int && groups[s]
                < group_count,
        frame_fits(
            before,
            offsets,
            groups.len() as int,
            weights.spec_token_count() as int,
            deltas@.subrange(start as int, end as int),
        ),
        tokens_in_range(before, weights.spec_token_count() as int),
        groups.len() * weights.dim <= old(site_sums)@.len(),
        old(group_features)@.len() == group_count * weights.dim,
        numeric_matches(
            *weights,
            activation,
            offsets,
            groups,
            group_count as int,
            old(site_sums)@,
            old(group_features)@,
            if reverse {
                apply_frame(before, offsets, deltas@.subrange(start as int, end as int))
            } else {
                before
            },
        ),
    ensures
        final(site_sums)@.len() == old(site_sums)@.len(),
        final(group_features)@.len() == old(group_features)@.len(),
        numeric_matches(
            *weights,
            activation,
            offsets,
            groups,
            group_count as int,
            final(site_sums)@,
            final(group_features)@,
            if reverse {
                before
            } else {
                apply_frame(before, offsets, deltas@.subrange(start as int, end as int))
            },
        ),
{
    let ghost frame = deltas@.subrange(start as int, end as int);
    let ghost n = groups.len() as int;
    let ghost tc = weights.spec_token_count() as int;
    let ss_len = site_sums.len();
    let gf_len = group_features.len();
    let mut index: usize = start;
    while index < end
        invariant
            start <= index <= end,
            site_sums@.len() == ss_len,
            group_features@.len() == gf_len,
            numeric_matches(
                *weights,
                activation,
                offsets,
                groups,
                group_count as int,
                site_sums@,
                group_features@,
                if reverse {
                    apply_deltas(before, offsets, frame, end - index)
                } else {
                    apply_deltas(before, offsets, frame, index - start)
                },
            ),
        decreases end - index,
    {
        let ghost j = if reverse {
            end - 1 - index
        } else {
            index - start
        };
        let position = if reverse {
            start + (end - 1 - index)
        } else {
            index
        };
        let stored = deltas[position];
        let delta = if reverse {
            stored.reversed()
        } else {
            stored
        };
        let ghost current = if reverse {
            apply_deltas(before, offsets, frame, j + 1)
        } else {
            apply_deltas(before, offsets, frame, j)
        };
        proof {
            assert(frame[j] == stored);
            lemma_apply_prefix(before, offsets, n, tc, frame, j);
            lemma_apply_prefix(before, offsets, n, tc, frame, j + 1);
            lemma_undo_step(before, offsets, n, tc, frame, j);
            assert(delta_fits(before, offsets, n, tc, frame[j]));
            lemma_slot_in_site(before, offsets, n, tc, stored);
            assert(before[slot_of(offsets, stored)] == stored.old);
        }
        let site = delta.site as usize;
        apply_delta_numeric(
            weights,
            activation,
            group_count,
            site_groups,
            site_sums,
            group_features,
            site,
            delta.old,
            delta.new,
            Ghost(offsets),
            Ghost(groups),
            Ghost(current),
            Ghost(slot_of(offsets, stored)),
        );
        index += 1;
    }
    proof {
        assert(frame.len() == end - start);
    }
}

/// Writes every replacement's old token back into its slot, in reverse order.
#[verifier::loop_isolation(false)]
fn restore_logical(
    logical: &mut Vec<u16>,
    site_offsets: &Vec<u32>,
    deltas: &Vec<SessionDelta>,
    start: usize,
    end: usize,
    Ghost(offsets): Ghost<Seq<int>>,
    Ghost(site_count): Ghost<int>,
    Ghost(token_count): Ghost<int>,
    Ghost(before): Ghost<Seq<u16>>,
)
    requires
        0 <= site_count,
        start <= end <= deltas@.len(),
        site_count + 1 <= site_offsets@.len(),
        offsets == ints_of_u32(site_offsets@.subrange(0, site_count + 1)),
        before.len() <= old(logical)@.len(),
        crate::trainer::offsets_well_formed(before.len() as int, offsets, site_count),
        frame_fits(before, offsets, site_count, token_count, deltas@.subrange(start as int, end as int)),
        tokens_in_range(before, token_count),
        old(logical)@.subrange(0, before.len() as int) == apply_frame(
            before,
            offsets,
            deltas@.subrange(start as int, end as int),
        ),
    ensures
        final(logical)@.len() == old(logical)@.len(),
        final(logical)@.subrange(0, before.len() as int) == before,
        final(logical)@.subrange(before.len() as int, old(logical)@.len() as int) == old(
            logical,
        )@.subrange(before.len() as int, old(logical)@.len() as int),
{
    let ghost frame = deltas@.subrange(start as int, end as int);
    let ghost original = logical@;
    let ghost n = before.len() as int;
    let mut index: usize = end;
    while index > start
        invariant
            start <= index <= end,
            logical@.len() == original.len(),
            logical@.subrange(0, n) == apply_deltas(before, offsets, frame, index - start),
            logical@.subrange(n, original.len() as int) == original.subrange(n, original.len() as int),
        decreases index - start,
    {
        index -= 1;
        let delta = deltas[index];
        let ghost j = index - start;
        proof {
            assert(frame[j] == delta);
            lemma_undo_step(before, offsets, site_count, token_count, frame, j);
            assert(delta_fits(before, offsets, site_count, token_count, frame[j]));
            lemma_slot_in_site(before, offsets, site_count, token_count, delta);
            assert(offsets[delta.site as int] == site_offsets@[delta.site as int]);
            lemma_apply_prefix(before, offsets, site_count, token_count, frame, j + 1);
        }
        let slot = site_offsets[delta.site as usize] as usize + delta.lane as usize;
        let ghost prior = logical@;
        logical.set(slot, delta.old);
        proof {
            assert(logical@.subrange(0, n) =~= prior.subrange(0, n).update(slot as int, delta.old));
            assert(logical@.subrange(n, original.len() as int) =~= prior.subrange(n, original.len() as int));
        }
    }
}

/// The state right after popping the newest frame of `old_view`.
pub open spec fn popped_view(old_view: SessionView, v: SessionView) -> bool {
    let top = old_view.depth() - 1;
    &&& v.same_setup(old_view)
    &&& v.frames == old_view.frames.drop_last()
    &&& v.history == old_view.history.drop_last()
    &&& v.tokens == old_view.history[top]
    &&& v.materialized_depth == if old_view.materialized_depth > top {
        top as nat
    } else {
        old_view.materialized_depth
    }
    &&& v.pending_deltas == old_view.pending_deltas - old_view.frames.last().len()
    &&& old_view.materialized_depth <= top ==> v.features == old_view.features
}

impl SessionView {
    /// The group accumulators are those of the materialized tokens.
    pub open spec fn features_consistent(self) -> bool {
        self.features == grouped_features(
            self.weights,
            self.inference.activation,
            self.history[self.materialized_depth as int],
            self.offsets,
            self.groups,
            self.group_count,
        )
    }
}

impl<'a> IncrementalSession<'a> {
    /// The view of a well-formed session keeps its group accumulators equal to
    /// a full rebuild over the materialized tokens.
    pub proof fn lemma_view_consistent(&self)
        requires
            self.wf(),
        ensures
            self@.features_consistent(),
            self@.history.len() == self@.depth() + 1,
            self@.history[self@.depth() as int] == self@.tokens,
            self@.materialized_depth <= self@.depth(),
            self@.offsets.len() == self@.site_count + 1,
            self@.groups.len() == self@.site_count,
            self@.depth() == 0 ==> self@.pending_deltas == 0,
    {
        lemma_features_exact(
            *self.weights,
            self.inference.activation,
            self.spec_offsets(),
            self.spec_groups(),
            self.group_count as int,
            self.site_sums@,
            self.group_features@,
            self.history@[self.materialized_depth as int],
        );
    }

    /// What every reachable session satisfies: the stack and the position
    /// stay within the limits it was built with, every token and group is
    /// one the model knows, each frame fits the tokens it was pushed on and
    /// turns them into the next history entry, the current tokens are the
    /// last entry, and the group accumulators are a full rebuild of the
    /// materialized tokens.
    pub proof fn lemma_invariants(&self)
        requires
            self.wf(),
        ensures
            ({
                let v = self@;
                &&& v.materialized_depth <= v.depth() <= v.limits.max_depth
                &&& v.site_count <= v.limits.max_sites
                &&& v.tokens.len() <= v.limits.max_token_slots
                &&& v.pending_deltas <= v.depth() * v.limits.max_deltas_per_frame
                &&& limits_error(v.limits) is None
                &&& v.token_count == v.weights.spec_token_count()
                &&& v.group_count == v.weights.spec_group_count()
                &&& offsets_well_formed(v.tokens.len() as int, v.offsets, v.site_count as int)
                &&& forall|s: int| 0 <= s < v.site_count ==> (#[trigger] v.groups[s]) < v.group_count
                &&& !v.ready ==> v.site_count == 0 && v.tokens.len() == 0 && v.depth() == 0
                &&& v.history.len() == v.depth() + 1
                &&& v.history[v.depth() as int] == v.tokens
                &&& forall|k: int|
                    0 <= k <= v.depth() ==> (#[trigger] v.history[k]).len() == v.tokens.len()
                        && tokens_in_range(v.history[k], v.token_count as int)
                &&& forall|k: int|
                    0 <= k < v.depth() ==> frame_fits(
                        v.history[k],
                        v.offsets,
                        v.site_count as int,
                        v.token_count as int,
                        #[trigger] v.frames[k],
                    ) && v.history[k + 1] == apply_frame(v.history[k], v.offsets, v.frames[k])
                &&& v.features_consistent()
                &&& v.ready ==> v.divisors == group_divisors_spec(
                    v.inference.pooling,
                    v.groups,
                    v.group_count,
                )
            }),
    {
        self.lemma_view_consistent();
        let v = self@;
        assert forall|k: int| 0 <= k < v.depth() implies frame_fits(
            v.history[k],
            v.offsets,
            v.site_count as int,
            v.token_count as int,
            #[trigger] v.frames[k],
        ) && v.history[k + 1] == apply_frame(v.history[k], v.offsets, v.frames[k]) by {
            assert(v.frames[k] == self.frame_at(k));
        }
    }

    /// Applies every pushed-but-unapplied frame to the numeric accumulators.
    ///
    /// Afterwards the group accumulators equal those a full rebuild computes
    /// from the current tokens.
    pub fn materialize_pending(&mut self)
        requires
            old(self).wf(),
        ensures
            final(self).wf(),
            final(self)@.same_setup(old(self)@),
            final(self)@.tokens == old(self)@.tokens,
            final(self)@.frames == old(self)@.frames,
            final(self)@.history == old(self)@.history,
            final(self)@.pending_deltas == old(self)@.pending_deltas,
            final(self)@.materialized_depth == final(self)@.depth(),
            final(self)@.features == final(self)@.rebuilt_features(),
            materialized_view(old(self)@, final(self)@),
    {
        let ghost old_view = self@;
        while self.materialized_depth < self.depth
            invariant
                self.wf(),
                self@.same_setup(old_view),
                self@.tokens == old_view.tokens,
                self@.frames == old_view.frames,
                self@.history == old_view.history,
                self@.pending_deltas == old_view.pending_deltas,
            decreases self.depth - self.materialized_depth,
        {
            let (start, end) = self.frame_range(self.materialized_depth);
            let ghost pre = *self;
            let ghost md = self.materialized_depth as int;
            let ghost offsets = self.spec_offsets();
            let ghost groups = self.spec_groups();
            let ghost materialized = self.history@[md];
            proof {
                assert(self.frame_at(md) == self.deltas@.subrange(start as int, end as int));
                assert(self.history@[md].len() == self.token_slots);
                let dim = self.dim as int;
                let site_count = self.site_count as int;
                let max_sites = self.limits.max_sites as int;
                assert(site_count * dim <= max_sites * dim) by (nonlinear_arith)
                    requires
                        site_count <= max_sites,
                        dim > 0,
                ;
            }
            replay(
                self.weights,
                self.inference.activation,
                self.group_count,
                &self.site_groups,
                &self.deltas,
                start,
                end,
                false,
                &mut self.site_sums,
                &mut self.group_features,
                Ghost(offsets),
                Ghost(groups),
                Ghost(materialized),
            );
            self.materialized_depth = self.materialized_depth + 1;
            proof {
                Self::lemma_numeric_unobservable(pre, *self);
            }
        }
        proof {
            self.lemma_view_consistent();
        }
    }

    /// Changing only the numeric state and the materialized depth, consistently,
    /// keeps the invariant.
    proof fn lemma_numeric_unobservable(pre: Self, post: Self)
        requires
            pre.wf(),
            post == (IncrementalSession {
                site_sums: post.site_sums,
                group_features: post.group_features,
                materialized_depth: post.materialized_depth,
                ..pre
            }),
            post.materialized_depth <= post.depth,
            post.site_sums@.len() == pre.site_sums@.len(),
            post.group_features@.len() == pre.group_features@.len(),
            numeric_matches(
                *post.weights,
                post.inference.activation,
                post.spec_offsets(),
                post.spec_groups(),
                post.group_count as int,
                post.site_sums@,
                post.group_features@,
                post.history@[post.materialized_depth as int],
            ),
        ensures
            post.wf(),
            post@.same_setup(pre@),
            post@.tokens == pre@.tokens,
            post@.frames == pre@.frames,
            post@.history == pre@.history,
            post@.pending_deltas == pre@.pending_deltas,
    {
        assert forall|k: int| 0 <= k < pre.depth implies #[trigger] post.frame_at(k) == pre.frame_at(k) by {}
        assert forall|k: int| 0 <= k < pre.depth implies #[trigger] post.frame_end(k) == pre.frame_end(k)
            && post.frame_start(k) == pre.frame_start(k) by {}
        assert(post.spec_frames() =~= pre.spec_frames());
    }
}


impl<'a> IncrementalSession<'a> {
    proof fn lemma_frame_ends_monotone(&self, k: int, m: int)
        requires
            self.wf(),
            0 <= k <= m < self.depth,
        ensures
            self.frame_end(k) <= self.frame_end(m),
        decreases m - k,
    {
        if k < m {
            self.lemma_frame_ends_monotone(k, m - 1);
            assert(self.frame_start(m) <= self.frame_end(m));
        }
    }

    /// Undoes the most recent frame and returns how many deltas it held.
    ///
    /// If the frame had been materialized, the numeric state is restored too,
    /// so materialized frames remain a prefix of the live frames.
    pub fn pop(&mut self) -> (r: Result<usize, SessionError>)
        requires
            old(self).wf(),
        ensures
            final(self).wf(),
            old(self)@.depth() == 0 ==> r == Err::<usize, SessionError>(SessionError::EmptyStack)
                && final(self)@ == old(self)@,
            old(self)@.depth() > 0 ==> r == Ok::<usize, SessionError>(
                old(self)@.frames.last().len() as usize,
            ) && popped_view(old(self)@, final(self)@),
    {
        if self.depth == 0 {
            return Err(SessionError::EmptyStack);
        }
        let top = self.depth - 1;
        let (start, end) = self.frame_range(top);
        let ghost pre = *self;
        let ghost offsets = self.spec_offsets();
        let ghost groups = self.spec_groups();
        let ghost before = self.history@[top as int];
        let ghost frame = self.frame_at(top as int);
        proof {
            assert(frame == self.deltas@.subrange(start as int, end as int));
            assert(self.history@[top + 1] == apply_frame(before, offsets, frame));
            let dim = self.dim as int;
            let site_count = self.site_count as int;
            let max_sites = self.limits.max_sites as int;
            assert(site_count * dim <= max_sites * dim) by (nonlinear_arith)
                requires
                    site_count <= max_sites,
                    dim > 0,
            ;
        }
        if self.materialized_depth > top {
            replay(
                self.weights,
                self.inference.activation,
                self.group_count,
                &self.site_groups,
                &self.deltas,
                start,
                end,
                true,
                &mut self.site_sums,
                &mut self.group_features,
                Ghost(offsets),
                Ghost(groups),
                Ghost(before),
            );
            self.materialized_depth = top;
        }
        restore_logical(
            &mut self.logical,
            &self.site_offsets,
            &self.deltas,
            start,
            end,
            Ghost(offsets),
            Ghost(self.site_count as int),
            Ghost(self.token_count as int),
            Ghost(before),
        );
        self.delta_len = start;
        self.depth = top;
        let ghost shorter = pre.history@.drop_last();
        self.history = Ghost(shorter);
        proof {
            let t = top as int;
            assert(self.spec_offsets() == offsets);
            assert(self.spec_groups() == groups);
            assert(self.spec_tokens() =~= before);
            assert forall|k: int| 0 <= k < t implies #[trigger] self.frame_end(k) == pre.frame_end(k)
                && self.frame_start(k) == pre.frame_start(k) && self.frame_end(k) <= start by {
                pre.lemma_frame_ends_monotone(k, t - 1);
            }
            assert forall|k: int| 0 <= k < t implies #[trigger] self.frame_at(k) == pre.frame_at(k) by {}
            assert(self.spec_frames() =~= pre.spec_frames().drop_last());
            assert forall|k: int| 0 <= k <= t implies (#[trigger] self.history@[k]).len() == self.token_slots
                && tokens_in_range(self.history@[k], self.token_count as int) by {
                assert(self.history@[k] == pre.history@[k]);
            }
            assert forall|k: int| 0 <= k < t implies frame_fits(
                self.history@[k],
                offsets,
                self.site_count as int,
                self.token_count as int,
                #[trigger] self.frame_at(k),
            ) && self.history@[k + 1] == apply_frame(self.history@[k], offsets, self.frame_at(k)) by {
                assert(self.history@[k] == pre.history@[k]);
                assert(self.history@[k + 1] == pre.history@[k + 1]);
            }
            assert(self.history@[self.materialized_depth as int] == if pre.materialized_depth > t {
                before
            } else {
                pre.history@[pre.materialized_depth as int]
            });
            if t > 0 {
                assert(start == pre.frame_end(t - 1));
            }
            assert(frame.len() == end - start);
        }
        Ok(end - start)
    }

    /// Undoes every pushed frame, restoring the position installed by reset.
    pub fn rewind(&mut self)
        requires
            old(self).wf(),
        ensures
            final(self).wf(),
            final(self)@.same_setup(old(self)@),
            final(self)@.depth() == 0,
            final(self)@.tokens == old(self)@.history[0],
            final(self)@.history == seq![old(self)@.history[0]],
            final(self)@.materialized_depth == 0,
            final(self)@.pending_deltas == 0,
            final(self)@.features_consistent(),
    {
        let ghost old_view = self@;
        proof {
            self.lemma_view_consistent();
        }
        while self.depth > 0
            invariant
                self.wf(),
                self@.same_setup(old_view),
                old_view.history.len() == old_view.depth() + 1,
                self@.depth() <= old_view.depth(),
                self@.history == old_view.history.subrange(0, self@.depth() as int + 1),
            decreases self.depth,
        {
            let _ = self.pop();
        }
        proof {
            self.lemma_view_consistent();
            assert(self@.history =~= seq![old_view.history[0]]);
        }
    }
}


impl<'a> IncrementalSession<'a> {
    /// One-shot materialization agrees with the session.
    ///
    /// For the position of a ready session whose frames are all materialized,
    /// the input made of the same tokens, site offsets and site groups
    /// materializes without error, to the session's group features and group
    /// divisors.
    pub proof fn lemma_matches_one_shot(&self, input: GroupedTokens)
        requires
            self.wf(),
            self@.ready,
            self@.materialized_depth == self@.depth(),
            input.spec_tokens() == self@.tokens,
            input.spec_offsets() == self@.offsets,
            input.spec_groups() == self@.groups,
        ensures
            materialize_error(input, self@.weights, self@.inference) is None,
            self@.features == grouped_features(
                self@.weights,
                self@.inference.activation,
                input.spec_tokens(),
                input.spec_offsets(),
                input.spec_groups(),
                self@.weights.spec_group_count(),
            ),
            self@.divisors == group_divisors_spec(
                self@.inference.pooling,
                input.spec_groups(),
                self@.weights.spec_group_count(),
            ),
    {
        self.lemma_view_consistent();
        let w = *self.weights;
        let dim = self.dim as int;
        let gc = self.group_count as int;
        let tc = self.token_count as int;
        let n = self.site_count as int;
        let tokens = self.spec_tokens();
        let offsets = self.spec_offsets();
        let groups = self.spec_groups();
        let activation = self.inference.activation;
        // The codebook passes the quantized shape checks.
        assert((gc * dim) % dim == 0) by {
            vstd::arithmetic::div_mod::lemma_mod_multiples_basic(gc, dim);
        }
        assert(quantized_shape_error(w) is None);
        // The position passes the input checks.
        lemma_first_decrease(offsets, n);
        assert forall|i: int| 0 <= i < n implies #[trigger] step_ok(offsets, i) by {}
        assert(structure_issue(tokens.len() as int, offsets, n) is None);
        let bad_site = site_is_bad(tokens, offsets, groups, tc, gc);
        assert forall|s: int| 0 <= s < n implies !#[trigger] bad_site(s) by {
            let bad_slot = slot_is_bad(tokens, offsets[s], tc);
            lemma_first_index(bad_slot, offsets[s + 1]);
            assert(offsets[0] <= offsets[s + 1] <= offsets[n]);
        }
        lemma_first_index(bad_site, n);
        if self.inference.pooling == Pooling::Mean {
            let empty = group_is_empty(groups);
            lemma_first_index(empty, gc);
        }
        // No checked addition overflows: every sum is bounded by the token
        // count, which the limits keep below `i32` range.
        let overflow = site_overflow(w, activation, tokens, offsets, groups);
        assert forall|s: int| 0 <= s < n implies !#[trigger] overflow(s) by {
            assert(offsets[0] <= offsets[s] <= offsets[s + 1] <= offsets[n]);
            assert forall|k: int, c: int| offsets[s] < k <= offsets[s + 1] && 0 <= c < dim implies fits_i32(
                #[trigger] site_sum(w, tokens, offsets[s], k, c),
            ) by {
                lemma_site_sum_bound(w, tokens, offsets[s], k, c);
                assert((k - offsets[s]) * emb_bound() <= 65535 * 32768) by (nonlinear_arith)
                    requires
                        0 <= k - offsets[s] <= 65535,
                ;
            }
            assert forall|c: int| 0 <= c < dim implies fits_i32(
                #[trigger] group_sum(w, activation, tokens, offsets, groups, s + 1, groups[s], c),
            ) by {
                lemma_group_sum_bound(w, activation, tokens, offsets, groups, s + 1, groups[s], c);
                assert((offsets[s + 1] - offsets[0]) * emb_bound() <= 65535 * 32768) by (nonlinear_arith)
                    requires
                        0 <= offsets[s + 1] - offsets[0] <= 65535,
                ;
            }
        }
        lemma_first_index(overflow, n);
    }
}


impl<'a> IncrementalSession<'a> {
    /// Pop exactly undoes push.
    ///
    /// Popping the frame that a successful push installed gives back the
    /// abstract state the session had before the push: the same tokens,
    /// frames, history, materialized depth, pending count and features.
    pub proof fn lemma_pop_undoes_push(
        &self,
        deltas: Seq<SessionDelta>,
        pushed: SessionView,
        popped: SessionView,
    )
        requires
            self.wf(),
            pushed_view(self@, pushed, deltas),
            popped_view(pushed, popped),
        ensures
            popped == self@,
    {
        self.lemma_view_consistent();
        let before = self@;
        assert(pushed.depth() == before.depth() + 1);
        assert(popped.frames =~= before.frames);
        assert(popped.history =~= before.history);
        assert(popped.tokens == before.tokens);
        assert(popped.materialized_depth == before.materialized_depth);
        assert(popped.pending_deltas == before.pending_deltas);
        assert(popped.features == before.features);
    }
}


/// Some site of `groups` is assigned to group `q`.
pub open spec fn group_occupied(groups: Seq<u32>, q: int) -> bool {
    exists|s: int| 0 <= s < groups.len() && #[trigger] groups[s] as int == q
}

/// A reset is accepted exactly when the position fits the session's limits,
/// the offset table has one entry more than there are sites, starts at zero,
/// ends at the token count and never decreases, every group and token is one
/// the model knows, and, under mean pooling, every group has a site.
pub proof fn lemma_reset_accepts(v: SessionView, tokens: Seq<u16>, offsets: Seq<u32>, groups: Seq<u32>)
    ensures
        reset_error(v, tokens, offsets, groups) is None <==> {
            let n = groups.len() as int;
            &&& n <= v.limits.max_sites
            &&& tokens.len() <= v.limits.max_token_slots
            &&& offsets.len() == n + 1
            &&& offsets[0] == 0
            &&& offsets[n] as int == tokens.len()
            &&& forall|a: int, b: int| 0 <= a <= b <= n ==> offsets[a] <= offsets[b]
            &&& forall|s: int| 0 <= s < n ==> (#[trigger] groups[s] as int) < v.group_count
            &&& forall|k: int| 0 <= k < tokens.len() ==> (#[trigger] tokens[k] as int) < v.token_count
            &&& v.inference.pooling == Pooling::Mean ==> forall|q: int|
                0 <= q < v.group_count ==> #[trigger] group_occupied(groups, q)
        },
{
    let n = groups.len() as int;
    if n <= v.limits.max_sites && tokens.len() <= v.limits.max_token_slots && offsets.len() == n + 1
        && offsets[0] == 0 && offsets[n] as int == tokens.len() {
        let ints = ints_of_u32(offsets);
        lemma_first_decrease(ints, n);
        if first_decrease(ints, n) is None {
            lemma_monotone(ints, n);
            assert forall|a: int, b: int| 0 <= a <= b <= n implies offsets[a] <= offsets[b] by {
                assert(ints[a] <= ints[b]);
            }
        } else {
            let s = choose|s: int| 0 <= s < n && !#[trigger] step_ok(ints, s);
            assert(!(offsets[s] <= offsets[s + 1]));
        }
        let bad_group = group_is_bad(groups, v.group_count as int);
        lemma_first_index(bad_group, n);
        assert(first_index(bad_group, n) is None <==> forall|s: int|
            0 <= s < n ==> (#[trigger] groups[s] as int) < v.group_count) by {
            if first_index(bad_group, n) is None {
                assert forall|s: int| 0 <= s < n implies (#[trigger] groups[s] as int) < v.group_count by {
                    assert(!bad_group(s));
                }
            } else {
                let s = first_index(bad_group, n)->0;
                assert(bad_group(s));
            }
        }
        let bad_token = token_is_bad(tokens, v.token_count as int);
        lemma_first_index(bad_token, tokens.len() as int);
        assert(first_index(bad_token, tokens.len() as int) is None <==> forall|k: int|
            0 <= k < tokens.len() ==> (#[trigger] tokens[k] as int) < v.token_count) by {
            if first_index(bad_token, tokens.len() as int) is None {
                assert forall|k: int| 0 <= k < tokens.len() implies (#[trigger] tokens[k] as int)
                    < v.token_count by {
                    assert(!bad_token(k));
                }
            } else {
                let k = first_index(bad_token, tokens.len() as int)->0;
                assert(bad_token(k));
            }
        }
        let gi = ints_of_u32(groups);
        let empty = group_is_empty(gi);
        lemma_first_index(empty, v.group_count as int);
        assert(first_index(empty, v.group_count as int) is None <==> forall|q: int|
            0 <= q < v.group_count ==> #[trigger] group_occupied(groups, q)) by {
            if first_index(empty, v.group_count as int) is None {
                assert forall|q: int| 0 <= q < v.group_count implies #[trigger] group_occupied(groups, q) by {
                    assert(!empty(q));
                    lemma_group_size_positive(gi, n, q);
                    let s = choose|s: int| 0 <= s < n && #[trigger] gi[s] == q;
                    assert(groups[s] as int == q);
                }
            } else {
                let q = first_index(empty, v.group_count as int)->0;
                assert(empty(q));
                lemma_group_size_positive(gi, n, q);
                if group_occupied(groups, q) {
                    let s = choose|s: int| 0 <= s < n && #[trigger] groups[s] as int == q;
                    assert(gi[s] == q);
                }
            }
        }
    }
}

/// A push is accepted exactly when a position is installed, the stack has
/// room, the frame is within the per-frame limit, and the frame fits the
/// current tokens: every replacement names an existing site and lane, a known
/// token and the token now in its slot, and no slot is named twice.
pub proof fn lemma_push_accepts(v: SessionView, deltas: Seq<SessionDelta>)
    ensures
        push_error(v, deltas) is None <==> {
            &&& v.ready
            &&& v.depth() < v.limits.max_depth
            &&& deltas.len() <= v.limits.max_deltas_per_frame
            &&& frame_fits(v.tokens, v.offsets, v.site_count as int, v.token_count as int, deltas)
        },
{
    let fails = delta_fails(v.tokens, v.offsets, v.site_count as int, v.token_count as int, deltas);
    let n = deltas.len() as int;
    lemma_first_index(fails, n);
    let fits = frame_fits(v.tokens, v.offsets, v.site_count as int, v.token_count as int, deltas);
    if first_index(fails, n) is None {
        assert forall|i: int| 0 <= i < n implies delta_fits(
            v.tokens,
            v.offsets,
            v.site_count as int,
            v.token_count as int,
            #[trigger] deltas[i],
        ) by {
            assert(!fails(i));
        }
        assert forall|i: int, j: int| 0 <= i < j < n implies slot_of(v.offsets, #[trigger] deltas[i])
            != slot_of(v.offsets, #[trigger] deltas[j]) by {
            assert(!fails(j));
        }
        assert(fits);
    } else {
        let i = first_index(fails, n)->0;
        assert(fails(i));
        assert(delta_error(v.tokens, v.offsets, v.site_count as int, v.token_count as int, deltas, i)
            is Some);
        if fits {
            assert(delta_fits(
                v.tokens,
                v.offsets,
                v.site_count as int,
                v.token_count as int,
                deltas[i],
            ));
            if exists|j: int| 0 <= j < i && slot_of(v.offsets, #[trigger] deltas[j]) == slot_of(
                v.offsets,
                deltas[i],
            ) {
                let j = choose|j: int|
                    0 <= j < i && slot_of(v.offsets, #[trigger] deltas[j]) == slot_of(v.offsets, deltas[i]);
                assert(slot_of(v.offsets, deltas[j]) != slot_of(v.offsets, deltas[i]));
            }
        }
    }
}


/// Applying the first `j` replacements of a frame whose slots are distinct
/// and in range writes each of their new tokens and nothing else.
proof fn lemma_frame_writes(tokens: Seq<u16>, offsets: Seq<int>, frame: Seq<SessionDelta>, j: int)
    requires
        0 <= j <= frame.len(),
        forall|i: int| 0 <= i < frame.len() ==> 0 <= #[trigger] slot_of(offsets, frame[i]) < tokens.len(),
        forall|i: int, k: int|
            0 <= i < k < frame.len() ==> slot_of(offsets, #[trigger] frame[i]) != slot_of(
                offsets,
                #[trigger] frame[k],
            ),
    ensures
        apply_deltas(tokens, offsets, frame, j).len() == tokens.len(),
        forall|i: int|
            0 <= i < j ==> apply_deltas(tokens, offsets, frame, j)[slot_of(offsets, #[trigger] frame[i])]
                == frame[i].spec_new(),
        forall|k: int|
            0 <= k < tokens.len() && (forall|i: int| 0 <= i < j ==> slot_of(offsets, #[trigger] frame[i]) != k)
                ==> apply_deltas(tokens, offsets, frame, j)[k] == tokens[k],
    decreases j,
{
    if j > 0 {
        lemma_frame_writes(tokens, offsets, frame, j - 1);
        let d = frame[j - 1];
        assert(0 <= slot_of(offsets, d) < tokens.len());
        assert forall|i: int| 0 <= i < j implies apply_deltas(tokens, offsets, frame, j)[slot_of(
            offsets,
            #[trigger] frame[i],
        )] == frame[i].spec_new() by {
            if i < j - 1 {
                assert(slot_of(offsets, frame[i]) != slot_of(offsets, frame[j - 1]));
            }
        }
        assert forall|k: int|
            0 <= k < tokens.len() && (forall|i: int| 0 <= i < j ==> slot_of(offsets, #[trigger] frame[i]) != k)
                implies apply_deltas(tokens, offsets, frame, j)[k] == tokens[k] by {
            assert(slot_of(offsets, frame[j - 1]) != k);
            assert forall|i: int| 0 <= i < j - 1 implies slot_of(offsets, #[trigger] frame[i]) != k by {
                assert(0 <= i < j);
            }
        }
    }
}

impl<'a> IncrementalSession<'a> {
    /// A successful push writes each replacement's new token into its slot,
    /// leaves every other slot as it was, and adds one level to the stack.
    pub proof fn lemma_push_writes(&self, deltas: Seq<SessionDelta>, pushed: SessionView)
        requires
            self.wf(),
            push_error(self@, deltas) is None,
            pushed_view(self@, pushed, deltas),
        ensures
            pushed.depth() == self@.depth() + 1,
            pushed.tokens.len() == self@.tokens.len(),
            forall|i: int|
                0 <= i < deltas.len() ==> pushed.tokens[slot_of(self@.offsets, #[trigger] deltas[i])]
                    == deltas[i].spec_new(),
            forall|k: int|
                0 <= k < self@.tokens.len() && (forall|i: int|
                    0 <= i < deltas.len() ==> slot_of(self@.offsets, #[trigger] deltas[i]) != k)
                    ==> pushed.tokens[k] == self@.tokens[k],
    {
        self.lemma_invariants();
        lemma_push_accepts(self@, deltas);
        let v = self@;
        assert forall|i: int| 0 <= i < deltas.len() implies 0 <= #[trigger] slot_of(v.offsets, deltas[i])
            < v.tokens.len() by {
            assert(delta_fits(v.tokens, v.offsets, v.site_count as int, v.token_count as int, deltas[i]));
            lemma_slot_in_site(v.tokens, v.offsets, v.site_count as int, v.token_count as int, deltas[i]);
        }
        lemma_frame_writes(v.tokens, v.offsets, deltas, deltas.len() as int);
    }

    /// Pushes and pops keep the position installed by the last reset as the
    /// base of the history, which `rewind` returns to.
    pub proof fn lemma_base_position_kept(
        &self,
        deltas: Seq<SessionDelta>,
        pushed: SessionView,
        popped: SessionView,
    )
        requires
            self.wf(),
        ensures
            pushed_view(self@, pushed, deltas) ==> pushed.history[0] == self@.history[0],
            self@.depth() > 0 && popped_view(self@, popped) ==> popped.history[0] == self@.history[0],
    {
        self.lemma_invariants();
    }
}


/// The state after materializing `old_view`'s pending frames: only the
/// numeric state and the materialized depth change.
pub open spec fn materialized_view(old_view: SessionView, v: SessionView) -> bool {
    &&& v.same_setup(old_view)
    &&& v.tokens == old_view.tokens
    &&& v.frames == old_view.frames
    &&& v.history == old_view.history
    &&& v.pending_deltas == old_view.pending_deltas
    &&& v.materialized_depth == v.depth()
    &&& v.features == v.rebuilt_features()
}

impl<'a> IncrementalSession<'a> {
    /// Pop undoes push even when the pushed frame was materialized in
    /// between: the tokens, stack, history and pending count come back, and
    /// the materialized depth stays within the stack.
    pub proof fn lemma_pop_after_materialize(
        &self,
        deltas: Seq<SessionDelta>,
        pushed: SessionView,
        scored: SessionView,
        popped: SessionView,
    )
        requires
            self.wf(),
            pushed_view(self@, pushed, deltas),
            materialized_view(pushed, scored),
            popped_view(scored, popped),
        ensures
            popped.same_setup(self@),
            popped.tokens == self@.tokens,
            popped.frames == self@.frames,
            popped.history == self@.history,
            popped.pending_deltas == self@.pending_deltas,
            popped.materialized_depth == self@.depth(),
    {
        self.lemma_invariants();
        assert(popped.frames =~= self@.frames);
        assert(popped.history =~= self@.history);
    }
}

} // verus!
