//! Model shape and the flat integer codebook that inference reads.
//!
//! A model maps `token_count` token ids to `dim`-component embedding rows,
//! pools activated site sums into `group_count` groups, and scores the pooled
//! vector with a linear head and optional factorization-machine factors of
//! rank `fm_rank`.

use vstd::prelude::*;

verus! {

/// Error describing a malformed model or model shape.
#[derive(Clone, Debug, PartialEq, Eq)]
#[non_exhaustive]
pub enum ModelError {
    ZeroDimension(&'static str),
    ArithmeticOverflow(&'static str),
    NonPositiveScale(&'static str),
    LengthMismatch { field: &'static str, actual: usize, expected: usize },
    NonFinite(&'static str),
}

/// Validated dimensions of a codebook model.
#[derive(Clone, Copy, Debug, PartialEq, Eq)]
pub struct ModelShape {
    token_count: usize,
    group_count: usize,
    dim: usize,
    fm_rank: usize,
}

/// The error `ModelShape::new` reports for the given dimensions, if any.
///
/// Token, group and embedding counts must be non-zero; the factorization rank
/// may be zero. Embedding, feature and factor lengths must fit in `usize`.
pub open spec fn shape_error(token_count: int, group_count: int, dim: int, fm_rank: int) -> Option<
    ModelError,
> {
    if token_count == 0 {
        Some(ModelError::ZeroDimension("token_count"))
    } else if group_count == 0 {
        Some(ModelError::ZeroDimension("group_count"))
    } else if dim == 0 {
        Some(ModelError::ZeroDimension("dim"))
    } else if token_count * dim > usize::MAX {
        Some(ModelError::ArithmeticOverflow("embedding length"))
    } else if group_count * dim > usize::MAX {
        Some(ModelError::ArithmeticOverflow("feature length"))
    } else if group_count * dim * fm_rank > usize::MAX {
        Some(ModelError::ArithmeticOverflow("factor length"))
    } else {
        None
    }
}

impl ModelShape {
    #[verifier::type_invariant]
    spec fn well_formed(self) -> bool {
        shape_error(
            self.token_count as int,
            self.group_count as int,
            self.dim as int,
            self.fm_rank as int,
        ) is None
    }

    pub closed spec fn spec_token_count(self) -> nat {
        self.token_count as nat
    }

    pub closed spec fn spec_group_count(self) -> nat {
        self.group_count as nat
    }

    pub closed spec fn spec_dim(self) -> nat {
        self.dim as nat
    }

    pub closed spec fn spec_fm_rank(self) -> nat {
        self.fm_rank as nat
    }

    /// Validates and builds a shape.
    pub fn new(token_count: usize, group_count: usize, dim: usize, fm_rank: usize) -> (r: Result<
        Self,
        ModelError,
    >)
        ensures
            shape_error(token_count as int, group_count as int, dim as int, fm_rank as int) matches Some(
                e,
            ) ==> r == Err::<Self, ModelError>(e),
            shape_error(token_count as int, group_count as int, dim as int, fm_rank as int) is None
                ==> (r matches Ok(s) && s.valid() && s.spec_token_count() == token_count
                && s.spec_group_count() == group_count && s.spec_dim() == dim && s.spec_fm_rank()
                == fm_rank),
    {
        if token_count == 0 {
            return Err(ModelError::ZeroDimension("token_count"));
        }
        if group_count == 0 {
            return Err(ModelError::ZeroDimension("group_count"));
        }
        if dim == 0 {
            return Err(ModelError::ZeroDimension("dim"));
        }
        if token_count.checked_mul(dim).is_none() {
            return Err(ModelError::ArithmeticOverflow("embedding length"));
        }
        let feature_len = match group_count.checked_mul(dim) {
            Some(len) => len,
            None => return Err(ModelError::ArithmeticOverflow("feature length")),
        };
        if feature_len.checked_mul(fm_rank).is_none() {
            return Err(ModelError::ArithmeticOverflow("factor length"));
        }
        Ok(ModelShape { token_count, group_count, dim, fm_rank })
    }

    /// The shape's dimensions pass the validation of [`ModelShape::new`].
    pub open spec fn valid(self) -> bool {
        shape_error(
            self.spec_token_count() as int,
            self.spec_group_count() as int,
            self.spec_dim() as int,
            self.spec_fm_rank() as int,
        ) is None
    }

    pub fn token_count(&self) -> (r: usize)
        ensures
            r == self.spec_token_count(),
            self.valid(),
    {
        proof {
            use_type_invariant(self);
        }
        self.token_count
    }

    pub fn group_count(&self) -> (r: usize)
        ensures
            r == self.spec_group_count(),
            self.valid(),
    {
        proof {
            use_type_invariant(self);
        }
        self.group_count
    }

    pub fn dim(&self) -> (r: usize)
        ensures
            r == self.spec_dim(),
            self.valid(),
    {
        proof {
            use_type_invariant(self);
        }
        self.dim
    }

    pub fn fm_rank(&self) -> (r: usize)
        ensures
            r == self.spec_fm_rank(),
            self.valid(),
    {
        proof {
            use_type_invariant(self);
        }
        self.fm_rank
    }

    /// Number of embedding values, `token_count * dim`.
    pub fn embedding_len(&self) -> (r: Result<usize, ModelError>)
        ensures
            r matches Ok(n) && n == self.spec_token_count() * self.spec_dim(),
            self.valid(),
    {
        proof {
            use_type_invariant(self);
        }
        Ok(self.token_count * self.dim)
    }

    /// Number of pooled features and linear-head values, `group_count * dim`.
    pub fn feature_len(&self) -> (r: Result<usize, ModelError>)
        ensures
            r matches Ok(n) && n == self.spec_group_count() * self.spec_dim(),
            self.valid(),
    {
        proof {
            use_type_invariant(self);
        }
        Ok(self.group_count * self.dim)
    }

    /// Number of factorization-machine values, `group_count * dim * fm_rank`.
    pub fn factor_len(&self) -> (r: Result<usize, ModelError>)
        ensures
            r matches Ok(n) && n == self.spec_group_count() * self.spec_dim() * self.spec_fm_rank(),
            self.valid(),
    {
        proof {
            use_type_invariant(self);
        }
        Ok(self.group_count * self.dim * self.fm_rank)
    }
}

/// Whether an IEEE-754 single-precision bit pattern is finite.
pub open spec fn f32_bits_finite(bits: u32) -> bool {
    (bits >> 23u32) & 0xffu32 != 0xffu32
}

/// Exec form of [`f32_bits_finite`].
pub fn f32_bits_are_finite(bits: u32) -> (r: bool)
    ensures
        r == f32_bits_finite(bits),
{
    (bits >> 23u32) & 0xffu32 != 0xffu32
}

/// Whether an `f32` bit pattern is a finite value greater than zero.
pub open spec fn f32_bits_positive_finite(bits: u32) -> bool {
    0 < bits < 0x7F80_0000
}

/// Whether an `f32` bit pattern is a value in `0.0 .. 1.0` (negative zero
/// included, as `0.0 <= -0.0`).
pub open spec fn f32_bits_in_unit_interval(bits: u32) -> bool {
    bits < 0x3F80_0000 || bits == 0x8000_0000
}

/// Flat `i16` codebook model with per-part positive scales.
///
/// Token `t` owns `embeddings[t * dim .. (t + 1) * dim]`; the linear head has
/// one value per pooled feature and the factors `fm_rank` values per feature.
/// The floating-point bias is carried as its IEEE-754 bit pattern.
#[derive(Clone, Debug, PartialEq, Eq)]
pub struct QuantizedCodebookWeights {
    pub dim: usize,
    pub fm_rank: usize,
    pub embedding_scale: i32,
    pub head_scale: i32,
    pub factor_scale: i32,
    pub bias_bits: u32,
    pub embeddings: Vec<i16>,
    pub head: Vec<i16>,
    pub factors: Vec<i16>,
}

impl QuantizedCodebookWeights {
    /// Number of whole embedding rows.
    pub open spec fn spec_token_count(&self) -> nat {
        if self.dim == 0 {
            0
        } else {
            (self.embeddings@.len() / (self.dim as nat)) as nat
        }
    }

    /// Number of whole linear-head groups.
    pub open spec fn spec_group_count(&self) -> nat {
        if self.dim == 0 {
            0
        } else {
            (self.head@.len() / (self.dim as nat)) as nat
        }
    }

    /// Embedding component `component` of token `token`.
    pub open spec fn emb(&self, token: int, component: int) -> int {
        self.embeddings@[token * self.dim + component] as int
    }

    pub fn dim(&self) -> (r: usize)
        ensures
            r == self.dim,
    {
        self.dim
    }

    pub fn fm_rank(&self) -> (r: usize)
        ensures
            r == self.fm_rank,
    {
        self.fm_rank
    }

    pub fn token_count(&self) -> (r: usize)
        ensures
            r == self.spec_token_count(),
    {
        if self.dim == 0 {
            0
        } else {
            self.embeddings.len() / self.dim
        }
    }

    pub fn group_count(&self) -> (r: usize)
        ensures
            r == self.spec_group_count(),
    {
        if self.dim == 0 {
            0
        } else {
            self.head.len() / self.dim
        }
    }

    pub fn bias_is_finite(&self) -> (r: bool)
        ensures
            r == f32_bits_finite(self.bias_bits),
    {
        f32_bits_are_finite(self.bias_bits)
    }

    proof fn lemma_row_in_bounds(&self, token: int, component: int)
        requires
            0 <= token < self.spec_token_count(),
            0 <= component < self.dim,
        ensures
            0 <= token * self.dim,
            0 <= token * self.dim + component < self.embeddings@.len(),
    {
        let d = self.dim as int;
        let n = self.embeddings@.len() as int;
        assert(token * d + component < (token + 1) * d) by (nonlinear_arith)
            requires
                component < d,
        ;
        assert((token + 1) * d <= (n / d) * d) by (nonlinear_arith)
            requires
                token + 1 <= n / d,
                d > 0,
        ;
        assert((n / d) * d <= n) by (nonlinear_arith)
            requires
                d > 0,
                n >= 0,
        ;
        assert(0 <= token * d) by (nonlinear_arith)
            requires
                token >= 0,
                d > 0,
        ;
    }

    /// Embedding component `component` of token `token`.
    pub fn embedding(&self, token: u16, component: usize) -> (r: i16)
        requires
            (token as int) < self.spec_token_count(),
            component < self.dim,
        ensures
            r as int == self.emb(token as int, component as int),
    {
        let _len = self.embeddings.len();
        proof {
            self.lemma_row_in_bounds(token as int, component as int);
        }
        let row = token as usize * self.dim;
        self.embeddings[row + component]
    }

    /// Adds the embedding row of `token` to `out[start .. start + dim]`.
    pub fn add_embedding_to(&self, token: u16, out: &mut Vec<i32>, start: usize)
        requires
            (token as int) < self.spec_token_count(),
            start + self.dim <= old(out)@.len(),
            forall|c: int|
                0 <= c < self.dim ==> i32::MIN <= old(out)@[start + c] + #[trigger] self.emb(token as int, c)
                    <= i32::MAX,
        ensures
            final(out)@.len() == old(out)@.len(),
            forall|i: int|
                0 <= i < old(out)@.len() && !(start <= i < start + self.dim) ==> final(out)@[i]
                    == old(out)@[i],
            forall|c: int|
                0 <= c < self.dim ==> final(out)@[start + c] == old(out)@[start + c] + self.emb(
                    token as int,
                    c,
                ),
    {
        let dim = self.dim;
        let total = out.len();
        let mut component: usize = 0;
        while component < dim
            invariant
                dim == self.dim,
                start + dim <= total,
                total == old(out)@.len(),
                0 <= component <= dim,
                (token as int) < self.spec_token_count(),
                start + dim <= old(out)@.len(),
                out@.len() == old(out)@.len(),
                forall|c: int|
                    0 <= c < self.dim ==> i32::MIN <= old(out)@[start + c] + #[trigger] self.emb(token as int, c)
                        <= i32::MAX,
                forall|i: int|
                    0 <= i < old(out)@.len() && !(start <= i < start + component) ==> out@[i]
                        == old(out)@[i],
                forall|c: int|
                    0 <= c < component ==> out@[start + c] == old(out)@[start + c] + self.emb(
                        token as int,
                        c,
                    ),
            decreases dim - component,
        {
            let value = self.embedding(token, component);
            let index = start + component;
            let updated = out[index] + value as i32;
            out.set(index, updated);
            component += 1;
        }
    }

    /// `after` is `before` with the row of `new_token` added to and the row of
    /// `old_token` removed from `before[start .. start + dim]`, and nothing
    /// else changed.
    pub open spec fn row_replaced(
        &self,
        before: Seq<i32>,
        after: Seq<i32>,
        old_token: int,
        new_token: int,
        start: int,
    ) -> bool {
        &&& after.len() == before.len()
        &&& forall|i: int|
            0 <= i < before.len() && !(start <= i < start + self.dim) ==> after[i] == before[i]
        &&& forall|c: int|
            0 <= c < self.dim ==> after[start + c] == before[start + c] + self.emb(new_token, c)
                - self.emb(old_token, c)
    }

    /// Replacing a token and then replacing it back restores the buffer
    /// exactly.
    pub proof fn lemma_replacement_undo(
        &self,
        before: Seq<i32>,
        replaced: Seq<i32>,
        restored: Seq<i32>,
        old_token: int,
        new_token: int,
        start: int,
    )
        requires
            self.row_replaced(before, replaced, old_token, new_token, start),
            self.row_replaced(replaced, restored, new_token, old_token, start),
        ensures
            restored == before,
    {
        assert forall|i: int| 0 <= i < before.len() implies restored[i] == before[i] by {
            if start <= i < start + self.dim {
                let c = i - start;
                assert(restored[start + c] == replaced[start + c] + self.emb(old_token, c) - self.emb(
                    new_token,
                    c,
                ));
                assert(replaced[start + c] == before[start + c] + self.emb(new_token, c) - self.emb(
                    old_token,
                    c,
                ));
            }
        }
        assert(restored =~= before);
    }

    /// Replaces the contribution of `old_token` with that of `new_token` in
    /// `out[start .. start + dim]`.
    pub fn add_embedding_delta_to(&self, old_token: u16, new_token: u16, out: &mut Vec<i32>, start: usize)
        requires
            (old_token as int) < self.spec_token_count(),
            (new_token as int) < self.spec_token_count(),
            start + self.dim <= old(out)@.len(),
            forall|c: int|
                0 <= c < self.dim ==> i32::MIN <= old(out)@[start + c] + #[trigger] self.emb(new_token as int, c)
                    - self.emb(old_token as int, c) <= i32::MAX,
        ensures
            self.row_replaced(old(out)@, final(out)@, old_token as int, new_token as int, start as int),
    {
        let dim = self.dim;
        let total = out.len();
        let mut component: usize = 0;
        while component < dim
            invariant
                dim == self.dim,
                start + dim <= total,
                total == old(out)@.len(),
                0 <= component <= dim,
                (old_token as int) < self.spec_token_count(),
                (new_token as int) < self.spec_token_count(),
                start + dim <= old(out)@.len(),
                out@.len() == old(out)@.len(),
                forall|c: int|
                    0 <= c < self.dim ==> i32::MIN <= old(out)@[start + c] + #[trigger] self.emb(
                        new_token as int,
                        c,
                    ) - self.emb(old_token as int, c) <= i32::MAX,
                forall|i: int|
                    0 <= i < old(out)@.len() && !(start <= i < start + component) ==> out@[i]
                        == old(out)@[i],
                forall|c: int|
                    0 <= c < component ==> out@[start + c] == old(out)@[start + c] + self.emb(
                        new_token as int,
                        c,
                    ) - self.emb(old_token as int, c),
            decreases dim - component,
        {
            let removed = self.embedding(old_token, component) as i32;
            let added = self.embedding(new_token, component) as i32;
            let index = start + component;
            let updated = out[index] + (added - removed);
            out.set(index, updated);
            component += 1;
        }
    }
}

} // verus!
