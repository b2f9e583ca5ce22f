//! Mathematical model of exact integer feature computation.
//!
//! These definitions say what a grouped integer feature vector is for a
//! token sequence, an offset table and a group assignment; both the one-shot
//! materialization and the incremental session are proved against them.

use vstd::prelude::*;

use crate::model::QuantizedCodebookWeights;
use crate::trainer::{Activation, Pooling};

verus! {

/// Largest magnitude of one `i16` embedding component.
pub open spec fn emb_bound() -> int {
    32768
}

/// Value of an activation applied to one integer component.
pub open spec fn activate_spec(activation: Activation, value: int) -> int {
    match activation {
        Activation::Identity => value,
        Activation::Relu => if value > 0 {
            value
        } else {
            0
        },
    }
}

/// Identity leaves a component unchanged; Relu is the larger of the
/// component and zero: never negative, never below the component, and equal
/// to one of the two. So Relu and Identity agree on every non-negative
/// component, however large.
pub proof fn lemma_activations(value: int)
    ensures
        activate_spec(Activation::Identity, value) == value,
        activate_spec(Activation::Relu, value) >= 0,
        activate_spec(Activation::Relu, value) >= value,
        activate_spec(Activation::Relu, value) == value || activate_spec(Activation::Relu, value) == 0,
        value >= 0 ==> activate_spec(Activation::Relu, value) == activate_spec(Activation::Identity, value),
        value <= 0 ==> activate_spec(Activation::Relu, value) == 0,
{
}

/// Component `c` of the embedding sum of `tokens[lo .. hi]`.
pub open spec fn site_sum(w: QuantizedCodebookWeights, tokens: Seq<u16>, lo: int, hi: int, c: int) -> int
    decreases hi - lo,
{
    if hi <= lo {
        0
    } else {
        site_sum(w, tokens, lo, hi - 1, c) + w.emb(tokens[hi - 1] as int, c)
    }
}

/// Component `c` of group `g`: the activated site sums of the first `n` sites
/// that belong to `g`.
pub open spec fn group_sum(
    w: QuantizedCodebookWeights,
    activation: Activation,
    tokens: Seq<u16>,
    offsets: Seq<int>,
    groups: Seq<int>,
    n: int,
    g: int,
    c: int,
) -> int
    decreases n,
{
    if n <= 0 {
        0
    } else {
        group_sum(w, activation, tokens, offsets, groups, n - 1, g, c) + if groups[n - 1] == g {
            activate_spec(activation, site_sum(w, tokens, offsets[n - 1], offsets[n], c))
        } else {
            0
        }
    }
}

/// Number of the first `n` sites assigned to group `g`.
pub open spec fn group_size(groups: Seq<int>, n: int, g: int) -> nat
    decreases n,
{
    if n <= 0 {
        0
    } else {
        group_size(groups, n - 1, g) + if groups[n - 1] == g {
            1nat
        } else {
            0nat
        }
    }
}

/// Pooled integer features of every site: entry `g * dim + c` is
/// component `c` of group `g`.
pub open spec fn grouped_features(
    w: QuantizedCodebookWeights,
    activation: Activation,
    tokens: Seq<u16>,
    offsets: Seq<int>,
    groups: Seq<int>,
    group_count: nat,
) -> Seq<int> {
    let dim = w.dim as int;
    let n = groups.len() as int;
    Seq::new(
        group_count * (w.dim as nat),
        |i: int| group_sum(w, activation, tokens, offsets, groups, n, i / dim, i % dim),
    )
}

/// Pooling divisor of every group: one for sum pooling, the site count of the
/// group for mean pooling.
pub open spec fn group_divisors_spec(pooling: Pooling, groups: Seq<int>, group_count: nat) -> Seq<int> {
    Seq::new(
        group_count,
        |g: int|
            match pooling {
                Pooling::Sum => 1,
                Pooling::Mean => group_size(groups, groups.len() as int, g) as int,
            },
    )
}

/// Groups that no site is assigned to.
pub open spec fn group_is_empty(groups: Seq<int>) -> spec_fn(int) -> bool {
    |g: int| group_size(groups, groups.len() as int, g) == 0
}

/// Whether a value is representable as an `i32`.
pub open spec fn fits_i32(x: int) -> bool {
    i32::MIN <= x <= i32::MAX
}


/// Component `c` of the contribution of site `s` to group `g`.
pub open spec fn site_term(
    w: QuantizedCodebookWeights,
    activation: Activation,
    tokens: Seq<u16>,
    offsets: Seq<int>,
    groups: Seq<int>,
    s: int,
    g: int,
    c: int,
) -> int {
    if groups[s] == g {
        activate_spec(activation, site_sum(w, tokens, offsets[s], offsets[s + 1], c))
    } else {
        0
    }
}

/// Offsets never decrease between sites `0` and `n`.
pub open spec fn monotone_upto(offsets: Seq<int>, n: int) -> bool {
    &&& 0 <= n < offsets.len()
    &&& 0 <= offsets[0]
    &&& forall|i: int, j: int| 0 <= i <= j <= n ==> offsets[i] <= offsets[j]
}

pub proof fn lemma_activate_bound(activation: Activation, x: int, b: int)
    requires
        -b <= x <= b,
    ensures
        -b <= activate_spec(activation, x) <= b,
        activation == Activation::Relu ==> activate_spec(activation, x) >= 0,
{
}

pub proof fn lemma_site_sum_bound(w: QuantizedCodebookWeights, tokens: Seq<u16>, lo: int, hi: int, c: int)
    requires
        lo <= hi,
    ensures
        -(hi - lo) * emb_bound() <= site_sum(w, tokens, lo, hi, c) <= (hi - lo) * emb_bound(),
    decreases hi - lo,
{
    if hi > lo {
        lemma_site_sum_bound(w, tokens, lo, hi - 1, c);
        let e = w.emb(tokens[hi - 1] as int, c);
        assert(-32768 <= e <= 32767);
    }
}

pub proof fn lemma_group_sum_bound(
    w: QuantizedCodebookWeights,
    activation: Activation,
    tokens: Seq<u16>,
    offsets: Seq<int>,
    groups: Seq<int>,
    n: int,
    g: int,
    c: int,
)
    requires
        monotone_upto(offsets, n),
    ensures
        -(offsets[n] - offsets[0]) * emb_bound() <= group_sum(
            w,
            activation,
            tokens,
            offsets,
            groups,
            n,
            g,
            c,
        ) <= (offsets[n] - offsets[0]) * emb_bound(),
        activation == Activation::Relu ==> group_sum(w, activation, tokens, offsets, groups, n, g, c)
            >= 0,
    decreases n,
{
    if n > 0 {
        lemma_group_sum_bound(w, activation, tokens, offsets, groups, n - 1, g, c);
        lemma_site_sum_bound(w, tokens, offsets[n - 1], offsets[n], c);
        let x = site_sum(w, tokens, offsets[n - 1], offsets[n], c);
        lemma_activate_bound(activation, x, (offsets[n] - offsets[n - 1]) * emb_bound());
        assert((offsets[n] - offsets[0]) * emb_bound() == (offsets[n - 1] - offsets[0]) * emb_bound()
            + (offsets[n] - offsets[n - 1]) * emb_bound());
    }
}

pub proof fn lemma_group_sum_without_bound(
    w: QuantizedCodebookWeights,
    activation: Activation,
    tokens: Seq<u16>,
    offsets: Seq<int>,
    groups: Seq<int>,
    n: int,
    g: int,
    c: int,
    s: int,
)
    requires
        monotone_upto(offsets, n),
        0 <= s < n,
    ensures
        -(offsets[n] - offsets[0]) * emb_bound() <= group_sum(
            w,
            activation,
            tokens,
            offsets,
            groups,
            n,
            g,
            c,
        ) - site_term(w, activation, tokens, offsets, groups, s, g, c) <= (offsets[n] - offsets[0])
            * emb_bound(),
    decreases n,
{
    if s == n - 1 {
        lemma_group_sum_bound(w, activation, tokens, offsets, groups, n - 1, g, c);
        assert((offsets[n] - offsets[0]) * emb_bound() >= (offsets[n - 1] - offsets[0]) * emb_bound());
    } else {
        lemma_group_sum_without_bound(w, activation, tokens, offsets, groups, n - 1, g, c, s);
        lemma_site_sum_bound(w, tokens, offsets[n - 1], offsets[n], c);
        let x = site_sum(w, tokens, offsets[n - 1], offsets[n], c);
        lemma_activate_bound(activation, x, (offsets[n] - offsets[n - 1]) * emb_bound());
        assert((offsets[n] - offsets[0]) * emb_bound() == (offsets[n - 1] - offsets[0]) * emb_bound()
            + (offsets[n] - offsets[n - 1]) * emb_bound());
    }
}

pub proof fn lemma_site_sum_update(
    w: QuantizedCodebookWeights,
    tokens: Seq<u16>,
    p: int,
    new: u16,
    lo: int,
    hi: int,
    c: int,
)
    requires
        0 <= p < tokens.len(),
        0 <= lo,
        hi <= tokens.len(),
    ensures
        site_sum(w, tokens.update(p, new), lo, hi, c) == site_sum(w, tokens, lo, hi, c) + if lo <= p
            < hi {
            w.emb(new as int, c) - w.emb(tokens[p] as int, c)
        } else {
            0
        },
    decreases hi - lo,
{
    if hi > lo {
        lemma_site_sum_update(w, tokens, p, new, lo, hi - 1, c);
    }
}

pub proof fn lemma_site_sum_same(w: QuantizedCodebookWeights, a: Seq<u16>, b: Seq<u16>, lo: int, hi: int, c: int)
    requires
        0 <= lo,
        hi <= a.len(),
        hi <= b.len(),
        forall|i: int| lo <= i < hi ==> a[i] == b[i],
    ensures
        site_sum(w, a, lo, hi, c) == site_sum(w, b, lo, hi, c),
    decreases hi - lo,
{
    if hi > lo {
        lemma_site_sum_same(w, a, b, lo, hi - 1, c);
    }
}

pub proof fn lemma_group_sum_update(
    w: QuantizedCodebookWeights,
    activation: Activation,
    tokens: Seq<u16>,
    offsets: Seq<int>,
    groups: Seq<int>,
    total: int,
    n: int,
    g: int,
    c: int,
    s: int,
    p: int,
    new: u16,
)
    requires
        monotone_upto(offsets, total),
        offsets[total] <= tokens.len(),
        0 <= n <= total,
        0 <= s < total,
        offsets[s] <= p < offsets[s + 1],
    ensures
        group_sum(w, activation, tokens.update(p, new), offsets, groups, n, g, c) == group_sum(
            w,
            activation,
            tokens,
            offsets,
            groups,
            n,
            g,
            c,
        ) + if s < n {
            site_term(w, activation, tokens.update(p, new), offsets, groups, s, g, c) - site_term(
                w,
                activation,
                tokens,
                offsets,
                groups,
                s,
                g,
                c,
            )
        } else {
            0
        },
    decreases n,
{
    if n > 0 {
        lemma_group_sum_update(w, activation, tokens, offsets, groups, total, n - 1, g, c, s, p, new);
        let k = n - 1;
        assert(offsets[0] <= offsets[k] <= offsets[k + 1] <= offsets[total]);
        lemma_site_sum_update(w, tokens, p, new, offsets[k], offsets[k + 1], c);
        if k != s {
            if k < s {
                assert(offsets[k + 1] <= offsets[s]);
            } else {
                assert(offsets[s + 1] <= offsets[k]);
            }
        }
    }
}


/// The first `i < n` with `p(i)`.
pub open spec fn first_index(p: spec_fn(int) -> bool, n: int) -> Option<int>
    decreases n,
{
    if n <= 0 {
        None
    } else {
        match first_index(p, n - 1) {
            Some(i) => Some(i),
            None => if p(n - 1) {
                Some(n - 1)
            } else {
                None
            },
        }
    }
}

pub proof fn lemma_first_index(p: spec_fn(int) -> bool, n: int)
    requires
        0 <= n,
    ensures
        first_index(p, n) is None <==> forall|i: int| 0 <= i < n ==> !#[trigger] p(i),
        first_index(p, n) matches Some(i) ==> 0 <= i < n && p(i) && forall|j: int|
            0 <= j < i ==> !#[trigger] p(j),
    decreases n,
{
    if n > 0 {
        lemma_first_index(p, n - 1);
    }
}

pub proof fn lemma_first_index_stable(p: spec_fn(int) -> bool, k: int, m: int)
    requires
        0 <= k <= m,
        first_index(p, k) is Some,
    ensures
        first_index(p, m) == first_index(p, k),
    decreases m - k,
{
    if m > k {
        lemma_first_index_stable(p, k, m - 1);
    }
}

/// Splits a flat row-major index into its row and column.
pub proof fn lemma_div_mod_index(i: int, dim: int, rows: int)
    requires
        0 <= i < rows * dim,
        dim > 0,
    ensures
        0 <= i / dim < rows,
        0 <= i % dim < dim,
        (i / dim) * dim + i % dim == i,
{
    vstd::arithmetic::div_mod::lemma_fundamental_div_mod(i, dim);
    assert(0 <= i % dim < dim) by {
        vstd::arithmetic::div_mod::lemma_mod_pos_bound(i, dim);
    }
    assert(0 <= i / dim) by {
        vstd::arithmetic::div_mod::lemma_div_pos_is_pos(i, dim);
    }
    assert((i / dim) * dim + i % dim == i) by {
        vstd::arithmetic::mul::lemma_mul_is_commutative(i / dim, dim);
    }
    let q = i / dim;
    let r = i % dim;
    assert(q < rows) by (nonlinear_arith)
        requires
            q * dim + r == i,
            i < rows * dim,
            0 <= r,
            dim > 0,
    ;
}


pub proof fn lemma_group_size_bound(groups: Seq<int>, n: int, g: int)
    requires
        0 <= n,
    ensures
        group_size(groups, n, g) <= n,
    decreases n,
{
    if n > 0 {
        lemma_group_size_bound(groups, n - 1, g);
    }
}

pub proof fn lemma_flat_index(row: int, c: int, rows: int, dim: int)
    requires
        0 <= row < rows,
        0 <= c < dim,
    ensures
        0 <= row * dim,
        row * dim + c < rows * dim,
        row * dim + dim <= rows * dim,
{
    assert(row * dim + c < rows * dim) by (nonlinear_arith)
        requires
            0 <= row < rows,
            0 <= c < dim,
    ;
    assert(row * dim + dim <= rows * dim) by (nonlinear_arith)
        requires
            0 <= row < rows,
            0 <= c < dim,
    ;
    assert(0 <= row * dim) by (nonlinear_arith)
        requires
            0 <= row,
            0 <= c < dim,
    ;
}

pub proof fn lemma_flat_index_distinct(row: int, c: int, other: int, oc: int, dim: int)
    requires
        0 <= row,
        0 <= other,
        0 <= c < dim,
        0 <= oc < dim,
        row != other,
    ensures
        !(row * dim <= other * dim + oc < row * dim + dim),
{
    if other < row {
        assert(other * dim + oc < row * dim) by (nonlinear_arith)
            requires
                other < row,
                0 <= oc < dim,
        ;
    } else {
        assert(row * dim + dim <= other * dim) by (nonlinear_arith)
            requires
                row < other,
                0 <= c < dim,
        ;
    }
}


/// A group has a site among the first `n` exactly when its count is
/// positive.
pub proof fn lemma_group_size_positive(groups: Seq<int>, n: int, g: int)
    requires
        0 <= n <= groups.len(),
    ensures
        group_size(groups, n, g) > 0 <==> exists|s: int| 0 <= s < n && #[trigger] groups[s] == g,
    decreases n,
{
    if n > 0 {
        lemma_group_size_positive(groups, n - 1, g);
        if groups[n - 1] == g {
            assert(groups[n - 1] == g);
        } else if exists|s: int| 0 <= s < n && #[trigger] groups[s] == g {
            let s = choose|s: int| 0 <= s < n && #[trigger] groups[s] == g;
            assert(s < n - 1);
        }
    }
}

} // verus!
