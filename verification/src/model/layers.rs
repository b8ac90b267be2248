//! The numbers that the layers are built from and checked against.

use vstd::prelude::*;
use vstd::string::*;

use crate::config::{TimesFM2p5Config, TimesFM3Config};
use crate::decimal::{digits, push_count};
use crate::error::TimesfmError;
use crate::ieee::scalar::Single;

verus! {

/// How many numbers a token has: the points of a patch and of an output patch, and their masks.
pub fn token_dims(config: &TimesFM3Config) -> (r: usize)
    requires
        2 * (config.input_patch_len + config.output_patch_len) <= usize::MAX,
    ensures
        r == 2 * (config.input_patch_len + config.output_patch_len),
{
    2 * (config.input_patch_len + config.output_patch_len)
}

/// How many numbers the output head gives for a token: the points of an output patch at each level.
pub fn head_dims(config: &TimesFM3Config) -> (r: usize)
    requires
        config.output_patch_len * config.quantiles@.len() <= usize::MAX,
    ensures
        r == config.output_patch_len * config.quantiles@.len(),
{
    config.output_patch_len * config.quantiles.len()
}

/// How many numbers the horizon head gives: the points of the horizon at each level.
pub fn horizon_head_dims(config: &TimesFM2p5Config) -> (r: usize)
    requires
        config.horizon_length * config.quantiles@.len() <= usize::MAX,
    ensures
        r == config.horizon_length * config.quantiles@.len(),
{
    config.horizon_length * config.quantiles.len()
}

/// How many features each head of an attention layer looks at.
pub fn head_features(in_features: usize, num_heads: usize) -> (r: usize)
    requires
        num_heads > 0,
    ensures
        r == in_features as int / num_heads as int,
{
    in_features / num_heads
}

/// What is added to the score of token `key` as seen from token `query`: in causal attention, next
/// to nothing (-1e9) of what comes later is seen.
pub open spec fn attention_mask_spec(query: int, key: int, causal: bool) -> Single {
    if causal && query < key {
        Single { bits: 0xce6e_6b28 }
    } else {
        Single::zero()
    }
}

/// The mask of an attention layer over `n` tokens, row by row.
pub fn attention_mask(n: usize, causal: bool) -> (r: Vec<Single>)
    requires
        n * n <= usize::MAX,
    ensures
        r@.len() == n * n,
        forall|query: int, key: int|
            0 <= query < n && 0 <= key < n ==> r@[query * n + key]
                == #[trigger] attention_mask_spec(query, key, causal),
{
    let hidden = Single::from_bits(0xce6e_6b28);
    let mut r: Vec<Single> = Vec::new();
    let mut query: usize = 0;
    while query < n
        invariant
            query <= n,
            hidden == (Single { bits: 0xce6e_6b28 }),
            r@.len() == query * n,
            forall|a: int, b: int|
                0 <= a < query && 0 <= b < n ==> r@[a * n + b] == #[trigger] attention_mask_spec(
                    a,
                    b,
                    causal,
                ),
        decreases n - query,
    {
        let ghost start = r@;
        let mut key: usize = 0;
        while key < n
            invariant
                query < n,
                key <= n,
                hidden == (Single { bits: 0xce6e_6b28 }),
                start.len() == query * n,
                r@.len() == query * n + key,
                forall|i: int| 0 <= i < start.len() ==> r@[i] == start[i],
                forall|b: int|
                    0 <= b < key ==> r@[query * n + b] == #[trigger] attention_mask_spec(
                        query as int,
                        b,
                        causal,
                    ),
            decreases n - key,
        {
            r.push(
                if causal && query < key {
                    hidden
                } else {
                    Single::zero()
                },
            );
            key = key + 1;
        }
        proof {
            assert((query + 1) * n == query * n + n) by (nonlinear_arith);
            assert forall|a: int, b: int| 0 <= a < query + 1 && 0 <= b < n implies r@[a * n + b]
                == #[trigger] attention_mask_spec(a, b, causal) by {
                if a < query {
                    assert(0 <= a * n && a * n + n <= query * n) by (nonlinear_arith)
                        requires
                            0 <= a < query,
                            n >= 0,
                    ;
                    assert(r@[a * n + b] == start[a * n + b]);
                }
            }
        }
        query = query + 1;
    }
    r
}

/// Each token's place.
pub fn positions(n: usize) -> (r: Vec<Single>)
    ensures
        r@ == Seq::new(n as nat, |i: int| Single::from_count(i as usize)),
{
    let mut r: Vec<Single> = Vec::new();
    let mut i: usize = 0;
    while i < n
        invariant
            i <= n,
            r@.len() == i,
            forall|k: int| 0 <= k < i ==> r@[k] == Single::from_count(k as usize),
        decreases n - i,
    {
        r.push(Single::from_count(i));
        i = i + 1;
    }
    assert(r@ =~= Seq::new(n as nat, |i: int| Single::from_count(i as usize)));
    r
}

/// What is wrong with the shape of the inputs of a rotary embedding.
pub open spec fn rotary_fault(rank: usize, last_dim: usize, dims: usize) -> Option<Seq<char>> {
    if last_dim != dims {
        Some(
            "Inputs last dim "@ + digits(last_dim as nat) + " does not match RoPE embedding_dims "@
                + digits(dims as nat),
        )
    } else if rank != 3 && rank != 4 {
        Some("RoPE inputs must be of rank 3 or 4, got rank "@ + digits(rank as nat))
    } else {
        None
    }
}

/// Checks the shape of the inputs of a rotary embedding of `dims` features.
pub fn check_rotary_inputs(rank: usize, last_dim: usize, dims: usize) -> (r: Result<
    (),
    TimesfmError,
>)
    ensures
        match rotary_fault(rank, last_dim, dims) {
            Some(t) => r matches Err(TimesfmError::Candle(m)) && m@ == t,
            None => r is Ok,
        },
{
    if last_dim != dims {
        let mut t = "Inputs last dim ".to_owned();
        push_count(&mut t, last_dim);
        t.append(" does not match RoPE embedding_dims ");
        push_count(&mut t, dims);
        return Err(TimesfmError::Candle(t));
    }
    if rank != 3 && rank != 4 {
        let mut t = "RoPE inputs must be of rank 3 or 4, got rank ".to_owned();
        push_count(&mut t, rank);
        return Err(TimesfmError::Candle(t));
    }
    Ok(())
}

/// In causal attention a token sees itself and what came before it as it is, and next to nothing of
/// what comes later; in any other attention every token sees every token.
pub proof fn law_attention_sees_back_only(query: int, key: int)
    ensures
        key <= query ==> attention_mask_spec(query, key, true).number().magnitude == 0,
        key > query ==> attention_mask_spec(query, key, true) == Single::from_bits(0xce6e_6b28),
        attention_mask_spec(query, key, false).number().magnitude == 0,
{
}

/// The inputs of a rotary embedding are accepted exactly where their last dimension is the embedding's
/// and they have three or four dimensions; the last dimension is looked at first.
pub proof fn law_rotary_inputs(rank: usize, last_dim: usize, dims: usize)
    ensures
        rotary_fault(rank, last_dim, dims) is None <==> last_dim == dims && (rank == 3 || rank == 4),
        last_dim != dims ==> rotary_fault(rank, last_dim, dims) == Some(
            "Inputs last dim "@ + digits(last_dim as nat) + " does not match RoPE embedding_dims "@
                + digits(dims as nat),
        ),
        last_dim == dims && rank != 3 && rank != 4 ==> rotary_fault(rank, last_dim, dims) == Some(
            "RoPE inputs must be of rank 3 or 4, got rank "@ + digits(rank as nat),
        ),
{
}

} // verus!
